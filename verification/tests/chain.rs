//! Inference through a chain of connected nodes.
use hyverk::frames::binary_payload;
use hyverk::messages::{ClientMessage, CoordinatorMessage};
use hyverk::ws_handler::{
    hop_position, ordinary_tokens, InferenceRefusal, Outgoing, WsNode, WsState,
};

const REQUEST: &str = "0123456789abcdef0123456789abcdef0123";

fn node(id: &str, name: &str, has_gpu: bool) -> WsNode {
    WsNode {
        node_id: id.to_string(),
        node_name: name.to_string(),
        has_gpu,
        ram_mb: 10,
        state: "connecting".to_string(),
        state_detail: String::new(),
        client_version: "1".to_string(),
        os: "linux".to_string(),
    }
}

fn ready(s: &mut WsState<f32>, id: &str) {
    let message =
        ClientMessage::StateUpdate { state: "ready".to_string(), detail: "d".to_string() };
    assert!(s.handle_client_message(id, message, true, 0).is_empty());
}

/// Two nodes that serve fourteen layers each.
fn serving() -> WsState<f32> {
    let mut s: WsState<f32> = WsState::new();
    s.register_node(node("i1", "a", true), true, 0);
    s.register_node(node("i2", "b", true), true, 0);
    ready(&mut s, "i1");
    ready(&mut s, "i2");
    s
}

#[test]
fn registered_nodes_get_layers() {
    let mut s: WsState<f32> = WsState::new();
    assert!(s.register_node(node("i0", "z", false), true, 0).is_empty());
    assert!(s.register_node(node("i1", "a", true), false, 0).is_empty());
    let out = s.register_node(node("i2", "b", true), true, 0);
    let sent: Vec<(String, usize, usize)> = out
        .into_iter()
        .map(|o| match o {
            Outgoing::Send {
                node_id,
                message: CoordinatorMessage::LayerAssignment { layer_start, layer_end, .. },
            } => (node_id, layer_start, layer_end),
            _ => panic!("no assignment"),
        })
        .collect();
    assert_eq!(sent, vec![("i1".to_string(), 0, 14), ("i2".to_string(), 14, 28)]);
    assert_eq!(s.node_count(), 3);
}

#[test]
fn one_connection_per_name() {
    let mut s = serving();
    s.register_node(node("i3", "a", true), true, 0);
    assert_eq!(s.node_count(), 2);
    assert!(s.nodes.iter().all(|n| n.node_id != "i1"));
    assert_eq!(s.node_stats.records().len(), 2);
}

#[test]
fn chain_covers_every_layer() {
    let s = serving();
    let chain = s.build_inference_chain();
    assert_eq!(chain.len(), 2);
    assert_eq!((chain[0].layer_start, chain[0].layer_end, chain[0].is_last), (0, 14, false));
    assert_eq!((chain[1].layer_start, chain[1].layer_end, chain[1].is_last), (14, 28, true));
    assert_eq!(hop_position(&chain[0]), "first");
    assert_eq!(hop_position(&chain[1]), "last");
    let status = s.cluster_status();
    assert_eq!(status.status, "operational");
    assert_eq!(status.nodes.len(), 2);
}

#[test]
fn request_runs_through_the_chain() {
    let mut s = serving();
    let (guard, chain) = match s.begin_inference("p") {
        Ok(r) => r,
        Err(e) => panic!("{}", e.message()),
    };
    let out = s.submit_inference(REQUEST.to_string(), guard, chain, vec![1, 2], 2, 0.5, None, Some(4));
    match out {
        Outgoing::SendOrFail {
            node_id,
            message: CoordinatorMessage::InferenceStart { token_ids, layer_end, temperature, .. },
            ..
        }
        | Outgoing::Send {
            node_id,
            message: CoordinatorMessage::InferenceStart { token_ids, layer_end, temperature, .. },
        } => {
            assert_eq!(node_id, "i1");
            assert_eq!(token_ids, vec![1, 2]);
            assert_eq!(layer_end, 14);
            assert_eq!(temperature, Some(0.5));
        }
        _ => panic!("no start"),
    }
    assert_eq!(s.cluster_mgr.snapshot().active.unwrap().in_flight, 1);

    let hop = s.handle_binary_data(&binary_payload(REQUEST, &vec![7])).unwrap();
    assert_eq!(hop.node_id, "i2");
    assert_eq!(hop.payload, binary_payload(REQUEST, &vec![7]));
    match hop.message {
        CoordinatorMessage::InferenceForward { is_last, temperature, top_k, .. } => {
            assert!(is_last);
            assert_eq!(temperature, Some(0.5));
            assert_eq!(top_k, Some(4));
        }
        other => panic!("{other:?}"),
    }

    let out = s.handle_generated_token(REQUEST, 11, false);
    match &out[..] {
        [Outgoing::SendOrFail {
            node_id,
            message: CoordinatorMessage::InferenceContinue { new_token_id, .. },
            ..
        }] => {
            assert_eq!(node_id, "i1");
            assert_eq!(*new_token_id, 11);
        }
        _ => panic!("does not go on"),
    }

    let out = s.handle_generated_token(REQUEST, 12, false);
    assert_eq!(out.len(), 3);
    match &out[0] {
        Outgoing::Completed { request_id, result } => {
            assert_eq!(request_id, REQUEST);
            assert_eq!(result.generated_ids, vec![11, 12]);
            assert_eq!(result.tokens, 2);
            assert_eq!(result.cluster[0].position, "first/middle");
            assert_eq!(result.cluster[1].layers, "14-28");
        }
        _ => panic!("not completed"),
    }
    assert!(matches!(
        &out[1],
        Outgoing::Send { message: CoordinatorMessage::InferenceEnd { .. }, .. }
    ));
    assert!(s.pending_forwards.is_empty());
    assert_eq!(s.cluster_mgr.snapshot().active.unwrap().in_flight, 0);
    assert!(s.handle_generated_token(REQUEST, 13, true).is_empty());
}

#[test]
fn end_of_text_ends_the_request() {
    let mut s = serving();
    let (guard, chain) = s.begin_inference("p").ok().unwrap();
    s.submit_inference(REQUEST.to_string(), guard, chain, vec![1], 100, 0.5, None, None);
    assert!(matches!(s.handle_generated_token(REQUEST, 9, true)[0], Outgoing::Completed { .. }));
}

#[test]
fn requests_are_refused() {
    let mut s: WsState<f32> = WsState::new();
    let refused = |r: Result<_, InferenceRefusal>| r.map(|_: (_, _)| ()).unwrap_err();
    let e = refused(s.begin_inference(""));
    assert!(matches!(e, InferenceRefusal::PromptRequired));
    assert_eq!(e.message(), "prompt required");
    assert_eq!(e.hint(), None);
    let e = refused(s.begin_inference("p"));
    assert!(matches!(e, InferenceRefusal::NotOperational));
    assert_eq!(e.message(), "Inference cluster not operational");
    assert_eq!(InferenceRefusal::NoNodes.message(), "No inference nodes connected via WebSocket");
    assert!(InferenceRefusal::NoNodes.hint().is_some());
}

#[test]
fn lost_node_fails_its_requests() {
    let mut s = serving();
    let (guard, chain) = s.begin_inference("p").ok().unwrap();
    s.submit_inference(REQUEST.to_string(), guard, chain, vec![1], 100, 0.5, None, None);
    let (failed, out) = s.handle_disconnect("i1", true, 5);
    assert_eq!(failed, vec![REQUEST.to_string()]);
    assert_eq!(out.len(), 1);
    assert_eq!(s.node_count(), 1);
    assert!(s.pending_forwards.is_empty());
    assert!(s.handle_disconnect("i1", true, 5).0.is_empty());
}

#[test]
fn failed_request_frees_one_place() {
    let mut s = serving();
    for id in ["x", "y"] {
        let (guard, chain) = s.begin_inference("p").ok().unwrap();
        s.submit_inference(id.to_string(), guard, chain, vec![1], 100, 0.5, None, None);
    }
    assert!(s.fail_pending_request("x"));
    assert!(!s.fail_pending_request("x"));
    assert_eq!(s.cluster_mgr.snapshot().active.unwrap().in_flight, 1);
    assert!(!s.abandon_inference("y").is_empty());
    assert_eq!(s.cluster_mgr.snapshot().active.unwrap().in_flight, 0);
}

#[test]
fn state_of_a_node_is_kept() {
    let mut s = serving();
    s.update_node_state("i1", "reinitializing".to_string(), "again".to_string());
    let n = s.nodes.iter().find(|n| n.node_id == "i1").unwrap();
    assert_eq!((n.state.as_str(), n.state_detail.as_str()), ("reinitializing", "again"));
    assert!(s.handle_binary_data(&vec![0; 35]).is_none());
    assert!(s.route_forward_result("nobody", &vec![]).is_none());
    assert!(!ordinary_tokens(&vec![1, 151645, 2]).contains(&151645));
}

#[test]
fn layers_go_by_name() {
    let mut s: WsState<f32> = WsState::new();
    s.register_node(node("i1", "z", true), true, 0);
    let out = s.register_node(node("i2", "a", true), true, 0);
    match &out[0] {
        Outgoing::Send {
            node_id,
            message: CoordinatorMessage::LayerAssignment { layer_start, skip_download, .. },
        } => {
            assert_eq!(node_id, "i2");
            assert_eq!(*layer_start, 0);
            assert!(!skip_download);
        }
        _ => panic!("no assignment"),
    }
}
