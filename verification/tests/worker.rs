//! What a node does: its connection, its layers, its tasks and its engine.
use hyverk::comms::{run_inference_chain, ConnectedNode, WsClient, WsServer};
use hyverk::frames::binary_payload;
use hyverk::messages::{ClientMessage, CoordinatorMessage};
use hyverk::node::coordinator_client::{
    derive_base_url, parse_heartbeat_reply, parse_poll_reply, register_url, CoordinatorConnection,
    HeartbeatOutcome,
};
use hyverk::node::engine::{list_models, model_path, Generation, GenerationStep, ModelCache};
use hyverk::node::layer_worker::{
    claimed_assignment, keeps_tokenizer, next_step, shard_lines, training_args, training_files,
    training_result, LayerEvent, LayerStep, TrainError, TrainRun, TrainingEndpoints,
};
use hyverk::node::worker::{execute_task, inference_worker_args, task_prompt, ClusterAnswer};
use hyverk::node::ws_worker::{
    answer_error_text, download_args, download_error, has_weights, parse_generate_answer,
    parse_layer_range, parse_shape_header, parse_tcp_answer, serve_args, shape_header,
    DownloadStep, ForwardResponse, WorkerAction, WsResponse, WsWorker,
};
use hyverk::node::{backoff_secs, detect_gpu, TaskSlots};

fn worker() -> WsWorker<f32> {
    WsWorker::new("https://c.dev/", "n", "M3", true, 100, "/m")
}

fn state_of(m: ClientMessage<f32>) -> (String, String) {
    match m {
        ClientMessage::StateUpdate { state, detail } => (state, detail),
        other => panic!("{other:?}"),
    }
}

fn assignment(from: usize, to: usize, skip_download: bool) -> CoordinatorMessage<f32> {
    CoordinatorMessage::LayerAssignment {
        layer_start: from,
        layer_end: to,
        skip_download,
        generation: 1,
    }
}

#[test]
fn worker_connects() {
    let w = worker();
    assert_eq!(w.ws_url, "wss://c.dev/ws");
    assert_eq!(w.coordinator_http, "https://c.dev/");
    assert_eq!(state_of(w.initial_state()).0, "connecting");
    let cpu: WsWorker<f32> = WsWorker::new("http://c", "n", "", false, 100, "/m");
    assert_eq!(cpu.ws_url, "ws://c/ws");
    assert_eq!(
        state_of(cpu.initial_state()),
        ("ready".to_string(), "CPU node — training/synthesis only".to_string())
    );
    match w.registration("1".to_string(), "linux".to_string()) {
        ClientMessage::Register { node_name, has_gpu, layer_range, os, .. } => {
            assert_eq!(node_name, "n");
            assert!(has_gpu);
            assert_eq!(layer_range, None);
            assert_eq!(os, "linux");
        }
        other => panic!("{other:?}"),
    }
}

#[test]
fn assigned_layers_are_downloaded() {
    let mut w = worker();
    match w.handle_coordinator_message(assignment(10, 19, false)) {
        WorkerAction::Download { announce, cache, layer_start, layer_end } => {
            assert_eq!(state_of(announce).1, "Downloading layers 10-19");
            assert_eq!(cache, "/m/inference_layers_10_19");
            assert_eq!((layer_start, layer_end), (10, 19));
        }
        _ => panic!("no download"),
    }
    assert_eq!(w.current_model_dir(), "/m/inference_layers_10_19");
    assert!(matches!(w.on_download(1, false), DownloadStep::Retry));
    assert!(matches!(w.on_download(2, false), DownloadStep::Retry));
    match w.on_download(3, false) {
        DownloadStep::GiveUp(m) => {
            assert_eq!(state_of(m), ("error".to_string(), "Layer download failed".to_string()))
        }
        _ => panic!("goes on"),
    }
    assert!(w.download_failed && !w.layers_ready);
    assert!(matches!(w.on_download(1, true), DownloadStep::StartServer));
    assert!(w.layers_ready);
    let served = state_of(WsWorker::<f32>::on_served(10, 19));
    assert_eq!(served.1, "Layers 10-19 loaded, inference server running");
    match w.handle_coordinator_message(assignment(10, 19, true)) {
        WorkerAction::Reply(m) => assert_eq!(state_of(m).0, "ready"),
        _ => panic!("no reply"),
    }
}

#[test]
fn layer_range_is_read_back() {
    assert_eq!(parse_layer_range("/m/inference_layers_10_19"), (10, 19));
    assert_eq!(parse_layer_range("/m/inference_layers_x_y"), (0, 28));
    assert_eq!(parse_layer_range("/m/model"), (0, 28));
}

#[test]
fn sampling_lives_with_its_request() {
    let mut w = worker();
    w.handle_coordinator_message(assignment(14, 28, true));
    let start = CoordinatorMessage::InferenceStart {
        request_id: "r".to_string(),
        token_ids: vec![1, 2],
        layer_start: 14,
        layer_end: 28,
        max_tokens: 9,
        temperature: Some(0.5),
        top_p: None,
        top_k: Some(4),
    };
    match w.handle_coordinator_message(start) {
        WorkerAction::Embed { request_id, token_ids } => {
            assert_eq!(request_id, "r");
            assert_eq!(token_ids, vec![1, 2]);
        }
        _ => panic!("no embedding"),
    }
    let again = CoordinatorMessage::InferenceContinue {
        request_id: "r".to_string(),
        new_token_id: 7,
        layer_start: 14,
        layer_end: 28,
        max_tokens: 9,
        temperature: 0.25,
        top_p: Some(0.75),
        top_k: None,
    };
    assert!(matches!(
        w.handle_coordinator_message(again),
        WorkerAction::EmbedStep { token_id: 7, .. }
    ));
    let job = w.handle_binary_forward(&binary_payload("r", &vec![0; 3 * 7168])).unwrap();
    assert_eq!(job.request_id, "r");
    assert_eq!(job.mode, "generate");
    assert!(job.is_last);
    assert_eq!(job.seq_len, 3);
    assert_eq!(job.sampling.temperature, Some(0.25));
    assert_eq!(job.sampling.top_p, Some(0.75));
    assert_eq!(job.sampling.top_k, Some(4));
    let end = CoordinatorMessage::InferenceEnd { request_id: "r".to_string() };
    assert!(matches!(w.handle_coordinator_message(end), WorkerAction::ClearCache { .. }));
    let job = w.handle_binary_forward(&binary_payload("r", &vec![])).unwrap();
    assert_eq!(job.sampling.temperature, None);
    assert!(w.handle_binary_forward(&vec![0; 35]).is_none());
    assert!(matches!(
        w.handle_coordinator_message(CoordinatorMessage::Ping),
        WorkerAction::Reply(ClientMessage::Pong)
    ));
}

#[test]
fn forwarded_states_go_on() {
    let answer = ForwardResponse { shape: vec![1, 1, 2], next_token: None, hidden: vec![1, 2] };
    match WsWorker::<f32>::on_forwarded("r".to_string(), false, answer) {
        Some(WsResponse::TextAndBinary(ClientMessage::ForwardResult { request_id, shape, .. }, data)) => {
            assert_eq!(request_id, "r");
            assert_eq!(shape, vec![1, 1, 2]);
            assert_eq!(data, binary_payload("r", &vec![1, 2]));
        }
        _ => panic!("no result"),
    }
    let answer = ForwardResponse { shape: vec![], next_token: Some(151645), hidden: vec![] };
    match WsWorker::<f32>::on_forwarded("r".to_string(), true, answer) {
        Some(WsResponse::Text(ClientMessage::TokenGenerated { token_id, is_eos, .. })) => {
            assert_eq!(token_id, 151645);
            assert!(is_eos);
        }
        _ => panic!("no token"),
    }
}

#[test]
fn answers_of_the_server_are_read() {
    match parse_tcp_answer("{\"shape\":[1,2],\"next_token\":5}", vec![9]) {
        Ok(a) => {
            assert_eq!((a.shape, a.next_token, a.hidden), (vec![1, 2], Some(5), vec![9]))
        }
        Err(_) => panic!("refused"),
    }
    match parse_tcp_answer("{\"status\":500}", vec![]) {
        Err(e) => assert_eq!(answer_error_text(&e), "inference server error 500: unknown error"),
        Ok(_) => panic!("taken"),
    }
    match parse_tcp_answer("{", vec![]) {
        Err(e) => assert_eq!(answer_error_text(&e), "EOF while parsing an object at line 1 column 1"),
        Ok(_) => panic!("taken"),
    }
    assert_eq!(parse_generate_answer("{}"), None);
    assert_eq!(parse_shape_header("[1, 2,3]"), vec![1, 2, 3]);
    assert_eq!(shape_header(5), "[1,5,3584]");
}

#[test]
fn scripts_get_their_arguments() {
    assert!(has_weights(&vec!["a".to_string(), "x.safetensors".to_string()]));
    assert!(has_weights(&vec!["config.json".to_string()]));
    assert!(!has_weights(&vec!["a.json".to_string()]));
    assert_eq!(
        download_args("s.py", "/m", "http://c", 1, 2),
        vec![
            "s.py", "--mode", "download", "--model-dir", "/m", "--coordinator", "http://c",
            "--layer-start", "1", "--layer-end", "2"
        ]
    );
    assert_eq!(
        serve_args("s.py", "/m", 1, 2, 18100),
        vec![
            "s.py", "--mode", "serve", "--model-dir", "/m", "--layer-start", "1", "--layer-end",
            "2", "--port", "18100"
        ]
    );
    assert_eq!(download_error(Some("1"), " out ", " "), "Layer download failed: exit=1 stdout=out");
    assert_eq!(download_error(None, "out", " "), "Layer download failed: exit=? stdout=out");
    assert_eq!(download_error(None, "out", "e\n"), "Layer download failed: e\n");
    assert_eq!(
        inference_worker_args("s.py", "/m", "", 1, 2, "first", 18, "http://n"),
        vec![
            "s.py", "--model-dir", "/m", "--layer-start", "1", "--layer-end", "2",
            "--listen-port", "18", "--position", "first", "--next-node", "http://n"
        ]
    );
}

#[test]
fn backoff_does_not_shrink() {
    let all: Vec<u64> = (0..8).map(backoff_secs).collect();
    assert_eq!(all, vec![1, 2, 4, 8, 16, 32, 32, 32]);
    assert!(detect_gpu("NVIDIA T4", 0));
    assert!(detect_gpu("", 1));
    assert!(!detect_gpu("Intel", 0));
}

#[test]
fn tasks_have_slots() {
    let mut s = TaskSlots::new(1);
    assert!(s.start());
    assert!(!s.has_room());
    assert!(!s.start());
    s.end();
    assert!(s.has_room());
}

#[test]
fn coordinator_is_reached_over_http() {
    assert_eq!(derive_base_url("http://c:17001"), "http://c:17000");
    assert_eq!(derive_base_url("http://x.fly.dev"), "https://x.fly.dev");
    assert_eq!(derive_base_url("https://x.fly.dev"), "https://x.fly.dev");
    assert_eq!(derive_base_url("http://c"), "http://c");
    assert_eq!(register_url("http://c"), "http://c/api/v1/node/register");
    let reply = "{\"node_id\":\"i\",\"heartbeat_interval_secs\":7}";
    let c = CoordinatorConnection::connected("http://c:17001", "n".to_string(), reply).unwrap();
    assert_eq!(c.node_id(), "i");
    assert_eq!(c.base_url(), "http://c:17000");
    assert_eq!(c.heartbeat_interval(), 7);
    assert_eq!(c.node_url("poll"), "http://c:17000/api/v1/node/poll");
}

#[test]
fn replies_are_read() {
    assert!(matches!(
        parse_heartbeat_reply("{\"error\":\"Node not registered\"}"),
        HeartbeatOutcome::ReRegister
    ));
    assert!(matches!(parse_heartbeat_reply("{\"signal\":null}"), HeartbeatOutcome::Nothing));
    match parse_heartbeat_reply("{\"signal\":{\"role\":\"x\"}}") {
        HeartbeatOutcome::Signal(s) => assert_eq!(s, "{\"role\":\"x\"}"),
        _ => panic!("no signal"),
    }
    let t = parse_poll_reply("{\"has_task\":true,\"task\":{\"task_id\":\"t\",\"prompt\":\"p\"}}").unwrap();
    assert_eq!((t.task_id.as_str(), t.prompt.as_str(), t.max_tokens), ("t", "p", 256));
    assert!(parse_poll_reply("{\"has_task\":false}").is_none());
}

#[test]
fn task_is_executed_by_the_cluster() {
    assert!(task_prompt("p").ends_with("<|im_start|>user\np<|im_end|>\n<|im_start|>assistant\n"));
    let data = ClusterAnswer::Data("{\"text\":\"t\",\"cluster\":[1]}".to_string());
    let r = execute_task("n", "t".to_string(), data, 5);
    assert!(r.success);
    assert_eq!(r.response_text, "t\n\n<!-- CLUSTER_META: [1] -->");
    assert_eq!(r.duration_ms, 5);
    let r = execute_task("n", "t".to_string(), ClusterAnswer::Unreachable("e".to_string()), 5);
    assert!(!r.success);
    assert_eq!(r.error_message, "Cluster offline: e. Run: make inference");
    let r = execute_task("n", "t".to_string(), ClusterAnswer::Unreadable("e".to_string()), 5);
    assert_eq!(r.error_message, "Cluster parse error: e");
}

#[test]
fn layers_are_trained_step_by_step() {
    assert!(matches!(next_step(LayerEvent::Due), LayerStep::Claim));
    assert!(matches!(next_step(LayerEvent::Claimed { found: false }), LayerStep::Wait));
    assert!(matches!(next_step(LayerEvent::Claimed { found: true }), LayerStep::FetchData));
    assert!(matches!(next_step(LayerEvent::Fetched { ok: false }), LayerStep::Wait));
    assert!(matches!(next_step(LayerEvent::Fetched { ok: true }), LayerStep::Train));
    assert!(matches!(next_step(LayerEvent::Trained { ok: true }), LayerStep::Submit));
    assert!(matches!(next_step(LayerEvent::Trained { ok: false }), LayerStep::Wait));
    assert!(matches!(next_step(LayerEvent::Submitted), LayerStep::Wait));
    let e = TrainingEndpoints::new("http://c/");
    assert_eq!(e.shard_url(3, 4), "http://c/api/v1/layer-training/shard/3/4");
    assert_eq!(claimed_assignment(true, "{\"assignment\":{\"a\":1}}").as_deref(), Some("{\"a\":1}"));
    assert_eq!(claimed_assignment(true, "{\"error\":null,\"assignment\":{}}"), None);
    assert_eq!(claimed_assignment(false, "{\"assignment\":{}}"), None);
    assert_eq!(shard_lines("a\n \nb"), vec!["a", "b"]);
    assert!(keeps_tokenizer(1001) && !keeps_tokenizer(1000));
    let files = training_files(3, 5);
    assert_eq!(files.data, "/tmp/hyverk_shard_3_5.jsonl");
    assert_eq!(files.adapter, "/tmp/hyverk_adapter_3_5.safetensors");
    let args = training_args("s.py", "/m", 3, 5, &files);
    assert_eq!(args[args.len() - 6..].to_vec(), vec!["--lora-rank", "16", "--epochs", "1", "--max-seq-len", "256"]);
}

#[test]
fn training_runs_are_judged() {
    let finished = |success: bool, stdout: &str| TrainRun::Finished {
        success,
        code: "Some(1)".to_string(),
        stdout: stdout.to_string(),
        stderr: "e".to_string(),
    };
    assert!(matches!(training_result(finished(true, " {\"steps\":7}\n")), Ok(7)));
    assert!(matches!(training_result(finished(true, "{}")), Ok(0)));
    let text = |run: TrainRun| match training_result(run) {
        Ok(_) => panic!("trained"),
        Err(e) => e.message(),
    };
    assert_eq!(text(TrainRun::TimedOut), "Training timed out after 90 seconds");
    assert_eq!(
        text(TrainRun::NotStarted("x".to_string())),
        "Failed to run training script: x. Is python3 + torch installed?"
    );
    assert_eq!(text(finished(false, "{\"error\":\"bad\"}")), "Training failed: bad");
    assert_eq!(text(finished(false, "x")), "Training script exited with code Some(1): e");
    assert!(matches!(training_result(finished(true, "x")), Err(TrainError::BadResult { .. })));
    assert_eq!(
        text(finished(true, "x")),
        "Failed to parse training result: expected value at line 1 column 1\nstdout: x"
    );
}

#[test]
fn models_are_listed_and_cached() {
    let names = vec!["b.gguf".to_string(), "x.txt".to_string(), "a.gguf".to_string()];
    assert_eq!(list_models(&names), vec!["a", "b"]);
    assert_eq!(model_path("/m", "a"), "/m/a.gguf");
    let mut c: ModelCache<u8> = ModelCache::new();
    assert_eq!(c.get("a"), None);
    c.put("a".to_string(), 1);
    assert_eq!(c.get("a"), Some(&1));
}

#[test]
fn generation_stops() {
    let mut g = Generation::new(5, 2);
    assert!(matches!(g.on_token(false, "a"), GenerationStep::Decode { position: 5 }));
    assert!(g.wants_token());
    g.on_token(false, "b");
    assert!(!g.wants_token());
    let r = g.finish();
    assert_eq!((r.text.as_str(), r.tokens_generated), ("ab", 2));
    let mut g = Generation::new(5, 2);
    assert!(matches!(g.on_token(true, "z"), GenerationStep::Stop));
    assert_eq!(g.finish().text, "");
}

#[test]
fn clients_and_servers_know_each_other() {
    let c = WsClient::new("ws://c/", "n");
    assert!(c.url().starts_with("ws://c"));
    let mut s: WsServer<u8> = WsServer::new();
    let node = ConnectedNode {
        node_id: "i".to_string(),
        node_name: "n".to_string(),
        has_gpu: true,
        ram_mb: 5,
        current_role: "trainer".to_string(),
        tx: 9,
    };
    s.register_node("i".to_string(), node);
    assert_eq!(s.node_count(), 1);
    assert_eq!(s.send_to("i"), Some(&9));
    assert_eq!(s.list_nodes(), vec![("i".to_string(), "n".to_string(), true, 5)]);
    s.remove_node("i");
    assert_eq!(s.send_to("i"), None);
    let chain = vec![("a".to_string(), 0, 14), ("b".to_string(), 14, 28)];
    match run_inference_chain(&chain, "r", vec![1], 9, 0.5f32) {
        Some((node, CoordinatorMessage::InferenceStart { request_id, layer_end, .. })) => {
            assert_eq!((node.as_str(), request_id.as_str(), layer_end), ("a", "r", 14));
        }
        _ => panic!("no start"),
    }
    assert!(run_inference_chain(&vec![], "r", vec![1], 9, 0.5f32).is_none());
}
