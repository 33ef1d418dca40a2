//! Nodes, tasks and signals at the coordinator.
use hyverk::coordinator::{reap_shards, Coordinator, HeartbeatReply};
use hyverk::http_api::{
    count_gpu_nodes, inference_status, node_summary, parse_registration, parse_task_report,
    TaskReport,
};
use hyverk::registry::{NodeCapabilities, NodeRegistry};
use hyverk::router::TaskRouter;
use hyverk::task_store::{TaskStatus, TaskStore, MAX_TOKENS_LIMIT};
use hyverk::training_store::TrainingStore;

const SEC: u64 = 1_000_000_000;

fn capabilities(models: &[&str], hardware: &str) -> NodeCapabilities {
    NodeCapabilities {
        available_models: models.iter().map(|m| m.to_string()).collect(),
        hardware_info: hardware.to_string(),
        max_concurrent_tasks: 2,
    }
}

fn coordinator() -> Coordinator<f64> {
    Coordinator::new(TaskRouter::new(NodeRegistry::new(), TaskStore::new()), 30)
}

#[test]
fn registered_node_is_found_and_leaves() {
    let mut r = NodeRegistry::new();
    let id = r.register("a".to_string(), capabilities(&[], ""), 5);
    assert_eq!(id.len(), 36);
    let node = r.get_node(&id).unwrap();
    assert_eq!(node.node_name, "a");
    assert_eq!(node.active_tasks, 0);
    assert!(r.heartbeat(&id, 3, 9));
    assert_eq!(r.get_node(&id).unwrap().active_tasks, 3);
    assert_eq!(r.get_node(&id).unwrap().last_heartbeat, 9);
    assert!(!r.heartbeat("nobody", 0, 9));
    assert!(r.deregister(&id));
    assert!(!r.deregister(&id));
    assert!(r.list_nodes().is_empty());
}

#[test]
fn ids_differ() {
    let mut r = NodeRegistry::new();
    let a = r.register("a".to_string(), capabilities(&[], ""), 0);
    let b = r.register("b".to_string(), capabilities(&[], ""), 0);
    assert_ne!(a, b);
}

#[test]
fn heartbeat_keeps_a_node_alive() {
    let mut r = NodeRegistry::new();
    let id = r.register("a".to_string(), capabilities(&[], ""), 0);
    let other = r.register("b".to_string(), capabilities(&[], ""), 0);
    r.heartbeat(&id, 0, 40 * SEC);
    r.remove_stale_nodes(30, 60 * SEC);
    assert!(r.get_node(&id).is_some());
    assert!(r.get_node(&other).is_none());
}

#[test]
fn waiting_task_is_served_to_a_node_with_its_model() {
    let mut s: TaskStore<f64> = TaskStore::new();
    let id = s.create_task("qwen".to_string(), "hi".to_string(), 0.5, 10, 0);
    let other = vec!["llama".to_string()];
    assert!(s.assign_pending_task("n", &other, 1).is_none());
    let models = vec!["qwen".to_string()];
    let task = s.assign_pending_task("n", &models, 1).unwrap();
    assert_eq!(task.task_id, id);
    assert_eq!(task.temperature, 0.5);
    assert!(s.assign_pending_task("n", &models, 1).is_none());
    assert!(matches!(s.get_task(&id).unwrap().status, TaskStatus::Assigned { .. }));
    assert!(s.complete_task(&id, "text".to_string(), 7));
    let status = inference_status(s.get_task(&id).unwrap());
    assert_eq!(status.status, "completed");
    assert_eq!(status.response_text.as_deref(), Some("text"));
    assert_eq!(status.duration_ms, Some(7));
    assert!(!s.complete_task("nobody", String::new(), 0));
}

#[test]
fn failed_task_says_why() {
    let mut s: TaskStore<f64> = TaskStore::new();
    let id = s.create_task("m".to_string(), "p".to_string(), 0.5, 10, 0);
    assert_eq!(inference_status(s.get_task(&id).unwrap()).status, "pending");
    assert!(s.fail_task(&id, "boom".to_string()));
    let status = inference_status(s.get_task(&id).unwrap());
    assert_eq!(status.status, "failed");
    assert_eq!(status.error.as_deref(), Some("boom"));
    assert!(status.response_text.is_none());
}

#[test]
fn token_limit_is_capped() {
    let mut s: TaskStore<f64> = TaskStore::new();
    let id = s.create_task("m".to_string(), "p".to_string(), 0.5, u32::MAX, 0);
    assert_eq!(s.get_task(&id).unwrap().max_tokens, MAX_TOKENS_LIMIT);
    let id = s.create_task("m".to_string(), "p".to_string(), 0.5, 17, 0);
    assert_eq!(s.get_task(&id).unwrap().max_tokens, 17);
}

#[test]
fn stale_task_waits_again() {
    let mut s: TaskStore<f64> = TaskStore::new();
    let id = s.create_task("m".to_string(), "p".to_string(), 0.5, 10, 0);
    let models = vec!["m".to_string()];
    s.assign_pending_task("n", &models, 0);
    s.reassign_stale_tasks(90, 90 * SEC);
    assert!(s.assign_pending_task("o", &models, 0).is_none());
    s.reassign_stale_tasks(90, 92 * SEC);
    assert_eq!(s.assign_pending_task("o", &models, 0).unwrap().task_id, id);
}

#[test]
fn only_finished_tasks_expire() {
    let mut s: TaskStore<f64> = TaskStore::new();
    let waiting = s.create_task("m".to_string(), "p".to_string(), 0.5, 10, 0);
    let done = s.create_task("m".to_string(), "p".to_string(), 0.5, 10, 0);
    s.complete_task(&done, String::new(), 1);
    s.cleanup_old_tasks(10_000 * SEC);
    assert!(s.get_task(&waiting).is_some());
    assert!(s.get_task(&done).is_none());
}

#[test]
fn signal_is_delivered_once() {
    let mut c = coordinator();
    let id = c.http_register("{\"node_name\":\"a\"}", 0);
    let body = format!("{{\"node_id\":\"{id}\",\"signal\":\"switch_role\",\"layer_start\":4}}");
    assert_eq!(c.http_node_signal(&body), id);
    let beat = format!("{{\"node_id\":\"{id}\",\"active_tasks\":2}}");
    match c.http_heartbeat(&beat, SEC) {
        HeartbeatReply::Acknowledged { signal: Some(s) } => {
            assert_eq!(s.signal, "switch_role");
            assert_eq!(s.role, "trainer");
            assert_eq!(s.urgency, "graceful");
            assert_eq!(s.layer_start.as_deref(), Some("4"));
            assert!(s.next_node.is_none());
        }
        other => panic!("{other:?}"),
    }
    assert!(matches!(
        c.http_heartbeat(&beat, SEC),
        HeartbeatReply::Acknowledged { signal: None }
    ));
    assert!(matches!(
        c.http_heartbeat("{\"node_id\":\"nobody\"}", SEC),
        HeartbeatReply::NotRegistered
    ));
    assert_eq!(c.counters.heartbeats, 3);
    assert_eq!(c.counters.bytes_in, 192);
    assert_eq!(c.counters.http_requests, 1);
}

#[test]
fn polled_task_is_reported() {
    let mut c = coordinator();
    let id = c.http_register("{\"node_name\":\"a\",\"models\":[\"m\"]}", 0);
    let task = c.create_inference("m".to_string(), "p".to_string(), 0.7, None, 0);
    let poll = format!("{{\"node_id\":\"{id}\"}}");
    let got = c.http_poll_task(&poll, 1).unwrap();
    assert_eq!(got.task_id, task);
    assert_eq!(got.max_tokens, 512);
    assert!(c.http_poll_task(&poll, 1).is_none());
    c.http_submit_result(&format!(
        "{{\"task_id\":\"{task}\",\"success\":true,\"response_text\":\"t\",\"duration_ms\":3}}"
    ));
    let status = inference_status(c.router.task_store.get_task(&task).unwrap());
    assert_eq!(status.response_text.as_deref(), Some("t"));
    c.http_deregister(&poll);
    assert!(c.router.registry.list_nodes().is_empty());
}

#[test]
fn reaper_takes_dead_nodes_out() {
    let mut c = coordinator();
    c.http_register("{}", 0);
    assert_eq!(c.heartbeat_interval_secs(), 10);
    c.reap(31 * SEC);
    assert!(c.router.registry.list_nodes().is_empty());
}

#[test]
fn grpc_calls_are_answered() {
    let mut c = coordinator();
    let id = c.grpc_register("a".to_string(), capabilities(&["m"], ""), 0);
    assert!(c.grpc_heartbeat(&id, 1, 5));
    assert!(!c.grpc_heartbeat("nobody", 1, 5));
    let task = c.create_inference("m".to_string(), "p".to_string(), 0.7, Some(5), 0);
    assert!(c.grpc_submit_result(&task, false, String::new(), 0, "e".to_string()));
    assert!(!c.grpc_submit_result("nobody", true, String::new(), 0, String::new()));
    assert_eq!(inference_status(c.router.task_store.get_task(&task).unwrap()).status, "failed");
}

#[test]
fn registration_has_defaults() {
    let (name, caps) = parse_registration("{\"models\":[\"a\",1,\"b\"]}");
    assert_eq!(name, "unknown");
    assert_eq!(caps.available_models, vec!["a", "b"]);
    assert_eq!(caps.hardware_info, "");
    assert_eq!(caps.max_concurrent_tasks, 1);
    let (name, caps) = parse_registration("{\"node_name\":\"x\",\"max_concurrent_tasks\":4}");
    assert_eq!(name, "x");
    assert_eq!(caps.max_concurrent_tasks, 4);
}

#[test]
fn task_report_is_read() {
    match parse_task_report("{\"task_id\":\"t\",\"error_message\":\"e\"}") {
        TaskReport::Failed { task_id, error_message } => {
            assert_eq!(task_id, "t");
            assert_eq!(error_message, "e");
        }
        other => panic!("{other:?}"),
    }
    match parse_task_report("{\"task_id\":\"t\",\"success\":true,\"duration_ms\":9}") {
        TaskReport::Done { task_id, response_text, duration_ms } => {
            assert_eq!(task_id, "t");
            assert_eq!(response_text, "");
            assert_eq!(duration_ms, 9);
        }
        other => panic!("{other:?}"),
    }
}

#[test]
fn summary_of_a_node() {
    let mut r = NodeRegistry::new();
    let id = r.register("a".to_string(), capabilities(&[], "Apple M3"), 0);
    let plain = r.register("b".to_string(), capabilities(&[], ""), 0);
    let by_node = vec![("a".to_string(), 4)];
    let s = node_summary(r.get_node(&id).unwrap(), &by_node, 61 * SEC);
    assert!(s.has_gpu);
    assert_eq!(s.role, "trainer");
    assert_eq!(s.uptime_secs, 61);
    assert_eq!(s.status, "stale");
    assert_eq!(s.contributions, 4);
    let s = node_summary(r.get_node(&plain).unwrap(), &by_node, 59 * SEC);
    assert!(!s.has_gpu);
    assert_eq!(s.role, "worker");
    assert_eq!(s.hardware, "unknown");
    assert_eq!(s.status, "online");
    assert_eq!(s.contributions, 0);
    assert_eq!(count_gpu_nodes(&r), 1);
}

#[test]
fn stale_shards_are_reaped() {
    let mut t: TrainingStore<f64> = TrainingStore::new();
    let job = t.create_job("m".to_string(), "a\nb", 1, 16, 32.0, 3, 100);
    assert!(t.claim_next_shard(&job, "n", 100).is_some());
    reap_shards(&mut t, 30, 280);
    assert_eq!(t.job_stats(&job).unwrap().shards_assigned, 1);
    reap_shards(&mut t, 30, 281);
    assert_eq!(t.job_stats(&job).unwrap().shards_assigned, 0);
}
