//! The dataset, what is counted of it, and what comes in over HTTP.
use hyverk::dataset_store::{
    instruction_hash, is_refusal, passes_quality_filter, DatasetExample, DatasetStats,
    DatasetStore,
};
use hyverk::http_api::{
    bulk_import, category_of, get_model_info, get_prompts, import_line, inference_prompt,
    layers_label, missing_model_hint, model_available, parse_example, parse_heartbeat,
    parse_node_id, parse_token_ids, parse_verify_request, parse_ws_inference, proxy_request,
    proxy_target, shard_file_name, token_ids, undecoded_text, ExampleRefusal,
};
use hyverk::layer_training::LayerTrainingStore;
use hyverk::metrics::{compute_metrics, dataset_metrics, sort_by_count, LiveCounters};
use hyverk::node_stats::{NodeStats, NodeStatsRegistry};
use hyverk::registry::{NodeCapabilities, NodeRegistry};
use hyverk::synthesis::prompts::random_prompt;
use hyverk::training_store::TrainingStore;

const SEC: u64 = 1_000_000_000;
const DAY: u64 = 86_400 * SEC;

fn example(instruction: &str, response: &str) -> DatasetExample<f32> {
    DatasetExample {
        id: "i".to_string(),
        instruction: instruction.to_string(),
        response: response.to_string(),
        category: "c".to_string(),
        provider: "p".to_string(),
        model: "m".to_string(),
        node_id: "n".to_string(),
        refined: false,
        execution_verified: false,
        quality_score: None,
        submitted_at_secs: 0,
    }
}

const CODE: &str = "```rust\nfn main() { println!(\"hi\"); }\n```";
const TASK: &str = "Write a program that prints hi";

#[test]
fn instruction_is_taken_once() {
    let mut s = DatasetStore::new();
    assert!(s.add_example(&example(TASK, CODE)));
    assert!(!s.add_example(&example("  WRITE a program that prints hi ", CODE)));
    assert_eq!(s.deduplicated(), 1);
    assert!(!s.add_example(&example("short", CODE)));
    assert_eq!(s.deduplicated(), 1);
    let mut s = DatasetStore::open(&vec![TASK.to_string()]);
    assert!(!s.add_example(&example(TASK, CODE)));
}

#[test]
fn bulk_is_taken_in_order() {
    let mut s = DatasetStore::new();
    let all = vec![
        example(TASK, CODE),
        example(TASK, CODE),
        example("too short", CODE),
        example("Write a program that prints ho", CODE),
    ];
    let (taken, rejected) = s.add_bulk(all);
    assert_eq!(taken.len(), 2);
    assert_eq!(taken[1].instruction, "Write a program that prints ho");
    assert_eq!(rejected, 2);
    assert_eq!(s.deduplicated(), 1);
}

#[test]
fn quality_is_filtered() {
    assert!(passes_quality_filter(&example(TASK, CODE)));
    assert!(!passes_quality_filter(&example(TASK, "```fn```")));
    assert!(!passes_quality_filter(&example(TASK, &"x".repeat(200))));
    assert!(passes_quality_filter(&example(TASK, &"x".repeat(201))));
    let refusal = format!("I CANNOT {}", "x".repeat(201));
    assert!(!passes_quality_filter(&example(TASK, &refusal)));
    assert!(is_refusal("as an ai"));
    assert!(!is_refusal("sorry, as an ai"));
}

#[test]
fn hash_is_of_normal_form() {
    assert_eq!(instruction_hash(""), 14695981039346656037);
    assert_eq!(instruction_hash("a"), 0xaf63dc4c8601ec8c);
    assert_eq!(instruction_hash(" A\n"), 0xaf63dc4c8601ec8c);
    let long = "é".repeat(200);
    assert_eq!(instruction_hash(&long), instruction_hash(&format!("{long}x")));
}

fn stats() -> DatasetStats {
    let count = |name: &str, n: usize| (name.to_string(), n);
    DatasetStats {
        total_examples: 10,
        by_category: vec![count("c", 10)],
        by_provider: vec![count("p", 10)],
        by_node: vec![
            count("a", 1),
            count("b", 6),
            count("c", 2),
            count("d", 3),
            count("e", 5),
            count("f", 4),
        ],
        execution_verified: 3,
        refined: 2,
        deduplicated: 1,
    }
}

#[test]
fn top_nodes_contributed_most() {
    let m = dataset_metrics(stats());
    let names: Vec<&str> = m.top_nodes.iter().map(|n| n.0.as_str()).collect();
    assert_eq!(names, vec!["b", "e", "f", "d", "c"]);
    assert_eq!(m.size_bytes_est, 5000);
    let tied = vec![("x".to_string(), 1), ("y".to_string(), 2), ("z".to_string(), 1)];
    let names: Vec<String> = sort_by_count(tied).into_iter().map(|n| n.0).collect();
    assert_eq!(names, vec!["y", "x", "z"]);
}

fn registry() -> NodeRegistry {
    let mut r = NodeRegistry::new();
    let models = vec!["b".to_string(), "a".to_string(), "b".to_string()];
    let caps = NodeCapabilities {
        available_models: models,
        hardware_info: "NVIDIA".to_string(),
        max_concurrent_tasks: 1,
    };
    let id = r.register("x".to_string(), caps, 0);
    r.heartbeat(&id, 4, 0);
    let caps = NodeCapabilities {
        available_models: vec![],
        hardware_info: String::new(),
        max_concurrent_tasks: 1,
    };
    r.register("y".to_string(), caps, 0);
    r
}

#[test]
fn metrics_are_computed() {
    let mut t: TrainingStore<f32> = TrainingStore::new();
    let job = t.create_job("m".to_string(), "a\nb\nc", 1, 16, 32.0, 3, 0);
    t.claim_next_shard(&job, "n", 0);
    let (s, _) = t.claim_next_shard(&job, "n", 0).unwrap();
    t.submit_adapter(&job, &s, "n", String::new(), 0.5, 1, 0);
    let mut counters = LiveCounters::new();
    counters.heartbeats = 7;
    let m = compute_metrics(&registry(), stats(), &t, &counters, 100, 160);
    assert_eq!(m.nodes.total, 2);
    assert_eq!(m.nodes.active_tasks_total, 4);
    assert_eq!(m.nodes.models, vec!["a", "b"]);
    assert_eq!(m.training.total_jobs, 1);
    assert_eq!(m.training.active_jobs, 1);
    assert_eq!(m.training.shards_total, 3);
    assert_eq!(m.training.shards_done, 1);
    assert_eq!(m.training.shards_in_flight, 1);
    assert_eq!(m.training.shards_available, 1);
    assert_eq!(m.training.losses, vec![0.5]);
    assert_eq!(m.network.heartbeats, 7);
    assert_eq!(m.uptime_secs, 60);
}

#[test]
fn model_info_tells_the_phase() {
    let t: TrainingStore<f32> = TrainingStore::new();
    let l: LayerTrainingStore<f32> = LayerTrainingStore::restore(Vec::new(), None, None);
    let i = get_model_info(&registry(), &t, &stats(), &l);
    assert_eq!(i.version, "v0 (collecting data)");
    assert_eq!((i.total_nodes, i.gpu_nodes, i.cpu_nodes), (2, 1, 1));
    assert_eq!(i.rounds_remaining, 100);
    assert_eq!(i.datasets.iter().map(|d| d.examples).collect::<Vec<_>>(), vec![75000, 157000, 80000, 152000, 122000]);
    let none = DatasetStats { total_examples: 0, ..stats() };
    assert_eq!(get_model_info(&registry(), &t, &none, &l).version, "v0 (not yet started)");
}

#[test]
fn example_is_read() {
    let body = "{\"id\":\"x\",\"instruction\":\"i\",\"response\":\"r\",\"refined\":true}";
    match parse_example(body, "n".to_string(), Some(0.5), 9) {
        Ok(e) => {
            assert_eq!(e.id, "x");
            assert_eq!(e.category, "unknown");
            assert_eq!(e.model, "");
            assert!(e.refined && !e.execution_verified);
            assert_eq!(e.quality_score, Some(0.5));
            assert_eq!(e.submitted_at_secs, 9);
        }
        Err(_) => panic!("refused"),
    }
    let refused = |body: &str| match parse_example::<f32>(body, String::new(), None, 0) {
        Ok(_) => panic!("taken"),
        Err(e) => e,
    };
    let e = refused("{\"instruction\":\"\",\"response\":\"r\"}");
    assert!(matches!(e, ExampleRefusal::MissingInstruction));
    assert_eq!(e.message(), "Missing instruction");
    let e = refused("{\"instruction\":\"i\"}");
    assert!(matches!(e, ExampleRefusal::MissingResponse));
    assert_eq!(e.message(), "Missing response");
    match parse_example::<f32>("{\"instruction\":\"i\",\"response\":\"r\"}", String::new(), None, 0) {
        Ok(e) => assert_eq!(e.id.len(), 36),
        Err(_) => panic!("refused"),
    }
}

#[test]
fn lines_are_imported() {
    let body = "{\"instruction\":\"FIX it\",\"response\":\"r\",\"provider\":\"p\"}\n\nnot json\n{\"instruction\":\"i\"}\n {\"instruction\":\"an api\",\"response\":\"r\",\"source\":\"s\",\"provider\":\"p\"}";
    let all: Vec<DatasetExample<f32>> = bulk_import(body, 5);
    assert_eq!(all.len(), 2);
    assert_eq!(all[0].category, "debugging");
    assert_eq!(all[0].provider, "p");
    assert_eq!(all[1].category, "api_design");
    assert_eq!(all[1].provider, "s");
    assert_eq!(all[1].node_id, "bulk-import");
    let one: Option<DatasetExample<f32>> = import_line("{\"instruction\":\"i\",\"response\":\"r\"}", 5);
    assert_eq!(one.unwrap().provider, "huggingface");
    let of = |s: &str| category_of(s);
    assert_eq!(of("a test"), "testing");
    assert_eq!(of("optimize"), "refactoring");
    assert_eq!(of("sort"), "algorithms");
    assert_eq!(of("sql"), "database");
    assert_eq!(of("deploy"), "devops");
    assert_eq!(of("x"), "code_generation");
}

#[test]
fn prompts_are_handed_out() {
    assert_eq!(get_prompts(None, 3).len(), 10);
    assert_eq!(get_prompts(Some("x"), 3).len(), 10);
    assert_eq!(get_prompts(Some("1000"), 3).len(), 100);
    let two = get_prompts(Some("2"), 3);
    assert_eq!(two[1].instruction, random_prompt(3 + 31337).instruction);
    assert_eq!(get_prompts(Some("2"), u64::MAX)[1].instruction, random_prompt(31336).instruction);
}

#[test]
fn requests_are_read() {
    assert_eq!(parse_heartbeat("{\"node_id\":\"n\",\"active_tasks\":3}"), ("n".to_string(), 3));
    assert_eq!(parse_heartbeat("{}"), (String::new(), 0));
    assert_eq!(parse_node_id("{\"node_id\":\"n\"}"), "n");
    assert_eq!(parse_verify_request("{\"code\":\"c\"}").as_deref(), Some("c"));
    assert_eq!(parse_verify_request("{\"code\":\"\"}"), None);
    let r = parse_ws_inference("{\"prompt\":\"p\",\"top_k\":4294967297}");
    assert_eq!((r.prompt.as_str(), r.max_tokens, r.top_k), ("p", 64, Some(1)));
    assert_eq!(parse_token_ids(" [1, 4294967298]\n"), Ok(vec![1, 2]));
    assert_eq!(
        parse_token_ids("x"),
        Err("JSON parse error: expected value at line 1 column 1".to_string())
    );
    assert_eq!(
        parse_token_ids("{}"),
        Err("JSON parse error: invalid type: map, expected a sequence at line 1 column 0".to_string())
    );
    assert_eq!(token_ids(Ok(vec![5, 4294967295, 4294967296])), Ok(vec![5, 4294967295, 0]));
    assert_eq!(token_ids(Err("e".to_string())), Err("JSON parse error: e".to_string()));
    assert!(inference_prompt("p").contains("<|im_start|>user\np<|im_end|>"));
}

#[test]
fn inference_is_passed_on() {
    let none = NodeRegistry::new();
    assert_eq!(proxy_target("", &none), None);
    assert_eq!(proxy_target("http://c", &none).as_deref(), Some("http://c"));
    assert_eq!(proxy_target("", &registry()).as_deref(), Some("http://localhost:18200"));
    let r = proxy_request("http://c", "{\"prompt\":\"p\"}");
    assert_eq!(r.url, "http://c/generate");
    assert_eq!(r.max_tokens, 256);
    assert!(r.prompt.ends_with("<|im_start|>user\np<|im_end|>\n<|im_start|>assistant\n"));
}

#[test]
fn served_name_has_no_separator() {
    assert_eq!(shard_file_name("../../a.json").as_deref(), Some("a.json"));
    assert_eq!(shard_file_name("a.safetensors").as_deref(), Some("a.safetensors"));
    assert_eq!(shard_file_name("a.txt"), None);
    assert_eq!(shard_file_name("a./.b.json").as_deref(), Some("a..b.json"));
    assert!(!model_available("", ""));
    assert!(missing_model_hint("/m").contains("/m"));
    assert!(undecoded_text(3).contains('3'));
    assert!(layers_label(3, 9).contains('3') && layers_label(3, 9).contains('9'));
}

#[test]
fn disconnect_counts_for_a_day() {
    let mut s = NodeStats::new("n".to_string(), 3 * DAY);
    s.record_disconnect(3 * DAY + 60 * SEC);
    assert_eq!(s.total_uptime_secs, 60);
    assert_eq!(s.disconnect_count_24h(3 * DAY + 61 * SEC), 1);
    assert_eq!(s.disconnect_count_24h(4 * DAY + 60 * SEC), 0);
    s.record_reconnect(3 * DAY + 100 * SEC);
    assert_eq!(s.current_session_secs(3 * DAY + 105 * SEC), 5);
    s.record_hop(true);
    s.record_hop(false);
    let f = s.reliability_factors(3 * DAY + 110 * SEC);
    assert_eq!((f.uptime_secs, f.disconnects_24h, f.hops_ok, f.hops), (70, 1, 1, 2));
}

#[test]
fn disconnect_counts_on_a_young_clock() {
    let mut s = NodeStats::new("n".to_string(), 0);
    s.record_disconnect(0);
    s.record_reconnect(SEC);
    s.record_disconnect(60 * SEC);
    assert_eq!(s.disconnect_count_24h(3600 * SEC), 2);
    assert_eq!(s.disconnect_count_24h(DAY), 1);
    assert_eq!(s.disconnect_count_24h(DAY + 60 * SEC), 0);
}

#[test]
fn sessions_are_kept_by_name() {
    let mut r = NodeStatsRegistry::new();
    r.on_connect("a", 3 * DAY);
    r.on_disconnect("a", 3 * DAY + 9 * SEC);
    r.on_connect("a", 3 * DAY + 20 * SEC);
    r.record_hop("a", true);
    r.record_hop("nobody", true);
    assert_eq!(r.records().len(), 1);
    let s = r.get("a").unwrap();
    assert_eq!((s.total_uptime_secs, s.total_observed_secs, s.hops_ok), (9, 20, 1));
    assert!(r.get("nobody").is_none());
}
