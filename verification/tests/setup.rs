//! Configuration, paths and the command line.
use hyverk::cli::{choose_mode, preview, synthesis_secs, synthesis_setup};
use hyverk::config::{
    expand_tilde, home_file, sanitize_host, stable_node_id, HyverkConfig, HyverkError, Mode,
    SynthesisProviderConfig,
};
use hyverk::http_api::require_api_key;
use hyverk::model_paths::{
    data_paths, extension_of, first_existing, first_existing_tokenizer, model_dir, model_file,
    stem_of, tokenizer_candidates,
};
use hyverk::node::tools::{
    find_python, find_script, find_training_python, find_training_script, python_candidates,
    script_candidates, training_python_candidates, training_script_candidates,
};

#[test]
fn defaults_of_the_configuration() {
    let c = HyverkConfig::default_for(Some("/home/u"));
    assert_eq!(c.mode, Mode::Node);
    assert_eq!(c.node.name, "hyverk-node");
    assert_eq!(c.node.models_dir, "/home/u/.hyverk/models");
    assert_eq!(c.coordinator.http_port, 17000);
    assert_eq!(c.coordinator.grpc_port, 17001);
    assert_eq!(home_file(None, "x"), "./.hyverk/x");
}

#[test]
fn configuration_is_completed() {
    let mut c = HyverkConfig::default_for(None);
    c.node.models_dir = "~/m".to_string();
    let c = c.completed(Some("/h"), "id".to_string());
    assert_eq!(c.node.models_dir, "/h/m");
    assert_eq!(c.node.name, "id");
    assert_eq!(expand_tilde("~", Some("/h")), "/h/");
    assert_eq!(expand_tilde("~/m", None), "~/m");
    assert_eq!(expand_tilde("a/~/m", Some("/h")), "a/~/m");
}

#[test]
fn node_id_is_clean() {
    assert_eq!(sanitize_host("Jo's MacBook--Pro.local"), "jo-s-macbook-pro-local");
    assert_eq!(sanitize_host("__x__"), "x");
    assert_eq!(sanitize_host("ÄÖ"), "node");
    assert_eq!(stable_node_id(Some(" kept\n"), Some("Host")), ("kept".to_string(), false));
    assert_eq!(stable_node_id(Some(" \n"), Some("Host")), ("host".to_string(), true));
    assert_eq!(stable_node_id(None, None), ("node".to_string(), true));
    let (id, _) = stable_node_id(None, Some("My Host"));
    assert_eq!(stable_node_id(Some(&id), Some("renamed")), (id, false));
}

#[test]
fn errors_have_messages() {
    let text = |e: HyverkError| e.message();
    assert_eq!(text(HyverkError::Config("x".to_string())), "Config error: x");
    assert_eq!(text(HyverkError::Inference("x".to_string())), "Inference error: x");
    assert_eq!(text(HyverkError::Coordinator("x".to_string())), "Coordinator error: x");
    assert_eq!(text(HyverkError::Grpc("x".to_string())), "gRPC error: x");
    assert_eq!(text(HyverkError::Transport("x".to_string())), "Transport error: x");
    assert_eq!(text(HyverkError::NodeNotFound("x".to_string())), "Node not found: x");
    assert_eq!(text(HyverkError::TaskNotFound("x".to_string())), "Task not found: x");
}

#[test]
fn mode_is_chosen() {
    assert_eq!(choose_mode(None, Mode::Both), Some(Mode::Both));
    assert_eq!(choose_mode(Some("node"), Mode::Both), Some(Mode::Node));
    assert_eq!(choose_mode(Some("coordinator"), Mode::Both), Some(Mode::Coordinator));
    assert_eq!(choose_mode(Some("both"), Mode::Node), Some(Mode::Both));
    assert_eq!(choose_mode(Some("all"), Mode::Both), None);
}

#[test]
fn synthesis_is_set_up() {
    let mut c = HyverkConfig::default_for(None);
    c.synthesis.target_per_hour = 7;
    c.synthesis.providers.push(SynthesisProviderConfig {
        name: "groq".to_string(),
        api_key: "k".to_string(),
        model: "m".to_string(),
        rpm_limit: Some(3),
        rpd_limit: None,
    });
    let s = synthesis_setup(&c, None);
    assert!(s.enabled);
    assert_eq!(s.target_per_hour, 7);
    assert_eq!(s.coordinator_url, "http://127.0.0.1:17000");
    assert_eq!(s.providers[0].rpm_limit, Some(3));
    c.synthesis.coordinator_url = "http://c".to_string();
    let s = synthesis_setup(&c, Some(9));
    assert_eq!(s.target_per_hour, 9);
    assert_eq!(s.coordinator_url, "http://c");
    assert_eq!(synthesis_secs(2), Some(7200));
    assert_eq!(synthesis_secs(0), None);
}

#[test]
fn preview_is_short() {
    assert_eq!(preview("1\n2\n3\n4\n5\n6\n7\n8\n9"), "1\n2\n3\n4\n5\n6\n7\n8");
    assert_eq!(preview("1\n2\n"), "1\n2");
}

#[test]
fn names_of_files() {
    assert_eq!(extension_of("a/b.tar.gz"), "gz");
    assert_eq!(extension_of(".hidden"), "");
    assert_eq!(stem_of("b.tar.gz"), "b.tar");
    assert_eq!(stem_of(".hidden"), ".hidden");
    assert_eq!(model_dir(Some("/m")), "/m");
    assert_eq!(model_file(Some("/m"), "config.json"), "/m/config.json");
}

#[test]
fn best_tokenizer_wins() {
    let c = tokenizer_candidates(Some("/t.json"), Some("/m"));
    assert_eq!(c[0], "/t.json");
    let mut is_file = vec![false; c.len()];
    assert_eq!(first_existing_tokenizer(&c, &is_file), None);
    is_file[1] = true;
    assert_eq!(first_existing_tokenizer(&c, &is_file).as_ref(), Some(&c[1]));
    is_file[0] = true;
    assert_eq!(first_existing_tokenizer(&c, &is_file).as_deref(), Some("/t.json"));
    let paths = vec!["a".to_string(), "b".to_string()];
    assert_eq!(first_existing(&paths, &vec![false, true]).as_deref(), Some("b"));
    assert_eq!(first_existing(&paths, &vec![false, false]), None);
}

#[test]
fn data_lies_in_one_directory() {
    let d = data_paths(Some("/data"), Some("/h"));
    assert_eq!(d.dir, "/data");
    assert!(d.dataset_db.starts_with("/data/"));
    assert_ne!(d.dataset_db, d.training_db);
    assert_ne!(d.dataset_db, d.rag_db);
}

#[test]
fn tools_are_found() {
    let c = python_candidates(false);
    assert_eq!(find_python(false, &vec![false, true, true], None), c[1]);
    assert_eq!(find_python(false, &vec![false; 3], None), "python3");
    assert_eq!(find_python(true, &vec![false; 3], Some("C:\\py.exe \r\nD:\\py.exe")), "C:\\py.exe");
    assert_eq!(find_python(true, &vec![false; 3], None), "python.exe");
    let c = script_candidates("x.py");
    assert_eq!(find_script("x.py", &vec![false, false, false, true]), c[3]);
    let c = training_python_candidates(Some("/v"));
    let mut exists = vec![false; c.len()];
    exists[0] = true;
    assert_eq!(find_training_python(Some("/v"), &exists), c[0]);
    let c = training_script_candidates(Some("/e"));
    assert_eq!(find_training_script(Some("/e"), &vec![false; c.len()]), None);
    assert_eq!(find_training_script(Some("/e"), &vec![true; c.len()]).as_ref(), Some(&c[0]));
}

#[test]
fn api_key_is_required() {
    assert!(require_api_key(None, None, None));
    assert!(require_api_key(Some("k"), Some("Bearer k"), None));
    assert!(require_api_key(Some("k"), None, Some("k")));
    assert!(!require_api_key(Some("k"), Some("Bearer x"), None));
    assert!(!require_api_key(Some("k"), None, None));
    assert!(require_api_key(Some("k"), Some("Bearer x"), Some("k")));
    assert!(require_api_key(Some("k"), Some("Bearer k"), Some("x")));
    assert!(!require_api_key(Some("k"), Some("bearer k"), Some("x")));
    assert!(!require_api_key(Some("k"), Some("k"), None));
    assert!(require_api_key(Some(""), Some("Bearer x"), None));
}
