//! The server of one model shard.
use hyverk::infer_server::kv_store::KvStore;
use hyverk::infer_server::{
    answer_shape, asks_health, meta_from_headers, meta_from_json, parse_shape, plan_job,
    plan_shard, token_answer, weight_files, Job, JobError,
};

const SEC: u64 = 1_000_000_000;

#[test]
fn shapes_are_read() {
    assert_eq!(parse_shape("[1, 2,x,30]"), vec![1, 2, 30]);
    assert_eq!(parse_shape(""), Vec::<usize>::new());
}

#[test]
fn headers_have_defaults() {
    let m = meta_from_headers(None, None, None, Some("x"));
    assert_eq!(m.mode, "forward");
    assert_eq!(m.request_id, "unknown");
    assert_eq!(m.shape, vec![1, 1, 3584]);
    assert_eq!(m.top_k, None);
    let m = meta_from_headers(Some("decode"), Some("[1]"), Some("r"), Some("40"));
    assert_eq!((m.mode.as_str(), m.request_id.as_str(), m.top_k), ("decode", "r", Some(40)));
}

#[test]
fn json_header_is_read() {
    assert!(meta_from_json("{").is_none());
    let m = meta_from_json("{\"mode\":\"generate\",\"shape\":[1,2,\"x\"],\"top_k\":5}").unwrap();
    assert_eq!(m.mode, "generate");
    assert_eq!(m.request_id, "unknown");
    assert_eq!(m.shape, vec![1, 2]);
    assert_eq!(m.top_k, Some(5));
    assert_eq!(meta_from_json("{}").unwrap().shape, vec![1, 1, 3584]);
    assert!(asks_health(0, false));
    assert!(!asks_health(1, false));
    assert!(!asks_health(0, true));
}

#[test]
fn jobs_are_planned() {
    match plan_job("forward", &vec![1, 2, 3], &vec![0; 12]) {
        Ok(Job::Forward { batch, seq, width }) => assert_eq!((batch, seq, width), (1, 2, 3)),
        _ => panic!("no forward pass"),
    }
    match plan_job("generate", &vec![2], &vec![1, 0, 0, 0, 0, 1, 0, 0]) {
        Ok(Job::Generate { batch, seq, tokens }) => {
            assert_eq!((batch, seq), (1, 2));
            assert_eq!(tokens, vec![1, 256]);
        }
        _ => panic!("no generation"),
    }
    match plan_job("decode", &vec![], &vec![4, 3, 2, 1]) {
        Ok(Job::Decode { token }) => assert_eq!(token, 0x01020304),
        _ => panic!("no decoding"),
    }
}

#[test]
fn bad_jobs_say_why() {
    let message = |mode: &str, shape: Vec<usize>, body: Vec<u8>| match plan_job(mode, &shape, &body) {
        Ok(_) => panic!("planned"),
        Err(e) => e.message(),
    };
    assert_eq!(message("x", vec![], vec![]), "unknown mode: x");
    assert_eq!(
        message("forward", vec![1, 2], vec![]),
        "forward: need shape [b, seq, hidden], got [1, 2]"
    );
    assert_eq!(
        message("forward", vec![1, 2, 3], vec![0]),
        "expected 12 bytes for shape [1, 2, 3] fp16, got 1"
    );
    assert_eq!(message("generate", vec![1], vec![0]), "not enough bytes for u32 tokens");
    assert_eq!(message("decode", vec![], vec![0]), "decode: need ≥4 bytes for token id");
    match token_answer("generate", None) {
        Err(e) => {
            assert!(matches!(e, JobError::NotLast(_)));
            assert_eq!(e.message(), "generate requires last shard");
        }
        Ok(_) => panic!("answered"),
    }
}

#[test]
fn answers_are_written() {
    match token_answer("generate", Some(258)) {
        Ok((body, text)) => {
            assert_eq!(body, vec![2, 1, 0, 0]);
            assert_eq!(text, "258");
        }
        Err(_) => panic!("no answer"),
    }
    assert_eq!(answer_shape(1, 2, 3584), "[1,2,3584]");
}

#[test]
fn shards_of_a_model() {
    let p = plan_shard(0, 14, 28);
    assert!(p.embeds);
    assert!(!p.has_head);
    assert_eq!(p.layers_len(), 14);
    let p = plan_shard(14, 0, 28);
    assert!(!p.embeds);
    assert!(p.has_head);
    assert_eq!(p.layer_end, 28);
    let names = vec!["b.safetensors".to_string(), "c.json".to_string(), "a.safetensors".to_string()];
    assert_eq!(weight_files(&names), vec!["a.safetensors", "b.safetensors"]);
}

#[test]
fn only_the_oldest_entry_makes_room() {
    let mut s: KvStore<u8> = KvStore::new(2, 10);
    s.insert("a".to_string(), 1, 0);
    s.insert("b".to_string(), 2, SEC);
    s.touch("a", 2 * SEC);
    s.insert("c".to_string(), 3, 3 * SEC);
    assert_eq!(s.get("a"), Some(&1));
    assert_eq!(s.get("b"), None);
    assert_eq!(s.get("c"), Some(&3));
    s.insert("a".to_string(), 4, 4 * SEC);
    assert_eq!(s.get("a"), Some(&4));
    assert_eq!(s.get("c"), Some(&3));
}

#[test]
fn idle_entries_leave() {
    let mut s: KvStore<u8> = KvStore::new(4, 10);
    s.insert("a".to_string(), 1, 0);
    s.insert("b".to_string(), 2, 5 * SEC);
    assert_eq!(s.evict_idle(12 * SEC), 1);
    assert_eq!(s.get("a"), None);
    assert_eq!(s.get("b"), Some(&2));
}
