//! The worker on a node.
use hyverk::node::ws_worker::{merge_from_continue, merge_optional_sampling, SamplingParams};
use hyverk::table::Table;

#[test]
fn insert_lookup_cleanup_lifecycle() {
    let mut m: Table<SamplingParams<f64>> = Table::new();
    let rid = "req-a".to_string();

    let mut p = SamplingParams::default();
    merge_optional_sampling(&mut p, Some(0.8), Some(0.95), Some(40));
    m.insert(rid.clone(), p);
    assert_eq!(
        m.get(&rid).cloned(),
        Some(SamplingParams { temperature: Some(0.8), top_p: Some(0.95), top_k: Some(40) })
    );

    let e = m.get_mut(&rid).unwrap();
    merge_from_continue(e, 0.2, None, Some(50));
    assert_eq!(
        m.get(&rid).cloned(),
        Some(SamplingParams { temperature: Some(0.2), top_p: Some(0.95), top_k: Some(50) })
    );

    m.remove(&rid);
    assert!(m.get(&rid).is_none());
}

#[test]
fn merge_optional_preserves_unset() {
    let mut p = SamplingParams { temperature: Some(1.0), top_p: Some(0.9), top_k: None };
    merge_optional_sampling(&mut p, None, Some(0.5), None);
    assert_eq!(p, SamplingParams { temperature: Some(1.0), top_p: Some(0.5), top_k: None });
}
