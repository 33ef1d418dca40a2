//! Generations of serving clusters.
use hyverk::serving_clusters::{ClusterManager, InfraState};

fn nodes(names: &[&str]) -> Vec<(String, String)> {
    names
        .iter()
        .enumerate()
        .map(|(i, n)| (format!("id-{i}"), (*n).to_string()))
        .collect()
}

#[test]
fn rebalance_three_nodes_even_split() {
    let mut mgr = ClusterManager::new();
    let n = nodes(&["a", "b", "c"]);
    let assigns = mgr.rebalance(&n);
    assert_eq!(assigns.len(), 3);
    let ranges: Vec<(usize, usize)> = assigns.iter().map(|(_, s, e, _, _)| (*s, *e)).collect();
    assert_eq!(ranges[0], (0, 10));
    assert_eq!(ranges[1], (10, 19));
    assert_eq!(ranges[2], (19, 28));
    assert!(assigns.iter().all(|(_, _, _, skip, _)| !*skip));
    assert!(!mgr.is_operational());
}

#[test]
fn promote_then_route_uses_active_slots() {
    let mut mgr = ClusterManager::new();
    let n = nodes(&["a", "b", "c"]);
    let assigns = mgr.rebalance(&n);
    for (id, _, _, _, _) in &assigns {
        mgr.node_ready(id);
    }
    assert!(mgr.is_operational());
    let slots = mgr.active_slots();
    assert_eq!(slots.len(), 3);
    assert_eq!(slots[0].layer_start, 0);
    assert_eq!(slots[2].layer_end, 28);
}

#[test]
fn join_fourth_keeps_old_active_until_pending_ready() {
    let mut mgr = ClusterManager::new();
    let three = nodes(&["a", "b", "c"]);
    let assigns = mgr.rebalance(&three);
    for (id, _, _, _, _) in &assigns {
        mgr.node_ready(id);
    }
    assert!(mgr.is_operational());
    let old_slots = mgr.active_slots();
    assert_eq!(old_slots.len(), 3);

    let four = nodes(&["a", "b", "c", "d"]);
    let assigns2 = mgr.rebalance(&four);
    assert_eq!(assigns2.len(), 4);
    let mid = mgr.active_slots();
    assert_eq!(mid.len(), 3);
    assert_eq!(mid[0].layer_end, old_slots[0].layer_end);

    for (id, _, _, _, _) in &assigns2 {
        mgr.node_ready(id);
    }
    let new_slots = mgr.active_slots();
    assert_eq!(new_slots.len(), 4);
    assert_eq!(new_slots[0].layer_start, 0);
    assert_eq!(new_slots[3].layer_end, 28);
}

#[test]
fn same_topology_skip_download_and_stays_active() {
    let mut mgr = ClusterManager::new();
    let n = nodes(&["a", "b"]);
    let a1 = mgr.rebalance(&n);
    for (id, _, _, _, _) in &a1 {
        mgr.node_ready(id);
    }
    assert!(mgr.is_operational());

    let a2 = mgr.rebalance(&n);
    assert!(a2.iter().all(|(_, _, _, skip, _)| *skip));
    assert!(mgr.is_operational());
    let snap = mgr.snapshot();
    assert!(snap.pending.is_none());
    assert!(snap.active.is_some());
}

#[test]
fn request_start_end_tracks_in_flight() {
    let mut mgr = ClusterManager::new();
    let n = nodes(&["a"]);
    let a = mgr.rebalance(&n);
    mgr.node_ready(&a[0].0);
    let g = mgr.request_start().expect("active");
    let snap = mgr.snapshot();
    assert_eq!(snap.active.unwrap().in_flight, 1);
    mgr.request_end(&g);
    let snap = mgr.snapshot();
    assert_eq!(snap.active.unwrap().in_flight, 0);
}

#[test]
fn drain_keeps_counter_until_zero() {
    let mut mgr = ClusterManager::new();
    let n = nodes(&["a", "b"]);
    let a = mgr.rebalance(&n);
    for (id, _, _, _, _) in &a {
        mgr.node_ready(id);
    }
    let guard = mgr.request_start().unwrap();

    let three = nodes(&["a", "b", "c"]);
    let a2 = mgr.rebalance(&three);
    for (id, _, _, _, _) in &a2 {
        mgr.node_ready(id);
    }
    let snap = mgr.snapshot();
    assert!(snap.draining.is_some());
    assert_eq!(snap.draining.unwrap().in_flight, 1);

    mgr.request_end(&guard);
    mgr.maybe_retire_draining();
    let snap = mgr.snapshot();
    assert!(snap.draining.is_none());
}

#[test]
fn no_request_starts_without_a_cluster() {
    let mut mgr = ClusterManager::new();
    assert!(mgr.request_start().is_none());
    assert!(mgr.active_slots().is_empty());
    assert!(!mgr.node_ready("id-0"));
}

#[test]
fn no_nodes_leave_no_cluster() {
    let mut mgr = ClusterManager::new();
    let n = nodes(&["a"]);
    let a = mgr.rebalance(&n);
    assert_eq!(a.len(), 1);
    assert_eq!((a[0].1, a[0].2), (0, 28));
    assert!(mgr.node_ready("id-0"));
    assert!(mgr.rebalance(&[]).is_empty());
}

#[test]
fn generations_are_numbered() {
    let mut mgr = ClusterManager::new();
    let a = mgr.rebalance(&nodes(&["a"]));
    let b = mgr.rebalance(&nodes(&["a", "b"]));
    assert!(b[0].4 > a[0].4);
    assert_eq!(b[0].4, b[1].4);
}

#[test]
fn reinitializing_node_is_shown() {
    let mut mgr = ClusterManager::new();
    mgr.rebalance(&nodes(&["a"]));
    mgr.node_ready("id-0");
    mgr.node_reinitializing("id-0");
    let active = mgr.snapshot().active.expect("active");
    assert_eq!((active.generation, active.state, active.nodes.len()), (1, "active", 1));
    assert_eq!(active.nodes[0].node_id, "id-0");
    assert_eq!(active.nodes[0].infra_state, InfraState::Reinitializing);
    assert_eq!((active.nodes[0].layer_start, active.nodes[0].layer_end), (0, 28));
    assert!(!mgr.is_operational());
    assert!(mgr.active_slots().is_empty());

    mgr.rebalance(&nodes(&["a", "b"]));
    mgr.node_ready("id-1");
    mgr.node_reinitializing("id-1");
    let pending = mgr.snapshot().pending.expect("pending");
    assert_eq!((pending.generation, pending.state), (2, "forming"));
    assert_eq!(pending.nodes[1].infra_state, InfraState::Reinitializing);
}

#[test]
fn generation_numbers_count_up() {
    let mut mgr = ClusterManager::new();
    assert!(mgr.rebalance(&[]).is_empty());
    let first = mgr.rebalance(&nodes(&["a", "b"]));
    assert!(first.iter().all(|a| a.4 == 1));
    mgr.node_ready("id-0");
    mgr.node_reinitializing("id-0");
    mgr.node_ready("id-0");
    mgr.node_ready("id-1");
    let guard = mgr.request_start().expect("active");
    assert_eq!(guard.generation, 1);
    mgr.rebalance(&[]);
    mgr.rebalance(&[]);
    mgr.request_end(&guard);
    mgr.maybe_retire_draining();
    let second = mgr.rebalance(&nodes(&["a", "b", "c"]));
    assert_eq!(second.len(), 3);
    assert!(second.iter().all(|a| a.4 == 2));
    assert_eq!(mgr.rebalance(&nodes(&["a"]))[0].4, 3);
}

#[test]
fn every_draining_generation_is_kept_until_it_is_idle() {
    let mut mgr = ClusterManager::new();
    let mut guards = Vec::new();
    for names in [vec!["a"], vec!["a", "b"], vec!["a", "b", "c"]] {
        for (id, _, _, _, _) in &mgr.rebalance(&nodes(&names)) {
            mgr.node_ready(id);
        }
        guards.push(mgr.request_start().expect("active"));
    }
    let snap = mgr.snapshot();
    let latest = snap.draining.expect("draining");
    assert_eq!(latest.in_flight, 1);
    assert_eq!(snap.older_draining.len(), 1);
    assert_eq!(snap.older_draining[0].in_flight, 1);
    assert!(snap.older_draining[0].generation < latest.generation);

    mgr.request_end(&guards[1]);
    mgr.maybe_retire_draining();
    let snap = mgr.snapshot();
    assert_eq!(snap.draining.expect("draining").in_flight, 1);
    assert!(snap.older_draining.is_empty());

    mgr.request_end(&guards[0]);
    mgr.maybe_retire_draining();
    let snap = mgr.snapshot();
    assert!(snap.draining.is_none());
    assert_eq!(snap.active.expect("active").in_flight, 1);
}
