//! Nodes that registered with the coordinator over HTTP.
//!
//! A moment is a number of nanoseconds on one monotonic clock.
use crate::ids::fresh_id;
use crate::table::Table;
use vstd::prelude::*;

verus! {

use crate::seqs::{keep, lemma_keep_members, lemma_keep_step};
use crate::table::{
    as_map,
    distinct_keys,
    has_key,
    lemma_entry,
    lemma_has_key,
    lemma_keep_entries,
};

/// What a node offers.
#[derive(Debug)]
pub struct NodeCapabilities {
    pub available_models: Vec<String>,
    pub hardware_info: String,
    pub max_concurrent_tasks: u32,
}

#[derive(Debug)]
pub struct NodeInfo {
    pub node_id: String,
    pub node_name: String,
    pub capabilities: NodeCapabilities,
    pub active_tasks: u32,
    pub last_heartbeat: u64,
    pub registered_at: u64,
}

/// The registered nodes by id.
#[derive(Debug)]
pub struct NodeRegistry {
    pub nodes: Table<NodeInfo>,
}

/// No two nodes have the same name.
pub open spec fn distinct_names(entries: Seq<(String, NodeInfo)>) -> bool {
    forall|i: int, j: int|
        0 <= i < j < entries.len() ==> (#[trigger] entries[i]).1.node_name@ != (
        #[trigger] entries[j]).1.node_name@
}

impl NodeRegistry {
    pub open spec fn wf(self) -> bool {
        self.nodes.wf() && distinct_names(self.nodes.entries@)
    }
}

pub open spec fn is_new_info(
    n: NodeInfo,
    id: Seq<char>,
    node_name: String,
    capabilities: NodeCapabilities,
    now: u64,
) -> bool {
    &&& n.node_id@ == id
    &&& n.node_name == node_name
    &&& n.capabilities == capabilities
    &&& n.active_tasks == 0
    &&& n.last_heartbeat == now
    &&& n.registered_at == now
}

/// The nodes after one registered: it replaces every node of its name.
pub open spec fn registered(
    pre: Map<Seq<char>, NodeInfo>,
    post: Map<Seq<char>, NodeInfo>,
    id: Seq<char>,
    node_name: String,
    capabilities: NodeCapabilities,
    now: u64,
) -> bool {
    &&& post.dom().contains(id)
    &&& is_new_info(post[id], id, node_name, capabilities, now)
    &&& forall|k: Seq<char>|
        k != id ==> #[trigger] post.dom().contains(k) == (pre.dom().contains(k)
            && pre[k].node_name@ != node_name@)
    &&& forall|k: Seq<char>|
        k != id && post.dom().contains(k) ==> #[trigger] post[k] == pre[k]
}

/// The nodes after a sign of life.
pub open spec fn refreshed(
    pre: Map<Seq<char>, NodeInfo>,
    node_id: Seq<char>,
    active_tasks: u32,
    now: u64,
) -> Map<Seq<char>, NodeInfo> {
    if pre.dom().contains(node_id) {
        pre.insert(
            node_id,
            NodeInfo { last_heartbeat: now, active_tasks, ..pre[node_id] },
        )
    } else {
        pre
    }
}

/// Whether the node was heard of within `secs` seconds.
pub open spec fn is_alive(n: NodeInfo, secs: u64, now: u64) -> bool {
    let age = if now >= n.last_heartbeat {
        now - n.last_heartbeat
    } else {
        0
    };
    age < secs * 1_000_000_000
}

proof fn lemma_keep_names(
    entries: Seq<(String, NodeInfo)>,
    p: spec_fn((String, NodeInfo)) -> bool,
)
    requires
        distinct_names(entries),
    ensures
        distinct_names(keep(entries, p)),
    decreases entries.len(),
{
    if entries.len() > 0 {
        let init = entries.drop_last();
        assert(forall|j: int| 0 <= j < init.len() ==> init[j] == entries[j]);
        lemma_keep_names(init, p);
        lemma_keep_members(init, p);
        let kept = keep(entries, p);
        if p(entries.last()) {
            assert(entries[entries.len() - 1] == entries.last());
            assert forall|i: int| 0 <= i < keep(init, p).len() implies (
            #[trigger] kept[i]).1.node_name@ != entries.last().1.node_name@ by {
                let m = choose|m: int| 0 <= m < init.len() && init[m] == keep(init, p)[i];
                assert(entries[m] == init[m]);
            }
        }
    }
}

proof fn lemma_inserted_name(
    pre: Seq<(String, NodeInfo)>,
    post: Seq<(String, NodeInfo)>,
    id: Seq<char>,
    info: NodeInfo,
)
    requires
        distinct_keys(pre),
        distinct_keys(post),
        distinct_names(pre),
        as_map(post) == as_map(pre).insert(id, info),
        forall|i: int|
            0 <= i < pre.len() ==> (#[trigger] pre[i]).1.node_name@ != info.node_name@,
    ensures
        distinct_names(post),
{
    assert forall|i: int, j: int| 0 <= i < j < post.len() implies (
    #[trigger] post[i]).1.node_name@ != (#[trigger] post[j]).1.node_name@ by {
        lemma_entry(post, i);
        lemma_entry(post, j);
        let a = post[i].0@;
        let b = post[j].0@;
        if a != id {
            assert(as_map(pre).dom().contains(a));
            let x = choose|x: int| 0 <= x < pre.len() && (#[trigger] pre[x]).0@ == a;
            lemma_entry(pre, x);
            if b != id {
                assert(as_map(pre).dom().contains(b));
                let y = choose|y: int| 0 <= y < pre.len() && (#[trigger] pre[y]).0@ == b;
                lemma_entry(pre, y);
                if x < y {
                    assert(pre[x].1.node_name@ != pre[y].1.node_name@);
                } else {
                    assert(pre[y].1.node_name@ != pre[x].1.node_name@);
                }
            }
        } else {
            assert(as_map(pre).dom().contains(b));
            let y = choose|y: int| 0 <= y < pre.len() && (#[trigger] pre[y]).0@ == b;
            lemma_entry(pre, y);
        }
    }
}

impl NodeRegistry {
    /// No nodes.
    pub fn new() -> (r: Self)
        ensures
            r.wf(),
            r.nodes@ == Map::<Seq<char>, NodeInfo>::empty(),
    {
        NodeRegistry { nodes: Table::new() }
    }

    /// Registers a node under a fresh id; an earlier registration of its name is gone.
    pub fn register(&mut self, node_name: String, capabilities: NodeCapabilities, now: u64) -> (id:
        String)
        requires
            old(self).wf(),
        ensures
            final(self).wf(),
            id@.len() == 36,
            registered(
                old(self).nodes@,
                final(self).nodes@,
                id@,
                node_name,
                capabilities,
                now,
            ),
    {
        let id = fresh_id();
        let ghost pre = self.nodes.entries@;
        let ghost stay = |e: (String, NodeInfo)| e.1.node_name@ != node_name@;
        let ghost mut seen: int = 0;
        let mut i: usize = 0;
        assert(pre.subrange(0, pre.len() as int) == pre);
        while i < self.nodes.entries.len()
            invariant
                0 <= seen <= pre.len(),
                i <= self.nodes.entries@.len(),
                stay == (|e: (String, NodeInfo)| e.1.node_name@ != node_name@),
                i == keep(pre.subrange(0, seen), stay).len(),
                self.nodes.entries@ == keep(pre.subrange(0, seen), stay) + pre.subrange(
                    seen,
                    pre.len() as int,
                ),
            decreases pre.len() - seen,
        {
            proof {
                lemma_keep_step(pre, stay, seen);
                assert(self.nodes.entries@[i as int] == pre[seen]);
            }
            if self.nodes.entries[i].1.node_name == node_name {
                let gone = self.nodes.entries.remove(i);
            } else {
                i = i + 1;
            }
            assert(self.nodes.entries@ == keep(pre.subrange(0, seen + 1), stay) + pre.subrange(
                seen + 1,
                pre.len() as int,
            ));
            proof {
                seen = seen + 1;
            }
        }
        let ghost kept = self.nodes.entries@;
        proof {
            assert(kept == keep(pre, stay));
            lemma_keep_entries(pre, stay);
            lemma_keep_names(pre, stay);
            lemma_keep_members(pre, stay);
            assert forall|j: int| 0 <= j < kept.len() implies (#[trigger] kept[j]).1.node_name@
                != node_name@ by {
                assert(stay(kept[j]));
            }
        }
        let info = NodeInfo {
            node_id: id.clone(),
            node_name,
            capabilities,
            active_tasks: 0,
            last_heartbeat: now,
            registered_at: now,
        };
        self.nodes.insert(id.clone(), info);
        proof {
            lemma_inserted_name(kept, self.nodes.entries@, id@, info);
            assert forall|k: Seq<char>| k != id@ implies #[trigger] self.nodes@.dom().contains(k)
                == (old(self).nodes@.dom().contains(k) && old(self).nodes@[k].node_name@
                != node_name@) by {
                lemma_has_key(pre, k);
                assert(as_map(kept).dom().contains(k) == self.nodes@.dom().contains(k));
            }
            assert forall|k: Seq<char>|
                k != id@ && self.nodes@.dom().contains(k) implies #[trigger] self.nodes@[k] == old(self).nodes@[k] by {
                assert(as_map(kept).dom().contains(k));
                assert(as_map(kept)[k] == as_map(pre)[k]);
            }
        }
        id
    }

    /// Takes a node out. Returns whether it was registered.
    pub fn deregister(&mut self, node_id: &str) -> (found: bool)
        requires
            old(self).wf(),
        ensures
            final(self).wf(),
            final(self).nodes@ == old(self).nodes@.remove(node_id@),
            found == old(self).nodes@.dom().contains(node_id@),
    {
        let ghost pre = self.nodes.entries@;
        let k = self.nodes.index(node_id);
        match self.nodes.remove(node_id) {
            Some(_) => {
                proof {
                    lemma_removed_names(pre, self.nodes.entries@, node_id@);
                }
                true
            },
            None => {
                proof {
                    lemma_removed_names(pre, self.nodes.entries@, node_id@);
                }
                false
            },
        }
    }

    /// Records a sign of life. Returns whether the node is registered.
    pub fn heartbeat(&mut self, node_id: &str, active_tasks: u32, now: u64) -> (known: bool)
        requires
            old(self).wf(),
        ensures
            final(self).wf(),
            known == old(self).nodes@.dom().contains(node_id@),
            final(self).nodes@ == refreshed(old(self).nodes@, node_id@, active_tasks, now),
    {
        let k = self.nodes.index(node_id);
        if k < self.nodes.entries.len() {
            let ghost pre = self.nodes.entries@;
            proof {
                lemma_has_key(pre, node_id@);
            }
            self.nodes.entries[k].1.last_heartbeat = now;
            self.nodes.entries[k].1.active_tasks = active_tasks;
            proof {
                assert(self.nodes.entries@ == pre.update(
                    k as int,
                    (pre[k as int].0, self.nodes.entries@[k as int].1),
                ));
                lemma_changed_info(pre, self.nodes.entries@, k as int);
            }
            true
        } else {
            false
        }
    }

    /// A node.
    pub fn get_node(&self, node_id: &str) -> (r: Option<&NodeInfo>)
        ensures
            match r {
                Some(n) => self.nodes@.dom().contains(node_id@) && *n == self.nodes@[node_id@],
                None => !self.nodes@.dom().contains(node_id@),
            },
    {
        self.nodes.get(node_id)
    }

    /// All nodes with their ids.
    pub fn list_nodes(&self) -> (r: &Vec<(String, NodeInfo)>)
        ensures
            as_map(r@) == self.nodes@,
            r@ == self.nodes.entries@,
    {
        &self.nodes.entries
    }

    /// Takes nodes out that were not heard of within `timeout_secs` seconds.
    pub fn remove_stale_nodes(&mut self, timeout_secs: u64, now: u64)
        requires
            old(self).wf(),
        ensures
            final(self).wf(),
            forall|id: Seq<char>| #[trigger]
                final(self).nodes@.dom().contains(id) == (old(self).nodes@.dom().contains(id)
                    && is_alive(old(self).nodes@[id], timeout_secs, now)),
            forall|id: Seq<char>|
                final(self).nodes@.dom().contains(id) ==> #[trigger] final(self).nodes@[id] == old(self).nodes@[id],
    {
        let ghost pre = self.nodes.entries@;
        let ghost stay = |e: (String, NodeInfo)| is_alive(e.1, timeout_secs, now);
        let ghost mut seen: int = 0;
        let mut i: usize = 0;
        let span: u128 = timeout_secs as u128 * 1_000_000_000;
        assert(pre.subrange(0, pre.len() as int) == pre);
        while i < self.nodes.entries.len()
            invariant
                span == timeout_secs * 1_000_000_000,
                0 <= seen <= pre.len(),
                i <= self.nodes.entries@.len(),
                stay == (|e: (String, NodeInfo)| is_alive(e.1, timeout_secs, now)),
                i == keep(pre.subrange(0, seen), stay).len(),
                self.nodes.entries@ == keep(pre.subrange(0, seen), stay) + pre.subrange(
                    seen,
                    pre.len() as int,
                ),
            decreases pre.len() - seen,
        {
            proof {
                lemma_keep_step(pre, stay, seen);
                assert(self.nodes.entries@[i as int] == pre[seen]);
            }
            let age: u64 = now.saturating_sub(self.nodes.entries[i].1.last_heartbeat);
            if (age as u128) < span {
                i = i + 1;
            } else {
                let gone = self.nodes.entries.remove(i);
            }
            assert(self.nodes.entries@ == keep(pre.subrange(0, seen + 1), stay) + pre.subrange(
                seen + 1,
                pre.len() as int,
            ));
            proof {
                seen = seen + 1;
            }
        }
        proof {
            assert(self.nodes.entries@ == keep(pre, stay));
            lemma_keep_entries(pre, stay);
            lemma_keep_names(pre, stay);
            assert forall|id: Seq<char>| #[trigger]
                self.nodes@.dom().contains(id) == (old(self).nodes@.dom().contains(id) && is_alive(
                    old(self).nodes@[id],
                    timeout_secs,
                    now,
                )) by {
                lemma_has_key(pre, id);
            }
        }
    }
}

proof fn lemma_removed_names(
    pre: Seq<(String, NodeInfo)>,
    post: Seq<(String, NodeInfo)>,
    id: Seq<char>,
)
    requires
        distinct_keys(pre),
        distinct_keys(post),
        distinct_names(pre),
        as_map(post) == as_map(pre).remove(id),
    ensures
        distinct_names(post),
{
    assert forall|i: int, j: int| 0 <= i < j < post.len() implies (
    #[trigger] post[i]).1.node_name@ != (#[trigger] post[j]).1.node_name@ by {
        lemma_entry(post, i);
        lemma_entry(post, j);
        let a = post[i].0@;
        let b = post[j].0@;
        assert(as_map(pre).dom().contains(a));
        assert(as_map(pre).dom().contains(b));
        let x = choose|x: int| 0 <= x < pre.len() && (#[trigger] pre[x]).0@ == a;
        let y = choose|y: int| 0 <= y < pre.len() && (#[trigger] pre[y]).0@ == b;
        lemma_entry(pre, x);
        lemma_entry(pre, y);
        if x < y {
            assert(pre[x].1.node_name@ != pre[y].1.node_name@);
        } else {
            assert(pre[y].1.node_name@ != pre[x].1.node_name@);
        }
    }
}

proof fn lemma_changed_info(
    pre: Seq<(String, NodeInfo)>,
    post: Seq<(String, NodeInfo)>,
    k: int,
)
    requires
        distinct_keys(pre),
        distinct_names(pre),
        0 <= k < pre.len(),
        post == pre.update(k, (pre[k].0, post[k].1)),
        post[k].1.node_name == pre[k].1.node_name,
    ensures
        distinct_keys(post),
        distinct_names(post),
        as_map(post) == as_map(pre).insert(pre[k].0@, post[k].1),
{
    assert(forall|j: int|
        0 <= j < pre.len() ==> (#[trigger] post[j]).0 == pre[j].0 && post[j].1.node_name
            == pre[j].1.node_name);
    assert forall|x: Seq<char>| has_key(post, x) == has_key(pre, x) by {
        if has_key(post, x) {
            let j = choose|j: int| 0 <= j < post.len() && (#[trigger] post[j]).0@ == x;
            assert(pre[j].0@ == x);
        }
        if has_key(pre, x) {
            let j = choose|j: int| 0 <= j < pre.len() && (#[trigger] pre[j]).0@ == x;
            assert(post[j].0@ == x);
        }
    }
    lemma_entry(pre, k);
    assert forall|x: Seq<char>| has_key(post, x) implies #[trigger] as_map(post)[x] == as_map(
        pre,
    ).insert(pre[k].0@, post[k].1)[x] by {
        let j = choose|j: int| 0 <= j < post.len() && (#[trigger] post[j]).0@ == x;
        lemma_entry(post, j);
        lemma_entry(pre, j);
    }
    assert(as_map(post) =~= as_map(pre).insert(pre[k].0@, post[k].1));
}

/// A node that is heard of again and again stays registered.
pub proof fn law_heartbeat_keeps_node_alive(n: NodeInfo, active_tasks: u32, secs: u64, now: u64)
    requires
        secs > 0,
    ensures
        is_alive(NodeInfo { last_heartbeat: now, active_tasks, ..n }, secs, now),
{
}

} // verus!
