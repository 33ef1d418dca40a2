//! Lifecycle of cluster generations.
//!
//! A generation is `Forming` while its nodes take up new layer ranges, `Active` while
//! it serves requests, and `Draining` from the moment another generation took over
//! until its last request has ended. At most one generation forms and at most one is
//! active; any number of them may drain.
use crate::layers::{split_layers, TOTAL_LAYERS};
use crate::text::str_eq;
use vstd::prelude::*;

verus! {

use crate::layers::{law_every_layer_has_one_owner, law_split_is_even_partition, split_start};
use crate::seqs::{keep, lemma_keep_members, lemma_keep_step, sum_of};

/// What a node is doing within a cluster.
#[derive(Debug, Clone, Copy, PartialEq, Eq, Structural)]
pub enum InfraState {
    /// Connected, not in any cluster yet.
    Available,
    /// Serving its layer range.
    InCluster,
    /// Took up a new range; its inference server is not ready yet.
    Reinitializing,
}

/// One node of a generation with its layer range `[layer_start, layer_end)`.
#[derive(Debug)]
pub struct NodeSlot {
    pub node_id: String,
    pub node_name: String,
    pub layer_start: usize,
    pub layer_end: usize,
    pub infra_state: InfraState,
}

impl Clone for NodeSlot {
    fn clone(&self) -> (r: Self)
        ensures
            r == *self,
    {
        NodeSlot {
            node_id: self.node_id.clone(),
            node_name: self.node_name.clone(),
            layer_start: self.layer_start,
            layer_end: self.layer_end,
            infra_state: self.infra_state,
        }
    }
}

/// A generation as operators see it.
#[derive(Debug)]
pub struct ClusterSnapshot {
    pub generation: u64,
    pub state: &'static str,
    pub in_flight: u32,
    pub nodes: Vec<NodeSlot>,
}

/// The generations as operators see them.
#[derive(Debug)]
pub struct InfraSnapshot {
    pub active: Option<ClusterSnapshot>,
    pub pending: Option<ClusterSnapshot>,
    /// The generation that was active last among those that drain.
    pub draining: Option<ClusterSnapshot>,
    /// The other ones that drain, by age.
    pub older_draining: Vec<ClusterSnapshot>,
}

/// Layer assignment of one hop of an active generation.
#[derive(Debug)]
pub struct ActiveSlot {
    pub node_id: String,
    pub node_name: String,
    pub layer_start: usize,
    pub layer_end: usize,
    pub generation: u64,
}

#[derive(Debug, Clone, Copy, PartialEq, Eq, Structural)]
pub enum GenState {
    Forming,
    Active,
    Draining,
}

/// One division of the layers over nodes.
#[derive(Debug)]
pub struct Generation {
    pub gen: u64,
    pub slots: Vec<NodeSlot>,
    pub in_flight: u32,
    pub state: GenState,
}

/// What a [`ClusterManager`] holds, as contracts see it.
pub struct Generations {
    pub next_gen: u64,
    pub active: Option<Generation>,
    pub pending: Option<Generation>,
    /// The draining generations, by age.
    pub draining: Seq<Generation>,
}

/// Names the generation whose request counter [`ClusterManager::request_start`] raised.
#[derive(Debug, Clone, Copy, PartialEq, Eq, Structural)]
pub struct InFlightGuard {
    pub generation: u64,
}

/// Holds the generations of the serving cluster.
#[derive(Debug)]
pub struct ClusterManager {
    next_gen: u64,
    active: Option<Generation>,
    pending: Option<Generation>,
    draining: Vec<Generation>,
}

// ── Model ────────────────────────────────────────────────────────────────────

/// The slot that counts for `node_id`: the last one that names it.
pub open spec fn last_slot(slots: Seq<NodeSlot>, node_id: Seq<char>) -> Option<NodeSlot>
    decreases slots.len(),
{
    if slots.len() == 0 {
        None
    } else if slots.last().node_id@ == node_id {
        Some(slots.last())
    } else {
        last_slot(slots.drop_last(), node_id)
    }
}

/// Position of the first slot of `node_id`, or the number of slots.
pub open spec fn first_slot(slots: Seq<NodeSlot>, node_id: Seq<char>) -> int
    decreases slots.len(),
{
    if slots.len() == 0 {
        0
    } else if slots[0].node_id@ == node_id {
        0
    } else {
        1 + first_slot(slots.drop_first(), node_id)
    }
}

/// Whether the active generation has `node_id` serving exactly `[start, end)`.
pub open spec fn serves_range(
    active: Option<Generation>,
    node_id: Seq<char>,
    start: int,
    end: int,
) -> bool {
    active is Some && match last_slot(active->0.slots@, node_id) {
        Some(slot) => slot.layer_start == start && slot.layer_end == end && slot.infra_state
            == InfraState::InCluster,
        None => false,
    }
}

/// Whether node `i` of `nodes` keeps the range that it serves already.
pub open spec fn keeps_range(
    active: Option<Generation>,
    nodes: Seq<(String, String)>,
    i: int,
) -> bool {
    serves_range(
        active,
        nodes[i].0@,
        split_start(nodes.len() as int, i),
        split_start(nodes.len() as int, i + 1),
    )
}

/// The slots of a new generation over `nodes`.
pub open spec fn new_slots(
    active: Option<Generation>,
    nodes: Seq<(String, String)>,
) -> Seq<NodeSlot> {
    Seq::new(
        nodes.len(),
        |i: int|
            NodeSlot {
                node_id: nodes[i].0,
                node_name: nodes[i].1,
                layer_start: split_start(nodes.len() as int, i) as usize,
                layer_end: split_start(nodes.len() as int, i + 1) as usize,
                infra_state: if keeps_range(active, nodes, i) {
                    InfraState::InCluster
                } else {
                    InfraState::Reinitializing
                },
            },
    )
}

pub open spec fn all_in_cluster(slots: Seq<NodeSlot>) -> bool {
    forall|i: int| 0 <= i < slots.len() ==> (#[trigger] slots[i]).infra_state
        == InfraState::InCluster
}

/// `g` from the moment on that another generation took over.
pub open spec fn as_draining(g: Generation) -> Generation {
    Generation { state: GenState::Draining, ..g }
}

/// The draining generations when `old_gen` stops being active: it joins them if requests are
/// in flight on it, else nothing changes.
pub open spec fn after_retire(draining: Seq<Generation>, old_gen: Option<Generation>) -> Seq<
    Generation,
> {
    if old_gen is Some && old_gen->0.in_flight > 0 {
        draining.push(as_draining(old_gen->0))
    } else {
        draining
    }
}

/// Having requests in flight.
pub open spec fn is_busy() -> spec_fn(Generation) -> bool {
    |g: Generation| g.in_flight > 0
}

/// `slots` with the first slot of `node_id` in `state`.
pub open spec fn with_state(
    slots: Seq<NodeSlot>,
    node_id: Seq<char>,
    state: InfraState,
) -> Seq<NodeSlot> {
    let k = first_slot(slots, node_id);
    if k < slots.len() {
        slots.update(k, NodeSlot { infra_state: state, ..slots[k] })
    } else {
        slots
    }
}

/// The slots that serve, in order.
pub open spec fn serving(slots: Seq<NodeSlot>) -> Seq<NodeSlot>
    decreases slots.len(),
{
    if slots.len() == 0 {
        Seq::empty()
    } else if slots.last().infra_state == InfraState::InCluster {
        serving(slots.drop_last()).push(slots.last())
    } else {
        serving(slots.drop_last())
    }
}

/// Whether some serving slot of the active generation holds `layer`.
pub open spec fn layer_served(active: Option<Generation>, layer: int) -> bool {
    active is Some && exists|i: int|
        0 <= i < active->0.slots@.len() && (#[trigger] active->0.slots@[i]).infra_state
            == InfraState::InCluster && active->0.slots@[i].layer_start <= layer
            < active->0.slots@[i].layer_end
}

/// Whether every layer is served.
pub open spec fn operational(active: Option<Generation>) -> bool {
    forall|layer: int| 0 <= layer < TOTAL_LAYERS ==> #[trigger] layer_served(active, layer)
}

/// The slots divide the layers evenly over at least one node.
pub open spec fn evenly_divided(slots: Seq<NodeSlot>) -> bool {
    &&& slots.len() >= 1
    &&& forall|i: int|
        0 <= i < slots.len() ==> (#[trigger] slots[i]).layer_start == split_start(
            slots.len() as int,
            i,
        ) && slots[i].layer_end == split_start(slots.len() as int, i + 1)
}

/// Whether operators see the generations so.
pub open spec fn is_snapshot(state: Generations, snap: InfraSnapshot) -> bool {
    let n = state.draining.len() as int;
    &&& snapshot_of(state.active, snap.active)
    &&& snapshot_of(state.pending, snap.pending)
    &&& if n == 0 {
        snap.draining is None && snap.older_draining@.len() == 0
    } else {
        snapshot_of(Some(state.draining[n - 1]), snap.draining) && snap.older_draining@.len() == n
            - 1
    }
    &&& forall|i: int|
        0 <= i < snap.older_draining@.len() ==> snapshot_of(
            Some(state.draining[i]),
            Some(#[trigger] snap.older_draining@[i]),
        )
}

pub open spec fn snapshot_of(g: Option<Generation>, snap: Option<ClusterSnapshot>) -> bool {
    match (g, snap) {
        (None, None) => true,
        (Some(g), Some(s)) => {
            &&& s.generation == g.gen
            &&& s.in_flight == g.in_flight
            &&& s.nodes@ == g.slots@
            &&& s.state@ == match g.state {
                GenState::Forming => "forming"@,
                GenState::Active => "active"@,
                GenState::Draining => "draining"@,
            }
        },
        _ => false,
    }
}

/// What the nodes are told in a rebalance.
pub open spec fn are_assignments(
    sent: Seq<(String, usize, usize, bool, u64)>,
    active: Option<Generation>,
    nodes: Seq<(String, String)>,
    gen: u64,
) -> bool {
    &&& sent.len() == nodes.len()
    &&& forall|i: int|
        0 <= i < sent.len() ==> {
            &&& (#[trigger] sent[i]).0 == nodes[i].0
            &&& sent[i].1 == split_start(nodes.len() as int, i)
            &&& sent[i].2 == split_start(nodes.len() as int, i + 1)
            &&& sent[i].3 == keeps_range(active, nodes, i)
            &&& sent[i].4 == gen
        }
}

/// The serving slots of the active generation, in order.
pub open spec fn are_active_slots(r: Seq<ActiveSlot>, active: Option<Generation>) -> bool {
    &&& active is None ==> r.len() == 0
    &&& active is Some ==> r.len() == serving(active->0.slots@).len()
    &&& forall|i: int|
        0 <= i < r.len() ==> {
            let s = serving(active->0.slots@)[i];
            &&& (#[trigger] r[i]).node_id == s.node_id
            &&& r[i].node_name == s.node_name
            &&& r[i].layer_start == s.layer_start
            &&& r[i].layer_end == s.layer_end
            &&& r[i].generation == active->0.gen
        }
}

impl Generations {
    /// Generation numbers are handed out once and in order; each generation is in the
    /// state that its place says; the layers of each are divided evenly; and a pending
    /// generation waits for at least one node.
    pub open spec fn wf(self) -> bool {
        &&& self.active is Some ==> self.active->0.state == GenState::Active
            && self.active->0.gen < self.next_gen && evenly_divided(self.active->0.slots@)
        &&& self.pending is Some ==> self.pending->0.state == GenState::Forming
            && self.pending->0.gen < self.next_gen && evenly_divided(self.pending->0.slots@)
            && !all_in_cluster(self.pending->0.slots@) && self.pending->0.in_flight == 0
        &&& self.active is Some && self.pending is Some ==> self.active->0.gen
            < self.pending->0.gen
        &&& forall|i: int|
            0 <= i < self.draining.len() ==> {
                &&& (#[trigger] self.draining[i]).state == GenState::Draining
                &&& self.draining[i].gen < self.next_gen
                &&& evenly_divided(self.draining[i].slots@)
                &&& self.active is Some ==> self.draining[i].gen < self.active->0.gen
                &&& self.pending is Some ==> self.draining[i].gen < self.pending->0.gen
            }
        &&& forall|i: int, j: int|
            0 <= i < j < self.draining.len() ==> (#[trigger] self.draining[i]).gen < (
            #[trigger] self.draining[j]).gen
    }

    /// The generations after a rebalance over `nodes`.
    pub open spec fn rebalanced(self, nodes: Seq<(String, String)>, post: Generations) -> bool {
        if nodes.len() == 0 {
            &&& post.next_gen == self.next_gen
            &&& post.active is None
            &&& post.pending is None
            &&& post.draining == after_retire(self.draining, self.active)
        } else {
            let slots = new_slots(self.active, nodes);
            &&& post.next_gen == self.next_gen + 1
            &&& if all_in_cluster(slots) {
                &&& post.active is Some
                &&& is_fresh(post.active->0, self.next_gen, slots, GenState::Active)
                &&& post.pending is None
                &&& post.draining == after_retire(self.draining, self.active)
            } else {
                &&& post.active == self.active
                &&& post.pending is Some
                &&& is_fresh(post.pending->0, self.next_gen, slots, GenState::Forming)
                &&& post.draining == self.draining
            }
        }
    }

    /// The generations after `node_id` reported that it is ready.
    pub open spec fn readied(self, node_id: Seq<char>, post: Generations) -> bool {
        &&& post.next_gen == self.next_gen
        &&& if self.pending is Some {
            let slots = with_state(self.pending->0.slots@, node_id, InfraState::InCluster);
            if all_in_cluster(slots) {
                &&& post.active is Some
                &&& post.active->0.gen == self.pending->0.gen
                &&& post.active->0.in_flight == 0
                &&& post.active->0.state == GenState::Active
                &&& post.active->0.slots@ == slots
                &&& post.pending is None
                &&& post.draining == after_retire(self.draining, self.active)
            } else {
                &&& post.active == self.active
                &&& post.pending is Some
                &&& post.pending->0.gen == self.pending->0.gen
                &&& post.pending->0.in_flight == self.pending->0.in_flight
                &&& post.pending->0.state == self.pending->0.state
                &&& post.pending->0.slots@ == slots
                &&& post.draining == self.draining
            }
        } else {
            post == self
        }
    }

    /// The generations after a request was counted on the active one, if there is one.
    pub open spec fn request_started(self) -> Generations {
        Generations {
            active: match self.active {
                Some(g) => Some(Generation { in_flight: g.in_flight.wrapping_add(1), ..g }),
                None => None,
            },
            ..self
        }
    }

    /// The generations after a request on generation `gen` ended.
    pub open spec fn request_ended(self, gen: u64) -> Generations {
        Generations {
            active: match self.active {
                Some(g) => Some(after_request_end(g, gen)),
                None => None,
            },
            draining: self.draining.map_values(|g: Generation| after_request_end(g, gen)),
            ..self
        }
    }

    /// The generations without the draining ones that have no request in flight.
    pub open spec fn retired(self) -> Generations {
        Generations { draining: keep(self.draining, is_busy()), ..self }
    }

    /// The generations after `node_id` reported that it restarts its server.
    pub open spec fn reinitialized(self, node_id: Seq<char>, post: Generations) -> bool {
        &&& post.next_gen == self.next_gen
        &&& post.draining == self.draining
        &&& if self.pending is Some && first_slot(self.pending->0.slots@, node_id)
            < self.pending->0.slots@.len() {
            post.active == self.active && same_but_state(self.pending, node_id, post.pending)
        } else {
            post.pending == self.pending && same_but_state(self.active, node_id, post.active)
        }
    }
}

pub open spec fn is_fresh(
    g: Generation,
    gen: u64,
    slots: Seq<NodeSlot>,
    state: GenState,
) -> bool {
    g.gen == gen && g.slots@ == slots && g.in_flight == 0 && g.state == state
}

/// `post` is `pre` with the first slot of `node_id`, if any, reinitializing.
pub open spec fn same_but_state(
    pre: Option<Generation>,
    node_id: Seq<char>,
    post: Option<Generation>,
) -> bool {
    match (pre, post) {
        (None, None) => true,
        (Some(a), Some(b)) => b.gen == a.gen && b.in_flight == a.in_flight && b.state == a.state
            && b.slots@ == with_state(a.slots@, node_id, InfraState::Reinitializing),
        _ => false,
    }
}

/// `g` after a request on generation `gen` ended; a counter at zero stays there.
pub open spec fn after_request_end(g: Generation, gen: u64) -> Generation {
    if g.gen == gen && g.in_flight > 0 {
        Generation { in_flight: (g.in_flight - 1) as u32, ..g }
    } else {
        g
    }
}

// ── Lemmas ───────────────────────────────────────────────────────────────────

proof fn lemma_first_slot(slots: Seq<NodeSlot>, node_id: Seq<char>)
    ensures
        0 <= first_slot(slots, node_id) <= slots.len(),
        first_slot(slots, node_id) < slots.len() ==> slots[first_slot(
            slots,
            node_id,
        )].node_id@ == node_id,
        forall|j: int|
            0 <= j < first_slot(slots, node_id) ==> (#[trigger] slots[j]).node_id@ != node_id,
    decreases slots.len(),
{
    if slots.len() > 0 && slots[0].node_id@ != node_id {
        let rest = slots.drop_first();
        lemma_first_slot(rest, node_id);
        assert forall|j: int| 0 <= j < first_slot(slots, node_id) implies (
        #[trigger] slots[j]).node_id@ != node_id by {
            if j > 0 {
                assert(rest[j - 1] == slots[j]);
            }
        }
        if first_slot(slots, node_id) < slots.len() {
            assert(rest[first_slot(rest, node_id)] == slots[first_slot(slots, node_id)]);
        }
    }
}

proof fn lemma_with_state_divided(slots: Seq<NodeSlot>, node_id: Seq<char>, state: InfraState)
    requires
        evenly_divided(slots),
    ensures
        evenly_divided(with_state(slots, node_id, state)),
{
    lemma_first_slot(slots, node_id);
}

proof fn lemma_last_slot_index(slots: Seq<NodeSlot>, node_id: Seq<char>, k: int)
    requires
        0 <= k < slots.len(),
        slots[k].node_id@ == node_id,
        forall|j: int| k < j < slots.len() ==> (#[trigger] slots[j]).node_id@ != node_id,
    ensures
        last_slot(slots, node_id) == Some(slots[k]),
    decreases slots.len(),
{
    if k < slots.len() - 1 {
        let init = slots.drop_last();
        assert(slots.last().node_id@ != node_id);
        assert(init[k] == slots[k]);
        lemma_last_slot_index(init, node_id, k);
    }
}

proof fn lemma_last_slot_absent(slots: Seq<NodeSlot>, node_id: Seq<char>)
    requires
        forall|j: int| 0 <= j < slots.len() ==> (#[trigger] slots[j]).node_id@ != node_id,
    ensures
        last_slot(slots, node_id) is None,
    decreases slots.len(),
{
    if slots.len() > 0 {
        lemma_last_slot_absent(slots.drop_last(), node_id);
    }
}

proof fn lemma_new_slots_divided(active: Option<Generation>, nodes: Seq<(String, String)>)
    requires
        nodes.len() >= 1,
    ensures
        evenly_divided(new_slots(active, nodes)),
{
    law_split_is_even_partition(nodes.len() as int);
    let n = nodes.len() as int;
    let slots = new_slots(active, nodes);
    assert forall|i: int| 0 <= i < slots.len() implies (#[trigger] slots[i]).layer_start
        == split_start(slots.len() as int, i) && slots[i].layer_end == split_start(
        slots.len() as int,
        i + 1,
    ) by {
        assert(split_start(n, 0) <= split_start(n, i) <= split_start(n, n));
        assert(split_start(n, 0) <= split_start(n, i + 1) <= split_start(n, n));
    }
}

/// The busy ones of generations in order are in order.
proof fn lemma_busy_in_order(all: Seq<Generation>)
    requires
        forall|i: int, j: int|
            0 <= i < j < all.len() ==> (#[trigger] all[i]).gen < (#[trigger] all[j]).gen,
    ensures
        forall|i: int|
            0 <= i < keep(all, is_busy()).len() ==> all.contains(
                #[trigger] keep(all, is_busy())[i],
            ),
        forall|i: int, j: int|
            0 <= i < j < keep(all, is_busy()).len() ==> (#[trigger] keep(all, is_busy())[i]).gen < (
            #[trigger] keep(all, is_busy())[j]).gen,
    decreases all.len(),
{
    let kept = keep(all, is_busy());
    if all.len() > 0 {
        let init = all.drop_last();
        lemma_busy_in_order(init);
        let before = keep(init, is_busy());
        assert forall|i: int| 0 <= i < kept.len() implies all.contains(#[trigger] kept[i]) by {
            if i < before.len() {
                assert(before[i] == kept[i]);
                assert(init.contains(before[i]));
                let k = choose|k: int| 0 <= k < init.len() && init[k] == before[i];
                assert(all[k] == kept[i]);
            } else {
                assert(all[all.len() - 1] == kept[i]);
            }
        }
        assert forall|i: int, j: int| 0 <= i < j < kept.len() implies (#[trigger] kept[i]).gen < (
        #[trigger] kept[j]).gen by {
            assert(kept[i] == before[i]);
            if j < before.len() {
                assert(kept[j] == before[j]);
            } else {
                assert(init.contains(before[i]));
                let k = choose|k: int| 0 <= k < init.len() && init[k] == before[i];
                assert(all[k] == kept[i]);
                assert(all[all.len() - 1] == kept[j]);
            }
        }
    }
}

// ── Operations ───────────────────────────────────────────────────────────────

fn find_last(slots: &Vec<NodeSlot>, node_id: &String) -> (r: Option<usize>)
    ensures
        match r {
            Some(k) => k < slots@.len() && last_slot(slots@, node_id@) == Some(slots@[k as int]),
            None => last_slot(slots@, node_id@) is None,
        },
{
    let mut k: usize = slots.len();
    while k > 0
        invariant
            k <= slots@.len(),
            forall|j: int| k <= j < slots@.len() ==> (#[trigger] slots@[j]).node_id@ != node_id@,
        decreases k,
    {
        k = k - 1;
        if slots[k].node_id == *node_id {
            proof {
                lemma_last_slot_index(slots@, node_id@, k as int);
            }
            return Some(k);
        }
    }
    proof {
        lemma_last_slot_absent(slots@, node_id@);
    }
    None
}

fn find_first(slots: &Vec<NodeSlot>, node_id: &str) -> (k: usize)
    ensures
        k == first_slot(slots@, node_id@),
        k <= slots@.len(),
{
    proof {
        lemma_first_slot(slots@, node_id@);
    }
    let mut k: usize = 0;
    while k < slots.len()
        invariant
            k <= first_slot(slots@, node_id@) <= slots@.len(),
            first_slot(slots@, node_id@) < slots@.len() ==> slots@[first_slot(
                slots@,
                node_id@,
            )].node_id@ == node_id@,
            forall|j: int|
                0 <= j < first_slot(slots@, node_id@) ==> (#[trigger] slots@[j]).node_id@
                    != node_id@,
        decreases slots@.len() - k,
    {
        if str_eq(slots[k].node_id.as_str(), node_id) {
            return k;
        }
        k = k + 1;
    }
    k
}

fn every_in_cluster(slots: &Vec<NodeSlot>) -> (r: bool)
    ensures
        r == all_in_cluster(slots@),
{
    let mut i: usize = 0;
    while i < slots.len()
        invariant
            i <= slots@.len(),
            forall|j: int| 0 <= j < i ==> (#[trigger] slots@[j]).infra_state
                == InfraState::InCluster,
        decreases slots@.len() - i,
    {
        if slots[i].infra_state != InfraState::InCluster {
            return false;
        }
        i = i + 1;
    }
    true
}

/// Keeps `old_gen` among the draining generations if requests are in flight on it.
fn retire_or_drain(draining: &mut Vec<Generation>, old_gen: Generation)
    ensures
        final(draining)@ == after_retire(old(draining)@, Some(old_gen)),
{
    if old_gen.in_flight == 0 {
        return ;
    }
    let mut gone = old_gen;
    gone.state = GenState::Draining;
    draining.push(gone);
}

fn clone_slots(slots: &Vec<NodeSlot>) -> (r: Vec<NodeSlot>)
    ensures
        r@ == slots@,
{
    let mut r: Vec<NodeSlot> = Vec::new();
    let mut i: usize = 0;
    while i < slots.len()
        invariant
            i <= slots@.len(),
            r@ == slots@.subrange(0, i as int),
        decreases slots@.len() - i,
    {
        r.push(slots[i].clone());
        i = i + 1;
    }
    assert(slots@.subrange(0, slots@.len() as int) == slots@);
    r
}

fn snapshot_gen(g: &Generation) -> (snap: ClusterSnapshot)
    ensures
        snapshot_of(Some(*g), Some(snap)),
{
    ClusterSnapshot {
        generation: g.gen,
        state: match g.state {
            GenState::Forming => "forming",
            GenState::Active => "active",
            GenState::Draining => "draining",
        },
        in_flight: g.in_flight,
        nodes: clone_slots(&g.slots),
    }
}

fn snapshot_opt(g: &Option<Generation>) -> (snap: Option<ClusterSnapshot>)
    ensures
        snapshot_of(*g, snap),
{
    match g {
        Some(g) => Some(snapshot_gen(g)),
        None => None,
    }
}

impl View for ClusterManager {
    type V = Generations;

    closed spec fn view(&self) -> Generations {
        Generations {
            next_gen: self.next_gen,
            active: self.active,
            pending: self.pending,
            draining: self.draining@,
        }
    }
}

impl ClusterManager {
    /// A manager without any generation; the first one will be number 1.
    pub fn new() -> (mgr: Self)
        ensures
            mgr@.wf(),
            mgr@ == (Generations {
                next_gen: 1,
                active: None,
                pending: None,
                draining: Seq::empty(),
            }),
    {
        ClusterManager { next_gen: 1, active: None, pending: None, draining: Vec::new() }
    }

    /// Divides the layers over `gpu_nodes`, pairs of node id and node name, and starts a
    /// new generation.
    ///
    /// Returns `(node_id, layer_start, layer_end, skip_download, generation)` per node.
    /// `skip_download` holds exactly for a node that serves that range in the active
    /// generation. If it holds for all of them, the new generation is active at once;
    /// otherwise it is pending, in place of any other, and the active one keeps serving.
    /// Without nodes there is no active and no pending generation afterwards.
    pub fn rebalance(&mut self, gpu_nodes: &[(String, String)]) -> (sent: Vec<
        (String, usize, usize, bool, u64),
    >)
        requires
            old(self)@.wf(),
            old(self)@.next_gen < u64::MAX,
        ensures
            final(self)@.wf(),
            old(self)@.rebalanced(gpu_nodes@, final(self)@),
            are_assignments(sent@, old(self)@.active, gpu_nodes@, old(self)@.next_gen),
    {
        let n: usize = gpu_nodes.len();
        if n == 0 {
            let gone = self.active.take();
            if let Some(old_gen) = gone {
                retire_or_drain(&mut self.draining, old_gen);
            }
            self.pending = None;
            return Vec::new();
        }
        let ghost active = self@.active;
        let ghost nodes = gpu_nodes@;
        let gen: u64 = self.next_gen;
        self.next_gen = gen + 1;
        let ranges = split_layers(n);
        let mut slots: Vec<NodeSlot> = Vec::new();
        let mut sent: Vec<(String, usize, usize, bool, u64)> = Vec::new();
        let mut i: usize = 0;
        while i < n
            invariant
                n == nodes.len(),
                nodes == gpu_nodes@,
                n >= 1,
                i <= n,
                active == self@.active,
                ranges@.len() == n,
                forall|k: int|
                    0 <= k < n ==> (#[trigger] ranges@[k]).0 == split_start(n as int, k)
                        && ranges@[k].1 == split_start(n as int, k + 1),
                slots@.len() == i,
                sent@.len() == i,
                forall|k: int|
                    0 <= k < i ==> #[trigger] slots@[k] == new_slots(active, nodes)[k],
                forall|k: int|
                    0 <= k < i ==> {
                        &&& (#[trigger] sent@[k]).0 == nodes[k].0
                        &&& sent@[k].1 == split_start(n as int, k)
                        &&& sent@[k].2 == split_start(n as int, k + 1)
                        &&& sent@[k].3 == keeps_range(active, nodes, k)
                        &&& sent@[k].4 == gen
                    },
            decreases n - i,
        {
            let node_id = gpu_nodes[i].0.clone();
            let (start, end) = ranges[i];
            let skip_download: bool = match &self.active {
                Some(g) => match find_last(&g.slots, &node_id) {
                    Some(k) => g.slots[k].layer_start == start && g.slots[k].layer_end == end
                        && g.slots[k].infra_state == InfraState::InCluster,
                    None => false,
                },
                None => false,
            };
            let infra_state = if skip_download {
                InfraState::InCluster
            } else {
                InfraState::Reinitializing
            };
            slots.push(
                NodeSlot {
                    node_id: node_id.clone(),
                    node_name: gpu_nodes[i].1.clone(),
                    layer_start: start,
                    layer_end: end,
                    infra_state,
                },
            );
            sent.push((node_id, start, end, skip_download, gen));
            i = i + 1;
        }
        proof {
            assert(slots@ == new_slots(active, nodes));
            lemma_new_slots_divided(active, nodes);
        }
        let all_ready = every_in_cluster(&slots);
        if all_ready {
            let gone = self.active.take();
            if let Some(old_gen) = gone {
                retire_or_drain(&mut self.draining, old_gen);
            }
            self.active = Some(
                Generation { gen, slots, in_flight: 0, state: GenState::Active },
            );
            self.pending = None;
        } else {
            self.pending = Some(
                Generation { gen, slots, in_flight: 0, state: GenState::Forming },
            );
        }
        sent
    }

    /// Records that `node_id` serves its range of the pending generation. Returns whether
    /// that made the generation complete; it is active from then on, and the one that was
    /// active before drains or is gone.
    pub fn node_ready(&mut self, node_id: &str) -> (promoted: bool)
        requires
            old(self)@.wf(),
        ensures
            final(self)@.wf(),
            old(self)@.readied(node_id@, final(self)@),
            promoted == (old(self)@.pending is Some && all_in_cluster(
                with_state(old(self)@.pending->0.slots@, node_id@, InfraState::InCluster),
            )),
    {
        let taken = self.pending.take();
        match taken {
            None => false,
            Some(mut pending) => {
                let ghost slots = pending.slots@;
                let k = find_first(&pending.slots, node_id);
                proof {
                    lemma_first_slot(slots, node_id@);
                    lemma_with_state_divided(slots, node_id@, InfraState::InCluster);
                }
                if k >= pending.slots.len() {
                    self.pending = Some(pending);
                    return false;
                }
                pending.slots[k].infra_state = InfraState::InCluster;
                assert(pending.slots@ == with_state(slots, node_id@, InfraState::InCluster));
                if !every_in_cluster(&pending.slots) {
                    self.pending = Some(pending);
                    return false;
                }
                pending.state = GenState::Active;
                let gone = self.active.take();
                if let Some(old_gen) = gone {
                    retire_or_drain(&mut self.draining, old_gen);
                }
                self.active = Some(pending);
                true
            },
        }
    }

    /// The serving slots of the active generation, by ascending first layer.
    pub fn active_slots(&self) -> (r: Vec<ActiveSlot>)
        requires
            self@.wf(),
        ensures
            are_active_slots(r@, self@.active),
            forall|i: int, j: int|
                0 <= i <= j < r@.len() ==> (#[trigger] r@[i]).layer_start <= (
                #[trigger] r@[j]).layer_start,
    {
        let mut r: Vec<ActiveSlot> = Vec::new();
        match &self.active {
            None => r,
            Some(g) => {
                let ghost slots = g.slots@;
                let ghost n = slots.len() as int;
                proof {
                    law_split_is_even_partition(n);
                }
                let mut i: usize = 0;
                while i < g.slots.len()
                    invariant
                        i <= slots.len(),
                        slots == g.slots@,
                        n == slots.len(),
                        evenly_divided(slots),
                        forall|a: int, b: int|
                            0 <= a <= b <= n ==> split_start(n, a) <= split_start(n, b),
                        r@.len() == serving(slots.subrange(0, i as int)).len(),
                        forall|k: int|
                            0 <= k < r@.len() ==> {
                                let s = serving(slots.subrange(0, i as int))[k];
                                &&& (#[trigger] r@[k]).node_id == s.node_id
                                &&& r@[k].node_name == s.node_name
                                &&& r@[k].layer_start == s.layer_start
                                &&& r@[k].layer_end == s.layer_end
                                &&& r@[k].generation == g.gen
                            },
                        forall|a: int, b: int|
                            0 <= a <= b < r@.len() ==> (#[trigger] r@[a]).layer_start <= (
                            #[trigger] r@[b]).layer_start,
                        forall|a: int|
                            0 <= a < r@.len() ==> (#[trigger] r@[a]).layer_start
                                <= split_start(n, i as int),
                    decreases slots.len() - i,
                {
                    proof {
                        let next = slots.subrange(0, i + 1);
                        assert(next.drop_last() == slots.subrange(0, i as int));
                        assert(next.last() == slots[i as int]);
                        assert(split_start(n, i as int) <= split_start(n, i + 1));
                    }
                    let s = &g.slots[i];
                    if s.infra_state == InfraState::InCluster {
                        r.push(
                            ActiveSlot {
                                node_id: s.node_id.clone(),
                                node_name: s.node_name.clone(),
                                layer_start: s.layer_start,
                                layer_end: s.layer_end,
                                generation: g.gen,
                            },
                        );
                    }
                    i = i + 1;
                }
                assert(slots.subrange(0, n) == slots);
                r
            },
        }
    }

    /// Counts a request on the active generation, if there is one.
    pub fn request_start(&mut self) -> (guard: Option<InFlightGuard>)
        requires
            old(self)@.wf(),
        ensures
            final(self)@.wf(),
            final(self)@ == old(self)@.request_started(),
            guard == match old(self)@.active {
                Some(g) => Some(InFlightGuard { generation: g.gen }),
                None => None,
            },
    {
        match &mut self.active {
            None => None,
            Some(g) => {
                g.in_flight = g.in_flight.wrapping_add(1);
                Some(InFlightGuard { generation: g.gen })
            },
        }
    }

    /// Uncounts a request on the generation that it was counted on, whether that is still
    /// active or draining. A counter at zero stays there.
    pub fn request_end(&mut self, guard: &InFlightGuard)
        requires
            old(self)@.wf(),
        ensures
            final(self)@.wf(),
            final(self)@ == old(self)@.request_ended(guard.generation),
    {
        if let Some(g) = &mut self.active {
            if g.gen == guard.generation && g.in_flight > 0 {
                g.in_flight = g.in_flight - 1;
            }
        }
        let ghost before = self.draining@;
        let ghost f = |g: Generation| after_request_end(g, guard.generation);
        let ghost front = (self.next_gen, self.active, self.pending);
        let mut i: usize = 0;
        while i < self.draining.len()
            invariant
                i <= self.draining@.len(),
                self.draining@.len() == before.len(),
                front == (self.next_gen, self.active, self.pending),
                f == (|g: Generation| after_request_end(g, guard.generation)),
                forall|k: int| 0 <= k < i ==> #[trigger] self.draining@[k] == f(before[k]),
                forall|k: int|
                    i <= k < before.len() ==> #[trigger] self.draining@[k] == before[k],
            decreases self.draining@.len() - i,
        {
            if self.draining[i].gen == guard.generation && self.draining[i].in_flight > 0 {
                let n: u32 = self.draining[i].in_flight - 1;
                self.draining[i].in_flight = n;
            }
            i = i + 1;
        }
        assert(self.draining@ =~= before.map_values(f));
        assert(self@.draining =~= old(self)@.request_ended(guard.generation).draining);
    }

    /// Drops the draining generations on which no request is in flight.
    pub fn maybe_retire_draining(&mut self)
        requires
            old(self)@.wf(),
        ensures
            final(self)@.wf(),
            final(self)@ == old(self)@.retired(),
    {
        let ghost before = self.draining@;
        let ghost front = (self.next_gen, self.active, self.pending);
        let mut all: Vec<Generation> = Vec::new();
        std::mem::swap(&mut all, &mut self.draining);
        let mut kept: Vec<Generation> = Vec::new();
        let ghost mut done: int = 0;
        assert(keep(before.subrange(0, 0), is_busy()) =~= kept@);
        while all.len() > 0
            invariant
                0 <= done <= before.len(),
                all@ == before.subrange(done, before.len() as int),
                kept@ == keep(before.subrange(0, done), is_busy()),
            decreases all@.len(),
        {
            proof {
                lemma_keep_step(before, is_busy(), done);
            }
            let g = all.remove(0);
            proof {
                done = done + 1;
                assert(all@ =~= before.subrange(done, before.len() as int));
            }
            if g.in_flight > 0 {
                kept.push(g);
            }
        }
        assert(before.subrange(0, before.len() as int) =~= before);
        self.draining = kept;
        proof {
            lemma_busy_in_order(before);
        }
    }

    /// Whether the serving slots of the active generation cover all layers.
    pub fn is_operational(&self) -> (r: bool)
        requires
            self@.wf(),
        ensures
            r == operational(self@.active),
    {
        let slots = self.active_slots();
        proof {
            if self@.active is Some {
                lemma_serving_members(self@.active->0.slots@);
            } else {
                assert(!layer_served(self@.active, 0));
            }
        }
        if slots.len() == 0 {
            assert(!layer_served(self@.active, 0));
            return false;
        }
        let ghost all = self@.active->0.slots@;
        let ghost kept = serving(all);
        let mut cursor: usize = 0;
        let mut i: usize = 0;
        while i < slots.len()
            invariant
                self@.wf(),
                self@.active is Some,
                all == self@.active->0.slots@,
                kept == serving(all),
                slots@.len() == kept.len(),
                i <= slots@.len(),
                forall|k: int|
                    0 <= k < slots@.len() ==> (#[trigger] slots@[k]).layer_start
                        == kept[k].layer_start && slots@[k].layer_end == kept[k].layer_end,
                forall|a: int, b: int|
                    0 <= a <= b < slots@.len() ==> (#[trigger] slots@[a]).layer_start <= (
                    #[trigger] slots@[b]).layer_start,
                forall|k: int| 0 <= k < kept.len() ==> all.contains(#[trigger] kept[k]),
                forall|k: int|
                    0 <= k < kept.len() ==> (#[trigger] kept[k]).infra_state
                        == InfraState::InCluster,
                forall|m: int|
                    0 <= m < all.len() && (#[trigger] all[m]).infra_state
                        == InfraState::InCluster ==> kept.contains(all[m]),
                forall|layer: int|
                    0 <= layer < cursor ==> #[trigger] layer_served(self@.active, layer),
                forall|k: int| 0 <= k < i ==> (#[trigger] slots@[k]).layer_end <= cursor,
            decreases slots@.len() - i,
        {
            let s = &slots[i];
            if s.layer_start > cursor {
                proof {
                    law_split_is_even_partition(all.len() as int);
                    assert(all.contains(kept[i as int]));
                    let m = choose|m: int| 0 <= m < all.len() && all[m] == kept[i as int];
                    assert(split_start(all.len() as int, m) <= split_start(
                        all.len() as int,
                        all.len() as int,
                    ));
                    assert forall|k: int| 0 <= k < kept.len() implies !((
                    #[trigger] kept[k]).layer_start <= cursor < kept[k].layer_end) by {
                        if k >= i {
                            assert(slots@[i as int].layer_start <= slots@[k].layer_start);
                        } else {
                            assert(slots@[k].layer_end <= cursor);
                        }
                    }
                    lemma_not_served(self@.active->0, kept, cursor as int);
                }
                return false;
            }
            proof {
                assert forall|layer: int| 0 <= layer < s.layer_end implies #[trigger] layer_served(
                    self@.active,
                    layer,
                ) by {
                    if layer >= cursor {
                        assert(all.contains(kept[i as int]));
                        let m = choose|m: int| 0 <= m < all.len() && all[m] == kept[i as int];
                        assert(all[m].layer_start <= layer < all[m].layer_end);
                    }
                }
            }
            if s.layer_end > cursor {
                cursor = s.layer_end;
            }
            i = i + 1;
        }
        proof {
            if cursor < TOTAL_LAYERS {
                assert forall|k: int| 0 <= k < kept.len() implies !((
                #[trigger] kept[k]).layer_start <= cursor < kept[k].layer_end) by {
                    assert(slots@[k].layer_end <= cursor);
                }
                lemma_not_served(self@.active->0, kept, cursor as int);
            }
        }
        cursor >= TOTAL_LAYERS
    }

    /// The generations as operators see them.
    pub fn snapshot(&self) -> (snap: InfraSnapshot)
        ensures
            is_snapshot(self@, snap),
    {
        let mut older: Vec<ClusterSnapshot> = Vec::new();
        let mut draining: Option<ClusterSnapshot> = None;
        let n: usize = self.draining.len();
        if n > 0 {
            let mut i: usize = 0;
            while i < n - 1
                invariant
                    n == self.draining@.len(),
                    n > 0,
                    i <= n - 1,
                    older@.len() == i,
                    forall|k: int|
                        0 <= k < i ==> snapshot_of(
                            Some(self.draining@[k]),
                            Some(#[trigger] older@[k]),
                        ),
                decreases n - i,
            {
                older.push(snapshot_gen(&self.draining[i]));
                i = i + 1;
            }
            draining = Some(snapshot_gen(&self.draining[n - 1]));
        }
        InfraSnapshot {
            active: snapshot_opt(&self.active),
            pending: snapshot_opt(&self.pending),
            draining,
            older_draining: older,
        }
    }

    /// Records that `node_id` restarts its inference server: in the pending generation if
    /// the node is part of it, else in the active one.
    pub fn node_reinitializing(&mut self, node_id: &str)
        requires
            old(self)@.wf(),
        ensures
            final(self)@.wf(),
            old(self)@.reinitialized(node_id@, final(self)@),
    {
        let mut found: bool = false;
        if let Some(g) = &mut self.pending {
            let ghost slots = g.slots@;
            let k = find_first(&g.slots, node_id);
            proof {
                lemma_first_slot(slots, node_id@);
                lemma_with_state_divided(slots, node_id@, InfraState::Reinitializing);
            }
            if k < g.slots.len() {
                g.slots[k].infra_state = InfraState::Reinitializing;
                found = true;
                assert(g.slots@ == with_state(slots, node_id@, InfraState::Reinitializing));
                assert(g.slots@[k as int].infra_state != InfraState::InCluster);
            }
        }
        if !found {
            if let Some(g) = &mut self.active {
                let ghost slots = g.slots@;
                let k = find_first(&g.slots, node_id);
                proof {
                    lemma_first_slot(slots, node_id@);
                    lemma_with_state_divided(slots, node_id@, InfraState::Reinitializing);
                }
                if k < g.slots.len() {
                    g.slots[k].infra_state = InfraState::Reinitializing;
                    assert(g.slots@ == with_state(slots, node_id@, InfraState::Reinitializing));
                }
            }
        }
    }
}

pub proof fn lemma_serving_members(slots: Seq<NodeSlot>)
    ensures
        forall|k: int|
            0 <= k < serving(slots).len() ==> slots.contains(#[trigger] serving(slots)[k]),
        forall|k: int|
            0 <= k < serving(slots).len() ==> (#[trigger] serving(slots)[k]).infra_state
                == InfraState::InCluster,
        forall|m: int|
            0 <= m < slots.len() && (#[trigger] slots[m]).infra_state == InfraState::InCluster
                ==> serving(slots).contains(slots[m]),
    decreases slots.len(),
{
    if slots.len() > 0 {
        let init = slots.drop_last();
        let kept = serving(slots);
        lemma_serving_members(init);
        assert forall|k: int| 0 <= k < kept.len() implies slots.contains(#[trigger] kept[k])
            && kept[k].infra_state == InfraState::InCluster by {
            if k < serving(init).len() {
                let m = choose|m: int| 0 <= m < init.len() && init[m] == serving(init)[k];
                assert(slots[m] == kept[k]);
            } else {
                assert(slots[slots.len() - 1] == kept[k]);
            }
        }
        assert forall|m: int|
            0 <= m < slots.len() && (#[trigger] slots[m]).infra_state
                == InfraState::InCluster implies kept.contains(slots[m]) by {
            if m < init.len() {
                assert(init[m] == slots[m]);
                let k = choose|k: int| 0 <= k < serving(init).len() && serving(init)[k] == init[m];
                assert(kept[k] == slots[m]);
            } else {
                assert(kept[kept.len() - 1] == slots[m]);
            }
        }
    }
}

proof fn lemma_not_served(g: Generation, kept: Seq<NodeSlot>, layer: int)
    requires
        forall|m: int|
            0 <= m < g.slots@.len() && (#[trigger] g.slots@[m]).infra_state
                == InfraState::InCluster ==> kept.contains(g.slots@[m]),
        forall|k: int|
            0 <= k < kept.len() ==> !((#[trigger] kept[k]).layer_start <= layer
                < kept[k].layer_end),
    ensures
        !layer_served(Some(g), layer),
{
    if layer_served(Some(g), layer) {
        let i = choose|i: int|
            0 <= i < g.slots@.len() && (#[trigger] g.slots@[i]).infra_state
                == InfraState::InCluster && g.slots@[i].layer_start <= layer
                < g.slots@[i].layer_end;
        assert(kept.contains(g.slots@[i]));
        let k = choose|k: int| 0 <= k < kept.len() && kept[k] == g.slots@[i];
        assert(kept[k].layer_start <= layer < kept[k].layer_end);
    }
}

// ── Laws ─────────────────────────────────────────────────────────────────────

pub open spec fn distinct_ids(slots: Seq<NodeSlot>) -> bool {
    forall|i: int, j: int|
        0 <= i < j < slots.len() ==> (#[trigger] slots[i]).node_id@ != (
        #[trigger] slots[j]).node_id@
}

/// A rebalance that some node cannot follow at once leaves the active generation as it
/// is, requests included.
pub proof fn law_active_serves_while_pending_forms(
    pre: Generations,
    nodes: Seq<(String, String)>,
    post: Generations,
    i: int,
)
    requires
        pre.rebalanced(nodes, post),
        0 <= i < nodes.len(),
        !keeps_range(pre.active, nodes, i),
    ensures
        post.active == pre.active,
        post.draining == pre.draining,
        post.pending is Some,
        post.pending->0.gen == pre.next_gen,
{
    assert(new_slots(pre.active, nodes)[i].infra_state != InfraState::InCluster);
}

/// Nobody keeps a range while there is no active generation.
pub proof fn law_first_join_always_downloads(nodes: Seq<(String, String)>, i: int)
    ensures
        !keeps_range(None, nodes, i),
{
}

/// A rebalance over the nodes that serve already, in the same order, makes nobody
/// download, replaces the active generation by one that serves the same ranges, and
/// leaves nothing pending.
pub proof fn law_same_topology_stays_active(
    pre: Generations,
    nodes: Seq<(String, String)>,
    post: Generations,
)
    requires
        pre.wf(),
        pre.rebalanced(nodes, post),
        pre.active is Some,
        all_in_cluster(pre.active->0.slots@),
        distinct_ids(pre.active->0.slots@),
        nodes.len() == pre.active->0.slots@.len(),
        forall|i: int|
            0 <= i < nodes.len() ==> (#[trigger] nodes[i]).0@ == pre.active->0.slots@[i].node_id@,
    ensures
        forall|i: int| 0 <= i < nodes.len() ==> #[trigger] keeps_range(pre.active, nodes, i),
        post.pending is None,
        post.active is Some,
        post.active->0.gen == pre.next_gen,
        operational(post.active),
{
    let slots = pre.active->0.slots@;
    assert forall|i: int| 0 <= i < nodes.len() implies #[trigger] keeps_range(
        pre.active,
        nodes,
        i,
    ) by {
        assert(nodes[i].0@ == slots[i].node_id@);
        lemma_last_slot_index(slots, nodes[i].0@, i);
    }
    let fresh = new_slots(pre.active, nodes);
    assert forall|i: int| 0 <= i < fresh.len() implies (#[trigger] fresh[i]).infra_state
        == InfraState::InCluster by {
        assert(keeps_range(pre.active, nodes, i));
    }
    lemma_new_slots_divided(pre.active, nodes);
    law_complete_generation_is_operational(post.active->0);
}

/// A generation in which every node serves covers every layer.
pub proof fn law_complete_generation_is_operational(g: Generation)
    requires
        evenly_divided(g.slots@),
        all_in_cluster(g.slots@),
    ensures
        operational(Some(g)),
{
    let n = g.slots@.len() as int;
    assert forall|layer: int| 0 <= layer < TOTAL_LAYERS implies #[trigger] layer_served(
        Some(g),
        layer,
    ) by {
        law_every_layer_has_one_owner(n, layer);
        let i = choose|i: int|
            0 <= i < n && #[trigger] split_start(n, i) <= layer < split_start(n, i + 1);
        assert(g.slots@[i].layer_start <= layer < g.slots@[i].layer_end);
    }
}

/// `slots` after its first `k` nodes reported ready, in order.
pub open spec fn readied_prefix(slots: Seq<NodeSlot>, k: int) -> Seq<NodeSlot>
    decreases k,
{
    if k <= 0 {
        slots
    } else {
        with_state(
            readied_prefix(slots, k - 1),
            slots[k - 1].node_id@,
            InfraState::InCluster,
        )
    }
}

/// Once every node of a generation has reported ready, all of them serve.
pub proof fn law_every_node_ready_completes(slots: Seq<NodeSlot>)
    requires
        distinct_ids(slots),
    ensures
        all_in_cluster(readied_prefix(slots, slots.len() as int)),
{
    lemma_readied_prefix(slots, slots.len() as int);
}

proof fn lemma_readied_prefix(slots: Seq<NodeSlot>, k: int)
    requires
        distinct_ids(slots),
        0 <= k <= slots.len(),
    ensures
        readied_prefix(slots, k).len() == slots.len(),
        forall|i: int|
            0 <= i < slots.len() ==> (#[trigger] readied_prefix(slots, k)[i]).node_id
                == slots[i].node_id,
        forall|i: int|
            0 <= i < k ==> (#[trigger] readied_prefix(slots, k)[i]).infra_state
                == InfraState::InCluster,
    decreases k,
{
    if k > 0 {
        lemma_readied_prefix(slots, k - 1);
        let before = readied_prefix(slots, k - 1);
        let id = slots[k - 1].node_id@;
        lemma_first_slot(before, id);
        let f = first_slot(before, id);
        assert(before[k - 1].node_id == slots[k - 1].node_id);
        if f < k - 1 {
            assert(before[f].node_id == slots[f].node_id);
        }
        assert(f == k - 1);
    }
}

/// Ending a request that was just counted restores the generations.
pub proof fn law_request_end_undoes_start(pre: Generations)
    requires
        pre.wf(),
        pre.active is Some,
        pre.active->0.in_flight < u32::MAX,
    ensures
        pre.request_started().request_ended(pre.active->0.gen) == pre,
{
    let g = pre.active->0;
    let f = |d: Generation| after_request_end(d, g.gen);
    assert(pre.draining.map_values(f) =~= pre.draining);
}

/// A generation that stops being active with requests in flight drains with exactly that
/// count. It and every other one that drains stay, however many more come to drain, until
/// their own requests have ended: nothing else lowers a count, and only a count of zero lets
/// a generation go.
pub proof fn law_drain_keeps_requests(
    gens: Generations,
    old_gen: Option<Generation>,
    g: Generation,
    other: u64,
)
    requires
        gens.draining.contains(g) || old_gen is Some && old_gen->0.in_flight > 0 && g
            == as_draining(old_gen->0),
    ensures
        after_retire(gens.draining, old_gen).contains(g),
        ({
            let after = Generations {
                draining: after_retire(gens.draining, old_gen),
                ..gens
            };
            &&& other != g.gen ==> after.request_ended(other).draining.contains(g)
            &&& after.request_ended(g.gen).draining.contains(after_request_end(g, g.gen))
            &&& after.retired().draining.contains(g) == (g.in_flight > 0)
        }),
{
    let all = after_retire(gens.draining, old_gen);
    if gens.draining.contains(g) {
        let i = choose|i: int| 0 <= i < gens.draining.len() && gens.draining[i] == g;
        assert(all[i] == g);
    } else {
        assert(all[gens.draining.len() as int] == g);
    }
    let i = choose|i: int| 0 <= i < all.len() && all[i] == g;
    let after = Generations { draining: all, ..gens };
    assert(after.request_ended(other).draining[i] == after_request_end(g, other));
    assert(after.request_ended(g.gen).draining[i] == after_request_end(g, g.gen));
    lemma_keep_members(all, is_busy());
    if g.in_flight > 0 {
        assert(is_busy()(all[i]));
    }
    if after.retired().draining.contains(g) {
        let kept = keep(all, is_busy());
        let k = choose|k: int| 0 <= k < kept.len() && kept[k] == g;
        assert(is_busy()(kept[k]));
    }
}

/// What can happen to the generations.
pub enum ClusterEvent {
    Rebalance { nodes: Seq<(String, String)> },
    NodeReady { node_id: Seq<char> },
    NodeReinitializing { node_id: Seq<char> },
    RequestStart,
    RequestEnd { gen: u64 },
    RetireDraining,
}

impl ClusterEvent {
    /// Whether the event starts a generation.
    pub open spec fn starts_generation(self) -> bool {
        self matches ClusterEvent::Rebalance { nodes } && nodes.len() > 0
    }
}

impl Generations {
    /// Whether the generations are `post` after `event`.
    pub open spec fn follows(self, event: ClusterEvent, post: Generations) -> bool {
        match event {
            ClusterEvent::Rebalance { nodes } => self.rebalanced(nodes, post),
            ClusterEvent::NodeReady { node_id } => self.readied(node_id, post),
            ClusterEvent::NodeReinitializing { node_id } => self.reinitialized(node_id, post),
            ClusterEvent::RequestStart => post == self.request_started(),
            ClusterEvent::RequestEnd { gen } => post == self.request_ended(gen),
            ClusterEvent::RetireDraining => post == self.retired(),
        }
    }
}

/// Whether `history` is what the generations are, one event after the other.
pub open spec fn is_history(history: Seq<Generations>, events: Seq<ClusterEvent>) -> bool {
    &&& history.len() == events.len() + 1
    &&& forall|k: int|
        0 <= k < events.len() ==> (#[trigger] history[k]).follows(events[k], history[k + 1])
}

/// How many of the first `n` events start a generation.
pub open spec fn started(events: Seq<ClusterEvent>, n: int) -> int
    decreases n,
{
    if n <= 0 {
        0
    } else {
        started(events, n - 1) + if events[n - 1].starts_generation() {
            1int
        } else {
            0
        }
    }
}

proof fn lemma_next_number(history: Seq<Generations>, events: Seq<ClusterEvent>, n: int)
    requires
        is_history(history, events),
        0 <= n <= events.len(),
    ensures
        history[n].next_gen == history[0].next_gen + started(events, n),
    decreases n,
{
    if n > 0 {
        lemma_next_number(history, events, n - 1);
        assert(history[n - 1].follows(events[n - 1], history[n - 1 + 1]));
    }
}

proof fn lemma_nothing_started(events: Seq<ClusterEvent>, i: int, j: int)
    requires
        0 <= i <= j <= events.len(),
        forall|k: int| i <= k < j ==> !(#[trigger] events[k]).starts_generation(),
    ensures
        started(events, j) == started(events, i),
    decreases j - i,
{
    if i < j {
        lemma_nothing_started(events, i, j - 1);
        assert(!events[j - 1].starts_generation());
    }
}

/// Generation numbers count up by one: the generation that event `j` starts has the number 1
/// for the first one of a new manager, and else the number after that of the one started before
/// it, by event `i`, whatever came between the two.
pub proof fn law_generation_numbers_count_up(
    history: Seq<Generations>,
    events: Seq<ClusterEvent>,
    i: int,
    j: int,
)
    requires
        is_history(history, events),
        history[0].next_gen == 1,
        0 <= j < events.len(),
        events[j].starts_generation(),
    ensures
        history[j].next_gen == 1 + started(events, j),
        match history[j + 1].pending {
            Some(g) => g.gen == history[j].next_gen,
            None => history[j + 1].active is Some && history[j + 1].active->0.gen
                == history[j].next_gen,
        },
        (forall|k: int| 0 <= k < j ==> !(#[trigger] events[k]).starts_generation())
            ==> history[j].next_gen == 1,
        0 <= i < j && events[i].starts_generation() && (forall|k: int|
            i < k < j ==> !(#[trigger] events[k]).starts_generation()) ==> history[j].next_gen
            == history[i].next_gen + 1,
{
    lemma_next_number(history, events, j);
    assert(history[j].follows(events[j], history[j + 1]));
    if forall|k: int| 0 <= k < j ==> !(#[trigger] events[k]).starts_generation() {
        lemma_nothing_started(events, 0, j);
    }
    if 0 <= i < j && events[i].starts_generation() && (forall|k: int|
        i < k < j ==> !(#[trigger] events[k]).starts_generation()) {
        lemma_next_number(history, events, i);
        lemma_nothing_started(events, i + 1, j);
        assert(started(events, i + 1) == started(events, i) + 1);
    }
}

/// A rebalance gives the nodes, in order, ranges that begin with the first layer, follow each
/// other without a gap, and end with the last layer. A node that serves its range already, and
/// no other, need not download it.
pub proof fn law_rebalance_hands_out_every_layer(
    sent: Seq<(String, usize, usize, bool, u64)>,
    active: Option<Generation>,
    nodes: Seq<(String, String)>,
    gen: u64,
)
    requires
        nodes.len() >= 1,
        are_assignments(sent, active, nodes, gen),
    ensures
        sent.len() == nodes.len(),
        sent[0].1 == 0,
        sent.last().2 == 28,
        forall|i: int|
            0 <= i < sent.len() ==> (#[trigger] sent[i]).0@ == nodes[i].0@ && sent[i].1 <= sent[i].2
                && sent[i].4 == gen,
        forall|i: int, j: int|
            0 <= i && j == i + 1 && j < sent.len() ==> (#[trigger] sent[i]).2 == (
            #[trigger] sent[j]).1,
        forall|i: int|
            0 <= i < sent.len() && (#[trigger] sent[i]).3 ==> active is Some && exists|k: int|
                0 <= k < active->0.slots@.len() && (#[trigger] active->0.slots@[k]).node_id@
                    == nodes[i].0@ && active->0.slots@[k].layer_start == sent[i].1
                    && active->0.slots@[k].layer_end == sent[i].2
                    && active->0.slots@[k].infra_state == InfraState::InCluster,
        forall|i: int, k: int|
            0 <= i < sent.len() && active is Some && distinct_ids(active->0.slots@) && 0 <= k
                < active->0.slots@.len() && (#[trigger] active->0.slots@[k]).node_id@ == (
            #[trigger] nodes[i]).0@ && active->0.slots@[k].layer_start == sent[i].1
                && active->0.slots@[k].layer_end == sent[i].2
                && active->0.slots@[k].infra_state == InfraState::InCluster ==> sent[i].3,
{
    let n = nodes.len() as int;
    law_split_is_even_partition(n);
    assert forall|i: int| 0 <= i < sent.len() implies (#[trigger] sent[i]).0@ == nodes[i].0@
        && sent[i].1 <= sent[i].2 && sent[i].4 == gen by {
        assert(split_start(n, i) <= split_start(n, i + 1));
    }
    assert forall|i: int| 0 <= i < sent.len() && (#[trigger] sent[i]).3 implies active is Some
        && exists|k: int|
        0 <= k < active->0.slots@.len() && (#[trigger] active->0.slots@[k]).node_id@
            == nodes[i].0@ && active->0.slots@[k].layer_start == sent[i].1
            && active->0.slots@[k].layer_end == sent[i].2 && active->0.slots@[k].infra_state
            == InfraState::InCluster by {
        assert(keeps_range(active, nodes, i));
        let slots = active->0.slots@;
        let k = lemma_last_slot_place(slots, nodes[i].0@);
        assert(slots[k].node_id@ == nodes[i].0@);
    }
    assert forall|i: int, k: int|
        0 <= i < sent.len() && active is Some && distinct_ids(active->0.slots@) && 0 <= k
            < active->0.slots@.len() && (#[trigger] active->0.slots@[k]).node_id@ == (
        #[trigger] nodes[i]).0@ && active->0.slots@[k].layer_start == sent[i].1
            && active->0.slots@[k].layer_end == sent[i].2 && active->0.slots@[k].infra_state
            == InfraState::InCluster implies sent[i].3 by {
        let slots = active->0.slots@;
        assert forall|j: int| k < j < slots.len() implies (#[trigger] slots[j]).node_id@
            != nodes[i].0@ by {
            assert(slots[k].node_id@ != slots[j].node_id@);
        }
        lemma_last_slot_index(slots, nodes[i].0@, k);
    }
}

proof fn lemma_last_slot_place(slots: Seq<NodeSlot>, node_id: Seq<char>) -> (k: int)
    requires
        last_slot(slots, node_id) is Some,
    ensures
        0 <= k < slots.len(),
        slots[k].node_id@ == node_id,
        last_slot(slots, node_id) == Some(slots[k]),
    decreases slots.len(),
{
    if slots.last().node_id@ == node_id {
        slots.len() - 1
    } else {
        lemma_last_slot_place(slots.drop_last(), node_id)
    }
}

/// The slots that requests go to are those of the active generation that serve, and all of them.
pub proof fn law_serving_slots_are_listed(r: Seq<ActiveSlot>, active: Option<Generation>)
    requires
        are_active_slots(r, active),
        active is Some,
    ensures
        forall|m: int|
            0 <= m < active->0.slots@.len() && (#[trigger] active->0.slots@[m]).infra_state
                == InfraState::InCluster ==> exists|i: int|
                0 <= i < r.len() && (#[trigger] r[i]).node_id == active->0.slots@[m].node_id
                    && r[i].layer_start == active->0.slots@[m].layer_start && r[i].layer_end
                    == active->0.slots@[m].layer_end,
        forall|i: int|
            0 <= i < r.len() ==> (#[trigger] r[i]).generation == active->0.gen && exists|m: int|
                0 <= m < active->0.slots@.len() && (#[trigger] active->0.slots@[m]).infra_state
                    == InfraState::InCluster && active->0.slots@[m].node_id == r[i].node_id
                    && active->0.slots@[m].layer_start == r[i].layer_start
                    && active->0.slots@[m].layer_end == r[i].layer_end,
{
    let slots = active->0.slots@;
    let kept = serving(slots);
    lemma_serving_members(slots);
    assert forall|m: int|
        0 <= m < slots.len() && (#[trigger] slots[m]).infra_state
            == InfraState::InCluster implies exists|i: int|
        0 <= i < r.len() && (#[trigger] r[i]).node_id == slots[m].node_id && r[i].layer_start
            == slots[m].layer_start && r[i].layer_end == slots[m].layer_end by {
        assert(kept.contains(slots[m]));
        let i = choose|i: int| 0 <= i < kept.len() && kept[i] == slots[m];
        assert(r[i].node_id == slots[m].node_id);
    }
    assert forall|i: int| 0 <= i < r.len() implies (#[trigger] r[i]).generation == active->0.gen
        && exists|m: int|
        0 <= m < slots.len() && (#[trigger] slots[m]).infra_state == InfraState::InCluster
            && slots[m].node_id == r[i].node_id && slots[m].layer_start == r[i].layer_start
            && slots[m].layer_end == r[i].layer_end by {
        assert(slots.contains(kept[i]) && kept[i].infra_state == InfraState::InCluster);
        let m = choose|m: int| 0 <= m < slots.len() && slots[m] == kept[i];
        assert(slots[m].node_id == r[i].node_id);
    }
}

proof fn lemma_only_slot(slots: Seq<NodeSlot>, k: int)
    requires
        distinct_ids(slots),
        0 <= k < slots.len(),
    ensures
        first_slot(slots, slots[k].node_id@) == k,
{
    let id = slots[k].node_id@;
    lemma_first_slot(slots, id);
    let f = first_slot(slots, id);
    if f < k {
        assert(slots[f].node_id@ != slots[k].node_id@);
    }
    if k < f {
        assert(slots[k].node_id@ != id);
    }
}

/// A node that is ready serves its range of the pending generation. That generation takes over
/// with the last node that it waited for, and not before; the one that it replaces keeps its
/// requests.
pub proof fn law_last_ready_node_completes(
    pre: Generations,
    k: int,
    post: Generations,
)
    requires
        pre.pending is Some,
        distinct_ids(pre.pending->0.slots@),
        0 <= k < pre.pending->0.slots@.len(),
        pre.readied(pre.pending->0.slots@[k].node_id@, post),
    ensures
        ({
            let slots = pre.pending->0.slots@;
            let others = forall|i: int|
                0 <= i < slots.len() && i != k ==> (#[trigger] slots[i]).infra_state
                    == InfraState::InCluster;
            &&& others ==> {
                &&& post.active is Some
                &&& post.active->0.gen == pre.pending->0.gen
                &&& post.active->0.slots@.len() == slots.len()
                &&& post.pending is None
                &&& pre.active is Some && pre.active->0.in_flight > 0 ==> post.draining.len()
                    == pre.draining.len() + 1 && post.draining.last().gen == pre.active->0.gen
                    && post.draining.last().in_flight == pre.active->0.in_flight
                &&& pre.active is None || pre.active->0.in_flight == 0 ==> post.draining
                    == pre.draining
                &&& forall|i: int|
                    0 <= i < slots.len() ==> (#[trigger] post.active->0.slots@[i]).infra_state
                        == InfraState::InCluster && post.active->0.slots@[i].node_id
                        == slots[i].node_id && post.active->0.slots@[i].layer_start
                        == slots[i].layer_start && post.active->0.slots@[i].layer_end
                        == slots[i].layer_end
            }
            &&& !others ==> {
                &&& post.active == pre.active
                &&& post.draining == pre.draining
                &&& post.pending is Some
                &&& post.pending->0.gen == pre.pending->0.gen
                &&& post.pending->0.slots@.len() == slots.len()
                &&& post.pending->0.slots@[k].infra_state == InfraState::InCluster
                &&& forall|i: int|
                    0 <= i < slots.len() && i != k ==> #[trigger] post.pending->0.slots@[i]
                        == slots[i]
            }
        }),
{
    let slots = pre.pending->0.slots@;
    let after = with_state(slots, slots[k].node_id@, InfraState::InCluster);
    lemma_only_slot(slots, k);
    let others = forall|i: int|
        0 <= i < slots.len() && i != k ==> (#[trigger] slots[i]).infra_state
            == InfraState::InCluster;
    if others {
        assert(all_in_cluster(after));
    } else {
        let i = choose|i: int|
            0 <= i < slots.len() && i != k && (#[trigger] slots[i]).infra_state
                != InfraState::InCluster;
        assert(after[i] == slots[i]);
        assert(!all_in_cluster(after));
    }
}

/// A node that restarts its server no longer serves, in the pending generation if it is part of
/// it and else in the active one; nobody else is concerned.
pub proof fn law_restarting_node_does_not_serve(
    pre: Generations,
    node_id: Seq<char>,
    k: int,
    post: Generations,
)
    requires
        pre.reinitialized(node_id, post),
    ensures
        post.draining == pre.draining,
        pre.pending is Some && distinct_ids(pre.pending->0.slots@) && 0 <= k
            < pre.pending->0.slots@.len() && pre.pending->0.slots@[k].node_id@ == node_id ==> {
            &&& post.active == pre.active
            &&& post.pending is Some
            &&& post.pending->0.gen == pre.pending->0.gen
            &&& post.pending->0.slots@.len() == pre.pending->0.slots@.len()
            &&& post.pending->0.slots@[k].infra_state == InfraState::Reinitializing
            &&& forall|i: int|
                0 <= i < pre.pending->0.slots@.len() && i != k
                    ==> #[trigger] post.pending->0.slots@[i] == pre.pending->0.slots@[i]
        },
        pre.pending is None && pre.active is Some && distinct_ids(pre.active->0.slots@) && 0 <= k
            < pre.active->0.slots@.len() && pre.active->0.slots@[k].node_id@ == node_id ==> {
            &&& post.pending is None
            &&& post.active is Some
            &&& post.active->0.gen == pre.active->0.gen
            &&& post.active->0.in_flight == pre.active->0.in_flight
            &&& post.active->0.slots@[k].infra_state == InfraState::Reinitializing
            &&& forall|i: int|
                0 <= i < pre.active->0.slots@.len() && i != k
                    ==> #[trigger] post.active->0.slots@[i] == pre.active->0.slots@[i]
        },
{
    if pre.pending is Some && distinct_ids(pre.pending->0.slots@) && 0 <= k
        < pre.pending->0.slots@.len() && pre.pending->0.slots@[k].node_id@ == node_id {
        lemma_only_slot(pre.pending->0.slots@, k);
    }
    if pre.pending is None && pre.active is Some && distinct_ids(pre.active->0.slots@) && 0 <= k
        < pre.active->0.slots@.len() && pre.active->0.slots@[k].node_id@ == node_id {
        lemma_only_slot(pre.active->0.slots@, k);
    }
}

/// Only generations without requests are dropped.
pub proof fn law_busy_generations_stay(pre: Generations, i: int)
    requires
        0 <= i < pre.draining.len(),
    ensures
        pre.retired().draining.contains(pre.draining[i]) == (pre.draining[i].in_flight > 0),
        pre.retired().active == pre.active,
        pre.retired().pending == pre.pending,
{
    lemma_keep_members(pre.draining, is_busy());
    if pre.retired().draining.contains(pre.draining[i]) {
        let kept = keep(pre.draining, is_busy());
        let k = choose|k: int| 0 <= k < kept.len() && kept[k] == pre.draining[i];
        assert(is_busy()(kept[k]));
    }
    if pre.draining[i].in_flight > 0 {
        assert(is_busy()(pre.draining[i]));
    }
}

/// Operators see every generation: its number, its nodes and how many requests it carries.
pub proof fn law_every_generation_is_shown(state: Generations, snap: InfraSnapshot, i: int)
    requires
        is_snapshot(state, snap),
        0 <= i < state.draining.len(),
    ensures
        snap.active is Some == state.active is Some,
        snap.pending is Some == state.pending is Some,
        state.active is Some ==> {
            &&& (snap.active->0).generation == (state.active->0).gen
            &&& (snap.active->0).in_flight == (state.active->0).in_flight
            &&& (snap.active->0).nodes@ == (state.active->0).slots@
        },
        state.pending is Some ==> {
            &&& (snap.pending->0).generation == (state.pending->0).gen
            &&& (snap.pending->0).nodes@ == (state.pending->0).slots@
            &&& (state.pending->0).state is Forming ==> (snap.pending->0).state@ == "forming"@
        },
        ({
            let shown = if i == state.draining.len() - 1 {
                snap.draining->0
            } else {
                snap.older_draining@[i]
            };
            &&& snap.draining is Some
            &&& snap.older_draining@.len() == state.draining.len() - 1
            &&& shown.generation == state.draining[i].gen
            &&& shown.in_flight == state.draining[i].in_flight
            &&& shown.nodes@ == state.draining[i].slots@
            &&& state.draining[i].state is Draining ==> shown.state@ == "draining"@
        }),
{
    if i < state.draining.len() - 1 {
        assert(snapshot_of(Some(state.draining[i]), Some(snap.older_draining@[i])));
    }
}

/// How many requests are under way on the generations.
pub open spec fn requests_under_way(gens: Generations) -> nat {
    sum_of(gens.draining, |g: Generation| g.in_flight as nat) + match gens.active {
        Some(g) => g.in_flight as nat,
        None => 0,
    }
}

/// Handing out the layers anew loses no request: the generations that drain stay, the one that
/// served drains behind them while requests are under way on it, and the new one starts with
/// none.
pub proof fn law_rebalance_loses_no_request(
    pre: Generations,
    nodes: Seq<(String, String)>,
    post: Generations,
    i: int,
)
    requires
        pre.rebalanced(nodes, post),
    ensures
        requests_under_way(post) == requests_under_way(pre),
        0 <= i < pre.draining.len() ==> post.draining.len() > i && post.draining[i]
            == pre.draining[i],
        post.active != pre.active && pre.active is Some && pre.active->0.in_flight > 0 ==> {
            &&& post.draining.len() == pre.draining.len() + 1
            &&& post.draining.last().gen == pre.active->0.gen
            &&& post.draining.last().in_flight == pre.active->0.in_flight
            &&& post.draining.last().slots == pre.active->0.slots
            &&& post.draining.last().state is Draining
        },
        post.pending is Some ==> post.pending->0.gen == pre.next_gen && post.pending->0.in_flight
            == 0,
        post.active is Some && post.active != pre.active ==> post.active->0.gen == pre.next_gen
            && post.active->0.in_flight == 0,
        nodes.len() == 0 ==> post.active is None && post.pending is None,
{
    lemma_retired_sum(pre);
}

/// Nor does a node that gets ready.
pub proof fn law_ready_node_loses_no_request(
    pre: Generations,
    node_id: Seq<char>,
    post: Generations,
)
    requires
        pre.readied(node_id, post),
    ensures
        requests_under_way(post) == requests_under_way(pre),
{
    lemma_retired_sum(pre);
}

proof fn lemma_retired_sum(pre: Generations)
    ensures
        sum_of(
            after_retire(pre.draining, pre.active),
            |g: Generation| g.in_flight as nat,
        ) == requests_under_way(pre),
{
    if pre.active is Some && pre.active->0.in_flight > 0 {
        let all = after_retire(pre.draining, pre.active);
        assert(all.drop_last() =~= pre.draining);
        assert(all.last() == as_draining(pre.active->0));
    }
}

} // verus!
