//! Training rounds: each round divides the layers of the model into assignments, which
//! nodes claim, train and submit.
//!
//! `F` is the number type of the training loss. Times are seconds since the epoch.
use crate::ids::fresh_id;
use crate::text::{chars_of, concat3, format_number, parse_u64, str_eq, substring};
use vstd::prelude::*;

verus! {

use crate::seqs::{
    first_index,
    keep,
    law_parts_are_counted_alone,
    lemma_first_index_is,
    lemma_index_from,
    lemma_keep_len,
    lemma_keep_members,
    lemma_keep_step,
};
use crate::text::{decimal, parsed_up_to};
use vstd::string::StringExecFns;

#[derive(Debug, Clone, Copy, PartialEq, Eq, Structural)]
pub enum RoundStatus {
    Active,
    Complete,
    Merging,
}

#[derive(Debug, Clone, Copy, PartialEq, Eq, Structural)]
pub enum AssignmentStatus {
    Available,
    Assigned,
    Complete,
    Failed,
}

/// One slice of layers with the examples to train them on.
#[derive(Debug)]
pub struct LayerAssignment<F> {
    pub assignment_id: String,
    pub layer_start: usize,
    pub layer_end: usize,
    pub data_shard_start: usize,
    pub data_shard_size: usize,
    pub status: AssignmentStatus,
    pub assigned_to: Option<String>,
    pub assigned_at: Option<u64>,
    pub adapter_received: bool,
    pub training_loss: Option<F>,
    pub training_steps: Option<usize>,
}

impl<F: Copy> Clone for LayerAssignment<F> {
    fn clone(&self) -> (r: Self)
        ensures
            r == *self,
    {
        LayerAssignment {
            assignment_id: self.assignment_id.clone(),
            layer_start: self.layer_start,
            layer_end: self.layer_end,
            data_shard_start: self.data_shard_start,
            data_shard_size: self.data_shard_size,
            status: self.status,
            assigned_to: match &self.assigned_to {
                Some(s) => Some(s.clone()),
                None => None,
            },
            assigned_at: self.assigned_at,
            adapter_received: self.adapter_received,
            training_loss: self.training_loss,
            training_steps: self.training_steps,
        }
    }
}

/// A pass over all layers.
#[derive(Debug)]
pub struct TrainingRound<F> {
    pub round_id: String,
    pub version: String,
    pub base_model: String,
    pub total_layers: usize,
    pub layers_per_assignment: usize,
    pub status: RoundStatus,
    pub assignments: Vec<LayerAssignment<F>>,
    pub created_at: u64,
}

/// All rounds, oldest first.
#[derive(Debug)]
pub struct LayerTrainingStore<F> {
    pub rounds: Vec<TrainingRound<F>>,
    pub total_rounds_completed: u64,
    pub first_round_at: Option<u64>,
}

/// What merging the adapters of a round needs.
#[derive(Debug)]
pub struct MergePlan {
    /// Position of the round.
    pub round: usize,
    /// Where the adapters are collected.
    pub adapter_dir: String,
    /// Assignment ids with the files that their adapters go to.
    pub files: Vec<(String, String)>,
    /// Where the merged adapter goes.
    pub output_path: String,
}

// ── Model ────────────────────────────────────────────────────────────────────

/// `size`, or 1 where that is 0.
pub open spec fn at_least_one(size: int) -> int {
    if size >= 1 {
        size
    } else {
        1
    }
}

pub open spec fn min(a: int, b: int) -> int {
    if a <= b {
        a
    } else {
        b
    }
}

/// Number of assignments that cover `total` layers by `per` each.
pub open spec fn assignment_count(total: int, per: int) -> int {
    if total <= 0 {
        0
    } else {
        (total + per - 1) / per
    }
}

/// First example of assignment `i`: the shards follow each other and start over at the end
/// of the dataset.
pub open spec fn shard_offset(i: int, dataset_size: int, per_shard: int) -> int {
    (i * per_shard) % at_least_one(dataset_size)
}

/// Assignment `i` of a round that has just been created.
pub open spec fn is_planned<F>(
    a: LayerAssignment<F>,
    i: int,
    total: int,
    per: int,
    dataset_size: int,
    per_shard: int,
) -> bool {
    let offset = shard_offset(i, dataset_size, per_shard);
    &&& a.assignment_id@.len() == 36
    &&& a.layer_start == i * per
    &&& a.layer_end == min((i + 1) * per, total)
    &&& a.data_shard_start == offset
    &&& a.data_shard_size == if offset <= dataset_size {
        min(per_shard, dataset_size - offset)
    } else {
        0
    }
    &&& a.status == AssignmentStatus::Available
    &&& a.assigned_to is None
    &&& a.assigned_at is None
    &&& !a.adapter_received
    &&& a.training_loss is None
    &&& a.training_steps is None
}

/// A round that has just been created.
pub open spec fn is_new_round<F>(
    r: TrainingRound<F>,
    version: Seq<char>,
    base_model: Seq<char>,
    total: usize,
    per: usize,
    dataset_size: int,
    per_shard: int,
    now: u64,
) -> bool {
    &&& r.round_id@.len() == 36
    &&& r.version@ == version
    &&& r.base_model@ == base_model
    &&& r.total_layers == total
    &&& r.layers_per_assignment == per
    &&& r.status == RoundStatus::Active
    &&& r.created_at == now
    &&& r.assignments@.len() == assignment_count(total as int, per as int)
    &&& forall|i: int|
        0 <= i < r.assignments@.len() ==> is_planned(
            #[trigger] r.assignments@[i],
            i,
            total as int,
            per as int,
            dataset_size,
            per_shard,
        )
}

/// Everything of a round but its status and assignments.
pub open spec fn same_round<F>(a: TrainingRound<F>, b: TrainingRound<F>) -> bool {
    &&& a.round_id == b.round_id
    &&& a.version == b.version
    &&& a.base_model == b.base_model
    &&& a.total_layers == b.total_layers
    &&& a.layers_per_assignment == b.layers_per_assignment
    &&& a.created_at == b.created_at
}

pub open spec fn available<F>() -> spec_fn(LayerAssignment<F>) -> bool {
    |a: LayerAssignment<F>| a.status == AssignmentStatus::Available
}

/// Rounds that have something to claim.
pub open spec fn claimable<F>() -> spec_fn(TrainingRound<F>) -> bool {
    |r: TrainingRound<F>|
        r.status == RoundStatus::Active && first_index(r.assignments@, available())
            < r.assignments@.len()
}

/// `post` is the available assignment `pre` in the hands of a node.
pub open spec fn is_claimed<F>(
    pre: LayerAssignment<F>,
    post: LayerAssignment<F>,
    node_id: Seq<char>,
    now: u64,
) -> bool {
    &&& post == LayerAssignment {
        status: AssignmentStatus::Assigned,
        assigned_to: post.assigned_to,
        assigned_at: Some(now),
        ..pre
    }
    &&& post.assigned_to is Some
    &&& post.assigned_to->0@ == node_id
}

/// The rounds after a node asked for an assignment, and what it got: the first available one of
/// the first active round that has one.
pub open spec fn claim_made<F>(
    pre: Seq<TrainingRound<F>>,
    node_id: Seq<char>,
    now: u64,
    post: Seq<TrainingRound<F>>,
    r: Option<LayerAssignment<F>>,
) -> bool {
    let i = first_index(pre, claimable());
    if i >= pre.len() {
        r is None && post == pre
    } else {
        let k = first_index(pre[i].assignments@, available());
        &&& r is Some
        &&& is_claimed(pre[i].assignments@[k], r->0, node_id, now)
        &&& post.len() == pre.len()
        &&& forall|j: int| 0 <= j < pre.len() && j != i ==> #[trigger] post[j] == pre[j]
        &&& same_round(post[i], pre[i])
        &&& post[i].status == pre[i].status
        &&& post[i].assignments@ == pre[i].assignments@.update(k, r->0)
    }
}

pub open spec fn has_id<F>(id: Seq<char>) -> spec_fn(LayerAssignment<F>) -> bool {
    |a: LayerAssignment<F>| a.assignment_id@ == id
}

/// Rounds with an assignment of this id.
pub open spec fn holds_id<F>(id: Seq<char>) -> spec_fn(TrainingRound<F>) -> bool {
    |r: TrainingRound<F>| first_index(r.assignments@, has_id(id)) < r.assignments@.len()
}

pub open spec fn all_complete<F>(s: Seq<LayerAssignment<F>>) -> bool {
    forall|i: int| 0 <= i < s.len() ==> (#[trigger] s[i]).status == AssignmentStatus::Complete
}

/// The store after an adapter was submitted: the first assignment with the id is complete,
/// and with the last one of a round the round waits to be merged. An unknown id changes
/// nothing.
pub open spec fn adapter_taken<F>(
    old_store: LayerTrainingStore<F>,
    assignment_id: Seq<char>,
    loss: F,
    steps: usize,
    new_store: LayerTrainingStore<F>,
) -> bool {
    let pre = old_store.rounds@;
    let post = new_store.rounds@;
    let i = first_index(pre, holds_id(assignment_id));
    &&& new_store.first_round_at == old_store.first_round_at
    &&& if i >= pre.len() {
        post == pre && new_store.total_rounds_completed == old_store.total_rounds_completed
    } else {
        let k = first_index(pre[i].assignments@, has_id(assignment_id));
        let done = after_submit(pre[i].assignments@, k, loss, steps);
        &&& post.len() == pre.len()
        &&& forall|j: int| 0 <= j < pre.len() && j != i ==> #[trigger] post[j] == pre[j]
        &&& same_round(post[i], pre[i])
        &&& post[i].assignments@ == done
        &&& post[i].status == if all_complete(done) {
            RoundStatus::Merging
        } else {
            pre[i].status
        }
        &&& new_store.total_rounds_completed == old_store.total_rounds_completed
            + if all_complete(done) {
            1int
        } else {
            0
        }
    }
}

/// The assignments of a round after one of them was submitted.
pub open spec fn after_submit<F>(
    s: Seq<LayerAssignment<F>>,
    k: int,
    loss: F,
    steps: usize,
) -> Seq<LayerAssignment<F>> {
    s.update(
        k,
        LayerAssignment {
            status: AssignmentStatus::Complete,
            adapter_received: true,
            training_loss: Some(loss),
            training_steps: Some(steps),
            ..s[k]
        },
    )
}

/// Whether the assignment has been out for longer than `timeout`.
pub open spec fn is_stale<F>(a: LayerAssignment<F>, timeout: u64, now: u64) -> bool {
    a.status == AssignmentStatus::Assigned && a.assigned_at is Some && now - a.assigned_at->0
        > timeout
}

/// The assignment after stale ones were taken back.
pub open spec fn taken_back<F>(a: LayerAssignment<F>, timeout: u64, now: u64) -> LayerAssignment<
    F,
> {
    if is_stale(a, timeout, now) {
        LayerAssignment {
            status: AssignmentStatus::Available,
            assigned_to: None,
            assigned_at: None,
            ..a
        }
    } else {
        a
    }
}

/// The round after its stale assignments were taken back.
pub open spec fn round_taken_back<F>(
    pre: TrainingRound<F>,
    timeout: u64,
    now: u64,
    post: TrainingRound<F>,
) -> bool {
    if pre.status == RoundStatus::Active {
        &&& same_round(post, pre)
        &&& post.status == pre.status
        &&& post.assignments@ == pre.assignments@.map_values(
            |a: LayerAssignment<F>| taken_back(a, timeout, now),
        )
    } else {
        post == pre
    }
}

pub open spec fn has_stale<F>(r: TrainingRound<F>, timeout: u64, now: u64) -> bool {
    r.status == RoundStatus::Active && exists|i: int|
        0 <= i < r.assignments@.len() && is_stale(#[trigger] r.assignments@[i], timeout, now)
}

/// The rounds after stale assignments were taken back, and which of them changed.
pub open spec fn stale_taken_back<F>(
    pre: Seq<TrainingRound<F>>,
    timeout: u64,
    now: u64,
    post: Seq<TrainingRound<F>>,
    changed: Seq<usize>,
) -> bool {
    &&& post.len() == pre.len()
    &&& forall|i: int|
        0 <= i < pre.len() ==> round_taken_back(pre[i], timeout, now, #[trigger] post[i])
    &&& forall|i: int|
        0 <= i < pre.len() ==> (changed.contains(i as usize) == #[trigger] has_stale(
            pre[i],
            timeout,
            now,
        ))
    &&& forall|m: int| 0 <= m < changed.len() ==> #[trigger] changed[m] < pre.len()
    &&& changed.no_duplicates()
}

pub open spec fn is_merging<F>(r: TrainingRound<F>) -> bool {
    r.status == RoundStatus::Merging
}

pub open spec fn is_active<F>(r: TrainingRound<F>) -> bool {
    r.status == RoundStatus::Active
}

/// Whether a new round is due: one was finished, and none is under way.
pub open spec fn due<F>(rounds: Seq<TrainingRound<F>>) -> bool {
    &&& exists|i: int| 0 <= i < rounds.len() && is_merging(#[trigger] rounds[i])
    &&& forall|i: int| 0 <= i < rounds.len() ==> !is_active(#[trigger] rounds[i])
}

pub open spec fn closed<F>(r: TrainingRound<F>) -> TrainingRound<F> {
    if r.status == RoundStatus::Merging {
        TrainingRound { status: RoundStatus::Complete, ..r }
    } else {
        r
    }
}

/// The store after it was asked to go on to the next round, and whether one was started.
pub open spec fn advanced<F>(
    pre: LayerTrainingStore<F>,
    dataset_size: usize,
    now: u64,
    post: LayerTrainingStore<F>,
    created: bool,
) -> bool {
    &&& created == (due(pre.rounds@) && dataset_size > 0)
    &&& if created {
        &&& post.rounds@.len() == pre.rounds@.len() + 1
        &&& post.rounds@.drop_last() == pre.rounds@.map_values(|r: TrainingRound<F>| closed(r))
        &&& is_new_round(
            post.rounds@.last(),
            "v0.1-r"@ + decimal((pre.total_rounds_completed + 1) as nat),
            "Qwen2.5-Coder-7B"@,
            28,
            2,
            dataset_size as int,
            500,
            now,
        )
        &&& post.first_round_at == if pre.first_round_at is None {
            Some(now)
        } else {
            pre.first_round_at
        }
    } else {
        post == pre
    }
}

/// All assignments of the first `n` rounds.
pub open spec fn all_assignments<F>(rounds: Seq<TrainingRound<F>>) -> Seq<LayerAssignment<F>>
    decreases rounds.len(),
{
    if rounds.len() == 0 {
        Seq::empty()
    } else {
        all_assignments(rounds.drop_last()) + rounds.last().assignments@
    }
}

pub open spec fn is_complete<F>() -> spec_fn(LayerAssignment<F>) -> bool {
    |a: LayerAssignment<F>| a.status == AssignmentStatus::Complete
}

pub open spec fn complete_with_loss<F>() -> spec_fn(LayerAssignment<F>) -> bool {
    |a: LayerAssignment<F>| a.status == AssignmentStatus::Complete && a.training_loss is Some
}

/// The first eight characters, or all if there are fewer.
pub open spec fn short_id(id: Seq<char>) -> Seq<char> {
    if id.len() <= 8 {
        id
    } else {
        id.subrange(0, 8)
    }
}

pub open spec fn adapter_dir_of(data_dir: Seq<char>, round_id: Seq<char>) -> Seq<char> {
    data_dir + "/adapters_"@ + short_id(round_id)
}

pub open spec fn layer_file_of(dir: Seq<char>, start: int, end: int) -> Seq<char> {
    dir + "/layers_"@ + decimal(start as nat) + "_"@ + decimal(end as nat) + ".safetensors"@
}

pub open spec fn received<F>() -> spec_fn(LayerAssignment<F>) -> bool {
    |a: LayerAssignment<F>| a.adapter_received
}

/// The plan to merge round `i`.
pub open spec fn is_merge_plan<F>(
    plan: MergePlan,
    rounds: Seq<TrainingRound<F>>,
    i: int,
    data_dir: Seq<char>,
) -> bool {
    let r = rounds[i];
    let got = keep(r.assignments@, received());
    let dir = adapter_dir_of(data_dir, r.round_id@);
    &&& plan.round == i
    &&& plan.adapter_dir@ == dir
    &&& plan.output_path@ == data_dir + "/hyverk-"@ + r.version@ + ".safetensors"@
    &&& plan.files@.len() == got.len()
    &&& forall|k: int|
        0 <= k < got.len() ==> (#[trigger] plan.files@[k]).0 == got[k].assignment_id
            && plan.files@[k].1@ == layer_file_of(
            dir,
            got[k].layer_start as int,
            got[k].layer_end as int,
        )
}

/// The positions of the rounds to merge.
pub open spec fn merging_positions<F>(rounds: Seq<TrainingRound<F>>) -> Seq<int>
    decreases rounds.len(),
{
    if rounds.len() == 0 {
        Seq::empty()
    } else if is_merging(rounds.last()) {
        merging_positions(rounds.drop_last()).push(rounds.len() - 1)
    } else {
        merging_positions(rounds.drop_last())
    }
}

/// What has to be done to merge the adapters of the finished rounds.
pub open spec fn are_merge_plans<F>(
    plans: Seq<MergePlan>,
    rounds: Seq<TrainingRound<F>>,
    data_dir: Seq<char>,
) -> bool {
    &&& plans.len() == merging_positions(rounds).len()
    &&& forall|i: int|
        0 <= i < plans.len() ==> is_merge_plan(
            #[trigger] plans[i],
            rounds,
            merging_positions(rounds)[i],
            data_dir,
        )
}

/// The first round that is under way or being merged.
pub open spec fn is_round_under_way<F>(
    rounds: Seq<TrainingRound<F>>,
    r: Option<&TrainingRound<F>>,
) -> bool {
    let k = first_index(rounds, |x: TrainingRound<F>| is_active(x) || is_merging(x));
    match r {
        Some(x) => k < rounds.len() && *x == rounds[k],
        None => k == rounds.len(),
    }
}

/// The numbers of rounds, assignments and complete assignments, and the losses.
pub open spec fn are_stats<F>(
    rounds: Seq<TrainingRound<F>>,
    total_rounds: usize,
    total: usize,
    completed: usize,
    losses: Seq<F>,
) -> bool {
    &&& total_rounds == rounds.len()
    &&& total == all_assignments(rounds).len()
    &&& completed == keep(all_assignments(rounds), is_complete()).len()
    &&& losses == keep(all_assignments(rounds), complete_with_loss()).map_values(
        |a: LayerAssignment<F>| a.training_loss->0,
    )
}

// ── Operations ───────────────────────────────────────────────────────────────

impl RoundStatus {
    /// The word under which a round is stored.
    pub fn name(&self) -> (s: &'static str)
        ensures
            s@ == match *self {
                RoundStatus::Active => "Active"@,
                RoundStatus::Complete => "Complete"@,
                RoundStatus::Merging => "Merging"@,
            },
    {
        match self {
            RoundStatus::Active => "Active",
            RoundStatus::Complete => "Complete",
            RoundStatus::Merging => "Merging",
        }
    }
}

proof fn lemma_next_offset(i: int, size: int, per: int)
    requires
        0 <= i,
        0 <= per,
        0 <= size,
    ensures
        shard_offset(i + 1, size, per) == (shard_offset(i, size, per) + per) % at_least_one(size),
        0 <= shard_offset(i, size, per) < at_least_one(size),
{
    let m = at_least_one(size);
    assert((i + 1) * per == i * per + per) by (nonlinear_arith);
    vstd::arithmetic::div_mod::lemma_add_mod_noop(i * per, per, m);
    vstd::arithmetic::div_mod::lemma_mod_bound(i * per, m);
    vstd::arithmetic::div_mod::lemma_add_mod_noop(shard_offset(i, size, per), per, m);
    vstd::arithmetic::div_mod::lemma_mod_twice(i * per, m);
}

proof fn lemma_count_step(i: int, total: int, per: int)
    requires
        0 <= i,
        per > 0,
        total >= 0,
    ensures
        (i * per < total) == (i < assignment_count(total, per)),
        i == assignment_count(total, per) ==> i * per >= total,
{
    if total > 0 {
        let c = (total + per - 1) / per;
        vstd::arithmetic::div_mod::lemma_fundamental_div_mod(total + per - 1, per);
        vstd::arithmetic::div_mod::lemma_mod_bound(total + per - 1, per);
        let rem = (total + per - 1) % per;
        assert(total + per - 1 == per * c + rem);
        if i < c {
            assert(i * per <= (c - 1) * per) by (nonlinear_arith)
                requires
                    i <= c - 1,
                    per > 0,
            ;
            assert((c - 1) * per == per * c - per) by (nonlinear_arith);
        } else {
            assert(i * per >= c * per) by (nonlinear_arith)
                requires
                    i >= c,
                    per > 0,
            ;
            assert(c * per == per * c) by (nonlinear_arith);
        }
    } else {
        assert(i * per >= 0) by (nonlinear_arith)
            requires
                i >= 0,
                per > 0,
        ;
    }
}

impl<F: Copy> LayerTrainingStore<F> {
    /// The store with stored rounds and stored counters; a counter that is missing or no
    /// number is zero, and a moment that is missing or no number is unknown.
    pub fn restore(
        rounds: Vec<TrainingRound<F>>,
        total_rounds: Option<String>,
        first_round: Option<String>,
    ) -> (store: Self)
        ensures
            store.rounds == rounds,
            store.total_rounds_completed == match total_rounds {
                Some(s) => match parsed_up_to(s@, u64::MAX as nat) {
                    Some(n) => n,
                    None => 0,
                },
                None => 0,
            },
            match first_round {
                Some(s) => match parsed_up_to(s@, u64::MAX as nat) {
                    Some(n) => store.first_round_at is Some && store.first_round_at->0 == n,
                    None => store.first_round_at is None,
                },
                None => store.first_round_at is None,
            },
    {
        let total_rounds_completed: u64 = match &total_rounds {
            Some(s) => match parse_u64(s.as_str()) {
                Some(n) => n,
                None => 0,
            },
            None => 0,
        };
        let first_round_at = match &first_round {
            Some(s) => parse_u64(s.as_str()),
            None => None,
        };
        LayerTrainingStore { rounds, total_rounds_completed, first_round_at }
    }

    /// Starts a round over `total_layers` layers and returns its id.
    pub fn create_round(
        &mut self,
        version: &str,
        base_model: &str,
        total_layers: usize,
        layers_per_assignment: usize,
        dataset_size: usize,
        examples_per_shard: usize,
        now: u64,
    ) -> (id: String)
        requires
            layers_per_assignment > 0 || total_layers == 0,
            total_layers + layers_per_assignment <= usize::MAX,
            dataset_size + examples_per_shard <= usize::MAX,
        ensures
            final(self).rounds@.len() == old(self).rounds@.len() + 1,
            final(self).rounds@.drop_last() == old(self).rounds@,
            is_new_round(
                final(self).rounds@.last(),
                version@,
                base_model@,
                total_layers,
                layers_per_assignment,
                dataset_size as int,
                examples_per_shard as int,
                now,
            ),
            id == final(self).rounds@.last().round_id,
            final(self).total_rounds_completed == old(self).total_rounds_completed,
            final(self).first_round_at == if old(self).first_round_at is None {
                Some(now)
            } else {
                old(self).first_round_at
            },
    {
        let round_id = fresh_id();
        let mut assignments: Vec<LayerAssignment<F>> = Vec::new();
        let mut layer: usize = 0;
        let mut data_offset: usize = 0;
        let wrap: usize = if dataset_size >= 1 {
            dataset_size
        } else {
            1
        };
        let ghost count = assignment_count(total_layers as int, layers_per_assignment as int);
        let ghost mut i: int = 0;
        proof {
            if layers_per_assignment > 0 {
                lemma_count_step(0, total_layers as int, layers_per_assignment as int);
            }
            lemma_next_offset(0, dataset_size as int, examples_per_shard as int);
            assert(0 * layers_per_assignment == 0) by (nonlinear_arith);
            assert(0 * examples_per_shard == 0) by (nonlinear_arith);
            vstd::arithmetic::div_mod::lemma_small_mod(0, wrap as nat);
        }
        while layer < total_layers
            invariant
                layers_per_assignment > 0 || total_layers == 0,
                total_layers + layers_per_assignment <= usize::MAX,
                dataset_size + examples_per_shard <= usize::MAX,
                wrap == at_least_one(dataset_size as int),
                0 <= i,
                i == assignments@.len(),
                layer == min(i * layers_per_assignment, total_layers as int),
                i <= count,
                count == assignment_count(total_layers as int, layers_per_assignment as int),
                data_offset == shard_offset(i, dataset_size as int, examples_per_shard as int),
                data_offset < wrap,
                forall|k: int|
                    0 <= k < i ==> is_planned(
                        #[trigger] assignments@[k],
                        k,
                        total_layers as int,
                        layers_per_assignment as int,
                        dataset_size as int,
                        examples_per_shard as int,
                    ),
            decreases count - i,
        {
            proof {
                lemma_count_step(i, total_layers as int, layers_per_assignment as int);
                lemma_count_step(i + 1, total_layers as int, layers_per_assignment as int);
                lemma_next_offset(i, dataset_size as int, examples_per_shard as int);
                lemma_next_offset(i + 1, dataset_size as int, examples_per_shard as int);
                assert((i + 1) * layers_per_assignment == i * layers_per_assignment
                    + layers_per_assignment) by (nonlinear_arith);
            }
            let end: usize = if layer + layers_per_assignment <= total_layers {
                layer + layers_per_assignment
            } else {
                total_layers
            };
            let left: usize = dataset_size.saturating_sub(data_offset);
            let shard_size: usize = if examples_per_shard <= left {
                examples_per_shard
            } else {
                left
            };
            assignments.push(
                LayerAssignment {
                    assignment_id: fresh_id(),
                    layer_start: layer,
                    layer_end: end,
                    data_shard_start: data_offset,
                    data_shard_size: shard_size,
                    status: AssignmentStatus::Available,
                    assigned_to: None,
                    assigned_at: None,
                    adapter_received: false,
                    training_loss: None,
                    training_steps: None,
                },
            );
            layer = end;
            data_offset = (data_offset + examples_per_shard) % wrap;
            proof {
                i = i + 1;
            }
        }
        proof {
            if layers_per_assignment > 0 {
                lemma_count_step(i, total_layers as int, layers_per_assignment as int);
            }
        }
        self.rounds.push(
            TrainingRound {
                round_id: round_id.clone(),
                version: version.to_owned(),
                base_model: base_model.to_owned(),
                total_layers,
                layers_per_assignment,
                status: RoundStatus::Active,
                assignments,
                created_at: now,
            },
        );
        if self.first_round_at.is_none() {
            self.first_round_at = Some(now);
        }
        assert(self.rounds@.drop_last() == old(self).rounds@);
        round_id
    }

    /// Hands the first available assignment of the first active round that has one to a
    /// node.
    pub fn claim_assignment(&mut self, node_id: &str, now: u64) -> (r: Option<LayerAssignment<F>>)
        ensures
            final(self).total_rounds_completed == old(self).total_rounds_completed,
            final(self).first_round_at == old(self).first_round_at,
            claim_made(old(self).rounds@, node_id@, now, final(self).rounds@, r),
    {
        let ghost pre = self.rounds@;
        let mut i: usize = 0;
        while i < self.rounds.len()
            invariant
                i <= pre.len(),
                self.rounds@ == pre,
                pre == old(self).rounds@,
                self.total_rounds_completed == old(self).total_rounds_completed,
                self.first_round_at == old(self).first_round_at,
                forall|j: int| 0 <= j < i ==> !claimable()(#[trigger] pre[j]),
            decreases pre.len() - i,
        {
            let ghost s = pre[i as int].assignments@;
            let mut k: usize = 0;
            if self.rounds[i].status == RoundStatus::Active {
                while k < self.rounds[i].assignments.len()
                    invariant
                        i < pre.len(),
                        self.rounds@ == pre,
                        pre == old(self).rounds@,
                        self.total_rounds_completed == old(self).total_rounds_completed,
                        self.first_round_at == old(self).first_round_at,
                        s == pre[i as int].assignments@,
                        pre[i as int].status == RoundStatus::Active,
                        k <= s.len(),
                        forall|j: int| 0 <= j < i ==> !claimable()(#[trigger] pre[j]),
                        forall|j: int| 0 <= j < k ==> !available()(#[trigger] s[j]),
                    decreases s.len() - k,
                {
                    if self.rounds[i].assignments[k].status == AssignmentStatus::Available {
                        proof {
                            lemma_first_index_is(s, available(), k as int);
                            lemma_first_index_is(pre, claimable(), i as int);
                        }
                        self.rounds[i].assignments[k].status = AssignmentStatus::Assigned;
                        self.rounds[i].assignments[k].assigned_to = Some(node_id.to_owned());
                        self.rounds[i].assignments[k].assigned_at = Some(now);
                        let claimed = self.rounds[i].assignments[k].clone();
                        assert(self.rounds@[i as int].assignments@ == s.update(
                            k as int,
                            claimed,
                        ));
                        return Some(claimed);
                    }
                    k = k + 1;
                }
                proof {
                    lemma_first_index_is(s, available(), k as int);
                }
            }
            i = i + 1;
        }
        proof {
            lemma_first_index_is(pre, claimable(), i as int);
        }
        None
    }

    /// Takes the adapter of an assignment; the round is merged once all of them are in.
    /// Returns whether the assignment exists.
    pub fn submit_adapter(&mut self, assignment_id: &str, loss: F, steps: usize) -> (found: bool)
        requires
            old(self).total_rounds_completed < u64::MAX,
        ensures
            found == (first_index(old(self).rounds@, holds_id(assignment_id@)) < old(
                self,
            ).rounds@.len()),
            adapter_taken(*old(self), assignment_id@, loss, steps, *final(self)),
    {
        let ghost pre = self.rounds@;
        let ghost id = assignment_id@;
        match self.locate(assignment_id) {
            None => false,
            Some((i, k)) => {
                let ghost s = pre[i as int].assignments@;
                self.rounds[i].assignments[k].status = AssignmentStatus::Complete;
                self.rounds[i].assignments[k].adapter_received = true;
                self.rounds[i].assignments[k].training_loss = Some(loss);
                self.rounds[i].assignments[k].training_steps = Some(steps);
                assert(self.rounds@[i as int].assignments@ == after_submit(
                    s,
                    k as int,
                    loss,
                    steps,
                ));
                let mut all_done: bool = true;
                let mut j: usize = 0;
                while j < self.rounds[i].assignments.len()
                    invariant
                        i < self.rounds@.len(),
                        j <= self.rounds@[i as int].assignments@.len(),
                        all_done == forall|m: int|
                            0 <= m < j ==> (
                            #[trigger] self.rounds@[i as int].assignments@[m]).status
                                == AssignmentStatus::Complete,
                    decreases self.rounds@[i as int].assignments@.len() - j,
                {
                    if self.rounds[i].assignments[j].status != AssignmentStatus::Complete {
                        all_done = false;
                    }
                    j = j + 1;
                }
                if all_done {
                    self.rounds[i].status = RoundStatus::Merging;
                    self.total_rounds_completed = self.total_rounds_completed + 1;
                }
                true
            },
        }
    }

    /// Position of the round and of the assignment in it with this id.
    pub fn locate(&self, assignment_id: &str) -> (r: Option<(usize, usize)>)
        ensures
            ({
                let i = first_index(self.rounds@, holds_id(assignment_id@));
                match r {
                    Some((a, b)) => i < self.rounds@.len() && a == i && b == first_index(
                        self.rounds@[i].assignments@,
                        has_id(assignment_id@),
                    ) && b < self.rounds@[i].assignments@.len(),
                    None => i == self.rounds@.len(),
                }
            }),
    {
        let ghost id = assignment_id@;
        let mut i: usize = 0;
        while i < self.rounds.len()
            invariant
                i <= self.rounds@.len(),
                id == assignment_id@,
                forall|j: int| 0 <= j < i ==> !holds_id(id)(#[trigger] self.rounds@[j]),
            decreases self.rounds@.len() - i,
        {
            let ghost s = self.rounds@[i as int].assignments@;
            let mut k: usize = 0;
            while k < self.rounds[i].assignments.len()
                invariant
                    i < self.rounds@.len(),
                    id == assignment_id@,
                    s == self.rounds@[i as int].assignments@,
                    k <= s.len(),
                    forall|j: int| 0 <= j < i ==> !holds_id(id)(#[trigger] self.rounds@[j]),
                    forall|j: int| 0 <= j < k ==> !has_id(id)(#[trigger] s[j]),
                decreases s.len() - k,
            {
                if str_eq(self.rounds[i].assignments[k].assignment_id.as_str(), assignment_id) {
                    proof {
                        lemma_first_index_is(s, has_id(id), k as int);
                        lemma_first_index_is(self.rounds@, holds_id(id), i as int);
                    }
                    return Some((i, k));
                }
                k = k + 1;
            }
            proof {
                lemma_first_index_is(s, has_id(id), k as int);
            }
            i = i + 1;
        }
        proof {
            lemma_first_index_is(self.rounds@, holds_id(id), i as int);
        }
        None
    }

    /// Takes assignments of active rounds back that have been out for longer than
    /// `timeout_secs`. Returns the positions of the rounds that changed.
    pub fn reassign_stale(&mut self, timeout_secs: u64, now: u64) -> (changed: Vec<usize>)
        requires
            forall|i: int, k: int|
                0 <= i < old(self).rounds@.len() && 0 <= k < old(self).rounds@[i].assignments@.len()
                    && is_active(old(self).rounds@[i]) ==> {
                    let a = #[trigger] old(self).rounds@[i].assignments@[k];
                    a.status == AssignmentStatus::Assigned && a.assigned_at is Some
                        ==> a.assigned_at->0 <= now
                },
        ensures
            final(self).total_rounds_completed == old(self).total_rounds_completed,
            final(self).first_round_at == old(self).first_round_at,
            stale_taken_back(
                old(self).rounds@,
                timeout_secs,
                now,
                final(self).rounds@,
                changed@,
            ),
    {
        let ghost pre = self.rounds@;
        let mut changed: Vec<usize> = Vec::new();
        let mut i: usize = 0;
        while i < self.rounds.len()
            invariant
                i <= pre.len(),
                pre == old(self).rounds@,
                self.rounds@.len() == pre.len(),
                self.total_rounds_completed == old(self).total_rounds_completed,
                self.first_round_at == old(self).first_round_at,
                forall|j: int| i <= j < pre.len() ==> #[trigger] self.rounds@[j] == pre[j],
                forall|j: int|
                    0 <= j < i ==> round_taken_back(
                        pre[j],
                        timeout_secs,
                        now,
                        #[trigger] self.rounds@[j],
                    ),
                forall|j: int|
                    0 <= j < i ==> (changed@.contains(j as usize) == #[trigger] has_stale(
                        pre[j],
                        timeout_secs,
                        now,
                    )),
                forall|m: int| 0 <= m < changed@.len() ==> #[trigger] changed@[m] < i,
                changed@.no_duplicates(),
                forall|a: int, k: int|
                    0 <= a < pre.len() && 0 <= k < pre[a].assignments@.len() && is_active(pre[a])
                        ==> {
                        let x = #[trigger] pre[a].assignments@[k];
                        x.status == AssignmentStatus::Assigned && x.assigned_at is Some
                            ==> x.assigned_at->0 <= now
                    },
            decreases pre.len() - i,
        {
            let ghost before = changed@;
            if self.rounds[i].status == RoundStatus::Active {
                let ghost s = pre[i as int].assignments@;
                let ghost back = |a: LayerAssignment<F>| taken_back(a, timeout_secs, now);
                let mut any: bool = false;
                let mut k: usize = 0;
                while k < self.rounds[i].assignments.len()
                    invariant
                        i < pre.len(),
                        pre == old(self).rounds@,
                        self.rounds@.len() == pre.len(),
                        self.total_rounds_completed == old(self).total_rounds_completed,
                        self.first_round_at == old(self).first_round_at,
                        s == pre[i as int].assignments@,
                        is_active(pre[i as int]),
                        back == (|a: LayerAssignment<F>| taken_back(a, timeout_secs, now)),
                        k <= s.len(),
                        same_round(self.rounds@[i as int], pre[i as int]),
                        self.rounds@[i as int].status == RoundStatus::Active,
                        self.rounds@[i as int].assignments@.len() == s.len(),
                        forall|j: int| i < j < pre.len() ==> #[trigger] self.rounds@[j] == pre[j],
                        forall|j: int|
                            0 <= j < i ==> round_taken_back(
                                pre[j],
                                timeout_secs,
                                now,
                                #[trigger] self.rounds@[j],
                            ),
                        forall|j: int|
                            0 <= j < k ==> #[trigger] self.rounds@[i as int].assignments@[j]
                                == back(s[j]),
                        forall|j: int|
                            k <= j < s.len() ==> #[trigger] self.rounds@[i as int].assignments@[j]
                                == s[j],
                        any == exists|j: int|
                            0 <= j < k && is_stale(#[trigger] s[j], timeout_secs, now),
                        forall|a: int, b: int|
                            0 <= a < pre.len() && 0 <= b < pre[a].assignments@.len() && is_active(
                                pre[a],
                            ) ==> {
                                let x = #[trigger] pre[a].assignments@[b];
                                x.status == AssignmentStatus::Assigned && x.assigned_at is Some
                                    ==> x.assigned_at->0 <= now
                            },
                    decreases s.len() - k,
                {
                    assert(pre[i as int].assignments@[k as int] == s[k as int]);
                    if self.rounds[i].assignments[k].status == AssignmentStatus::Assigned {
                        if let Some(at) = self.rounds[i].assignments[k].assigned_at {
                            if now - at > timeout_secs {
                                self.rounds[i].assignments[k].status = AssignmentStatus::Available;
                                self.rounds[i].assignments[k].assigned_to = None;
                                self.rounds[i].assignments[k].assigned_at = None;
                                any = true;
                                assert(is_stale(s[k as int], timeout_secs, now));
                            }
                        }
                    }
                    k = k + 1;
                }
                assert(self.rounds@[i as int].assignments@ == s.map_values(back));
                if any {
                    changed.push(i);
                }
            }
            proof {
                assert forall|j: int| 0 <= j < i + 1 implies (changed@.contains(j as usize)
                    == #[trigger] has_stale(pre[j], timeout_secs, now)) by {
                    if j < i {
                        if before.contains(j as usize) {
                            let m = choose|m: int| 0 <= m < before.len() && before[m] == j as usize;
                            assert(changed@[m] == j as usize);
                        }
                        if changed@.contains(j as usize) {
                            let m = choose|m: int|
                                0 <= m < changed@.len() && changed@[m] == j as usize;
                            assert(before[m] == j as usize);
                        }
                    } else if has_stale(pre[j], timeout_secs, now) {
                        assert(changed@[changed@.len() - 1] == j as usize);
                    } else if changed@.contains(j as usize) {
                        let m = choose|m: int| 0 <= m < changed@.len() && changed@[m] == j as usize;
                        assert(before[m] < i);
                    }
                }
            }
            i = i + 1;
        }
        changed
    }
}

impl<F: Copy> LayerTrainingStore<F> {
    /// Closes finished rounds and starts the next one, if one was finished, none is under way
    /// and there are examples. Returns whether a round was started.
    pub fn auto_advance(&mut self, dataset_size: usize, now: u64) -> (created: bool)
        requires
            old(self).total_rounds_completed < u64::MAX,
            dataset_size + 500 <= usize::MAX,
        ensures
            final(self).total_rounds_completed == old(self).total_rounds_completed,
            advanced(*old(self), dataset_size, now, *final(self), created),
    {
        let ghost pre = self.rounds@;
        let mut has_merging: bool = false;
        let mut no_active: bool = true;
        let mut i: usize = 0;
        while i < self.rounds.len()
            invariant
                i <= self.rounds@.len(),
                has_merging == exists|j: int| 0 <= j < i && is_merging(#[trigger] self.rounds@[j]),
                no_active == forall|j: int| 0 <= j < i ==> !is_active(#[trigger] self.rounds@[j]),
            decreases self.rounds@.len() - i,
        {
            if self.rounds[i].status == RoundStatus::Merging {
                assert(is_merging(self.rounds@[i as int]));
                has_merging = true;
            }
            if self.rounds[i].status == RoundStatus::Active {
                assert(is_active(self.rounds@[i as int]));
                no_active = false;
            }
            i = i + 1;
        }
        if !(has_merging && no_active) || dataset_size == 0 {
            return false;
        }
        let ghost close = |r: TrainingRound<F>| closed(r);
        let mut k: usize = 0;
        while k < self.rounds.len()
            invariant
                k <= pre.len(),
                self.rounds@.len() == pre.len(),
                close == (|r: TrainingRound<F>| closed(r)),
                self.total_rounds_completed == old(self).total_rounds_completed,
                self.first_round_at == old(self).first_round_at,
                forall|j: int| 0 <= j < k ==> #[trigger] self.rounds@[j] == close(pre[j]),
                forall|j: int| k <= j < pre.len() ==> #[trigger] self.rounds@[j] == pre[j],
            decreases pre.len() - k,
        {
            if self.rounds[k].status == RoundStatus::Merging {
                self.rounds[k].status = RoundStatus::Complete;
            }
            k = k + 1;
        }
        assert(self.rounds@ == pre.map_values(close));
        let mut version = "v0.1-r".to_owned();
        version.append(format_number(self.total_rounds_completed + 1).as_str());
        let id = self.create_round(
            version.as_str(),
            "Qwen2.5-Coder-7B",
            28,
            2,
            dataset_size,
            500,
            now,
        );
        true
    }

    /// The first round that is under way or being merged.
    pub fn active_round(&self) -> (r: Option<&TrainingRound<F>>)
        ensures
            is_round_under_way(self.rounds@, r),
    {
        let ghost p = |x: TrainingRound<F>| is_active(x) || is_merging(x);
        let mut i: usize = 0;
        while i < self.rounds.len()
            invariant
                i <= self.rounds@.len(),
                p == (|x: TrainingRound<F>| is_active(x) || is_merging(x)),
                forall|j: int| 0 <= j < i ==> !p(#[trigger] self.rounds@[j]),
            decreases self.rounds@.len() - i,
        {
            if self.rounds[i].status == RoundStatus::Active || self.rounds[i].status
                == RoundStatus::Merging {
                proof {
                    lemma_first_index_is(self.rounds@, p, i as int);
                }
                return Some(&self.rounds[i]);
            }
            i = i + 1;
        }
        proof {
            lemma_first_index_is(self.rounds@, p, i as int);
        }
        None
    }

    /// Number of rounds, of assignments and of complete assignments, and the losses of the
    /// complete assignments that reported one.
    pub fn stats(&self) -> (r: (usize, usize, usize, Vec<F>))
        requires
            all_assignments(self.rounds@).len() <= usize::MAX,
        ensures
            are_stats(self.rounds@, r.0, r.1, r.2, r.3@),
    {
        let mut total: usize = 0;
        let mut completed: usize = 0;
        let mut losses: Vec<F> = Vec::new();
        let ghost all = all_assignments(self.rounds@);
        let ghost loss = |a: LayerAssignment<F>| a.training_loss->0;
        let mut i: usize = 0;
        while i < self.rounds.len()
            invariant
                i <= self.rounds@.len(),
                all == all_assignments(self.rounds@),
                all.len() <= usize::MAX,
                loss == (|a: LayerAssignment<F>| a.training_loss->0),
                total == all_assignments(self.rounds@.subrange(0, i as int)).len(),
                all_assignments(self.rounds@.subrange(0, i as int)) == all.subrange(
                    0,
                    total as int,
                ),
                total <= all.len(),
                completed <= total,
                completed == keep(all.subrange(0, total as int), is_complete()).len(),
                losses@ == keep(
                    all.subrange(0, total as int),
                    complete_with_loss(),
                ).map_values(loss),
            decreases self.rounds@.len() - i,
        {
            let ghost base = total as int;
            let ghost s = self.rounds@[i as int].assignments@;
            proof {
                lemma_prefix_assignments(self.rounds@, i + 1);
                let next = self.rounds@.subrange(0, i + 1);
                assert(next.drop_last() == self.rounds@.subrange(0, i as int));
                assert(all_assignments(next) == all.subrange(0, base) + s);
                assert forall|j: int| 0 <= j < s.len() implies all[base + j] == s[j] by {
                    assert(all_assignments(next)[base + j] == s[j]);
                }
            }
            let mut k: usize = 0;
            while k < self.rounds[i].assignments.len()
                invariant
                    i < self.rounds@.len(),
                    s == self.rounds@[i as int].assignments@,
                    k <= s.len(),
                    all.len() <= usize::MAX,
                    base + s.len() <= all.len(),
                    0 <= base,
                    total == base + k,
                    completed <= total,
                    loss == (|a: LayerAssignment<F>| a.training_loss->0),
                    forall|j: int| 0 <= j < s.len() ==> all[base + j] == #[trigger] s[j],
                    completed == keep(all.subrange(0, total as int), is_complete()).len(),
                    losses@ == keep(
                        all.subrange(0, total as int),
                        complete_with_loss(),
                    ).map_values(loss),
                decreases s.len() - k,
            {
                proof {
                    assert(all[base + k] == s[k as int]);
                    lemma_keep_step(all, is_complete(), total as int);
                    lemma_keep_step(all, complete_with_loss(), total as int);
                    let kept = keep(all.subrange(0, total as int), complete_with_loss());
                    assert(kept.push(s[k as int]).map_values(loss) == kept.map_values(loss).push(
                        loss(s[k as int]),
                    ));
                }
                let a = &self.rounds[i].assignments[k];
                total = total + 1;
                if a.status == AssignmentStatus::Complete {
                    completed = completed + 1;
                    if let Some(l) = a.training_loss {
                        losses.push(l);
                    }
                }
                k = k + 1;
            }
            proof {
                let next = self.rounds@.subrange(0, i + 1);
                assert(all_assignments(next) == all.subrange(0, total as int));
            }
            i = i + 1;
        }
        assert(self.rounds@.subrange(0, self.rounds@.len() as int) == self.rounds@);
        assert(all.subrange(0, total as int) == all);
        (self.rounds.len(), total, completed, losses)
    }

    /// Rounds that are missing to `target_rounds`.
    pub fn rounds_remaining(&self, target_rounds: u64) -> (n: u64)
        ensures
            n == if target_rounds >= self.total_rounds_completed {
                target_rounds - self.total_rounds_completed
            } else {
                0
            },
    {
        target_rounds.saturating_sub(self.total_rounds_completed)
    }

    /// What has to be done to merge the adapters of the finished rounds.
    pub fn merge_plans(&self, data_dir: &str) -> (plans: Vec<MergePlan>)
        ensures
            are_merge_plans(plans@, self.rounds@, data_dir@),
    {
        let mut plans: Vec<MergePlan> = Vec::new();
        let mut i: usize = 0;
        while i < self.rounds.len()
            invariant
                i <= self.rounds@.len(),
                plans@.len() == merging_positions(self.rounds@.subrange(0, i as int)).len(),
                forall|k: int|
                    0 <= k < plans@.len() ==> is_merge_plan(
                        #[trigger] plans@[k],
                        self.rounds@,
                        merging_positions(self.rounds@.subrange(0, i as int))[k],
                        data_dir@,
                    ),
            decreases self.rounds@.len() - i,
        {
            proof {
                let next = self.rounds@.subrange(0, i + 1);
                assert(next.drop_last() == self.rounds@.subrange(0, i as int));
                assert(next.last() == self.rounds@[i as int]);
            }
            if self.rounds[i].status == RoundStatus::Merging {
                plans.push(self.merge_plan(i, data_dir));
            }
            i = i + 1;
        }
        assert(self.rounds@.subrange(0, self.rounds@.len() as int) == self.rounds@);
        plans
    }

    fn merge_plan(&self, i: usize, data_dir: &str) -> (plan: MergePlan)
        requires
            i < self.rounds@.len(),
        ensures
            is_merge_plan(plan, self.rounds@, i as int, data_dir@),
    {
        let round = &self.rounds[i];
        let id = chars_of(round.round_id.as_str());
        let short: usize = if id.len() <= 8 {
            id.len()
        } else {
            8
        };
        let head = substring(&id, 0, short);
        assert(head@ == short_id(round.round_id@));
        let adapter_dir = concat3(data_dir, "/adapters_", head.as_str());
        let mut output_path = concat3(data_dir, "/hyverk-", round.version.as_str());
        output_path.append(".safetensors");
        let mut files: Vec<(String, String)> = Vec::new();
        let ghost s = round.assignments@;
        let mut k: usize = 0;
        while k < round.assignments.len()
            invariant
                k <= s.len(),
                s == round.assignments@,
                files@.len() == keep(s.subrange(0, k as int), received()).len(),
                forall|j: int|
                    0 <= j < files@.len() ==> {
                        let a = keep(s.subrange(0, k as int), received())[j];
                        (#[trigger] files@[j]).0 == a.assignment_id && files@[j].1@
                            == layer_file_of(
                            adapter_dir@,
                            a.layer_start as int,
                            a.layer_end as int,
                        )
                    },
            decreases s.len() - k,
        {
            proof {
                lemma_keep_step(s, received(), k as int);
            }
            let a = &round.assignments[k];
            if a.adapter_received {
                let mut path = concat3(
                    adapter_dir.as_str(),
                    "/layers_",
                    format_number(a.layer_start as u64).as_str(),
                );
                path.append("_");
                path.append(format_number(a.layer_end as u64).as_str());
                path.append(".safetensors");
                files.push((a.assignment_id.clone(), path));
            }
            k = k + 1;
        }
        assert(s.subrange(0, s.len() as int) == s);
        MergePlan { round: i, adapter_dir, files, output_path }
    }
}

proof fn lemma_prefix_assignments<F>(rounds: Seq<TrainingRound<F>>, n: int)
    requires
        0 <= n <= rounds.len(),
    ensures
        all_assignments(rounds.subrange(0, n)).len() <= all_assignments(rounds).len(),
        all_assignments(rounds.subrange(0, n)) == all_assignments(rounds).subrange(
            0,
            all_assignments(rounds.subrange(0, n)).len() as int,
        ),
    decreases rounds.len(),
{
    if n == rounds.len() {
        assert(rounds.subrange(0, n) == rounds);
        assert(all_assignments(rounds).subrange(0, all_assignments(rounds).len() as int)
            == all_assignments(rounds));
    } else {
        let init = rounds.drop_last();
        lemma_prefix_assignments(init, n);
        assert(init.subrange(0, n) == rounds.subrange(0, n));
        let len = all_assignments(init.subrange(0, n)).len() as int;
        assert(all_assignments(rounds).subrange(0, len) == all_assignments(init).subrange(0, len));
    }
}

// ── Laws ─────────────────────────────────────────────────────────────────────

/// The assignments of a new round cover every layer exactly once.
pub proof fn law_round_partitions_layers<F>(
    r: TrainingRound<F>,
    version: Seq<char>,
    base_model: Seq<char>,
    total: usize,
    per: usize,
    dataset_size: int,
    per_shard: int,
    now: u64,
    layer: int,
)
    requires
        is_new_round(r, version, base_model, total, per, dataset_size, per_shard, now),
        per > 0,
        0 <= layer < total,
    ensures
        exists|i: int|
            0 <= i < r.assignments@.len() && (#[trigger] r.assignments@[i]).layer_start <= layer
                < r.assignments@[i].layer_end,
        forall|i: int, j: int|
            0 <= i < r.assignments@.len() && 0 <= j < r.assignments@.len() && (
            #[trigger] r.assignments@[i]).layer_start <= layer < r.assignments@[i].layer_end && (
            #[trigger] r.assignments@[j]).layer_start <= layer < r.assignments@[j].layer_end
                ==> i == j,
{
    let p = per as int;
    let k = layer / p;
    vstd::arithmetic::div_mod::lemma_fundamental_div_mod(layer, p);
    vstd::arithmetic::div_mod::lemma_mod_bound(layer, p);
    assert(k >= 0) by (nonlinear_arith)
        requires
            k == layer / p,
            layer >= 0,
            p > 0,
    ;
    assert(p * k == k * p) by (nonlinear_arith);
    assert((k + 1) * p == k * p + p) by (nonlinear_arith);
    lemma_count_step(k, total as int, p);
    assert(is_planned(r.assignments@[k], k, total as int, p, dataset_size, per_shard));
    assert forall|i: int|
        0 <= i < r.assignments@.len() && (#[trigger] r.assignments@[i]).layer_start <= layer
            < r.assignments@[i].layer_end implies i == k by {
        assert(is_planned(r.assignments@[i], i, total as int, p, dataset_size, per_shard));
        assert((i + 1) * p == i * p + p) by (nonlinear_arith);
        if i < k {
            assert((i + 1) * p <= k * p) by (nonlinear_arith)
                requires
                    i + 1 <= k,
                    p > 0,
            ;
        }
        if i > k {
            assert(i * p >= (k + 1) * p) by (nonlinear_arith)
                requires
                    i >= k + 1,
                    p > 0,
            ;
        }
    }
}

/// The examples of every assignment lie within the dataset.
pub proof fn law_shards_lie_in_dataset<F>(
    a: LayerAssignment<F>,
    i: int,
    total: int,
    per: int,
    dataset_size: int,
    per_shard: int,
)
    requires
        is_planned(a, i, total, per, dataset_size, per_shard),
        0 <= i,
        0 <= per_shard,
        1 <= dataset_size,
    ensures
        a.data_shard_start < dataset_size,
        a.data_shard_start + a.data_shard_size <= dataset_size,
        per_shard > 0 ==> a.data_shard_size > 0,
{
    lemma_next_offset(i, dataset_size, per_shard);
}

/// An assignment that was taken back can be claimed again, and nothing else changed on it.
pub proof fn law_taken_back_is_available<F>(a: LayerAssignment<F>, timeout: u64, now: u64)
    requires
        is_stale(a, timeout, now),
    ensures
        available()(taken_back(a, timeout, now)),
        taken_back(a, timeout, now).assignment_id == a.assignment_id,
        taken_back(a, timeout, now).layer_start == a.layer_start,
        taken_back(a, timeout, now).layer_end == a.layer_end,
        taken_back(a, timeout, now).training_loss == a.training_loss,
{
}

/// A claimed assignment is not claimed again until it is taken back.
pub proof fn law_claimed_is_not_available<F>(
    pre: LayerAssignment<F>,
    post: LayerAssignment<F>,
    node_id: Seq<char>,
    now: u64,
)
    requires
        is_claimed(pre, post, node_id, now),
    ensures
        !available()(post),
        post.assignment_id == pre.assignment_id,
        post.layer_start == pre.layer_start,
        post.layer_end == pre.layer_end,
{
}

proof fn lemma_planned_shard<F>(
    a: LayerAssignment<F>,
    i: int,
    total: int,
    per: int,
    dataset_size: int,
    per_shard: int,
)
    requires
        is_planned(a, i, total, per, dataset_size, per_shard),
        0 <= i,
        0 <= per_shard,
        1 <= dataset_size,
    ensures
        a.data_shard_start == shard_offset(i, dataset_size, per_shard),
        0 <= a.data_shard_start < dataset_size,
        a.data_shard_size <= per_shard,
        a.data_shard_start + a.data_shard_size <= dataset_size,
        a.data_shard_size < per_shard ==> a.data_shard_start + a.data_shard_size == dataset_size,
{
    lemma_next_offset(i, dataset_size, per_shard);
}

/// No assignment of a new round has more than `per_shard` examples, and one has fewer only where
/// the dataset ends. The first begins with the first example, and each begins where the one
/// before it ends: with the next example, or with the first again after the last one. Where a
/// shard does not reach the end, it and the next have no example in common.
pub proof fn law_shards_follow_each_other<F>(
    r: TrainingRound<F>,
    version: Seq<char>,
    base_model: Seq<char>,
    total: usize,
    per: usize,
    dataset_size: int,
    per_shard: int,
    now: u64,
    i: int,
)
    requires
        is_new_round(r, version, base_model, total, per, dataset_size, per_shard, now),
        0 <= per_shard,
        1 <= dataset_size,
        0 <= i < r.assignments@.len(),
    ensures
        r.assignments@[0].data_shard_start == 0,
        ({
            let a = r.assignments@[i];
            &&& a.data_shard_size <= per_shard
            &&& per_shard > 0 ==> a.data_shard_size > 0
            &&& a.data_shard_start + a.data_shard_size <= dataset_size
            &&& a.data_shard_size < per_shard ==> a.data_shard_start + a.data_shard_size
                == dataset_size
        }),
        i + 1 < r.assignments@.len() ==> {
            let a = r.assignments@[i];
            let b = r.assignments@[i + 1];
            let end = a.data_shard_start + a.data_shard_size;
            &&& end < dataset_size ==> b.data_shard_start == end
            &&& end == dataset_size && per_shard <= dataset_size ==> b.data_shard_start
                == per_shard - a.data_shard_size
        },
        per_shard > 0 && i * per_shard + per_shard <= dataset_size ==> r.assignments@[i].data_shard_start == i
            * per_shard && r.assignments@[i].data_shard_size == per_shard,
{
    let t = total as int;
    let p = per as int;
    assert(is_planned(r.assignments@[0], 0, t, p, dataset_size, per_shard));
    assert(0 * per_shard == 0) by (nonlinear_arith);
    vstd::arithmetic::div_mod::lemma_small_mod(0, dataset_size as nat);
    assert(is_planned(r.assignments@[i], i, t, p, dataset_size, per_shard));
    let a = r.assignments@[i];
    lemma_planned_shard(a, i, t, p, dataset_size, per_shard);
    if i + 1 < r.assignments@.len() {
        let b = r.assignments@[i + 1];
        assert(is_planned(b, i + 1, t, p, dataset_size, per_shard));
        lemma_planned_shard(b, i + 1, t, p, dataset_size, per_shard);
        lemma_next_offset(i, dataset_size, per_shard);
        let sum = a.data_shard_start + per_shard;
        if sum < dataset_size {
            vstd::arithmetic::div_mod::lemma_small_mod(sum as nat, dataset_size as nat);
        } else if per_shard <= dataset_size {
            assert(0 <= sum - dataset_size < dataset_size);
            vstd::arithmetic::div_mod::lemma_fundamental_div_mod_converse(
                sum,
                dataset_size,
                1,
                sum - dataset_size,
            );
        }
    }
    if i * per_shard + per_shard <= dataset_size && per_shard > 0 {
        assert(i * per_shard >= 0) by (nonlinear_arith)
            requires
                i >= 0,
                per_shard >= 0,
        ;
        vstd::arithmetic::div_mod::lemma_small_mod((i * per_shard) as nat, dataset_size as nat);
    }
}

/// The layers of a new round's assignments lead from the first to the last without a gap, by
/// `per` each; only the last assignment may have fewer. All of them can be claimed.
pub proof fn law_assignments_lead_through_the_layers<F>(
    r: TrainingRound<F>,
    version: Seq<char>,
    base_model: Seq<char>,
    total: usize,
    per: usize,
    dataset_size: int,
    per_shard: int,
    now: u64,
    i: int,
)
    requires
        is_new_round(r, version, base_model, total, per, dataset_size, per_shard, now),
        per > 0,
        0 <= i < r.assignments@.len(),
    ensures
        r.assignments@[0].layer_start == 0,
        r.assignments@.last().layer_end == total,
        ({
            let a = r.assignments@[i];
            &&& a.layer_start < a.layer_end <= a.layer_start + per
            &&& i + 1 < r.assignments@.len() ==> a.layer_end == a.layer_start + per
                && r.assignments@[i + 1].layer_start == a.layer_end
            &&& a.status == AssignmentStatus::Available
            &&& a.assigned_to is None
            &&& !a.adapter_received
        }),
        r.status == RoundStatus::Active,
{
    let t = total as int;
    let p = per as int;
    let n = r.assignments@.len() as int;
    assert(is_planned(r.assignments@[0], 0, t, p, dataset_size, per_shard));
    assert(is_planned(r.assignments@[i], i, t, p, dataset_size, per_shard));
    assert(is_planned(r.assignments@[n - 1], n - 1, t, p, dataset_size, per_shard));
    assert(0 * p == 0) by (nonlinear_arith);
    assert((i + 1) * p == i * p + p) by (nonlinear_arith);
    lemma_count_step(i, t, p);
    lemma_count_step(n, t, p);
    assert((n - 1 + 1) * p == n * p);
    if i + 1 < n {
        lemma_count_step(i + 1, t, p);
        assert(is_planned(r.assignments@[i + 1], i + 1, t, p, dataset_size, per_shard));
    }
}

/// Whether assignment `k` of round `i` can be claimed.
pub open spec fn is_free<F>(rounds: Seq<TrainingRound<F>>, i: int, k: int) -> bool {
    &&& 0 <= i < rounds.len()
    &&& rounds[i].status == RoundStatus::Active
    &&& 0 <= k < rounds[i].assignments@.len()
    &&& rounds[i].assignments@[k].status == AssignmentStatus::Available
}

proof fn lemma_claim_place<F>(
    pre: Seq<TrainingRound<F>>,
    node_id: Seq<char>,
    now: u64,
    post: Seq<TrainingRound<F>>,
    r: Option<LayerAssignment<F>>,
) -> (place: (int, int))
    requires
        claim_made(pre, node_id, now, post, r),
    ensures
        r is None ==> forall|a: int, b: int| !is_free(pre, a, b),
        r is Some ==> is_free(pre, place.0, place.1) && place.0 == first_index(pre, claimable())
            && place.1 == first_index(pre[place.0].assignments@, available()),
        r is Some ==> forall|a: int, b: int| #[trigger]
            is_free(pre, a, b) ==> place.0 < a || (place.0 == a && place.1 <= b),
{
    lemma_index_from(pre, claimable(), 0);
    let i = first_index(pre, claimable());
    assert forall|a: int, b: int| #[trigger] is_free(pre, a, b) implies claimable()(pre[a]) by {
        lemma_index_from(pre[a].assignments@, available(), 0);
        let k = first_index(pre[a].assignments@, available());
        if k == pre[a].assignments@.len() {
            assert(!available()(pre[a].assignments@[b]));
        }
    }
    if i >= pre.len() {
        assert forall|a: int, b: int| !is_free(pre, a, b) by {
            if is_free(pre, a, b) {
                assert(!claimable()(pre[a]));
            }
        }
        (0, 0)
    } else {
        lemma_index_from(pre[i].assignments@, available(), 0);
        let k = first_index(pre[i].assignments@, available());
        assert(claimable()(pre[i]));
        assert(available()(pre[i].assignments@[k]));
        assert forall|a: int, b: int| #[trigger] is_free(pre, a, b) implies i < a || (i == a && k
            <= b) by {
            if a < i {
                assert(!claimable()(pre[a]));
            }
            if a == i && b < k {
                assert(!available()(pre[i].assignments@[b]));
            }
        }
        (i, k)
    }
}

/// A node gets an assignment exactly if one is free. It gets the earliest free one as it was
/// planned, and from then on that one is the node's; nothing else changes.
pub proof fn law_earliest_free_assignment_is_claimed<F>(
    pre: Seq<TrainingRound<F>>,
    node_id: Seq<char>,
    now: u64,
    post: Seq<TrainingRound<F>>,
    r: Option<LayerAssignment<F>>,
) -> (place: (int, int))
    requires
        claim_made(pre, node_id, now, post, r),
    ensures
        (exists|a: int, b: int| #[trigger] is_free(pre, a, b)) <==> r is Some,
        r is None ==> post == pre,
        r is Some ==> {
            let (i, k) = place;
            let was = pre[i].assignments@[k];
            let got = r->0;
            &&& is_free(pre, i, k)
            &&& forall|a: int, b: int| #[trigger]
                is_free(pre, a, b) ==> i < a || (i == a && k <= b)
            &&& got.assignment_id == was.assignment_id
            &&& got.layer_start == was.layer_start
            &&& got.layer_end == was.layer_end
            &&& got.data_shard_start == was.data_shard_start
            &&& got.data_shard_size == was.data_shard_size
            &&& got.status == AssignmentStatus::Assigned
            &&& got.assigned_to is Some
            &&& got.assigned_to->0@ == node_id
            &&& got.assigned_at == Some(now)
            &&& post.len() == pre.len()
            &&& post[i].assignments@ == pre[i].assignments@.update(k, got)
            &&& post[i].status == pre[i].status
            &&& forall|j: int| 0 <= j < pre.len() && j != i ==> #[trigger] post[j] == pre[j]
            &&& !is_free(post, i, k)
            &&& forall|a: int, b: int|
                (a != i || b != k) ==> #[trigger] is_free(post, a, b) == is_free(pre, a, b)
        },
{
    let place = lemma_claim_place(pre, node_id, now, post, r);
    if r is Some {
        let (i, k) = place;
        assert(is_free(pre, i, k));
        assert forall|a: int, b: int| (a != i || b != k) implies #[trigger] is_free(post, a, b)
            == is_free(pre, a, b) by {
            if 0 <= a < pre.len() && a != i {
                assert(post[a] == pre[a]);
            }
        }
    }
    place
}

/// A claimed assignment is taken back exactly if it has been out for longer than the timeout in
/// a round that is under way. It can then be claimed again, and keeps its layers and examples;
/// every other one stays as it is.
pub proof fn law_only_late_assignments_are_taken_back<F>(
    pre: Seq<TrainingRound<F>>,
    timeout: u64,
    now: u64,
    post: Seq<TrainingRound<F>>,
    changed: Seq<usize>,
    i: int,
    k: int,
)
    requires
        stale_taken_back(pre, timeout, now, post, changed),
        0 <= i < pre.len() <= usize::MAX,
        0 <= k < pre[i].assignments@.len(),
    ensures
        post[i].assignments@.len() == pre[i].assignments@.len(),
        ({
            let a = pre[i].assignments@[k];
            let b = post[i].assignments@[k];
            let late = pre[i].status == RoundStatus::Active && a.status
                == AssignmentStatus::Assigned && a.assigned_at is Some && now as int
                - a.assigned_at->0 as int > timeout;
            &&& late ==> {
                &&& is_free(post, i, k)
                &&& b.assigned_to is None
                &&& b.assignment_id == a.assignment_id
                &&& b.layer_start == a.layer_start
                &&& b.layer_end == a.layer_end
                &&& b.data_shard_start == a.data_shard_start
                &&& b.data_shard_size == a.data_shard_size
                &&& changed.contains(i as usize)
            }
            &&& !late ==> b == a
        }),
{
    assert(round_taken_back(pre[i], timeout, now, post[i]));
    assert(changed.contains(i as usize) == has_stale(pre[i], timeout, now));
    let a = pre[i].assignments@[k];
    if pre[i].status == RoundStatus::Active && is_stale(a, timeout, now) {
        assert(has_stale(pre[i], timeout, now));
    }
}

/// Whether an assignment with this id is at a place.
pub open spec fn stands_at<F>(
    rounds: Seq<TrainingRound<F>>,
    id: Seq<char>,
    i: int,
    k: int,
) -> bool {
    &&& 0 <= i < rounds.len()
    &&& 0 <= k < rounds[i].assignments@.len()
    &&& rounds[i].assignments@[k].assignment_id@ == id
}

/// A submitted adapter completes its assignment, with the loss and the steps that were reported.
/// The round goes on to be merged, and is counted, exactly when no other of its assignments is
/// missing. Nothing else changes.
pub proof fn law_submission_completes_its_assignment<F>(
    pre: LayerTrainingStore<F>,
    id: Seq<char>,
    loss: F,
    steps: usize,
    post: LayerTrainingStore<F>,
    i: int,
    k: int,
)
    requires
        adapter_taken(pre, id, loss, steps, post),
        stands_at(pre.rounds@, id, i, k),
        forall|a: int, b: int| #[trigger] stands_at(pre.rounds@, id, a, b) ==> a == i && b == k,
    ensures
        post.rounds@.len() == pre.rounds@.len(),
        post.rounds@[i].assignments@.len() == pre.rounds@[i].assignments@.len(),
        ({
            let a = pre.rounds@[i].assignments@[k];
            let b = post.rounds@[i].assignments@[k];
            &&& b.status == AssignmentStatus::Complete
            &&& b.adapter_received
            &&& b.training_loss == Some(loss)
            &&& b.training_steps == Some(steps)
            &&& b.assignment_id == a.assignment_id
            &&& b.layer_start == a.layer_start
            &&& b.layer_end == a.layer_end
            &&& b.assigned_to == a.assigned_to
        }),
        forall|m: int|
            0 <= m < pre.rounds@[i].assignments@.len() && m != k
                ==> #[trigger] post.rounds@[i].assignments@[m] == pre.rounds@[i].assignments@[m],
        forall|j: int|
            0 <= j < pre.rounds@.len() && j != i ==> #[trigger] post.rounds@[j] == pre.rounds@[j],
        ({
            let rest = forall|m: int|
                0 <= m < pre.rounds@[i].assignments@.len() && m != k ==> (
                #[trigger] pre.rounds@[i].assignments@[m]).status == AssignmentStatus::Complete;
            &&& rest ==> post.rounds@[i].status == RoundStatus::Merging
                && post.total_rounds_completed == pre.total_rounds_completed + 1
            &&& !rest ==> post.rounds@[i].status == pre.rounds@[i].status
                && post.total_rounds_completed == pre.total_rounds_completed
        }),
{
    lemma_index_from(pre.rounds@, holds_id(id), 0);
    let f = first_index(pre.rounds@, holds_id(id));
    lemma_index_from(pre.rounds@[i].assignments@, has_id(id), 0);
    let g = first_index(pre.rounds@[i].assignments@, has_id(id));
    if g == pre.rounds@[i].assignments@.len() {
        assert(!has_id::<F>(id)(pre.rounds@[i].assignments@[k]));
    }
    assert(holds_id::<F>(id)(pre.rounds@[i]));
    if f == pre.rounds@.len() || f > i {
        assert(!holds_id::<F>(id)(pre.rounds@[i]));
    }
    assert(holds_id::<F>(id)(pre.rounds@[f]));
    lemma_index_from(pre.rounds@[f].assignments@, has_id(id), 0);
    let h = first_index(pre.rounds@[f].assignments@, has_id(id));
    assert(has_id::<F>(id)(pre.rounds@[f].assignments@[h]));
    assert(stands_at(pre.rounds@, id, f, h));
    let done = after_submit(pre.rounds@[i].assignments@, k, loss, steps);
    assert(post.rounds@[i].assignments@ == done);
    let rest = forall|m: int|
        0 <= m < pre.rounds@[i].assignments@.len() && m != k ==> (
        #[trigger] pre.rounds@[i].assignments@[m]).status == AssignmentStatus::Complete;
    if rest {
        assert forall|m: int| 0 <= m < done.len() implies (#[trigger] done[m]).status
            == AssignmentStatus::Complete by {
            if m != k {
                assert(done[m] == pre.rounds@[i].assignments@[m]);
            }
        }
    } else {
        let m = choose|m: int|
            0 <= m < pre.rounds@[i].assignments@.len() && m != k && (
            #[trigger] pre.rounds@[i].assignments@[m]).status != AssignmentStatus::Complete;
        assert(done[m] == pre.rounds@[i].assignments@[m]);
    }
}

/// An adapter for an unknown assignment changes nothing.
pub proof fn law_unknown_submission_changes_nothing<F>(
    pre: LayerTrainingStore<F>,
    id: Seq<char>,
    loss: F,
    steps: usize,
    post: LayerTrainingStore<F>,
)
    requires
        adapter_taken(pre, id, loss, steps, post),
        forall|a: int, b: int| !#[trigger] stands_at(pre.rounds@, id, a, b),
    ensures
        post.rounds@ == pre.rounds@,
        post.total_rounds_completed == pre.total_rounds_completed,
{
    lemma_index_from(pre.rounds@, holds_id(id), 0);
    let f = first_index(pre.rounds@, holds_id(id));
    if f < pre.rounds@.len() {
        assert(holds_id::<F>(id)(pre.rounds@[f]));
        lemma_index_from(pre.rounds@[f].assignments@, has_id(id), 0);
        let h = first_index(pre.rounds@[f].assignments@, has_id(id));
        assert(has_id::<F>(id)(pre.rounds@[f].assignments@[h]));
        assert(stands_at(pre.rounds@, id, f, h));
    }
}

/// The next round starts exactly when one was finished, none is under way and there are
/// examples. Then every finished round is closed, and the new one, which stands last, is the
/// only one under way: its assignments train two of the 28 layers on up to 500 examples each.
pub proof fn law_next_round_starts_when_all_are_finished<F>(
    pre: LayerTrainingStore<F>,
    dataset_size: usize,
    now: u64,
    post: LayerTrainingStore<F>,
    created: bool,
    i: int,
)
    requires
        advanced(pre, dataset_size, now, post, created),
    ensures
        created <==> dataset_size > 0 && (exists|j: int|
            0 <= j < pre.rounds@.len() && (#[trigger] pre.rounds@[j]).status
                == RoundStatus::Merging) && (forall|j: int|
            0 <= j < pre.rounds@.len() ==> (#[trigger] pre.rounds@[j]).status
                != RoundStatus::Active),
        !created ==> post == pre,
        created ==> post.rounds@.len() == pre.rounds@.len() + 1,
        created && 0 <= i < pre.rounds@.len() ==> {
            &&& post.rounds@[i].status == RoundStatus::Complete
            &&& same_round(post.rounds@[i], pre.rounds@[i])
            &&& post.rounds@[i].assignments == pre.rounds@[i].assignments
        },
        created ==> {
            let fresh = post.rounds@[pre.rounds@.len() as int];
            &&& fresh.status == RoundStatus::Active
            &&& fresh.total_layers == 28
            &&& fresh.created_at == now
            &&& fresh.assignments@.len() == 14
            &&& 0 <= i < 14 ==> {
                let a = fresh.assignments@[i];
                &&& a.layer_start == 2 * i
                &&& a.layer_end == 2 * i + 2
                &&& a.status == AssignmentStatus::Available
                &&& a.data_shard_size <= 500
                &&& dataset_size >= 500 * (i + 1) ==> a.data_shard_start == 500 * i
                    && a.data_shard_size == 500
            }
        },
{
    if created {
        let n = pre.rounds@.len() as int;
        let fresh = post.rounds@[n];
        assert(post.rounds@.last() == fresh);
        if 0 <= i < n {
            assert(post.rounds@.drop_last()[i] == post.rounds@[i]);
            assert(post.rounds@[i] == closed(pre.rounds@[i]));
            assert(!is_active(pre.rounds@[i]));
        }
        if 0 <= i < 14 {
            let size = dataset_size as int;
            assert(is_planned(fresh.assignments@[i], i, 28, 2, size, 500));
            lemma_next_offset(i, size, 500);
            if size >= 500 * (i + 1) {
                vstd::arithmetic::div_mod::lemma_small_mod((i * 500) as nat, size as nat);
            }
        }
    }
    if exists|j: int|
        0 <= j < pre.rounds@.len() && (#[trigger] pre.rounds@[j]).status == RoundStatus::Merging {
        let j = choose|j: int|
            0 <= j < pre.rounds@.len() && (#[trigger] pre.rounds@[j]).status
                == RoundStatus::Merging;
        assert(is_merging(pre.rounds@[j]));
    }
    if due(pre.rounds@) {
        assert forall|j: int| 0 <= j < pre.rounds@.len() implies (#[trigger] pre.rounds@[j]).status
            != RoundStatus::Active by {
            assert(!is_active(pre.rounds@[j]));
        }
    } else if forall|j: int|
        0 <= j < pre.rounds@.len() ==> (#[trigger] pre.rounds@[j]).status != RoundStatus::Active {
        assert forall|j: int| 0 <= j < pre.rounds@.len() implies !is_active(
            #[trigger] pre.rounds@[j],
        ) by {}
    }
}

proof fn lemma_first_round<F>(
    rounds: Seq<TrainingRound<F>>,
    p: spec_fn(TrainingRound<F>) -> bool,
    k: int,
)
    requires
        forall|x: TrainingRound<F>| #[trigger]
            p(x) == (x.status == RoundStatus::Active || x.status == RoundStatus::Merging),
        0 <= k <= rounds.len(),
        k < rounds.len() ==> rounds[k].status == RoundStatus::Active || rounds[k].status
            == RoundStatus::Merging,
        forall|j: int|
            0 <= j < k ==> (#[trigger] rounds[j]).status != RoundStatus::Active && rounds[j].status
                != RoundStatus::Merging,
    ensures
        first_index(rounds, p) == k,
{
    assert forall|j: int| 0 <= j < k implies !p(#[trigger] rounds[j]) by {
    }
    lemma_first_index_is(rounds, p, k);
}

/// The round that is shown is the earliest one that is trained or merged; there is none exactly
/// where every round is complete.
pub proof fn law_earliest_open_round_is_shown<F>(
    rounds: Seq<TrainingRound<F>>,
    r: Option<&TrainingRound<F>>,
    k: int,
)
    requires
        is_round_under_way(rounds, r),
        0 <= k <= rounds.len(),
        k < rounds.len() ==> rounds[k].status == RoundStatus::Active || rounds[k].status
            == RoundStatus::Merging,
        forall|j: int|
            0 <= j < k ==> (#[trigger] rounds[j]).status != RoundStatus::Active && rounds[j].status
                != RoundStatus::Merging,
    ensures
        k < rounds.len() ==> r is Some && *(r->0) == rounds[k],
        k == rounds.len() ==> r is None,
{
    assert forall|p: spec_fn(TrainingRound<F>) -> bool|
        (forall|x: TrainingRound<F>| #[trigger]
            p(x) == (x.status == RoundStatus::Active || x.status == RoundStatus::Merging)) implies (
    #[trigger] first_index(rounds, p)) == k by {
        lemma_first_round(rounds, p, k);
    }
}

proof fn lemma_push_assignments<F>(rounds: Seq<TrainingRound<F>>, r: TrainingRound<F>)
    ensures
        all_assignments(rounds.push(r)) == all_assignments(rounds) + r.assignments@,
{
    assert(rounds.push(r).drop_last() =~= rounds);
}

/// A further round adds its assignments, its complete ones and the losses that these reported to
/// the numbers, and nothing else.
pub proof fn law_each_round_adds_to_the_numbers<F>(
    rounds: Seq<TrainingRound<F>>,
    r: TrainingRound<F>,
    before: (usize, usize, usize, Seq<F>),
    after: (usize, usize, usize, Seq<F>),
)
    requires
        are_stats(rounds, before.0, before.1, before.2, before.3),
        are_stats(rounds.push(r), after.0, after.1, after.2, after.3),
    ensures
        after.0 == before.0 + 1,
        after.1 == before.1 + r.assignments@.len(),
        after.2 == before.2 + keep(
            r.assignments@,
            |a: LayerAssignment<F>| a.status == AssignmentStatus::Complete,
        ).len(),
        after.3.len() == before.3.len() + keep(
            r.assignments@,
            |a: LayerAssignment<F>|
                a.status == AssignmentStatus::Complete && a.training_loss is Some,
        ).len(),
        before.3 == after.3.subrange(0, before.3.len() as int),
        forall|k: int|
            0 <= k < r.assignments@.len() && (#[trigger] r.assignments@[k]).status
                == AssignmentStatus::Complete && r.assignments@[k].training_loss is Some
                ==> after.3.contains(r.assignments@[k].training_loss->0),
{
    let all = all_assignments(rounds);
    let more = r.assignments@;
    let zero = |a: LayerAssignment<F>| 0nat;
    let loss = |a: LayerAssignment<F>| a.training_loss->0;
    lemma_push_assignments(rounds, r);
    law_parts_are_counted_alone(all, more, is_complete(), zero);
    law_parts_are_counted_alone(all, more, complete_with_loss(), zero);
    let old_kept = keep(all, complete_with_loss());
    let new_kept = keep(more, complete_with_loss());
    assert((old_kept + new_kept).map_values(loss) =~= old_kept.map_values(loss)
        + new_kept.map_values(loss));
    lemma_keep_members(more, complete_with_loss());
    assert forall|k: int|
        0 <= k < more.len() && (#[trigger] more[k]).status == AssignmentStatus::Complete
            && more[k].training_loss is Some implies after.3.contains(more[k].training_loss->0) by {
        assert(complete_with_loss()(more[k]));
        assert(new_kept.contains(more[k]));
        let m = choose|m: int| 0 <= m < new_kept.len() && new_kept[m] == more[k];
        assert(after.3[old_kept.len() + m] == more[k].training_loss->0);
    }
    assert(before.3 =~= after.3.subrange(0, before.3.len() as int));
}

proof fn lemma_merging_positions<F>(rounds: Seq<TrainingRound<F>>)
    ensures
        forall|m: int|
            0 <= m < merging_positions(rounds).len() ==> 0 <= #[trigger] merging_positions(rounds)[m]
                < rounds.len() && rounds[merging_positions(rounds)[m]].status
                == RoundStatus::Merging,
        forall|i: int|
            0 <= i < rounds.len() && (#[trigger] rounds[i]).status == RoundStatus::Merging
                ==> merging_positions(rounds).contains(i),
        forall|m: int, n: int|
            0 <= m < n < merging_positions(rounds).len() ==> #[trigger] merging_positions(rounds)[m]
                < #[trigger] merging_positions(rounds)[n],
    decreases rounds.len(),
{
    let at = merging_positions(rounds);
    if rounds.len() > 0 {
        let init = rounds.drop_last();
        let before = merging_positions(init);
        lemma_merging_positions(init);
        assert forall|m: int| 0 <= m < at.len() implies 0 <= #[trigger] at[m] < rounds.len()
            && rounds[at[m]].status == RoundStatus::Merging by {
            if m < before.len() {
                assert(before[m] == at[m]);
                assert(init[before[m]] == rounds[at[m]]);
            }
        }
        assert forall|i: int|
            0 <= i < rounds.len() && (#[trigger] rounds[i]).status
                == RoundStatus::Merging implies at.contains(i) by {
            if i < init.len() {
                assert(init[i] == rounds[i]);
                assert(before.contains(i));
                let m = choose|m: int| 0 <= m < before.len() && before[m] == i;
                assert(at[m] == i);
            } else {
                assert(at[at.len() - 1] == i);
            }
        }
        assert forall|m: int, n: int| 0 <= m < n < at.len() implies #[trigger] at[m]
            < #[trigger] at[n] by {
            assert(before[m] == at[m]);
            if n < before.len() {
                assert(before[n] == at[n]);
            }
        }
    }
}

/// Whether a plan merges round `i`.
pub open spec fn merges_round(plan: MergePlan, i: int) -> bool {
    plan.round == i
}

/// Every finished round is merged, by one plan; a plan of another round there is not.
pub proof fn law_every_finished_round_is_merged<F>(
    plans: Seq<MergePlan>,
    rounds: Seq<TrainingRound<F>>,
    data_dir: Seq<char>,
)
    requires
        are_merge_plans(plans, rounds, data_dir),
        rounds.len() <= usize::MAX,
    ensures
        forall|i: int|
            0 <= i < rounds.len() && (#[trigger] rounds[i]).status == RoundStatus::Merging
                ==> exists|m: int| 0 <= m < plans.len() && merges_round(#[trigger] plans[m], i),
        forall|m: int|
            0 <= m < plans.len() ==> (#[trigger] plans[m]).round < rounds.len()
                && rounds[plans[m].round as int].status == RoundStatus::Merging,
        forall|m: int, n: int|
            0 <= m < n < plans.len() ==> (#[trigger] plans[m]).round < (#[trigger] plans[n]).round,
{
    let at = merging_positions(rounds);
    lemma_merging_positions(rounds);
    assert forall|i: int|
        0 <= i < rounds.len() && (#[trigger] rounds[i]).status
            == RoundStatus::Merging implies exists|m: int|
        0 <= m < plans.len() && merges_round(#[trigger] plans[m], i) by {
        assert(at.contains(i));
        let m = choose|m: int| 0 <= m < at.len() && at[m] == i;
        assert(is_merge_plan(plans[m], rounds, at[m], data_dir));
        assert(merges_round(plans[m], i));
    }
    assert forall|m: int| 0 <= m < plans.len() implies (#[trigger] plans[m]).round < rounds.len()
        && rounds[plans[m].round as int].status == RoundStatus::Merging by {
        assert(is_merge_plan(plans[m], rounds, at[m], data_dir));
    }
    assert forall|m: int, n: int| 0 <= m < n < plans.len() implies (#[trigger] plans[m]).round < (
    #[trigger] plans[n]).round by {
        assert(is_merge_plan(plans[m], rounds, at[m], data_dir));
        assert(is_merge_plan(plans[n], rounds, at[n], data_dir));
        assert(at[m] < at[n]);
    }
}

/// Whether a plan has this file for an assignment.
pub open spec fn has_file(files: Seq<(String, String)>, id: Seq<char>, path: Seq<char>) -> bool {
    exists|k: int| 0 <= k < files.len() && (#[trigger] files[k]).0@ == id && files[k].1@ == path
}

/// Whether an adapter of the assignment with this id was received.
pub open spec fn was_received<F>(assignments: Seq<LayerAssignment<F>>, id: String) -> bool {
    exists|k: int|
        0 <= k < assignments.len() && (#[trigger] assignments[k]).adapter_received
            && assignments[k].assignment_id == id
}

/// A plan collects every adapter that was received, in a file that names its layers, and none
/// that was not.
pub proof fn law_every_received_adapter_is_merged<F>(
    plan: MergePlan,
    rounds: Seq<TrainingRound<F>>,
    i: int,
    data_dir: Seq<char>,
)
    requires
        is_merge_plan(plan, rounds, i, data_dir),
        0 <= i < rounds.len(),
    ensures
        forall|k: int|
            0 <= k < rounds[i].assignments@.len() && (
            #[trigger] rounds[i].assignments@[k]).adapter_received ==> has_file(
                plan.files@,
                rounds[i].assignments@[k].assignment_id@,
                plan.adapter_dir@ + "/layers_"@ + decimal(
                    rounds[i].assignments@[k].layer_start as nat,
                ) + "_"@ + decimal(rounds[i].assignments@[k].layer_end as nat) + ".safetensors"@,
            ),
        forall|m: int|
            0 <= m < plan.files@.len() ==> was_received(
                rounds[i].assignments@,
                (#[trigger] plan.files@[m]).0,
            ),
        plan.files@.len() <= rounds[i].assignments@.len(),
{
    let all = rounds[i].assignments@;
    let got = keep(all, received());
    lemma_keep_members(all, received());
    lemma_keep_len(all, received());
    assert forall|k: int|
        0 <= k < all.len() && (#[trigger] all[k]).adapter_received implies has_file(
        plan.files@,
        all[k].assignment_id@,
        plan.adapter_dir@ + "/layers_"@ + decimal(all[k].layer_start as nat) + "_"@ + decimal(
            all[k].layer_end as nat,
        ) + ".safetensors"@,
    ) by {
        assert(received()(all[k]));
        assert(got.contains(all[k]));
        let m = choose|m: int| 0 <= m < got.len() && got[m] == all[k];
        assert(plan.files@[m].0 == got[m].assignment_id);
    }
    assert forall|m: int| 0 <= m < plan.files@.len() implies was_received(
        all,
        (#[trigger] plan.files@[m]).0,
    ) by {
        assert(received()(got[m]) && all.contains(got[m]));
        let k = choose|k: int| 0 <= k < all.len() && all[k] == got[m];
        assert(all[k].adapter_received && all[k].assignment_id == plan.files@[m].0);
    }
}

} // verus!
