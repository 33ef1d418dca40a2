//! Fine-tuning jobs: a dataset is divided into shards, nodes claim them and submit adapters.
//!
//! `F` is the number type of training parameters. Times are seconds since the epoch.
use crate::ids::fresh_id;
use crate::table::Table;
use crate::text::{is_blank, join, lines, str_eq};
use vstd::prelude::*;

verus! {

use crate::seqs::{first_index, keep, lemma_first_index_is, lemma_keep_step};
use crate::table::{as_map, distinct_keys, has_key, lemma_entry, lemma_has_key};
use crate::text::{joined, law_joined_in_two, lines_of, texts, trimmed};

#[derive(Debug, Clone, Copy, PartialEq, Eq, Structural)]
pub enum JobStatus {
    Pending,
    InProgress,
    Aggregating,
    Completed,
    Failed,
}

impl JobStatus {
    /// The variant's name.
    pub fn name(&self) -> (s: &'static str)
        ensures
            s@ == match *self {
                JobStatus::Pending => "Pending"@,
                JobStatus::InProgress => "InProgress"@,
                JobStatus::Aggregating => "Aggregating"@,
                JobStatus::Completed => "Completed"@,
                JobStatus::Failed => "Failed"@,
            },
    {
        match self {
            JobStatus::Pending => "Pending",
            JobStatus::InProgress => "InProgress",
            JobStatus::Aggregating => "Aggregating",
            JobStatus::Completed => "Completed",
            JobStatus::Failed => "Failed",
        }
    }
}

#[derive(Debug)]
pub enum ShardStatus {
    Available,
    Assigned { node_id: String },
    Completed { node_id: String },
    Failed { node_id: String, error: String },
}

/// A range of lines of a job's dataset.
#[derive(Debug)]
pub struct DataShard {
    pub shard_id: String,
    pub job_id: String,
    pub start_line: usize,
    pub end_line: usize,
    pub status: ShardStatus,
    pub assigned_at_secs: Option<u64>,
}

/// An adapter that a node trained on a shard.
#[derive(Debug)]
pub struct AdapterSubmission<F> {
    pub node_id: String,
    pub shard_id: String,
    /// The adapter's bytes in base64.
    pub adapter_b64: String,
    pub training_loss: F,
    pub training_steps: usize,
    pub submitted_at_secs: u64,
}

#[derive(Debug)]
pub struct TrainingJob<F> {
    pub job_id: String,
    pub status: JobStatus,
    pub base_model: String,
    pub lora_rank: u32,
    pub lora_alpha: F,
    pub num_epochs: u32,
    pub shard_count: usize,
    pub created_at_secs: u64,
    pub completed_at_secs: Option<u64>,
    /// Where the merged adapter is.
    pub output_adapter_path: Option<String>,
}

/// Progress of a job.
#[derive(Debug, Clone, Copy, PartialEq, Eq, Structural)]
pub struct JobStats {
    pub status: JobStatus,
    pub shards_total: usize,
    pub shards_available: usize,
    pub shards_assigned: usize,
    pub shards_completed: usize,
    pub adapters_submitted: usize,
}

/// Jobs, their shards and what was submitted for them.
#[derive(Debug)]
pub struct TrainingStore<F> {
    pub jobs: Table<TrainingJob<F>>,
    /// Shards by job.
    pub shards: Table<Vec<DataShard>>,
    /// Lines by shard.
    pub shard_data: Table<String>,
    /// Submissions by job.
    pub submissions: Table<Vec<AdapterSubmission<F>>>,
}

// ── Model ────────────────────────────────────────────────────────────────────

/// The lines of a dataset that are not blank.
pub open spec fn example_lines(dataset: Seq<char>) -> Seq<Seq<char>> {
    keep(lines_of(dataset), |l: Seq<char>| trimmed(l).len() > 0)
}

/// Number of chunks of `size` that `n` lines make.
pub open spec fn chunk_count(n: int, size: int) -> int {
    if n <= 0 {
        0
    } else {
        (n + size - 1) / size
    }
}

pub open spec fn chunk_end(n: int, size: int, i: int) -> int {
    if (i + 1) * size <= n {
        (i + 1) * size
    } else {
        n
    }
}

/// The text of chunk `i`.
pub open spec fn chunk_text(l: Seq<Seq<char>>, size: int, i: int) -> Seq<char> {
    joined(l.subrange(i * size, chunk_end(l.len() as int, size, i)), "\n"@)
}

/// Shard `i` of a job that has just been created.
pub open spec fn is_new_shard(s: DataShard, job_id: Seq<char>, n: int, size: int, i: int) -> bool {
    &&& s.shard_id@.len() == 36
    &&& s.job_id@ == job_id
    &&& s.start_line == i * size
    &&& s.end_line == chunk_end(n, size, i)
    &&& s.status is Available
    &&& s.assigned_at_secs is None
}

/// `data` with the texts of the first `n` shards.
pub open spec fn with_chunks(
    data: Map<Seq<char>, Seq<char>>,
    shards: Seq<DataShard>,
    l: Seq<Seq<char>>,
    size: int,
    n: int,
) -> Map<Seq<char>, Seq<char>>
    decreases n,
{
    if n <= 0 {
        data
    } else {
        with_chunks(data, shards, l, size, n - 1).insert(
            shards[n - 1].shard_id@,
            chunk_text(l, size, n - 1),
        )
    }
}

/// The texts of a map of strings.
pub open spec fn texts_of(m: Map<Seq<char>, String>) -> Map<Seq<char>, Seq<char>> {
    m.map_values(|s: String| s@)
}

pub open spec fn is_new_job<F>(
    j: TrainingJob<F>,
    job_id: Seq<char>,
    base_model: String,
    lora_rank: u32,
    lora_alpha: F,
    num_epochs: u32,
    shard_count: int,
    now: u64,
) -> bool {
    &&& j.job_id@ == job_id
    &&& j.status == JobStatus::Pending
    &&& j.base_model == base_model
    &&& j.lora_rank == lora_rank
    &&& j.lora_alpha == lora_alpha
    &&& j.num_epochs == num_epochs
    &&& j.shard_count == shard_count
    &&& j.created_at_secs == now
    &&& j.completed_at_secs is None
    &&& j.output_adapter_path is None
}

pub open spec fn is_available() -> spec_fn(DataShard) -> bool {
    |s: DataShard| s.status is Available
}

pub open spec fn is_assigned() -> spec_fn(DataShard) -> bool {
    |s: DataShard| s.status is Assigned
}

pub open spec fn is_completed() -> spec_fn(DataShard) -> bool {
    |s: DataShard| s.status is Completed
}

/// Everything of a shard but its status and assignment.
pub open spec fn same_shard(a: DataShard, b: DataShard) -> bool {
    a.shard_id == b.shard_id && a.job_id == b.job_id && a.start_line == b.start_line && a.end_line
        == b.end_line
}

pub open spec fn shard_assigned(pre: DataShard, post: DataShard, node_id: Seq<char>, now: u64) -> bool {
    &&& same_shard(post, pre)
    &&& post.status is Assigned
    &&& post.status->Assigned_node_id@ == node_id
    &&& post.assigned_at_secs == Some(now)
}

pub open spec fn shard_completed(pre: DataShard, post: DataShard, node_id: Seq<char>) -> bool {
    &&& same_shard(post, pre)
    &&& post.status is Completed
    &&& post.status->Completed_node_id@ == node_id
    &&& post.assigned_at_secs == pre.assigned_at_secs
}

/// `post` is `pre` with position `k` changed.
pub open spec fn changed_at<T>(pre: Seq<T>, post: Seq<T>, k: int) -> bool {
    post.len() == pre.len() && forall|i: int|
        0 <= i < pre.len() && i != k ==> #[trigger] post[i] == pre[i]
}

/// Whether a shard needs no more work.
pub open spec fn is_settled(s: DataShard) -> bool {
    s.status is Completed || s.status is Failed
}

pub open spec fn all_settled(s: Seq<DataShard>) -> bool {
    forall|i: int| 0 <= i < s.len() ==> is_settled(#[trigger] s[i])
}

/// Whether a shard has been out for longer than `timeout`; one without a time of assignment
/// counts as assigned at zero.
pub open spec fn shard_stale(s: DataShard, timeout: u64, now: u64) -> bool {
    let at = if s.assigned_at_secs is Some {
        s.assigned_at_secs->0 as int
    } else {
        0
    };
    s.status is Assigned && now - at > timeout
}

pub open spec fn shard_taken_back(s: DataShard, timeout: u64, now: u64) -> DataShard {
    if shard_stale(s, timeout, now) {
        DataShard { status: ShardStatus::Available, assigned_at_secs: None, ..s }
    } else {
        s
    }
}

pub open spec fn job_started<F>(j: TrainingJob<F>) -> TrainingJob<F> {
    if j.status == JobStatus::Pending {
        TrainingJob { status: JobStatus::InProgress, ..j }
    } else {
        j
    }
}

pub open spec fn is_submission<F>(
    s: AdapterSubmission<F>,
    node_id: Seq<char>,
    shard_id: Seq<char>,
    adapter_b64: String,
    loss: F,
    steps: usize,
    now: u64,
) -> bool {
    &&& s.node_id@ == node_id
    &&& s.shard_id@ == shard_id
    &&& s.adapter_b64 == adapter_b64
    &&& s.training_loss == loss
    &&& s.training_steps == steps
    &&& s.submitted_at_secs == now
}

/// Whether a job over these lines was created.
pub open spec fn job_created<F>(
    pre: TrainingStore<F>,
    base_model: String,
    l: Seq<Seq<char>>,
    shard_size: usize,
    lora_rank: u32,
    lora_alpha: F,
    num_epochs: u32,
    now: u64,
    job_id: Seq<char>,
    post: TrainingStore<F>,
) -> bool {
    let n = chunk_count(l.len() as int, shard_size as int);
    &&& post.submissions == pre.submissions
    &&& post.jobs@.dom().contains(job_id)
    &&& post.jobs@ == pre.jobs@.insert(job_id, post.jobs@[job_id])
    &&& is_new_job(
        post.jobs@[job_id],
        job_id,
        base_model,
        lora_rank,
        lora_alpha,
        num_epochs,
        n,
        now,
    )
    &&& post.shards@ == pre.shards@.insert(job_id, post.shards@[job_id])
    &&& post.shards@[job_id]@.len() == n
    &&& forall|i: int|
        0 <= i < n ==> is_new_shard(
            #[trigger] post.shards@[job_id]@[i],
            job_id,
            l.len() as int,
            shard_size as int,
            i,
        )
    &&& texts_of(post.shard_data@) == with_chunks(
        texts_of(pre.shard_data@),
        post.shards@[job_id]@,
        l,
        shard_size as int,
        n,
    )
}

/// What was submitted, after one more adapter was.
pub open spec fn submission_kept<F>(
    pre: Map<Seq<char>, Vec<AdapterSubmission<F>>>,
    job_id: Seq<char>,
    post: Map<Seq<char>, Vec<AdapterSubmission<F>>>,
    node_id: Seq<char>,
    shard_id: Seq<char>,
    adapter_b64: String,
    loss: F,
    steps: usize,
    now: u64,
) -> bool {
    let before = if pre.dom().contains(job_id) {
        pre[job_id]@
    } else {
        Seq::empty()
    };
    let after = post[job_id]@;
    &&& post == pre.insert(job_id, post[job_id])
    &&& after.len() == before.len() + 1
    &&& after.drop_last() == before
    &&& is_submission(after.last(), node_id, shard_id, adapter_b64, loss, steps, now)
}

pub open spec fn with_shard_id(id: Seq<char>) -> spec_fn(DataShard) -> bool {
    |s: DataShard| s.shard_id@ == id
}

/// The shards after shard `id` was submitted by a node.
pub open spec fn shards_submitted(
    pre: Seq<DataShard>,
    id: Seq<char>,
    node_id: Seq<char>,
    post: Seq<DataShard>,
) -> bool {
    let k = first_index(pre, with_shard_id(id));
    if k < pre.len() {
        changed_at(pre, post, k) && shard_completed(pre[k], post[k], node_id)
    } else {
        post == pre
    }
}

/// The store after a node asked for a shard of a job, and what it got: the first available shard
/// with its lines.
pub open spec fn shard_claimed<F>(
    old_store: TrainingStore<F>,
    job_id: Seq<char>,
    node_id: Seq<char>,
    now: u64,
    new_store: TrainingStore<F>,
    r: Option<(String, String)>,
) -> bool {
    let known = old_store.shards@.dom().contains(job_id);
    let pre = old_store.shards@[job_id]@;
    let k = first_index(pre, is_available());
    if known && k < pre.len() {
        let post = new_store.shards@[job_id]@;
        let id = pre[k].shard_id@;
        &&& new_store.shards@ == old_store.shards@.insert(job_id, new_store.shards@[job_id])
        &&& changed_at(pre, post, k)
        &&& shard_assigned(pre[k], post[k], node_id, now)
        &&& new_store.jobs@ == if old_store.jobs@.dom().contains(job_id) {
            old_store.jobs@.insert(job_id, job_started(old_store.jobs@[job_id]))
        } else {
            old_store.jobs@
        }
        &&& r is Some == old_store.shard_data@.dom().contains(id)
        &&& r is Some ==> (r->0).0@ == id && (r->0).1 == old_store.shard_data@[id]
    } else {
        r is None && new_store == old_store
    }
}

/// The shards and the job after a node submitted the adapter of a shard.
pub open spec fn job_advanced<F>(
    old_store: TrainingStore<F>,
    job_id: Seq<char>,
    shard_id: Seq<char>,
    node_id: Seq<char>,
    new_store: TrainingStore<F>,
) -> bool {
    let known = old_store.shards@.dom().contains(job_id);
    let post = new_store.shards@[job_id]@;
    &&& if known {
        new_store.shards@ == old_store.shards@.insert(job_id, new_store.shards@[job_id])
            && shards_submitted(old_store.shards@[job_id]@, shard_id, node_id, post)
    } else {
        new_store.shards == old_store.shards
    }
    &&& new_store.jobs@ == if known && all_settled(post) && old_store.jobs@.dom().contains(job_id) {
        old_store.jobs@.insert(
            job_id,
            TrainingJob { status: JobStatus::Aggregating, ..old_store.jobs@[job_id] },
        )
    } else {
        old_store.jobs@
    }
}

impl<F> TrainingStore<F> {
    /// No key occurs twice.
    pub open spec fn wf(self) -> bool {
        self.jobs.wf() && self.shards.wf() && self.shard_data.wf() && self.submissions.wf()
    }
}

// ── Lemmas ───────────────────────────────────────────────────────────────────

proof fn lemma_chunks(n: int, size: int, i: int)
    requires
        size > 0,
        n >= 0,
        i >= 0,
    ensures
        (i < chunk_count(n, size)) == (i * size < n),
        i == chunk_count(n, size) ==> i * size >= n,
        (i + 1) * size == i * size + size,
{
    assert((i + 1) * size == i * size + size) by (nonlinear_arith);
    if n > 0 {
        let c = (n + size - 1) / size;
        vstd::arithmetic::div_mod::lemma_fundamental_div_mod(n + size - 1, size);
        vstd::arithmetic::div_mod::lemma_mod_bound(n + size - 1, size);
        let rem = (n + size - 1) % size;
        if i < c {
            assert(i * size <= (c - 1) * size) by (nonlinear_arith)
                requires
                    i <= c - 1,
                    size > 0,
            ;
            assert((c - 1) * size == size * c - size) by (nonlinear_arith);
        } else {
            assert(i * size >= c * size) by (nonlinear_arith)
                requires
                    i >= c,
                    size > 0,
            ;
            assert(c * size == size * c) by (nonlinear_arith);
        }
    } else {
        assert(i * size >= 0) by (nonlinear_arith)
            requires
                i >= 0,
                size > 0,
        ;
    }
}

fn nonblank_lines(dataset: &str) -> (r: Vec<String>)
    ensures
        texts(r@) == example_lines(dataset@),
{
    let all = lines(dataset);
    let ghost p = |l: Seq<char>| trimmed(l).len() > 0;
    let ghost src = lines_of(dataset@);
    let mut r: Vec<String> = Vec::new();
    assert(texts(r@) == keep(src.subrange(0, 0), p));
    let mut i: usize = 0;
    while i < all.len()
        invariant
            i <= all@.len(),
            src == texts(all@),
            p == (|l: Seq<char>| trimmed(l).len() > 0),
            texts(r@) == keep(src.subrange(0, i as int), p),
        decreases all@.len() - i,
    {
        proof {
            lemma_keep_step(src, p, i as int);
            assert(src[i as int] == all@[i as int]@);
        }
        if !is_blank(all[i].as_str()) {
            let ghost before = r@;
            r.push(all[i].clone());
            assert(texts(r@) == texts(before).push(all@[i as int]@));
        }
        i = i + 1;
    }
    assert(src.subrange(0, src.len() as int) == src);
    r
}

impl<F: Copy> TrainingStore<F> {
    /// No jobs.
    pub fn new() -> (s: Self)
        ensures
            s.wf(),
            s.jobs@ == Map::<Seq<char>, TrainingJob<F>>::empty(),
            s.shards@ == Map::<Seq<char>, Vec<DataShard>>::empty(),
            s.shard_data@ == Map::<Seq<char>, String>::empty(),
            s.submissions@ == Map::<Seq<char>, Vec<AdapterSubmission<F>>>::empty(),
    {
        TrainingStore {
            jobs: Table::new(),
            shards: Table::new(),
            shard_data: Table::new(),
            submissions: Table::new(),
        }
    }

    /// Divides a dataset of one example per line into shards of `shard_size` lines and starts
    /// a job over them. Returns the job's id.
    pub fn create_job(
        &mut self,
        base_model: String,
        dataset_jsonl: &str,
        shard_size: usize,
        lora_rank: u32,
        lora_alpha: F,
        num_epochs: u32,
        now: u64,
    ) -> (job_id: String)
        requires
            old(self).wf(),
            shard_size > 0,
        ensures
            final(self).wf(),
            job_id@.len() == 36,
            job_created(
                *old(self),
                base_model,
                example_lines(dataset_jsonl@),
                shard_size,
                lora_rank,
                lora_alpha,
                num_epochs,
                now,
                job_id@,
                *final(self),
            ),
    {
        let job_id = fresh_id();
        let l = nonblank_lines(dataset_jsonl);
        let n: usize = l.len();
        let ghost ll = example_lines(dataset_jsonl@);
        let ghost count = chunk_count(n as int, shard_size as int);
        let ghost data0 = texts_of(self.shard_data@);
        let mut shards: Vec<DataShard> = Vec::new();
        let mut start: usize = 0;
        let ghost mut i: int = 0;
        proof {
            lemma_chunks(n as int, shard_size as int, 0);
            assert(0 * shard_size == 0) by (nonlinear_arith);
        }
        while start < n
            invariant
                shard_size > 0,
                n == l@.len(),
                ll == texts(l@),
                self.jobs == old(self).jobs,
                self.shards == old(self).shards,
                self.submissions == old(self).submissions,
                self.shard_data.wf(),
                0 <= i == shards@.len(),
                i <= count,
                count == chunk_count(n as int, shard_size as int),
                start == if i * shard_size <= n {
                    i * shard_size
                } else {
                    n as int
                },
                forall|k: int|
                    0 <= k < i ==> is_new_shard(
                        #[trigger] shards@[k],
                        job_id@,
                        n as int,
                        shard_size as int,
                        k,
                    ),
                texts_of(self.shard_data@) == with_chunks(data0, shards@, ll, shard_size as int, i),
            decreases count - i,
        {
            proof {
                lemma_chunks(n as int, shard_size as int, i);
                lemma_chunks(n as int, shard_size as int, i + 1);
            }
            let end: usize = if shard_size <= n - start {
                start + shard_size
            } else {
                n
            };
            let shard_id = fresh_id();
            let content = join(&l, start, end, "\n");
            let ghost before = shards@;
            let ghost data = self.shard_data@;
            self.shard_data.insert(shard_id.clone(), content);
            shards.push(
                DataShard {
                    shard_id,
                    job_id: job_id.clone(),
                    start_line: start,
                    end_line: end,
                    status: ShardStatus::Available,
                    assigned_at_secs: None,
                },
            );
            proof {
                lemma_with_chunks_prefix(data0, before, shards@, ll, shard_size as int, i);
                assert(texts_of(data.insert(shard_id@, content)) =~= texts_of(data).insert(
                    shard_id@,
                    content@,
                ));
                i = i + 1;
            }
            start = end;
        }
        proof {
            lemma_chunks(n as int, shard_size as int, i);
        }
        let job = TrainingJob {
            job_id: job_id.clone(),
            status: JobStatus::Pending,
            base_model,
            lora_rank,
            lora_alpha,
            num_epochs,
            shard_count: shards.len(),
            created_at_secs: now,
            completed_at_secs: None,
            output_adapter_path: None,
        };
        self.jobs.insert(job_id.clone(), job);
        self.shards.insert(job_id.clone(), shards);
        job_id
    }

    /// Hands the first available shard of a job to a node. Returns the shard's id and lines.
    pub fn claim_next_shard(&mut self, job_id: &str, node_id: &str, now: u64) -> (r: Option<
        (String, String),
    >)
        requires
            old(self).wf(),
        ensures
            final(self).wf(),
            final(self).submissions == old(self).submissions,
            final(self).shard_data == old(self).shard_data,
            shard_claimed(*old(self), job_id@, node_id@, now, *final(self), r),
    {
        let j = self.shards.index(job_id);
        if j >= self.shards.entries.len() {
            return None;
        }
        proof {
            lemma_has_key(self.shards.entries@, job_id@);
        }
        let ghost pre = self.shards@[job_id@]@;
        let mut k: usize = 0;
        while k < self.shards.entries[j].1.len() && !is_free(&self.shards.entries[j].1[k])
            invariant
                j < self.shards.entries@.len(),
                pre == self.shards.entries@[j as int].1@,
                k <= pre.len(),
                forall|m: int| 0 <= m < k ==> !is_available()(#[trigger] pre[m]),
            decreases pre.len() - k,
        {
            k = k + 1;
        }
        proof {
            lemma_first_index_is(pre, is_available(), k as int);
        }
        if k >= self.shards.entries[j].1.len() {
            return None;
        }
        let shard_id = self.shards.entries[j].1[k].shard_id.clone();
        if let Some(list) = self.shards.get_mut(job_id) {
            list[k].status = ShardStatus::Assigned { node_id: node_id.to_owned() };
            list[k].assigned_at_secs = Some(now);
        }
        if let Some(job) = self.jobs.get_mut(job_id) {
            if job.status == JobStatus::Pending {
                job.status = JobStatus::InProgress;
            }
        }
        match self.shard_data.get(shard_id.as_str()) {
            Some(content) => Some((shard_id, content.clone())),
            None => None,
        }
    }

    /// Takes the adapter of a shard; once no shard of the job needs work any more, the job's
    /// adapters can be merged. Adapters are kept for unknown jobs and shards too.
    pub fn submit_adapter(
        &mut self,
        job_id: &str,
        shard_id: &str,
        node_id: &str,
        adapter_b64: String,
        loss: F,
        steps: usize,
        now: u64,
    ) -> (accepted: bool)
        requires
            old(self).wf(),
        ensures
            final(self).wf(),
            accepted,
            final(self).shard_data == old(self).shard_data,
            job_advanced(*old(self), job_id@, shard_id@, node_id@, *final(self)),
            submission_kept(
                old(self).submissions@,
                job_id@,
                final(self).submissions@,
                node_id@,
                shard_id@,
                adapter_b64,
                loss,
                steps,
                now,
            ),
    {
        let mut all_done: bool = false;
        if let Some(list) = self.shards.get_mut(job_id) {
            let ghost pre = list@;
            let mut k: usize = 0;
            while k < list.len() && !str_eq(list[k].shard_id.as_str(), shard_id)
                invariant
                    list@ == pre,
                    k <= pre.len(),
                    forall|m: int| 0 <= m < k ==> !with_shard_id(shard_id@)(#[trigger] pre[m]),
                decreases pre.len() - k,
            {
                k = k + 1;
            }
            proof {
                lemma_first_index_is(pre, with_shard_id(shard_id@), k as int);
            }
            if k < list.len() {
                list[k].status = ShardStatus::Completed { node_id: node_id.to_owned() };
            }
            all_done = every_settled(list);
        }
        let submission = AdapterSubmission {
            node_id: node_id.to_owned(),
            shard_id: shard_id.to_owned(),
            adapter_b64,
            training_loss: loss,
            training_steps: steps,
            submitted_at_secs: now,
        };
        if self.submissions.contains(job_id) {
            if let Some(list) = self.submissions.get_mut(job_id) {
                list.push(submission);
                assert(list@.drop_last() == old(self).submissions@[job_id@]@);
            }
        } else {
            let mut list: Vec<AdapterSubmission<F>> = Vec::new();
            list.push(submission);
            assert(list@.drop_last() == Seq::<AdapterSubmission<F>>::empty());
            self.submissions.insert(job_id.to_owned(), list);
        }
        if all_done {
            if let Some(job) = self.jobs.get_mut(job_id) {
                job.status = JobStatus::Aggregating;
            }
        }
        true
    }
}

proof fn lemma_with_chunks_prefix(
    data: Map<Seq<char>, Seq<char>>,
    a: Seq<DataShard>,
    b: Seq<DataShard>,
    l: Seq<Seq<char>>,
    size: int,
    n: int,
)
    requires
        0 <= n <= a.len() <= b.len(),
        forall|i: int| 0 <= i < n ==> a[i] == #[trigger] b[i],
    ensures
        with_chunks(data, a, l, size, n) == with_chunks(data, b, l, size, n),
    decreases n,
{
    if n > 0 {
        lemma_with_chunks_prefix(data, a, b, l, size, n - 1);
        assert(a[n - 1] == b[n - 1]);
    }
}

fn is_free(s: &DataShard) -> (r: bool)
    ensures
        r == (s.status is Available),
{
    match &s.status {
        ShardStatus::Available => true,
        _ => false,
    }
}

fn every_settled(shards: &Vec<DataShard>) -> (r: bool)
    ensures
        r == all_settled(shards@),
{
    let mut i: usize = 0;
    while i < shards.len()
        invariant
            i <= shards@.len(),
            forall|m: int| 0 <= m < i ==> is_settled(#[trigger] shards@[m]),
        decreases shards@.len() - i,
    {
        let done: bool = match &shards[i].status {
            ShardStatus::Completed { node_id } => true,
            ShardStatus::Failed { node_id, error } => true,
            _ => false,
        };
        if !done {
            assert(!is_settled(shards@[i as int]));
            return false;
        }
        i = i + 1;
    }
    true
}

impl<F: Copy> TrainingStore<F> {
    /// A job.
    pub fn get_job(&self, job_id: &str) -> (r: Option<&TrainingJob<F>>)
        ensures
            match r {
                Some(j) => self.jobs@.dom().contains(job_id@) && *j == self.jobs@[job_id@],
                None => !self.jobs@.dom().contains(job_id@),
            },
    {
        self.jobs.get(job_id)
    }

    /// All jobs with their ids, in the order of creation.
    pub fn list_jobs(&self) -> (r: &Vec<(String, TrainingJob<F>)>)
        ensures
            as_map(r@) == self.jobs@,
            self.jobs.wf() ==> distinct_keys(r@),
    {
        &self.jobs.entries
    }

    /// What was submitted for a job.
    pub fn get_submissions(&self, job_id: &str) -> (r: Option<&Vec<AdapterSubmission<F>>>)
        ensures
            match r {
                Some(v) => self.submissions@.dom().contains(job_id@) && *v
                    == self.submissions@[job_id@],
                None => !self.submissions@.dom().contains(job_id@),
            },
    {
        self.submissions.get(job_id)
    }

    /// Progress of a job.
    pub fn job_stats(&self, job_id: &str) -> (r: Option<JobStats>)
        ensures
            r is Some == (self.jobs@.dom().contains(job_id@) && self.shards@.dom().contains(
                job_id@,
            )),
            r is Some ==> {
                let s = self.shards@[job_id@]@;
                &&& r->0.status == self.jobs@[job_id@].status
                &&& r->0.shards_total == s.len()
                &&& r->0.shards_available == keep(s, is_available()).len()
                &&& r->0.shards_assigned == keep(s, is_assigned()).len()
                &&& r->0.shards_completed == keep(s, is_completed()).len()
                &&& r->0.adapters_submitted == if self.submissions@.dom().contains(job_id@) {
                    self.submissions@[job_id@]@.len()
                } else {
                    0
                }
            },
    {
        let job = match self.jobs.get(job_id) {
            Some(j) => j,
            None => {
                return None;
            },
        };
        let shards = match self.shards.get(job_id) {
            Some(s) => s,
            None => {
                return None;
            },
        };
        let adapters_submitted: usize = match self.submissions.get(job_id) {
            Some(v) => v.len(),
            None => 0,
        };
        let mut available: usize = 0;
        let mut assigned: usize = 0;
        let mut completed: usize = 0;
        let ghost s = shards@;
        let mut i: usize = 0;
        while i < shards.len()
            invariant
                i <= s.len(),
                s == shards@,
                available <= i,
                assigned <= i,
                completed <= i,
                available == keep(s.subrange(0, i as int), is_available()).len(),
                assigned == keep(s.subrange(0, i as int), is_assigned()).len(),
                completed == keep(s.subrange(0, i as int), is_completed()).len(),
            decreases s.len() - i,
        {
            proof {
                lemma_keep_step(s, is_available(), i as int);
                lemma_keep_step(s, is_assigned(), i as int);
                lemma_keep_step(s, is_completed(), i as int);
            }
            match &shards[i].status {
                ShardStatus::Available => {
                    available = available + 1;
                },
                ShardStatus::Assigned { node_id } => {
                    assigned = assigned + 1;
                },
                ShardStatus::Completed { node_id } => {
                    completed = completed + 1;
                },
                ShardStatus::Failed { node_id, error } => {},
            }
            i = i + 1;
        }
        assert(s.subrange(0, s.len() as int) == s);
        Some(
            JobStats {
                status: job.status,
                shards_total: shards.len(),
                shards_available: available,
                shards_assigned: assigned,
                shards_completed: completed,
                adapters_submitted,
            },
        )
    }

    /// Takes shards back that have been out for longer than `timeout_secs`.
    pub fn reassign_stale_shards(&mut self, timeout_secs: u64, now: u64)
        requires
            old(self).wf(),
        ensures
            final(self).wf(),
            final(self).jobs == old(self).jobs,
            final(self).shard_data == old(self).shard_data,
            final(self).submissions == old(self).submissions,
            final(self).shards@.dom() == old(self).shards@.dom(),
            forall|id: Seq<char>| #[trigger]
                old(self).shards@.dom().contains(id) ==> final(self).shards@[id]@ == old(
                    self,
                ).shards@[id]@.map_values(|s: DataShard| shard_taken_back(s, timeout_secs, now)),
    {
        let ghost pre = self.shards.entries@;
        let ghost back = |s: DataShard| shard_taken_back(s, timeout_secs, now);
        let mut j: usize = 0;
        while j < self.shards.entries.len()
            invariant
                j <= pre.len(),
                pre == old(self).shards.entries@,
                distinct_keys(pre),
                self.jobs == old(self).jobs,
                self.shard_data == old(self).shard_data,
                self.submissions == old(self).submissions,
                self.shards.entries@.len() == pre.len(),
                back == (|s: DataShard| shard_taken_back(s, timeout_secs, now)),
                forall|i: int|
                    0 <= i < pre.len() ==> (#[trigger] self.shards.entries@[i]).0 == pre[i].0,
                forall|i: int|
                    0 <= i < j ==> (#[trigger] self.shards.entries@[i]).1@ == pre[i].1@.map_values(
                        back,
                    ),
                forall|i: int| j <= i < pre.len() ==> #[trigger] self.shards.entries@[i] == pre[i],
            decreases pre.len() - j,
        {
            let ghost s = pre[j as int].1@;
            let mut k: usize = 0;
            while k < self.shards.entries[j].1.len()
                invariant
                    j < pre.len(),
                    pre == old(self).shards.entries@,
                    self.jobs == old(self).jobs,
                    self.shard_data == old(self).shard_data,
                    self.submissions == old(self).submissions,
                    self.shards.entries@.len() == pre.len(),
                    back == (|s: DataShard| shard_taken_back(s, timeout_secs, now)),
                    s == pre[j as int].1@,
                    k <= s.len(),
                    forall|i: int|
                        0 <= i < pre.len() ==> (#[trigger] self.shards.entries@[i]).0 == pre[i].0,
                    forall|i: int|
                        0 <= i < j ==> (#[trigger] self.shards.entries@[i]).1@
                            == pre[i].1@.map_values(back),
                    forall|i: int|
                        j < i < pre.len() ==> #[trigger] self.shards.entries@[i] == pre[i],
                    self.shards.entries@[j as int].1@.len() == s.len(),
                    forall|m: int|
                        0 <= m < k ==> #[trigger] self.shards.entries@[j as int].1@[m] == back(
                            s[m],
                        ),
                    forall|m: int|
                        k <= m < s.len() ==> #[trigger] self.shards.entries@[j as int].1@[m]
                            == s[m],
                decreases s.len() - k,
            {
                assert(self.shards.entries@[j as int].1@[k as int] == s[k as int]);
                let out: bool = match &self.shards.entries[j].1[k].status {
                    ShardStatus::Assigned { node_id } => true,
                    _ => false,
                };
                let at: u64 = match self.shards.entries[j].1[k].assigned_at_secs {
                    Some(t) => t,
                    None => 0,
                };
                if out && now.saturating_sub(at) > timeout_secs {
                    self.shards.entries[j].1[k].status = ShardStatus::Available;
                    self.shards.entries[j].1[k].assigned_at_secs = None;
                }
                k = k + 1;
            }
            assert(self.shards.entries@[j as int].1@ == s.map_values(back));
            j = j + 1;
        }
        proof {
            let post = self.shards.entries@;
            assert forall|id: Seq<char>| has_key(post, id) == has_key(pre, id) by {
                if has_key(post, id) {
                    let i = choose|i: int| 0 <= i < post.len() && (#[trigger] post[i]).0@ == id;
                    assert(pre[i].0@ == id);
                }
                if has_key(pre, id) {
                    let i = choose|i: int| 0 <= i < pre.len() && (#[trigger] pre[i]).0@ == id;
                    assert(post[i].0@ == id);
                }
            }
            assert(self.shards@.dom() =~= old(self).shards@.dom());
            assert forall|id: Seq<char>| #[trigger]
                old(self).shards@.dom().contains(id) implies self.shards@[id]@ == old(
                self,
            ).shards@[id]@.map_values(back) by {
                let i = choose|i: int| 0 <= i < pre.len() && (#[trigger] pre[i]).0@ == id;
                assert(post[i].0@ == id);
                lemma_entry(pre, i);
                lemma_entry(post, i);
            }
        }
    }
}

// ── Laws ─────────────────────────────────────────────────────────────────────

/// The shards of a new job hold every line of the dataset exactly once, in order.
pub proof fn law_shards_partition_lines(
    shards: Seq<DataShard>,
    job_id: Seq<char>,
    n: int,
    size: int,
)
    requires
        size > 0,
        n >= 0,
        shards.len() == chunk_count(n, size),
        forall|i: int|
            0 <= i < shards.len() ==> is_new_shard(#[trigger] shards[i], job_id, n, size, i),
    ensures
        n > 0 ==> shards.len() > 0 && shards[0].start_line == 0 && shards.last().end_line == n,
        n == 0 ==> shards.len() == 0,
        forall|i: int|
            0 <= i < shards.len() ==> (#[trigger] shards[i]).start_line < shards[i].end_line <= n
                && shards[i].end_line - shards[i].start_line <= size,
        forall|i: int|
            0 < i < shards.len() ==> (#[trigger] shards[i]).start_line == shards[i - 1].end_line,
{
    let c = chunk_count(n, size);
    assert(0 * size == 0) by (nonlinear_arith);
    lemma_chunks(n, size, 0);
    assert forall|i: int| 0 <= i < shards.len() implies (#[trigger] shards[i]).start_line
        < shards[i].end_line <= n && shards[i].end_line - shards[i].start_line <= size by {
        lemma_chunks(n, size, i);
        assert(is_new_shard(shards[i], job_id, n, size, i));
    }
    assert forall|i: int| 0 < i < shards.len() implies (#[trigger] shards[i]).start_line
        == shards[i - 1].end_line by {
        lemma_chunks(n, size, i);
        lemma_chunks(n, size, i - 1);
        assert(is_new_shard(shards[i], job_id, n, size, i));
        assert(is_new_shard(shards[i - 1], job_id, n, size, i - 1));
    }
    if n > 0 {
        assert(is_new_shard(shards[0], job_id, n, size, 0));
        lemma_chunks(n, size, c);
        lemma_chunks(n, size, c - 1);
        assert(is_new_shard(shards[c - 1], job_id, n, size, c - 1));
    }
}

/// A shard that a node holds is not handed out again before it is taken back.
pub proof fn law_assigned_shard_is_not_available(
    pre: DataShard,
    post: DataShard,
    node_id: Seq<char>,
    now: u64,
)
    requires
        shard_assigned(pre, post, node_id, now),
    ensures
        !is_available()(post),
        !is_settled(post),
{
}

/// A shard that was taken back can be claimed again; a settled one is never taken back.
pub proof fn law_only_stale_shards_are_taken_back(s: DataShard, timeout: u64, now: u64)
    ensures
        shard_stale(s, timeout, now) ==> is_available()(shard_taken_back(s, timeout, now)),
        is_settled(s) ==> shard_taken_back(s, timeout, now) == s,
        same_shard(shard_taken_back(s, timeout, now), s),
{
}

/// Whether no two shards have one id.
pub open spec fn distinct_shards(shards: Seq<DataShard>) -> bool {
    forall|i: int, j: int|
        0 <= i < j < shards.len() ==> (#[trigger] shards[i]).shard_id@ != (
        #[trigger] shards[j]).shard_id@
}

proof fn lemma_chunk_stored(
    data: Map<Seq<char>, Seq<char>>,
    shards: Seq<DataShard>,
    l: Seq<Seq<char>>,
    size: int,
    n: int,
    i: int,
)
    requires
        distinct_shards(shards),
        0 <= i < n <= shards.len(),
    ensures
        with_chunks(data, shards, l, size, n).dom().contains(shards[i].shard_id@),
        with_chunks(data, shards, l, size, n)[shards[i].shard_id@] == chunk_text(l, size, i),
    decreases n,
{
    if i < n - 1 {
        lemma_chunk_stored(data, shards, l, size, n - 1, i);
        assert(shards[i].shard_id@ != shards[n - 1].shard_id@);
    }
}

/// The lines that are stored for a shard are those of the dataset from its first to its last,
/// joined by line feeds.
pub proof fn law_shard_holds_its_lines(
    data: Map<Seq<char>, Seq<char>>,
    shards: Seq<DataShard>,
    job_id: Seq<char>,
    l: Seq<Seq<char>>,
    size: int,
    i: int,
)
    requires
        size > 0,
        shards.len() == chunk_count(l.len() as int, size),
        distinct_shards(shards),
        forall|k: int|
            0 <= k < shards.len() ==> is_new_shard(
                #[trigger] shards[k],
                job_id,
                l.len() as int,
                size,
                k,
            ),
        0 <= i < shards.len(),
    ensures
        ({
            let stored = with_chunks(data, shards, l, size, shards.len() as int);
            &&& stored.dom().contains(shards[i].shard_id@)
            &&& stored[shards[i].shard_id@] == joined(
                l.subrange(shards[i].start_line as int, shards[i].end_line as int),
                "\n"@,
            )
        }),
{
    lemma_chunk_stored(data, shards, l, size, shards.len() as int, i);
    assert(is_new_shard(shards[i], job_id, l.len() as int, size, i));
}

/// The texts of the shards, in order, joined by line feeds, are all the lines of the dataset that
/// are not blank, joined by line feeds: no example is lost, repeated or moved.
#[verifier::spinoff_prover]
pub proof fn law_shards_hold_the_dataset(
    shards: Seq<DataShard>,
    job_id: Seq<char>,
    l: Seq<Seq<char>>,
    size: int,
    k: int,
)
    requires
        size > 0,
        shards.len() == chunk_count(l.len() as int, size),
        forall|i: int|
            0 <= i < shards.len() ==> is_new_shard(
                #[trigger] shards[i],
                job_id,
                l.len() as int,
                size,
                i,
            ),
        1 <= k <= shards.len(),
    ensures
        joined(Seq::new(k as nat, |i: int| chunk_text(l, size, i)), "\n"@) == joined(
            l.subrange(0, shards[k - 1].end_line as int),
            "\n"@,
        ),
    decreases k,
{
    let n = l.len() as int;
    let all = Seq::new(k as nat, |i: int| chunk_text(l, size, i));
    let start = shards[k - 1].start_line as int;
    let end = shards[k - 1].end_line as int;
    assert(is_new_shard(shards[k - 1], job_id, n, size, k - 1));
    assert(0 <= start < end <= n && (k == 1 ==> start == 0) && (k > 1 ==> 0 < start
        && start == shards[k - 2].end_line)) by {
        law_shards_partition_lines(shards, job_id, n, size);
        if k > 1 {
            assert(shards[k - 2].start_line < shards[k - 2].end_line);
        }
    }
    assert(all[k - 1] == joined(l.subrange(start, end), "\n"@));
    if k == 1 {
        assert(all.drop_last() =~= Seq::<Seq<char>>::empty());
    } else {
        law_shards_hold_the_dataset(shards, job_id, l, size, k - 1);
        let before = Seq::new((k - 1) as nat, |i: int| chunk_text(l, size, i));
        assert(all.drop_last() =~= before);
        law_joined_in_two(l.subrange(0, start), l.subrange(start, end), "\n"@);
        assert(l.subrange(0, start) + l.subrange(start, end) =~= l.subrange(0, end));
    }
}

/// A dataset's examples are its lines that are not blank, all of them and in order.
pub proof fn law_examples_are_the_lines(dataset: Seq<char>, i: int)
    requires
        0 <= i < lines_of(dataset).len(),
    ensures
        trimmed(lines_of(dataset)[i]).len() > 0 <==> example_lines(dataset).contains(
            lines_of(dataset)[i],
        ),
        forall|k: int|
            0 <= k < example_lines(dataset).len() ==> trimmed(
                #[trigger] example_lines(dataset)[k],
            ).len() > 0,
        (forall|k: int|
            0 <= k < lines_of(dataset).len() ==> trimmed(#[trigger] lines_of(dataset)[k]).len() > 0)
            ==> example_lines(dataset) == lines_of(dataset),
{
    let all = lines_of(dataset);
    let p = |l: Seq<char>| trimmed(l).len() > 0;
    crate::seqs::lemma_keep_members(all, p);
    let kept = keep(all, p);
    assert forall|k: int| 0 <= k < kept.len() implies trimmed(#[trigger] kept[k]).len() > 0 by {
        assert(p(kept[k]));
    }
    if p(all[i]) {
        assert(kept.contains(all[i]));
    }
    if forall|k: int| 0 <= k < all.len() ==> trimmed(#[trigger] all[k]).len() > 0 {
        assert forall|k: int| 0 <= k < all.len() implies p(#[trigger] all[k]) by {}
        crate::seqs::lemma_keep_all(all, p);
    }
}

/// A node gets a shard of a job exactly if one is available and its lines are stored. It gets the
/// first such shard with its own lines; the shard is then the node's, and every other one is as
/// it was.
pub proof fn law_first_available_shard_is_claimed<F>(
    pre: TrainingStore<F>,
    job_id: Seq<char>,
    node_id: Seq<char>,
    now: u64,
    post: TrainingStore<F>,
    r: Option<(String, String)>,
) -> (k: int)
    requires
        shard_claimed(pre, job_id, node_id, now, post, r),
        pre.shards@.dom().contains(job_id),
        forall|i: int|
            0 <= i < pre.shards@[job_id]@.len() ==> pre.shard_data@.dom().contains(
                (#[trigger] pre.shards@[job_id]@[i]).shard_id@,
            ),
    ensures
        ({
            let shards = pre.shards@[job_id]@;
            let after = post.shards@[job_id]@;
            &&& r is Some <==> exists|i: int|
                0 <= i < shards.len() && (#[trigger] shards[i]).status is Available
            &&& r is None ==> post == pre
            &&& r is Some ==> {
                &&& 0 <= k < shards.len()
                &&& shards[k].status is Available
                &&& forall|i: int| 0 <= i < k ==> !((#[trigger] shards[i]).status is Available)
                &&& (r->0).0@ == shards[k].shard_id@
                &&& (r->0).1 == pre.shard_data@[shards[k].shard_id@]
                &&& after.len() == shards.len()
                &&& after[k].status is Assigned
                &&& after[k].status->Assigned_node_id@ == node_id
                &&& after[k].assigned_at_secs == Some(now)
                &&& after[k].shard_id == shards[k].shard_id
                &&& forall|i: int|
                    0 <= i < shards.len() && i != k ==> #[trigger] after[i] == shards[i]
                &&& forall|other: Seq<char>|
                    other != job_id ==> #[trigger] post.shards@[other] == pre.shards@[other]
            }
        }),
{
    let shards = pre.shards@[job_id]@;
    crate::seqs::lemma_index_from(shards, is_available(), 0);
    let k = first_index(shards, is_available());
    if k < shards.len() {
        assert(is_available()(shards[k]));
        assert(pre.shard_data@.dom().contains(shards[k].shard_id@));
        assert forall|i: int| 0 <= i < k implies !((#[trigger] shards[i]).status is Available) by {
            assert(!is_available()(shards[i]));
        }
    } else {
        assert forall|i: int| 0 <= i < shards.len() implies !((
        #[trigger] shards[i]).status is Available) by {
            assert(!is_available()(shards[i]));
        }
    }
    k
}

/// A submitted adapter completes its shard for the node that sent it and leaves the others. The
/// job's adapters are merged exactly when no shard needs work any more.
pub proof fn law_adapter_completes_its_shard<F>(
    pre: TrainingStore<F>,
    job_id: Seq<char>,
    shard_id: Seq<char>,
    node_id: Seq<char>,
    post: TrainingStore<F>,
    k: int,
)
    requires
        job_advanced(pre, job_id, shard_id, node_id, post),
        pre.shards@.dom().contains(job_id),
        pre.jobs@.dom().contains(job_id),
        distinct_shards(pre.shards@[job_id]@),
        0 <= k < pre.shards@[job_id]@.len(),
        pre.shards@[job_id]@[k].shard_id@ == shard_id,
    ensures
        ({
            let shards = pre.shards@[job_id]@;
            let after = post.shards@[job_id]@;
            let rest = forall|i: int|
                0 <= i < shards.len() && i != k ==> ((#[trigger] shards[i]).status is Completed
                    || shards[i].status is Failed);
            &&& after.len() == shards.len()
            &&& after[k].status is Completed
            &&& after[k].status->Completed_node_id@ == node_id
            &&& after[k].shard_id == shards[k].shard_id
            &&& after[k].start_line == shards[k].start_line
            &&& after[k].end_line == shards[k].end_line
            &&& forall|i: int| 0 <= i < shards.len() && i != k ==> #[trigger] after[i] == shards[i]
            &&& rest ==> post.jobs@[job_id].status == JobStatus::Aggregating
            &&& !rest ==> post.jobs@ == pre.jobs@
            &&& post.jobs@.dom() == pre.jobs@.dom()
            &&& post.jobs@[job_id].base_model == pre.jobs@[job_id].base_model
        }),
        forall|other: Seq<char>|
            other != job_id ==> #[trigger] post.jobs@[other] == pre.jobs@[other],
{
    let shards = pre.shards@[job_id]@;
    let after = post.shards@[job_id]@;
    crate::seqs::lemma_index_from(shards, with_shard_id(shard_id), 0);
    let f = first_index(shards, with_shard_id(shard_id));
    if f > k {
        assert(!with_shard_id(shard_id)(shards[k]));
    }
    if f < k {
        assert(with_shard_id(shard_id)(shards[f]));
        assert(shards[f].shard_id@ != shards[k].shard_id@);
    }
    let rest = forall|i: int|
        0 <= i < shards.len() && i != k ==> ((#[trigger] shards[i]).status is Completed
            || shards[i].status is Failed);
    if rest {
        assert forall|i: int| 0 <= i < after.len() implies is_settled(#[trigger] after[i]) by {
            if i != k {
                assert(after[i] == shards[i]);
            }
        }
    } else {
        let i = choose|i: int|
            0 <= i < shards.len() && i != k && !((#[trigger] shards[i]).status is Completed
                || shards[i].status is Failed);
        assert(after[i] == shards[i]);
        assert(!is_settled(after[i]));
    }
    assert(post.jobs@.dom() =~= pre.jobs@.dom());
}

/// A shard is taken back exactly if a node has had it for longer than the timeout. It can then be
/// claimed again; every other shard is as it was.
pub proof fn law_only_late_shards_are_taken_back(s: DataShard, timeout: u64, now: u64)
    ensures
        ({
            let since = match s.assigned_at_secs {
                Some(t) => t as int,
                None => 0,
            };
            let late = s.status is Assigned && now - since > timeout;
            let b = shard_taken_back(s, timeout, now);
            &&& late ==> b.status is Available && b.shard_id == s.shard_id && b.start_line
                == s.start_line && b.end_line == s.end_line
            &&& !late ==> b == s
        }),
{
}

/// A submitted adapter is kept with what was said of it, after all that was submitted for its job
/// before; nothing is lost, and other jobs are not concerned.
pub proof fn law_every_submission_is_kept<F>(
    pre: Map<Seq<char>, Vec<AdapterSubmission<F>>>,
    job_id: Seq<char>,
    post: Map<Seq<char>, Vec<AdapterSubmission<F>>>,
    node_id: Seq<char>,
    shard_id: Seq<char>,
    adapter_b64: String,
    loss: F,
    steps: usize,
    now: u64,
    other: Seq<char>,
    i: int,
)
    requires
        submission_kept(
            pre,
            job_id,
            post,
            node_id,
            shard_id,
            adapter_b64,
            loss,
            steps,
            now,
        ),
    ensures
        post.dom().contains(job_id),
        post[job_id]@.len() > 0,
        post[job_id]@.last().node_id@ == node_id,
        post[job_id]@.last().shard_id@ == shard_id,
        post[job_id]@.last().adapter_b64 == adapter_b64,
        post[job_id]@.last().training_loss == loss,
        post[job_id]@.last().training_steps == steps,
        pre.dom().contains(job_id) ==> post[job_id]@.len() == pre[job_id]@.len() + 1,
        pre.dom().contains(job_id) && 0 <= i < pre[job_id]@.len() ==> post[job_id]@[i]
            == pre[job_id]@[i],
        other != job_id && pre.dom().contains(other) ==> post.dom().contains(other) && post[other]
            == pre[other],
{
    if pre.dom().contains(job_id) && 0 <= i < pre[job_id]@.len() {
        assert(post[job_id]@.drop_last()[i] == post[job_id]@[i]);
    }
}

/// A new job waits with what it was asked for. Its shards hold the lines of the dataset one after
/// the other: every shard but the last has as many lines as were asked for, the last one the
/// rest, and each can be claimed. Other jobs stay as they are.
pub proof fn law_new_job_holds_the_dataset<F>(
    pre: TrainingStore<F>,
    base_model: String,
    l: Seq<Seq<char>>,
    shard_size: usize,
    lora_rank: u32,
    lora_alpha: F,
    num_epochs: u32,
    now: u64,
    job_id: Seq<char>,
    post: TrainingStore<F>,
    other: Seq<char>,
)
    requires
        shard_size > 0,
        job_created(
            pre,
            base_model,
            l,
            shard_size,
            lora_rank,
            lora_alpha,
            num_epochs,
            now,
            job_id,
            post,
        ),
    ensures
        ({
            let job = post.jobs@[job_id];
            let shards = post.shards@[job_id]@;
            &&& post.jobs@.dom().contains(job_id)
            &&& post.shards@.dom().contains(job_id)
            &&& job.status == JobStatus::Pending
            &&& job.base_model == base_model
            &&& job.lora_rank == lora_rank
            &&& job.lora_alpha == lora_alpha
            &&& job.num_epochs == num_epochs
            &&& job.shard_count == shards.len()
            &&& l.len() == 0 ==> shards.len() == 0
            &&& l.len() > 0 ==> shards.len() > 0 && shards[0].start_line == 0
                && shards.last().end_line == l.len()
            &&& forall|i: int|
                0 <= i < shards.len() ==> (#[trigger] shards[i]).status is Available
                    && shards[i].job_id@ == job_id && shards[i].start_line < shards[i].end_line
            &&& forall|i: int|
                0 < i < shards.len() ==> (#[trigger] shards[i]).start_line == shards[i - 1].end_line
            &&& forall|i: int|
                0 <= i < shards.len() - 1 ==> (#[trigger] shards[i]).end_line
                    == shards[i].start_line + shard_size
            &&& forall|i: int|
                0 <= i < shards.len() && distinct_shards(shards) ==> {
                    let text = post.shard_data@[(#[trigger] shards[i]).shard_id@];
                    &&& post.shard_data@.dom().contains(shards[i].shard_id@)
                    &&& text@ == joined(
                        l.subrange(shards[i].start_line as int, shards[i].end_line as int),
                        "\n"@,
                    )
                }
        }),
        other != job_id && pre.jobs@.dom().contains(other) ==> post.jobs@.dom().contains(other)
            && post.jobs@[other] == pre.jobs@[other],
        other != job_id && pre.shards@.dom().contains(other) ==> post.shards@.dom().contains(other)
            && post.shards@[other] == pre.shards@[other],
{
    let shards = post.shards@[job_id]@;
    let n = l.len() as int;
    let size = shard_size as int;
    law_shards_partition_lines(shards, job_id, n, size);
    assert forall|i: int| 0 <= i < shards.len() - 1 implies (#[trigger] shards[i]).end_line
        == shards[i].start_line + shard_size by {
        assert(is_new_shard(shards[i], job_id, n, size, i));
        assert(is_new_shard(shards[i + 1], job_id, n, size, i + 1));
        assert(shards[i + 1].start_line < shards[i + 1].end_line <= n);
        assert((i + 1) * size == i * size + size) by (nonlinear_arith);
    }
    assert forall|i: int| 0 <= i < shards.len() && distinct_shards(shards) implies {
        let text = post.shard_data@[(#[trigger] shards[i]).shard_id@];
        &&& post.shard_data@.dom().contains(shards[i].shard_id@)
        &&& text@ == joined(
            l.subrange(shards[i].start_line as int, shards[i].end_line as int),
            "\n"@,
        )
    } by {
        law_shard_holds_its_lines(texts_of(pre.shard_data@), shards, job_id, l, size, i);
        let m = texts_of(post.shard_data@);
        assert(m.dom().contains(shards[i].shard_id@));
        assert(m[shards[i].shard_id@] == post.shard_data@[shards[i].shard_id@]@);
    }
}

} // verus!
