//! A snapshot of the network for the dashboard.
use crate::dataset_store::DatasetStats;
use crate::registry::NodeRegistry;
use crate::text::le;
use crate::training_store::{JobStatus, TrainingStore};
use vstd::prelude::*;

verus! {

use crate::registry::NodeInfo;
use crate::seqs::{
    keep,
    law_sorted_is_ordered_permutation,
    lemma_first_index_is,
    lemma_keep_step,
    lemma_sum_step,
    sorted,
    sum_of,
};
use crate::text::{lemma_text_le_antisymmetric, lemma_text_le_total, lemma_text_le_transitive, text_le};
use crate::training_store::{
    is_assigned,
    is_available,
    is_completed,
    AdapterSubmission,
    DataShard,
    TrainingJob,
};

/// Counters of network activity.
#[derive(Debug, Clone, Copy, PartialEq, Eq, Structural)]
pub struct LiveCounters {
    pub grpc_requests: u64,
    pub http_requests: u64,
    pub heartbeats: u64,
    pub bytes_in: u64,
    pub bytes_out: u64,
    pub inference_requests: u64,
    pub inference_completed: u64,
    pub tensor_ops: u64,
}

/// Network activity as the snapshot shows it.
#[derive(Debug, Clone, Copy, PartialEq, Eq, Structural)]
pub struct NetworkMetrics {
    pub grpc_requests: u64,
    pub http_requests: u64,
    pub heartbeats: u64,
    pub bytes_in: u64,
    pub bytes_out: u64,
    pub inference_requests: u64,
    pub inference_completed: u64,
    pub tensor_ops: u64,
}

#[derive(Debug)]
pub struct NodeMetrics {
    /// Registered nodes.
    pub total: usize,
    pub active_tasks_total: u32,
    /// The models that any node has, each once, in order.
    pub models: Vec<String>,
}

#[derive(Debug)]
pub struct DatasetMetrics {
    pub total_items: usize,
    /// Estimated at 500 bytes per example.
    pub size_bytes_est: u64,
    pub execution_verified: usize,
    pub refined: usize,
    pub deduplicated: usize,
    pub by_category: Vec<(String, usize)>,
    pub by_provider: Vec<(String, usize)>,
    /// The five nodes that contributed most.
    pub top_nodes: Vec<(String, usize)>,
}

#[derive(Debug)]
pub struct TrainingMetrics<F> {
    pub total_jobs: usize,
    pub active_jobs: usize,
    pub shards_total: usize,
    pub shards_done: usize,
    pub shards_in_flight: usize,
    pub shards_available: usize,
    /// The losses of all submitted adapters.
    pub losses: Vec<F>,
}

#[derive(Debug)]
pub struct MetricsSnapshot<F> {
    pub nodes: NodeMetrics,
    pub dataset: DatasetMetrics,
    pub training: TrainingMetrics<F>,
    pub network: NetworkMetrics,
    pub uptime_secs: u64,
    pub timestamp_secs: u64,
}

impl LiveCounters {
    /// All counters at zero.
    pub fn new() -> (c: Self)
        ensures
            c == (LiveCounters {
                grpc_requests: 0,
                http_requests: 0,
                heartbeats: 0,
                bytes_in: 0,
                bytes_out: 0,
                inference_requests: 0,
                inference_completed: 0,
                tensor_ops: 0,
            }),
    {
        LiveCounters {
            grpc_requests: 0,
            http_requests: 0,
            heartbeats: 0,
            bytes_in: 0,
            bytes_out: 0,
            inference_requests: 0,
            inference_completed: 0,
            tensor_ops: 0,
        }
    }

    /// The counters as the snapshot shows them.
    pub fn network(&self) -> (n: NetworkMetrics)
        ensures
            n == (NetworkMetrics {
                grpc_requests: self.grpc_requests,
                http_requests: self.http_requests,
                heartbeats: self.heartbeats,
                bytes_in: self.bytes_in,
                bytes_out: self.bytes_out,
                inference_requests: self.inference_requests,
                inference_completed: self.inference_completed,
                tensor_ops: self.tensor_ops,
            }),
    {
        NetworkMetrics {
            grpc_requests: self.grpc_requests,
            http_requests: self.http_requests,
            heartbeats: self.heartbeats,
            bytes_in: self.bytes_in,
            bytes_out: self.bytes_out,
            inference_requests: self.inference_requests,
            inference_completed: self.inference_completed,
            tensor_ops: self.tensor_ops,
        }
    }
}

// ── Model ────────────────────────────────────────────────────────────────────

pub open spec fn task_load() -> spec_fn((String, NodeInfo)) -> nat {
    |e: (String, NodeInfo)| e.1.active_tasks as nat
}

/// Whether any node has the model.
pub open spec fn offered(nodes: Seq<(String, NodeInfo)>, model: Seq<char>) -> bool {
    exists|i: int, j: int|
        0 <= i < nodes.len() && 0 <= j < nodes[i].1.capabilities.available_models@.len()
            && #[trigger] nodes[i].1.capabilities.available_models@[j]@ == model
}

pub open spec fn listed(list: Seq<String>, s: Seq<char>) -> bool {
    exists|i: int| 0 <= i < list.len() && (#[trigger] list[i])@ == s
}

/// Ascending without repetition.
pub open spec fn ascending(list: Seq<String>) -> bool {
    forall|i: int, j: int|
        0 <= i < j < list.len() ==> text_le((#[trigger] list[i])@, (#[trigger] list[j])@)
            && list[i]@ != list[j]@
}

pub open spec fn count_ge() -> spec_fn((String, usize), (String, usize)) -> bool {
    |a: (String, usize), b: (String, usize)| a.1 >= b.1
}

/// At most the first five.
pub open spec fn first_five<T>(s: Seq<T>) -> Seq<T> {
    if s.len() <= 5 {
        s
    } else {
        s.subrange(0, 5)
    }
}

pub open spec fn is_running<F>() -> spec_fn((String, TrainingJob<F>)) -> bool {
    |e: (String, TrainingJob<F>)|
        e.1.status == JobStatus::InProgress || e.1.status == JobStatus::Aggregating
}

/// The shards that count for a job: none unless the job is known.
pub open spec fn shards_of<F>(s: TrainingStore<F>, job_id: Seq<char>) -> Seq<DataShard> {
    if s.jobs@.dom().contains(job_id) && s.shards@.dom().contains(job_id) {
        s.shards@[job_id]@
    } else {
        Seq::empty()
    }
}

/// Number of shards of a job that satisfy `p`.
pub open spec fn shard_count_of<F>(s: TrainingStore<F>, p: spec_fn(DataShard) -> bool) -> spec_fn(
    (String, TrainingJob<F>),
) -> nat {
    |e: (String, TrainingJob<F>)| keep(shards_of(s, e.1.job_id@), p).len()
}

pub open spec fn shard_total_of<F>(s: TrainingStore<F>) -> spec_fn((String, TrainingJob<F>)) -> nat {
    |e: (String, TrainingJob<F>)| shards_of(s, e.1.job_id@).len()
}

/// The submissions for the first `n` jobs.
pub open spec fn submissions_of<F>(s: TrainingStore<F>, n: int) -> Seq<AdapterSubmission<F>>
    decreases n,
{
    if n <= 0 {
        Seq::empty()
    } else {
        let id = s.jobs.entries@[n - 1].1.job_id@;
        submissions_of(s, n - 1) + if s.submissions@.dom().contains(id) {
            s.submissions@[id]@
        } else {
            Seq::empty()
        }
    }
}

// ── Parts of the snapshot ────────────────────────────────────────────────────

/// Whether these are the totals over nodes.
pub open spec fn is_node_metrics(m: NodeMetrics, nodes: Seq<(String, NodeInfo)>) -> bool {
    &&& m.total == nodes.len()
    &&& m.active_tasks_total == sum_of(nodes, task_load())
    &&& ascending(m.models@)
    &&& forall|s: Seq<char>| #[trigger] listed(m.models@, s) == offered(nodes, s)
}

/// Totals over the registered nodes.
pub fn node_metrics(registry: &NodeRegistry) -> (m: NodeMetrics)
    requires
        sum_of(registry.nodes.entries@, task_load()) <= u32::MAX,
    ensures
        is_node_metrics(m, registry.nodes.entries@),
{
    let nodes = registry.list_nodes();
    let ghost all = nodes@;
    let mut active_tasks_total: u32 = 0;
    let mut models: Vec<String> = Vec::new();
    let mut i: usize = 0;
    while i < nodes.len()
        invariant
            i <= all.len(),
            all == nodes@,
            all == registry.nodes.entries@,
            sum_of(all, task_load()) <= u32::MAX,
            active_tasks_total == sum_of(all.subrange(0, i as int), task_load()),
            ascending(models@),
            forall|s: Seq<char>| #[trigger]
                listed(models@, s) == offered(all.subrange(0, i as int), s),
        decreases all.len() - i,
    {
        proof {
            lemma_sum_step(all, task_load(), i as int);
        }
        active_tasks_total = active_tasks_total + nodes[i].1.active_tasks;
        let list = &nodes[i].1.capabilities.available_models;
        let ghost before = models@;
        let mut j: usize = 0;
        while j < list.len()
            invariant
                i < all.len(),
                all == nodes@,
                list@ == all[i as int].1.capabilities.available_models@,
                j <= list@.len(),
                ascending(models@),
                forall|s: Seq<char>| #[trigger]
                    listed(models@, s) == (listed(before, s) || listed(
                        list@.subrange(0, j as int),
                        s,
                    )),
            decreases list@.len() - j,
        {
            let ghost pre = models@;
            insert_text(&mut models, &list[j]);
            proof {
                assert forall|s: Seq<char>| #[trigger]
                    listed(models@, s) == (listed(before, s) || listed(
                        list@.subrange(0, j + 1),
                        s,
                    )) by {
                    let a = list@.subrange(0, j as int);
                    let b = list@.subrange(0, j + 1);
                    assert(b[j as int] == list@[j as int]);
                    if listed(a, s) {
                        let x = choose|x: int| 0 <= x < a.len() && (#[trigger] a[x])@ == s;
                        assert(b[x]@ == s);
                    }
                    if listed(b, s) {
                        let x = choose|x: int| 0 <= x < b.len() && (#[trigger] b[x])@ == s;
                        if x < j {
                            assert(a[x]@ == s);
                        }
                    }
                    assert(listed(pre, s) == (listed(before, s) || listed(a, s)));
                }
            }
            j = j + 1;
        }
        proof {
            assert(list@.subrange(0, list@.len() as int) == list@);
            assert forall|s: Seq<char>| #[trigger]
                listed(models@, s) == offered(all.subrange(0, i + 1), s) by {
                let a = all.subrange(0, i as int);
                let b = all.subrange(0, i + 1);
                assert(forall|x: int| 0 <= x < a.len() ==> a[x] == b[x]);
                assert(b[i as int] == all[i as int]);
                assert(listed(before, s) == offered(a, s));
                if offered(a, s) {
                    let (x, y) = choose|x: int, y: int|
                        0 <= x < a.len() && 0 <= y
                            < a[x].1.capabilities.available_models@.len()
                            && #[trigger] a[x].1.capabilities.available_models@[y]@ == s;
                    assert(b[x].1.capabilities.available_models@[y]@ == s);
                }
                if listed(list@, s) {
                    let y = choose|y: int| 0 <= y < list@.len() && (#[trigger] list@[y])@ == s;
                    assert(b[i as int].1.capabilities.available_models@[y]@ == s);
                }
                if offered(b, s) {
                    let (x, y) = choose|x: int, y: int|
                        0 <= x < b.len() && 0 <= y
                            < b[x].1.capabilities.available_models@.len()
                            && #[trigger] b[x].1.capabilities.available_models@[y]@ == s;
                    if x < i {
                        assert(a[x].1.capabilities.available_models@[y]@ == s);
                    } else {
                        assert(list@[y]@ == s);
                    }
                }
            }
        }
        i = i + 1;
    }
    assert(all.subrange(0, all.len() as int) == all);
    NodeMetrics { total: nodes.len(), active_tasks_total, models }
}

fn insert_text(list: &mut Vec<String>, s: &String)
    requires
        ascending(old(list)@),
    ensures
        ascending(final(list)@),
        forall|x: Seq<char>| #[trigger]
            listed(final(list)@, x) == (listed(old(list)@, x) || x == s@),
{
    let ghost pre = list@;
    let mut k: usize = 0;
    while k < list.len() && !le(s.as_str(), list[k].as_str())
        invariant
            list@ == pre,
            k <= pre.len(),
            forall|j: int| 0 <= j < k ==> !text_le(s@, (#[trigger] pre[j])@),
        decreases pre.len() - k,
    {
        k = k + 1;
    }
    if k < list.len() && list[k] == *s {
        assert forall|x: Seq<char>| #[trigger] listed(list@, x) == (listed(pre, x) || x == s@) by {
            if x == s@ {
                assert(pre[k as int]@ == x);
            }
        }
        return ;
    }
    list.insert(k, s.clone());
    proof {
        let post = list@;
        assert(post[k as int] == *s);
        assert(forall|j: int| 0 <= j < k ==> post[j] == pre[j]);
        assert(forall|j: int| k < j < post.len() ==> post[j] == pre[j - 1]);
        assert forall|i: int, j: int| 0 <= i < j < post.len() implies text_le(
            (#[trigger] post[i])@,
            (#[trigger] post[j])@,
        ) && post[i]@ != post[j]@ by {
            if j < k {
                assert(text_le(pre[i]@, pre[j]@));
            } else if j == k {
                assert(!text_le(s@, pre[i]@));
                lemma_text_le_total(s@, pre[i]@);
            } else if i < k {
                assert(text_le(pre[i]@, pre[j - 1]@));
            } else if i == k {
                assert(text_le(s@, pre[k as int]@));
                if j - 1 > k {
                    assert(text_le(pre[k as int]@, pre[j - 1]@));
                    lemma_text_le_transitive(s@, pre[k as int]@, pre[j - 1]@);
                    if s@ == pre[j - 1]@ {
                        lemma_text_le_antisymmetric(pre[k as int]@, pre[j - 1]@);
                    }
                }
            } else {
                assert(text_le(pre[i - 1]@, pre[j - 1]@));
            }
        }
        assert forall|x: Seq<char>| #[trigger] listed(post, x) == (listed(pre, x) || x == s@) by {
            if listed(pre, x) {
                let i = choose|i: int| 0 <= i < pre.len() && (#[trigger] pre[i])@ == x;
                let m = if i < k {
                    i
                } else {
                    i + 1
                };
                assert(post[m]@ == x);
            }
            if x == s@ {
                assert(post[k as int]@ == x);
            }
            if listed(post, x) {
                let m = choose|m: int| 0 <= m < post.len() && (#[trigger] post[m])@ == x;
                if m < k {
                    assert(pre[m]@ == x);
                } else if m > k {
                    assert(pre[m - 1]@ == x);
                }
            }
        }
    }
}

/// Names by descending count; equal counts keep their order.
pub fn sort_by_count(list: Vec<(String, usize)>) -> (r: Vec<(String, usize)>)
    ensures
        r@ == sorted(list@, count_ge()),
{
    let ghost all = list@;
    let mut rest = list;
    let n: usize = rest.len();
    let mut r: Vec<(String, usize)> = Vec::new();
    let mut i: usize = 0;
    assert(all.subrange(0, n as int) == all);
    while i < n
        invariant
            i <= n,
            n == all.len(),
            rest@ == all.subrange(i as int, n as int),
            r@ == sorted(all.subrange(0, i as int), count_ge()),
        decreases n - i,
    {
        let e = rest.remove(0);
        assert(e == all[i as int]);
        assert(rest@ == all.subrange(i + 1, n as int));
        let ghost done = r@;
        let ghost after = |y: (String, usize)| !count_ge()(y, e);
        let mut k: usize = 0;
        while k < r.len() && r[k].1 >= e.1
            invariant
                k <= r@.len(),
                done == r@,
                after == (|y: (String, usize)| !count_ge()(y, e)),
                forall|j: int| 0 <= j < k ==> !after(#[trigger] done[j]),
            decreases r@.len() - k,
        {
            k = k + 1;
        }
        proof {
            lemma_first_index_is(done, after, k as int);
            let next = all.subrange(0, i + 1);
            assert(next.drop_last() == all.subrange(0, i as int));
            assert(next.last() == e);
        }
        r.insert(k, e);
        i = i + 1;
    }
    r
}

/// Totals over the dataset.
pub fn dataset_metrics(stats: DatasetStats) -> (m: DatasetMetrics)
    requires
        stats.total_examples * 500 <= u64::MAX,
    ensures
        m.total_items == stats.total_examples,
        m.size_bytes_est == stats.total_examples * 500,
        m.execution_verified == stats.execution_verified,
        m.refined == stats.refined,
        m.deduplicated == stats.deduplicated,
        m.by_category == stats.by_category,
        m.by_provider == stats.by_provider,
        m.top_nodes@ == first_five(sorted(stats.by_node@, count_ge())),
{
    let mut top_nodes = sort_by_count(stats.by_node);
    top_nodes.truncate(5);
    DatasetMetrics {
        total_items: stats.total_examples,
        size_bytes_est: stats.total_examples as u64 * 500,
        execution_verified: stats.execution_verified,
        refined: stats.refined,
        deduplicated: stats.deduplicated,
        by_category: stats.by_category,
        by_provider: stats.by_provider,
        top_nodes,
    }
}

/// Whether these are the totals over the training jobs.
pub open spec fn is_training_metrics<F>(m: TrainingMetrics<F>, store: TrainingStore<F>) -> bool {
    let jobs = store.jobs.entries@;
    &&& m.total_jobs == jobs.len()
    &&& m.active_jobs == keep(jobs, is_running()).len()
    &&& m.shards_total == sum_of(jobs, shard_total_of(store))
    &&& m.shards_done == sum_of(jobs, shard_count_of(store, is_completed()))
    &&& m.shards_in_flight == sum_of(jobs, shard_count_of(store, is_assigned()))
    &&& m.shards_available == sum_of(jobs, shard_count_of(store, is_available()))
    &&& m.losses@ == submissions_of(store, jobs.len() as int).map_values(
        |s: AdapterSubmission<F>| s.training_loss,
    )
}

/// Totals over the training jobs.
pub fn training_metrics<F: Copy>(store: &TrainingStore<F>) -> (m: TrainingMetrics<F>)
    requires
        sum_of(store.jobs.entries@, shard_total_of(*store)) <= usize::MAX,
    ensures
        is_training_metrics(m, *store),
{
    let jobs = store.list_jobs();
    let ghost all = store.jobs.entries@;
    let ghost loss = |s: AdapterSubmission<F>| s.training_loss;
    let ghost f_total = shard_total_of(*store);
    let ghost f_done = shard_count_of(*store, is_completed());
    let ghost f_out = shard_count_of(*store, is_assigned());
    let ghost f_free = shard_count_of(*store, is_available());
    let mut active_jobs: usize = 0;
    let mut shards_total: usize = 0;
    let mut shards_done: usize = 0;
    let mut shards_in_flight: usize = 0;
    let mut shards_available: usize = 0;
    let mut losses: Vec<F> = Vec::new();
    assert(submissions_of(*store, 0).map_values(loss) == Seq::<F>::empty());
    let mut i: usize = 0;
    while i < store.jobs.entries.len()
        invariant
            i <= all.len(),
            all == store.jobs.entries@,
            loss == (|s: AdapterSubmission<F>| s.training_loss),
            f_total == shard_total_of(*store),
            f_done == shard_count_of(*store, is_completed()),
            f_out == shard_count_of(*store, is_assigned()),
            f_free == shard_count_of(*store, is_available()),
            sum_of(all, f_total) <= usize::MAX,
            active_jobs <= i,
            active_jobs == keep(all.subrange(0, i as int), is_running()).len(),
            shards_total == sum_of(all.subrange(0, i as int), f_total),
            shards_done == sum_of(all.subrange(0, i as int), f_done),
            shards_in_flight == sum_of(all.subrange(0, i as int), f_out),
            shards_available == sum_of(all.subrange(0, i as int), f_free),
            shards_done <= shards_total,
            shards_in_flight <= shards_total,
            shards_available <= shards_total,
            losses@ == submissions_of(*store, i as int).map_values(loss),
        decreases all.len() - i,
    {
        proof {
            lemma_keep_step(all, is_running(), i as int);
            lemma_sum_step(all, f_total, i as int);
            lemma_sum_step(all, f_done, i as int);
            lemma_sum_step(all, f_out, i as int);
            lemma_sum_step(all, f_free, i as int);
            let sh = shards_of(*store, all[i as int].1.job_id@);
            crate::seqs::lemma_keep_len(sh, is_completed());
            crate::seqs::lemma_keep_len(sh, is_assigned());
            crate::seqs::lemma_keep_len(sh, is_available());
        }
        let job = &store.jobs.entries[i].1;
        if job.status == JobStatus::InProgress || job.status == JobStatus::Aggregating {
            active_jobs = active_jobs + 1;
        }
        if let Some(js) = store.job_stats(job.job_id.as_str()) {
            shards_total = shards_total + js.shards_total;
            shards_done = shards_done + js.shards_completed;
            shards_in_flight = shards_in_flight + js.shards_assigned;
            shards_available = shards_available + js.shards_available;
        }
        let ghost before = submissions_of(*store, i as int);
        match store.get_submissions(job.job_id.as_str()) {
            Some(subs) => {
                let mut k: usize = 0;
                assert((before + subs@.subrange(0, 0)).map_values(loss) == before.map_values(
                    loss,
                ));
                while k < subs.len()
                    invariant
                        k <= subs@.len(),
                        loss == (|s: AdapterSubmission<F>| s.training_loss),
                        losses@ == (before + subs@.subrange(0, k as int)).map_values(loss),
                    decreases subs@.len() - k,
                {
                    losses.push(subs[k].training_loss);
                    k = k + 1;
                    assert((before + subs@.subrange(0, k as int)).map_values(loss) == (before
                        + subs@.subrange(0, k - 1)).map_values(loss).push(loss(subs@[k - 1])));
                }
                assert(subs@.subrange(0, subs@.len() as int) == subs@);
            },
            None => {
                assert(before + Seq::<AdapterSubmission<F>>::empty() == before);
            },
        }
        i = i + 1;
    }
    assert(all.subrange(0, all.len() as int) == all);
    TrainingMetrics {
        total_jobs: store.jobs.entries.len(),
        active_jobs,
        shards_total,
        shards_done,
        shards_in_flight,
        shards_available,
        losses,
    }
}

/// The snapshot of all parts at `now`.
pub fn compute_metrics<F: Copy>(
    registry: &NodeRegistry,
    stats: DatasetStats,
    training_store: &TrainingStore<F>,
    counters: &LiveCounters,
    started_at_secs: u64,
    now_secs: u64,
) -> (m: MetricsSnapshot<F>)
    requires
        sum_of(registry.nodes.entries@, task_load()) <= u32::MAX,
        stats.total_examples * 500 <= u64::MAX,
        sum_of(training_store.jobs.entries@, shard_total_of(*training_store)) <= usize::MAX,
    ensures
        is_node_metrics(m.nodes, registry.nodes.entries@),
        m.dataset.total_items == stats.total_examples,
        m.dataset.size_bytes_est == stats.total_examples * 500,
        m.dataset.execution_verified == stats.execution_verified,
        m.dataset.refined == stats.refined,
        m.dataset.deduplicated == stats.deduplicated,
        m.dataset.by_category == stats.by_category,
        m.dataset.by_provider == stats.by_provider,
        m.dataset.top_nodes@ == first_five(sorted(stats.by_node@, count_ge())),
        is_training_metrics(m.training, *training_store),
        m.network.grpc_requests == counters.grpc_requests,
        m.network.http_requests == counters.http_requests,
        m.network.heartbeats == counters.heartbeats,
        m.network.bytes_in == counters.bytes_in,
        m.network.bytes_out == counters.bytes_out,
        m.network.inference_requests == counters.inference_requests,
        m.network.inference_completed == counters.inference_completed,
        m.network.tensor_ops == counters.tensor_ops,
        m.uptime_secs == if now_secs >= started_at_secs {
            now_secs - started_at_secs
        } else {
            0
        },
        m.timestamp_secs == now_secs,
{
    MetricsSnapshot {
        nodes: node_metrics(registry),
        dataset: dataset_metrics(stats),
        training: training_metrics(training_store),
        network: counters.network(),
        uptime_secs: now_secs.saturating_sub(started_at_secs),
        timestamp_secs: now_secs,
    }
}

/// The nodes that contributed most come first, and none is left out for one that
/// contributed less.
pub proof fn law_top_nodes_contributed_most(by_node: Seq<(String, usize)>, i: int, j: int)
    requires
        0 <= i < first_five(sorted(by_node, count_ge())).len(),
        i <= j < by_node.len(),
    ensures
        first_five(sorted(by_node, count_ge()))[i].1 >= sorted(by_node, count_ge())[j].1,
        sorted(by_node, count_ge()).to_multiset() == by_node.to_multiset(),
{
    law_sorted_is_ordered_permutation(by_node, count_ge());
    assert(count_ge()(sorted(by_node, count_ge())[i], sorted(by_node, count_ge())[j]));
}

/// The submissions of every counted job are among those whose losses are shown, and no others.
pub proof fn law_losses_are_of_every_submission<F>(s: TrainingStore<F>, n: int)
    requires
        0 <= n <= s.jobs.entries@.len(),
    ensures
        forall|i: int, k: int|
            0 <= i < n && s.submissions@.dom().contains(s.jobs.entries@[i].1.job_id@) && 0 <= k
                < s.submissions@[s.jobs.entries@[i].1.job_id@]@.len() ==> submissions_of(
                s,
                n,
            ).contains(#[trigger] s.submissions@[s.jobs.entries@[i].1.job_id@]@[k]),
        submissions_of(s, n).len() == sum_of(
            s.jobs.entries@.subrange(0, n),
            |e: (String, TrainingJob<F>)|
                if s.submissions@.dom().contains(e.1.job_id@) {
                    s.submissions@[e.1.job_id@]@.len()
                } else {
                    0
                },
        ),
    decreases n,
{
    let f = |e: (String, TrainingJob<F>)|
        if s.submissions@.dom().contains(e.1.job_id@) {
            s.submissions@[e.1.job_id@]@.len()
        } else {
            0
        };
    if n > 0 {
        law_losses_are_of_every_submission(s, n - 1);
        lemma_sum_step(s.jobs.entries@, f, n - 1);
        let id = s.jobs.entries@[n - 1].1.job_id@;
        let before = submissions_of(s, n - 1);
        let all = submissions_of(s, n);
        assert(s.submissions@.dom().contains(id) ==> all == before + s.submissions@[id]@);
        assert forall|i: int, k: int|
            0 <= i < n && s.submissions@.dom().contains(s.jobs.entries@[i].1.job_id@) && 0 <= k
                < s.submissions@[s.jobs.entries@[i].1.job_id@]@.len() implies all.contains(
            #[trigger] s.submissions@[s.jobs.entries@[i].1.job_id@]@[k],
        ) by {
            let x = s.submissions@[s.jobs.entries@[i].1.job_id@]@[k];
            if i < n - 1 {
                assert(before.contains(x));
                let m = choose|m: int| 0 <= m < before.len() && before[m] == x;
                assert(all[m] == x);
            } else {
                assert(all[before.len() + k] == x);
            }
        }
    } else {
        assert(s.jobs.entries@.subrange(0, 0).len() == 0);
    }
}

/// A shard is available, assigned, completed or failed: the counts leave out the failed ones
/// alone.
pub proof fn law_shards_are_counted_once(shards: Seq<DataShard>)
    ensures
        keep(shards, is_available()).len() + keep(shards, is_assigned()).len() + keep(
            shards,
            is_completed(),
        ).len() + keep(shards, |s: DataShard| s.status is Failed).len() == shards.len(),
    decreases shards.len(),
{
    if shards.len() > 0 {
        law_shards_are_counted_once(shards.drop_last());
    }
}

/// A job counts as active while it is trained or aggregated.
pub proof fn law_active_jobs_are_under_way<F>(e: (String, TrainingJob<F>))
    ensures
        is_running()(e) == (e.1.status is InProgress || e.1.status is Aggregating),
{
}

/// Every node adds one to the number of nodes and its own tasks to the tasks.
pub proof fn law_every_node_counts(
    m: NodeMetrics,
    more: NodeMetrics,
    nodes: Seq<(String, NodeInfo)>,
    e: (String, NodeInfo),
)
    requires
        is_node_metrics(m, nodes),
        is_node_metrics(more, nodes.push(e)),
    ensures
        more.total == m.total + 1,
        more.active_tasks_total == m.active_tasks_total + e.1.active_tasks,
        nodes.len() == 0 ==> m.total == 0 && m.active_tasks_total == 0 && m.models@.len() == 0,
{
    assert(nodes.push(e).drop_last() =~= nodes);
    if nodes.len() == 0 && m.models@.len() > 0 {
        assert(listed(m.models@, m.models@[0]@));
        assert(!offered(nodes, m.models@[0]@));
    }
}

/// Every model of every node is shown, no other one is, and none is shown twice.
pub proof fn law_every_model_is_shown_once(
    m: NodeMetrics,
    nodes: Seq<(String, NodeInfo)>,
    i: int,
    j: int,
    x: int,
    y: int,
)
    requires
        is_node_metrics(m, nodes),
        0 <= i < nodes.len(),
        0 <= j < nodes[i].1.capabilities.available_models@.len(),
        0 <= x < y < m.models@.len(),
    ensures
        exists|k: int|
            0 <= k < m.models@.len() && (#[trigger] m.models@[k])@
                == nodes[i].1.capabilities.available_models@[j]@,
        exists|a: int, b: int|
            0 <= a < nodes.len() && 0 <= b < nodes[a].1.capabilities.available_models@.len()
                && #[trigger] nodes[a].1.capabilities.available_models@[b]@ == m.models@[x]@,
        m.models@[x]@ != m.models@[y]@,
{
    let s = nodes[i].1.capabilities.available_models@[j]@;
    assert(offered(nodes, s));
    assert(listed(m.models@, s));
    assert(listed(m.models@, m.models@[x]@));
    assert(offered(nodes, m.models@[x]@));
}

/// Every job adds its shards to the totals, each under its own status, and the losses of what was
/// submitted for it behind the others.
pub proof fn law_every_job_counts<F>(
    m: TrainingMetrics<F>,
    more: TrainingMetrics<F>,
    pre: TrainingStore<F>,
    post: TrainingStore<F>,
    e: (String, TrainingJob<F>),
)
    requires
        is_training_metrics(m, pre),
        is_training_metrics(more, post),
        forall|i: int|
            0 <= i < pre.jobs.entries@.len() ==> pre.jobs@.dom().contains(
                (#[trigger] pre.jobs.entries@[i]).1.job_id@,
            ),
        post.jobs.entries@ == pre.jobs.entries@.push(e),
        post.jobs@ == pre.jobs@.insert(e.1.job_id@, e.1),
        post.shards == pre.shards,
        post.submissions == pre.submissions,
        post.shards@.dom().contains(e.1.job_id@),
        post.submissions@.dom().contains(e.1.job_id@),
    ensures
        ({
            let shards = post.shards@[e.1.job_id@]@;
            let subs = post.submissions@[e.1.job_id@]@;
            &&& more.total_jobs == m.total_jobs + 1
            &&& more.active_jobs == m.active_jobs + if e.1.status is InProgress
                || e.1.status is Aggregating {
                1int
            } else {
                0int
            }
            &&& more.shards_total == m.shards_total + shards.len()
            &&& more.shards_done == m.shards_done + keep(
                shards,
                |s: DataShard| s.status is Completed,
            ).len()
            &&& more.shards_in_flight == m.shards_in_flight + keep(
                shards,
                |s: DataShard| s.status is Assigned,
            ).len()
            &&& more.shards_available == m.shards_available + keep(
                shards,
                |s: DataShard| s.status is Available,
            ).len()
            &&& more.losses@.len() == m.losses@.len() + subs.len()
            &&& forall|i: int| 0 <= i < m.losses@.len() ==> more.losses@[i] == m.losses@[i]
            &&& forall|i: int|
                0 <= i < subs.len() ==> more.losses@[m.losses@.len() + i]
                    == (#[trigger] subs[i]).training_loss
        }),
{
    let jobs = pre.jobs.entries@;
    let shards = post.shards@[e.1.job_id@]@;
    assert(jobs.push(e).drop_last() =~= jobs);
    lemma_same_sums(jobs, shard_total_of(pre), shard_total_of(post));
    lemma_same_sums(
        jobs,
        shard_count_of(pre, is_completed()),
        shard_count_of(post, is_completed()),
    );
    lemma_same_sums(jobs, shard_count_of(pre, is_assigned()), shard_count_of(post, is_assigned()));
    lemma_same_sums(
        jobs,
        shard_count_of(pre, is_available()),
        shard_count_of(post, is_available()),
    );
    lemma_same_kept(shards, is_completed(), |s: DataShard| s.status is Completed);
    lemma_same_kept(shards, is_assigned(), |s: DataShard| s.status is Assigned);
    lemma_same_kept(shards, is_available(), |s: DataShard| s.status is Available);
    lemma_same_submissions(pre, post, jobs.len() as int);
}

proof fn lemma_same_sums<T>(s: Seq<T>, f: spec_fn(T) -> nat, g: spec_fn(T) -> nat)
    requires
        forall|i: int| 0 <= i < s.len() ==> f(#[trigger] s[i]) == g(s[i]),
    ensures
        sum_of(s, f) == sum_of(s, g),
    decreases s.len(),
{
    if s.len() > 0 {
        let r = s.drop_last();
        assert forall|i: int| 0 <= i < r.len() implies f(#[trigger] r[i]) == g(r[i]) by {
            assert(r[i] == s[i]);
        }
        lemma_same_sums(r, f, g);
        assert(f(s[s.len() - 1]) == g(s[s.len() - 1]));
    }
}

proof fn lemma_same_kept<T>(s: Seq<T>, p: spec_fn(T) -> bool, q: spec_fn(T) -> bool)
    requires
        forall|e: T| #[trigger] p(e) == q(e),
    ensures
        keep(s, p) == keep(s, q),
    decreases s.len(),
{
    if s.len() > 0 {
        lemma_same_kept(s.drop_last(), p, q);
        assert(p(s.last()) == q(s.last()));
    }
}

proof fn lemma_same_submissions<F>(pre: TrainingStore<F>, post: TrainingStore<F>, n: int)
    requires
        0 <= n <= pre.jobs.entries@.len() <= post.jobs.entries@.len(),
        forall|i: int|
            0 <= i < pre.jobs.entries@.len() ==> (#[trigger] post.jobs.entries@[i])
                == pre.jobs.entries@[i],
        post.submissions == pre.submissions,
    ensures
        submissions_of(post, n) == submissions_of(pre, n),
    decreases n,
{
    if n > 0 {
        lemma_same_submissions(pre, post, n - 1);
        assert(post.jobs.entries@[n - 1] == pre.jobs.entries@[n - 1]);
    }
}

} // verus!
