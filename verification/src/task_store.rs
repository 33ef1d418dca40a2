//! Inference tasks and the queue in which they wait for a node.
//!
//! `F` is the number type of the temperature. A moment is a number of nanoseconds on one
//! monotonic clock.
use crate::ids::fresh_id;
use crate::table::Table;
use std::collections::VecDeque;
use vstd::prelude::*;

verus! {

use crate::seqs::{
    first_index,
    keep,
    lemma_first_index_is,
    lemma_index_from,
    lemma_keep_members,
    lemma_keep_step,
};
use crate::table::{
    as_map,
    distinct_keys,
    has_key,
    lemma_entry,
    lemma_has_key,
    lemma_keep_entries,
};

/// Finished tasks are kept for an hour.
pub const COMPLETED_TASK_TTL_SECS: u64 = 3600;

/// No task may ask for more tokens.
pub const MAX_TOKENS_LIMIT: u32 = 8192;

#[derive(Debug)]
pub enum TaskStatus {
    Pending,
    Assigned { node_id: String, assigned_at: u64 },
    Completed { response_text: String, duration_ms: u64 },
    Failed { error: String },
}

#[derive(Debug)]
pub struct TaskInfo<F> {
    pub task_id: String,
    pub model: String,
    pub prompt: String,
    pub temperature: F,
    pub max_tokens: u32,
    pub status: TaskStatus,
    pub created_at: u64,
}

/// What a node needs to run a task.
#[derive(Debug)]
pub struct InferenceTask<F> {
    pub task_id: String,
    pub model: String,
    pub prompt: String,
    pub temperature: F,
    pub max_tokens: u32,
}

/// The tasks, and the ids of those that wait, in order.
#[derive(Debug)]
pub struct TaskStore<F> {
    pub tasks: Table<TaskInfo<F>>,
    pub pending_queue: VecDeque<String>,
}

// ── Model ────────────────────────────────────────────────────────────────────

/// Whether more than `secs` seconds lie between the moments.
pub open spec fn longer_than(since: u64, now: u64, secs: u64) -> bool {
    now - since > secs * 1_000_000_000
}

/// Whether `id` names a task that waits.
pub open spec fn waits<F>(tasks: Map<Seq<char>, TaskInfo<F>>, id: Seq<char>) -> bool {
    tasks.dom().contains(id) && tasks[id].status is Pending
}

pub open spec fn has_model(models: Seq<String>, model: Seq<char>) -> bool {
    exists|i: int| 0 <= i < models.len() && (#[trigger] models[i])@ == model
}

/// Whether `id` names a waiting task for one of the models.
pub open spec fn fits<F>(
    tasks: Map<Seq<char>, TaskInfo<F>>,
    models: Seq<String>,
    id: Seq<char>,
) -> bool {
    waits(tasks, id) && has_model(models, tasks[id].model@)
}

pub open spec fn queue_waits<F>(tasks: Map<Seq<char>, TaskInfo<F>>) -> spec_fn(String) -> bool {
    |id: String| waits(tasks, id@)
}

pub open spec fn queue_fits<F>(
    tasks: Map<Seq<char>, TaskInfo<F>>,
    models: Seq<String>,
) -> spec_fn(String) -> bool {
    |id: String| fits(tasks, models, id@)
}

pub open spec fn queued(queue: Seq<String>, id: Seq<char>) -> bool {
    exists|i: int| 0 <= i < queue.len() && (#[trigger] queue[i])@ == id
}

impl<F> TaskStore<F> {
    /// Every task is stored under its id, and every task that waits is in the queue.
    pub open spec fn wf(self) -> bool {
        &&& self.tasks.wf()
        &&& forall|i: int|
            0 <= i < self.tasks.entries@.len() ==> (#[trigger] self.tasks.entries@[i]).0@
                == self.tasks.entries@[i].1.task_id@
        &&& forall|id: Seq<char>| #[trigger]
            waits(self.tasks@, id) ==> queued(self.pending_queue@, id)
    }
}

/// The queue after a node was served: what stood before its task and waits for another
/// model goes to the end, what does not wait any more is gone.
pub open spec fn queue_after<F>(
    queue: Seq<String>,
    tasks: Map<Seq<char>, TaskInfo<F>>,
    models: Seq<String>,
) -> Seq<String> {
    let k = first_index(queue, queue_fits(tasks, models));
    if k < queue.len() {
        queue.subrange(k + 1, queue.len() as int) + keep(
            queue.subrange(0, k),
            queue_waits(tasks),
        )
    } else {
        keep(queue, queue_waits(tasks))
    }
}

/// Everything of a task but its status.
pub open spec fn same_task<F>(a: TaskInfo<F>, b: TaskInfo<F>) -> bool {
    a.task_id == b.task_id && a.model == b.model && a.prompt == b.prompt && a.temperature
        == b.temperature && a.max_tokens == b.max_tokens && a.created_at == b.created_at
}

pub open spec fn is_new_task<F>(
    t: TaskInfo<F>,
    id: Seq<char>,
    model: String,
    prompt: String,
    temperature: F,
    max_tokens: u32,
    now: u64,
) -> bool {
    &&& t.task_id@ == id
    &&& t.model == model
    &&& t.prompt == prompt
    &&& t.temperature == temperature
    &&& t.max_tokens == if max_tokens <= MAX_TOKENS_LIMIT {
        max_tokens
    } else {
        MAX_TOKENS_LIMIT
    }
    &&& t.status is Pending
    &&& t.created_at == now
}

pub open spec fn task_assigned<F>(
    pre: TaskInfo<F>,
    post: TaskInfo<F>,
    node_id: Seq<char>,
    now: u64,
) -> bool {
    &&& same_task(post, pre)
    &&& post.status is Assigned
    &&& post.status->Assigned_node_id@ == node_id
    &&& post.status->Assigned_assigned_at == now
}

/// What is handed to the node that gets a task.
pub open spec fn is_handout<F>(h: InferenceTask<F>, t: TaskInfo<F>) -> bool {
    h.task_id == t.task_id && h.model == t.model && h.prompt == t.prompt && h.temperature
        == t.temperature && h.max_tokens == t.max_tokens
}

pub open spec fn task_stale<F>(t: TaskInfo<F>, timeout: u64, now: u64) -> bool {
    t.status is Assigned && longer_than(t.status->Assigned_assigned_at, now, timeout)
}

/// The task after stale assignments were taken back.
pub open spec fn task_taken_back<F>(t: TaskInfo<F>, timeout: u64, now: u64) -> TaskInfo<F> {
    if task_stale(t, timeout, now) {
        TaskInfo { status: TaskStatus::Pending, ..t }
    } else {
        t
    }
}

/// Whether a finished task has been kept long enough.
pub open spec fn task_expired<F>(t: TaskInfo<F>, now: u64) -> bool {
    (t.status is Completed || t.status is Failed) && now - t.created_at
        >= COMPLETED_TASK_TTL_SECS * 1_000_000_000
}

// ── Operations ───────────────────────────────────────────────────────────────

fn contains_text(list: &Vec<String>, s: &String) -> (r: bool)
    ensures
        r == has_model(list@, s@),
{
    let mut i: usize = 0;
    while i < list.len()
        invariant
            i <= list@.len(),
            forall|j: int| 0 <= j < i ==> (#[trigger] list@[j])@ != s@,
        decreases list@.len() - i,
    {
        if list[i] == *s {
            return true;
        }
        i = i + 1;
    }
    false
}

fn is_longer(since: u64, now: u64, secs: u64) -> (r: bool)
    ensures
        r == longer_than(since, now, secs),
{
    let span: u128 = secs as u128 * 1_000_000_000;
    now.saturating_sub(since) as u128 > span
}

impl<F: Copy> TaskStore<F> {
    /// No tasks.
    pub fn new() -> (s: Self)
        ensures
            s.wf(),
            s.tasks@ == Map::<Seq<char>, TaskInfo<F>>::empty(),
            s.pending_queue@.len() == 0,
    {
        TaskStore { tasks: Table::new(), pending_queue: VecDeque::new() }
    }

    /// Adds a task to the end of the queue and returns its id.
    pub fn create_task(
        &mut self,
        model: String,
        prompt: String,
        temperature: F,
        max_tokens: u32,
        now: u64,
    ) -> (id: String)
        requires
            old(self).wf(),
        ensures
            final(self).wf(),
            id@.len() == 36,
            final(self).tasks@.dom().contains(id@),
            final(self).tasks@ == old(self).tasks@.insert(id@, final(self).tasks@[id@]),
            is_new_task(
                final(self).tasks@[id@],
                id@,
                model,
                prompt,
                temperature,
                max_tokens,
                now,
            ),
            final(self).pending_queue@ == old(self).pending_queue@.push(id),
    {
        let id = fresh_id();
        self.put_task(
            TaskInfo {
                task_id: id.clone(),
                model,
                prompt,
                temperature,
                max_tokens: if max_tokens <= MAX_TOKENS_LIMIT {
                    max_tokens
                } else {
                    MAX_TOKENS_LIMIT
                },
                status: TaskStatus::Pending,
                created_at: now,
            },
        );
        id
    }

    fn put_task(&mut self, info: TaskInfo<F>)
        requires
            old(self).wf(),
            info.status is Pending,
        ensures
            final(self).wf(),
            final(self).tasks@ == old(self).tasks@.insert(info.task_id@, info),
            final(self).pending_queue@ == old(self).pending_queue@.push(info.task_id),
    {
        let id = info.task_id.clone();
        let ghost pre = self.tasks.entries@;
        let k = self.tasks.index(id.as_str());
        if k < self.tasks.entries.len() {
            self.tasks.set_at(k, info);
        } else {
            self.tasks.insert(id.clone(), info);
            proof {
                lemma_inserted_entries(pre, self.tasks.entries@, id@, info);
            }
        }
        self.pending_queue.push_back(id);
        proof {
            let q0 = old(self).pending_queue@;
            let q1 = self.pending_queue@;
            assert forall|x: Seq<char>| #[trigger] waits(self.tasks@, x) implies queued(q1, x) by {
                if x == id@ {
                    assert(q1[q0.len() as int]@ == x);
                } else {
                    assert(waits(old(self).tasks@, x));
                    let i = choose|i: int| 0 <= i < q0.len() && (#[trigger] q0[i])@ == x;
                    assert(q1[i]@ == x);
                }
            }
        }
    }

    /// Hands the first waiting task for one of the node's models to the node.
    pub fn assign_pending_task(
        &mut self,
        node_id: &str,
        available_models: &Vec<String>,
        now: u64,
    ) -> (r: Option<InferenceTask<F>>)
        requires
            old(self).wf(),
        ensures
            final(self).wf(),
            final(self).pending_queue@ == queue_after(
                old(self).pending_queue@,
                old(self).tasks@,
                available_models@,
            ),
            ({
                let queue = old(self).pending_queue@;
                let k = first_index(queue, queue_fits(old(self).tasks@, available_models@));
                if k < queue.len() {
                    let id = queue[k]@;
                    &&& r is Some
                    &&& is_handout(r->0, old(self).tasks@[id])
                    &&& final(self).tasks@ == old(self).tasks@.insert(id, final(self).tasks@[id])
                    &&& task_assigned(old(self).tasks@[id], final(self).tasks@[id], node_id@, now)
                } else {
                    r is None && final(self).tasks@ == old(self).tasks@
                }
            }),
    {
        let ghost queue = self.pending_queue@;
        let ghost tasks = self.tasks@;
        let ghost models = available_models@;
        let len: usize = self.pending_queue.len();
        assert(queue.subrange(0, len as int) == queue);
        assert(keep(queue.subrange(0, 0), queue_waits(tasks)) == Seq::<String>::empty());
        let mut i: usize = 0;
        while i < len
            invariant
                i <= len,
                len == queue.len(),
                models == available_models@,
                queue == old(self).pending_queue@,
                old(self).wf(),
                tasks == old(self).tasks@,
                self.tasks == old(self).tasks,
                self.pending_queue@ == queue.subrange(i as int, len as int) + keep(
                    queue.subrange(0, i as int),
                    queue_waits(tasks),
                ),
                forall|j: int| 0 <= j < i ==> !queue_fits(tasks, models)(#[trigger] queue[j]),
            decreases len - i,
        {
            proof {
                lemma_keep_step(queue, queue_waits(tasks), i as int);
            }
            let ghost kept = keep(queue.subrange(0, i as int), queue_waits(tasks));
            assert(self.pending_queue@[0] == queue[i as int]);
            let task_id = match self.pending_queue.pop_front() {
                Some(id) => id,
                None => {
                    return None;
                },
            };
            assert(self.pending_queue@ == queue.subrange(i + 1, len as int) + kept);
            let k = self.tasks.index(task_id.as_str());
            let pending: bool = k < self.tasks.entries.len() && match &self.tasks.entries[k].1.status {
                TaskStatus::Pending => true,
                _ => false,
            };
            if pending {
                if contains_text(available_models, &self.tasks.entries[k].1.model) {
                    proof {
                        lemma_first_index_is(queue, queue_fits(tasks, models), i as int);
                        lemma_has_key(self.tasks.entries@, task_id@);
                    }
                    let ghost pre = self.tasks.entries@;
                    self.tasks.entries[k].1.status = TaskStatus::Assigned {
                        node_id: node_id.to_owned(),
                        assigned_at: now,
                    };
                    proof {
                        lemma_changed_entry(pre, self.tasks.entries@, k as int);
                        lemma_unlisted(
                            queue,
                            self.pending_queue@,
                            tasks,
                            self.tasks@,
                            i as int,
                        );
                    }
                    let t = &self.tasks.entries[k].1;
                    return Some(
                        InferenceTask {
                            task_id: t.task_id.clone(),
                            model: t.model.clone(),
                            prompt: t.prompt.clone(),
                            temperature: t.temperature,
                            max_tokens: t.max_tokens,
                        },
                    );
                } else {
                    self.pending_queue.push_back(task_id);
                    assert(self.pending_queue@ == queue.subrange(i + 1, len as int) + kept.push(
                        queue[i as int],
                    ));
                }
            }
            i = i + 1;
        }
        proof {
            lemma_first_index_is(queue, queue_fits(tasks, models), len as int);
            assert(self.pending_queue@ == keep(queue, queue_waits(tasks)));
            lemma_keep_members(queue, queue_waits(tasks));
            assert forall|x: Seq<char>| #[trigger] waits(self.tasks@, x) implies queued(
                self.pending_queue@,
                x,
            ) by {
                let j = choose|j: int| 0 <= j < queue.len() && (#[trigger] queue[j])@ == x;
                assert(queue_waits(tasks)(queue[j]));
                let q = self.pending_queue@;
                assert(q.contains(queue[j]));
                let m = choose|m: int| 0 <= m < q.len() && q[m] == queue[j];
                assert(q[m]@ == x);
            }
        }
        None
    }

    /// Finishes a task. Returns whether it exists.
    pub fn complete_task(&mut self, task_id: &str, response_text: String, duration_ms: u64) -> (found:
        bool)
        requires
            old(self).wf(),
        ensures
            final(self).wf(),
            final(self).pending_queue == old(self).pending_queue,
            found == old(self).tasks@.dom().contains(task_id@),
            final(self).tasks@ == if found {
                old(self).tasks@.insert(
                    task_id@,
                    TaskInfo {
                        status: TaskStatus::Completed { response_text, duration_ms },
                        ..old(self).tasks@[task_id@]
                    },
                )
            } else {
                old(self).tasks@
            },
    {
        self.settle(task_id, TaskStatus::Completed { response_text, duration_ms })
    }

    /// Marks a task as failed. Returns whether it exists.
    pub fn fail_task(&mut self, task_id: &str, error: String) -> (found: bool)
        requires
            old(self).wf(),
        ensures
            final(self).wf(),
            final(self).pending_queue == old(self).pending_queue,
            found == old(self).tasks@.dom().contains(task_id@),
            final(self).tasks@ == if found {
                old(self).tasks@.insert(
                    task_id@,
                    TaskInfo {
                        status: TaskStatus::Failed { error },
                        ..old(self).tasks@[task_id@]
                    },
                )
            } else {
                old(self).tasks@
            },
    {
        self.settle(task_id, TaskStatus::Failed { error })
    }

    fn settle(&mut self, task_id: &str, status: TaskStatus) -> (found: bool)
        requires
            old(self).wf(),
            status !is Pending,
        ensures
            final(self).wf(),
            final(self).pending_queue == old(self).pending_queue,
            found == old(self).tasks@.dom().contains(task_id@),
            final(self).tasks@ == if found {
                old(self).tasks@.insert(
                    task_id@,
                    TaskInfo { status, ..old(self).tasks@[task_id@] },
                )
            } else {
                old(self).tasks@
            },
    {
        let k = self.tasks.index(task_id);
        if k < self.tasks.entries.len() {
            proof {
                lemma_has_key(self.tasks.entries@, task_id@);
            }
            let ghost pre = self.tasks.entries@;
            self.tasks.entries[k].1.status = status;
            proof {
                lemma_changed_entry(pre, self.tasks.entries@, k as int);
                assert forall|x: Seq<char>| #[trigger] waits(self.tasks@, x) implies queued(
                    self.pending_queue@,
                    x,
                ) by {
                    assert(waits(old(self).tasks@, x));
                }
            }
            true
        } else {
            false
        }
    }

    /// A task.
    pub fn get_task(&self, task_id: &str) -> (r: Option<&TaskInfo<F>>)
        ensures
            match r {
                Some(t) => self.tasks@.dom().contains(task_id@) && *t == self.tasks@[task_id@],
                None => !self.tasks@.dom().contains(task_id@),
            },
    {
        self.tasks.get(task_id)
    }
}

proof fn lemma_inserted_entries<F>(
    pre: Seq<(String, TaskInfo<F>)>,
    post: Seq<(String, TaskInfo<F>)>,
    id: Seq<char>,
    info: TaskInfo<F>,
)
    requires
        distinct_keys(pre),
        distinct_keys(post),
        as_map(post) == as_map(pre).insert(id, info),
        info.task_id@ == id,
        forall|i: int| 0 <= i < pre.len() ==> (#[trigger] pre[i]).0@ == pre[i].1.task_id@,
    ensures
        forall|i: int| 0 <= i < post.len() ==> (#[trigger] post[i]).0@ == post[i].1.task_id@,
{
    assert forall|i: int| 0 <= i < post.len() implies (#[trigger] post[i]).0@
        == post[i].1.task_id@ by {
        lemma_entry(post, i);
        let key = post[i].0@;
        if key != id {
            assert(as_map(pre).dom().contains(key));
            let j = choose|j: int| 0 <= j < pre.len() && (#[trigger] pre[j]).0@ == key;
            lemma_entry(pre, j);
        }
    }
}

proof fn lemma_changed_entry<F>(
    pre: Seq<(String, TaskInfo<F>)>,
    post: Seq<(String, TaskInfo<F>)>,
    k: int,
)
    requires
        distinct_keys(pre),
        0 <= k < pre.len(),
        post == pre.update(k, (pre[k].0, post[k].1)),
    ensures
        distinct_keys(post),
        as_map(post) == as_map(pre).insert(pre[k].0@, post[k].1),
{
    assert(forall|j: int| 0 <= j < pre.len() ==> (#[trigger] post[j]).0 == pre[j].0);
    assert forall|x: Seq<char>| has_key(post, x) == has_key(pre, x) by {
        if has_key(post, x) {
            let j = choose|j: int| 0 <= j < post.len() && (#[trigger] post[j]).0@ == x;
            assert(pre[j].0@ == x);
        }
        if has_key(pre, x) {
            let j = choose|j: int| 0 <= j < pre.len() && (#[trigger] pre[j]).0@ == x;
            assert(post[j].0@ == x);
        }
    }
    lemma_entry(pre, k);
    assert forall|x: Seq<char>| has_key(post, x) implies #[trigger] as_map(post)[x] == as_map(
        pre,
    ).insert(pre[k].0@, post[k].1)[x] by {
        let j = choose|j: int| 0 <= j < post.len() && (#[trigger] post[j]).0@ == x;
        lemma_entry(post, j);
        lemma_entry(pre, j);
    }
    assert(as_map(post) =~= as_map(pre).insert(pre[k].0@, post[k].1));
}

proof fn lemma_unlisted<F>(
    queue: Seq<String>,
    after: Seq<String>,
    tasks: Map<Seq<char>, TaskInfo<F>>,
    tasks_after: Map<Seq<char>, TaskInfo<F>>,
    i: int,
)
    requires
        0 <= i < queue.len(),
        after == queue.subrange(i + 1, queue.len() as int) + keep(
            queue.subrange(0, i),
            queue_waits(tasks),
        ),
        tasks_after == tasks.insert(queue[i]@, tasks_after[queue[i]@]),
        !(tasks_after[queue[i]@].status is Pending),
        forall|id: Seq<char>| #[trigger] waits(tasks, id) ==> queued(queue, id),
    ensures
        forall|id: Seq<char>| #[trigger] waits(tasks_after, id) ==> queued(after, id),
{
    let head = queue.subrange(0, i);
    let kept = keep(head, queue_waits(tasks));
    lemma_keep_members(head, queue_waits(tasks));
    assert forall|id: Seq<char>| #[trigger] waits(tasks_after, id) implies queued(after, id) by {
        assert(id != queue[i]@);
        assert(waits(tasks, id));
        let j = choose|j: int| 0 <= j < queue.len() && (#[trigger] queue[j])@ == id;
        if j > i {
            assert(after[j - i - 1] == queue[j]);
        } else {
            assert(head[j] == queue[j]);
            assert(queue_waits(tasks)(head[j]));
            let m = choose|m: int| 0 <= m < kept.len() && kept[m] == head[j];
            assert(after[queue.len() - i - 1 + m] == queue[j]);
        }
    }
}

/// Ids of the stale tasks among the first `n` entries, in order.
pub open spec fn stale_ids<F>(
    entries: Seq<(String, TaskInfo<F>)>,
    n: int,
    timeout: u64,
    now: u64,
) -> Seq<String>
    decreases n,
{
    if n <= 0 {
        Seq::empty()
    } else if task_stale(entries[n - 1].1, timeout, now) {
        stale_ids(entries, n - 1, timeout, now).push(entries[n - 1].1.task_id)
    } else {
        stale_ids(entries, n - 1, timeout, now)
    }
}

impl<F: Copy> TaskStore<F> {
    /// Takes tasks back from nodes that have had them for longer than `timeout_secs`; they
    /// wait again, at the end of the queue.
    pub fn reassign_stale_tasks(&mut self, timeout_secs: u64, now: u64)
        requires
            old(self).wf(),
        ensures
            final(self).wf(),
            final(self).tasks@ == old(self).tasks@.map_values(
                |t: TaskInfo<F>| task_taken_back(t, timeout_secs, now),
            ),
            final(self).pending_queue@ == old(self).pending_queue@ + stale_ids(
                old(self).tasks.entries@,
                old(self).tasks.entries@.len() as int,
                timeout_secs,
                now,
            ),
    {
        let ghost pre = self.tasks.entries@;
        let ghost queue = self.pending_queue@;
        let mut i: usize = 0;
        while i < self.tasks.entries.len()
            invariant
                i <= pre.len(),
                pre == old(self).tasks.entries@,
                queue == old(self).pending_queue@,
                old(self).wf(),
                self.tasks.entries@.len() == pre.len(),
                forall|j: int|
                    0 <= j < i ==> #[trigger] self.tasks.entries@[j] == (
                        pre[j].0,
                        task_taken_back(pre[j].1, timeout_secs, now),
                    ),
                forall|j: int| i <= j < pre.len() ==> #[trigger] self.tasks.entries@[j] == pre[j],
                self.pending_queue@ == queue + stale_ids(pre, i as int, timeout_secs, now),
            decreases pre.len() - i,
        {
            assert(self.tasks.entries@[i as int] == pre[i as int]);
            let stale: bool = match &self.tasks.entries[i].1.status {
                TaskStatus::Assigned { node_id, assigned_at } => is_longer(
                    *assigned_at,
                    now,
                    timeout_secs,
                ),
                _ => false,
            };
            if stale {
                let id = self.tasks.entries[i].1.task_id.clone();
                self.tasks.entries[i].1.status = TaskStatus::Pending;
                self.pending_queue.push_back(id);
            }
            i = i + 1;
        }
        proof {
            let post = self.tasks.entries@;
            let back = |t: TaskInfo<F>| task_taken_back(t, timeout_secs, now);
            lemma_mapped_entries(pre, post, timeout_secs, now);
            let q = self.pending_queue@;
            assert forall|x: Seq<char>| #[trigger] waits(self.tasks@, x) implies queued(q, x) by {
                if waits(old(self).tasks@, x) {
                    let j = choose|j: int| 0 <= j < queue.len() && (#[trigger] queue[j])@ == x;
                    assert(q[j]@ == x);
                } else {
                    let j = choose|j: int| 0 <= j < pre.len() && (#[trigger] pre[j]).0@ == x;
                    lemma_entry(pre, j);
                    lemma_stale_listed(pre, pre.len() as int, timeout_secs, now, j);
                    let ids = stale_ids(pre, pre.len() as int, timeout_secs, now);
                    let m = choose|m: int| 0 <= m < ids.len() && ids[m] == pre[j].1.task_id;
                    assert(q[queue.len() + m]@ == x);
                }
            }
        }
    }

    /// Forgets finished tasks that are an hour old.
    pub fn cleanup_old_tasks(&mut self, now: u64)
        requires
            old(self).wf(),
        ensures
            final(self).wf(),
            final(self).pending_queue == old(self).pending_queue,
            forall|id: Seq<char>| #[trigger]
                final(self).tasks@.dom().contains(id) == (old(self).tasks@.dom().contains(id)
                    && !task_expired(old(self).tasks@[id], now)),
            forall|id: Seq<char>|
                final(self).tasks@.dom().contains(id) ==> #[trigger] final(self).tasks@[id] == old(
                    self,
                ).tasks@[id],
    {
        let ghost pre = self.tasks.entries@;
        let ghost stay = |e: (String, TaskInfo<F>)| !task_expired(e.1, now);
        let ghost mut seen: int = 0;
        let mut i: usize = 0;
        assert(pre.subrange(0, pre.len() as int) == pre);
        while i < self.tasks.entries.len()
            invariant
                0 <= seen <= pre.len(),
                i <= self.tasks.entries@.len(),
                stay == (|e: (String, TaskInfo<F>)| !task_expired(e.1, now)),
                i == keep(pre.subrange(0, seen), stay).len(),
                self.tasks.entries@ == keep(pre.subrange(0, seen), stay) + pre.subrange(
                    seen,
                    pre.len() as int,
                ),
                self.pending_queue == old(self).pending_queue,
            decreases pre.len() - seen,
        {
            proof {
                lemma_keep_step(pre, stay, seen);
                assert(self.tasks.entries@[i as int] == pre[seen]);
            }
            let finished: bool = match &self.tasks.entries[i].1.status {
                TaskStatus::Completed { response_text, duration_ms } => true,
                TaskStatus::Failed { error } => true,
                _ => false,
            };
            let age: u64 = now.saturating_sub(self.tasks.entries[i].1.created_at);
            if finished && age >= COMPLETED_TASK_TTL_SECS * 1_000_000_000 {
                let gone = self.tasks.entries.remove(i);
            } else {
                i = i + 1;
            }
            assert(self.tasks.entries@ == keep(pre.subrange(0, seen + 1), stay) + pre.subrange(
                seen + 1,
                pre.len() as int,
            ));
            proof {
                seen = seen + 1;
            }
        }
        proof {
            assert(self.tasks.entries@ == keep(pre, stay));
            lemma_keep_entries(pre, stay);
            lemma_keep_members(pre, stay);
            assert forall|j: int|
                0 <= j < self.tasks.entries@.len() implies (#[trigger] self.tasks.entries@[j]).0@
                == self.tasks.entries@[j].1.task_id@ by {
                assert(pre.contains(self.tasks.entries@[j]));
            }
            assert forall|id: Seq<char>| #[trigger]
                self.tasks@.dom().contains(id) == (old(self).tasks@.dom().contains(id)
                    && !task_expired(old(self).tasks@[id], now)) by {
                lemma_has_key(pre, id);
            }
            assert forall|x: Seq<char>| #[trigger] waits(self.tasks@, x) implies queued(
                self.pending_queue@,
                x,
            ) by {
                assert(self.tasks@.dom().contains(x));
                assert(waits(old(self).tasks@, x));
            }
        }
    }
}

proof fn lemma_mapped_entries<F>(
    pre: Seq<(String, TaskInfo<F>)>,
    post: Seq<(String, TaskInfo<F>)>,
    timeout: u64,
    now: u64,
)
    requires
        distinct_keys(pre),
        post.len() == pre.len(),
        forall|j: int|
            0 <= j < pre.len() ==> #[trigger] post[j] == (
                pre[j].0,
                task_taken_back(pre[j].1, timeout, now),
            ),
    ensures
        distinct_keys(post),
        as_map(post) == as_map(pre).map_values(
            |t: TaskInfo<F>| task_taken_back(t, timeout, now),
        ),
{
    let back = |t: TaskInfo<F>| task_taken_back(t, timeout, now);
    assert forall|x: Seq<char>| has_key(post, x) == has_key(pre, x) by {
        if has_key(post, x) {
            let j = choose|j: int| 0 <= j < post.len() && (#[trigger] post[j]).0@ == x;
            assert(pre[j].0@ == x);
        }
        if has_key(pre, x) {
            let j = choose|j: int| 0 <= j < pre.len() && (#[trigger] pre[j]).0@ == x;
            assert(post[j].0@ == x);
        }
    }
    assert forall|x: Seq<char>| has_key(post, x) implies #[trigger] as_map(post)[x] == as_map(
        pre,
    ).map_values(back)[x] by {
        let j = choose|j: int| 0 <= j < post.len() && (#[trigger] post[j]).0@ == x;
        lemma_entry(post, j);
        lemma_entry(pre, j);
    }
    assert(as_map(post) =~= as_map(pre).map_values(back));
}

proof fn lemma_stale_listed<F>(
    entries: Seq<(String, TaskInfo<F>)>,
    n: int,
    timeout: u64,
    now: u64,
    j: int,
)
    requires
        0 <= j < n <= entries.len(),
        task_stale(entries[j].1, timeout, now),
    ensures
        stale_ids(entries, n, timeout, now).contains(entries[j].1.task_id),
    decreases n,
{
    let ids = stale_ids(entries, n, timeout, now);
    if j == n - 1 {
        assert(ids[ids.len() - 1] == entries[j].1.task_id);
    } else {
        lemma_stale_listed(entries, n - 1, timeout, now, j);
        let prev = stale_ids(entries, n - 1, timeout, now);
        let m = choose|m: int| 0 <= m < prev.len() && prev[m] == entries[j].1.task_id;
        assert(ids[m] == entries[j].1.task_id);
    }
}

// ── Laws ─────────────────────────────────────────────────────────────────────

/// A waiting task for one of the node's models is never passed over: the node that asks gets
/// a task.
pub proof fn law_waiting_task_is_served<F>(s: TaskStore<F>, models: Seq<String>, id: Seq<char>)
    requires
        s.wf(),
        fits(s.tasks@, models, id),
    ensures
        first_index(s.pending_queue@, queue_fits(s.tasks@, models)) < s.pending_queue@.len(),
{
    assert(waits(s.tasks@, id));
    let q = s.pending_queue@;
    let p = queue_fits(s.tasks@, models);
    let j = choose|j: int| 0 <= j < q.len() && (#[trigger] q[j])@ == id;
    lemma_index_from(q, p, 0);
    if first_index(q, p) == q.len() {
        assert(!p(q[j]));
    }
}

/// A task is handed out to one node at a time.
pub proof fn law_assigned_task_does_not_wait<F>(
    pre: TaskInfo<F>,
    post: TaskInfo<F>,
    node_id: Seq<char>,
    now: u64,
)
    requires
        task_assigned(pre, post, node_id, now),
    ensures
        !(post.status is Pending),
        post.task_id == pre.task_id,
        post.prompt == pre.prompt,
{
}

/// Finished tasks are kept for less than an hour, and only finished ones are forgotten.
pub proof fn law_only_finished_tasks_expire<F>(t: TaskInfo<F>, now: u64)
    ensures
        t.status is Pending ==> !task_expired(t, now),
        t.status is Assigned ==> !task_expired(t, now),
        task_expired(t, now) ==> now - t.created_at >= 3600 * 1_000_000_000,
{
}

} // verus!
