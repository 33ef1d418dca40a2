//! What holds of nodes and tasks from registration to result.
use crate::registry::{NodeCapabilities, NodeInfo};
use crate::router::TaskRouter;
use crate::task_store::{InferenceTask, TaskInfo, TaskStatus, TaskStore};
use vstd::prelude::*;

verus! {

use crate::coordinator::settled;
use crate::registry::{is_alive, refreshed, registered};
use crate::router::handed_out;
use crate::seqs::{first_index, keep, lemma_index_from, lemma_keep_all, lemma_keep_members};
use crate::task_store::{
    is_new_task,
    queue_after,
    queue_fits,
    queue_waits,
    stale_ids,
    task_expired,
    task_stale,
    task_taken_back,
};

// ── Tasks ────────────────────────────────────────────────────────────────────

/// Whether a task waits that a node with these models can run.
pub open spec fn can_run<F>(
    tasks: Map<Seq<char>, TaskInfo<F>>,
    models: Seq<String>,
    id: Seq<char>,
) -> bool {
    &&& tasks.dom().contains(id)
    &&& tasks[id].status is Pending
    &&& exists|m: int| 0 <= m < models.len() && (#[trigger] models[m])@ == tasks[id].model@
}

/// Whether an id stands in the queue.
pub open spec fn in_queue(queue: Seq<String>, id: Seq<char>) -> bool {
    exists|i: int| 0 <= i < queue.len() && (#[trigger] queue[i])@ == id
}

/// A node that asks for work gets a task exactly if one waits that it can run. It gets the one
/// that stands first in the queue, as it was asked for. That task is then the node's, every
/// other task is as it was, and every other one that waits stays in the queue.
pub proof fn law_node_gets_the_first_task_it_can_run<F>(
    pre: TaskRouter<F>,
    node_id: Seq<char>,
    now: u64,
    r: Option<InferenceTask<F>>,
    post: TaskRouter<F>,
) -> (k: int)
    requires
        pre.task_store.wf(),
        pre.registry.nodes@.dom().contains(node_id),
        handed_out(pre, node_id, now, r, post),
    ensures
        ({
            let models = pre.registry.nodes@[node_id].capabilities.available_models@;
            let tasks = pre.task_store.tasks@;
            let queue = pre.task_store.pending_queue@;
            let after = post.task_store.tasks@;
            &&& r is Some <==> exists|id: Seq<char>| #[trigger] can_run(tasks, models, id)
            &&& r is None ==> after == tasks
            &&& r is Some ==> {
                let id = r->0.task_id@;
                &&& 0 <= k < queue.len()
                &&& queue[k]@ == id
                &&& can_run(tasks, models, id)
                &&& forall|j: int| 0 <= j < k ==> !can_run(tasks, models, (#[trigger] queue[j])@)
                &&& r->0.model == tasks[id].model
                &&& r->0.prompt == tasks[id].prompt
                &&& r->0.temperature == tasks[id].temperature
                &&& r->0.max_tokens == tasks[id].max_tokens
                &&& after.dom() == tasks.dom()
                &&& after[id].status is Assigned
                &&& after[id].status->Assigned_node_id@ == node_id
                &&& after[id].status->Assigned_assigned_at == now
                &&& after[id].prompt == tasks[id].prompt
                &&& forall|x: Seq<char>|
                    tasks.dom().contains(x) && x != id ==> #[trigger] after[x] == tasks[x]
            }
            &&& forall|x: Seq<char>|
                tasks.dom().contains(x) && tasks[x].status is Pending && (r is None || x
                    != r->0.task_id@) ==> #[trigger] in_queue(post.task_store.pending_queue@, x)
        }),
{
    let models = pre.registry.nodes@[node_id].capabilities.available_models@;
    let tasks = pre.task_store.tasks@;
    let queue = pre.task_store.pending_queue@;
    let p = queue_fits(tasks, models);
    lemma_index_from(queue, p, 0);
    let k = first_index(queue, p);
    assert forall|s: String| #[trigger] p(s) == can_run(tasks, models, s@) by {}
    assert forall|x: Seq<char>| #[trigger] can_run(tasks, models, x) implies k < queue.len() by {
        assert(crate::task_store::waits(tasks, x));
        let j = choose|j: int| 0 <= j < queue.len() && (#[trigger] queue[j])@ == x;
        if k == queue.len() {
            assert(!p(queue[j]));
        }
    }
    if k < queue.len() {
        assert(p(queue[k]));
        let id = queue[k]@;
        assert(can_run(tasks, models, id));
        crate::table::lemma_has_key(pre.task_store.tasks.entries@, id);
        lemma_stored_under_id(pre.task_store, id);
        assert(r->0.task_id@ == id);
        assert forall|j: int| 0 <= j < k implies !can_run(
            tasks,
            models,
            (#[trigger] queue[j])@,
        ) by {
            assert(!p(queue[j]));
        }
        assert(post.task_store.tasks@.dom() =~= tasks.dom());
    }
    assert forall|x: Seq<char>|
        tasks.dom().contains(x) && tasks[x].status is Pending && (r is None || x
            != r->0.task_id@) implies #[trigger] in_queue(post.task_store.pending_queue@, x) by {
        assert(crate::task_store::waits(tasks, x));
        let j = choose|j: int| 0 <= j < queue.len() && (#[trigger] queue[j])@ == x;
        lemma_stays_queued(queue, tasks, models, j);
    }
    k
}

proof fn lemma_stored_under_id<F>(s: TaskStore<F>, id: Seq<char>)
    requires
        s.wf(),
        s.tasks@.dom().contains(id),
    ensures
        s.tasks@[id].task_id@ == id,
{
    let entries = s.tasks.entries@;
    crate::table::lemma_has_key(entries, id);
    let j = choose|j: int| 0 <= j < entries.len() && (#[trigger] entries[j]).0@ == id;
    crate::table::lemma_entry(entries, j);
}

proof fn lemma_stays_queued<F>(
    queue: Seq<String>,
    tasks: Map<Seq<char>, TaskInfo<F>>,
    models: Seq<String>,
    j: int,
)
    requires
        0 <= j < queue.len(),
        crate::task_store::waits(tasks, queue[j]@),
        ({
            let k = first_index(queue, queue_fits(tasks, models));
            k < queue.len() ==> queue[j]@ != queue[k]@
        }),
    ensures
        in_queue(queue_after(queue, tasks, models), queue[j]@),
{
    let p = queue_fits(tasks, models);
    let w = queue_waits(tasks);
    let k = first_index(queue, p);
    lemma_index_from(queue, p, 0);
    let after = queue_after(queue, tasks, models);
    assert(w(queue[j]));
    if k < queue.len() {
        let head = queue.subrange(0, k);
        let tail = queue.subrange(k + 1, queue.len() as int);
        if j > k {
            assert(after[j - k - 1] == queue[j]);
        } else {
            assert(head[j] == queue[j]);
            lemma_keep_members(head, w);
            let kept = keep(head, w);
            assert(kept.contains(head[j]));
            let m = choose|m: int| 0 <= m < kept.len() && kept[m] == head[j];
            assert(after[tail.len() + m] == queue[j]);
        }
    } else {
        lemma_keep_members(queue, w);
        assert(after.contains(queue[j]));
        let m = choose|m: int| 0 <= m < after.len() && after[m] == queue[j];
        assert(after[m]@ == queue[j]@);
    }
}

/// An unknown node gets nothing, and nothing changes.
pub proof fn law_unknown_node_gets_nothing<F>(
    pre: TaskRouter<F>,
    node_id: Seq<char>,
    now: u64,
    r: Option<InferenceTask<F>>,
    post: TaskRouter<F>,
)
    requires
        handed_out(pre, node_id, now, r, post),
        !pre.registry.nodes@.dom().contains(node_id),
    ensures
        r is None,
        post == pre,
{
}

/// A new task waits, as it was asked for, with no more tokens than were asked for and no more
/// than 8192.
pub proof fn law_new_task_waits<F>(
    t: TaskInfo<F>,
    id: Seq<char>,
    model: String,
    prompt: String,
    temperature: F,
    max_tokens: u32,
    now: u64,
)
    requires
        is_new_task(t, id, model, prompt, temperature, max_tokens, now),
    ensures
        t.status is Pending,
        t.task_id@ == id,
        t.model == model,
        t.prompt == prompt,
        t.temperature == temperature,
        t.created_at == now,
        t.max_tokens <= max_tokens,
        t.max_tokens <= 8192,
        t.max_tokens == max_tokens || t.max_tokens == 8192,
{
}

/// What a node reports of a task is what is found under its id, beside what was asked; no other
/// task changes, and a report on an unknown one changes nothing.
pub proof fn law_result_is_found_again<F>(
    pre: Map<Seq<char>, TaskInfo<F>>,
    id: Seq<char>,
    status: TaskStatus,
    other: Seq<char>,
)
    ensures
        pre.dom().contains(id) ==> {
            let t = settled(pre, id, status)[id];
            &&& t.status == status
            &&& t.task_id == pre[id].task_id
            &&& t.prompt == pre[id].prompt
            &&& t.model == pre[id].model
            &&& t.created_at == pre[id].created_at
        },
        settled(pre, id, status).dom() == pre.dom(),
        other != id ==> settled(pre, id, status)[other] == pre[other],
        !pre.dom().contains(id) ==> settled(pre, id, status) == pre,
{
    assert(settled(pre, id, status).dom() =~= pre.dom());
}

/// A task is taken back exactly if a node has had it for longer than the timeout: it then waits
/// again, and is otherwise as it was.
pub proof fn law_only_late_tasks_are_taken_back<F>(t: TaskInfo<F>, timeout: u64, now: u64)
    ensures
        ({
            let late = t.status is Assigned && now as int
                - t.status->Assigned_assigned_at as int > timeout * 1_000_000_000;
            let b = task_taken_back(t, timeout, now);
            &&& late ==> b.status is Pending
            &&& late ==> b.task_id == t.task_id && b.prompt == t.prompt && b.model == t.model
                && b.max_tokens == t.max_tokens
            &&& !late ==> b == t
        }),
{
}

/// A task is forgotten exactly if it is finished and was created an hour ago or earlier.
pub proof fn law_finished_tasks_are_kept_for_an_hour<F>(t: TaskInfo<F>, now: u64)
    ensures
        task_expired(t, now) <==> (t.status is Completed || t.status is Failed) && now as int
            - t.created_at as int >= 3600 * 1_000_000_000,
{
}

/// The tasks that are taken back stand in the queue again, each as often as it is stored, and no
/// others are added.
pub proof fn law_late_tasks_are_queued_again<F>(
    entries: Seq<(String, TaskInfo<F>)>,
    n: int,
    timeout: u64,
    now: u64,
    i: int,
)
    requires
        0 <= i < n <= entries.len(),
    ensures
        task_taken_back(entries[i].1, timeout, now) != entries[i].1 ==> stale_ids(
            entries,
            n,
            timeout,
            now,
        ).contains(entries[i].1.task_id),
        forall|m: int|
            0 <= m < stale_ids(entries, n, timeout, now).len() ==> exists|j: int|
                0 <= j < n && (#[trigger] entries[j]).1.task_id == #[trigger] stale_ids(
                    entries,
                    n,
                    timeout,
                    now,
                )[m] && entries[j].1.status is Assigned,
        stale_ids(entries, n, timeout, now).len() <= n,
    decreases n,
{
    let ids = stale_ids(entries, n, timeout, now);
    let prev = stale_ids(entries, n - 1, timeout, now);
    if n > 1 {
        let x = if i < n - 1 {
            i
        } else {
            0
        };
        law_late_tasks_are_queued_again(entries, n - 1, timeout, now, x);
    } else {
        assert(prev.len() == 0);
    }
    if task_taken_back(entries[i].1, timeout, now) != entries[i].1 {
        if i < n - 1 {
            let m = choose|m: int| 0 <= m < prev.len() && prev[m] == entries[i].1.task_id;
            assert(ids[m] == prev[m]);
        } else {
            assert(ids[ids.len() - 1] == entries[i].1.task_id);
        }
    }
    assert forall|m: int| 0 <= m < ids.len() implies exists|j: int|
        0 <= j < n && (#[trigger] entries[j]).1.task_id == #[trigger] ids[m]
            && entries[j].1.status is Assigned by {
        if m < prev.len() {
            assert(ids[m] == prev[m]);
            let j = choose|j: int|
                0 <= j < n - 1 && (#[trigger] entries[j]).1.task_id == prev[m]
                    && entries[j].1.status is Assigned;
            assert(entries[j].1.task_id == ids[m]);
        } else {
            assert(entries[n - 1].1.task_id == ids[m]);
        }
    }
}

// ── Nodes ────────────────────────────────────────────────────────────────────

/// A node that registers is known under its new id, with what it offers. Nobody else has its
/// name then, and every node of another name stays as it is.
pub proof fn law_registration_replaces_the_name(
    pre: Map<Seq<char>, NodeInfo>,
    post: Map<Seq<char>, NodeInfo>,
    id: Seq<char>,
    name: String,
    capabilities: NodeCapabilities,
    now: u64,
    other: Seq<char>,
)
    requires
        registered(pre, post, id, name, capabilities, now),
    ensures
        post.dom().contains(id),
        post[id].node_name == name,
        post[id].capabilities == capabilities,
        post[id].active_tasks == 0,
        post[id].last_heartbeat == now,
        post.dom().contains(other) && post[other].node_name@ == name@ ==> other == id,
        other != id && pre.dom().contains(other) && pre[other].node_name@ != name@
            ==> post.dom().contains(other) && post[other] == pre[other],
        other != id && post.dom().contains(other) ==> pre.dom().contains(other),
{
    if other != id && post.dom().contains(other) {
        assert(post[other] == pre[other]);
    }
}

/// A sign of life renews the moment and the number of tasks of its node and nothing else.
pub proof fn law_sign_of_life_renews_one_node(
    pre: Map<Seq<char>, NodeInfo>,
    id: Seq<char>,
    active_tasks: u32,
    now: u64,
    other: Seq<char>,
)
    ensures
        refreshed(pre, id, active_tasks, now).dom() == pre.dom(),
        pre.dom().contains(id) ==> {
            let n = refreshed(pre, id, active_tasks, now)[id];
            &&& n.last_heartbeat == now
            &&& n.active_tasks == active_tasks
            &&& n.node_name == pre[id].node_name
            &&& n.capabilities == pre[id].capabilities
            &&& n.registered_at == pre[id].registered_at
        },
        other != id ==> refreshed(pre, id, active_tasks, now)[other] == pre[other],
{
    assert(refreshed(pre, id, active_tasks, now).dom() =~= pre.dom());
}

/// A node counts as alive exactly while its last sign of life is younger than the timeout.
pub proof fn law_node_is_alive_while_it_is_heard_of(n: NodeInfo, secs: u64, now: u64)
    requires
        secs > 0,
    ensures
        is_alive(n, secs, now) <==> (now - n.last_heartbeat) < secs * 1_000_000_000,
{
}

/// Handing out a task leaves the queue in its order: what stood behind the task comes first, then
/// what was passed over, and where no task was handed out all stay where they are.
pub proof fn law_queue_keeps_its_order<F>(
    pre: TaskRouter<F>,
    node_id: Seq<char>,
    now: u64,
    r: Option<InferenceTask<F>>,
    post: TaskRouter<F>,
) -> (k: int)
    requires
        pre.task_store.wf(),
        pre.registry.nodes@.dom().contains(node_id),
        handed_out(pre, node_id, now, r, post),
        forall|i: int|
            0 <= i < pre.task_store.pending_queue@.len() ==> {
                let id = (#[trigger] pre.task_store.pending_queue@[i])@;
                pre.task_store.tasks@.dom().contains(id)
                    && pre.task_store.tasks@[id].status is Pending
            },
    ensures
        r is None ==> post.task_store.pending_queue@ == pre.task_store.pending_queue@,
        r is Some ==> {
            let queue = pre.task_store.pending_queue@;
            &&& 0 <= k < queue.len()
            &&& queue[k]@ == r->0.task_id@
            &&& post.task_store.pending_queue@ == queue.subrange(k + 1, queue.len() as int)
                + queue.subrange(0, k)
        },
{
    let models = pre.registry.nodes@[node_id].capabilities.available_models@;
    let tasks = pre.task_store.tasks@;
    let queue = pre.task_store.pending_queue@;
    let w = queue_waits(tasks);
    let f = first_index(queue, queue_fits(tasks, models));
    lemma_index_from(queue, queue_fits(tasks, models), 0);
    if f < queue.len() {
        let head = queue.subrange(0, f);
        assert forall|i: int| 0 <= i < head.len() implies w(#[trigger] head[i]) by {
            assert(head[i] == queue[i]);
        }
        lemma_keep_all(head, w);
        assert(can_run(tasks, models, queue[f]@)) by {
            assert(queue_fits(tasks, models)(queue[f]));
        }
        lemma_stored_under_id(pre.task_store, queue[f]@);
        assert(r->0.task_id@ == queue[f]@);
    } else {
        lemma_keep_all(queue, w);
        assert(r is None);
    }
    f
}

} // verus!
