//! The coordinator's dealings with registered nodes, over HTTP and gRPC alike.
//!
//! Bodies of HTTP requests come as JSON texts, moments in nanoseconds. `F` is the number
//! type of temperatures.
use crate::http_api::{
    parse_heartbeat,
    parse_node_id,
    parse_registration,
    parse_task_report,
    TaskReport,
    DEFAULT_MAX_TOKENS,
    HEARTBEAT_BYTES,
};
use crate::json;
use crate::metrics::LiveCounters;
use crate::registry::NodeCapabilities;
use crate::router::TaskRouter;
use crate::table::Table;
use crate::task_store::{InferenceTask, TaskInfo, TaskStatus};
use crate::training_store::TrainingStore;
use vstd::prelude::*;

verus! {

use crate::json::{is_true, json_get, number_or, string_or, strings_at};
use crate::registry::{is_alive, refreshed, registered};
use crate::router::handed_out;
use crate::task_laws::{
    law_finished_tasks_are_kept_for_an_hour,
    law_only_late_tasks_are_taken_back,
};
use crate::task_store::{is_new_task, stale_ids, task_expired, task_taken_back};
use crate::text::texts;
use crate::training_store::{law_only_late_shards_are_taken_back, shard_taken_back, DataShard};

/// An order to a node, which it gets with its next heartbeat. What the sender passes on
/// untouched is kept as JSON text.
#[derive(Debug)]
pub struct NodeSignal {
    pub signal: String,
    pub role: String,
    pub urgency: String,
    pub cluster_id: Option<String>,
    pub layer_start: Option<String>,
    pub layer_end: Option<String>,
    pub next_node: Option<String>,
    pub position: Option<String>,
}

/// The member of a body that is passed on.
pub open spec fn passed_on(field: Option<String>, body: Seq<char>, key: Seq<char>) -> bool {
    match field {
        Some(v) => json_get(body, key) == Some(v@),
        None => json_get(body, key) is None,
    }
}

/// The order that a body states.
pub open spec fn is_signal(s: NodeSignal, body: Seq<char>) -> bool {
    &&& s.signal@ == string_or(body, "signal"@, ""@)
    &&& s.role@ == string_or(body, "role"@, "trainer"@)
    &&& s.urgency@ == string_or(body, "urgency"@, "graceful"@)
    &&& passed_on(s.cluster_id, body, "cluster_id"@)
    &&& passed_on(s.layer_start, body, "layer_start"@)
    &&& passed_on(s.layer_end, body, "layer_end"@)
    &&& passed_on(s.next_node, body, "next_node"@)
    &&& passed_on(s.position, body, "position"@)
}

/// The answer to a heartbeat.
#[derive(Debug)]
pub enum HeartbeatReply {
    NotRegistered,
    Acknowledged { signal: Option<NodeSignal> },
}

/// What the coordinator knows of nodes and tasks.
#[derive(Debug)]
pub struct Coordinator<F> {
    pub router: TaskRouter<F>,
    pub counters: LiveCounters,
    pub pending_signals: Table<NodeSignal>,
    pub heartbeat_timeout_secs: u64,
}

impl<F> Coordinator<F> {
    pub open spec fn wf(self) -> bool {
        &&& self.router.registry.wf()
        &&& self.router.task_store.wf()
        &&& self.pending_signals.wf()
    }

    /// Nodes, tasks and settings of `self` and `other` are the same but for the nodes.
    pub open spec fn same_but_nodes(self, other: Self) -> bool {
        &&& self.router.task_store == other.router.task_store
        &&& self.heartbeat_timeout_secs == other.heartbeat_timeout_secs
    }

    /// `self` and `other` differ at most in their tasks.
    pub open spec fn same_but_tasks(self, other: Self) -> bool {
        &&& self.router.registry == other.router.registry
        &&& self.counters == other.counters
        &&& self.pending_signals == other.pending_signals
        &&& self.heartbeat_timeout_secs == other.heartbeat_timeout_secs
    }
}

/// The tasks after one of them was settled with this status.
pub open spec fn settled<F>(
    pre: Map<Seq<char>, TaskInfo<F>>,
    task_id: Seq<char>,
    status: TaskStatus,
) -> Map<Seq<char>, TaskInfo<F>> {
    if pre.dom().contains(task_id) {
        pre.insert(task_id, TaskInfo { status, ..pre[task_id] })
    } else {
        pre
    }
}

/// The counters with one more heartbeat.
pub open spec fn heartbeat_counted(c: LiveCounters) -> LiveCounters {
    LiveCounters {
        heartbeats: c.heartbeats.wrapping_add(1),
        bytes_in: c.bytes_in.wrapping_add(HEARTBEAT_BYTES),
        ..c
    }
}

/// How a body says that its task ended.
pub open spec fn reported_status(body: Seq<char>, status: TaskStatus) -> bool {
    if is_true(body, "success"@) {
        status is Completed && status->response_text@ == string_or(body, "response_text"@, ""@)
            && status->duration_ms == number_or(body, "duration_ms"@, 0)
    } else {
        status is Failed && status->error@ == string_or(body, "error_message"@, ""@)
    }
}

/// Whether a heartbeat was taken so: a known node is told the order that waits for it, once.
pub open spec fn heartbeat_taken<F>(
    pre: Coordinator<F>,
    body: Seq<char>,
    now: u64,
    post: Coordinator<F>,
    r: HeartbeatReply,
) -> bool {
    let id = string_or(body, "node_id"@, ""@);
    let nodes = pre.router.registry.nodes@;
    let signals = pre.pending_signals@;
    &&& post.same_but_nodes(pre)
    &&& post.counters == heartbeat_counted(pre.counters)
    &&& post.router.registry.nodes@ == refreshed(
        nodes,
        id,
        (number_or(body, "active_tasks"@, 0) % 0x1_0000_0000) as u32,
        now,
    )
    &&& if nodes.dom().contains(id) {
        &&& r is Acknowledged
        &&& post.pending_signals@ == signals.remove(id)
        &&& match r->signal {
            Some(s) => signals.dom().contains(id) && s == signals[id],
            None => !signals.dom().contains(id),
        }
    } else {
        r is NotRegistered && post.pending_signals@ == signals
    }
}

/// Whether the order that a body states was left for a node.
pub open spec fn signal_left<F>(
    pre: Coordinator<F>,
    body: Seq<char>,
    node_id: Seq<char>,
    post: Coordinator<F>,
) -> bool {
    &&& post.router == pre.router
    &&& post.counters == pre.counters
    &&& post.heartbeat_timeout_secs == pre.heartbeat_timeout_secs
    &&& node_id == string_or(body, "node_id"@, ""@)
    &&& exists|s: NodeSignal| #[trigger]
        is_signal(s, body) && post.pending_signals@ == pre.pending_signals@.insert(node_id, s)
}

/// Whether the end of a task was noted as its node reports it.
pub open spec fn is_reported<F>(
    pre: Coordinator<F>,
    body: Seq<char>,
    post: Coordinator<F>,
) -> bool {
    &&& post.same_but_tasks(pre)
    &&& post.router.task_store.pending_queue == pre.router.task_store.pending_queue
    &&& exists|status: TaskStatus| #[trigger]
        reported_status(body, status) && post.router.task_store.tasks@ == settled(
            pre.router.task_store.tasks@,
            string_or(body, "task_id"@, ""@),
            status,
        )
}

/// Whether silent nodes and old tasks were forgotten, and late tasks taken back.
pub open spec fn is_reaped<F>(pre: Coordinator<F>, now: u64, post: Coordinator<F>) -> bool {
    let timeout = pre.heartbeat_timeout_secs;
    let patience = (timeout * 3) as u64;
    let nodes = pre.router.registry.nodes@;
    let left = post.router.registry.nodes@;
    let tasks = pre.router.task_store.tasks@;
    let kept = post.router.task_store.tasks@;
    &&& post.counters == pre.counters
    &&& post.pending_signals == pre.pending_signals
    &&& post.heartbeat_timeout_secs == pre.heartbeat_timeout_secs
    &&& forall|id: Seq<char>| #[trigger]
        left.dom().contains(id) == (nodes.dom().contains(id) && is_alive(nodes[id], timeout, now))
    &&& forall|id: Seq<char>| left.dom().contains(id) ==> #[trigger] left[id] == nodes[id]
    &&& forall|id: Seq<char>| #[trigger]
        kept.dom().contains(id) == (tasks.dom().contains(id) && !task_expired(
            task_taken_back(tasks[id], patience, now),
            now,
        ))
    &&& forall|id: Seq<char>|
        kept.dom().contains(id) ==> #[trigger] kept[id] == task_taken_back(
            tasks[id],
            patience,
            now,
        )
    &&& post.router.task_store.pending_queue@ == pre.router.task_store.pending_queue@ + stale_ids(
        pre.router.task_store.tasks.entries@,
        pre.router.task_store.tasks.entries@.len() as int,
        patience,
        now,
    )
}

impl<F: Copy> Coordinator<F> {
    /// A coordinator for these nodes and tasks, with nothing counted and no orders.
    pub fn new(router: TaskRouter<F>, heartbeat_timeout_secs: u64) -> (c: Self)
        requires
            router.registry.wf(),
            router.task_store.wf(),
        ensures
            c.wf(),
            c.router == router,
            c.pending_signals@ == Map::<Seq<char>, NodeSignal>::empty(),
            c.heartbeat_timeout_secs == heartbeat_timeout_secs,
            c.counters.grpc_requests == 0,
            c.counters.http_requests == 0,
            c.counters.heartbeats == 0,
            c.counters.bytes_in == 0,
            c.counters.bytes_out == 0,
            c.counters.inference_requests == 0,
            c.counters.inference_completed == 0,
            c.counters.tensor_ops == 0,
    {
        Coordinator {
            router,
            counters: LiveCounters::new(),
            pending_signals: Table::new(),
            heartbeat_timeout_secs,
        }
    }

    /// Seconds between heartbeats that nodes registered over gRPC are told.
    pub fn heartbeat_interval_secs(&self) -> (n: u64)
        ensures
            n == self.heartbeat_timeout_secs / 3,
    {
        self.heartbeat_timeout_secs / 3
    }

    // ── HTTP ─────────────────────────────────────────────────────────────────

    /// Registers the node that the body describes. Returns its id.
    pub fn http_register(&mut self, body: &str, now: u64) -> (id: String)
        requires
            old(self).wf(),
        ensures
            final(self).wf(),
            final(self).same_but_nodes(*old(self)),
            final(self).pending_signals == old(self).pending_signals,
            final(self).counters == (LiveCounters {
                http_requests: old(self).counters.http_requests.wrapping_add(1),
                ..old(self).counters
            }),
            id@.len() == 36,
            exists|name: String, caps: NodeCapabilities|
                {
                    &&& #[trigger] registered(
                        old(self).router.registry.nodes@,
                        final(self).router.registry.nodes@,
                        id@,
                        name,
                        caps,
                        now,
                    )
                    &&& name@ == string_or(body@, "node_name"@, "unknown"@)
                    &&& texts(caps.available_models@) == strings_at(body@, "models"@)
                    &&& caps.hardware_info@ == string_or(body@, "hardware_info"@, ""@)
                    &&& caps.max_concurrent_tasks == number_or(body@, "max_concurrent_tasks"@, 1)
                        % 0x1_0000_0000
                },
    {
        self.counters.http_requests = self.counters.http_requests.wrapping_add(1);
        let (name, caps) = parse_registration(body);
        self.router.registry.register(name, caps, now)
    }

    /// A sign of life. A known node is told the order that waits for it, once.
    pub fn http_heartbeat(&mut self, body: &str, now: u64) -> (r: HeartbeatReply)
        requires
            old(self).wf(),
        ensures
            final(self).wf(),
            heartbeat_taken(*old(self), body@, now, *final(self), r),
    {
        self.counters.heartbeats = self.counters.heartbeats.wrapping_add(1);
        self.counters.bytes_in = self.counters.bytes_in.wrapping_add(HEARTBEAT_BYTES);
        let (node_id, active_tasks) = parse_heartbeat(body);
        if self.router.registry.heartbeat(node_id.as_str(), active_tasks, now) {
            HeartbeatReply::Acknowledged { signal: self.pending_signals.remove(node_id.as_str()) }
        } else {
            HeartbeatReply::NotRegistered
        }
    }

    /// A node asks for work.
    pub fn http_poll_task(&mut self, body: &str, now: u64) -> (r: Option<InferenceTask<F>>)
        requires
            old(self).wf(),
        ensures
            final(self).wf(),
            final(self).same_but_tasks(*old(self)),
            handed_out(
                old(self).router,
                string_or(body@, "node_id"@, ""@),
                now,
                r,
                final(self).router,
            ),
    {
        let node_id = parse_node_id(body);
        self.router.assign_task_for_node(node_id.as_str(), now)
    }

    /// A node reports how its task ended. A report on an unknown task changes nothing.
    pub fn http_submit_result(&mut self, body: &str)
        requires
            old(self).wf(),
        ensures
            final(self).wf(),
            is_reported(*old(self), body@, *final(self)),
    {
        match parse_task_report(body) {
            TaskReport::Done { task_id, response_text, duration_ms } => {
                let ghost status = TaskStatus::Completed { response_text, duration_ms };
                assert(reported_status(body@, status));
                self.router.task_store.complete_task(task_id.as_str(), response_text, duration_ms);
            },
            TaskReport::Failed { task_id, error_message } => {
                let ghost status = TaskStatus::Failed { error: error_message };
                assert(reported_status(body@, status));
                self.router.task_store.fail_task(task_id.as_str(), error_message);
            },
        }
    }

    /// A node leaves.
    pub fn http_deregister(&mut self, body: &str)
        requires
            old(self).wf(),
        ensures
            final(self).wf(),
            final(self).same_but_nodes(*old(self)),
            final(self).counters == old(self).counters,
            final(self).pending_signals == old(self).pending_signals,
            final(self).router.registry.nodes@ == old(self).router.registry.nodes@.remove(
                string_or(body@, "node_id"@, ""@),
            ),
    {
        let node_id = parse_node_id(body);
        self.router.registry.deregister(node_id.as_str());
    }

    /// Leaves an order for a node; an order that already waits there is replaced. Returns the
    /// node's id.
    pub fn http_node_signal(&mut self, body: &str) -> (node_id: String)
        requires
            old(self).wf(),
        ensures
            final(self).wf(),
            signal_left(*old(self), body@, node_id@, *final(self)),
    {
        let node_id = parse_node_id(body);
        let s = NodeSignal {
            signal: json::get_string_or(body, "signal", ""),
            role: json::get_string_or(body, "role", "trainer"),
            urgency: json::get_string_or(body, "urgency", "graceful"),
            cluster_id: json::get(body, "cluster_id"),
            layer_start: json::get(body, "layer_start"),
            layer_end: json::get(body, "layer_end"),
            next_node: json::get(body, "next_node"),
            position: json::get(body, "position"),
        };
        assert(is_signal(s, body@));
        self.pending_signals.insert(node_id.clone(), s);
        node_id
    }

    /// Takes a task; one that states no token limit gets the default. Returns its id.
    pub fn create_inference(
        &mut self,
        model: String,
        prompt: String,
        temperature: F,
        max_tokens: Option<u32>,
        now: u64,
    ) -> (id: String)
        requires
            old(self).wf(),
        ensures
            final(self).wf(),
            final(self).same_but_tasks(*old(self)),
            id@.len() == 36,
            ({
                let pre = old(self).router.task_store;
                let post = final(self).router.task_store;
                &&& post.tasks@.dom().contains(id@)
                &&& post.tasks@ == pre.tasks@.insert(id@, post.tasks@[id@])
                &&& is_new_task(
                    post.tasks@[id@],
                    id@,
                    model,
                    prompt,
                    temperature,
                    match max_tokens {
                        Some(n) => n,
                        None => DEFAULT_MAX_TOKENS,
                    },
                    now,
                )
                &&& post.pending_queue@ == pre.pending_queue@.push(id)
            }),
    {
        let limit: u32 = match max_tokens {
            Some(n) => n,
            None => DEFAULT_MAX_TOKENS,
        };
        self.router.task_store.create_task(model, prompt, temperature, limit, now)
    }

    // ── gRPC ─────────────────────────────────────────────────────────────────

    /// Registers a node. Returns its id.
    pub fn grpc_register(
        &mut self,
        node_name: String,
        capabilities: NodeCapabilities,
        now: u64,
    ) -> (id: String)
        requires
            old(self).wf(),
        ensures
            final(self).wf(),
            final(self).same_but_nodes(*old(self)),
            final(self).pending_signals == old(self).pending_signals,
            final(self).counters == (LiveCounters {
                grpc_requests: old(self).counters.grpc_requests.wrapping_add(1),
                ..old(self).counters
            }),
            id@.len() == 36,
            registered(
                old(self).router.registry.nodes@,
                final(self).router.registry.nodes@,
                id@,
                node_name,
                capabilities,
                now,
            ),
    {
        self.counters.grpc_requests = self.counters.grpc_requests.wrapping_add(1);
        self.router.registry.register(node_name, capabilities, now)
    }

    /// A sign of life. Returns whether the node is registered.
    pub fn grpc_heartbeat(&mut self, node_id: &str, active_tasks: u32, now: u64) -> (known: bool)
        requires
            old(self).wf(),
        ensures
            final(self).wf(),
            final(self).same_but_nodes(*old(self)),
            final(self).pending_signals == old(self).pending_signals,
            final(self).counters == (LiveCounters {
                grpc_requests: old(self).counters.grpc_requests.wrapping_add(1),
                ..heartbeat_counted(old(self).counters)
            }),
            known == old(self).router.registry.nodes@.dom().contains(node_id@),
            final(self).router.registry.nodes@ == refreshed(
                old(self).router.registry.nodes@,
                node_id@,
                active_tasks,
                now,
            ),
    {
        self.counters.grpc_requests = self.counters.grpc_requests.wrapping_add(1);
        self.counters.heartbeats = self.counters.heartbeats.wrapping_add(1);
        self.counters.bytes_in = self.counters.bytes_in.wrapping_add(HEARTBEAT_BYTES);
        self.router.registry.heartbeat(node_id, active_tasks, now)
    }

    /// A node reports how its task ended. Returns whether the task exists.
    pub fn grpc_submit_result(
        &mut self,
        task_id: &str,
        success: bool,
        response_text: String,
        duration_ms: u64,
        error_message: String,
    ) -> (found: bool)
        requires
            old(self).wf(),
        ensures
            final(self).wf(),
            final(self).same_but_tasks(*old(self)),
            final(self).router.task_store.pending_queue == old(
                self,
            ).router.task_store.pending_queue,
            found == old(self).router.task_store.tasks@.dom().contains(task_id@),
            final(self).router.task_store.tasks@ == settled(
                old(self).router.task_store.tasks@,
                task_id@,
                if success {
                    TaskStatus::Completed { response_text, duration_ms }
                } else {
                    TaskStatus::Failed { error: error_message }
                },
            ),
    {
        if success {
            self.router.task_store.complete_task(task_id, response_text, duration_ms)
        } else {
            self.router.task_store.fail_task(task_id, error_message)
        }
    }

    // ── Upkeep ───────────────────────────────────────────────────────────────

    /// Forgets nodes that went silent and tasks that ended long ago, and takes tasks back that
    /// a node has had for three times the heartbeat timeout.
    pub fn reap(&mut self, now: u64)
        requires
            old(self).wf(),
            old(self).heartbeat_timeout_secs * 3 <= u64::MAX,
        ensures
            final(self).wf(),
            is_reaped(*old(self), now, *final(self)),
    {
        self.router.registry.remove_stale_nodes(self.heartbeat_timeout_secs, now);
        self.router.task_store.reassign_stale_tasks(self.heartbeat_timeout_secs * 3, now);
        self.router.task_store.cleanup_old_tasks(now);
    }
}

/// Seconds between two runs of [`Coordinator::reap`].
pub const REAP_INTERVAL_SECS: u64 = 10;

/// Seconds between two runs of [`reap_shards`].
pub const SHARD_REAP_INTERVAL_SECS: u64 = 60;

/// Seconds between two looks at the training rounds.
pub const ROUND_INTERVAL_SECS: u64 = 30;

/// Seconds after which a layer assignment that was not submitted is taken back.
pub const ASSIGNMENT_TIMEOUT_SECS: u64 = 120;

/// Whether shards were taken back that a node has had for six times the heartbeat timeout.
pub open spec fn are_shards_reaped<F>(
    pre: TrainingStore<F>,
    heartbeat_timeout_secs: u64,
    now: u64,
    post: TrainingStore<F>,
) -> bool {
    &&& post.jobs == pre.jobs
    &&& post.shard_data == pre.shard_data
    &&& post.submissions == pre.submissions
    &&& post.shards@.dom() == pre.shards@.dom()
    &&& forall|id: Seq<char>| #[trigger]
        pre.shards@.dom().contains(id) ==> post.shards@[id]@ == pre.shards@[id]@.map_values(
            |s: DataShard| shard_taken_back(s, (heartbeat_timeout_secs * 6) as u64, now),
        )
}

/// Takes shards back that a node has had for six times the heartbeat timeout.
pub fn reap_shards<F: Copy>(training: &mut TrainingStore<F>, heartbeat_timeout_secs: u64, now: u64)
    requires
        old(training).wf(),
        heartbeat_timeout_secs * 6 <= u64::MAX,
    ensures
        final(training).wf(),
        are_shards_reaped(*old(training), heartbeat_timeout_secs, now, *final(training)),
{
    training.reassign_stale_shards(heartbeat_timeout_secs * 6, now);
}

/// An order reaches its node once: with the heartbeat that takes it, it is gone.
pub proof fn law_signal_is_delivered_once(
    signals: Map<Seq<char>, NodeSignal>,
    id: Seq<char>,
    s: NodeSignal,
)
    ensures
        signals.insert(id, s).dom().contains(id),
        signals.insert(id, s)[id] == s,
        !signals.insert(id, s).remove(id).dom().contains(id),
        forall|other: Seq<char>|
            other != id ==> #[trigger] signals.insert(id, s).remove(id).dom().contains(other)
                == signals.dom().contains(other),
{
}

/// An order that was left for a node is what its next heartbeat is answered with, and the one
/// after that is answered with none. Heartbeats of other nodes leave it where it is.
pub proof fn law_order_reaches_its_node_once<F>(
    a: Coordinator<F>,
    order: Seq<char>,
    id: Seq<char>,
    b: Coordinator<F>,
    beat: Seq<char>,
    now: u64,
    c: Coordinator<F>,
    r: HeartbeatReply,
    next: Seq<char>,
    later: u64,
    d: Coordinator<F>,
    q: HeartbeatReply,
)
    requires
        signal_left(a, order, id, b),
        heartbeat_taken(b, beat, now, c, r),
        a.router.registry.nodes@.dom().contains(id),
        heartbeat_taken(c, next, later, d, q),
    ensures
        string_or(beat, "node_id"@, ""@) == id ==> {
            &&& r is Acknowledged
            &&& r->signal is Some
            &&& is_signal(r->signal->0, order)
            &&& !c.pending_signals@.dom().contains(id)
        },
        string_or(beat, "node_id"@, ""@) == id && string_or(next, "node_id"@, ""@) == id ==> {
            &&& q is Acknowledged
            &&& q->signal is None
        },
        string_or(beat, "node_id"@, ""@) != id && string_or(next, "node_id"@, ""@) == id ==> {
            &&& q is Acknowledged
            &&& q->signal is Some
            &&& is_signal(q->signal->0, order)
        },
{
}

/// Only a registered node is answered as one.
pub proof fn law_unknown_node_is_told_so<F>(
    pre: Coordinator<F>,
    body: Seq<char>,
    now: u64,
    post: Coordinator<F>,
    r: HeartbeatReply,
)
    requires
        heartbeat_taken(pre, body, now, post, r),
    ensures
        (r is NotRegistered) == !pre.router.registry.nodes@.dom().contains(
            string_or(body, "node_id"@, ""@),
        ),
        r is NotRegistered ==> post.pending_signals@ == pre.pending_signals@
            && post.router.registry.nodes@ == pre.router.registry.nodes@,
{
}

/// A report settles the task that it names, with its text and its time or with its error, and
/// no other task.
pub proof fn law_report_settles_its_task<F>(
    pre: Coordinator<F>,
    body: Seq<char>,
    post: Coordinator<F>,
    other: Seq<char>,
)
    requires
        is_reported(pre, body, post),
    ensures
        ({
            let id = string_or(body, "task_id"@, ""@);
            let tasks = pre.router.task_store.tasks@;
            let after = post.router.task_store.tasks@;
            &&& tasks.dom().contains(id) && is_true(body, "success"@) ==> after.dom().contains(id)
                && after[id].status is Completed && after[id].status->response_text@ == string_or(
                body,
                "response_text"@,
                ""@,
            ) && after[id].status->duration_ms == number_or(body, "duration_ms"@, 0)
            &&& tasks.dom().contains(id) && !is_true(body, "success"@) ==> after.dom().contains(id)
                && after[id].status is Failed && after[id].status->error@ == string_or(
                body,
                "error_message"@,
                ""@,
            )
            &&& tasks.dom().contains(id) ==> after[id].prompt == tasks[id].prompt
            &&& other != id && tasks.dom().contains(other) ==> after.dom().contains(other)
                && after[other] == tasks[other]
            &&& !tasks.dom().contains(id) ==> after == tasks
        }),
{
}

/// A node is forgotten exactly if it was silent for the timeout, and a task is taken back
/// exactly if a node has had it for longer than three times that; only what ended is forgotten,
/// an hour after it was created.
pub proof fn law_only_what_is_late_is_reaped<F>(
    pre: Coordinator<F>,
    now: u64,
    post: Coordinator<F>,
    id: Seq<char>,
)
    requires
        is_reaped(pre, now, post),
        pre.heartbeat_timeout_secs > 0,
        pre.heartbeat_timeout_secs * 3 <= u64::MAX,
    ensures
        ({
            let nodes = pre.router.registry.nodes@;
            let left = post.router.registry.nodes@;
            nodes.dom().contains(id) ==> {
                &&& left.dom().contains(id) == ((now - nodes[id].last_heartbeat)
                    < pre.heartbeat_timeout_secs * 1_000_000_000)
                &&& left.dom().contains(id) ==> left[id] == nodes[id]
            }
        }),
        ({
            let tasks = pre.router.task_store.tasks@;
            let kept = post.router.task_store.tasks@;
            tasks.dom().contains(id) ==> {
                let t = tasks[id];
                &&& t.status is Pending ==> kept.dom().contains(id) && kept[id] == t
                &&& t.status is Assigned && (now - t.status->Assigned_assigned_at) > 3
                    * pre.heartbeat_timeout_secs * 1_000_000_000 ==> kept.dom().contains(id)
                    && kept[id].status is Pending && kept[id].prompt == t.prompt
                &&& t.status is Assigned && (now - t.status->Assigned_assigned_at) <= 3
                    * pre.heartbeat_timeout_secs * 1_000_000_000 ==> kept.dom().contains(id)
                    && kept[id] == t
                &&& t.status is Completed || t.status is Failed ==> kept.dom().contains(id) == ((now
                    - t.created_at) < 3600 * 1_000_000_000)
            }
        }),
{
    let t = pre.router.task_store.tasks@[id];
    law_only_late_tasks_are_taken_back(t, (pre.heartbeat_timeout_secs * 3) as u64, now);
    law_finished_tasks_are_kept_for_an_hour(t, now);
}

/// A shard goes back exactly if a node has had it for longer than six times the heartbeat
/// timeout; the others stay as they are.
pub proof fn law_only_late_shards_are_reaped<F>(
    pre: TrainingStore<F>,
    heartbeat_timeout_secs: u64,
    now: u64,
    post: TrainingStore<F>,
    id: Seq<char>,
    i: int,
    since: u64,
)
    requires
        are_shards_reaped(pre, heartbeat_timeout_secs, now, post),
        heartbeat_timeout_secs * 6 <= u64::MAX,
        pre.shards@.dom().contains(id),
        0 <= i < pre.shards@[id]@.len(),
        pre.shards@[id]@[i].status is Assigned ==> pre.shards@[id]@[i].assigned_at_secs == Some(
            since,
        ),
    ensures
        post.shards@[id]@.len() == pre.shards@[id]@.len(),
        pre.shards@[id]@[i].status is Assigned && (now - since) > 6 * heartbeat_timeout_secs
            ==> post.shards@[id]@[i].status is Available,
        !(pre.shards@[id]@[i].status is Assigned && (now - since) > 6 * heartbeat_timeout_secs)
            ==> post.shards@[id]@[i] == pre.shards@[id]@[i],
{
    law_only_late_shards_are_taken_back(
        pre.shards@[id]@[i],
        (heartbeat_timeout_secs * 6) as u64,
        now,
    );
}

/// A heartbeat is counted once, with its bytes, and nothing else is counted.
pub proof fn law_heartbeat_is_counted<F>(
    pre: Coordinator<F>,
    body: Seq<char>,
    now: u64,
    post: Coordinator<F>,
    r: HeartbeatReply,
)
    requires
        heartbeat_taken(pre, body, now, post, r),
        pre.counters.heartbeats < u64::MAX,
        pre.counters.bytes_in <= u64::MAX - 1024,
    ensures
        post.counters.heartbeats == pre.counters.heartbeats + 1,
        pre.counters.bytes_in < post.counters.bytes_in <= pre.counters.bytes_in + 1024,
        post.counters.http_requests == pre.counters.http_requests,
        post.counters.grpc_requests == pre.counters.grpc_requests,
        post.counters.bytes_out == pre.counters.bytes_out,
        post.counters.inference_requests == pre.counters.inference_requests,
        post.counters.inference_completed == pre.counters.inference_completed,
        post.counters.tensor_ops == pre.counters.tensor_ops,
{
}

} // verus!
