//! Connection history of nodes, by which a scheduler can judge their reliability.
//!
//! A moment is a number of nanoseconds on one monotonic clock.
use crate::text::str_eq;
use vstd::prelude::*;

verus! {

use crate::seqs::{
    first_index,
    keep,
    lemma_first_index_is,
    lemma_keep_members,
    lemma_keep_step,
};

/// Nanoseconds per second.
pub const NANOS_PER_SEC: u64 = 1_000_000_000;

/// Disconnects count against a node for a day.
pub const DISCONNECT_PENALTY_WINDOW_SECS: u64 = 86_400;

/// What is known of one node.
#[derive(Debug)]
pub struct NodeStats {
    pub node_name: String,
    /// When the node connected for the first time.
    pub first_seen: u64,
    /// When the present session started.
    pub connected_at: u64,
    /// Seconds of all ended sessions.
    pub total_uptime_secs: u64,
    /// Seconds from the first connection to the last change.
    pub total_observed_secs: u64,
    /// Moments of the disconnects of the last two days.
    pub disconnect_events: Vec<u64>,
    pub hops_ok: u64,
    pub hops_failed: u64,
}

/// The numbers that speak for a node's reliability. The score is made of the first three:
/// `min(1, uptime / observed) * 1 / (1 + disconnects / 10)`.
#[derive(Debug, Clone, Copy, PartialEq, Eq, Structural)]
pub struct ReliabilityFactors {
    pub uptime_secs: u64,
    pub observed_secs: u64,
    pub disconnects_24h: usize,
    pub hops_ok: u64,
    pub hops: u64,
}

/// Whole seconds from `since` to `now`; none if `now` comes first.
pub open spec fn secs_between(since: u64, now: u64) -> nat {
    if now >= since {
        ((now - since) / NANOS_PER_SEC as int) as nat
    } else {
        0
    }
}

/// `now` less `secs` seconds; before every moment where the clock is younger than that.
pub open spec fn moment_before(now: u64, secs: u64) -> int {
    now as int - secs as int * NANOS_PER_SEC as int
}

fn elapsed_secs(since: u64, now: u64) -> (n: u64)
    ensures
        n == secs_between(since, now),
{
    now.saturating_sub(since) / NANOS_PER_SEC
}

/// Whether a moment lies within a window that ends now.
fn is_within(t: u64, now: u64, window_secs: u64) -> (r: bool)
    requires
        window_secs <= 172_800,
    ensures
        r == (t > moment_before(now, window_secs)),
{
    let span: u64 = window_secs * NANOS_PER_SEC;
    match now.checked_sub(span) {
        Some(cutoff) => t > cutoff,
        None => true,
    }
}

impl NodeStats {
    /// The disconnects after the moment `after`.
    pub open spec fn disconnects_after(self, after: int) -> Seq<u64> {
        keep(self.disconnect_events@, |t: u64| t > after)
    }

    /// The record of a node that connects for the first time.
    pub fn new(node_name: String, now: u64) -> (s: Self)
        ensures
            s.node_name == node_name,
            s.first_seen == now,
            s.connected_at == now,
            s.total_uptime_secs == 0,
            s.total_observed_secs == 0,
            s.disconnect_events@.len() == 0,
            s.hops_ok == 0,
            s.hops_failed == 0,
    {
        NodeStats {
            node_name,
            first_seen: now,
            connected_at: now,
            total_uptime_secs: 0,
            total_observed_secs: 0,
            disconnect_events: Vec::new(),
            hops_ok: 0,
            hops_failed: 0,
        }
    }

    /// The factors of the node's reliability score.
    pub fn reliability_factors(&self, now: u64) -> (f: ReliabilityFactors)
        requires
            self.total_uptime_secs + secs_between(self.connected_at, now) <= u64::MAX,
            self.hops_ok + self.hops_failed <= u64::MAX,
        ensures
            f.uptime_secs == self.total_uptime_secs + secs_between(self.connected_at, now),
            f.observed_secs == if self.total_observed_secs >= 1 {
                self.total_observed_secs
            } else {
                1
            },
            f.disconnects_24h == self.disconnects_after(
                moment_before(now, DISCONNECT_PENALTY_WINDOW_SECS),
            ).len(),
            f.hops_ok == self.hops_ok,
            f.hops == self.hops_ok + self.hops_failed,
    {
        ReliabilityFactors {
            uptime_secs: self.total_uptime_secs + self.current_session_secs(now),
            observed_secs: if self.total_observed_secs >= 1 {
                self.total_observed_secs
            } else {
                1
            },
            disconnects_24h: self.disconnect_count_24h(now),
            hops_ok: self.hops_ok,
            hops: self.hops_ok + self.hops_failed,
        }
    }

    /// Seconds of the present session.
    pub fn current_session_secs(&self, now: u64) -> (n: u64)
        ensures
            n == secs_between(self.connected_at, now),
    {
        elapsed_secs(self.connected_at, now)
    }

    /// Number of disconnects within the last day.
    pub fn disconnect_count_24h(&self, now: u64) -> (n: usize)
        ensures
            n == self.disconnects_after(moment_before(now, DISCONNECT_PENALTY_WINDOW_SECS)).len(),
    {
        let ghost after = moment_before(now, DISCONNECT_PENALTY_WINDOW_SECS);
        let ghost p = |t: u64| t > after;
        let mut n: usize = 0;
        let mut i: usize = 0;
        while i < self.disconnect_events.len()
            invariant
                i <= self.disconnect_events@.len(),
                after == moment_before(now, DISCONNECT_PENALTY_WINDOW_SECS),
                p == (|t: u64| t > after),
                n == keep(self.disconnect_events@.subrange(0, i as int), p).len(),
                n <= i,
            decreases self.disconnect_events@.len() - i,
        {
            proof {
                lemma_keep_step(self.disconnect_events@, p, i as int);
            }
            if is_within(self.disconnect_events[i], now, DISCONNECT_PENALTY_WINDOW_SECS) {
                n = n + 1;
            }
            i = i + 1;
        }
        assert(self.disconnect_events@.subrange(0, i as int) == self.disconnect_events@);
        n
    }

    /// Ends the present session and forgets disconnects older than two days.
    pub fn record_disconnect(&mut self, now: u64)
        requires
            old(self).total_uptime_secs + secs_between(old(self).connected_at, now) <= u64::MAX,
        ensures
            final(self).node_name == old(self).node_name,
            final(self).first_seen == old(self).first_seen,
            final(self).connected_at == old(self).connected_at,
            final(self).hops_ok == old(self).hops_ok,
            final(self).hops_failed == old(self).hops_failed,
            final(self).total_uptime_secs == old(self).total_uptime_secs + secs_between(
                old(self).connected_at,
                now,
            ),
            final(self).total_observed_secs == secs_between(old(self).first_seen, now),
            final(self).disconnect_events@ == keep(
                old(self).disconnect_events@.push(now),
                |t: u64| t > moment_before(now, (DISCONNECT_PENALTY_WINDOW_SECS * 2) as u64),
            ),
    {
        self.total_uptime_secs = self.total_uptime_secs + self.current_session_secs(now);
        self.total_observed_secs = elapsed_secs(self.first_seen, now);
        self.disconnect_events.push(now);
        let ghost p = |t: u64| t > moment_before(now, (DISCONNECT_PENALTY_WINDOW_SECS * 2) as u64);
        let ghost all = self.disconnect_events@;
        let mut kept: Vec<u64> = Vec::new();
        let mut i: usize = 0;
        while i < self.disconnect_events.len()
            invariant
                i <= all.len(),
                all == self.disconnect_events@,
                p == (|t: u64|
                    t > moment_before(now, (DISCONNECT_PENALTY_WINDOW_SECS * 2) as u64)),
                kept@ == keep(all.subrange(0, i as int), p),
            decreases all.len() - i,
        {
            proof {
                lemma_keep_step(all, p, i as int);
            }
            let t: u64 = self.disconnect_events[i];
            if is_within(t, now, DISCONNECT_PENALTY_WINDOW_SECS * 2) {
                kept.push(t);
            }
            i = i + 1;
        }
        assert(all.subrange(0, i as int) == all);
        self.disconnect_events = kept;
    }

    /// Starts a new session.
    pub fn record_reconnect(&mut self, now: u64)
        ensures
            *final(self) == (NodeStats {
                connected_at: now,
                total_observed_secs: secs_between(old(self).first_seen, now) as u64,
                ..*old(self)
            }),
    {
        self.connected_at = now;
        self.total_observed_secs = elapsed_secs(self.first_seen, now);
    }

    /// Counts a hop.
    pub fn record_hop(&mut self, success: bool)
        requires
            old(self).hops_ok < u64::MAX,
            old(self).hops_failed < u64::MAX,
        ensures
            *final(self) == (NodeStats {
                hops_ok: (old(self).hops_ok + if success { 1int } else { 0 }) as u64,
                hops_failed: (old(self).hops_failed + if success { 0int } else { 1 }) as u64,
                ..*old(self)
            }),
    {
        if success {
            self.hops_ok = self.hops_ok + 1;
        } else {
            self.hops_failed = self.hops_failed + 1;
        }
    }
}

/// The records of all nodes that ever connected, one per node name.
#[derive(Debug)]
pub struct NodeStatsRegistry {
    stats: Vec<NodeStats>,
}

/// Position of the record of `name`, or the number of records.
pub open spec fn stats_index(stats: Seq<NodeStats>, name: Seq<char>) -> int {
    first_index(stats, |s: NodeStats| s.node_name@ == name)
}

pub open spec fn one_record_per_name(stats: Seq<NodeStats>) -> bool {
    forall|i: int, j: int|
        0 <= i < j < stats.len() ==> (#[trigger] stats[i]).node_name@ != (
        #[trigger] stats[j]).node_name@
}

/// Whether the session of node `name` can end at `now` without its uptime running over.
pub open spec fn can_end_session(stats: Seq<NodeStats>, name: Seq<char>, now: u64) -> bool {
    let k = stats_index(stats, name);
    k < stats.len() ==> stats[k].total_uptime_secs + secs_between(stats[k].connected_at, now)
        <= u64::MAX
}

/// The records after node `name` connected at `now`.
pub open spec fn stats_connected(
    pre: Seq<NodeStats>,
    name: Seq<char>,
    now: u64,
    post: Seq<NodeStats>,
) -> bool {
    let k = stats_index(pre, name);
    if k < pre.len() {
        post == pre.update(
            k,
            NodeStats {
                connected_at: now,
                total_observed_secs: secs_between(pre[k].first_seen, now) as u64,
                ..pre[k]
            },
        )
    } else {
        &&& post.len() == pre.len() + 1
        &&& post.drop_last() == pre
        &&& post.last().node_name@ == name
        &&& post.last().first_seen == now
        &&& post.last().connected_at == now
        &&& post.last().total_uptime_secs == 0
        &&& post.last().total_observed_secs == 0
        &&& post.last().disconnect_events@.len() == 0
        &&& post.last().hops_ok == 0
        &&& post.last().hops_failed == 0
    }
}

/// The records after node `name` disconnected at `now`.
pub open spec fn stats_disconnected(
    pre: Seq<NodeStats>,
    name: Seq<char>,
    now: u64,
    post: Seq<NodeStats>,
) -> bool {
    let k = stats_index(pre, name);
    if k < pre.len() {
        &&& post.len() == pre.len()
        &&& forall|i: int| 0 <= i < pre.len() && i != k ==> #[trigger] post[i] == pre[i]
        &&& post[k].node_name == pre[k].node_name
        &&& post[k].first_seen == pre[k].first_seen
        &&& post[k].connected_at == pre[k].connected_at
        &&& post[k].hops_ok == pre[k].hops_ok
        &&& post[k].hops_failed == pre[k].hops_failed
        &&& post[k].total_uptime_secs == pre[k].total_uptime_secs + secs_between(
            pre[k].connected_at,
            now,
        )
        &&& post[k].total_observed_secs == secs_between(pre[k].first_seen, now)
        &&& post[k].disconnect_events@ == keep(
            pre[k].disconnect_events@.push(now),
            |t: u64| t > moment_before(now, (DISCONNECT_PENALTY_WINDOW_SECS * 2) as u64),
        )
    } else {
        post == pre
    }
}

/// The records after a hop of node `name` was counted.
pub open spec fn stats_hopped(
    pre: Seq<NodeStats>,
    name: Seq<char>,
    success: bool,
    post: Seq<NodeStats>,
) -> bool {
    let k = stats_index(pre, name);
    post == if k < pre.len() {
        pre.update(
            k,
            NodeStats {
                hops_ok: (pre[k].hops_ok + if success { 1int } else { 0 }) as u64,
                hops_failed: (pre[k].hops_failed + if success { 0int } else { 1 }) as u64,
                ..pre[k]
            },
        )
    } else {
        pre
    }
}

impl View for NodeStatsRegistry {
    type V = Seq<NodeStats>;

    closed spec fn view(&self) -> Seq<NodeStats> {
        self.stats@
    }
}

impl NodeStatsRegistry {
    /// No records.
    pub fn new() -> (r: Self)
        ensures
            r@.len() == 0,
            one_record_per_name(r@),
    {
        NodeStatsRegistry { stats: Vec::new() }
    }

    fn index(&self, name: &str) -> (k: usize)
        ensures
            k == stats_index(self@, name@),
            k <= self@.len(),
            k < self@.len() ==> self@[k as int].node_name@ == name@,
            forall|j: int| 0 <= j < k ==> (#[trigger] self@[j]).node_name@ != name@,
    {
        let mut k: usize = 0;
        while k < self.stats.len()
            invariant
                k <= self@.len(),
                forall|j: int| 0 <= j < k ==> (#[trigger] self@[j]).node_name@ != name@,
            decreases self@.len() - k,
        {
            if str_eq(self.stats[k].node_name.as_str(), name) {
                proof {
                    lemma_first_index_is(self@, |s: NodeStats| s.node_name@ == name@, k as int);
                }
                return k;
            }
            k = k + 1;
        }
        proof {
            lemma_first_index_is(self@, |s: NodeStats| s.node_name@ == name@, k as int);
        }
        k
    }

    /// Records that a node connected.
    pub fn on_connect(&mut self, node_name: &str, now: u64)
        requires
            one_record_per_name(old(self)@),
        ensures
            one_record_per_name(final(self)@),
            stats_connected(old(self)@, node_name@, now, final(self)@),
    {
        let k = self.index(node_name);
        if k < self.stats.len() {
            self.stats[k].record_reconnect(now);
        } else {
            self.stats.push(NodeStats::new(node_name.to_owned(), now));
            assert(self@.drop_last() == old(self)@);
        }
    }

    /// Records that a node disconnected.
    pub fn on_disconnect(&mut self, node_name: &str, now: u64)
        requires
            one_record_per_name(old(self)@),
            can_end_session(old(self)@, node_name@, now),
        ensures
            one_record_per_name(final(self)@),
            stats_disconnected(old(self)@, node_name@, now, final(self)@),
    {
        let k = self.index(node_name);
        if k < self.stats.len() {
            self.stats[k].record_disconnect(now);
        }
    }

    /// Counts a hop of a known node.
    pub fn record_hop(&mut self, node_name: &str, success: bool)
        requires
            one_record_per_name(old(self)@),
            ({
                let k = stats_index(old(self)@, node_name@);
                k < old(self)@.len() ==> old(self)@[k].hops_ok < u64::MAX
                    && old(self)@[k].hops_failed < u64::MAX
            }),
        ensures
            one_record_per_name(final(self)@),
            stats_hopped(old(self)@, node_name@, success, final(self)@),
    {
        let k = self.index(node_name);
        if k < self.stats.len() {
            self.stats[k].record_hop(success);
        }
    }

    /// The record of a node.
    pub fn get(&self, node_name: &str) -> (r: Option<&NodeStats>)
        ensures
            match r {
                Some(s) => stats_index(self@, node_name@) < self@.len() && *s
                    == self@[stats_index(self@, node_name@)],
                None => stats_index(self@, node_name@) == self@.len(),
            },
    {
        let k = self.index(node_name);
        if k < self.stats.len() {
            Some(&self.stats[k])
        } else {
            None
        }
    }

    /// The records in the order of first connection.
    pub fn records(&self) -> (r: &Vec<NodeStats>)
        ensures
            r@ == self@,
    {
        &self.stats
    }
}

/// A disconnect counts against the node at once, and no longer once it is a day old.
pub proof fn law_disconnect_counts_for_a_day(s: NodeStats, t: u64, now: u64)
    requires
        s.disconnect_events@ == seq![t],
        t <= now,
    ensures
        s.disconnects_after(moment_before(now, DISCONNECT_PENALTY_WINDOW_SECS)).len() == if now
            - t < DISCONNECT_PENALTY_WINDOW_SECS as int * NANOS_PER_SEC as int {
            1nat
        } else {
            0
        },
{
    let p = |x: u64| x > moment_before(now, DISCONNECT_PENALTY_WINDOW_SECS);
    assert(seq![t].drop_last() == Seq::<u64>::empty());
    assert(keep(seq![t].drop_last(), p) == Seq::<u64>::empty());
}

/// Seconds are counted whole.
pub proof fn law_seconds_are_whole(since: u64, now: u64, secs: nat, rest: nat)
    requires
        now == since + secs * 1_000_000_000 + rest,
        rest < 1_000_000_000,
    ensures
        secs_between(since, now) == secs,
{
    assert((secs * 1_000_000_000 + rest) / 1_000_000_000 == secs) by (nonlinear_arith)
        requires
            rest < 1_000_000_000,
    ;
}

/// Every further disconnect counts by itself, for a day.
pub proof fn law_each_disconnect_counts(before: NodeStats, after: NodeStats, t: u64, now: u64)
    requires
        after.disconnect_events@ == before.disconnect_events@.push(t),
    ensures
        ({
            let day_ago = moment_before(now, DISCONNECT_PENALTY_WINDOW_SECS);
            after.disconnects_after(day_ago).len() == before.disconnects_after(day_ago).len()
                + if now - t < 24 * 60 * 60 * 1_000_000_000 {
                1nat
            } else {
                0
            }
        }),
{
    let day_ago = moment_before(now, DISCONNECT_PENALTY_WINDOW_SECS);
    let p = |x: u64| x > day_ago;
    let all = after.disconnect_events@;
    let n = before.disconnect_events@.len() as int;
    lemma_keep_step(all, p, n);
    assert(all.subrange(0, n) =~= before.disconnect_events@);
    assert(all.subrange(0, n + 1) =~= all);
}

proof fn lemma_record_of(stats: Seq<NodeStats>, k: int)
    requires
        one_record_per_name(stats),
        0 <= k < stats.len(),
    ensures
        stats_index(stats, stats[k].node_name@) == k,
{
    let name = stats[k].node_name@;
    assert forall|p: spec_fn(NodeStats) -> bool|
        (forall|s: NodeStats| #[trigger] p(s) == (s.node_name@ == name)) implies (
    #[trigger] first_index(stats, p)) == k by {
        assert forall|j: int| 0 <= j < k implies !p(#[trigger] stats[j]) by {
            assert(stats[j].node_name@ != stats[k].node_name@);
        }
        lemma_first_index_is(stats, p, k);
    }
}

proof fn lemma_no_record_of(stats: Seq<NodeStats>, name: Seq<char>)
    requires
        forall|i: int| 0 <= i < stats.len() ==> (#[trigger] stats[i]).node_name@ != name,
    ensures
        stats_index(stats, name) == stats.len(),
{
    assert forall|p: spec_fn(NodeStats) -> bool|
        (forall|s: NodeStats| #[trigger] p(s) == (s.node_name@ == name)) implies (
    #[trigger] first_index(stats, p)) == stats.len() by {
        lemma_first_index_is(stats, p, stats.len() as int);
    }
}

/// A node that connects again keeps its history, and only its session starts anew.
pub proof fn law_reconnecting_node_keeps_its_history(
    pre: Seq<NodeStats>,
    k: int,
    now: u64,
    post: Seq<NodeStats>,
)
    requires
        one_record_per_name(pre),
        0 <= k < pre.len(),
        stats_connected(pre, pre[k].node_name@, now, post),
    ensures
        post.len() == pre.len(),
        post[k].connected_at == now,
        post[k].first_seen == pre[k].first_seen,
        post[k].total_uptime_secs == pre[k].total_uptime_secs,
        post[k].disconnect_events == pre[k].disconnect_events,
        post[k].hops_ok == pre[k].hops_ok,
        post[k].hops_failed == pre[k].hops_failed,
        forall|i: int| 0 <= i < pre.len() && i != k ==> #[trigger] post[i] == pre[i],
{
    lemma_record_of(pre, k);
}

/// A node that connects for the first time gets a record with nothing counted.
pub proof fn law_new_node_starts_with_nothing(
    pre: Seq<NodeStats>,
    name: Seq<char>,
    now: u64,
    post: Seq<NodeStats>,
)
    requires
        forall|i: int| 0 <= i < pre.len() ==> (#[trigger] pre[i]).node_name@ != name,
        stats_connected(pre, name, now, post),
    ensures
        post.len() == pre.len() + 1,
        forall|i: int| 0 <= i < pre.len() ==> #[trigger] post[i] == pre[i],
        post.last().node_name@ == name,
        post.last().first_seen == now,
        post.last().connected_at == now,
        post.last().total_uptime_secs == 0,
        post.last().disconnect_events@.len() == 0,
        post.last().hops_ok == 0,
        post.last().hops_failed == 0,
{
    lemma_no_record_of(pre, name);
    assert forall|i: int| 0 <= i < pre.len() implies #[trigger] post[i] == pre[i] by {
        assert(post.drop_last()[i] == post[i]);
    }
}

/// A session of so many whole seconds adds them to the uptime of its node alone; the disconnect
/// is noted, and what was noted within two days stays.
pub proof fn law_ended_session_counts(
    pre: Seq<NodeStats>,
    k: int,
    secs: nat,
    rest: nat,
    now: u64,
    post: Seq<NodeStats>,
)
    requires
        one_record_per_name(pre),
        0 <= k < pre.len(),
        stats_disconnected(pre, pre[k].node_name@, now, post),
        now == pre[k].connected_at + secs * 1_000_000_000 + rest,
        rest < 1_000_000_000,
    ensures
        post[k].total_uptime_secs == pre[k].total_uptime_secs + secs,
        post[k].disconnect_events@.contains(now),
        forall|i: int|
            0 <= i < pre[k].disconnect_events@.len() && now - #[trigger] pre[k].disconnect_events@[i]
                < 48 * 60 * 60 * 1_000_000_000 ==> post[k].disconnect_events@.contains(
                pre[k].disconnect_events@[i],
            ),
        forall|i: int| 0 <= i < pre.len() && i != k ==> #[trigger] post[i] == pre[i],
        post.len() == pre.len(),
{
    lemma_record_of(pre, k);
    law_seconds_are_whole(pre[k].connected_at, now, secs, rest);
    let p = |t: u64| t > moment_before(now, (DISCONNECT_PENALTY_WINDOW_SECS * 2) as u64);
    let events = pre[k].disconnect_events@;
    let all = events.push(now);
    assert(post[k].disconnect_events@ == keep(all, p));
    lemma_keep_members(all, p);
    assert(p(all[events.len() as int]));
    assert forall|i: int|
        0 <= i < events.len() && now - #[trigger] events[i] < 48 * 60 * 60
            * 1_000_000_000 implies post[k].disconnect_events@.contains(events[i]) by {
        assert(all[i] == events[i]);
        assert(p(all[i]));
    }
}

/// A hop counts for its node alone, as a success or as a failure.
pub proof fn law_hop_counts_for_its_node(
    pre: Seq<NodeStats>,
    k: int,
    success: bool,
    post: Seq<NodeStats>,
)
    requires
        one_record_per_name(pre),
        0 <= k < pre.len(),
        pre[k].hops_ok < u64::MAX,
        pre[k].hops_failed < u64::MAX,
        stats_hopped(pre, pre[k].node_name@, success, post),
    ensures
        post.len() == pre.len(),
        success ==> post[k].hops_ok == pre[k].hops_ok + 1 && post[k].hops_failed
            == pre[k].hops_failed,
        !success ==> post[k].hops_failed == pre[k].hops_failed + 1 && post[k].hops_ok
            == pre[k].hops_ok,
        forall|i: int| 0 <= i < pre.len() && i != k ==> #[trigger] post[i] == pre[i],
{
    lemma_record_of(pre, k);
}

} // verus!
