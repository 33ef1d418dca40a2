//! A node: it serves layers of the model, trains them, and runs tasks.
//!
//! Connections, processes and the clock are the caller's business; what to do with what
//! they bring is decided here.
use crate::text::has;
use vstd::prelude::*;

pub mod coordinator_client;
pub mod engine;
pub mod layer_worker;
pub mod tools;
pub mod worker;
pub mod ws_worker;


verus! {

use crate::text::{contains, law_part_is_found};

/// Memory that a node states, in megabytes.
pub const RAM_MB: u64 = 48000;

/// Seconds that a node waits after a failed poll.
pub const POLL_FAILURE_SECS: u64 = 2;

/// Seconds that a node gives its tasks to end when it stops.
pub const DRAIN_SECS: u64 = 30;

/// Whether a node has a GPU: its hardware says so, or it has models.
pub open spec fn node_has_gpu(hw: Seq<char>, models: int) -> bool {
    ||| contains(hw, "Metal"@)
    ||| contains(hw, "NVIDIA"@)
    ||| contains(hw, "RTX"@)
    ||| contains(hw, "GTX"@)
    ||| contains(hw, "M1"@)
    ||| contains(hw, "M2"@)
    ||| contains(hw, "M3"@)
    ||| contains(hw, "M4"@)
    ||| models > 0
}

/// Whether a node has a GPU.
pub fn detect_gpu(hardware_info: &str, models: usize) -> (r: bool)
    ensures
        r == node_has_gpu(hardware_info@, models as int),
{
    has(hardware_info, "Metal") || has(hardware_info, "NVIDIA") || has(hardware_info, "RTX") || has(
        hardware_info,
        "GTX",
    ) || has(hardware_info, "M1") || has(hardware_info, "M2") || has(hardware_info, "M3") || has(
        hardware_info,
        "M4",
    ) || models > 0
}

/// Two to the power of `n`.
pub open spec fn two_to(n: int) -> int
    decreases n,
{
    if n <= 0 {
        1
    } else {
        2 * two_to(n - 1)
    }
}

/// Seconds to wait after the `attempt`-th failed connection: doubled each time, up to 32.
pub fn backoff_secs(attempt: u32) -> (secs: u64)
    ensures
        secs == two_to(if attempt <= 5 {
            attempt as int
        } else {
            5
        }),
{
    proof {
        reveal_with_fuel(two_to, 7);
    }
    if attempt == 0 {
        1
    } else if attempt == 1 {
        2
    } else if attempt == 2 {
        4
    } else if attempt == 3 {
        8
    } else if attempt == 4 {
        16
    } else {
        32
    }
}

/// Waiting never gets shorter from one failed attempt to the next.
pub proof fn law_backoff_does_not_shrink(a: int, b: int)
    requires
        0 <= a <= b,
    ensures
        two_to(if a <= 5 {
            a
        } else {
            5
        }) <= two_to(if b <= 5 {
            b
        } else {
            5
        }) <= 32,
{
    reveal_with_fuel(two_to, 7);
}

/// The tasks that a node runs at once.
#[derive(Debug)]
pub struct TaskSlots {
    pub max: u32,
    pub active: u32,
}

impl TaskSlots {
    pub open spec fn wf(self) -> bool {
        self.active <= self.max
    }

    /// No task runs.
    pub fn new(max: u32) -> (s: Self)
        ensures
            s.wf(),
            s.max == max,
            s.active == 0,
    {
        TaskSlots { max, active: 0 }
    }

    /// Whether the node may ask for another task.
    pub fn has_room(&self) -> (r: bool)
        ensures
            r == (self.active < self.max),
    {
        self.active < self.max
    }

    /// A task starts. Returns whether there was room for it.
    pub fn start(&mut self) -> (started: bool)
        requires
            old(self).wf(),
        ensures
            final(self).wf(),
            final(self).max == old(self).max,
            started == (old(self).active < old(self).max),
            final(self).active == if started {
                old(self).active + 1
            } else {
                old(self).active as int
            },
    {
        if self.active < self.max {
            self.active = self.active + 1;
            true
        } else {
            false
        }
    }

    /// A task ended.
    pub fn end(&mut self)
        requires
            old(self).wf(),
            old(self).active > 0,
        ensures
            final(self).wf(),
            final(self).max == old(self).max,
            final(self).active == old(self).active - 1,
    {
        self.active = self.active - 1;
    }
}

/// The waiting time starts at one second, doubles with each failed attempt, and stays at 32
/// seconds from the fifth on.
pub proof fn law_backoff_doubles(n: int)
    requires
        0 <= n,
    ensures
        two_to(0) == 1,
        two_to(n + 1) == two_to(n) + two_to(n),
        two_to(5) == 32,
{
    reveal_with_fuel(two_to, 7);
}

/// Hardware that names a GPU anywhere has one.
pub proof fn law_named_hardware_has_gpu(a: Seq<char>, b: Seq<char>)
    ensures
        node_has_gpu(a + "Metal"@ + b, 0),
        node_has_gpu(a + "NVIDIA"@ + b, 0),
        node_has_gpu(a + "RTX"@ + b, 0),
        node_has_gpu(a + "GTX"@ + b, 0),
        node_has_gpu(a + "M1"@ + b, 0),
        node_has_gpu(a + "M2"@ + b, 0),
        node_has_gpu(a + "M3"@ + b, 0),
        node_has_gpu(a + "M4"@ + b, 0),
        node_has_gpu(a, 1),
{
    law_part_is_found(a, "Metal"@, b);
    law_part_is_found(a, "NVIDIA"@, b);
    law_part_is_found(a, "RTX"@, b);
    law_part_is_found(a, "GTX"@, b);
    law_part_is_found(a, "M1"@, b);
    law_part_is_found(a, "M2"@, b);
    law_part_is_found(a, "M3"@, b);
    law_part_is_found(a, "M4"@, b);
}

} // verus!
