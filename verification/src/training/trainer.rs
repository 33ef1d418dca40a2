//! The course of a training run: how many examples are used, when the optimizer steps, and
//! when memory runs out.
use crate::text::{concat3, format_number};
use vstd::prelude::*;

verus! {

use crate::text::decimal;
use vstd::string::StringExecFns;

/// What came of a training run.
#[derive(Debug)]
pub struct TrainingResult<F> {
    pub steps: usize,
    pub final_loss: F,
    pub duration_secs: u64,
}

/// How the memory in use stands to its limit.
#[derive(Debug, Clone, Copy, PartialEq, Eq, Structural)]
pub enum MemoryCheck {
    Low,
    /// Above three quarters of the limit.
    High,
    Exceeded,
}

/// Holds the memory in use, in bytes, against a limit in gigabytes.
pub fn check_memory_limit(limit_gb: u64, rss_bytes: u64) -> (r: MemoryCheck)
    requires
        limit_gb * 1073741824 * 3 <= u64::MAX,
    ensures
        r == if rss_bytes > limit_gb * 1073741824 {
            MemoryCheck::Exceeded
        } else if rss_bytes > limit_gb * 1073741824 * 3 / 4 {
            MemoryCheck::High
        } else {
            MemoryCheck::Low
        },
{
    let limit_bytes: u64 = limit_gb * 1073741824;
    if rss_bytes > limit_bytes {
        return MemoryCheck::Exceeded;
    }
    if rss_bytes > limit_bytes * 3 / 4 {
        return MemoryCheck::High;
    }
    MemoryCheck::Low
}

/// The message of a run that exceeds its memory; `used_gb` is the use in words.
pub fn memory_error(context: &str, used_gb: &str, limit_gb: u64) -> (r: String)
    ensures
        r@ == "MEMORY LIMIT EXCEEDED during "@ + context@ + ": "@ + used_gb@ + "GB > "@ + decimal(
            limit_gb as nat,
        )
            + "GB limit. Reduce --batch-size, --max-seq-len, or use a smaller model (1.5B instead of 7B)."@,
{
    let n = format_number(limit_gb);
    let mut r = concat3("MEMORY LIMIT EXCEEDED during ", context, ": ");
    r.append(used_gb);
    r.append("GB > ");
    r.append(n.as_str());
    r.append(
        "GB limit. Reduce --batch-size, --max-seq-len, or use a smaller model (1.5B instead of 7B).",
    );
    r
}

/// Why there is nothing to train.
#[derive(Debug, Clone, Copy, PartialEq, Eq, Structural)]
pub enum TrainPlanError {
    NoExamples,
    NothingKept,
}

impl TrainPlanError {
    /// The error in words.
    pub fn message(&self) -> (r: &'static str)
        ensures
            r@ == match *self {
                TrainPlanError::NoExamples => "No examples in shard"@,
                TrainPlanError::NothingKept =>
                    "All examples were filtered out during tokenization"@,
            },
    {
        match self {
            TrainPlanError::NoExamples => "No examples in shard",
            TrainPlanError::NothingKept => "All examples were filtered out during tokenization",
        }
    }
}

/// How many of the examples of a shard are used: all, or as many as the cap allows.
pub fn examples_used(examples: usize, max_examples: usize) -> (r: Result<usize, TrainPlanError>)
    ensures
        r == if examples == 0 {
            Err::<usize, TrainPlanError>(TrainPlanError::NoExamples)
        } else if max_examples > 0 && examples > max_examples {
            Ok(max_examples)
        } else {
            Ok(examples)
        },
{
    if examples == 0 {
        return Err(TrainPlanError::NoExamples);
    }
    if max_examples > 0 && examples > max_examples {
        Ok(max_examples)
    } else {
        Ok(examples)
    }
}

/// Whether sequences are left to train on.
pub fn check_sequences(sequences: usize) -> (r: Result<(), TrainPlanError>)
    ensures
        r == if sequences == 0 {
            Err::<(), TrainPlanError>(TrainPlanError::NothingKept)
        } else {
            Ok(())
        },
{
    if sequences == 0 {
        Err(TrainPlanError::NothingKept)
    } else {
        Ok(())
    }
}

/// The state of the accumulation of gradients.
#[derive(Debug)]
pub struct Accumulation {
    /// Batches per step of the optimizer.
    pub grad_accum_steps: usize,
    /// Batches of an epoch.
    pub batches: usize,
    /// Batches since the last step.
    pub count: usize,
    /// Steps so far.
    pub total_steps: usize,
}

/// Whether batch number `done` of an epoch, counted from 1, is the last of its step.
pub open spec fn ends_group(batches: int, accum: int, done: int) -> bool {
    done % step_size(accum) == 0 || done == batches
}

/// How many batches of an epoch go into one step.
pub open spec fn step_size(grad_accum_steps: int) -> int {
    if grad_accum_steps >= 1 {
        grad_accum_steps
    } else {
        1
    }
}

impl Accumulation {
    /// Batches since the last step, after `done` batches of the epoch.
    pub open spec fn wf_at(self, done: int) -> bool {
        &&& 0 <= done <= self.batches
        &&& self.count == if done == self.batches {
            0
        } else {
            done % step_size(self.grad_accum_steps as int)
        }
    }

    /// The counts after `epochs` whole epochs and `done` batches of another.
    pub open spec fn is_after(self, epochs: int, done: int) -> bool {
        let batches = self.batches as int;
        let accum = self.grad_accum_steps as int;
        &&& self.wf_at(done)
        &&& self.total_steps == run_steps(batches, accum, epochs) + steps_after(
            batches,
            accum,
            done,
        )
    }

    /// Nothing is trained yet.
    pub fn new(grad_accum_steps: usize, batches: usize) -> (a: Self)
        ensures
            a.wf_at(0),
            a.grad_accum_steps == grad_accum_steps,
            a.batches == batches,
            a.count == 0,
            a.total_steps == 0,
            a.is_after(0, 0),
    {
        proof {
            vstd::arithmetic::div_mod::lemma_small_mod(0, step_size(grad_accum_steps as int) as nat);
        }
        Accumulation { grad_accum_steps, batches, count: 0, total_steps: 0 }
    }

    /// Batch `step` of an epoch was added. Returns whether the optimizer steps: when enough
    /// batches came together, and at the end of the epoch.
    pub fn on_batch(&mut self, step: usize) -> (steps: bool)
        requires
            old(self).wf_at(step as int),
            step < old(self).batches,
            old(self).total_steps < usize::MAX,
        ensures
            final(self).wf_at(step + 1),
            final(self).grad_accum_steps == old(self).grad_accum_steps,
            final(self).batches == old(self).batches,
            steps == ends_group(
                old(self).batches as int,
                old(self).grad_accum_steps as int,
                step + 1,
            ),
            final(self).total_steps == old(self).total_steps + if steps {
                1int
            } else {
                0
            },
            forall|epochs: int| #[trigger]
                old(self).is_after(epochs, step as int) ==> final(self).is_after(epochs, step + 1),
    {
        let ghost a = step_size(self.grad_accum_steps as int);
        let count: usize = self.count + 1;
        proof {
            vstd::arithmetic::div_mod::lemma_fundamental_div_mod(step as int, a);
            let q = step as int / a;
            let m = step as int % a;
            if m + 1 < a {
                assert(step + 1 == q * a + (m + 1)) by (nonlinear_arith)
                    requires
                        step == a * q + m,
                ;
                vstd::arithmetic::div_mod::lemma_fundamental_div_mod_converse(
                    step + 1,
                    a,
                    q,
                    m + 1,
                );
            } else {
                assert(step + 1 == (q + 1) * a) by (nonlinear_arith)
                    requires
                        step == a * q + m,
                        m + 1 == a,
                ;
                vstd::arithmetic::div_mod::lemma_fundamental_div_mod_converse(
                    step + 1,
                    a,
                    q + 1,
                    0,
                );
            }
        }
        let steps = count >= self.grad_accum_steps || step == self.batches - 1;
        if steps {
            self.total_steps = self.total_steps + 1;
            self.count = 0;
        } else {
            self.count = count;
        }
        steps
    }

    /// The next epoch starts, wherever the one before ended: batches that were not stepped on
    /// do not count towards its first step.
    pub fn start_epoch(&mut self)
        ensures
            final(self).wf_at(0),
            final(self).count == 0,
            final(self).grad_accum_steps == old(self).grad_accum_steps,
            final(self).batches == old(self).batches,
            final(self).total_steps == old(self).total_steps,
            forall|epochs: int| #[trigger]
                old(self).is_after(epochs, 0) ==> final(self).is_after(epochs, 0),
            forall|epochs: int| #[trigger]
                old(self).is_after(epochs, old(self).batches as int) && epochs >= 0
                    ==> final(self).is_after(epochs + 1, 0),
    {
        proof {
            vstd::arithmetic::div_mod::lemma_small_mod(
                0,
                step_size(self.grad_accum_steps as int) as nat,
            );
        }
        self.count = 0;
    }
}

/// Steps of the optimizer after the first `done` batches of an epoch.
pub open spec fn steps_after(batches: int, accum: int, done: int) -> int
    decreases done,
{
    if done <= 0 {
        0
    } else {
        steps_after(batches, accum, done - 1) + if ends_group(batches, accum, done) {
            1int
        } else {
            0
        }
    }
}

/// Steps of the optimizer in `epochs` whole epochs.
pub open spec fn run_steps(batches: int, accum: int, epochs: int) -> int
    decreases epochs,
{
    if epochs <= 0 {
        0
    } else {
        run_steps(batches, accum, epochs - 1) + steps_after(batches, accum, batches)
    }
}

proof fn lemma_steps_before_the_end(batches: int, accum: int, done: int)
    requires
        0 <= done < batches,
    ensures
        steps_after(batches, accum, done) == done / step_size(accum),
    decreases done,
{
    let a = step_size(accum);
    if done > 0 {
        lemma_steps_before_the_end(batches, accum, done - 1);
        vstd::arithmetic::div_mod::lemma_fundamental_div_mod(done - 1, a);
        let q = (done - 1) / a;
        let m = (done - 1) % a;
        if m + 1 < a {
            assert(done == q * a + (m + 1)) by (nonlinear_arith)
                requires
                    done - 1 == a * q + m,
            ;
            vstd::arithmetic::div_mod::lemma_fundamental_div_mod_converse(done, a, q, m + 1);
        } else {
            assert(done == (q + 1) * a) by (nonlinear_arith)
                requires
                    done - 1 == a * q + m,
                    m + 1 == a,
            ;
            vstd::arithmetic::div_mod::lemma_fundamental_div_mod_converse(done, a, q + 1, 0);
        }
    } else {
        vstd::arithmetic::div_mod::lemma_fundamental_div_mod_converse(0, a, 0, 0);
    }
}

/// An epoch has as many steps as there are groups of batches: no batch is left out, and no
/// group is larger than asked for.
pub proof fn law_epoch_steps(batches: int, accum: int)
    requires
        batches > 0,
    ensures
        steps_after(batches, accum, batches) == (batches - 1) / step_size(accum) + 1,
{
    lemma_steps_before_the_end(batches, accum, batches - 1);
}

/// A run has the steps of an epoch once per epoch, and none where there are no batches.
pub proof fn law_run_steps(batches: int, accum: int, epochs: int)
    requires
        batches >= 0,
        epochs >= 0,
    ensures
        run_steps(batches, accum, epochs) == if batches == 0 {
            0
        } else {
            epochs * ((batches - 1) / step_size(accum) + 1)
        },
    decreases epochs,
{
    if epochs > 0 {
        law_run_steps(batches, accum, epochs - 1);
        if batches > 0 {
            law_epoch_steps(batches, accum);
            let per_epoch = (batches - 1) / step_size(accum) + 1;
            assert(epochs * per_epoch == (epochs - 1) * per_epoch + per_epoch) by (nonlinear_arith);
        }
    } else {
        assert(0 * ((batches - 1) / step_size(accum) + 1) == 0) by (nonlinear_arith);
    }
}

/// At the end of the last epoch of a run, the count of steps is that of the whole run.
pub proof fn law_run_is_counted(a: Accumulation, epochs: int)
    requires
        epochs > 0,
        a.batches > 0,
        a.is_after(epochs - 1, a.batches as int),
    ensures
        a.total_steps == epochs * ((a.batches - 1) / step_size(a.grad_accum_steps as int) + 1),
{
    law_run_steps(a.batches as int, a.grad_accum_steps as int, epochs);
}

} // verus!
