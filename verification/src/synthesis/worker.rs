//! The course of the generation of examples.
//!
//! The worker goes round the providers, passes over those whose limits are reached, and picks
//! the next prompt of the bank. It stays within each provider's free tier: every call that is
//! made counts for the minute and for the 24 hours after it. Moments are nanoseconds on one
//! clock.
use super::prompts::{random_prompt, Prompt};
use super::provider::{build_provider, Provider, ProviderError};
use super::{GeneratedExample, SynthesisConfig};
use crate::ids::fresh_id;
use crate::text::{concat, len_bytes};
use vstd::prelude::*;

verus! {

use super::prompts::prompt_of;
use super::provider::is_provider;
use crate::seqs::{keep, lemma_keep_step, lemma_sum_step, sum_of};
use crate::text::byte_len;
use vstd::string::StringExecFns;

/// Nanoseconds of a minute.
pub const MINUTE_NANOS: u64 = 60_000_000_000;

/// Nanoseconds of a day.
pub const DAY_NANOS: u64 = 86_400_000_000_000;

/// Seconds that the worker rests when every provider's day is used up.
pub const EXHAUSTED_SECS: u64 = 3600;

/// Responses below this many bytes are no examples.
pub const MIN_RESPONSE_BYTES: usize = 50;

/// Requests that a rate limit counts for.
pub const RATE_LIMIT_COST: u128 = 100;

/// The generation of examples.
#[derive(Debug)]
pub struct SynthesisWorker {
    pub config: SynthesisConfig,
    pub node_id: String,
    /// Picks prompts; cycles through the bank.
    pub counter: u64,
    pub providers: Vec<Provider>,
    /// When each provider was called, as far back as it counts.
    pub calls: Vec<Vec<u64>>,
    /// When each provider refused a call because of its rate limit, as far back as it counts.
    pub refusals: Vec<Vec<u64>>,
    pub provider_idx: usize,
}

/// A request that is to be made.
#[derive(Debug)]
pub struct GenerationRequest {
    /// Position of the provider to ask.
    pub provider: usize,
    pub prompt: Prompt,
    pub seed: u64,
}

/// What the worker does next.
#[derive(Debug)]
pub enum SynthesisStep {
    /// Every provider's day is used up.
    Rest,
    /// Some provider's day is not used up, but its minute is.
    Wait,
    Generate(GenerationRequest),
}

/// How a request ended.
#[derive(Debug, Clone, Copy, PartialEq, Eq, Structural)]
pub enum GenerationOutcome {
    Generated,
    RateLimited,
    Failed,
}

/// Requests per minute that a provider adds to the budget: its own, five at most.
pub open spec fn budget_of(p: Provider) -> nat {
    if p.rpm <= 5 {
        p.rpm as nat
    } else {
        5
    }
}

/// Requests per minute of all providers.
pub open spec fn total_budget(providers: Seq<Provider>) -> nat {
    sum_of(providers, |p: Provider| budget_of(p))
}

/// Nanoseconds between two requests: a minute divided by the budget, rounded, two seconds at
/// least; twelve seconds without a budget.
pub open spec fn interval_nanos(budget: nat) -> nat {
    if budget == 0 {
        12_000_000_000
    } else if budget >= 30 {
        2_000_000_000
    } else {
        ((120_000_000_000 + budget) / (2 * budget)) as nat
    }
}

/// The limit of requests per day: configured, or that of the free tier.
pub open spec fn daily_limit(w: SynthesisWorker, i: int) -> u32 {
    match w.config.providers@[i].rpd_limit {
        Some(n) => n,
        None => w.providers@[i].rpd,
    }
}

/// The limit of requests per minute: configured, or that of the free tier.
pub open spec fn minute_limit(w: SynthesisWorker, i: int) -> u32 {
    match w.config.providers@[i].rpm_limit {
        Some(n) => n,
        None => w.providers@[i].rpm,
    }
}

/// Whether a moment counts at `now`: the window has not passed since.
pub open spec fn counts_at(t: u64, now: u64, window: u64) -> bool {
    now <= t + window
}

/// The moments that count at `now`.
pub open spec fn recent(times: Seq<u64>, now: u64, window: u64) -> Seq<u64> {
    keep(times, |t: u64| counts_at(t, now, window))
}

/// What a provider was used for in the last day: its calls, and many more for each refusal.
pub open spec fn usage(w: SynthesisWorker, i: int, now: u64) -> nat {
    recent(w.calls@[i]@, now, DAY_NANOS).len() + RATE_LIMIT_COST as nat * recent(
        w.refusals@[i]@,
        now,
        DAY_NANOS,
    ).len()
}

/// Whether a provider's day is not used up.
pub open spec fn has_day_left(w: SynthesisWorker, i: int, now: u64) -> bool {
    usage(w, i, now) < daily_limit(w, i)
}

/// Whether a provider can be called: neither its day nor its minute is used up.
pub open spec fn is_open(w: SynthesisWorker, i: int, now: u64) -> bool {
    has_day_left(w, i, now) && recent(w.calls@[i]@, now, MINUTE_NANOS).len() < minute_limit(w, i)
}

/// Whether the logs are the same but for that of provider `i`, which got one more moment.
pub open spec fn is_logged(pre: Seq<Vec<u64>>, post: Seq<Vec<u64>>, i: int, now: u64) -> bool {
    &&& post.len() == pre.len()
    &&& post[i]@ == recent(pre[i]@, now, DAY_NANOS).push(now)
    &&& forall|k: int| 0 <= k < pre.len() && k != i ==> #[trigger] post[k] == pre[k]
}

/// Whether a call was charged to provider `i`, which could be called.
pub open spec fn is_charged(
    pre: SynthesisWorker,
    post: SynthesisWorker,
    i: int,
    now: u64,
) -> bool {
    &&& is_open(pre, i, now)
    &&& is_logged(pre.calls@, post.calls@, i, now)
    &&& post.refusals == pre.refusals
    &&& post.same_setup(pre)
}

/// The position `d` steps on from `i`.
pub open spec fn around(i: int, d: int, n: int) -> int {
    if i + d < n {
        i + d
    } else {
        i + d - n
    }
}

/// How many providers from the current one on cannot be called before one that can; all of
/// them if none is left.
pub open spec fn passed_over(w: SynthesisWorker, now: u64, d: int) -> int
    decreases w.providers@.len() - d,
{
    let n = w.providers@.len() as int;
    if d < 0 || d >= n || is_open(w, around(w.provider_idx as int, d, n), now) {
        d
    } else {
        passed_over(w, now, d + 1)
    }
}

/// A request for the prompt of this seed.
pub open spec fn is_request(g: GenerationRequest, provider: int, seed: u64) -> bool {
    &&& g.provider == provider
    &&& g.seed == seed
    &&& (g.prompt.category@, g.prompt.instruction@) == prompt_of(seed as int)
}

/// Whether the worker took this step: the first provider from the current one on that can be
/// called gets the next prompt, and is charged for it. Where there is none, the worker waits
/// while some provider's day is not used up, and rests where all are.
pub open spec fn is_step(
    pre: SynthesisWorker,
    post: SynthesisWorker,
    now: u64,
    r: SynthesisStep,
) -> bool {
    let n = pre.providers@.len() as int;
    let d = passed_over(pre, now, 0);
    if d < n {
        let k = around(pre.provider_idx as int, d, n);
        &&& is_charged(pre, post, k, now)
        &&& post.provider_idx == k
        &&& post.counter == pre.counter.wrapping_add(1)
        &&& r matches SynthesisStep::Generate(g)
        &&& is_request(g, k, pre.counter)
    } else {
        &&& post == pre
        &&& if exists|i: int| 0 <= i < n && #[trigger] has_day_left(pre, i, now) {
            r is Wait
        } else {
            r is Rest
        }
    }
}

/// Whether a request ended so: a refusal is noted, and the turn passes to the next provider.
pub open spec fn is_ended(
    pre: SynthesisWorker,
    post: SynthesisWorker,
    outcome: GenerationOutcome,
    now: u64,
) -> bool {
    &&& post.same_setup(pre)
    &&& post.counter == pre.counter
    &&& post.calls == pre.calls
    &&& post.provider_idx == around(pre.provider_idx as int, 1, pre.providers@.len() as int)
    &&& outcome == GenerationOutcome::RateLimited ==> is_logged(
        pre.refusals@,
        post.refusals@,
        pre.provider_idx as int,
        now,
    )
    &&& outcome != GenerationOutcome::RateLimited ==> post.refusals == pre.refusals
}

impl SynthesisWorker {
    pub open spec fn wf(self) -> bool {
        let n = self.providers@.len();
        &&& n == self.config.providers@.len()
        &&& n == self.calls@.len()
        &&& n == self.refusals@.len()
        &&& n > 0 ==> self.provider_idx < n
        &&& forall|i: int|
            0 <= i < n ==> is_provider(#[trigger] self.providers@[i], self.config.providers@[i])
    }

    /// Configuration and providers are the same.
    pub open spec fn same_setup(self, other: Self) -> bool {
        self.config == other.config && self.node_id == other.node_id && self.providers
            == other.providers
    }

    /// A worker with nothing asked yet.
    pub fn new(config: SynthesisConfig, node_id: String, seed: u64) -> (w: Self)
        ensures
            w.wf(),
            w.config == config,
            w.node_id == node_id,
            w.counter == seed,
            w.provider_idx == 0,
            forall|i: int|
                0 <= i < w.providers@.len() ==> (#[trigger] w.calls@[i])@.len() == 0
                    && w.refusals@[i]@.len() == 0,
    {
        let mut providers: Vec<Provider> = Vec::new();
        let mut calls: Vec<Vec<u64>> = Vec::new();
        let mut refusals: Vec<Vec<u64>> = Vec::new();
        let mut i: usize = 0;
        while i < config.providers.len()
            invariant
                i <= config.providers@.len(),
                providers@.len() == i,
                calls@.len() == i,
                refusals@.len() == i,
                forall|k: int|
                    0 <= k < i ==> is_provider(#[trigger] providers@[k], config.providers@[k]),
                forall|k: int|
                    0 <= k < i ==> (#[trigger] calls@[k])@.len() == 0 && refusals@[k]@.len() == 0,
            decreases config.providers@.len() - i,
        {
            providers.push(build_provider(&config.providers[i]));
            calls.push(Vec::new());
            refusals.push(Vec::new());
            i = i + 1;
        }
        SynthesisWorker {
            config,
            node_id,
            counter: seed,
            providers,
            calls,
            refusals,
            provider_idx: 0,
        }
    }

    /// Nanoseconds between two requests.
    pub fn interval(&self) -> (n: u64)
        ensures
            n == interval_nanos(total_budget(self.providers@)),
    {
        let ghost f = |p: Provider| budget_of(p);
        let ghost all = self.providers@;
        let mut budget: u64 = 0;
        let mut i: usize = 0;
        assert(sum_of(all.subrange(0, 0), f) == 0);
        while i < self.providers.len()
            invariant
                i <= self.providers@.len(),
                all == self.providers@,
                f == (|p: Provider| budget_of(p)),
                budget <= 35,
                budget < 30 ==> budget == sum_of(all.subrange(0, i as int), f),
                budget >= 30 ==> sum_of(all.subrange(0, i as int), f) >= 30,
            decreases self.providers@.len() - i,
        {
            proof {
                lemma_sum_step(all, f, i as int);
            }
            let rpm: u64 = self.providers[i].rpm as u64;
            if budget < 30 {
                budget = budget + if rpm <= 5 {
                    rpm
                } else {
                    5
                };
            }
            i = i + 1;
        }
        assert(all.subrange(0, all.len() as int) =~= all);
        if budget == 0 {
            12_000_000_000
        } else if budget >= 30 {
            2_000_000_000
        } else {
            (120_000_000_000 + budget) / (2 * budget)
        }
    }

    /// Whether a provider's day is not used up.
    fn has_quota(&self, provider: usize, now: u64) -> (r: bool)
        requires
            self.wf(),
            provider < self.providers@.len(),
        ensures
            r == has_day_left(*self, provider as int, now),
    {
        let limit: u32 = match self.config.providers[provider].rpd_limit {
            Some(l) => l,
            None => self.providers[provider].rpd,
        };
        let calls: u128 = only_recent(&self.calls[provider], now, DAY_NANOS).len() as u128;
        let refusals: u128 = only_recent(&self.refusals[provider], now, DAY_NANOS).len() as u128;
        calls + RATE_LIMIT_COST * refusals < (limit as u128)
    }

    /// Whether a provider can be called: neither its day nor its minute is used up.
    pub fn can_ask(&self, provider: usize, now: u64) -> (r: bool)
        requires
            self.wf(),
            provider < self.providers@.len(),
        ensures
            r == is_open(*self, provider as int, now),
    {
        let limit: u32 = match self.config.providers[provider].rpm_limit {
            Some(l) => l,
            None => self.providers[provider].rpm,
        };
        let calls: u64 = only_recent(&self.calls[provider], now, MINUTE_NANOS).len() as u64;
        self.has_quota(provider, now) && calls < (limit as u64)
    }

    /// Charges a call to a provider that can be called, and says whether it may be made.
    pub fn may_call(&mut self, provider: usize, now: u64) -> (r: bool)
        requires
            old(self).wf(),
            provider < old(self).providers@.len(),
        ensures
            final(self).wf(),
            r == is_open(*old(self), provider as int, now),
            r ==> is_charged(*old(self), *final(self), provider as int, now),
            r ==> final(self).counter == old(self).counter,
            r ==> final(self).provider_idx == old(self).provider_idx,
            !r ==> *final(self) == *old(self),
    {
        if !self.can_ask(provider, now) {
            return false;
        }
        let mut log = only_recent(&self.calls[provider], now, DAY_NANOS);
        log.push(now);
        self.calls[provider] = log;
        true
    }

    /// The next request: the first provider from the current one on that can be called gets the
    /// next prompt, and is charged for it. Where there is none, the worker waits while some
    /// provider's day is not used up, and rests where all are.
    pub fn next(&mut self, now: u64) -> (r: SynthesisStep)
        requires
            old(self).wf(),
            old(self).providers@.len() > 0,
        ensures
            final(self).wf(),
            is_step(*old(self), *final(self), now, r),
    {
        let start: usize = self.provider_idx;
        let n: usize = self.providers.len();
        let mut d: usize = 0;
        while d < n
            invariant
                *self == *old(self),
                old(self).wf(),
                start == old(self).provider_idx,
                n == old(self).providers@.len(),
                start < n,
                d <= n,
                passed_over(*old(self), now, 0) == passed_over(*old(self), now, d as int),
            decreases n - d,
        {
            let k: usize = if d < n - start {
                start + d
            } else {
                d - (n - start)
            };
            if self.may_call(k, now) {
                let seed: u64 = self.counter;
                self.counter = seed.wrapping_add(1);
                self.provider_idx = k;
                return SynthesisStep::Generate(
                    GenerationRequest { provider: k, prompt: random_prompt(seed), seed },
                );
            }
            d = d + 1;
        }
        let mut i: usize = 0;
        while i < n
            invariant
                *self == *old(self),
                old(self).wf(),
                n == old(self).providers@.len(),
                i <= n,
                passed_over(*old(self), now, 0) >= n,
                forall|k: int| 0 <= k < i ==> !#[trigger] has_day_left(*old(self), k, now),
            decreases n - i,
        {
            if self.has_quota(i, now) {
                return SynthesisStep::Wait;
            }
            i = i + 1;
        }
        SynthesisStep::Rest
    }

    /// A request ended: a refusal because of the rate limit counts for many calls, and the turn
    /// passes to the next provider.
    pub fn on_outcome(&mut self, outcome: GenerationOutcome, now: u64)
        requires
            old(self).wf(),
            old(self).providers@.len() > 0,
        ensures
            final(self).wf(),
            is_ended(*old(self), *final(self), outcome, now),
    {
        let k: usize = self.provider_idx;
        if outcome == GenerationOutcome::RateLimited {
            let mut log = only_recent(&self.refusals[k], now, DAY_NANOS);
            log.push(now);
            self.refusals[k] = log;
        }
        self.provider_idx = if k < self.providers.len() - 1 {
            k + 1
        } else {
            0
        };
    }

    /// Whether examples are refined: that is enabled, and there are two providers.
    pub fn refines(&self) -> (r: bool)
        ensures
            r == (self.config.enable_refinement && self.config.providers@.len() >= 2),
    {
        self.config.enable_refinement && self.config.providers.len() >= 2
    }

    /// The provider that refines the example of this seed.
    pub fn refiner(&self, seed: u64) -> (k: usize)
        requires
            self.wf(),
            self.config.providers@.len() > 0,
            (seed as usize) < usize::MAX,
        ensures
            k == ((seed as usize) + 1) % self.config.providers@.len() as int,
            k < self.providers@.len(),
    {
        (seed as usize + 1) % self.config.providers.len()
    }

    /// Where examples are submitted.
    pub fn submit_url(&self) -> (r: String)
        ensures
            r@ == self.config.coordinator_url@ + "/api/v1/dataset/examples"@,
    {
        concat(self.config.coordinator_url.as_str(), "/api/v1/dataset/examples")
    }
}

/// The moments that count at `now`.
fn only_recent(times: &Vec<u64>, now: u64, window: u64) -> (r: Vec<u64>)
    ensures
        r@ == recent(times@, now, window),
        r@.len() <= times@.len(),
{
    let ghost p = |t: u64| counts_at(t, now, window);
    let mut r: Vec<u64> = Vec::new();
    let mut i: usize = 0;
    assert(keep(times@.subrange(0, 0), p).len() == 0);
    while i < times.len()
        invariant
            i <= times@.len(),
            p == (|t: u64| counts_at(t, now, window)),
            r@ == keep(times@.subrange(0, i as int), p),
            r@.len() <= i,
        decreases times@.len() - i,
    {
        proof {
            lemma_keep_step(times@, p, i as int);
        }
        let t: u64 = times[i];
        if now <= t || now - t <= window {
            r.push(t);
        }
        i = i + 1;
    }
    assert(times@.subrange(0, times@.len() as int) =~= times@);
    r
}

/// The outcome of a failed request.
pub fn outcome_of(error: &ProviderError) -> (r: GenerationOutcome)
    ensures
        r == if *error is RateLimit {
            GenerationOutcome::RateLimited
        } else {
            GenerationOutcome::Failed
        },
{
    match error {
        ProviderError::RateLimit => GenerationOutcome::RateLimited,
        _ => GenerationOutcome::Failed,
    }
}

/// The example that a response makes; too short a response makes none.
pub fn generate_example(prompt: &Prompt, provider: &str, response: String) -> (r: Result<
    GeneratedExample,
    ProviderError,
>)
    ensures
        match r {
            Ok(e) => {
                &&& byte_len(response@) >= MIN_RESPONSE_BYTES
                &&& e.id@.len() == 36
                &&& e.instruction@ == prompt.instruction@
                &&& e.response == response
                &&& e.category@ == prompt.category@
                &&& e.provider@ == provider@
                &&& e.model@.len() == 0
                &&& !e.refined
                &&& !e.execution_verified
            },
            Err(e) => byte_len(response@) < MIN_RESPONSE_BYTES && e is EmptyResponse,
        },
{
    if len_bytes(response.as_str()) < MIN_RESPONSE_BYTES {
        return Err(ProviderError::EmptyResponse);
    }
    Ok(
        GeneratedExample {
            id: fresh_id(),
            instruction: prompt.instruction.clone(),
            response,
            category: prompt.category.clone(),
            provider: provider.to_owned(),
            model: String::new(),
            refined: false,
            execution_verified: false,
        },
    )
}

/// Puts the refined response into an example.
pub fn apply_refinement(example: &mut GeneratedExample, refined: String)
    ensures
        *final(example) == (GeneratedExample { response: refined, refined: true, ..*old(example) }),
{
    example.response = refined;
    example.refined = true;
}

/// Notes whether the code of an example passed.
pub fn apply_verification(example: &mut GeneratedExample, passed: bool)
    ensures
        *final(example) == (GeneratedExample { execution_verified: passed, ..*old(example) }),
{
    example.execution_verified = passed;
}

/// What the critic is asked.
pub fn critique_prompt(instruction: &str, draft: &str) -> (r: String)
    ensures
        r@ == "Review this code response to the instruction:\n\n## Instruction\n"@ + instruction@
            + "\n\n## Response\n"@ + draft@
            + "\n\nProvide a concise critique (max 200 words): bugs, missing error handling, style issues."@,
{
    let mut r = "Review this code response to the instruction:\n\n## Instruction\n".to_owned();
    r.append(instruction);
    r.append("\n\n## Response\n");
    r.append(draft);
    r.append(
        "\n\nProvide a concise critique (max 200 words): bugs, missing error handling, style issues.",
    );
    r
}

/// What the refiner is asked.
pub fn refine_prompt(instruction: &str, draft: &str, critique: &str) -> (r: String)
    ensures
        r@ == "Improve this code based on the critique:\n\n## Original instruction\n"@
            + instruction@ + "\n\n## Draft code\n"@ + draft@ + "\n\n## Critique\n"@ + critique@
            + "\n\nProvide only the improved code with a brief explanation."@,
{
    let mut r = "Improve this code based on the critique:\n\n## Original instruction\n".to_owned();
    r.append(instruction);
    r.append("\n\n## Draft code\n");
    r.append(draft);
    r.append("\n\n## Critique\n");
    r.append(critique);
    r.append("\n\nProvide only the improved code with a brief explanation.");
    r
}

/// The first value of the counter, from the time in nanoseconds and the process id.
pub fn rand_seed(nanos: u64, pid: u32) -> (r: u64)
    ensures
        r == nanos ^ ((pid as u64) << 32) ^ (pid as u64).wrapping_mul(6364136223846793005),
{
    let p: u64 = pid as u64;
    nanos ^ (p << 32) ^ p.wrapping_mul(6364136223846793005)
}

// ── Laws ─────────────────────────────────────────────────────────────────────

proof fn lemma_passed_over(w: SynthesisWorker, now: u64, d: int)
    requires
        0 <= d <= w.providers@.len(),
    ensures
        d <= passed_over(w, now, d) <= w.providers@.len(),
        passed_over(w, now, d) < w.providers@.len() ==> is_open(
            w,
            around(w.provider_idx as int, passed_over(w, now, d), w.providers@.len() as int),
            now,
        ),
        forall|e: int|
            d <= e < passed_over(w, now, d) ==> !is_open(
                w,
                #[trigger] around(w.provider_idx as int, e, w.providers@.len() as int),
                now,
            ),
    decreases w.providers@.len() - d,
{
    let n = w.providers@.len() as int;
    if d < n && !is_open(w, around(w.provider_idx as int, d, n), now) {
        lemma_passed_over(w, now, d + 1);
    }
}

/// A request is made exactly when some provider can be called.
pub proof fn law_worker_asks_whoever_can_be_called(w: SynthesisWorker, now: u64)
    requires
        w.wf(),
        w.providers@.len() > 0,
    ensures
        (passed_over(w, now, 0) == w.providers@.len()) == (forall|i: int|
            0 <= i < w.providers@.len() ==> !#[trigger] is_open(w, i, now)),
{
    let n = w.providers@.len() as int;
    let s = w.provider_idx as int;
    lemma_passed_over(w, now, 0);
    if passed_over(w, now, 0) == n {
        assert forall|i: int| 0 <= i < n implies !#[trigger] is_open(w, i, now) by {
            let e = if i >= s {
                i - s
            } else {
                i - s + n
            };
            assert(around(s, e, n) == i);
        }
    } else {
        assert(is_open(w, around(s, passed_over(w, now, 0), n), now));
    }
}

proof fn lemma_recent_push(times: Seq<u64>, t: u64, now: u64, window: u64)
    ensures
        recent(times.push(t), now, window) == if counts_at(t, now, window) {
            recent(times, now, window).push(t)
        } else {
            recent(times, now, window)
        },
{
    let p = |t: u64| counts_at(t, now, window);
    lemma_keep_step(times.push(t), p, times.len() as int);
    assert(times.push(t).subrange(0, times.len() as int) =~= times);
    assert(times.push(t).subrange(0, times.len() as int + 1) =~= times.push(t));
}

/// Forgetting what no longer counts for a day at one moment changes nothing at a later one, nor
/// for a shorter window.
pub proof fn law_old_calls_can_be_forgotten(times: Seq<u64>, now: u64, later: u64, window: u64)
    requires
        now <= later,
        window <= DAY_NANOS,
    ensures
        recent(recent(times, now, DAY_NANOS), later, window) == recent(times, later, window),
    decreases times.len(),
{
    if times.len() > 0 {
        let init = times.drop_last();
        let t = times.last();
        assert(init.push(t) =~= times);
        law_old_calls_can_be_forgotten(init, now, later, window);
        lemma_recent_push(init, t, now, DAY_NANOS);
        lemma_recent_push(init, t, later, window);
        lemma_recent_push(recent(init, now, DAY_NANOS), t, later, window);
    } else {
        let p = |t: u64| counts_at(t, now, DAY_NANOS);
        let q = |t: u64| counts_at(t, later, window);
        assert(keep(times, p) =~= times);
        assert(keep(times, q) =~= times);
    }
}

/// The calls within a window are among those that count at the last of them.
proof fn lemma_recent_at_least(times: Seq<u64>, from: int, now: u64, window: u64)
    requires
        0 <= from <= times.len(),
        forall|k: int| from <= k < times.len() ==> counts_at(#[trigger] times[k], now, window),
    ensures
        recent(times, now, window).len() >= times.len() - from,
    decreases times.len(),
{
    if from < times.len() {
        let init = times.drop_last();
        assert forall|k: int| from <= k < init.len() implies counts_at(
            #[trigger] init[k],
            now,
            window,
        ) by {
            assert(init[k] == times[k]);
        }
        lemma_recent_at_least(init, from, now, window);
        lemma_recent_push(init, times.last(), now, window);
        assert(init.push(times.last()) =~= times);
        assert(counts_at(times[times.len() - 1], now, window));
    }
}

/// Whether these are the charges to provider `i` since the start: at each moment of `times` the
/// worker went from the state in `pre` to the one in `post`, and nothing else touched the log.
pub open spec fn are_charges(
    pre: Seq<SynthesisWorker>,
    post: Seq<SynthesisWorker>,
    times: Seq<u64>,
    i: int,
) -> bool {
    &&& pre.len() == times.len()
    &&& post.len() == times.len()
    &&& forall|k: int|
        0 <= k < times.len() ==> is_charged(#[trigger] pre[k], post[k], i, times[k])
    &&& forall|k: int|
        0 <= k < times.len() ==> (#[trigger] pre[k]).calls@[i]@ == if k == 0 {
            Seq::empty()
        } else {
            post[k - 1].calls@[i]@
        }
    &&& forall|j: int, k: int| 0 <= j <= k < times.len() ==> times[j] <= times[k]
}

/// The log counts every charge that counts.
proof fn lemma_log_counts_all(
    pre: Seq<SynthesisWorker>,
    post: Seq<SynthesisWorker>,
    times: Seq<u64>,
    i: int,
    k: int,
    now: u64,
    window: u64,
)
    requires
        are_charges(pre, post, times, i),
        0 <= k < times.len(),
        times[k] <= now,
        window <= DAY_NANOS,
    ensures
        recent(pre[k].calls@[i]@, now, window) == recent(times.subrange(0, k), now, window),
    decreases k,
{
    let log = pre[k].calls@[i]@;
    if k > 0 {
        let before = pre[k - 1].calls@[i]@;
        let t = times[k - 1];
        lemma_log_counts_all(pre, post, times, i, k - 1, now, window);
        assert(is_charged(pre[k - 1], post[k - 1], i, t));
        assert(log == recent(before, t, DAY_NANOS).push(t));
        law_old_calls_can_be_forgotten(before, t, now, window);
        lemma_recent_push(recent(before, t, DAY_NANOS), t, now, window);
        lemma_recent_push(times.subrange(0, k - 1), t, now, window);
        assert(times.subrange(0, k) =~= times.subrange(0, k - 1).push(t));
    } else {
        assert(times.subrange(0, 0) =~= log);
    }
}

/// The calls that a window spans count at the last of them, all but that one itself.
proof fn lemma_window_counts(
    pre: Seq<SynthesisWorker>,
    post: Seq<SynthesisWorker>,
    times: Seq<u64>,
    i: int,
    from: int,
    to: int,
    window: u64,
)
    requires
        are_charges(pre, post, times, i),
        0 <= from <= to < times.len(),
        times[to] - times[from] <= window <= DAY_NANOS,
    ensures
        to - from <= recent(pre[to].calls@[i]@, times[to], window).len(),
        is_charged(pre[to], post[to], i, times[to]),
{
    let now = times[to];
    let earlier = times.subrange(0, to);
    lemma_log_counts_all(pre, post, times, i, to, now, window);
    assert forall|k: int| from <= k < earlier.len() implies counts_at(
        #[trigger] earlier[k],
        now,
        window,
    ) by {
        assert(earlier[k] == times[k]);
        assert(times[from] <= times[k]);
    }
    lemma_recent_at_least(earlier, from, now, window);
}

/// Within any 24 hours no provider gets more calls than its daily limit: of any calls, from
/// number `from` to number `to`, that a day spans, there are no more than that.
pub proof fn law_daily_limit_is_kept(
    pre: Seq<SynthesisWorker>,
    post: Seq<SynthesisWorker>,
    times: Seq<u64>,
    i: int,
    from: int,
    to: int,
)
    requires
        are_charges(pre, post, times, i),
        0 <= from <= to < times.len(),
        times[to] - times[from] <= DAY_NANOS,
    ensures
        to - from + 1 <= daily_limit(pre[to], i),
{
    lemma_window_counts(pre, post, times, i, from, to, DAY_NANOS);
    assert(usage(pre[to], i, times[to]) >= recent(
        pre[to].calls@[i]@,
        times[to],
        DAY_NANOS,
    ).len());
}

/// Within any minute no provider gets more calls than its limit per minute.
pub proof fn law_minute_limit_is_kept(
    pre: Seq<SynthesisWorker>,
    post: Seq<SynthesisWorker>,
    times: Seq<u64>,
    i: int,
    from: int,
    to: int,
)
    requires
        are_charges(pre, post, times, i),
        0 <= from <= to < times.len(),
        times[to] - times[from] <= MINUTE_NANOS,
    ensures
        to - from + 1 <= minute_limit(pre[to], i),
{
    lemma_window_counts(pre, post, times, i, from, to, MINUTE_NANOS);
}

/// Two requests never come faster than two seconds apart, and the budget of requests per
/// minute is not exceeded by more than the rounding of the interval.
pub proof fn law_interval_respects_the_budget(budget: nat)
    requires
        budget > 0,
    ensures
        interval_nanos(budget) >= 2_000_000_000,
        budget <= 30 ==> 2 * budget * interval_nanos(budget) + budget >= 120_000_000_000,
{
    if budget < 30 {
        let q = (120_000_000_000 + budget) / (2 * budget);
        vstd::arithmetic::div_mod::lemma_fundamental_div_mod(
            120_000_000_000 + budget as int,
            2 * budget as int,
        );
        assert(2 * budget * q + budget >= 120_000_000_000) by (nonlinear_arith)
            requires
                120_000_000_000 + budget == (2 * budget) * q + (120_000_000_000 + budget) % (2
                    * budget),
                (120_000_000_000 + budget) % (2 * budget) < 2 * budget,
                budget > 0,
                q >= 0,
        ;
        assert(q >= 2_000_000_000) by (nonlinear_arith)
            requires
                2 * budget * q + budget >= 120_000_000_000,
                0 < budget < 30,
        ;
    } else if budget == 30 {
    }
}

/// How many of the moments are not before `start`.
pub open spec fn count_since(times: Seq<u64>, start: int) -> nat
    decreases times.len(),
{
    if times.len() == 0 {
        0
    } else {
        count_since(times.drop_last(), start) + if times.last() >= start {
            1nat
        } else {
            0
        }
    }
}

proof fn lemma_recent_counts(times: Seq<u64>, now: u64, window: u64)
    ensures
        recent(times, now, window).len() == count_since(times, now - window),
    decreases times.len(),
{
    if times.len() > 0 {
        let init = times.drop_last();
        lemma_recent_counts(init, now, window);
        lemma_recent_push(init, times.last(), now, window);
        assert(init.push(times.last()) =~= times);
    } else {
        let p = |t: u64| counts_at(t, now, window);
        assert(keep(times, p) =~= times);
    }
}

/// Whether the calls of provider `i` in the 24 hours before `now`, each refusal counted as a
/// hundred, have reached the daily limit: that of its entry, or else that of its free tier.
pub open spec fn day_is_spent(w: SynthesisWorker, i: int, now: u64) -> bool {
    let start = now - 24 * 60 * 60 * 1_000_000_000;
    let spent = count_since(w.calls@[i]@, start) + 100 * count_since(w.refusals@[i]@, start);
    match w.config.providers@[i].rpd_limit {
        Some(n) => spent >= n,
        None => spent >= w.providers@[i].rpd,
    }
}

/// Whether the calls of provider `i` in the minute before `now` have reached its limit.
pub open spec fn minute_is_spent(w: SynthesisWorker, i: int, now: u64) -> bool {
    let spent = count_since(w.calls@[i]@, now - 60 * 1_000_000_000);
    match w.config.providers@[i].rpm_limit {
        Some(n) => spent >= n,
        None => spent >= w.providers@[i].rpm,
    }
}

proof fn lemma_open_is_unspent(w: SynthesisWorker, i: int, now: u64)
    ensures
        has_day_left(w, i, now) == !day_is_spent(w, i, now),
        is_open(w, i, now) == (!day_is_spent(w, i, now) && !minute_is_spent(w, i, now)),
{
    lemma_recent_counts(w.calls@[i]@, now, DAY_NANOS);
    lemma_recent_counts(w.refusals@[i]@, now, DAY_NANOS);
    lemma_recent_counts(w.calls@[i]@, now, MINUTE_NANOS);
}

/// How far on from provider `from` provider `i` is, when `n` take turns.
pub open spec fn turns_to(from: int, i: int, n: int) -> int {
    (i - from) % n
}

proof fn lemma_around_is_turns(from: int, i: int, n: int)
    requires
        0 <= from < n,
        0 <= i < n,
    ensures
        0 <= turns_to(from, i, n) < n,
        around(from, turns_to(from, i, n), n) == i,
{
    if i >= from {
        vstd::arithmetic::div_mod::lemma_small_mod((i - from) as nat, n as nat);
    } else {
        vstd::arithmetic::div_mod::lemma_mod_add_multiples_vanish(i - from, n);
        vstd::arithmetic::div_mod::lemma_small_mod((i - from + n) as nat, n as nat);
    }
}

proof fn lemma_turns_of_around(from: int, d: int, n: int)
    requires
        0 <= from < n,
        0 <= d < n,
    ensures
        turns_to(from, around(from, d, n), n) == d,
{
    let i = around(from, d, n);
    lemma_around_is_turns(from, i, n);
}

/// A request goes to a provider whose day and minute are not spent, whoever comes before it in
/// turn being spent; the call is noted for it alone, and the prompts go on by one.
pub proof fn law_nearest_unspent_provider_is_asked(
    pre: SynthesisWorker,
    post: SynthesisWorker,
    now: u64,
    g: GenerationRequest,
)
    requires
        pre.wf(),
        pre.providers@.len() > 0,
        is_step(pre, post, now, SynthesisStep::Generate(g)),
    ensures
        g.provider < pre.providers@.len(),
        post.provider_idx == g.provider,
        !day_is_spent(pre, g.provider as int, now),
        !minute_is_spent(pre, g.provider as int, now),
        forall|i: int|
            #![trigger pre.providers@[i]]
            0 <= i < pre.providers@.len() && turns_to(
                pre.provider_idx as int,
                i,
                pre.providers@.len() as int,
            ) < turns_to(
                pre.provider_idx as int,
                g.provider as int,
                pre.providers@.len() as int,
            ) ==> day_is_spent(pre, i, now) || minute_is_spent(pre, i, now),
        g.seed == pre.counter,
        post.counter == (pre.counter + 1) % 0x1_0000_0000_0000_0000,
        post.calls@[g.provider as int]@.last() == now,
        forall|start: int|
            #![trigger count_since(post.calls@[g.provider as int]@, start)]
            now - 24 * 60 * 60 * 1_000_000_000 <= start <= now ==> count_since(
                post.calls@[g.provider as int]@,
                start,
            ) == count_since(pre.calls@[g.provider as int]@, start) + 1,
        forall|i: int|
            0 <= i < pre.providers@.len() && i != g.provider ==> #[trigger] post.calls@[i]
                == pre.calls@[i],
        post.refusals == pre.refusals,
        post.config == pre.config,
        post.providers == pre.providers,
{
    let n = pre.providers@.len() as int;
    let s = pre.provider_idx as int;
    let k = g.provider as int;
    let d = passed_over(pre, now, 0);
    lemma_passed_over(pre, now, 0);
    lemma_open_is_unspent(pre, k, now);
    lemma_turns_of_around(s, d, n);
    assert forall|i: int|
        #![trigger pre.providers@[i]]
        0 <= i < n && turns_to(s, i, n) < turns_to(s, k, n) implies day_is_spent(pre, i, now)
        || minute_is_spent(pre, i, now) by {
        lemma_around_is_turns(s, i, n);
        lemma_open_is_unspent(pre, i, now);
        assert(!is_open(pre, around(s, turns_to(s, i, n), n), now));
    }
    let log = pre.calls@[k]@;
    let kept = recent(log, now, DAY_NANOS);
    assert(post.calls@[k]@ == kept.push(now));
    assert forall|start: int|
        #![trigger count_since(post.calls@[k]@, start)]
        now - 24 * 60 * 60 * 1_000_000_000 <= start <= now implies count_since(
        post.calls@[k]@,
        start,
    ) == count_since(log, start) + 1 by {
        lemma_forgotten_do_not_count(log, now, start);
        assert(kept.push(now).drop_last() =~= kept);
    }
}

proof fn lemma_forgotten_do_not_count(times: Seq<u64>, now: u64, start: int)
    requires
        now - DAY_NANOS <= start,
    ensures
        count_since(recent(times, now, DAY_NANOS), start) == count_since(times, start),
    decreases times.len(),
{
    if times.len() > 0 {
        let init = times.drop_last();
        let t = times.last();
        lemma_forgotten_do_not_count(init, now, start);
        lemma_recent_push(init, t, now, DAY_NANOS);
        assert(init.push(t) =~= times);
        let kept = recent(init, now, DAY_NANOS);
        assert(kept.push(t).drop_last() =~= kept);
    } else {
        let p = |t: u64| counts_at(t, now, DAY_NANOS);
        assert(keep(times, p) =~= times);
    }
}

/// No request is made only where every provider is spent: the worker rests where each one's day
/// is, and waits where it is only the minute of some. Nothing changes meanwhile.
pub proof fn law_no_request_where_all_are_spent(
    pre: SynthesisWorker,
    post: SynthesisWorker,
    now: u64,
    r: SynthesisStep,
)
    requires
        pre.wf(),
        pre.providers@.len() > 0,
        is_step(pre, post, now, r),
    ensures
        (r is Rest) == (forall|i: int|
            #![trigger pre.providers@[i]]
            0 <= i < pre.providers@.len() ==> day_is_spent(pre, i, now)),
        (r is Generate) == (exists|i: int|
            #![trigger pre.providers@[i]]
            0 <= i < pre.providers@.len() && !day_is_spent(pre, i, now) && !minute_is_spent(
                pre,
                i,
                now,
            )),
        !(r is Generate) ==> post == pre,
{
    let n = pre.providers@.len() as int;
    let s = pre.provider_idx as int;
    lemma_passed_over(pre, now, 0);
    law_worker_asks_whoever_can_be_called(pre, now);
    assert forall|i: int| 0 <= i < n implies is_open(pre, i, now) == (!day_is_spent(pre, i, now)
        && !minute_is_spent(pre, i, now)) && has_day_left(pre, i, now) == !day_is_spent(
        pre,
        i,
        now,
    ) by {
        lemma_open_is_unspent(pre, i, now);
    }
    let d = passed_over(pre, now, 0);
    if d < n {
        let k = around(s, d, n);
        assert(0 <= k < n && is_open(pre, k, now));
        assert(pre.providers@[k] == pre.providers@[k]);
        assert(!day_is_spent(pre, k, now));
    } else {
        assert forall|i: int|
            #![trigger pre.providers@[i]]
            0 <= i < n implies day_is_spent(pre, i, now) || minute_is_spent(pre, i, now) by {
            assert(!is_open(pre, i, now));
        }
        if r is Rest {
            assert forall|i: int| #![trigger pre.providers@[i]] 0 <= i < n implies day_is_spent(
                pre,
                i,
                now,
            ) by {
                assert(!has_day_left(pre, i, now));
            }
        } else {
            let i = choose|i: int| 0 <= i < n && #[trigger] has_day_left(pre, i, now);
            assert(pre.providers@[i] == pre.providers@[i]);
        }
    }
}

/// After a request it is the next provider's turn, and a refusal alone is noted, for the provider
/// that was asked.
pub proof fn law_turn_passes_on(
    pre: SynthesisWorker,
    post: SynthesisWorker,
    outcome: GenerationOutcome,
    now: u64,
    start: int,
)
    requires
        pre.wf(),
        pre.providers@.len() > 0,
        is_ended(pre, post, outcome, now),
        now - 24 * 60 * 60 * 1_000_000_000 <= start <= now,
    ensures
        post.provider_idx == (pre.provider_idx + 1) % (pre.providers@.len() as int),
        post.calls == pre.calls,
        post.counter == pre.counter,
        count_since(post.refusals@[pre.provider_idx as int]@, start) == count_since(
            pre.refusals@[pre.provider_idx as int]@,
            start,
        ) + if outcome is RateLimited {
            1int
        } else {
            0
        },
        forall|i: int|
            0 <= i < pre.providers@.len() && i != pre.provider_idx ==> #[trigger] post.refusals@[i]
                == pre.refusals@[i],
{
    let n = pre.providers@.len() as int;
    let k = pre.provider_idx as int;
    if k + 1 < n {
        vstd::arithmetic::div_mod::lemma_small_mod((k + 1) as nat, n as nat);
    } else {
        vstd::arithmetic::div_mod::lemma_mod_self_0(n);
    }
    if outcome is RateLimited {
        let log = pre.refusals@[k]@;
        let kept = recent(log, now, DAY_NANOS);
        lemma_forgotten_do_not_count(log, now, start);
        assert(kept.push(now).drop_last() =~= kept);
    }
}

/// Every provider adds its requests per minute to the pace, five at most.
pub proof fn law_every_provider_adds_to_the_pace(providers: Seq<Provider>, p: Provider)
    ensures
        total_budget(providers.push(p)) == total_budget(providers) + if p.rpm <= 5 {
            p.rpm as int
        } else {
            5
        },
        total_budget(Seq::<Provider>::empty()) == 0,
        total_budget(providers) > 0 ==> interval_nanos(total_budget(providers.push(p)))
            <= interval_nanos(total_budget(providers)),
{
    assert(providers.push(p).drop_last() =~= providers);
    let a = total_budget(providers);
    let b = total_budget(providers.push(p));
    if 0 < a && b < 30 {
        lemma_more_is_faster(a as int, b as int);
    } else if 0 < a < 30 {
        lemma_more_is_faster(a as int, 30);
    }
}

proof fn lemma_more_is_faster(a: int, b: int)
    by (nonlinear_arith)
    requires
        0 < a <= b <= 30,
    ensures
        (120_000_000_000 + b) / (2 * b) <= (120_000_000_000 + a) / (2 * a),
        2_000_000_000 <= (120_000_000_000 + a) / (2 * a),
{
}

} // verus!
