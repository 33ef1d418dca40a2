//! The bank of prompts from which training examples are generated.
use crate::text::concat3;
use vstd::prelude::*;

verus! {

/// One task for a language model.
#[derive(Debug)]
pub struct Prompt {
    pub category: String,
    pub instruction: String,
}

impl Clone for Prompt {
    fn clone(&self) -> (r: Self)
        ensures
            r == *self,
    {
        Prompt { category: self.category.clone(), instruction: self.instruction.clone() }
    }
}

/// Instructs the model that writes an answer.
pub const HYVERK_SYSTEM: &'static str = "You are Hyverk, an expert software engineer specializing in Rust, TypeScript, distributed systems, and DevOps. You write clean, idiomatic, well-tested code. Always include proper error handling, documentation comments, and examples.";

/// Instructs the model that criticises an answer.
pub const CRITIC_SYSTEM: &'static str = "You are a senior Rust engineer doing a code review. Identify bugs, anti-patterns, missing error handling, performance issues, and style violations. Be specific and actionable.";

/// Instructs the model that improves an answer.
pub const REFINER_SYSTEM: &'static str = "You are a Rust expert. Given the original code and a critique, produce an improved version that addresses all the issues. The improved code should be production-ready.";

/// The categories and instructions of prompts.
pub open spec fn prompt_texts(v: Seq<Prompt>) -> Seq<(Seq<char>, Seq<char>)> {
    v.map_values(|p: Prompt| (p.category@, p.instruction@))
}

/// Rust basics.
pub open spec fn rust_fundamentals_texts() -> Seq<(Seq<char>, Seq<char>)> {
    seq![
        ("rust"@, "Write a Rust generic function `deduplicate<T: Eq + Hash>(v: Vec<T>) -> Vec<T>` that removes duplicates while preserving insertion order."@),
        ("rust"@, "Implement a Rust struct `RingBuffer<T>` with fixed capacity using a circular array. Include push, pop, len, is_full, and is_empty methods."@),
        ("rust"@, "Write a Rust function that parses a semantic version string like '1.2.3-beta.1+build.42' into a struct with proper error handling."@),
        ("rust"@, "Implement an iterator adapter `Chunks<I>` that groups elements of an iterator into fixed-size chunks, yielding the last partial chunk too."@),
        ("rust"@, "Write a Rust macro `retry!` that retries a fallible expression up to N times with exponential backoff between attempts."@),
        ("rust"@, "Implement a `LruCache<K, V>` in Rust with O(1) get and put using a HashMap and a doubly-linked list."@),
        ("rust"@, "Write a Rust function `merge_sorted<T: Ord>(a: &[T], b: &[T]) -> Vec<T>` that merges two sorted slices into a new sorted vec."@),
        ("rust"@, "Implement a Rust type `NonEmptyVec<T>` that guarantees at least one element at compile time. Include push, first, last, and iter methods."@),
        ("rust"@, "Write a Rust function that computes the SHA-256 hash of a file without loading the entire file into memory."@),
        ("rust"@, "Implement `Trie<V>` in Rust with insert, get, contains_prefix, and words_with_prefix methods."@),
        ("rust"@, "Write a Rust proc-macro `#[builder]` that generates a builder pattern for any struct."@),
        ("rust"@, "Implement a thread-safe lazy singleton in Rust using `OnceLock` without external dependencies."@),
        ("rust"@, "Write a Rust function that converts a JSON Value to a typed struct using a visitor pattern (without serde_derive)."@),
        ("rust"@, "Implement Fibonacci sequence using memoization in Rust, handling arbitrary precision with `u128` and returning an error for values > 186."@),
        ("rust"@, "Write a Rust function to flatten a deeply nested `serde_json::Value` object into a flat `HashMap<String, String>` with dot-notation keys."@),
    ]
}

/// Asynchronous and concurrent code.
pub open spec fn async_concurrent_texts() -> Seq<(Seq<char>, Seq<char>)> {
    seq![
        ("async"@, "Write an async Rust function that fetches multiple URLs concurrently with a concurrency limit of N, returning results in the original order."@),
        ("async"@, "Implement an async Rust `WorkQueue<T>` backed by tokio with a fixed number of worker tasks, graceful shutdown, and backpressure."@),
        ("async"@, "Write a Rust async rate limiter using tokio that limits to N requests per second using a token bucket algorithm."@),
        ("async"@, "Implement a Rust async retry middleware for reqwest that retries on 5xx errors with exponential backoff and jitter."@),
        ("async"@, "Write an async Rust function that reads lines from multiple files concurrently and merges them into a single sorted output stream."@),
        ("async"@, "Implement a Rust async pub/sub system using tokio::broadcast with multiple named topics and subscriber tracking."@),
        ("async"@, "Write a Rust async connection pool using tokio with min/max connections, health checks, and idle timeout."@),
        ("async"@, "Implement a Rust async pipeline where data flows through N stages concurrently, each stage processes items in parallel with a configurable buffer."@),
        ("async"@, "Write a Rust function that runs a set of async tasks with a timeout, returning completed results and errors for timed-out tasks."@),
        ("async"@, "Implement async Rust circuit breaker pattern: open after N failures, half-open after timeout, closed after success."@),
        ("async"@, "Write a Rust async file watcher using tokio that debounces changes and emits events only after N milliseconds of inactivity."@),
        ("async"@, "Implement a Rust async semaphore-based resource pool that acquires/releases resources and waits when all are in use."@),
    ]
}

/// Error handling.
pub open spec fn error_handling_texts() -> Seq<(Seq<char>, Seq<char>)> {
    seq![
        ("errors"@, "Design and implement a Rust error hierarchy for a web API: distinguish between validation errors, not-found, unauthorized, and internal errors. Include HTTP status code mapping."@),
        ("errors"@, "Write a Rust function that parses a config file with detailed error messages including line numbers, column numbers, and suggestions for common mistakes."@),
        ("errors"@, "Implement Rust error recovery: a function that processes a Vec of items, collects all errors, and returns both successful results and all errors at once."@),
        ("errors"@, "Write a Rust `Result`-chaining example for a multi-step process (read config → connect DB → run query → serialize output) with context added at each step."@),
        ("errors"@, "Implement a Rust error type that carries a backtrace, is serializable to JSON for API responses, and implements Display with user-friendly messages."@),
        ("errors"@, "Write a Rust function that validates an HTTP request struct, returning a `Vec<ValidationError>` with field names, expected types, and actual values."@),
    ]
}

/// Data structures.
pub open spec fn data_structures_texts() -> Seq<(Seq<char>, Seq<char>)> {
    seq![
        ("data-structures"@, "Implement a lock-free MPSC queue in Rust using atomics. The queue should be bounded, support multiple producers, and one consumer."@),
        ("data-structures"@, "Write a Rust skip list implementation with O(log n) insert, delete, and search."@),
        ("data-structures"@, "Implement a Bloom filter in Rust with configurable false positive rate and optimal bit/hash count."@),
        ("data-structures"@, "Write a Rust implementation of a red-black tree with insert, delete, and in-order traversal."@),
        ("data-structures"@, "Implement a persistent (immutable) vector in Rust using a 32-way tree (like Clojure's PersistentVector)."@),
        ("data-structures"@, "Write a Rust interval tree that supports inserting intervals and efficiently querying all intervals overlapping a given point or range."@),
        ("data-structures"@, "Implement a Rust `DisjointSet` (union-find) with path compression and union by rank."@),
        ("data-structures"@, "Write a Rust `TimeSeries<T>` struct that stores time-indexed values and supports efficient range queries and downsampling."@),
    ]
}

/// Distributed systems.
pub open spec fn distributed_systems_texts() -> Seq<(Seq<char>, Seq<char>)> {
    seq![
        ("distributed"@, "Write a Rust implementation of a consistent hash ring for distributing keys across N nodes, with virtual nodes for better balance."@),
        ("distributed"@, "Implement Raft leader election in Rust using tokio: RequestVote RPC, election timeout randomization, and term tracking."@),
        ("distributed"@, "Write a Rust implementation of the Gossip protocol for eventual consistency: random peer selection, rumor spreading, and convergence detection."@),
        ("distributed"@, "Implement a Rust distributed rate limiter using Redis INCR+EXPIRE: sliding window algorithm with atomic operations."@),
        ("distributed"@, "Write a Rust service mesh sidecar that intercepts HTTP traffic, adds trace headers, records latency, and emits metrics to stdout."@),
        ("distributed"@, "Implement a Rust implementation of the two-phase commit protocol for distributed transactions."@),
        ("distributed"@, "Write a Rust vector clock implementation for tracking causality in distributed systems. Include merge, increment, and happens-before operations."@),
        ("distributed"@, "Implement a Rust distributed lock using a lease-based approach: acquire with TTL, renew, release, and automatic expiry."@),
        ("distributed"@, "Write a Rust implementation of consistent hashing with virtual nodes that handles node addition and removal with minimal data redistribution."@),
        ("distributed"@, "Implement a Rust gRPC middleware that adds request IDs, traces spans, and retries on UNAVAILABLE status codes."@),
    ]
}

/// Command-line tools.
pub open spec fn cli_tools_texts() -> Seq<(Seq<char>, Seq<char>)> {
    seq![
        ("cli"@, "Write a Rust CLI tool using clap that watches a directory for file changes and runs a command when files matching a glob pattern change."@),
        ("cli"@, "Implement a Rust CLI tool that formats a JSON file in-place with configurable indentation, sorting of keys, and diff preview."@),
        ("cli"@, "Write a Rust CLI tool that tail-follows multiple log files simultaneously, with colored output per file and regex filtering."@),
        ("cli"@, "Implement a Rust CLI tool that benchmarks HTTP endpoints: configurable concurrency, duration, reports p50/p95/p99 latency histograms."@),
        ("cli"@, "Write a Rust CLI tool that syncs two directories: shows diff, asks confirmation, then copies/deletes to make them identical."@),
        ("cli"@, "Implement a Rust CLI tool that converts between TOML, YAML, JSON, and CBOR formats, preserving comments for TOML↔TOML conversion."@),
        ("cli"@, "Write a Rust CLI progress bar library that supports nested progress, ETA, bytes-per-second, and renders properly in terminals of any width."@),
    ]
}

/// Testing.
pub open spec fn testing_texts() -> Seq<(Seq<char>, Seq<char>)> {
    seq![
        ("testing"@, "Write a Rust property-based test using proptest for a custom sort function. Include strategies for edge cases: empty vecs, duplicates, negative numbers."@),
        ("testing"@, "Implement Rust snapshot testing without external libraries: serialize output to a file on first run, compare on subsequent runs, with `--update` flag to regenerate."@),
        ("testing"@, "Write a Rust integration test for a tokio-based HTTP server using reqwest: test all endpoints, verify status codes and response bodies."@),
        ("testing"@, "Implement a Rust test fixture using RAII that starts a process before the test and kills it after, even on test failure."@),
        ("testing"@, "Write a Rust fuzz test using cargo-fuzz for a parser function, including a corpus of interesting edge cases."@),
        ("testing"@, "Implement Rust contract tests using trait-based test helpers that verify any implementation of a trait satisfies documented invariants."@),
        ("testing"@, "Write a Rust mock HTTP server for tests using axum that records requests and returns configurable responses."@),
    ]
}

/// Refactoring.
pub open spec fn refactoring_texts() -> Seq<(Seq<char>, Seq<char>)> {
    seq![
        ("refactoring"@, "Refactor this Rust function to replace nested if-let chains with a cleaner ? operator and custom error types:\n```rust\nfn process(data: &str) -> Option<i32> {\n    if let Some(x) = data.split(',').next() {\n        if let Ok(n) = x.trim().parse::<i32>() {\n            if n > 0 { return Some(n * 2); }\n        }\n    }\n    None\n}\n```"@),
        ("refactoring"@, "Refactor this callback-heavy Rust code to use async/await:\n```rust\nfn fetch_and_process(url: &str, callback: Box<dyn Fn(Result<String, Error>)>) {\n    thread::spawn(move || {\n        let result = blocking_fetch(url);\n        callback(result.map(|r| r.body));\n    });\n}\n```"@),
        ("refactoring"@, "Refactor this Rust struct to use the builder pattern with validation:\n```rust\nstruct Config {\n    host: String, port: u16, timeout: Duration, retry: u32\n}\nimpl Config {\n    fn new(host: &str, port: u16, timeout: u64, retry: u32) -> Self { ... }\n}\n```"@),
        ("refactoring"@, "This Rust code allocates unnecessarily. Refactor to minimize heap allocations:\n```rust\nfn count_words(text: String) -> HashMap<String, usize> {\n    let mut counts = HashMap::new();\n    for word in text.split_whitespace() {\n        *counts.entry(word.to_string()).or_insert(0) += 1;\n    }\n    counts\n}\n```"@),
        ("refactoring"@, "Refactor this Rust state machine from nested match to a proper type-state pattern that enforces valid transitions at compile time."@),
        ("refactoring"@, "Convert this Rust synchronous code to async without changing the public API, preserving all error handling behavior."@),
    ]
}

/// Number of categories.
pub const CATEGORIES: u64 = 8;

/// Number of prompts of each category.
pub const PER_CATEGORY: usize = 64;

/// The name of category `c`.
pub open spec fn category_name(c: int) -> Seq<char> {
    if c == 0 {
        "rust"@
    } else if c == 1 {
        "async"@
    } else if c == 2 {
        "errors"@
    } else if c == 3 {
        "data-structures"@
    } else if c == 4 {
        "distributed"@
    } else if c == 5 {
        "cli"@
    } else if c == 6 {
        "testing"@
    } else {
        "refactoring"@
    }
}

/// The prompts of category `c` that are written out.
pub open spec fn written_texts(c: int) -> Seq<(Seq<char>, Seq<char>)> {
    if c == 0 {
        rust_fundamentals_texts()
    } else if c == 1 {
        async_concurrent_texts()
    } else if c == 2 {
        error_handling_texts()
    } else if c == 3 {
        data_structures_texts()
    } else if c == 4 {
        distributed_systems_texts()
    } else if c == 5 {
        cli_tools_texts()
    } else if c == 6 {
        testing_texts()
    } else {
        refactoring_texts()
    }
}

/// The topics of category `c`, each a task in every form.
pub open spec fn topic_texts(c: int) -> Seq<Seq<char>> {
    if c == 0 {
        seq![
            "a generic stack"@,
            "an iterator over overlapping windows"@,
            "a parser for lines of keys and values"@,
            "a newtype for validated addresses"@,
            "a bit set over machine words"@,
            "a string interner"@,
            "a matrix type with overloaded operators"@,
            "a small expression evaluator"@,
        ]
    } else if c == 1 {
        seq![
            "a background task that can be cancelled"@,
            "a bounded channel with backpressure"@,
            "a wrapper that limits how long a request takes"@,
            "a scheduler for periodic jobs"@,
            "a stage that fans out and fans in"@,
            "a cache behind an asynchronous lock"@,
            "a signal for graceful shutdown"@,
            "a stream that batches its items"@,
        ]
    } else if c == 2 {
        seq![
            "an error enum that keeps its sources"@,
            "retries that keep the last error"@,
            "validation that reports every field"@,
            "conversion between the errors of two layers"@,
            "a parser that reports line and column"@,
            "recovery from a damaged file"@,
            "errors that are safe to show to users"@,
            "cleanup after a step that failed"@,
        ]
    } else if c == 3 {
        seq![
            "a binary heap with decrease-key"@,
            "a rope for long texts"@,
            "a B-tree map"@,
            "a segment tree"@,
            "a hash map with open addressing"@,
            "a suffix array"@,
            "a slab with stable keys"@,
            "a sparse set"@,
        ]
    } else if c == 4 {
        seq![
            "a failure detector with heartbeats"@,
            "a replicated log"@,
            "a work queue with leases"@,
            "an idempotent request handler"@,
            "a quorum of reads and writes"@,
            "a counter that merges without a leader"@,
            "a service registry with expiry"@,
            "a snapshot and replay of state"@,
        ]
    } else if c == 5 {
        seq![
            "a parser for subcommands"@,
            "an interactive prompt with history"@,
            "a configuration loader with overrides"@,
            "a printer of file trees"@,
            "a filter for log files"@,
            "a batch renamer of files"@,
            "a printer of tables for terminals"@,
            "a tool that controls a daemon"@,
        ]
    } else if c == 6 {
        seq![
            "a table-driven test suite"@,
            "a test double for a clock"@,
            "a round-trip test of a serializer"@,
            "a stress test of a concurrent queue"@,
            "a test against golden files"@,
            "a test of error paths"@,
            "a model-based test of a state machine"@,
            "a test harness for a command-line tool"@,
        ]
    } else {
        seq![
            "a state machine that replaces boolean flags"@,
            "a builder that replaces a long parameter list"@,
            "a trait that replaces a match on strings"@,
            "an iterator chain that replaces an index loop"@,
            "a typed identifier that replaces bare integers"@,
            "a guard that replaces manual cleanup"@,
            "an enum that replaces optional fields"@,
            "a module boundary that replaces global state"@,
        ]
    }
}

/// What stands before and after the topic in a task of form `k`.
pub open spec fn form_texts(k: int) -> (Seq<char>, Seq<char>) {
    if k == 0 {
        ("Implement "@, " in Rust with documentation comments and unit tests."@)
    } else if k == 1 {
        ("Write a minimal working Rust example of "@, " and explain each step."@)
    } else if k == 2 {
        ("Design a small Rust library module for "@, " with an error type of its own."@)
    } else if k == 3 {
        ("Show three common mistakes in Rust code for "@, " and correct each of them."@)
    } else if k == 4 {
        ("Compare two Rust designs for "@, " and implement the better one."@)
    } else if k == 5 {
        ("Write Rust tests that cover the edge cases of "@, "."@)
    } else if k == 6 {
        ("Benchmark a Rust implementation of "@, " and make it faster."@)
    } else {
        ("Rewrite a naive Rust implementation of "@, " as idiomatic code."@)
    }
}

/// The task number `j` on these topics: the forms of the first topic, then those of the next.
pub open spec fn task_text(topics: Seq<Seq<char>>, j: int) -> Seq<char> {
    form_texts(j % 8).0 + topics[j / 8] + form_texts(j % 8).1
}

/// The prompts of a category: those that are written out, then tasks on its topics.
pub open spec fn filled(
    category: Seq<char>,
    written: Seq<(Seq<char>, Seq<char>)>,
    topics: Seq<Seq<char>>,
) -> Seq<(Seq<char>, Seq<char>)> {
    Seq::new(
        PER_CATEGORY as nat,
        |i: int|
            if i < written.len() {
                written[i]
            } else {
                (category, task_text(topics, i - written.len()))
            },
    )
}

/// The prompts of category `c`.
pub open spec fn bank(c: int) -> Seq<(Seq<char>, Seq<char>)> {
    filled(category_name(c), written_texts(c), topic_texts(c))
}

/// The whole bank, category by category.
pub open spec fn all_texts() -> Seq<(Seq<char>, Seq<char>)> {
    Seq::new(
        (CATEGORIES * PER_CATEGORY) as nat,
        |i: int| bank(i / PER_CATEGORY as int)[i % PER_CATEGORY as int],
    )
}

/// The category that a seed selects.
pub open spec fn category_of(seed: int) -> int {
    seed % CATEGORIES as int
}

/// The prompt of its category that a seed selects.
pub open spec fn place_of(seed: int) -> int {
    (seed / CATEGORIES as int) % PER_CATEGORY as int
}

/// The prompt that a seed selects.
pub open spec fn prompt_of(seed: int) -> (Seq<char>, Seq<char>) {
    bank(category_of(seed))[place_of(seed)]
}

/// What stands before and after the topic in a task of form `k`.
fn form(k: usize) -> (r: (&'static str, &'static str))
    requires
        k < 8,
    ensures
        (r.0@, r.1@) == form_texts(k as int),
{
    if k == 0 {
        ("Implement ", " in Rust with documentation comments and unit tests.")
    } else if k == 1 {
        ("Write a minimal working Rust example of ", " and explain each step.")
    } else if k == 2 {
        ("Design a small Rust library module for ", " with an error type of its own.")
    } else if k == 3 {
        ("Show three common mistakes in Rust code for ", " and correct each of them.")
    } else if k == 4 {
        ("Compare two Rust designs for ", " and implement the better one.")
    } else if k == 5 {
        ("Write Rust tests that cover the edge cases of ", ".")
    } else if k == 6 {
        ("Benchmark a Rust implementation of ", " and make it faster.")
    } else {
        ("Rewrite a naive Rust implementation of ", " as idiomatic code.")
    }
}

/// Fills up a category with tasks on its topics.
fn fill(written: Vec<Prompt>, category: &str, topics: Vec<&str>) -> (r: Vec<Prompt>)
    requires
        written@.len() <= PER_CATEGORY,
        topics@.len() == 8,
    ensures
        prompt_texts(r@) == filled(
            category@,
            prompt_texts(written@),
            topics@.map_values(|t: &str| t@),
        ),
{
    let n: usize = written.len();
    let ghost own = prompt_texts(written@);
    let ghost names = topics@.map_values(|t: &str| t@);
    let ghost want = filled(category@, own, names);
    let mut r = written;
    assert(prompt_texts(r@) =~= want.subrange(0, n as int));
    while r.len() < PER_CATEGORY
        invariant
            n <= r@.len() <= PER_CATEGORY,
            topics@.len() == 8,
            own.len() == n,
            names == topics@.map_values(|t: &str| t@),
            want == filled(category@, own, names),
            prompt_texts(r@) == want.subrange(0, r@.len() as int),
        decreases PER_CATEGORY - r@.len(),
    {
        let j: usize = r.len() - n;
        let (start, end) = form(j % 8);
        let ghost before = r@;
        assert(names[(j / 8) as int] == topics@[(j / 8) as int]@);
        let task = concat3(start, topics[j / 8], end);
        r.push(p(category, task.as_str()));
        proof {
            let m = before.len() as int;
            assert(task@ =~= task_text(names, j as int));
            assert(want[m] == (category@, task@));
            assert(prompt_texts(r@) =~= prompt_texts(before).push(want[m]));
            assert(want.subrange(0, m + 1) =~= want.subrange(0, m).push(want[m]));
        }
    }
    assert(want.subrange(0, PER_CATEGORY as int) =~= want);
    r
}

/// Rust basics.
pub fn rust_fundamentals() -> (r: Vec<Prompt>)
    ensures
        prompt_texts(r@) == bank(0),
{
    let written: Vec<Prompt> = vec![
        p("rust", "Write a Rust generic function `deduplicate<T: Eq + Hash>(v: Vec<T>) -> Vec<T>` that removes duplicates while preserving insertion order."),
        p("rust", "Implement a Rust struct `RingBuffer<T>` with fixed capacity using a circular array. Include push, pop, len, is_full, and is_empty methods."),
        p("rust", "Write a Rust function that parses a semantic version string like '1.2.3-beta.1+build.42' into a struct with proper error handling."),
        p("rust", "Implement an iterator adapter `Chunks<I>` that groups elements of an iterator into fixed-size chunks, yielding the last partial chunk too."),
        p("rust", "Write a Rust macro `retry!` that retries a fallible expression up to N times with exponential backoff between attempts."),
        p("rust", "Implement a `LruCache<K, V>` in Rust with O(1) get and put using a HashMap and a doubly-linked list."),
        p("rust", "Write a Rust function `merge_sorted<T: Ord>(a: &[T], b: &[T]) -> Vec<T>` that merges two sorted slices into a new sorted vec."),
        p("rust", "Implement a Rust type `NonEmptyVec<T>` that guarantees at least one element at compile time. Include push, first, last, and iter methods."),
        p("rust", "Write a Rust function that computes the SHA-256 hash of a file without loading the entire file into memory."),
        p("rust", "Implement `Trie<V>` in Rust with insert, get, contains_prefix, and words_with_prefix methods."),
        p("rust", "Write a Rust proc-macro `#[builder]` that generates a builder pattern for any struct."),
        p("rust", "Implement a thread-safe lazy singleton in Rust using `OnceLock` without external dependencies."),
        p("rust", "Write a Rust function that converts a JSON Value to a typed struct using a visitor pattern (without serde_derive)."),
        p("rust", "Implement Fibonacci sequence using memoization in Rust, handling arbitrary precision with `u128` and returning an error for values > 186."),
        p("rust", "Write a Rust function to flatten a deeply nested `serde_json::Value` object into a flat `HashMap<String, String>` with dot-notation keys."),
    ];
    assert(prompt_texts(written@) =~= rust_fundamentals_texts());
    let topics: Vec<&str> = vec![
        "a generic stack",
        "an iterator over overlapping windows",
        "a parser for lines of keys and values",
        "a newtype for validated addresses",
        "a bit set over machine words",
        "a string interner",
        "a matrix type with overloaded operators",
        "a small expression evaluator",
    ];
    assert(topics@.map_values(|t: &str| t@) =~= topic_texts(0));
    fill(written, "rust", topics)
}

/// Asynchronous and concurrent code.
pub fn async_concurrent() -> (r: Vec<Prompt>)
    ensures
        prompt_texts(r@) == bank(1),
{
    let written: Vec<Prompt> = vec![
        p("async", "Write an async Rust function that fetches multiple URLs concurrently with a concurrency limit of N, returning results in the original order."),
        p("async", "Implement an async Rust `WorkQueue<T>` backed by tokio with a fixed number of worker tasks, graceful shutdown, and backpressure."),
        p("async", "Write a Rust async rate limiter using tokio that limits to N requests per second using a token bucket algorithm."),
        p("async", "Implement a Rust async retry middleware for reqwest that retries on 5xx errors with exponential backoff and jitter."),
        p("async", "Write an async Rust function that reads lines from multiple files concurrently and merges them into a single sorted output stream."),
        p("async", "Implement a Rust async pub/sub system using tokio::broadcast with multiple named topics and subscriber tracking."),
        p("async", "Write a Rust async connection pool using tokio with min/max connections, health checks, and idle timeout."),
        p("async", "Implement a Rust async pipeline where data flows through N stages concurrently, each stage processes items in parallel with a configurable buffer."),
        p("async", "Write a Rust function that runs a set of async tasks with a timeout, returning completed results and errors for timed-out tasks."),
        p("async", "Implement async Rust circuit breaker pattern: open after N failures, half-open after timeout, closed after success."),
        p("async", "Write a Rust async file watcher using tokio that debounces changes and emits events only after N milliseconds of inactivity."),
        p("async", "Implement a Rust async semaphore-based resource pool that acquires/releases resources and waits when all are in use."),
    ];
    assert(prompt_texts(written@) =~= async_concurrent_texts());
    let topics: Vec<&str> = vec![
        "a background task that can be cancelled",
        "a bounded channel with backpressure",
        "a wrapper that limits how long a request takes",
        "a scheduler for periodic jobs",
        "a stage that fans out and fans in",
        "a cache behind an asynchronous lock",
        "a signal for graceful shutdown",
        "a stream that batches its items",
    ];
    assert(topics@.map_values(|t: &str| t@) =~= topic_texts(1));
    fill(written, "async", topics)
}

/// Error handling.
pub fn error_handling() -> (r: Vec<Prompt>)
    ensures
        prompt_texts(r@) == bank(2),
{
    let written: Vec<Prompt> = vec![
        p("errors", "Design and implement a Rust error hierarchy for a web API: distinguish between validation errors, not-found, unauthorized, and internal errors. Include HTTP status code mapping."),
        p("errors", "Write a Rust function that parses a config file with detailed error messages including line numbers, column numbers, and suggestions for common mistakes."),
        p("errors", "Implement Rust error recovery: a function that processes a Vec of items, collects all errors, and returns both successful results and all errors at once."),
        p("errors", "Write a Rust `Result`-chaining example for a multi-step process (read config → connect DB → run query → serialize output) with context added at each step."),
        p("errors", "Implement a Rust error type that carries a backtrace, is serializable to JSON for API responses, and implements Display with user-friendly messages."),
        p("errors", "Write a Rust function that validates an HTTP request struct, returning a `Vec<ValidationError>` with field names, expected types, and actual values."),
    ];
    assert(prompt_texts(written@) =~= error_handling_texts());
    let topics: Vec<&str> = vec![
        "an error enum that keeps its sources",
        "retries that keep the last error",
        "validation that reports every field",
        "conversion between the errors of two layers",
        "a parser that reports line and column",
        "recovery from a damaged file",
        "errors that are safe to show to users",
        "cleanup after a step that failed",
    ];
    assert(topics@.map_values(|t: &str| t@) =~= topic_texts(2));
    fill(written, "errors", topics)
}

/// Data structures.
pub fn data_structures() -> (r: Vec<Prompt>)
    ensures
        prompt_texts(r@) == bank(3),
{
    let written: Vec<Prompt> = vec![
        p("data-structures", "Implement a lock-free MPSC queue in Rust using atomics. The queue should be bounded, support multiple producers, and one consumer."),
        p("data-structures", "Write a Rust skip list implementation with O(log n) insert, delete, and search."),
        p("data-structures", "Implement a Bloom filter in Rust with configurable false positive rate and optimal bit/hash count."),
        p("data-structures", "Write a Rust implementation of a red-black tree with insert, delete, and in-order traversal."),
        p("data-structures", "Implement a persistent (immutable) vector in Rust using a 32-way tree (like Clojure's PersistentVector)."),
        p("data-structures", "Write a Rust interval tree that supports inserting intervals and efficiently querying all intervals overlapping a given point or range."),
        p("data-structures", "Implement a Rust `DisjointSet` (union-find) with path compression and union by rank."),
        p("data-structures", "Write a Rust `TimeSeries<T>` struct that stores time-indexed values and supports efficient range queries and downsampling."),
    ];
    assert(prompt_texts(written@) =~= data_structures_texts());
    let topics: Vec<&str> = vec![
        "a binary heap with decrease-key",
        "a rope for long texts",
        "a B-tree map",
        "a segment tree",
        "a hash map with open addressing",
        "a suffix array",
        "a slab with stable keys",
        "a sparse set",
    ];
    assert(topics@.map_values(|t: &str| t@) =~= topic_texts(3));
    fill(written, "data-structures", topics)
}

/// Distributed systems.
pub fn distributed_systems() -> (r: Vec<Prompt>)
    ensures
        prompt_texts(r@) == bank(4),
{
    let written: Vec<Prompt> = vec![
        p("distributed", "Write a Rust implementation of a consistent hash ring for distributing keys across N nodes, with virtual nodes for better balance."),
        p("distributed", "Implement Raft leader election in Rust using tokio: RequestVote RPC, election timeout randomization, and term tracking."),
        p("distributed", "Write a Rust implementation of the Gossip protocol for eventual consistency: random peer selection, rumor spreading, and convergence detection."),
        p("distributed", "Implement a Rust distributed rate limiter using Redis INCR+EXPIRE: sliding window algorithm with atomic operations."),
        p("distributed", "Write a Rust service mesh sidecar that intercepts HTTP traffic, adds trace headers, records latency, and emits metrics to stdout."),
        p("distributed", "Implement a Rust implementation of the two-phase commit protocol for distributed transactions."),
        p("distributed", "Write a Rust vector clock implementation for tracking causality in distributed systems. Include merge, increment, and happens-before operations."),
        p("distributed", "Implement a Rust distributed lock using a lease-based approach: acquire with TTL, renew, release, and automatic expiry."),
        p("distributed", "Write a Rust implementation of consistent hashing with virtual nodes that handles node addition and removal with minimal data redistribution."),
        p("distributed", "Implement a Rust gRPC middleware that adds request IDs, traces spans, and retries on UNAVAILABLE status codes."),
    ];
    assert(prompt_texts(written@) =~= distributed_systems_texts());
    let topics: Vec<&str> = vec![
        "a failure detector with heartbeats",
        "a replicated log",
        "a work queue with leases",
        "an idempotent request handler",
        "a quorum of reads and writes",
        "a counter that merges without a leader",
        "a service registry with expiry",
        "a snapshot and replay of state",
    ];
    assert(topics@.map_values(|t: &str| t@) =~= topic_texts(4));
    fill(written, "distributed", topics)
}

/// Command-line tools.
pub fn cli_tools() -> (r: Vec<Prompt>)
    ensures
        prompt_texts(r@) == bank(5),
{
    let written: Vec<Prompt> = vec![
        p("cli", "Write a Rust CLI tool using clap that watches a directory for file changes and runs a command when files matching a glob pattern change."),
        p("cli", "Implement a Rust CLI tool that formats a JSON file in-place with configurable indentation, sorting of keys, and diff preview."),
        p("cli", "Write a Rust CLI tool that tail-follows multiple log files simultaneously, with colored output per file and regex filtering."),
        p("cli", "Implement a Rust CLI tool that benchmarks HTTP endpoints: configurable concurrency, duration, reports p50/p95/p99 latency histograms."),
        p("cli", "Write a Rust CLI tool that syncs two directories: shows diff, asks confirmation, then copies/deletes to make them identical."),
        p("cli", "Implement a Rust CLI tool that converts between TOML, YAML, JSON, and CBOR formats, preserving comments for TOML↔TOML conversion."),
        p("cli", "Write a Rust CLI progress bar library that supports nested progress, ETA, bytes-per-second, and renders properly in terminals of any width."),
    ];
    assert(prompt_texts(written@) =~= cli_tools_texts());
    let topics: Vec<&str> = vec![
        "a parser for subcommands",
        "an interactive prompt with history",
        "a configuration loader with overrides",
        "a printer of file trees",
        "a filter for log files",
        "a batch renamer of files",
        "a printer of tables for terminals",
        "a tool that controls a daemon",
    ];
    assert(topics@.map_values(|t: &str| t@) =~= topic_texts(5));
    fill(written, "cli", topics)
}

/// Testing.
pub fn testing() -> (r: Vec<Prompt>)
    ensures
        prompt_texts(r@) == bank(6),
{
    let written: Vec<Prompt> = vec![
        p("testing", "Write a Rust property-based test using proptest for a custom sort function. Include strategies for edge cases: empty vecs, duplicates, negative numbers."),
        p("testing", "Implement Rust snapshot testing without external libraries: serialize output to a file on first run, compare on subsequent runs, with `--update` flag to regenerate."),
        p("testing", "Write a Rust integration test for a tokio-based HTTP server using reqwest: test all endpoints, verify status codes and response bodies."),
        p("testing", "Implement a Rust test fixture using RAII that starts a process before the test and kills it after, even on test failure."),
        p("testing", "Write a Rust fuzz test using cargo-fuzz for a parser function, including a corpus of interesting edge cases."),
        p("testing", "Implement Rust contract tests using trait-based test helpers that verify any implementation of a trait satisfies documented invariants."),
        p("testing", "Write a Rust mock HTTP server for tests using axum that records requests and returns configurable responses."),
    ];
    assert(prompt_texts(written@) =~= testing_texts());
    let topics: Vec<&str> = vec![
        "a table-driven test suite",
        "a test double for a clock",
        "a round-trip test of a serializer",
        "a stress test of a concurrent queue",
        "a test against golden files",
        "a test of error paths",
        "a model-based test of a state machine",
        "a test harness for a command-line tool",
    ];
    assert(topics@.map_values(|t: &str| t@) =~= topic_texts(6));
    fill(written, "testing", topics)
}

/// Refactoring.
pub fn refactoring() -> (r: Vec<Prompt>)
    ensures
        prompt_texts(r@) == bank(7),
{
    let written: Vec<Prompt> = vec![
        p("refactoring", "Refactor this Rust function to replace nested if-let chains with a cleaner ? operator and custom error types:\n```rust\nfn process(data: &str) -> Option<i32> {\n    if let Some(x) = data.split(',').next() {\n        if let Ok(n) = x.trim().parse::<i32>() {\n            if n > 0 { return Some(n * 2); }\n        }\n    }\n    None\n}\n```"),
        p("refactoring", "Refactor this callback-heavy Rust code to use async/await:\n```rust\nfn fetch_and_process(url: &str, callback: Box<dyn Fn(Result<String, Error>)>) {\n    thread::spawn(move || {\n        let result = blocking_fetch(url);\n        callback(result.map(|r| r.body));\n    });\n}\n```"),
        p("refactoring", "Refactor this Rust struct to use the builder pattern with validation:\n```rust\nstruct Config {\n    host: String, port: u16, timeout: Duration, retry: u32\n}\nimpl Config {\n    fn new(host: &str, port: u16, timeout: u64, retry: u32) -> Self { ... }\n}\n```"),
        p("refactoring", "This Rust code allocates unnecessarily. Refactor to minimize heap allocations:\n```rust\nfn count_words(text: String) -> HashMap<String, usize> {\n    let mut counts = HashMap::new();\n    for word in text.split_whitespace() {\n        *counts.entry(word.to_string()).or_insert(0) += 1;\n    }\n    counts\n}\n```"),
        p("refactoring", "Refactor this Rust state machine from nested match to a proper type-state pattern that enforces valid transitions at compile time."),
        p("refactoring", "Convert this Rust synchronous code to async without changing the public API, preserving all error handling behavior."),
    ];
    assert(prompt_texts(written@) =~= refactoring_texts());
    let topics: Vec<&str> = vec![
        "a state machine that replaces boolean flags",
        "a builder that replaces a long parameter list",
        "a trait that replaces a match on strings",
        "an iterator chain that replaces an index loop",
        "a typed identifier that replaces bare integers",
        "a guard that replaces manual cleanup",
        "an enum that replaces optional fields",
        "a module boundary that replaces global state",
    ];
    assert(topics@.map_values(|t: &str| t@) =~= topic_texts(7));
    fill(written, "refactoring", topics)
}

/// A prompt of these texts.
pub fn p(category: &str, instruction: &str) -> (r: Prompt)
    ensures
        r.category@ == category@,
        r.instruction@ == instruction@,
{
    Prompt { category: category.to_owned(), instruction: instruction.to_owned() }
}

/// The prompts of category `c`.
fn category(c: u64) -> (r: Vec<Prompt>)
    requires
        c < CATEGORIES,
    ensures
        prompt_texts(r@) == bank(c as int),
        r@.len() == PER_CATEGORY,
{
    let r: Vec<Prompt> = if c == 0 {
        rust_fundamentals()
    } else if c == 1 {
        async_concurrent()
    } else if c == 2 {
        error_handling()
    } else if c == 3 {
        data_structures()
    } else if c == 4 {
        distributed_systems()
    } else if c == 5 {
        cli_tools()
    } else if c == 6 {
        testing()
    } else {
        refactoring()
    };
    assert(prompt_texts(r@).len() == r@.len());
    r
}

/// All prompts of the bank.
pub fn all_prompts() -> (r: Vec<Prompt>)
    ensures
        prompt_texts(r@) == all_texts(),
{
    let mut prompts: Vec<Prompt> = Vec::new();
    let mut c: u64 = 0;
    assert(prompt_texts(prompts@) =~= all_texts().subrange(0, 0));
    while c < CATEGORIES
        invariant
            c <= CATEGORIES,
            prompt_texts(prompts@) == all_texts().subrange(0, c * PER_CATEGORY),
        decreases CATEGORIES - c,
    {
        let ghost before = prompt_texts(prompts@);
        let mut part = category(c);
        let ghost added = prompt_texts(part@);
        prompts.append(&mut part);
        proof {
            let from = c * PER_CATEGORY;
            let next = all_texts().subrange(0, from + PER_CATEGORY);
            assert(prompt_texts(prompts@) =~= before + added);
            assert forall|i: int| from <= i < from + PER_CATEGORY implies #[trigger] next[i]
                == added[i - from] by {
                assert(i / PER_CATEGORY as int == c && i % PER_CATEGORY as int == i - from);
            }
            assert(before + added =~= next);
        }
        c = c + 1;
    }
    assert(all_texts().subrange(0, all_texts().len() as int) =~= all_texts());
    prompts
}

/// The prompt that a seed selects: the seed picks the category, and then a prompt within it.
/// All categories are equally likely.
pub fn random_prompt(rng_seed: u64) -> (r: Prompt)
    ensures
        (r.category@, r.instruction@) == prompt_of(rng_seed as int),
{
    let all = category(rng_seed % CATEGORIES);
    let idx: usize = ((rng_seed / CATEGORIES) % (PER_CATEGORY as u64)) as usize;
    let r = all[idx].clone();
    assert(prompt_texts(all@)[idx as int] == (r.category@, r.instruction@));
    r
}

// ── Laws ─────────────────────────────────────────────────────────────────────

/// The bank has more than 500 prompts, as many of each category as of any other, and each
/// prompt bears the name of its category.
pub proof fn law_bank_size(c: int, k: int)
    requires
        0 <= c < CATEGORIES,
        0 <= k < PER_CATEGORY,
    ensures
        all_texts().len() == 512,
        bank(c).len() == 64,
        all_texts()[c * PER_CATEGORY + k] == bank(c)[k],
        bank(c)[k].0 == category_name(c),
{
    let i = c * PER_CATEGORY + k;
    assert(i / PER_CATEGORY as int == c && i % PER_CATEGORY as int == k);
    if k < written_texts(c).len() {
        assert(written_texts(c)[k].0 == category_name(c));
    }
}

/// How many of the `n` seeds from `seed` on select category `c`.
pub open spec fn category_count(seed: int, n: int, c: int) -> nat
    decreases n,
{
    if n <= 0 {
        0
    } else {
        category_count(seed, n - 1, c) + if category_of(seed + n - 1) == c {
            1nat
        } else {
            0
        }
    }
}

/// The count over `i` more seeds, no more than eight, is one more from the first one on that
/// selects the category.
proof fn lemma_more_seeds(seed: int, n: int, c: int, i: int)
    requires
        0 <= seed,
        0 <= n,
        0 <= c < CATEGORIES,
        0 <= i <= 8,
    ensures
        category_count(seed, n + i, c) == category_count(seed, n, c) + if (c - seed - n) % 8 < i {
            1nat
        } else {
            0
        },
    decreases i,
{
    if i > 0 {
        lemma_more_seeds(seed, n, c, i - 1);
        assert((seed + n + i - 1) % 8 == c <==> (c - seed - n) % 8 == i - 1);
    }
}

/// Every category comes up equally often: of eight times `m` consecutive seeds, each category
/// gets `m`.
pub proof fn law_categories_come_up_equally_often(seed: int, m: nat, c: int)
    requires
        0 <= seed,
        0 <= c < CATEGORIES,
    ensures
        category_count(seed, CATEGORIES * m, c) == m,
    decreases m,
{
    if m > 0 {
        let before = (m - 1) as nat;
        law_categories_come_up_equally_often(seed, before, c);
        assert(CATEGORIES * m == CATEGORIES * before + 8);
        lemma_more_seeds(seed, CATEGORIES * before, c, 8);
    }
}

/// As many consecutive seeds as the bank has prompts select each of them once.
pub proof fn law_consecutive_seeds_go_through_the_bank(seed: int, c: int, k: int)
    requires
        0 <= seed,
        0 <= c < CATEGORIES,
        0 <= k < PER_CATEGORY,
    ensures
        exists|d: int|
            0 <= d < all_texts().len() && #[trigger] category_of(seed + d) == c && place_of(
                seed + d,
            ) == k,
        forall|d: int, e: int|
            0 <= d < e < all_texts().len() && #[trigger] category_of(seed + d) == c
                && #[trigger] category_of(seed + e) == c && place_of(seed + d) == k ==> place_of(
                seed + e,
            ) != k,
{
    let x = c + 8 * k;
    let d = (x - seed) % 512;
    assert((seed + d) % 512 == x);
    lemma_selects(seed + d);
    assert(category_of(seed + d) == c && place_of(seed + d) == k);
    assert forall|d: int, e: int|
        0 <= d < e < all_texts().len() && #[trigger] category_of(seed + d) == c
            && #[trigger] category_of(seed + e) == c && place_of(seed + d) == k implies place_of(
        seed + e,
    ) != k by {
        lemma_selects(seed + d);
        lemma_selects(seed + e);
        if place_of(seed + e) == k {
            assert((seed + d) % 512 == (seed + e) % 512);
        }
    }
}

pub proof fn lemma_selects(seed: int)
    requires
        0 <= seed,
    ensures
        category_of(seed) + 8 * place_of(seed) == seed % 512,
        0 <= category_of(seed) < 8,
        0 <= place_of(seed) < 64,
{
}

/// After the prompts that are written out, a category asks for every one of its topics in eight
/// ways, topic by topic, and no two of the ways begin alike.
pub proof fn law_every_topic_is_asked_for_in_eight_ways(c: int, topic: int, way: int, other: int)
    requires
        0 <= c < CATEGORIES,
        0 <= topic,
        0 <= way < other < 8,
        written_texts(c).len() + 8 * topic + other < 64,
    ensures
        ({
            let at = written_texts(c).len() + 8 * topic;
            let t = topic_texts(c)[topic];
            let a = form_texts(way);
            let b = form_texts(other);
            &&& bank(c)[at + way].1 == a.0 + t + a.1
            &&& bank(c)[at + other].1 == b.0 + t + b.1
            &&& a.0 != b.0
        }),
{
    let k = 8 * topic;
    assert((k + way) % 8 == way && (k + way) / 8 == topic);
    assert((k + other) % 8 == other && (k + other) / 8 == topic);
    reveal_strlit("Implement ");
    reveal_strlit("Write a minimal working Rust example of ");
    reveal_strlit("Design a small Rust library module for ");
    reveal_strlit("Show three common mistakes in Rust code for ");
    reveal_strlit("Compare two Rust designs for ");
    reveal_strlit("Write Rust tests that cover the edge cases of ");
    reveal_strlit("Benchmark a Rust implementation of ");
    reveal_strlit("Rewrite a naive Rust implementation of ");
    assert(form_texts(way).0[0] != form_texts(other).0[0] || form_texts(way).0[6]
        != form_texts(other).0[6]);
}

} // verus!
