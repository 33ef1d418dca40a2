//! The course of a sandbox run: a temporary project is written, built and, if the code has
//! tests, tested.
use super::{QualitySignals, VerificationResult, VerificationStage};
use crate::text::{concat, has, has_prefix, lines, trim_start};
use vstd::prelude::*;

verus! {

use super::passes;
use crate::seqs::{keep, lemma_keep_step};
use crate::text::{
    contains,
    ends_with,
    is_line,
    is_space,
    joined,
    law_joined_lines_are_read_back,
    law_part_is_found,
    lines_of,
    starts_with,
    texts,
    trimmed_start,
};

/// The manifest of the sandbox project.
pub const CARGO_TOML: &'static str =
    "[package]\nname = \"sandbox\"\nversion = \"0.1.0\"\nedition = \"2021\"\n\n[dependencies]\n";

/// Code as it is compiled: a program as it is, a library with the noise of lints turned off.
pub open spec fn wrapped(code: Seq<char>) -> Seq<char> {
    if contains(code, "fn main()"@) || contains(code, "fn main "@) {
        code
    } else {
        "#![allow(dead_code, unused_variables, unused_imports)]\n\n"@ + code
    }
}

/// Makes any code compile as a library.
pub fn wrap_code(code: &str) -> (r: String)
    ensures
        r@ == wrapped(code@),
{
    if has(code, "fn main()") || has(code, "fn main ") {
        code.to_owned()
    } else {
        concat("#![allow(dead_code, unused_variables, unused_imports)]\n\n", code)
    }
}

/// What went wrong before anything was compiled, with the error of the system.
#[derive(Debug)]
pub enum SetupFailure {
    TempDir(String),
    Mkdir(String),
    WriteManifest(String),
    WriteCode(String),
}

/// The message of a failed setup.
pub open spec fn setup_message(f: SetupFailure) -> Seq<char> {
    match f {
        SetupFailure::TempDir(e) => "Failed to create temp dir: "@ + e@,
        SetupFailure::Mkdir(e) => "mkdir: "@ + e@,
        SetupFailure::WriteManifest(e) => "write Cargo.toml: "@ + e@,
        SetupFailure::WriteCode(e) => "write lib.rs: "@ + e@,
    }
}

/// The result of a run that could not be set up.
pub fn setup_failed(failure: &SetupFailure, signals: QualitySignals) -> (r: VerificationResult)
    ensures
        !r.passed,
        r.stage == VerificationStage::CompileFailed,
        r.stdout@.len() == 0,
        r.stderr@ == setup_message(*failure),
        r.duration_ms == 0,
        r.signals == signals,
{
    let msg = match failure {
        SetupFailure::TempDir(e) => concat("Failed to create temp dir: ", e.as_str()),
        SetupFailure::Mkdir(e) => concat("mkdir: ", e.as_str()),
        SetupFailure::WriteManifest(e) => concat("write Cargo.toml: ", e.as_str()),
        SetupFailure::WriteCode(e) => concat("write lib.rs: ", e.as_str()),
    };
    failed(msg, signals)
}

/// A failure before compilation.
pub fn failed(msg: String, signals: QualitySignals) -> (r: VerificationResult)
    ensures
        !r.passed,
        r.stage == VerificationStage::CompileFailed,
        r.stdout@.len() == 0,
        r.stderr == msg,
        r.duration_ms == 0,
        r.signals == signals,
{
    VerificationResult {
        passed: false,
        stage: VerificationStage::CompileFailed,
        stdout: String::new(),
        stderr: msg,
        duration_ms: 0,
        signals,
    }
}

/// How a run of the build tool ended.
#[derive(Debug)]
pub enum CargoRun {
    TimedOut,
    NotStarted,
    Finished { success: bool, stdout: String, stderr: String },
}

/// What comes after the build.
#[derive(Debug)]
pub enum BuildStep {
    Done(VerificationResult),
    /// The code has tests, which are to be run.
    RunTests(QualitySignals),
}

/// Whether a line of the compiler is a warning.
pub open spec fn is_warning(line: Seq<char>) -> bool {
    contains(line, "warning["@) || starts_with(trimmed_start(line), "warning: "@)
}

/// Number of warnings in the compiler's output.
pub open spec fn warnings(stderr: Seq<char>) -> nat {
    keep(lines_of(stderr), |l: Seq<char>| is_warning(l)).len()
}

fn count_warnings(stderr: &str) -> (n: usize)
    ensures
        n == warnings(stderr@),
{
    let all = lines(stderr);
    let ghost src = lines_of(stderr@);
    let ghost p = |l: Seq<char>| is_warning(l);
    let mut n: usize = 0;
    let mut i: usize = 0;
    assert(keep(src.subrange(0, 0), p).len() == 0);
    while i < all.len()
        invariant
            i <= all@.len(),
            texts(all@) == src,
            p == (|l: Seq<char>| is_warning(l)),
            n == keep(src.subrange(0, i as int), p).len(),
            n <= i,
        decreases all@.len() - i,
    {
        proof {
            lemma_keep_step(src, p, i as int);
            assert(src[i as int] == all@[i as int]@);
        }
        let line = all[i].as_str();
        let t = trim_start(line);
        if has(line, "warning[") || has_prefix(t.as_str(), "warning: ") {
            n = n + 1;
        }
        i = i + 1;
    }
    assert(src.subrange(0, src.len() as int) =~= src);
    assert(texts(all@).len() == all@.len());
    n
}

/// The stage of a run that did not finish.
pub open spec fn unfinished_stage(run: CargoRun) -> VerificationStage {
    if run is TimedOut {
        VerificationStage::Timeout
    } else {
        VerificationStage::CompileFailed
    }
}

/// What follows from a build: it is the end of a run unless the code compiled and has tests.
pub open spec fn is_build_step(
    build: CargoRun,
    signals: QualitySignals,
    elapsed_ms: u64,
    r: BuildStep,
) -> bool {
    match build {
        CargoRun::Finished { success, stdout, stderr } => {
            let counted = QualitySignals { warning_count: warnings(stderr@) as usize, ..signals };
            &&& counted.warning_count == warnings(stderr@)
            &&& if success && signals.has_tests {
                r == BuildStep::RunTests(counted)
            } else {
                &&& r is Done
                &&& r->Done_0 == (VerificationResult {
                    passed: success,
                    stage: if success {
                        VerificationStage::CompiledNoTests
                    } else {
                        VerificationStage::CompileFailed
                    },
                    stdout,
                    stderr,
                    duration_ms: elapsed_ms,
                    signals: counted,
                })
            }
        },
        _ => {
            &&& r is Done
            &&& !(r->Done_0).passed
            &&& (r->Done_0).stage == unfinished_stage(build)
            &&& (r->Done_0).stdout@.len() == 0
            &&& (r->Done_0).stderr@ == "Build timed out"@
            &&& (r->Done_0).duration_ms == elapsed_ms
            &&& (r->Done_0).signals == signals
        },
    }
}

/// What follows from a run of the tests.
pub open spec fn is_test_result(
    tests: CargoRun,
    signals: QualitySignals,
    elapsed_ms: u64,
    r: VerificationResult,
) -> bool {
    match tests {
        CargoRun::Finished { success, stdout, stderr } => r == (VerificationResult {
            passed: success,
            stage: if success {
                VerificationStage::TestsPassed
            } else {
                VerificationStage::TestsFailed
            },
            stdout,
            stderr,
            duration_ms: elapsed_ms,
            signals,
        }),
        _ => {
            &&& !r.passed
            &&& r.stage == unfinished_stage(tests)
            &&& r.stdout@.len() == 0
            &&& r.stderr@ == "Test timed out"@
            &&& r.duration_ms == elapsed_ms
            &&& r.signals == signals
        },
    }
}

/// What the build shows: code that does not compile has failed, code without tests has
/// passed, and other code is tested.
pub fn after_build(build: CargoRun, signals: QualitySignals, elapsed_ms: u64) -> (r: BuildStep)
    ensures
        is_build_step(build, signals, elapsed_ms, r),
        r is Done ==> (r->Done_0).passed == passes((r->Done_0).stage),
{
    match build {
        CargoRun::TimedOut => BuildStep::Done(
            VerificationResult {
                passed: false,
                stage: VerificationStage::Timeout,
                stdout: String::new(),
                stderr: "Build timed out".to_owned(),
                duration_ms: elapsed_ms,
                signals,
            },
        ),
        CargoRun::NotStarted => BuildStep::Done(
            VerificationResult {
                passed: false,
                stage: VerificationStage::CompileFailed,
                stdout: String::new(),
                stderr: "Build timed out".to_owned(),
                duration_ms: elapsed_ms,
                signals,
            },
        ),
        CargoRun::Finished { success, stdout, stderr } => {
            let mut counted = signals;
            counted.warning_count = count_warnings(stderr.as_str());
            if success && signals.has_tests {
                return BuildStep::RunTests(counted);
            }
            BuildStep::Done(
                VerificationResult {
                    passed: success,
                    stage: if success {
                        VerificationStage::CompiledNoTests
                    } else {
                        VerificationStage::CompileFailed
                    },
                    stdout,
                    stderr,
                    duration_ms: elapsed_ms,
                    signals: counted,
                },
            )
        },
    }
}

/// The nanoseconds that are left for the tests.
pub fn remaining_nanos(timeout: u64, elapsed: u64) -> (n: u64)
    ensures
        n == if timeout >= elapsed {
            timeout - elapsed
        } else {
            0
        },
{
    timeout.saturating_sub(elapsed)
}

/// What the tests show.
pub fn after_tests(tests: CargoRun, signals: QualitySignals, elapsed_ms: u64) -> (r:
    VerificationResult)
    ensures
        is_test_result(tests, signals, elapsed_ms, r),
        r.passed == passes(r.stage),
{
    match tests {
        CargoRun::Finished { success, stdout, stderr } => VerificationResult {
            passed: success,
            stage: if success {
                VerificationStage::TestsPassed
            } else {
                VerificationStage::TestsFailed
            },
            stdout,
            stderr,
            duration_ms: elapsed_ms,
            signals,
        },
        CargoRun::TimedOut => VerificationResult {
            passed: false,
            stage: VerificationStage::Timeout,
            stdout: String::new(),
            stderr: "Test timed out".to_owned(),
            duration_ms: elapsed_ms,
            signals,
        },
        CargoRun::NotStarted => VerificationResult {
            passed: false,
            stage: VerificationStage::CompileFailed,
            stdout: String::new(),
            stderr: "Test timed out".to_owned(),
            duration_ms: elapsed_ms,
            signals,
        },
    }
}

// ── Laws ─────────────────────────────────────────────────────────────────────

/// Whether a run of the build tool succeeded.
pub open spec fn succeeded(run: CargoRun) -> bool {
    match run {
        CargoRun::Finished { success, .. } => success,
        _ => false,
    }
}

/// Tests are run exactly if the code has some and was built. Else the run is over: passed if the
/// code was built, and of a stage that says what happened, with the output of the compiler.
pub proof fn law_build_decides(
    build: CargoRun,
    signals: QualitySignals,
    elapsed_ms: u64,
    r: BuildStep,
)
    requires
        is_build_step(build, signals, elapsed_ms, r),
    ensures
        r is RunTests <==> succeeded(build) && signals.has_tests,
        match r {
            BuildStep::RunTests(s) => s.has_tests && s.function_count == signals.function_count,
            BuildStep::Done(v) => {
                &&& v.passed == succeeded(build)
                &&& v.stage == VerificationStage::CompiledNoTests <==> succeeded(build)
                &&& v.stage == VerificationStage::Timeout <==> build is TimedOut
                &&& v.stage == VerificationStage::CompileFailed <==> !succeeded(build)
                    && !(build is TimedOut)
                &&& v.duration_ms == elapsed_ms
                &&& build matches CargoRun::Finished { stdout, stderr, .. } ==> v.stdout == stdout
                    && v.stderr == stderr
            },
        },
{
}

/// Code with tests passes exactly if its tests do.
pub proof fn law_tests_decide(
    tests: CargoRun,
    signals: QualitySignals,
    elapsed_ms: u64,
    v: VerificationResult,
)
    requires
        is_test_result(tests, signals, elapsed_ms, v),
    ensures
        v.passed == succeeded(tests),
        v.stage == VerificationStage::TestsPassed <==> succeeded(tests),
        v.stage == VerificationStage::Timeout <==> tests is TimedOut,
        v.stage == VerificationStage::TestsFailed <==> tests is Finished && !succeeded(tests),
        v.signals == signals,
        v.duration_ms == elapsed_ms,
        tests matches CargoRun::Finished { stdout, stderr, .. } ==> v.stdout == stdout && v.stderr
            == stderr,
{
}

/// Code is compiled as it is; what is put before a library is an attribute alone.
pub proof fn law_code_is_compiled_as_it_is(code: Seq<char>)
    ensures
        ends_with(wrapped(code), code),
        wrapped(code) == code || wrapped(code)
            == "#![allow(dead_code, unused_variables, unused_imports)]\n\n"@ + code,
        contains(code, "fn main()"@) ==> wrapped(code) == code,
{
    let w = wrapped(code);
    assert(w.subrange(w.len() - code.len(), w.len() as int) =~= code);
}

/// Every line of the compiler's output that is a warning counts as one.
pub proof fn law_warnings_are_counted_by_line(lines: Seq<Seq<char>>)
    requires
        lines.len() > 0,
        lines.last().len() > 0,
        forall|i: int| 0 <= i < lines.len() ==> is_line(#[trigger] lines[i]),
    ensures
        warnings(joined(lines, "\n"@)) == keep(lines, |l: Seq<char>| is_warning(l)).len(),
{
    law_joined_lines_are_read_back(lines);
}

/// A line that begins with the word is a warning, and so is one that names its code anywhere.
pub proof fn law_warning_lines(a: Seq<char>, b: Seq<char>)
    ensures
        is_warning("warning: "@ + b),
        is_warning(a + "warning["@ + b),
{
    reveal_strlit("warning: ");
    let s = "warning: "@ + b;
    assert(s[0] == 'w');
    assert(trimmed_start(s) == s);
    law_part_is_found(a, "warning: "@, b);
    law_part_is_found(a, "warning["@, b);
}

/// A failed preparation is reported with its reason.
pub proof fn law_failed_preparation_says_why(f: SetupFailure)
    ensures
        ({
            let reason = match f {
                SetupFailure::TempDir(e) => e@,
                SetupFailure::Mkdir(e) => e@,
                SetupFailure::WriteManifest(e) => e@,
                SetupFailure::WriteCode(e) => e@,
            };
            ends_with(setup_message(f), reason)
        }),
{
    let none = Seq::<char>::empty();
    let (start, reason) = match f {
        SetupFailure::TempDir(e) => ("Failed to create temp dir: "@, e@),
        SetupFailure::Mkdir(e) => ("mkdir: "@, e@),
        SetupFailure::WriteManifest(e) => ("write Cargo.toml: "@, e@),
        SetupFailure::WriteCode(e) => ("write lib.rs: "@, e@),
    };
    let s = setup_message(f);
    assert(s.subrange(s.len() - reason.len(), s.len() as int) =~= reason);
}

} // verus!
