//! Judging code that was run in the sandbox.
use hyverk::sandbox::runner::{
    after_build, after_tests, failed, remaining_nanos, setup_failed, wrap_code, BuildStep,
    CargoRun, SetupFailure,
};
use hyverk::sandbox::{
    has_rust_code, verify_response, QualitySignals, Verification, VerificationStage,
};

fn signals(has_tests: bool) -> QualitySignals {
    QualitySignals { has_tests, ..QualitySignals::default() }
}

fn finished(success: bool, stderr: &str) -> CargoRun {
    CargoRun::Finished { success, stdout: "o".to_string(), stderr: stderr.to_string() }
}

#[test]
fn library_code_is_wrapped() {
    assert_eq!(wrap_code("fn main() {}"), "fn main() {}");
    assert_eq!(
        wrap_code("fn x() {}"),
        "#![allow(dead_code, unused_variables, unused_imports)]\n\nfn x() {}"
    );
}

#[test]
fn only_code_is_run() {
    assert!(!has_rust_code("text"));
    match verify_response("text") {
        Verification::NoCode(r) => {
            assert!(!r.passed);
            assert_eq!(r.stage, VerificationStage::NoCode);
        }
        _ => panic!("runs"),
    }
    let blocks = "```rust\nfn a() {}\n```\n```rust\n#[test]\nfn b() {}\n```\n```rust\n#[test]\nfn c() {}\n```";
    assert!(!has_rust_code(blocks));
    match verify_response(blocks) {
        Verification::Run { code, signals } => {
            assert_eq!(code, "#[test]\nfn c() {}");
            assert!(signals.has_tests);
            assert_eq!(signals.function_count, 1);
        }
        _ => panic!("no code"),
    }
}

#[test]
fn builds_are_judged() {
    let done = |run: CargoRun, tests: bool| match after_build(run, signals(tests), 5) {
        BuildStep::Done(r) => r,
        BuildStep::RunTests(_) => panic!("runs tests"),
    };
    let r = done(CargoRun::TimedOut, false);
    assert_eq!((r.stage, r.stderr.as_str(), r.duration_ms), (VerificationStage::Timeout, "Build timed out", 5));
    assert_eq!(done(CargoRun::NotStarted, false).stage, VerificationStage::CompileFailed);
    let r = done(finished(false, "  warning: a\nwarning[x]\nerror"), true);
    assert_eq!(r.stage, VerificationStage::CompileFailed);
    assert_eq!(r.signals.warning_count, 2);
    let r = done(finished(true, ""), false);
    assert!(r.passed);
    assert_eq!((r.stage, r.stdout.as_str()), (VerificationStage::CompiledNoTests, "o"));
    match after_build(finished(true, "warning: a"), signals(true), 5) {
        BuildStep::RunTests(s) => assert_eq!(s.warning_count, 1),
        BuildStep::Done(_) => panic!("runs no tests"),
    }
}

#[test]
fn test_runs_are_judged() {
    let r = after_tests(finished(true, ""), signals(true), 5);
    assert!(r.passed);
    assert_eq!(r.stage, VerificationStage::TestsPassed);
    assert_eq!(after_tests(finished(false, ""), signals(true), 5).stage, VerificationStage::TestsFailed);
    let r = after_tests(CargoRun::TimedOut, signals(true), 5);
    assert_eq!((r.stage, r.stderr.as_str()), (VerificationStage::Timeout, "Test timed out"));
    assert_eq!(after_tests(CargoRun::NotStarted, signals(true), 5).stage, VerificationStage::CompileFailed);
    assert_eq!(remaining_nanos(10, 4), 6);
    assert_eq!(remaining_nanos(4, 10), 0);
}

#[test]
fn failed_setup_says_why() {
    let text = |f: SetupFailure| setup_failed(&f, signals(false)).stderr;
    assert_eq!(text(SetupFailure::TempDir("e".to_string())), "Failed to create temp dir: e");
    assert_eq!(text(SetupFailure::Mkdir("e".to_string())), "mkdir: e");
    assert_eq!(text(SetupFailure::WriteManifest("e".to_string())), "write Cargo.toml: e");
    assert_eq!(text(SetupFailure::WriteCode("e".to_string())), "write lib.rs: e");
    assert_eq!(failed("m".to_string(), signals(false)).stage, VerificationStage::CompileFailed);
}
