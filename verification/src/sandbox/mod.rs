//! Checking that the code in a response compiles and passes its tests.
//!
//! The compiler itself is run by the caller; what is run, and what its outcome means, is
//! decided here.
use crate::text::{len_bytes, lines};
use extractor::{analyze_code, extract_rust_blocks};
use vstd::prelude::*;

pub mod extractor;
pub mod runner;

verus! {

use crate::text::{byte_len, contains, lines_of, texts};
use extractor::{blocks_of, signals_of};

#[derive(Debug, Clone, Copy, PartialEq, Eq, Structural)]
pub enum VerificationStage {
    /// No Rust code block found in response.
    NoCode,
    /// Code extracted but failed to compile.
    CompileFailed,
    /// Compiled, no tests found.
    CompiledNoTests,
    /// Compiled, tests ran and passed.
    TestsPassed,
    /// Compiled, tests ran but some failed.
    TestsFailed,
    /// Process timed out.
    Timeout,
}

#[derive(Debug, Clone, Copy, PartialEq, Eq, Structural)]
pub struct QualitySignals {
    pub has_doc_comments: bool,
    pub has_tests: bool,
    pub has_error_handling: bool,
    pub function_count: usize,
    pub line_count: usize,
    pub warning_count: usize,
}

impl Default for QualitySignals {
    fn default() -> (s: Self)
        ensures
            s == no_signals(),
    {
        QualitySignals {
            has_doc_comments: false,
            has_tests: false,
            has_error_handling: false,
            function_count: 0,
            line_count: 0,
            warning_count: 0,
        }
    }
}

/// Nothing found, nothing counted.
pub open spec fn no_signals() -> QualitySignals {
    QualitySignals {
        has_doc_comments: false,
        has_tests: false,
        has_error_handling: false,
        function_count: 0,
        line_count: 0,
        warning_count: 0,
    }
}

/// Result of executing code in the sandbox.
#[derive(Debug)]
pub struct VerificationResult {
    pub passed: bool,
    pub stage: VerificationStage,
    pub stdout: String,
    pub stderr: String,
    pub duration_ms: u64,
    /// Quality signals derived from compilation.
    pub signals: QualitySignals,
}

/// Code passes that compiled and failed no test.
pub open spec fn passes(stage: VerificationStage) -> bool {
    stage == VerificationStage::CompiledNoTests || stage == VerificationStage::TestsPassed
}

/// Seconds that a verification may take unless the caller says otherwise.
pub const DEFAULT_TIMEOUT_SECS: u64 = 60;

/// What is to be done with a response.
#[derive(Debug)]
pub enum Verification {
    /// Nothing to run: this is the result.
    NoCode(VerificationResult),
    /// This code is to be run.
    Run { code: String, signals: QualitySignals },
}

/// The position of the longest block, the last one if there are several.
pub open spec fn is_largest(blocks: Seq<Seq<char>>, k: int) -> bool {
    &&& 0 <= k < blocks.len()
    &&& forall|j: int| 0 <= j < blocks.len() ==> byte_len(#[trigger] blocks[j]) <= byte_len(blocks[k])
    &&& forall|j: int| k < j < blocks.len() ==> byte_len(#[trigger] blocks[j]) < byte_len(blocks[k])
}

/// What is to be done with a response.
pub open spec fn is_verification(response: Seq<char>, r: Verification) -> bool {
    match r {
        Verification::NoCode(v) => {
            &&& blocks_of(response).len() == 0
            &&& !v.passed
            &&& v.stage == VerificationStage::NoCode
            &&& v.stdout@.len() == 0
            &&& v.stderr@.len() == 0
            &&& v.duration_ms == 0
            &&& v.signals == (QualitySignals {
                line_count: lines_of(response).len() as usize,
                ..no_signals()
            })
            &&& v.signals.line_count == lines_of(response).len()
        },
        Verification::Run { code, signals } => {
            &&& exists|k: int| #[trigger]
                is_largest(blocks_of(response), k) && code@ == blocks_of(response)[k]
            &&& signals_of(signals, code@)
        },
    }
}

/// Picks the code of a response that is verified: its largest block, which most likely is the
/// main implementation.
pub fn verify_response(response: &str) -> (r: Verification)
    ensures
        is_verification(response@, r),
{
    let blocks = extract_rust_blocks(response);
    let ghost all = blocks_of(response@);
    assert(texts(blocks@).len() == blocks@.len());
    if blocks.len() == 0 {
        let count = lines(response);
        assert(texts(count@).len() == count@.len());
        let mut signals: QualitySignals = Default::default();
        signals.line_count = count.len();
        return Verification::NoCode(
            VerificationResult {
                passed: false,
                stage: VerificationStage::NoCode,
                stdout: String::new(),
                stderr: String::new(),
                duration_ms: 0,
                signals,
            },
        );
    }
    let mut k: usize = 0;
    let mut i: usize = 1;
    while i < blocks.len()
        invariant
            1 <= i <= blocks@.len(),
            k < i,
            all == texts(blocks@),
            forall|j: int| 0 <= j < i ==> byte_len(#[trigger] all[j]) <= byte_len(all[k as int]),
            forall|j: int| k < j < i ==> byte_len(#[trigger] all[j]) < byte_len(all[k as int]),
        decreases blocks@.len() - i,
    {
        assert(all[i as int] == blocks@[i as int]@ && all[k as int] == blocks@[k as int]@);
        if len_bytes(blocks[i].as_str()) >= len_bytes(blocks[k].as_str()) {
            k = i;
        }
        i = i + 1;
    }
    assert(is_largest(all, k as int));
    let code = blocks[k].clone();
    assert(all[k as int] == code@);
    let signals = analyze_code(code.as_str());
    Verification::Run { code, signals }
}

/// Whether a response contains a noteworthy amount of Rust code.
pub fn has_rust_code(response: &str) -> (r: bool)
    ensures
        r == (exists|k: int|
            0 <= k < blocks_of(response@).len() && byte_len(#[trigger] blocks_of(response@)[k])
                > 20),
{
    let blocks = extract_rust_blocks(response);
    let ghost all = blocks_of(response@);
    assert(texts(blocks@).len() == blocks@.len());
    let mut i: usize = 0;
    while i < blocks.len()
        invariant
            i <= blocks@.len(),
            all == texts(blocks@),
            all == blocks_of(response@),
            forall|j: int| 0 <= j < i ==> byte_len(#[trigger] all[j]) <= 20,
        decreases blocks@.len() - i,
    {
        assert(all[i as int] == blocks@[i as int]@);
        if len_bytes(blocks[i].as_str()) > 20 {
            return true;
        }
        i = i + 1;
    }
    false
}

/// Code is run exactly if the response has a block of it. What is run is one of the blocks, and
/// none is longer; whether it has tests is read from that code.
pub proof fn law_longest_block_is_run(response: Seq<char>, r: Verification)
    requires
        is_verification(response, r),
    ensures
        r is Run <==> blocks_of(response).len() > 0,
        match r {
            Verification::Run { code, signals } => {
                &&& blocks_of(response).contains(code@)
                &&& forall|j: int|
                    0 <= j < blocks_of(response).len() ==> byte_len(
                        #[trigger] blocks_of(response)[j],
                    ) <= byte_len(code@)
                &&& signals.has_tests == (contains(code@, "#[test]"@) || contains(
                    code@,
                    "#[cfg(test)]"@,
                ))
            },
            Verification::NoCode(v) => !v.passed && v.stage == VerificationStage::NoCode,
        },
        blocks_of(response).len() == 1 ==> match r {
            Verification::Run { code, .. } => code@ == blocks_of(response)[0],
            Verification::NoCode(_) => false,
        },
{
    if let Verification::Run { code, signals } = r {
        let k = choose|k: int| #[trigger]
            is_largest(blocks_of(response), k) && code@ == blocks_of(response)[k];
        assert(blocks_of(response)[k] == code@);
    }
}

} // verus!
