//! Training layers: a node claims an assignment, fetches its examples, trains an adapter and
//! submits it.
use crate::json;
use crate::text::{
    concat,
    concat3,
    format_number,
    is_blank,
    lines,
    trim,
    trim_end_matches,
};
use vstd::prelude::*;

verus! {

use crate::json::{json_error, json_get, json_valid, number_or, string_at};
use crate::seqs::{keep, lemma_keep_all, lemma_keep_step};
use crate::text::{
    decimal,
    is_line,
    joined,
    law_joined_lines_are_read_back,
    lines_of,
    texts,
    trim_suffix,
    trimmed,
};
use vstd::string::StringExecFns;

/// Seconds between two claims.
pub const CLAIM_INTERVAL_SECS: u64 = 10;

/// Seconds that training may take.
pub const TRAINING_TIMEOUT_SECS: u64 = 90;

/// A tokenizer must be larger than this many bytes to be one.
pub const MIN_TOKENIZER_BYTES: usize = 1000;

/// A slice of layers with the examples to train them on.
#[derive(Debug)]
pub struct LayerAssignment {
    pub assignment_id: String,
    pub layer_start: usize,
    pub layer_end: usize,
    pub data_shard_start: usize,
    pub data_shard_size: usize,
}

/// Where the coordinator listens.
pub struct TrainingEndpoints {
    pub base: String,
}

impl TrainingEndpoints {
    pub fn new(coordinator_http_url: &str) -> (e: Self)
        ensures
            e.base@ == trim_suffix(coordinator_http_url@, "/"@),
    {
        TrainingEndpoints { base: trim_end_matches(coordinator_http_url, "/") }
    }

    /// Where assignments are claimed.
    pub fn claim_url(&self) -> (r: String)
        ensures
            r@ == self.base@ + "/api/v1/layer-training/claim"@,
    {
        concat(self.base.as_str(), "/api/v1/layer-training/claim")
    }

    /// Where the examples of an assignment are.
    pub fn shard_url(&self, offset: usize, size: usize) -> (r: String)
        ensures
            r@ == self.base@ + "/api/v1/layer-training/shard/"@ + decimal(offset as nat) + "/"@
                + decimal(size as nat),
    {
        let a = format_number(offset as u64);
        let b = format_number(size as u64);
        let mut r = concat3(self.base.as_str(), "/api/v1/layer-training/shard/", a.as_str());
        r.append("/");
        r.append(b.as_str());
        r
    }

    /// Where the tokenizer is.
    pub fn tokenizer_url(&self) -> (r: String)
        ensures
            r@ == self.base@ + "/api/v1/layer-training/tokenizer"@,
    {
        concat(self.base.as_str(), "/api/v1/layer-training/tokenizer")
    }

    /// Where adapters are submitted.
    pub fn submit_url(&self) -> (r: String)
        ensures
            r@ == self.base@ + "/api/v1/layer-training/submit"@,
    {
        concat(self.base.as_str(), "/api/v1/layer-training/submit")
    }
}

/// The file that shows that a node has the weights; without it the node does not train.
pub fn weights_index(model_dir: &str) -> (r: String)
    ensures
        r@ == model_dir@ + "/model.safetensors.index.json"@,
{
    concat(model_dir, "/model.safetensors.index.json")
}

/// What a node that trains has to do.
#[derive(Debug, Clone, Copy, PartialEq, Eq, Structural)]
pub enum LayerStep {
    /// Wait until the next claim.
    Wait,
    Claim,
    FetchData,
    Train,
    Submit,
}

/// What happened to a node that trains.
#[derive(Debug, Clone, Copy, PartialEq, Eq, Structural)]
pub enum LayerEvent {
    /// The time between two claims is over.
    Due,
    Claimed { found: bool },
    Fetched { ok: bool },
    Trained { ok: bool },
    Submitted,
}

/// The step that follows an event.
pub open spec fn step_after(event: LayerEvent) -> LayerStep {
    match event {
        LayerEvent::Due => LayerStep::Claim,
        LayerEvent::Claimed { found } => if found {
            LayerStep::FetchData
        } else {
            LayerStep::Wait
        },
        LayerEvent::Fetched { ok } => if ok {
            LayerStep::Train
        } else {
            LayerStep::Wait
        },
        LayerEvent::Trained { ok } => if ok {
            LayerStep::Submit
        } else {
            LayerStep::Wait
        },
        LayerEvent::Submitted => LayerStep::Wait,
    }
}

/// The next step: an assignment goes through data, training and submission, and whatever
/// fails on the way ends it.
pub fn next_step(event: LayerEvent) -> (r: LayerStep)
    ensures
        r == step_after(event),
{
    match event {
        LayerEvent::Due => LayerStep::Claim,
        LayerEvent::Claimed { found } => if found {
            LayerStep::FetchData
        } else {
            LayerStep::Wait
        },
        LayerEvent::Fetched { ok } => if ok {
            LayerStep::Train
        } else {
            LayerStep::Wait
        },
        LayerEvent::Trained { ok } => if ok {
            LayerStep::Submit
        } else {
            LayerStep::Wait
        },
        LayerEvent::Submitted => LayerStep::Wait,
    }
}

/// The assignment in the answer to a claim, as JSON; none if there is none.
pub fn claimed_assignment(success: bool, body: &str) -> (r: Option<String>)
    ensures
        match r {
            Some(a) => success && json_get(body@, "error"@) is None && json_get(
                body@,
                "assignment"@,
            ) == Some(a@),
            None => !success || json_get(body@, "error"@) is Some || json_get(
                body@,
                "assignment"@,
            ) is None,
        },
{
    if !success || json::get(body, "error").is_some() {
        return None;
    }
    json::get(body, "assignment")
}

/// Lines that hold an example.
pub open spec fn example_lines(body: Seq<char>) -> Seq<Seq<char>> {
    keep(lines_of(body), |l: Seq<char>| trimmed(l).len() > 0)
}

/// The lines of a shard that are not blank.
pub fn shard_lines(body: &str) -> (r: Vec<String>)
    ensures
        texts(r@) == example_lines(body@),
{
    let all = lines(body);
    let ghost src = lines_of(body@);
    let ghost p = |l: Seq<char>| trimmed(l).len() > 0;
    let mut r: Vec<String> = Vec::new();
    let mut i: usize = 0;
    assert(texts(r@) =~= keep(src.subrange(0, 0), p));
    while i < all.len()
        invariant
            i <= all@.len(),
            texts(all@) == src,
            p == (|l: Seq<char>| trimmed(l).len() > 0),
            texts(r@) == keep(src.subrange(0, i as int), p),
        decreases all@.len() - i,
    {
        proof {
            lemma_keep_step(src, p, i as int);
            assert(src[i as int] == all@[i as int]@);
        }
        if !is_blank(all[i].as_str()) {
            let ghost before = r@;
            r.push(all[i].clone());
            assert(texts(r@) =~= texts(before).push(src[i as int]));
        }
        i = i + 1;
    }
    assert(src.subrange(0, src.len() as int) =~= src);
    r
}

/// The files of a training run.
#[derive(Debug)]
pub struct TrainingFiles {
    pub data: String,
    pub adapter: String,
}

/// Where a training run finds its examples and leaves its adapter.
pub fn training_files(layer_start: usize, layer_end: usize) -> (r: TrainingFiles)
    ensures
        r.data@ == "/tmp/hyverk_shard_"@ + decimal(layer_start as nat) + "_"@ + decimal(
            layer_end as nat,
        ) + ".jsonl"@,
        r.adapter@ == "/tmp/hyverk_adapter_"@ + decimal(layer_start as nat) + "_"@ + decimal(
            layer_end as nat,
        ) + ".safetensors"@,
{
    let a = format_number(layer_start as u64);
    let b = format_number(layer_end as u64);
    let mut data = concat3("/tmp/hyverk_shard_", a.as_str(), "_");
    data.append(b.as_str());
    data.append(".jsonl");
    let mut adapter = concat3("/tmp/hyverk_adapter_", a.as_str(), "_");
    adapter.append(b.as_str());
    adapter.append(".safetensors");
    TrainingFiles { data, adapter }
}

/// Where the tokenizer of a model is.
pub fn tokenizer_path(model_dir: &str) -> (r: String)
    ensures
        r@ == model_dir@ + "/tokenizer.json"@,
{
    concat(model_dir, "/tokenizer.json")
}

/// Whether a downloaded tokenizer is kept.
pub fn keeps_tokenizer(size: usize) -> (r: bool)
    ensures
        r == (size > MIN_TOKENIZER_BYTES),
{
    size > MIN_TOKENIZER_BYTES
}

/// Arguments of the training script.
pub fn training_args(
    script: &str,
    model_dir: &str,
    layer_start: usize,
    layer_end: usize,
    files: &TrainingFiles,
) -> (r: Vec<String>)
    ensures
        texts(r@) == seq![
            script@,
            "--model-dir"@,
            model_dir@,
            "--layer-start"@,
            decimal(layer_start as nat),
            "--layer-end"@,
            decimal(layer_end as nat),
            "--data-file"@,
            files.data@,
            "--output"@,
            files.adapter@,
            "--lora-rank"@,
            "16"@,
            "--epochs"@,
            "1"@,
            "--max-seq-len"@,
            "256"@,
        ],
{
    let r = vec![
        script.to_owned(),
        "--model-dir".to_owned(),
        model_dir.to_owned(),
        "--layer-start".to_owned(),
        format_number(layer_start as u64),
        "--layer-end".to_owned(),
        format_number(layer_end as u64),
        "--data-file".to_owned(),
        files.data.clone(),
        "--output".to_owned(),
        files.adapter.clone(),
        "--lora-rank".to_owned(),
        "16".to_owned(),
        "--epochs".to_owned(),
        "1".to_owned(),
        "--max-seq-len".to_owned(),
        "256".to_owned(),
    ];
    assert(texts(r@) =~= seq![
        script@,
        "--model-dir"@,
        model_dir@,
        "--layer-start"@,
        decimal(layer_start as nat),
        "--layer-end"@,
        decimal(layer_end as nat),
        "--data-file"@,
        files.data@,
        "--output"@,
        files.adapter@,
        "--lora-rank"@,
        "16"@,
        "--epochs"@,
        "1"@,
        "--max-seq-len"@,
        "256"@,
    ]);
    r
}

/// How a training run ended.
#[derive(Debug)]
pub enum TrainRun {
    TimedOut,
    /// The script could not be started, for this reason.
    NotStarted(String),
    /// The script ended; `code` is its exit code in words.
    Finished { success: bool, code: String, stdout: String, stderr: String },
}

/// Why there is no adapter.
#[derive(Debug)]
pub enum TrainError {
    TimedOut,
    NotStarted(String),
    /// The script reports this error.
    Failed(String),
    Exited { code: String, stderr: String },
    /// The script succeeded, but its output is no JSON.
    BadResult { error: String, stdout: String },
}

impl TrainError {
    /// The error in words.
    pub fn message(&self) -> (r: String)
        ensures
            r@ == match *self {
                TrainError::TimedOut => "Training timed out after 90 seconds"@,
                TrainError::NotStarted(e) => "Failed to run training script: "@ + e@
                    + ". Is python3 + torch installed?"@,
                TrainError::Failed(e) => "Training failed: "@ + e@,
                TrainError::Exited { code, stderr } => "Training script exited with code "@ + code@
                    + ": "@ + stderr@,
                TrainError::BadResult { error, stdout } => "Failed to parse training result: "@
                    + error@ + "\nstdout: "@ + stdout@,
            },
    {
        match self {
            TrainError::TimedOut => "Training timed out after 90 seconds".to_owned(),
            TrainError::NotStarted(e) => concat3(
                "Failed to run training script: ",
                e.as_str(),
                ". Is python3 + torch installed?",
            ),
            TrainError::Failed(e) => concat("Training failed: ", e.as_str()),
            TrainError::Exited { code, stderr } => {
                let mut r = concat3("Training script exited with code ", code.as_str(), ": ");
                r.append(stderr.as_str());
                r
            },
            TrainError::BadResult { error, stdout } => {
                let mut r = concat3(
                    "Failed to parse training result: ",
                    error.as_str(),
                    "\nstdout: ",
                );
                r.append(stdout.as_str());
                r
            },
        }
    }
}

/// The number of steps of a training run, or why it gave no adapter.
pub fn training_result(run: TrainRun) -> (r: Result<usize, TrainError>)
    ensures
        match run {
            TrainRun::TimedOut => r is Err && r->Err_0 is TimedOut,
            TrainRun::NotStarted(e) => r is Err && r->Err_0 == TrainError::NotStarted(e),
            TrainRun::Finished { success, code, stdout, stderr } => if !success {
                &&& r is Err
                &&& match string_at(stdout@, "error"@) {
                    Some(e) => r->Err_0 is Failed && r->Err_0->Failed_0@ == e,
                    None => r->Err_0 == (TrainError::Exited { code, stderr }),
                }
            } else if !json_valid(trimmed(stdout@)) {
                &&& r is Err
                &&& r->Err_0 matches TrainError::BadResult { error, stdout: printed }
                &&& Some(error@) == json_error(trimmed(stdout@))
                &&& printed == stdout
            } else {
                r is Ok && r->Ok_0 == number_or(trimmed(stdout@), "steps"@, 0) as usize
            },
        },
{
    match run {
        TrainRun::TimedOut => Err(TrainError::TimedOut),
        TrainRun::NotStarted(e) => Err(TrainError::NotStarted(e)),
        TrainRun::Finished { success, code, stdout, stderr } => {
            if !success {
                return match json::get_string(stdout.as_str(), "error") {
                    Some(e) => Err(TrainError::Failed(e)),
                    None => Err(TrainError::Exited { code, stderr }),
                };
            }
            let out = trim(stdout.as_str());
            if let Some(error) = json::error(out.as_str()) {
                return Err(TrainError::BadResult { error, stdout });
            }
            Ok(json::get_number_or(out.as_str(), "steps", 0) as usize)
        },
    }
}

// ── Laws ─────────────────────────────────────────────────────────────────────

/// A node trains only on examples that it fetched for an assignment that it claimed, and submits
/// only what it trained; whatever fails leads back to waiting.
pub proof fn law_each_step_needs_the_one_before(event: LayerEvent)
    ensures
        (step_after(event) is Claim) == (event is Due),
        (step_after(event) is FetchData) == (event == LayerEvent::Claimed { found: true }),
        (step_after(event) is Train) == (event == LayerEvent::Fetched { ok: true }),
        (step_after(event) is Submit) == (event == LayerEvent::Trained { ok: true }),
{
}

/// Every line of a shard that is not blank is an example to train on, in order.
pub proof fn law_every_line_is_trained_on(lines: Seq<Seq<char>>)
    requires
        lines.len() > 0,
        forall|i: int|
            0 <= i < lines.len() ==> is_line(#[trigger] lines[i]) && trimmed(lines[i]).len() > 0,
    ensures
        example_lines(joined(lines, "\n"@)) == lines,
{
    let last = lines.len() - 1;
    assert(trimmed(lines[last]).len() > 0);
    if lines.last().len() == 0 {
        assert(trimmed(lines.last()) =~= lines.last());
    }
    law_joined_lines_are_read_back(lines);
    lemma_keep_all(lines, |l: Seq<char>| trimmed(l).len() > 0);
}

} // verus!
