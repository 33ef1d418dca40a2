//! Where a node finds its interpreter and its scripts.
//!
//! The caller looks at the disk: it tells of each candidate whether it exists.
use crate::model_paths::first_existing;
use crate::text::{concat, lines, trim};
use vstd::prelude::*;

verus! {

use crate::seqs::{first_index, lemma_first_index_is};
use crate::text::{lines_of, texts, trimmed};

/// The first candidate that exists, or else a fallback.
pub open spec fn chosen(candidates: Seq<Seq<char>>, exists: Seq<bool>, fallback: Seq<char>) -> Seq<
    char,
> {
    let k = first_index(exists, |b: bool| b);
    if k < exists.len() {
        candidates[k]
    } else {
        fallback
    }
}

/// The first candidate that exists, or else a fallback.
pub fn choose_path(candidates: &Vec<String>, exists: &Vec<bool>, fallback: &str) -> (r: String)
    requires
        candidates@.len() == exists@.len(),
    ensures
        r@ == chosen(texts(candidates@), exists@, fallback@),
{
    match first_existing(candidates, exists) {
        Some(p) => {
            assert(texts(candidates@)[first_index(exists@, |b: bool| b)] == p@);
            p
        },
        None => fallback.to_owned(),
    }
}

fn owned(a: &str, b: &str, c: &str) -> (r: Vec<String>)
    ensures
        texts(r@) == seq![a@, b@, c@],
{
    let r = vec![a.to_owned(), b.to_owned(), c.to_owned()];
    assert(texts(r@) =~= seq![a@, b@, c@]);
    r
}

// ── The inference server of a connected node ─────────────────────────────────

/// Where the interpreter may be, best first.
pub fn python_candidates(windows: bool) -> (r: Vec<String>)
    ensures
        texts(r@) == if windows {
            seq![".venv\\Scripts\\python.exe"@, "python.exe"@, "python3.exe"@]
        } else {
            seq![".venv/bin/python3"@, "/usr/bin/python3"@, "python3"@]
        },
{
    if windows {
        owned(".venv\\Scripts\\python.exe", "python.exe", "python3.exe")
    } else {
        owned(".venv/bin/python3", "/usr/bin/python3", "python3")
    }
}

/// The first line of what the search tool printed.
pub open spec fn first_line(printed: Seq<char>) -> Option<Seq<char>> {
    if lines_of(printed).len() > 0 {
        Some(trimmed(lines_of(printed)[0]))
    } else {
        None
    }
}

/// What stands for the interpreter where no candidate exists: on Windows the first place
/// that `where` printed, if it found one.
pub open spec fn python_fallback(windows: bool, found: Option<&str>) -> Seq<char> {
    if !windows {
        "python3"@
    } else {
        match found {
            Some(printed) => match first_line(printed@) {
                Some(line) => line,
                None => "python.exe"@,
            },
            None => "python.exe"@,
        }
    }
}

/// The interpreter. `found` is what the search tool printed, where it was run and succeeded.
pub fn find_python(windows: bool, exists: &Vec<bool>, found: Option<&str>) -> (r: String)
    requires
        exists@.len() == 3,
    ensures
        r@ == chosen(
            if windows {
                seq![".venv\\Scripts\\python.exe"@, "python.exe"@, "python3.exe"@]
            } else {
                seq![".venv/bin/python3"@, "/usr/bin/python3"@, "python3"@]
            },
            exists@,
            python_fallback(windows, found),
        ),
{
    let fallback = if !windows {
        "python3".to_owned()
    } else {
        match found {
            Some(printed) => {
                let all = lines(printed);
                assert(texts(all@).len() == all@.len());
                if all.len() > 0 {
                    assert(texts(all@)[0] == all@[0]@);
                    trim(all[0].as_str())
                } else {
                    "python.exe".to_owned()
                }
            },
            None => "python.exe".to_owned(),
        }
    };
    let candidates = python_candidates(windows);
    assert(texts(candidates@).len() == candidates@.len());
    choose_path(&candidates, exists, fallback.as_str())
}

/// Where a script may be, best first.
pub fn script_candidates(name: &str) -> (r: Vec<String>)
    ensures
        texts(r@) == seq![name@, "../"@ + name@, "../../"@ + name@, "/app/"@ + name@],
{
    let r = vec![
        name.to_owned(),
        concat("../", name),
        concat("../../", name),
        concat("/app/", name),
    ];
    assert(texts(r@) =~= seq![name@, "../"@ + name@, "../../"@ + name@, "/app/"@ + name@]);
    r
}

/// A script of the project.
pub fn find_script(name: &str, exists: &Vec<bool>) -> (r: String)
    requires
        exists@.len() == 4,
    ensures
        r@ == chosen(
            seq![name@, "../"@ + name@, "../../"@ + name@, "/app/"@ + name@],
            exists@,
            name@,
        ),
{
    let candidates = script_candidates(name);
    assert(texts(candidates@).len() == candidates@.len());
    choose_path(&candidates, exists, name)
}

// ── Layer training ───────────────────────────────────────────────────────────

/// Where the interpreter for training may be, best first.
pub open spec fn training_python_paths(venv: Option<&str>) -> Seq<Seq<char>> {
    let known = seq![
        ".venv/bin/python3"@,
        "../.venv/bin/python3"@,
        "../../.venv/bin/python3"@,
        "/app/.venv/bin/python3"@,
        "python3"@,
    ];
    match venv {
        Some(v) => known.push(v@ + "/bin/python3"@),
        None => known,
    }
}

/// Where the interpreter for training may be: the known places, then the active virtual
/// environment.
pub fn training_python_candidates(venv: Option<&str>) -> (r: Vec<String>)
    ensures
        texts(r@) == training_python_paths(venv),
{
    let mut r = vec![
        ".venv/bin/python3".to_owned(),
        "../.venv/bin/python3".to_owned(),
        "../../.venv/bin/python3".to_owned(),
        "/app/.venv/bin/python3".to_owned(),
        "python3".to_owned(),
    ];
    if let Some(v) = venv {
        r.push(concat(v, "/bin/python3"));
    }
    assert(texts(r@) =~= training_python_paths(venv));
    r
}

/// The interpreter for training.
pub fn find_training_python(venv: Option<&str>, exists: &Vec<bool>) -> (r: String)
    requires
        exists@.len() == training_python_paths(venv).len(),
    ensures
        r@ == chosen(training_python_paths(venv), exists@, "python3"@),
{
    let candidates = training_python_candidates(venv);
    assert(texts(candidates@).len() == candidates@.len());
    choose_path(&candidates, exists, "python3")
}

/// Where the training script may be, best first.
pub open spec fn training_script_paths(exe_dir: Option<&str>) -> Seq<Seq<char>> {
    let known = seq![
        "training/train_layer_lora.py"@,
        "../training/train_layer_lora.py"@,
        "../../training/train_layer_lora.py"@,
        "/app/training/train_layer_lora.py"@,
    ];
    match exe_dir {
        Some(d) => known.push(
            crate::model_paths::path_join(
                crate::model_paths::path_join(d@, "training"@),
                "train_layer_lora.py"@,
            ),
        ),
        None => known,
    }
}

/// Where the training script may be: the known places, then beside the executable.
pub fn training_script_candidates(exe_dir: Option<&str>) -> (r: Vec<String>)
    ensures
        texts(r@) == training_script_paths(exe_dir),
{
    let mut r = vec![
        "training/train_layer_lora.py".to_owned(),
        "../training/train_layer_lora.py".to_owned(),
        "../../training/train_layer_lora.py".to_owned(),
        "/app/training/train_layer_lora.py".to_owned(),
    ];
    if let Some(d) = exe_dir {
        let dir = crate::model_paths::join(d, "training");
        r.push(crate::model_paths::join(dir.as_str(), "train_layer_lora.py"));
    }
    assert(texts(r@) =~= training_script_paths(exe_dir));
    r
}

/// The training script; none if it is nowhere.
pub fn find_training_script(exe_dir: Option<&str>, exists: &Vec<bool>) -> (r: Option<String>)
    requires
        exists@.len() == training_script_paths(exe_dir).len(),
    ensures
        ({
            let k = first_index(exists@, |b: bool| b);
            match r {
                Some(p) => k < exists@.len() && p@ == training_script_paths(exe_dir)[k],
                None => k == exists@.len(),
            }
        }),
{
    let candidates = training_script_candidates(exe_dir);
    assert(texts(candidates@).len() == candidates@.len());
    let r = first_existing(&candidates, exists);
    proof {
        if r is Some {
            assert(texts(candidates@)[first_index(exists@, |b: bool| b)] == r->0@);
        }
    }
    r
}

// ── The layer server ─────────────────────────────────────────────────────────

/// The interpreter for the layer server.
pub fn find_server_python(exists: &Vec<bool>) -> (r: String)
    requires
        exists@.len() == 3,
    ensures
        r@ == chosen(
            seq![".venv/bin/python3"@, "../.venv/bin/python3"@, "python3"@],
            exists@,
            "python3"@,
        ),
{
    let candidates = owned(".venv/bin/python3", "../.venv/bin/python3", "python3");
    assert(texts(candidates@).len() == candidates@.len());
    choose_path(&candidates, exists, "python3")
}

/// The script of the layer server.
pub fn find_inference_script(exists: &Vec<bool>) -> (r: String)
    requires
        exists@.len() == 3,
    ensures
        r@ == chosen(
            seq![
                "inference/serve_layers.py"@,
                "../inference/serve_layers.py"@,
                "/app/inference/serve_layers.py"@,
            ],
            exists@,
            "inference/serve_layers.py"@,
        ),
{
    let candidates = owned(
        "inference/serve_layers.py",
        "../inference/serve_layers.py",
        "/app/inference/serve_layers.py",
    );
    assert(texts(candidates@).len() == candidates@.len());
    choose_path(&candidates, exists, "inference/serve_layers.py")
}

/// The first path that exists is taken; where none does, the fallback is.
pub proof fn law_first_existing_is_taken(
    candidates: Seq<Seq<char>>,
    exists: Seq<bool>,
    fallback: Seq<char>,
    k: int,
)
    requires
        candidates.len() == exists.len(),
    ensures
        0 <= k < exists.len() && exists[k] && (forall|j: int|
            0 <= j < k ==> !#[trigger] exists[j]) ==> chosen(candidates, exists, fallback)
            == candidates[k],
        (forall|j: int| 0 <= j < exists.len() ==> !#[trigger] exists[j]) ==> chosen(
            candidates,
            exists,
            fallback,
        ) == fallback,
{
    if 0 <= k < exists.len() && exists[k] && (forall|j: int|
        0 <= j < k ==> !#[trigger] exists[j]) {
        lemma_first_index_is(exists, |b: bool| b, k);
    }
    if forall|j: int| 0 <= j < exists.len() ==> !#[trigger] exists[j] {
        lemma_first_index_is(exists, |b: bool| b, exists.len() as int);
    }
}

/// The known places come before the ones that depend on how the program was started, and none of
/// them is left out for those.
pub proof fn law_known_places_come_first(venv: &str, exe_dir: &str, i: int)
    ensures
        ({
            let known = training_python_paths(None);
            let all = training_python_paths(Some(venv));
            &&& all.len() == known.len() + 1
            &&& all[known.len() as int] == venv@ + "/bin/python3"@
            &&& 0 <= i < known.len() ==> all[i] == known[i]
        }),
        ({
            let known = training_script_paths(None);
            let all = training_script_paths(Some(exe_dir));
            &&& all.len() == known.len() + 1
            &&& all[known.len() as int] == crate::model_paths::path_join(
                crate::model_paths::path_join(exe_dir@, "training"@),
                "train_layer_lora.py"@,
            )
            &&& 0 <= i < known.len() ==> all[i] == known[i]
        }),
{
}

} // verus!
