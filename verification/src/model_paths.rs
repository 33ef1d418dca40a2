//! Where the model and the data of the coordinator lie on disk.
//!
//! A path is a text with `/` between its parts. Environment variables come as optional
//! texts.
use crate::text::{chars_of, concat, concat3, has_prefix, has_suffix, str_eq, substring};
use vstd::prelude::*;

verus! {

use crate::seqs::{first_index, lemma_first_index_is};
use crate::text::{ends_with, starts_with, texts};

/// A path below another one; an absolute path stands for itself.
pub open spec fn path_join(base: Seq<char>, name: Seq<char>) -> Seq<char> {
    if starts_with(name, "/"@) {
        name
    } else if base.len() == 0 || ends_with(base, "/"@) {
        base + name
    } else {
        base + "/"@ + name
    }
}

/// A path below another one; an absolute path stands for itself.
pub fn join(base: &str, name: &str) -> (r: String)
    ensures
        r@ == path_join(base@, name@),
{
    if has_prefix(name, "/") {
        name.to_owned()
    } else if base.is_empty() || has_suffix(base, "/") {
        concat(base, name)
    } else {
        concat3(base, "/", name)
    }
}

/// The last dot of a file name, or -1.
pub open spec fn last_dot(name: Seq<char>, n: int) -> int
    decreases n,
{
    if n <= 0 {
        -1
    } else if name[n - 1] == '.' {
        n - 1
    } else {
        last_dot(name, n - 1)
    }
}

/// What follows the last dot of a file name; a name that only starts with a dot has no
/// extension.
pub open spec fn extension(name: Seq<char>) -> Seq<char> {
    let d = last_dot(name, name.len() as int);
    if d <= 0 || name == ".."@ {
        Seq::empty()
    } else {
        name.subrange(d + 1, name.len() as int)
    }
}

/// What stands before the extension of a file name.
pub open spec fn stem(name: Seq<char>) -> Seq<char> {
    let d = last_dot(name, name.len() as int);
    if d <= 0 || name == ".."@ {
        name
    } else {
        name.subrange(0, d)
    }
}

/// What follows the last dot of a file name.
pub fn extension_of(name: &str) -> (r: String)
    ensures
        r@ == extension(name@),
{
    let v = chars_of(name);
    let mut d: usize = v.len();
    while d > 0 && v[d - 1] != '.'
        invariant
            d <= v@.len(),
            last_dot(v@, v@.len() as int) == last_dot(v@, d as int),
        decreases d,
    {
        d = d - 1;
    }
    proof {
        reveal_strlit("");
    }
    if d <= 1 || str_eq(name, "..") {
        let r = "".to_owned();
        assert(r@ =~= Seq::<char>::empty());
        return r;
    }
    substring(&v, d, v.len())
}

/// What stands before the extension of a file name.
pub fn stem_of(name: &str) -> (r: String)
    ensures
        r@ == stem(name@),
{
    let v = chars_of(name);
    let mut d: usize = v.len();
    while d > 0 && v[d - 1] != '.'
        invariant
            d <= v@.len(),
            last_dot(v@, v@.len() as int) == last_dot(v@, d as int),
        decreases d,
    {
        d = d - 1;
    }
    if d <= 1 || str_eq(name, "..") {
        return name.to_owned();
    }
    substring(&v, 0, d - 1)
}

/// The model directory: what `HYVERK_MODEL_DIR` says, else the default.
pub open spec fn model_dir_spec(env: Option<&str>) -> Seq<char> {
    match env {
        Some(d) => d@,
        None => "/data/model"@,
    }
}

/// The model directory: what `HYVERK_MODEL_DIR` says, else `/data/model`.
pub fn model_dir(env: Option<&str>) -> (r: String)
    ensures
        r@ == model_dir_spec(env),
{
    match env {
        Some(d) => d.to_owned(),
        None => "/data/model".to_owned(),
    }
}

/// A file of the model.
pub fn model_file(env: Option<&str>, name: &str) -> (r: String)
    ensures
        r@ == path_join(model_dir_spec(env), name@),
{
    let dir = model_dir(env);
    join(dir.as_str(), name)
}

/// Where a tokenizer may lie, best first.
pub open spec fn tokenizer_candidates_spec(tokenizer: Option<&str>, dir: Option<&str>) -> Seq<
    Seq<char>,
> {
    let rest = seq![
        path_join(model_dir_spec(dir), "tokenizer.json"@),
        "/data/tokenizer.json"@,
        "/app/tokenizer.json"@,
    ];
    match tokenizer {
        Some(p) => seq![p@] + rest,
        None => rest,
    }
}

/// Tokenizer search order: `HYVERK_TOKENIZER`, the model directory, the legacy places.
pub fn tokenizer_candidates(tokenizer: Option<&str>, dir: Option<&str>) -> (r: Vec<String>)
    ensures
        texts(r@) == tokenizer_candidates_spec(tokenizer, dir),
{
    let mut r: Vec<String> = Vec::new();
    if let Some(p) = tokenizer {
        r.push(p.to_owned());
    }
    r.push(model_file(dir, "tokenizer.json"));
    r.push("/data/tokenizer.json".to_owned());
    r.push("/app/tokenizer.json".to_owned());
    assert(texts(r@) =~= tokenizer_candidates_spec(tokenizer, dir));
    r
}

/// Whether this is the first candidate that exists.
pub open spec fn is_first_existing(
    candidates: Seq<String>,
    exists: Seq<bool>,
    r: Option<String>,
) -> bool {
    let k = first_index(exists, |b: bool| b);
    match r {
        Some(p) => 0 <= k < exists.len() && p == candidates[k],
        None => k == exists.len(),
    }
}

/// The first candidate that exists. `exists` tells of each candidate whether it does.
pub fn first_existing(candidates: &Vec<String>, exists: &Vec<bool>) -> (r: Option<String>)
    requires
        candidates@.len() == exists@.len(),
    ensures
        is_first_existing(candidates@, exists@, r),
{
    let ghost p = |b: bool| b;
    let mut i: usize = 0;
    while i < exists.len()
        invariant
            i <= exists@.len(),
            candidates@.len() == exists@.len(),
            p == (|b: bool| b),
            forall|j: int| 0 <= j < i ==> !p(#[trigger] exists@[j]),
        decreases exists@.len() - i,
    {
        if exists[i] {
            proof {
                lemma_first_index_is(exists@, p, i as int);
            }
            return Some(candidates[i].clone());
        }
        i = i + 1;
    }
    proof {
        lemma_first_index_is(exists@, p, i as int);
    }
    None
}

/// The first candidate that is a file. `is_file` tells of each candidate whether it is one.
pub fn first_existing_tokenizer(candidates: &Vec<String>, is_file: &Vec<bool>) -> (r: Option<
    String,
>)
    requires
        candidates@.len() == is_file@.len(),
    ensures
        is_first_existing(candidates@, is_file@, r),
{
    first_existing(candidates, is_file)
}

/// Where the tokenizer lies that nodes can download, best first.
pub fn served_tokenizers() -> (r: Vec<String>)
    ensures
        texts(r@) == seq![
            "/app/tokenizer.json"@,
            "/data/tokenizer.json"@,
            "/root/.hyverk/qwen2.5-7b/tokenizer.json"@,
        ],
{
    let r = vec![
        "/app/tokenizer.json".to_owned(),
        "/data/tokenizer.json".to_owned(),
        "/root/.hyverk/qwen2.5-7b/tokenizer.json".to_owned(),
    ];
    assert(texts(r@) =~= seq![
        "/app/tokenizer.json"@,
        "/data/tokenizer.json"@,
        "/root/.hyverk/qwen2.5-7b/tokenizer.json"@,
    ]);
    r
}

/// The files in which the coordinator keeps its data.
#[derive(Debug)]
pub struct DataPaths {
    pub dir: String,
    pub dataset_db: String,
    pub training_db: String,
    pub rag_db: String,
}

/// The data directory: what `HYVERK_DATA_DIR` says, else a directory in the home directory.
pub open spec fn data_dir_spec(env: Option<&str>, home: Option<&str>) -> Seq<char> {
    match env {
        Some(d) => d@,
        None => path_join(
            match home {
                Some(h) => h@,
                None => "/tmp"@,
            },
            ".hyverk"@,
        ),
    }
}

/// Where the coordinator keeps its data.
pub fn data_paths(env: Option<&str>, home: Option<&str>) -> (r: DataPaths)
    ensures
        r.dir@ == data_dir_spec(env, home),
        r.dataset_db@ == path_join(r.dir@, "dataset.db"@),
        r.training_db@ == path_join(r.dir@, "training.db"@),
        r.rag_db@ == path_join(r.dir@, "rag.db"@),
{
    let dir = match env {
        Some(d) => d.to_owned(),
        None => join(
            match home {
                Some(h) => h,
                None => "/tmp",
            },
            ".hyverk",
        ),
    };
    DataPaths {
        dataset_db: join(dir.as_str(), "dataset.db"),
        training_db: join(dir.as_str(), "training.db"),
        rag_db: join(dir.as_str(), "rag.db"),
        dir,
    }
}

/// The tokenizer that is found comes from the candidates, and every better one is missing.
pub proof fn law_best_tokenizer_wins(is_file: Seq<bool>, k: int)
    requires
        0 <= k < is_file.len(),
        k == first_index(is_file, |b: bool| b),
    ensures
        is_file[k],
        forall|j: int| 0 <= j < k ==> !#[trigger] is_file[j],
{
    crate::seqs::lemma_index_from(is_file, |b: bool| b, 0);
}

/// What is found is a candidate that exists, and every one before it is missing; nothing is
/// found only where all are.
pub proof fn law_first_existing_is_found(
    candidates: Seq<String>,
    exists: Seq<bool>,
    r: Option<String>,
    k: int,
)
    requires
        candidates.len() == exists.len(),
        is_first_existing(candidates, exists, r),
    ensures
        0 <= k < exists.len() && exists[k] && (forall|j: int|
            0 <= j < k ==> !#[trigger] exists[j]) ==> r == Some(candidates[k]),
        (forall|j: int| 0 <= j < exists.len() ==> !#[trigger] exists[j]) ==> r is None,
{
    if 0 <= k < exists.len() && exists[k] && (forall|j: int|
        0 <= j < k ==> !#[trigger] exists[j]) {
        lemma_first_index_is(exists, |b: bool| b, k);
    }
    if forall|j: int| 0 <= j < exists.len() ==> !#[trigger] exists[j] {
        lemma_first_index_is(exists, |b: bool| b, exists.len() as int);
    }
}

proof fn lemma_last_dot(a: Seq<char>, e: Seq<char>, n: int)
    requires
        !e.contains('.'),
        a.len() < n <= a.len() + 1 + e.len(),
    ensures
        last_dot(a + seq!['.'] + e, n) == a.len(),
    decreases n,
{
    let s = a + seq!['.'] + e;
    if n > a.len() + 1 {
        assert(s[n - 1] == e[n - 2 - a.len()]);
        assert(e.contains(e[n - 2 - a.len()]));
        lemma_last_dot(a, e, n - 1);
    }
}

/// A file name is its stem, a dot and its extension, where the extension holds no dot.
pub proof fn law_name_is_stem_and_extension(a: Seq<char>, e: Seq<char>)
    requires
        a.len() > 0,
        !e.contains('.'),
        a.len() + e.len() > 1,
    ensures
        extension(a + seq!['.'] + e) == e,
        stem(a + seq!['.'] + e) == a,
{
    let s = a + seq!['.'] + e;
    lemma_last_dot(a, e, s.len() as int);
    reveal_strlit("..");
    assert(s.subrange((a.len() + 1) as int, s.len() as int) =~= e);
    assert(s.subrange(0, a.len() as int) =~= a);
}

/// A relative path goes below its base, with one separator between them; an absolute one stands
/// for itself.
pub proof fn law_path_goes_below_its_base(base: Seq<char>, name: Seq<char>)
    ensures
        name.len() > 0 && name[0] == '/' ==> path_join(base, name) == name,
        base.len() > 0 && base.last() != '/' && (name.len() == 0 || name[0] != '/') ==> path_join(
            base,
            name,
        ) == base + seq!['/'] + name,
        name.len() == 0 || name[0] != '/' ==> path_join(base + seq!['/'], name) == base + seq![
            '/',
        ] + name,
{
    reveal_strlit("/");
    assert("/"@ =~= seq!['/']);
    if name.len() > 0 {
        assert(name.subrange(0, 1) =~= seq![name[0]]);
        assert(seq![name[0]][0] == name[0]);
    }
    if base.len() > 0 {
        assert(base.subrange(base.len() - 1, base.len() as int) =~= seq![base.last()]);
        assert(seq![base.last()][0] == base.last());
    }
    let b = base + seq!['/'];
    assert(b.subrange(b.len() - 1, b.len() as int) =~= seq!['/']);
}

/// A tokenizer that is named is looked for first, then the one in the model's directory.
pub proof fn law_named_tokenizer_comes_first(tokenizer: &str, dir: &str)
    ensures
        ({
            let named = tokenizer_candidates_spec(Some(tokenizer), Some(dir));
            let others = tokenizer_candidates_spec(None, Some(dir));
            &&& named[0] == tokenizer@
            &&& named.subrange(1, named.len() as int) == others
            &&& others[0] == path_join(dir@, "tokenizer.json"@)
            &&& others.len() == 3
        }),
{
    let named = tokenizer_candidates_spec(Some(tokenizer), Some(dir));
    let others = tokenizer_candidates_spec(None, Some(dir));
    assert(named.subrange(1, named.len() as int) =~= others);
}

/// A data directory that is named is used, and otherwise one below the home directory.
pub proof fn law_named_data_directory_is_used(dir: &str, home: &str)
    ensures
        data_dir_spec(Some(dir), Some(home)) == dir@,
        data_dir_spec(Some(dir), None) == dir@,
        data_dir_spec(None, Some(home)) == path_join(home@, ".hyverk"@),
        model_dir_spec(Some(dir)) == dir@,
{
}

} // verus!
