//! Which files hold a model's weights, and which adapters an average is taken of.
use crate::json;
use crate::text::{concat, str_eq};
use vstd::prelude::*;

verus! {

use crate::json::{json_error, json_get, json_members, json_string, pairs};
use crate::text::texts;

// ── Files ────────────────────────────────────────────────────────────────────

/// Why an index of weights is of no use.
#[derive(Debug)]
pub enum IndexError {
    /// It is no JSON.
    Unreadable(String),
    /// It has no map of weights.
    NoMap,
}

impl IndexError {
    /// The error in words.
    pub fn message(&self) -> (r: String)
        ensures
            r@ == match *self {
                IndexError::Unreadable(e) => "parse index: "@ + e@,
                IndexError::NoMap => "invalid index"@,
            },
    {
        match self {
            IndexError::Unreadable(e) => concat("parse index: ", e.as_str()),
            IndexError::NoMap => "invalid index".to_owned(),
        }
    }
}

/// The map from weights to files in an index.
pub open spec fn weight_map(index: Seq<char>) -> Option<Seq<(Seq<char>, Seq<char>)>> {
    match json_get(index, "weight_map"@) {
        Some(v) => json_members(v),
        None => None,
    }
}

/// The file that a value of the map names; what is no string names the empty file.
pub open spec fn file_name(value: Seq<char>) -> Seq<char> {
    match json_string(value) {
        Some(s) => s,
        None => ""@,
    }
}

/// The files that a map names, one for each weight.
pub open spec fn named_files(map: Seq<(Seq<char>, Seq<char>)>) -> Seq<Seq<char>> {
    map.map_values(|m: (Seq<char>, Seq<char>)| file_name(m.1))
}

/// Texts without those that occurred before.
pub open spec fn first_occurrences(s: Seq<Seq<char>>) -> Seq<Seq<char>>
    decreases s.len(),
{
    if s.len() == 0 {
        Seq::empty()
    } else if s.drop_last().contains(s.last()) {
        first_occurrences(s.drop_last())
    } else {
        first_occurrences(s.drop_last()).push(s.last())
    }
}

/// The first occurrences are the texts, each once.
proof fn lemma_first_occurrences(s: Seq<Seq<char>>)
    ensures
        first_occurrences(s).no_duplicates(),
        forall|t: Seq<char>| #[trigger] first_occurrences(s).contains(t) == s.contains(t),
    decreases s.len(),
{
    if s.len() > 0 {
        let rest = s.drop_last();
        lemma_first_occurrences(rest);
        let kept = first_occurrences(rest);
        assert(s =~= rest.push(s.last()));
        assert forall|t: Seq<char>| #[trigger] first_occurrences(s).contains(t) == s.contains(
            t,
        ) by {
            if s.contains(t) {
                let i = choose|i: int| 0 <= i < s.len() && s[i] == t;
                if i < rest.len() {
                    assert(rest[i] == t);
                    assert(kept.contains(t));
                    let k = choose|k: int| 0 <= k < kept.len() && kept[k] == t;
                    assert(first_occurrences(s)[k] == t);
                } else if rest.contains(t) {
                    assert(kept.contains(t));
                } else {
                    assert(first_occurrences(s)[kept.len() as int] == t);
                }
            }
            if first_occurrences(s).contains(t) {
                let k = choose|k: int|
                    0 <= k < first_occurrences(s).len() && first_occurrences(s)[k] == t;
                if k < kept.len() {
                    assert(kept[k] == t);
                    assert(kept.contains(t));
                    let i = choose|i: int| 0 <= i < rest.len() && rest[i] == t;
                    assert(s[i] == t);
                } else {
                    assert(s[s.len() - 1] == t);
                }
            }
        }
        if !rest.contains(s.last()) {
            assert(!kept.contains(s.last()));
            assert(first_occurrences(s).no_duplicates());
        }
    }
}

fn is_among(v: &Vec<String>, t: &str) -> (r: bool)
    ensures
        r == texts(v@).contains(t@),
{
    let mut i: usize = 0;
    while i < v.len()
        invariant
            i <= v@.len(),
            forall|k: int| 0 <= k < i ==> (#[trigger] v@[k])@ != t@,
        decreases v@.len() - i,
    {
        if str_eq(v[i].as_str(), t) {
            assert(texts(v@)[i as int] == t@);
            return true;
        }
        i = i + 1;
    }
    assert forall|k: int| 0 <= k < texts(v@).len() implies texts(v@)[k] != t@ by {
        assert(texts(v@)[k] == v@[k]@);
    }
    false
}

/// The files that an index of weights names, each once.
pub fn shard_files(index: &str) -> (r: Result<Vec<String>, IndexError>)
    ensures
        match json_error(index@) {
            Some(e) => r matches Err(IndexError::Unreadable(m)) && m@ == e,
            None => match weight_map(index@) {
                Some(map) => r is Ok && texts(r->Ok_0@) == first_occurrences(named_files(map)),
                None => r is Err && r->Err_0 is NoMap,
            },
        },
{
    if let Some(e) = json::error(index) {
        return Err(IndexError::Unreadable(e));
    }
    let members = match json::get(index, "weight_map") {
        Some(v) => json::members(v.as_str()),
        None => None,
    };
    let members = match members {
        Some(m) => m,
        None => {
            return Err(IndexError::NoMap);
        },
    };
    let ghost all = named_files(pairs(members@));
    let mut r: Vec<String> = Vec::new();
    let mut i: usize = 0;
    assert(texts(r@) =~= first_occurrences(all.subrange(0, 0)));
    while i < members.len()
        invariant
            i <= members@.len(),
            all == named_files(pairs(members@)),
            texts(r@) == first_occurrences(all.subrange(0, i as int)),
        decreases members@.len() - i,
    {
        let name = match json::string(members[i].1.as_str()) {
            Some(s) => s,
            None => "".to_owned(),
        };
        let ghost before = texts(r@);
        proof {
            let next = all.subrange(0, i + 1);
            assert(next.drop_last() =~= all.subrange(0, i as int));
            assert(next.last() == name@);
            lemma_first_occurrences(all.subrange(0, i as int));
        }
        if !is_among(&r, name.as_str()) {
            r.push(name);
            assert(texts(r@) =~= before.push(name@));
        }
        i = i + 1;
    }
    assert(all.subrange(0, all.len() as int) =~= all);
    Ok(r)
}

/// Every file that an index names is loaded, and none twice.
pub proof fn law_every_file_is_loaded_once(map: Seq<(Seq<char>, Seq<char>)>, file: Seq<char>)
    ensures
        first_occurrences(named_files(map)).no_duplicates(),
        first_occurrences(named_files(map)).contains(file) == named_files(map).contains(file),
{
    lemma_first_occurrences(named_files(map));
}

// ── Averages ─────────────────────────────────────────────────────────────────

/// A tensor of the average, and the adapters that hold it.
#[derive(Debug)]
pub struct AveragedTensor {
    pub key: String,
    pub holders: Vec<usize>,
}

/// The names of the tensors of adapters.
pub open spec fn key_texts(adapters: Seq<Vec<String>>) -> Seq<Seq<Seq<char>>> {
    adapters.map_values(|a: Vec<String>| texts(a@))
}

/// Whether these are, in order, the adapters that hold a tensor.
pub open spec fn are_holders(
    holders: Seq<usize>,
    adapters: Seq<Seq<Seq<char>>>,
    key: Seq<char>,
) -> bool {
    &&& forall|i: int, j: int| 0 <= i < j < holders.len() ==> holders[i] < holders[j]
    &&& forall|k: usize| #[trigger]
        holders.contains(k) == (k < adapters.len() && adapters[k as int].contains(key))
}

fn holders_of(adapters: &Vec<Vec<String>>, key: &str) -> (r: Vec<usize>)
    ensures
        are_holders(r@, key_texts(adapters@), key@),
{
    let ghost all = key_texts(adapters@);
    let mut r: Vec<usize> = Vec::new();
    let mut i: usize = 0;
    while i < adapters.len()
        invariant
            i <= adapters@.len(),
            all == key_texts(adapters@),
            forall|a: int| 0 <= a < r@.len() ==> #[trigger] r@[a] < i,
            forall|a: int, b: int| 0 <= a < b < r@.len() ==> r@[a] < r@[b],
            forall|k: usize| #[trigger]
                r@.contains(k) == (k < i && all[k as int].contains(key@)),
        decreases adapters@.len() - i,
    {
        let ghost before = r@;
        assert(all[i as int] == texts(adapters@[i as int]@));
        if is_among(&adapters[i], key) {
            r.push(i);
        }
        assert forall|k: usize| #[trigger] r@.contains(k) == (k < i + 1 && all[k as int].contains(
            key@,
        )) by {
            assert(before.contains(k) == (k < i && all[k as int].contains(key@)));
            if before.contains(k) {
                let a = choose|a: int| 0 <= a < before.len() && before[a] == k;
                assert(r@[a] == k);
            }
            if r@.contains(k) {
                let a = choose|a: int| 0 <= a < r@.len() && r@[a] == k;
                if a < before.len() {
                    assert(before[a] == k);
                }
            }
            if k == i && all[k as int].contains(key@) {
                assert(r@[before.len() as int] == k);
            }
        }
        i = i + 1;
    }
    r
}

/// Whether an average of adapters is made so: of the tensors of the first one, each with the
/// adapters that hold it.
pub open spec fn is_average(r: Seq<AveragedTensor>, adapters: Seq<Vec<String>>) -> bool {
    &&& r.len() == if adapters.len() == 0 {
        0
    } else {
        adapters[0]@.len()
    }
    &&& forall|i: int|
        0 <= i < r.len() ==> (#[trigger] r[i]).key@ == adapters[0]@[i]@ && are_holders(
            r[i].holders@,
            key_texts(adapters),
            r[i].key@,
        )
}

/// What an average of adapters is made of: the tensors of the first one, each with the adapters
/// that hold it. The sum over these is divided by the number of all adapters.
pub fn average_plan(adapters: &Vec<Vec<String>>) -> (r: Vec<AveragedTensor>)
    ensures
        is_average(r@, adapters@),
{
    let mut r: Vec<AveragedTensor> = Vec::new();
    if adapters.len() == 0 {
        return r;
    }
    let mut i: usize = 0;
    while i < adapters[0].len()
        invariant
            adapters@.len() > 0,
            i <= adapters@[0]@.len(),
            r@.len() == i,
            forall|k: int|
                0 <= k < i ==> (#[trigger] r@[k]).key@ == adapters@[0]@[k]@ && are_holders(
                    r@[k].holders@,
                    key_texts(adapters@),
                    r@[k].key@,
                ),
        decreases adapters@[0]@.len() - i,
    {
        let key = adapters[0][i].clone();
        let holders = holders_of(adapters, key.as_str());
        r.push(AveragedTensor { key, holders });
        i = i + 1;
    }
    r
}

/// Where adapters have the same tensors, every tensor is averaged over all of them.
pub proof fn law_same_tensors_are_averaged_over_all(
    adapters: Seq<Seq<Seq<char>>>,
    key: Seq<char>,
    holders: Seq<usize>,
    k: usize,
)
    requires
        are_holders(holders, adapters, key),
        adapters.len() > 0,
        adapters[0].contains(key),
        forall|i: int, t: Seq<char>|
            0 <= i < adapters.len() ==> #[trigger] adapters[i].contains(t) == adapters[0].contains(
                t,
            ),
    ensures
        holders.contains(k) == (k < adapters.len()),
{
    if k < adapters.len() {
        assert(adapters[k as int].contains(key));
    }
}

/// An average has every tensor of the first adapter, in order. An adapter goes into a tensor
/// exactly if it holds it, once, and the first one goes into every tensor before the others.
pub proof fn law_every_holder_is_averaged(
    r: Seq<AveragedTensor>,
    adapters: Seq<Vec<String>>,
    i: int,
    k: usize,
)
    requires
        is_average(r, adapters),
        adapters.len() > 0,
        0 <= i < adapters[0]@.len(),
    ensures
        r.len() == adapters[0]@.len(),
        r[i].key@ == adapters[0]@[i]@,
        r[i].holders@.contains(k) <==> k < adapters.len() && exists|j: int|
            0 <= j < adapters[k as int]@.len() && (#[trigger] adapters[k as int]@[j])@
                == adapters[0]@[i]@,
        r[i].holders@.len() > 0 && r[i].holders@[0] == 0,
        forall|a: int, b: int|
            0 <= a < b < r[i].holders@.len() ==> r[i].holders@[a] != r[i].holders@[b],
{
    let all = key_texts(adapters);
    let key = r[i].key@;
    let h = r[i].holders@;
    assert(h.contains(k) == (k < all.len() && all[k as int].contains(key)));
    if k < adapters.len() {
        assert(all[k as int] == texts(adapters[k as int]@));
        if all[k as int].contains(key) {
            let j = choose|j: int| 0 <= j < all[k as int].len() && all[k as int][j] == key;
            assert(adapters[k as int]@[j]@ == key);
        }
        if exists|j: int|
            0 <= j < adapters[k as int]@.len() && (#[trigger] adapters[k as int]@[j])@ == key {
            let j = choose|j: int|
                0 <= j < adapters[k as int]@.len() && (#[trigger] adapters[k as int]@[j])@ == key;
            assert(all[k as int][j] == key);
        }
    }
    assert(all[0][i] == key);
    assert(h.contains(0usize));
    let z = choose|z: int| 0 <= z < h.len() && h[z] == 0;
    if z > 0 {
        assert(h[0] < h[z]);
    }
}

} // verus!
