//! Reading JSON texts.
//!
//! A JSON value travels as its text. What a text holds is `serde_json`'s business: each
//! function here that asks it gives the answer a name, and a text that is no JSON holds
//! nothing.
use crate::text::str_eq;
use vstd::prelude::*;

verus! {

use crate::seqs::{first_index, lemma_first_index_is};
use crate::text::texts;

/// The members of the object that a text holds: keys with the texts of their values.
pub uninterp spec fn json_members(text: Seq<char>) -> Option<Seq<(Seq<char>, Seq<char>)>>;

/// The items of the array that a text holds.
pub uninterp spec fn json_items(text: Seq<char>) -> Option<Seq<Seq<char>>>;

/// The string that a text holds.
pub uninterp spec fn json_string(text: Seq<char>) -> Option<Seq<char>>;

/// The number that a text holds, where it is an integer from 0 to `u64::MAX`.
pub uninterp spec fn json_number(text: Seq<char>) -> Option<u64>;

/// The number that a text holds, where it is an integer of `i64`.
pub uninterp spec fn json_signed(text: Seq<char>) -> Option<i64>;

/// The truth value that a text holds.
pub uninterp spec fn json_truth(text: Seq<char>) -> Option<bool>;

/// What is wrong with a text that is not JSON, in words.
pub uninterp spec fn json_error(text: Seq<char>) -> Option<Seq<char>>;

/// The numbers that a text holds, where it is an array of integers from 0 to `u64::MAX`; what is
/// wrong with any other text, in words.
pub uninterp spec fn json_number_list(text: Seq<char>) -> Result<Seq<u64>, Seq<char>>;

/// Whether a text is JSON.
pub open spec fn json_valid(text: Seq<char>) -> bool {
    json_error(text) is None
}

/// The views of keys and values.
pub open spec fn pairs(v: Seq<(String, String)>) -> Seq<(Seq<char>, Seq<char>)> {
    v.map_values(|e: (String, String)| (e.0@, e.1@))
}

/// `serde_json::from_str` and `Value::as_object`: the keys of an object with the texts of their
/// values.
#[verifier::external_body]
pub(crate) fn members(text: &str) -> (r: Option<Vec<(String, String)>>)
    ensures
        match r {
            Some(v) => json_members(text@) == Some(pairs(v@)),
            None => json_members(text@) is None,
        },
{
    let value = serde_json::from_str::<serde_json::Value>(text).ok()?;
    let object = value.as_object()?;
    Some(object.iter().map(|(k, v)| (k.clone(), v.to_string())).collect())
}

/// `serde_json::from_str` and `Value::as_array`: the texts of the items of an array.
#[verifier::external_body]
pub(crate) fn items(text: &str) -> (r: Option<Vec<String>>)
    ensures
        match r {
            Some(v) => json_items(text@) == Some(texts(v@)),
            None => json_items(text@) is None,
        },
{
    let value = serde_json::from_str::<serde_json::Value>(text).ok()?;
    let array = value.as_array()?;
    Some(array.iter().map(|v| v.to_string()).collect())
}

/// `serde_json::from_str` and `Value::as_str`: the string, without quotes and escapes.
#[verifier::external_body]
pub(crate) fn string(text: &str) -> (r: Option<String>)
    ensures
        match r {
            Some(s) => json_string(text@) == Some(s@),
            None => json_string(text@) is None,
        },
{
    let value = serde_json::from_str::<serde_json::Value>(text).ok()?;
    value.as_str().map(|s| s.to_string())
}

/// `serde_json::from_str` and `Value::as_u64`: the number, where it is an integer from 0 to
/// `u64::MAX`.
#[verifier::external_body]
pub(crate) fn number(text: &str) -> (r: Option<u64>)
    ensures
        r == json_number(text@),
{
    serde_json::from_str::<serde_json::Value>(text).ok()?.as_u64()
}

/// `serde_json::from_str` and `Value::as_i64`: the number, where it is an integer of `i64`.
#[verifier::external_body]
pub(crate) fn signed(text: &str) -> (r: Option<i64>)
    ensures
        r == json_signed(text@),
{
    serde_json::from_str::<serde_json::Value>(text).ok()?.as_i64()
}

/// `serde_json::from_str` and `Value::as_bool`: the truth value.
#[verifier::external_body]
pub(crate) fn truth(text: &str) -> (r: Option<bool>)
    ensures
        r == json_truth(text@),
{
    serde_json::from_str::<serde_json::Value>(text).ok()?.as_bool()
}

/// `serde_json::from_str`: the error in words, none for a text that is JSON.
#[verifier::external_body]
pub(crate) fn error(text: &str) -> (r: Option<String>)
    ensures
        match r {
            Some(e) => json_error(text@) == Some(e@),
            None => json_error(text@) is None,
        },
{
    serde_json::from_str::<serde_json::Value>(text).err().map(|e| e.to_string())
}

/// `serde_json::from_str` to a `Vec<u64>`: the numbers of an array, or the error in words.
#[verifier::external_body]
pub(crate) fn number_list(text: &str) -> (r: Result<Vec<u64>, String>)
    ensures
        match r {
            Ok(v) => json_number_list(text@) == Ok::<Seq<u64>, Seq<char>>(v@),
            Err(e) => json_number_list(text@) == Err::<Seq<u64>, Seq<char>>(e@),
        },
{
    serde_json::from_str::<Vec<u64>>(text).map_err(|e| e.to_string())
}

/// Whether a text is JSON.
pub fn valid(text: &str) -> (r: bool)
    ensures
        r == json_valid(text@),
{
    error(text).is_none()
}

// ── Members ──────────────────────────────────────────────────────────────────

/// The value of a key among the members of an object.
pub open spec fn member_of(m: Seq<(Seq<char>, Seq<char>)>, key: Seq<char>) -> Option<Seq<char>> {
    let k = first_index(m, |e: (Seq<char>, Seq<char>)| e.0 == key);
    if k < m.len() {
        Some(m[k].1)
    } else {
        None
    }
}

/// The text of the value that a text holds under a key.
pub open spec fn json_get(text: Seq<char>, key: Seq<char>) -> Option<Seq<char>> {
    match json_members(text) {
        Some(m) => member_of(m, key),
        None => None,
    }
}

/// The string under a key.
pub open spec fn string_at(text: Seq<char>, key: Seq<char>) -> Option<Seq<char>> {
    match json_get(text, key) {
        Some(v) => json_string(v),
        None => None,
    }
}

/// The string under a key, or a default.
pub open spec fn string_or(text: Seq<char>, key: Seq<char>, default: Seq<char>) -> Seq<char> {
    match string_at(text, key) {
        Some(s) => s,
        None => default,
    }
}

/// The number under a key.
pub open spec fn number_at(text: Seq<char>, key: Seq<char>) -> Option<u64> {
    match json_get(text, key) {
        Some(v) => json_number(v),
        None => None,
    }
}

/// The number under a key, or a default.
pub open spec fn number_or(text: Seq<char>, key: Seq<char>, default: u64) -> u64 {
    match number_at(text, key) {
        Some(n) => n,
        None => default,
    }
}

/// The truth value under a key, or false.
pub open spec fn is_true(text: Seq<char>, key: Seq<char>) -> bool {
    match json_get(text, key) {
        Some(v) => json_truth(v) == Some(true),
        None => false,
    }
}

/// The strings among texts, in order; what holds no string is left out.
pub open spec fn strings_in(v: Seq<Seq<char>>) -> Seq<Seq<char>>
    decreases v.len(),
{
    if v.len() == 0 {
        Seq::empty()
    } else {
        match json_string(v.last()) {
            Some(s) => strings_in(v.drop_last()).push(s),
            None => strings_in(v.drop_last()),
        }
    }
}

/// The strings of the array under a key; none if there is no array.
pub open spec fn strings_at(text: Seq<char>, key: Seq<char>) -> Seq<Seq<char>> {
    match json_get(text, key) {
        Some(v) => match json_items(v) {
            Some(items) => strings_in(items),
            None => Seq::empty(),
        },
        None => Seq::empty(),
    }
}

/// The value of a key among members.
pub fn find_member(m: &Vec<(String, String)>, key: &str) -> (r: Option<String>)
    ensures
        match r {
            Some(v) => member_of(pairs(m@), key@) == Some(v@),
            None => member_of(pairs(m@), key@) is None,
        },
{
    let ghost all = pairs(m@);
    let ghost p = |e: (Seq<char>, Seq<char>)| e.0 == key@;
    let mut k: usize = 0;
    while k < m.len()
        invariant
            k <= m@.len(),
            all == pairs(m@),
            p == (|e: (Seq<char>, Seq<char>)| e.0 == key@),
            forall|j: int| 0 <= j < k ==> !p(#[trigger] all[j]),
        decreases m@.len() - k,
    {
        assert(all[k as int] == (m@[k as int].0@, m@[k as int].1@));
        if str_eq(m[k].0.as_str(), key) {
            proof {
                lemma_first_index_is(all, p, k as int);
            }
            return Some(m[k].1.clone());
        }
        k = k + 1;
    }
    proof {
        lemma_first_index_is(all, p, k as int);
    }
    None
}

/// The text of the value under a key.
pub fn get(text: &str, key: &str) -> (r: Option<String>)
    ensures
        match r {
            Some(v) => json_get(text@, key@) == Some(v@),
            None => json_get(text@, key@) is None,
        },
{
    match members(text) {
        Some(m) => find_member(&m, key),
        None => None,
    }
}

/// The string under a key.
pub fn get_string(text: &str, key: &str) -> (r: Option<String>)
    ensures
        match r {
            Some(s) => string_at(text@, key@) == Some(s@),
            None => string_at(text@, key@) is None,
        },
{
    match get(text, key) {
        Some(v) => string(v.as_str()),
        None => None,
    }
}

/// The string under a key, or a default.
pub fn get_string_or(text: &str, key: &str, default: &str) -> (r: String)
    ensures
        r@ == string_or(text@, key@, default@),
{
    match get_string(text, key) {
        Some(s) => s,
        None => default.to_owned(),
    }
}

/// The number under a key.
pub fn get_number(text: &str, key: &str) -> (r: Option<u64>)
    ensures
        r == number_at(text@, key@),
{
    match get(text, key) {
        Some(v) => number(v.as_str()),
        None => None,
    }
}

/// The number under a key, or a default.
pub fn get_number_or(text: &str, key: &str, default: u64) -> (r: u64)
    ensures
        r == number_or(text@, key@, default),
{
    match get_number(text, key) {
        Some(n) => n,
        None => default,
    }
}

/// Whether the key holds `true`.
pub fn get_true(text: &str, key: &str) -> (r: bool)
    ensures
        r == is_true(text@, key@),
{
    match get(text, key) {
        Some(v) => match truth(v.as_str()) {
            Some(b) => b,
            None => false,
        },
        None => false,
    }
}

/// The strings of the array under a key.
pub fn get_strings(text: &str, key: &str) -> (r: Vec<String>)
    ensures
        texts(r@) == strings_at(text@, key@),
{
    let mut r: Vec<String> = Vec::new();
    assert(texts(r@) == Seq::<Seq<char>>::empty());
    match get(text, key) {
        None => r,
        Some(v) => match items(v.as_str()) {
            None => r,
            Some(list) => {
                let ghost all = texts(list@);
                let mut i: usize = 0;
                assert(strings_in(all.subrange(0, 0)) == Seq::<Seq<char>>::empty());
                while i < list.len()
                    invariant
                        i <= list@.len(),
                        all == texts(list@),
                        texts(r@) == strings_in(all.subrange(0, i as int)),
                    decreases list@.len() - i,
                {
                    proof {
                        let next = all.subrange(0, i + 1);
                        assert(next.drop_last() == all.subrange(0, i as int));
                        assert(next.last() == list@[i as int]@);
                    }
                    let ghost before = r@;
                    if let Some(s) = string(list[i].as_str()) {
                        r.push(s);
                        assert(texts(r@) == texts(before).push(s@));
                    }
                    i = i + 1;
                }
                assert(all.subrange(0, all.len() as int) == all);
                r
            },
        },
    }
}

/// The items of an array of numbers, if all of them are `u64`s.
pub open spec fn numbers_of(text: Seq<char>) -> Option<Seq<u64>> {
    match json_items(text) {
        None => None,
        Some(v) => if forall|i: int| 0 <= i < v.len() ==> json_number(#[trigger] v[i]) is Some {
            Some(v.map_values(|t: Seq<char>| json_number(t)->0))
        } else {
            None
        },
    }
}

/// The array of numbers that a text holds.
pub fn get_numbers(text: &str) -> (r: Option<Vec<u64>>)
    ensures
        match r {
            Some(v) => numbers_of(text@) == Some(v@),
            None => numbers_of(text@) is None,
        },
{
    match items(text) {
        None => None,
        Some(list) => {
            let ghost all = texts(list@);
            let ghost f = |t: Seq<char>| json_number(t)->0;
            let mut r: Vec<u64> = Vec::new();
            let mut i: usize = 0;
            while i < list.len()
                invariant
                    i <= list@.len(),
                    all == texts(list@),
                    f == (|t: Seq<char>| json_number(t)->0),
                    json_items(text@) == Some(all),
                    r@ == all.subrange(0, i as int).map_values(f),
                    forall|j: int| 0 <= j < i ==> json_number(#[trigger] all[j]) is Some,
                decreases list@.len() - i,
            {
                assert(all[i as int] == list@[i as int]@);
                match number(list[i].as_str()) {
                    Some(n) => {
                        r.push(n);
                    },
                    None => {
                        return None;
                    },
                }
                i = i + 1;
                assert(all.subrange(0, i as int).map_values(f) == all.subrange(
                    0,
                    i - 1,
                ).map_values(f).push(f(all[i - 1])));
            }
            assert(all.subrange(0, all.len() as int) == all);
            Some(r)
        },
    }
}

/// The numbers among texts, in order; what holds no `u64` is left out.
pub open spec fn numbers_in(v: Seq<Seq<char>>) -> Seq<u64>
    decreases v.len(),
{
    if v.len() == 0 {
        Seq::empty()
    } else {
        match json_number(v.last()) {
            Some(n) => numbers_in(v.drop_last()).push(n),
            None => numbers_in(v.drop_last()),
        }
    }
}

/// The numbers of the array under a key; none if there is no array.
pub open spec fn numbers_at(text: Seq<char>, key: Seq<char>) -> Seq<u64> {
    match json_get(text, key) {
        Some(v) => match json_items(v) {
            Some(items) => numbers_in(items),
            None => Seq::empty(),
        },
        None => Seq::empty(),
    }
}

/// The numbers of the array under a key.
pub fn get_number_list(text: &str, key: &str) -> (r: Vec<u64>)
    ensures
        r@ == numbers_at(text@, key@),
{
    let mut r: Vec<u64> = Vec::new();
    match get(text, key) {
        None => r,
        Some(v) => match items(v.as_str()) {
            None => r,
            Some(list) => {
                let ghost all = texts(list@);
                let mut i: usize = 0;
                assert(numbers_in(all.subrange(0, 0)) == Seq::<u64>::empty());
                while i < list.len()
                    invariant
                        i <= list@.len(),
                        all == texts(list@),
                        r@ == numbers_in(all.subrange(0, i as int)),
                    decreases list@.len() - i,
                {
                    proof {
                        let next = all.subrange(0, i + 1);
                        assert(next.drop_last() == all.subrange(0, i as int));
                        assert(next.last() == list@[i as int]@);
                    }
                    if let Some(n) = number(list[i].as_str()) {
                        r.push(n);
                    }
                    i = i + 1;
                }
                assert(all.subrange(0, all.len() as int) == all);
                r
            },
        },
    }
}

/// The text of item `i` of the array that a text holds.
pub open spec fn json_item(text: Seq<char>, i: int) -> Option<Seq<char>> {
    match json_items(text) {
        Some(v) => if 0 <= i < v.len() {
            Some(v[i])
        } else {
            None
        },
        None => None,
    }
}

/// The text of an item of the array that a text holds.
pub fn item(text: &str, i: usize) -> (r: Option<String>)
    ensures
        match r {
            Some(v) => json_item(text@, i as int) == Some(v@),
            None => json_item(text@, i as int) is None,
        },
{
    match items(text) {
        Some(v) => {
            assert(texts(v@).len() == v@.len());
            if i < v.len() {
                assert(texts(v@)[i as int] == v@[i as int]@);
                Some(v[i].clone())
            } else {
                None
            }
        },
        None => None,
    }
}

// ── Laws ─────────────────────────────────────────────────────────────────────

/// A key that an object holds once has the value that stands beside it; one that it does not
/// hold has none.
pub proof fn law_key_has_its_value(
    text: Seq<char>,
    m: Seq<(Seq<char>, Seq<char>)>,
    key: Seq<char>,
    i: int,
)
    requires
        json_members(text) == Some(m),
        forall|j: int| 0 <= j < m.len() && j != i ==> (#[trigger] m[j]).0 != key,
    ensures
        0 <= i < m.len() && m[i].0 == key ==> json_get(text, key) == Some(m[i].1),
        !(0 <= i < m.len() && m[i].0 == key) ==> json_get(text, key) is None,
{
    let found = 0 <= i < m.len() && m[i].0 == key;
    assert forall|p: spec_fn((Seq<char>, Seq<char>)) -> bool|
        (forall|e: (Seq<char>, Seq<char>)| #[trigger] p(e) == (e.0 == key)) implies (
    #[trigger] first_index(m, p)) == if found {
        i
    } else {
        m.len() as int
    } by {
        lemma_first_index_is(
            m,
            p,
            if found {
                i
            } else {
                m.len() as int
            },
        );
    }
}

/// The strings among two lists of texts are those of the first and then those of the second.
pub proof fn law_strings_of_joined_lists(a: Seq<Seq<char>>, b: Seq<Seq<char>>)
    ensures
        strings_in(a + b) == strings_in(a) + strings_in(b),
    decreases b.len(),
{
    if b.len() > 0 {
        law_strings_of_joined_lists(a, b.drop_last());
        assert((a + b).drop_last() =~= a + b.drop_last());
        assert((a + b).last() == b.last());
        if json_string(b.last()) is Some {
            let x = json_string(b.last())->0;
            assert(strings_in(a) + strings_in(b.drop_last()).push(x) =~= (strings_in(a) + strings_in(
                b.drop_last(),
            )).push(x));
        }
    } else {
        assert(a + b =~= a);
        assert(strings_in(a) + strings_in(b) =~= strings_in(a));
    }
}

/// Where every text holds a string, all of them come out, each in its place.
pub proof fn law_all_strings_come_out(v: Seq<Seq<char>>)
    requires
        forall|i: int| 0 <= i < v.len() ==> json_string(#[trigger] v[i]) is Some,
    ensures
        strings_in(v).len() == v.len(),
        forall|i: int| 0 <= i < v.len() ==> json_string(v[i]) == Some(#[trigger] strings_in(v)[i]),
    decreases v.len(),
{
    if v.len() > 0 {
        let init = v.drop_last();
        assert forall|i: int| 0 <= i < init.len() implies json_string(#[trigger] init[i]) is Some by {
            assert(init[i] == v[i]);
        }
        law_all_strings_come_out(init);
        assert(json_string(v[v.len() - 1]) is Some);
        assert forall|i: int| 0 <= i < v.len() implies json_string(v[i]) == Some(
            #[trigger] strings_in(v)[i],
        ) by {
            if i < init.len() {
                assert(init[i] == v[i]);
                assert(strings_in(init)[i] == strings_in(v)[i]);
            }
        }
    }
}

/// The numbers among two lists of texts are those of the first and then those of the second.
pub proof fn law_numbers_of_joined_lists(a: Seq<Seq<char>>, b: Seq<Seq<char>>)
    ensures
        numbers_in(a + b) == numbers_in(a) + numbers_in(b),
    decreases b.len(),
{
    if b.len() > 0 {
        law_numbers_of_joined_lists(a, b.drop_last());
        assert((a + b).drop_last() =~= a + b.drop_last());
        assert((a + b).last() == b.last());
        if json_number(b.last()) is Some {
            let x = json_number(b.last())->0;
            assert(numbers_in(a) + numbers_in(b.drop_last()).push(x) =~= (numbers_in(a) + numbers_in(
                b.drop_last(),
            )).push(x));
        }
    } else {
        assert(a + b =~= a);
        assert(numbers_in(a) + numbers_in(b) =~= numbers_in(a));
    }
}

/// Where every text holds a number, all of them come out, each in its place.
pub proof fn law_all_numbers_come_out(v: Seq<Seq<char>>)
    requires
        forall|i: int| 0 <= i < v.len() ==> json_number(#[trigger] v[i]) is Some,
    ensures
        numbers_in(v).len() == v.len(),
        forall|i: int| 0 <= i < v.len() ==> json_number(v[i]) == Some(#[trigger] numbers_in(v)[i]),
    decreases v.len(),
{
    if v.len() > 0 {
        let init = v.drop_last();
        assert forall|i: int| 0 <= i < init.len() implies json_number(#[trigger] init[i]) is Some by {
            assert(init[i] == v[i]);
        }
        law_all_numbers_come_out(init);
        assert(json_number(v[v.len() - 1]) is Some);
        assert forall|i: int| 0 <= i < v.len() implies json_number(v[i]) == Some(
            #[trigger] numbers_in(v)[i],
        ) by {
            if i < init.len() {
                assert(init[i] == v[i]);
                assert(numbers_in(init)[i] == numbers_in(v)[i]);
            }
        }
    }
}

/// An array of numbers is read item by item.
pub proof fn law_numbers_are_the_items(text: Seq<char>, v: Seq<Seq<char>>, r: Seq<u64>)
    requires
        json_items(text) == Some(v),
        numbers_of(text) == Some(r),
    ensures
        r.len() == v.len(),
        forall|i: int| 0 <= i < v.len() ==> json_number(v[i]) == Some(#[trigger] r[i]),
{
    assert forall|i: int| 0 <= i < v.len() implies json_number(v[i]) == Some(#[trigger] r[i]) by {
        assert(json_number(v[i]) is Some);
    }
}

/// What an object states under a key that it holds once is read: a string, a number, a truth
/// value or the strings of an array. What it does not state is replaced by the default.
pub proof fn law_stated_value_is_read(
    text: Seq<char>,
    m: Seq<(Seq<char>, Seq<char>)>,
    key: Seq<char>,
    i: int,
    default: Seq<char>,
    number: u64,
)
    requires
        json_members(text) == Some(m),
        forall|j: int| 0 <= j < m.len() && j != i ==> (#[trigger] m[j]).0 != key,
    ensures
        0 <= i < m.len() && m[i].0 == key ==> {
            &&& string_at(text, key) == json_string(m[i].1)
            &&& json_string(m[i].1) is Some ==> string_or(text, key, default) == json_string(
                m[i].1,
            )->0
            &&& json_number(m[i].1) is Some ==> number_or(text, key, number) == json_number(
                m[i].1,
            )->0 && number_at(text, key) == json_number(m[i].1)
            &&& is_true(text, key) == (json_truth(m[i].1) == Some(true))
            &&& json_items(m[i].1) is Some ==> strings_at(text, key) == strings_in(
                json_items(m[i].1)->0,
            ) && numbers_at(text, key) == numbers_in(json_items(m[i].1)->0)
        },
        !(0 <= i < m.len() && m[i].0 == key) ==> {
            &&& string_at(text, key) is None
            &&& string_or(text, key, default) == default
            &&& number_or(text, key, number) == number
            &&& !is_true(text, key)
            &&& strings_at(text, key).len() == 0
            &&& numbers_at(text, key).len() == 0
        },
{
    law_key_has_its_value(text, m, key, i);
}

} // verus!
