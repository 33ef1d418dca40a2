//! Text operations on character sequences.
use vstd::prelude::*;

verus! {

use vstd::string::{StringExecFns, StringSliceAdditionalSpecFns};
use vstd::utf8::{encode_utf8, is_ascii_chars};

/// `String::push`: the character is appended.
pub assume_specification[ String::push ](s: &mut String, c: char)
    ensures
        final(s)@ == old(s)@.push(c),
;

/// Whether two string slices hold the same characters (`str`'s `==`).
pub(crate) fn str_eq(a: &str, b: &str) -> (r: bool)
    ensures
        r == (a@ == b@),
{
    let v = chars_of(a);
    let w = chars_of(b);
    if v.len() != w.len() {
        return false;
    }
    let mut i: usize = 0;
    while i < v.len()
        invariant
            i <= v@.len(),
            v@.len() == w@.len(),
            v@ == a@,
            w@ == b@,
            v@.subrange(0, i as int) == w@.subrange(0, i as int),
        decreases v@.len() - i,
    {
        if v[i] != w[i] {
            assert(a@[i as int] != b@[i as int]);
            return false;
        }
        assert(v@.subrange(0, i + 1) =~= v@.subrange(0, i as int).push(v@[i as int]));
        assert(w@.subrange(0, i + 1) =~= w@.subrange(0, i as int).push(w@[i as int]));
        i = i + 1;
    }
    assert(v@.subrange(0, v@.len() as int) =~= v@);
    assert(w@.subrange(0, w@.len() as int) =~= w@);
    true
}

/// The characters of each string.
pub open spec fn texts(v: Seq<String>) -> Seq<Seq<char>> {
    v.map_values(|s: String| s@)
}

// ── Characters ───────────────────────────────────────────────────────────────

/// The characters with Unicode's White_Space property.
pub open spec fn is_space(c: char) -> bool {
    let u = c as u32;
    ||| 0x9 <= u <= 0xd
    ||| u == 0x20
    ||| u == 0x85
    ||| u == 0xa0
    ||| u == 0x1680
    ||| 0x2000 <= u <= 0x200a
    ||| u == 0x2028
    ||| u == 0x2029
    ||| u == 0x202f
    ||| u == 0x205f
    ||| u == 0x3000
}

/// Whether `c` is white space.
pub fn char_is_space(c: char) -> (r: bool)
    ensures
        r == is_space(c),
{
    let u: u32 = c as u32;
    (0x9 <= u && u <= 0xd) || u == 0x20 || u == 0x85 || u == 0xa0 || u == 0x1680 || (0x2000 <= u
        && u <= 0x200a) || u == 0x2028 || u == 0x2029 || u == 0x202f || u == 0x205f || u == 0x3000
}

/// Byte length of a character in UTF-8.
pub open spec fn utf8_len(c: char) -> nat {
    if (c as u32) < 0x80 {
        1
    } else if (c as u32) < 0x800 {
        2
    } else if (c as u32) < 0x10000 {
        3
    } else {
        4
    }
}

/// Byte length of a text in UTF-8.
pub open spec fn byte_len(s: Seq<char>) -> nat {
    encode_utf8(s).len()
}

/// Number of bytes of `s`.
pub fn len_bytes(s: &str) -> (n: usize)
    ensures
        n == byte_len(s@),
{
    s.as_bytes().len()
}

/// The lowercase form of an ASCII character.
pub open spec fn ascii_lower(c: char) -> char {
    if 65 <= c as u32 <= 90 {
        ((c as u32 + 32) as u32) as char
    } else {
        c
    }
}

/// The text that `str::to_lowercase` makes of a text.
pub uninterp spec fn lowercase(s: Seq<char>) -> Seq<char>;

/// `str::to_lowercase`: Unicode's lowercase form, which for ASCII text changes the letters
/// `A` to `Z` only.
#[verifier::external_body]
pub(crate) fn to_lowercase(s: &str) -> (r: String)
    ensures
        r@ == lowercase(s@),
        is_ascii_chars(s@) ==> r@ == s@.map_values(|c: char| ascii_lower(c)),
{
    s.to_lowercase()
}

// ── Conversions ──────────────────────────────────────────────────────────────

/// The characters of `s`.
pub fn chars_of(s: &str) -> (v: Vec<char>)
    ensures
        v@ == s@,
{
    let mut v: Vec<char> = Vec::new();
    for c in it: s.chars()
        invariant
            v@ == s@.subrange(0, it.index() as int),
            it.seq() == s@,
    {
        v.push(c);
    }
    assert(s@.subrange(0, s@.len() as int) == s@);
    v
}

/// The text of the characters `v[from..to]`.
pub fn substring(v: &Vec<char>, from: usize, to: usize) -> (s: String)
    requires
        from <= to <= v@.len(),
    ensures
        s@ == v@.subrange(from as int, to as int),
{
    let mut s = String::new();
    let mut i: usize = from;
    while i < to
        invariant
            from <= i <= to <= v@.len(),
            s@ == v@.subrange(from as int, i as int),
        decreases to - i,
    {
        s.push(v[i]);
        i = i + 1;
        assert(v@.subrange(from as int, i as int) == v@.subrange(from as int, i - 1).push(
            v@[i - 1],
        ));
    }
    s
}

/// The text of the characters `v`.
pub fn string_of(v: &Vec<char>) -> (s: String)
    ensures
        s@ == v@,
{
    let s = substring(v, 0, v.len());
    assert(v@.subrange(0, v@.len() as int) == v@);
    s
}

/// `a` followed by `b`.
pub fn concat(a: &str, b: &str) -> (s: String)
    ensures
        s@ == a@ + b@,
{
    let mut s = a.to_owned();
    s.append(b);
    s
}

/// `a`, `b` and `c` in a row.
pub fn concat3(a: &str, b: &str, c: &str) -> (s: String)
    ensures
        s@ == a@ + b@ + c@,
{
    let mut s = a.to_owned();
    s.append(b);
    s.append(c);
    s
}

// ── Prefixes, suffixes, occurrences ──────────────────────────────────────────

/// Whether `p` stands in `s` at position `i`.
pub open spec fn occurs_at(s: Seq<char>, p: Seq<char>, i: int) -> bool {
    0 <= i && i + p.len() <= s.len() && s.subrange(i, i + p.len()) == p
}

/// Whether `s` begins with `p`.
pub open spec fn starts_with(s: Seq<char>, p: Seq<char>) -> bool {
    occurs_at(s, p, 0)
}

/// Whether `s` ends in `p`.
pub open spec fn ends_with(s: Seq<char>, p: Seq<char>) -> bool {
    occurs_at(s, p, s.len() - p.len())
}

/// Whether `p` stands anywhere in `s`.
pub open spec fn contains(s: Seq<char>, p: Seq<char>) -> bool {
    exists|i: int| #[trigger] occurs_at(s, p, i)
}

/// The first position from `i` on at which `p` stands in `s`, or -1.
pub open spec fn find_from(s: Seq<char>, p: Seq<char>, i: int) -> int
    decreases s.len() + 1 - i,
{
    if i < 0 || i + p.len() > s.len() {
        -1
    } else if occurs_at(s, p, i) {
        i
    } else {
        find_from(s, p, i + 1)
    }
}

pub proof fn lemma_find_from(s: Seq<char>, p: Seq<char>, i: int)
    requires
        0 <= i,
    ensures
        find_from(s, p, i) >= 0 ==> find_from(s, p, i) >= i && occurs_at(
            s,
            p,
            find_from(s, p, i),
        ),
        forall|j: int|
            i <= j && #[trigger] occurs_at(s, p, j) ==> 0 <= find_from(s, p, i) <= j,
        find_from(s, p, i) >= -1,
    decreases s.len() + 1 - i,
{
    if i + p.len() <= s.len() && !occurs_at(s, p, i) {
        lemma_find_from(s, p, i + 1);
    }
}

fn matches_at(s: &Vec<char>, p: &Vec<char>, i: usize) -> (r: bool)
    requires
        i + p@.len() <= s@.len(),
    ensures
        r == occurs_at(s@, p@, i as int),
{
    let n: usize = s.len();
    let mut k: usize = 0;
    while k < p.len()
        invariant
            n == s@.len(),
            i + p@.len() <= s@.len(),
            k <= p@.len(),
            s@.subrange(i as int, i + k) == p@.subrange(0, k as int),
        decreases p@.len() - k,
    {
        if s[i + k] != p[k] {
            proof {
                assert(s@.subrange(i as int, i + p@.len())[k as int] == s@[i + k]);
            }
            return false;
        }
        proof {
            assert(s@.subrange(i as int, i + k + 1) == s@.subrange(i as int, i + k).push(
                s@[i + k],
            ));
            assert(p@.subrange(0, k + 1) == p@.subrange(0, k as int).push(p@[k as int]));
        }
        k = k + 1;
    }
    assert(p@.subrange(0, p@.len() as int) == p@);
    true
}

/// The first position from `from` on at which `p` stands in `s`.
pub fn find_chars(s: &Vec<char>, p: &Vec<char>, from: usize) -> (r: Option<usize>)
    ensures
        match r {
            Some(k) => k == find_from(s@, p@, from as int),
            None => find_from(s@, p@, from as int) == -1,
        },
{
    if p.len() > s.len() {
        return None;
    }
    let last: usize = s.len() - p.len();
    let mut i: usize = from;
    while i <= last
        invariant
            p@.len() <= s@.len(),
            last == s@.len() - p@.len(),
            find_from(s@, p@, from as int) == find_from(s@, p@, i as int),
        decreases last + 1 - i,
    {
        if matches_at(s, p, i) {
            return Some(i);
        }
        if i == last {
            assert(find_from(s@, p@, i + 1) == -1);
            return None;
        }
        i = i + 1;
    }
    None
}

/// Whether `s` begins with `p` (`str::starts_with`).
pub fn has_prefix(s: &str, p: &str) -> (r: bool)
    ensures
        r == starts_with(s@, p@),
{
    let sv = chars_of(s);
    let pv = chars_of(p);
    pv.len() <= sv.len() && matches_at(&sv, &pv, 0)
}

/// Whether `s` ends in `p` (`str::ends_with`).
pub fn has_suffix(s: &str, p: &str) -> (r: bool)
    ensures
        r == ends_with(s@, p@),
{
    let sv = chars_of(s);
    let pv = chars_of(p);
    pv.len() <= sv.len() && matches_at(&sv, &pv, sv.len() - pv.len())
}

/// Whether `p` stands anywhere in `s` (`str::contains`).
pub fn has(s: &str, p: &str) -> (r: bool)
    ensures
        r == contains(s@, p@),
{
    let sv = chars_of(s);
    let pv = chars_of(p);
    proof {
        lemma_find_from(s@, p@, 0);
    }
    match find_chars(&sv, &pv, 0) {
        Some(k) => true,
        None => false,
    }
}

/// `s` without the prefix `p`, if it has it (`str::strip_prefix`).
pub fn without_prefix(s: &str, p: &str) -> (r: Option<String>)
    ensures
        r is Some == starts_with(s@, p@),
        r is Some ==> r->0@ == s@.subrange(p@.len() as int, s@.len() as int),
{
    let sv = chars_of(s);
    let pv = chars_of(p);
    if pv.len() <= sv.len() && matches_at(&sv, &pv, 0) {
        Some(substring(&sv, pv.len(), sv.len()))
    } else {
        None
    }
}

/// `s` without the prefix `p` as often as it has it (`str::trim_start_matches`).
pub open spec fn trim_prefix(s: Seq<char>, p: Seq<char>) -> Seq<char>
    decreases s.len(),
{
    if p.len() > 0 && starts_with(s, p) {
        trim_prefix(s.subrange(p.len() as int, s.len() as int), p)
    } else {
        s
    }
}

/// `s` without the suffix `p` as often as it has it (`str::trim_end_matches`).
pub open spec fn trim_suffix(s: Seq<char>, p: Seq<char>) -> Seq<char>
    decreases s.len(),
{
    if p.len() > 0 && ends_with(s, p) {
        trim_suffix(s.subrange(0, s.len() - p.len()), p)
    } else {
        s
    }
}

/// `s` without the prefix `p` as often as it has it.
pub fn trim_start_matches(s: &str, p: &str) -> (r: String)
    ensures
        r@ == trim_prefix(s@, p@),
{
    let sv = chars_of(s);
    let pv = chars_of(p);
    let mut i: usize = 0;
    assert(sv@.subrange(0, sv@.len() as int) == s@);
    while pv.len() > 0 && pv.len() <= sv.len() - i && matches_at(&sv, &pv, i)
        invariant
            i <= sv@.len(),
            pv@ == p@,
            trim_prefix(sv@.subrange(i as int, sv@.len() as int), p@) == trim_prefix(s@, p@),
        decreases sv@.len() - i,
    {
        let ghost rest = sv@.subrange(i as int, sv@.len() as int);
        proof {
            assert(rest.subrange(0, p@.len() as int) == sv@.subrange(i as int, i + p@.len()));
            assert(rest.subrange(p@.len() as int, rest.len() as int) == sv@.subrange(
                i + p@.len(),
                sv@.len() as int,
            ));
        }
        i = i + pv.len();
    }
    proof {
        let rest = sv@.subrange(i as int, sv@.len() as int);
        if p@.len() > 0 && starts_with(rest, p@) {
            assert(rest.subrange(0, p@.len() as int) == sv@.subrange(i as int, i + p@.len()));
        }
    }
    substring(&sv, i, sv.len())
}

/// `s` without the suffix `p` as often as it has it.
pub fn trim_end_matches(s: &str, p: &str) -> (r: String)
    ensures
        r@ == trim_suffix(s@, p@),
{
    let sv = chars_of(s);
    let pv = chars_of(p);
    let mut n: usize = sv.len();
    assert(sv@.subrange(0, sv@.len() as int) == s@);
    while pv.len() > 0 && pv.len() <= n && matches_at(&sv, &pv, n - pv.len())
        invariant
            n <= sv@.len(),
            pv@ == p@,
            trim_suffix(sv@.subrange(0, n as int), p@) == trim_suffix(s@, p@),
        decreases n,
    {
        let ghost rest = sv@.subrange(0, n as int);
        proof {
            assert(rest.subrange(n - p@.len(), n as int) == sv@.subrange(n - p@.len(), n as int));
            assert(rest.subrange(0, n - p@.len()) == sv@.subrange(0, n - p@.len()));
        }
        n = n - pv.len();
    }
    proof {
        let rest = sv@.subrange(0, n as int);
        if p@.len() > 0 && ends_with(rest, p@) {
            assert(rest.subrange(n - p@.len(), n as int) == sv@.subrange(n - p@.len(), n as int));
        }
    }
    substring(&sv, 0, n)
}

/// `s` without the characters at its start and at its end that satisfy `p`.
pub open spec fn trimmed_ends(s: Seq<char>, p: spec_fn(char) -> bool) -> Seq<char>
    decreases s.len(),
{
    if s.len() == 0 {
        s
    } else if p(s[0]) {
        trimmed_ends(s.drop_first(), p)
    } else if p(s.last()) {
        trimmed_ends(s.drop_last(), p)
    } else {
        s
    }
}

/// `s` without the characters `a` and `b` at its start and at its end (`str::trim_matches`).
pub fn trim_ends(s: &str, a: char, b: char) -> (r: String)
    ensures
        forall|p: spec_fn(char) -> bool|
            (forall|c: char| #[trigger] p(c) == (c == a || c == b)) ==> #[trigger] trimmed_ends(
                s@,
                p,
            ) == r@,
{
    let v = chars_of(s);
    let mut i: usize = 0;
    let mut n: usize = v.len();
    let ghost q = |c: char| c == a || c == b;
    assert(v@.subrange(0, v@.len() as int) == s@);
    while i < n && (v[i] == a || v[i] == b)
        invariant
            i <= n == v@.len(),
            q == (|c: char| c == a || c == b),
            trimmed_ends(v@.subrange(i as int, n as int), q) == trimmed_ends(s@, q),
        decreases n - i,
    {
        let ghost t = v@.subrange(i as int, n as int);
        assert(t.drop_first() == v@.subrange(i + 1, n as int));
        i = i + 1;
    }
    while n > i && (v[n - 1] == a || v[n - 1] == b)
        invariant
            i <= n <= v@.len(),
            q == (|c: char| c == a || c == b),
            i < v@.len() ==> !q(v@[i as int]),
            trimmed_ends(v@.subrange(i as int, n as int), q) == trimmed_ends(s@, q),
        decreases n,
    {
        let ghost t = v@.subrange(i as int, n as int);
        assert(t.drop_last() == v@.subrange(i as int, n - 1));
        assert(t[0] == v@[i as int]);
        n = n - 1;
    }
    proof {
        let t = v@.subrange(i as int, n as int);
        if i < n {
            assert(t[0] == v@[i as int]);
            assert(t.last() == v@[n - 1]);
        }
        assert(trimmed_ends(t, q) == t);
        assert forall|p: spec_fn(char) -> bool|
            (forall|c: char| #[trigger] p(c) == (c == a || c == b)) implies #[trigger] trimmed_ends(
            s@,
            p,
        ) == t by {
            lemma_trimmed_ends_same(s@, p, q);
        }
    }
    substring(&v, i, n)
}

proof fn lemma_trimmed_ends_same(
    s: Seq<char>,
    p: spec_fn(char) -> bool,
    q: spec_fn(char) -> bool,
)
    requires
        forall|c: char| #[trigger] p(c) == q(c),
    ensures
        trimmed_ends(s, p) == trimmed_ends(s, q),
    decreases s.len(),
{
    if s.len() > 0 {
        if p(s[0]) {
            lemma_trimmed_ends_same(s.drop_first(), p, q);
        } else if p(s.last()) {
            lemma_trimmed_ends_same(s.drop_last(), p, q);
        }
    }
}

// ── Order ────────────────────────────────────────────────────────────────────

/// Lexicographic order by code point, which is the order of the UTF-8 bytes.
pub open spec fn text_le(a: Seq<char>, b: Seq<char>) -> bool
    decreases a.len(),
{
    a.len() == 0 || (b.len() > 0 && ((a[0] as int) < (b[0] as int) || (a[0] == b[0] && text_le(
        a.drop_first(),
        b.drop_first(),
    ))))
}

pub proof fn lemma_text_le_total(a: Seq<char>, b: Seq<char>)
    ensures
        text_le(a, b) || text_le(b, a),
    decreases a.len(),
{
    if a.len() > 0 && b.len() > 0 && a[0] == b[0] {
        lemma_text_le_total(a.drop_first(), b.drop_first());
    }
}

pub proof fn lemma_text_le_transitive(a: Seq<char>, b: Seq<char>, c: Seq<char>)
    requires
        text_le(a, b),
        text_le(b, c),
    ensures
        text_le(a, c),
    decreases a.len(),
{
    if a.len() > 0 && a[0] == b[0] && b[0] == c[0] {
        lemma_text_le_transitive(a.drop_first(), b.drop_first(), c.drop_first());
    }
}

pub proof fn lemma_text_le_antisymmetric(a: Seq<char>, b: Seq<char>)
    requires
        text_le(a, b),
        text_le(b, a),
    ensures
        a == b,
    decreases a.len(),
{
    if a.len() > 0 {
        lemma_text_le_antisymmetric(a.drop_first(), b.drop_first());
        assert(a =~= seq![a[0]] + a.drop_first());
        assert(b =~= seq![b[0]] + b.drop_first());
    } else {
        assert(a =~= b);
    }
}

/// Whether `a` comes no later than `b` (`str`'s `<=`).
pub fn le(a: &str, b: &str) -> (r: bool)
    ensures
        r == text_le(a@, b@),
{
    let av = chars_of(a);
    let bv = chars_of(b);
    let mut i: usize = 0;
    assert(a@.subrange(0, a@.len() as int) == a@);
    assert(b@.subrange(0, b@.len() as int) == b@);
    loop
        invariant
            av@ == a@,
            bv@ == b@,
            i <= av@.len(),
            i <= bv@.len(),
            text_le(a@, b@) == text_le(
                a@.subrange(i as int, a@.len() as int),
                b@.subrange(i as int, b@.len() as int),
            ),
        decreases av@.len() - i,
    {
        if i == av.len() {
            return true;
        }
        if i == bv.len() {
            return false;
        }
        let x: char = av[i];
        let y: char = bv[i];
        proof {
            let s = a@.subrange(i as int, a@.len() as int);
            let t = b@.subrange(i as int, b@.len() as int);
            assert(s.drop_first() == a@.subrange(i + 1, a@.len() as int));
            assert(t.drop_first() == b@.subrange(i + 1, b@.len() as int));
            assert(s[0] == av@[i as int] && t[0] == bv@[i as int]);
        }
        if x < y {
            return true;
        }
        if y < x {
            return false;
        }
        i = i + 1;
    }
}

// ── Replacement ──────────────────────────────────────────────────────────────

/// `s` with every occurrence of `from`, taken from the left without overlap, replaced.
pub open spec fn replaced(s: Seq<char>, from: Seq<char>, to: Seq<char>) -> Seq<char>
    decreases s.len(),
{
    let k = find_from(s, from, 0);
    if from.len() == 0 || k < 0 || k + from.len() > s.len() {
        s
    } else {
        s.subrange(0, k) + to + replaced(s.subrange(k + from.len(), s.len() as int), from, to)
    }
}

proof fn lemma_find_shift(s: Seq<char>, p: Seq<char>, base: int, i: int)
    requires
        0 <= base <= s.len(),
        0 <= i,
    ensures
        ({
            let rest = s.subrange(base, s.len() as int);
            let k = find_from(rest, p, i);
            find_from(s, p, base + i) == if k < 0 {
                -1
            } else {
                base + k
            }
        }),
    decreases s.len() + 1 - base - i,
{
    let rest = s.subrange(base, s.len() as int);
    if i + p.len() <= rest.len() {
        assert(rest.subrange(i, i + p.len()) == s.subrange(base + i, base + i + p.len()));
        if !occurs_at(rest, p, i) {
            lemma_find_shift(s, p, base, i + 1);
        }
    }
}

/// `s` with every occurrence of `from` replaced by `to` (`str::replace`).
pub fn replace(s: &str, from: &str, to: &str) -> (r: String)
    requires
        from@.len() > 0,
    ensures
        r@ == replaced(s@, from@, to@),
{
    let sv = chars_of(s);
    let fv = chars_of(from);
    let mut out = String::new();
    let mut base: usize = 0;
    assert(s@.subrange(0, s@.len() as int) == s@);
    assert(Seq::<char>::empty() + replaced(s@, from@, to@) == replaced(s@, from@, to@));
    let n: usize = sv.len();
    loop
        invariant
            n == sv@.len(),
            sv@ == s@,
            fv@ == from@,
            from@.len() > 0,
            base <= sv@.len(),
            out@ + replaced(s@.subrange(base as int, s@.len() as int), from@, to@) == replaced(
                s@,
                from@,
                to@,
            ),
        decreases sv@.len() - base,
    {
        proof {
            lemma_find_shift(s@, from@, base as int, 0);
            lemma_find_from(s@.subrange(base as int, s@.len() as int), from@, 0);
        }
        match find_chars(&sv, &fv, base) {
            Some(k) => {
                let ghost rest = s@.subrange(base as int, s@.len() as int);
                let ghost before = out@;
                let head = substring(&sv, base, k);
                out.append(head.as_str());
                out.append(to);
                proof {
                    let kk = find_from(rest, from@, 0);
                    assert(kk == k - base);
                    assert(rest.subrange(0, kk) == s@.subrange(base as int, k as int));
                    let tail = rest.subrange(kk + from@.len(), rest.len() as int);
                    assert(tail == s@.subrange(k + from@.len(), s@.len() as int));
                    assert(before + (rest.subrange(0, kk) + to@ + replaced(tail, from@, to@))
                        == (before + rest.subrange(0, kk) + to@) + replaced(tail, from@, to@));
                }
                base = k + fv.len();
            },
            None => {
                let tail = substring(&sv, base, sv.len());
                out.append(tail.as_str());
                return out;
            },
        }
    }
}

// ── White space ──────────────────────────────────────────────────────────────

/// `s` without leading white space.
pub open spec fn trimmed_start(s: Seq<char>) -> Seq<char>
    decreases s.len(),
{
    if s.len() > 0 && is_space(s[0]) {
        trimmed_start(s.drop_first())
    } else {
        s
    }
}

/// `s` without trailing white space.
pub open spec fn trimmed_end(s: Seq<char>) -> Seq<char>
    decreases s.len(),
{
    if s.len() > 0 && is_space(s.last()) {
        trimmed_end(s.drop_last())
    } else {
        s
    }
}

/// `s` without white space at either end.
pub open spec fn trimmed(s: Seq<char>) -> Seq<char> {
    trimmed_end(trimmed_start(s))
}

/// A text without white space at its ends is not changed by trimming.
pub proof fn lemma_trimmed_same(s: Seq<char>)
    requires
        s.len() > 0,
        !is_space(s[0]),
        !is_space(s.last()),
    ensures
        trimmed(s) == s,
{
}

proof fn lemma_trimmed_end_edge(s: Seq<char>)
    ensures
        trimmed_end(s).len() <= s.len(),
        trimmed_end(s).len() > 0 ==> !is_space(trimmed_end(s).last()) && trimmed_end(s)[0] == s[0],
    decreases s.len(),
{
    if s.len() > 0 && is_space(s.last()) {
        lemma_trimmed_end_edge(s.drop_last());
    }
}

proof fn lemma_trimmed_start_edge(s: Seq<char>)
    ensures
        trimmed_start(s).len() > 0 ==> !is_space(trimmed_start(s)[0]),
    decreases s.len(),
{
    if s.len() > 0 && is_space(s[0]) {
        lemma_trimmed_start_edge(s.drop_first());
    }
}

/// Trimming leaves no white space at the ends.
pub proof fn lemma_trimmed_edges(s: Seq<char>)
    ensures
        trimmed(s).len() > 0 ==> !is_space(trimmed(s)[0]) && !is_space(trimmed(s).last()),
{
    lemma_trimmed_start_edge(s);
    lemma_trimmed_end_edge(trimmed_start(s));
}

fn space_end(v: &Vec<char>) -> (i: usize)
    ensures
        i <= v@.len(),
        v@.subrange(i as int, v@.len() as int) == trimmed_start(v@),
{
    let mut i: usize = 0;
    assert(v@.subrange(0, v@.len() as int) == v@);
    while i < v.len() && char_is_space(v[i])
        invariant
            i <= v@.len(),
            trimmed_start(v@.subrange(i as int, v@.len() as int)) == trimmed_start(v@),
        decreases v@.len() - i,
    {
        proof {
            let t = v@.subrange(i as int, v@.len() as int);
            assert(t.drop_first() == v@.subrange(i + 1, v@.len() as int));
        }
        i = i + 1;
    }
    i
}

fn space_start(v: &Vec<char>, from: usize) -> (j: usize)
    requires
        from <= v@.len(),
    ensures
        from <= j <= v@.len(),
        v@.subrange(from as int, j as int) == trimmed_end(
            v@.subrange(from as int, v@.len() as int),
        ),
{
    let mut j: usize = v.len();
    while j > from && char_is_space(v[j - 1])
        invariant
            from <= j <= v@.len(),
            trimmed_end(v@.subrange(from as int, j as int)) == trimmed_end(
                v@.subrange(from as int, v@.len() as int),
            ),
        decreases j - from,
    {
        proof {
            let t = v@.subrange(from as int, j as int);
            assert(t.drop_last() == v@.subrange(from as int, j - 1));
        }
        j = j - 1;
    }
    j
}

/// `s` without white space at either end (`str::trim`).
pub fn trim(s: &str) -> (r: String)
    ensures
        r@ == trimmed(s@),
{
    let v = chars_of(s);
    let i = space_end(&v);
    let j = space_start(&v, i);
    substring(&v, i, j)
}

/// `s` without leading white space (`str::trim_start`).
pub fn trim_start(s: &str) -> (r: String)
    ensures
        r@ == trimmed_start(s@),
{
    let v = chars_of(s);
    let i = space_end(&v);
    substring(&v, i, v.len())
}

/// Whether `s` holds nothing but white space.
pub fn is_blank(s: &str) -> (r: bool)
    ensures
        r == (trimmed(s@).len() == 0),
{
    let t = trim(s);
    t.as_str().is_empty()
}

// ── Lines and fields ─────────────────────────────────────────────────────────

/// The position of the first `c` in `s` from `i` on, or the length of `s`.
pub open spec fn index_of(s: Seq<char>, c: char, i: int) -> int
    decreases s.len() - i,
{
    if i < 0 || i >= s.len() {
        s.len() as int
    } else if s[i] == c {
        i
    } else {
        index_of(s, c, i + 1)
    }
}

pub proof fn lemma_index_of(s: Seq<char>, c: char, i: int)
    requires
        0 <= i <= s.len(),
    ensures
        i <= index_of(s, c, i) <= s.len(),
        index_of(s, c, i) < s.len() ==> s[index_of(s, c, i)] == c,
        forall|j: int| i <= j < index_of(s, c, i) ==> s[j] != c,
    decreases s.len() - i,
{
    if i < s.len() && s[i] != c {
        lemma_index_of(s, c, i + 1);
    }
}

/// The position of the first `c` from `from` on, or the length.
pub fn index_char(v: &Vec<char>, c: char, from: usize) -> (k: usize)
    requires
        from <= v@.len(),
    ensures
        k == index_of(v@, c, from as int),
        from <= k <= v@.len(),
{
    let mut k: usize = from;
    while k < v.len()
        invariant
            from <= k <= v@.len(),
            index_of(v@, c, from as int) == index_of(v@, c, k as int),
        decreases v@.len() - k,
    {
        if v[k] == c {
            return k;
        }
        k = k + 1;
    }
    k
}

/// A line without the carriage return that ends it.
pub open spec fn without_cr(s: Seq<char>) -> Seq<char> {
    if s.len() > 0 && s.last() == '\r' {
        s.drop_last()
    } else {
        s
    }
}

/// The lines of `s` from position `i` on: each ends at a line feed, which with a
/// carriage return before it is not part of the line; the end of the text ends the last
/// line, unless that would be empty.
pub open spec fn lines_from(s: Seq<char>, i: int) -> Seq<Seq<char>>
    decreases s.len() - i,
{
    let k = index_of(s, '\n', i);
    if i < 0 || i >= s.len() {
        Seq::empty()
    } else if k < i || k >= s.len() {
        seq![s.subrange(i, s.len() as int)]
    } else {
        seq![without_cr(s.subrange(i, k))] + lines_from(s, k + 1)
    }
}

/// The lines of `s`.
pub open spec fn lines_of(s: Seq<char>) -> Seq<Seq<char>> {
    lines_from(s, 0)
}

/// The lines of `s` (`str::lines`).
pub fn lines(s: &str) -> (r: Vec<String>)
    ensures
        texts(r@) == lines_of(s@),
{
    let v = chars_of(s);
    let mut r: Vec<String> = Vec::new();
    let mut i: usize = 0;
    assert(texts(r@) + lines_from(s@, 0) == lines_of(s@));
    while i < v.len()
        invariant
            v@ == s@,
            i <= v@.len(),
            texts(r@) + lines_from(s@, i as int) == lines_of(s@),
        decreases v@.len() - i,
    {
        proof {
            lemma_index_of(s@, '\n', i as int);
        }
        let ghost before = r@;
        let k = index_char(&v, '\n', i);
        if k >= v.len() {
            r.push(substring(&v, i, v.len()));
            assert(texts(r@) == texts(before).push(r@.last()@));
            assert(texts(r@) == texts(before) + lines_from(s@, i as int));
            return r;
        }
        let end: usize = if k > i && v[k - 1] == '\r' {
            k - 1
        } else {
            k
        };
        let line = substring(&v, i, end);
        proof {
            let raw = s@.subrange(i as int, k as int);
            assert(line@ == without_cr(raw));
        }
        r.push(line);
        proof {
            assert(texts(r@) == texts(before).push(r@.last()@));
            assert(texts(before) + (seq![r@.last()@] + lines_from(s@, k + 1)) == texts(r@)
                + lines_from(s@, k + 1));
        }
        i = k + 1;
    }
    assert(texts(r@) + lines_from(s@, i as int) == texts(r@));
    r
}

/// The parts of `s` from position `i` on between the separators `c`.
pub open spec fn split_from(s: Seq<char>, c: char, i: int) -> Seq<Seq<char>>
    decreases s.len() - i,
{
    let k = index_of(s, c, i);
    if i < 0 || k < i || k >= s.len() {
        seq![s.subrange(i, s.len() as int)]
    } else {
        seq![s.subrange(i, k)] + split_from(s, c, k + 1)
    }
}

/// The parts of `s` between the separators `c`.
pub open spec fn split_on(s: Seq<char>, c: char) -> Seq<Seq<char>> {
    split_from(s, c, 0)
}

/// The lines from a position on are those of the rest of the text.
proof fn lemma_lines_suffix(s: Seq<char>, from: int, i: int)
    requires
        0 <= from <= i <= s.len(),
    ensures
        lines_from(s.subrange(from, s.len() as int), i - from) == lines_from(s, i),
    decreases s.len() - i,
{
    let t = s.subrange(from, s.len() as int);
    lemma_index_of_suffix(s, '\n', from, i);
    lemma_index_of(s, '\n', i);
    let k = index_of(s, '\n', i);
    if k < s.len() {
        lemma_lines_suffix(s, from, k + 1);
        assert(t.subrange(i - from, k - from) == s.subrange(i, k));
    } else {
        assert(t.subrange(i - from, t.len() as int) == s.subrange(i, s.len() as int));
    }
}

/// The lines of a text that goes on after a line feed are those up to it and those after it.
proof fn lemma_lines_go_on(a: Seq<char>, b: Seq<char>, i: int)
    requires
        0 <= i <= a.len(),
    ensures
        lines_from(a + seq!['\n'] + b, i) == lines_from(a + seq!['\n'], i) + lines_of(b),
    decreases a.len() - i,
{
    let e = a + seq!['\n'];
    let t = e + b;
    lemma_index_of(e, '\n', i);
    lemma_index_of(t, '\n', i);
    let k = index_of(e, '\n', i);
    let kt = index_of(t, '\n', i);
    assert(e[a.len() as int] == '\n' && t[a.len() as int] == '\n');
    assert(k <= a.len() && kt <= a.len());
    assert(e[k] == t[k] && e[kt] == t[kt]);
    assert(k == kt);
    assert(t.subrange(i, k) == e.subrange(i, k));
    let line = without_cr(e.subrange(i, k));
    if k < a.len() {
        lemma_lines_go_on(a, b, k + 1);
        assert(seq![line] + (lines_from(e, k + 1) + lines_of(b)) == seq![line] + lines_from(
            e,
            k + 1,
        ) + lines_of(b));
    } else {
        lemma_lines_suffix(t, k + 1, k + 1);
        assert(t.subrange(k + 1, t.len() as int) == b);
        assert(lines_from(e, i) == seq![line] + lines_from(e, k + 1));
        assert(seq![line] + lines_of(b) == lines_from(e, i) + lines_of(b));
    }
}

/// The lines after a line feed was added, which ends the last line or makes an empty one.
pub open spec fn ended_lines(lines: Seq<Seq<char>>, ended: Seq<Seq<char>>) -> bool {
    ||| ended == lines.push(Seq::empty())
    ||| lines.len() > 0 && ended == lines.drop_last().push(without_cr(lines.last()))
}

proof fn lemma_lines_ended(a: Seq<char>, i: int)
    requires
        0 <= i <= a.len(),
    ensures
        ended_lines(lines_from(a, i), lines_from(a + seq!['\n'], i)),
        i < a.len() ==> lines_from(a, i).len() > 0,
    decreases a.len() - i,
{
    let e = a + seq!['\n'];
    let lines = lines_from(a, i);
    let ended = lines_from(e, i);
    lemma_index_of(e, '\n', i);
    lemma_index_of(a, '\n', i);
    let k = index_of(e, '\n', i);
    let ka = index_of(a, '\n', i);
    assert(e[a.len() as int] == '\n');
    assert(k <= a.len());
    if ka < a.len() {
        assert(e[ka] == '\n');
        assert(k < a.len() ==> a[k] == e[k]);
        assert(k == ka);
        assert(e.subrange(i, k) == a.subrange(i, k));
        lemma_lines_ended(a, k + 1);
        let line = without_cr(a.subrange(i, k));
        let rest = lines_from(a, k + 1);
        assert(lines == seq![line] + rest);
        assert(ended == seq![line] + lines_from(e, k + 1));
        if lines_from(e, k + 1) == rest.push(Seq::empty()) {
            assert(ended =~= lines.push(Seq::empty()));
        } else {
            assert(ended =~= lines.drop_last().push(without_cr(lines.last())));
        }
    } else {
        if k < a.len() {
            assert(a[k] == e[k]);
        }
        assert(k == a.len());
        assert(lines_from(e, k + 1) == Seq::<Seq<char>>::empty());
        assert(e.subrange(i, k) == a.subrange(i, a.len() as int));
        assert(ended =~= seq![without_cr(a.subrange(i, a.len() as int))]);
        if i < a.len() {
            assert(lines =~= seq![a.subrange(i, a.len() as int)]);
            assert(ended =~= lines.drop_last().push(without_cr(lines.last())));
        } else {
            assert(a.subrange(i, a.len() as int) =~= Seq::<char>::empty());
            assert(ended =~= lines.push(Seq::empty()));
        }
    }
}

/// The lines of two texts with a line feed between them.
pub proof fn lemma_lines_append(a: Seq<char>, b: Seq<char>) -> (ended: Seq<Seq<char>>)
    ensures
        ended_lines(lines_of(a), ended),
        lines_of(a + seq!['\n'] + b) == ended + lines_of(b),
{
    lemma_lines_ended(a, 0);
    lemma_lines_go_on(a, b, 0);
    lines_of(a + seq!['\n'])
}

/// White space at the end does not change what trimming leaves.
pub proof fn lemma_trimmed_drops_last(s: Seq<char>)
    requires
        s.len() > 0,
        is_space(s.last()),
    ensures
        trimmed(s) == trimmed(s.drop_last()),
    decreases s.len(),
{
    if is_space(s[0]) {
        if s.len() > 1 {
            lemma_trimmed_drops_last(s.drop_first());
            assert(s.drop_first().drop_last() =~= s.drop_last().drop_first());
        } else {
            assert(s.drop_first() =~= s.drop_last());
            assert(trimmed_start(s) == trimmed_start(s.drop_first()));
        }
    } else {
        assert(s.drop_last()[0] == s[0]);
    }
}

proof fn lemma_index_of_suffix(s: Seq<char>, c: char, from: int, i: int)
    requires
        0 <= from <= i <= s.len(),
    ensures
        index_of(s.subrange(from, s.len() as int), c, i - from) == index_of(s, c, i) - from,
    decreases s.len() - i,
{
    let t = s.subrange(from, s.len() as int);
    if i < s.len() {
        assert(t[i - from] == s[i]);
        if s[i] != c {
            lemma_index_of_suffix(s, c, from, i + 1);
        }
    }
}

proof fn lemma_split_suffix(s: Seq<char>, c: char, from: int, i: int)
    requires
        0 <= from <= i <= s.len(),
    ensures
        split_from(s.subrange(from, s.len() as int), c, i - from) == split_from(s, c, i),
    decreases s.len() - i,
{
    let t = s.subrange(from, s.len() as int);
    lemma_index_of_suffix(s, c, from, i);
    lemma_index_of(s, c, i);
    let k = index_of(s, c, i);
    if k < s.len() {
        lemma_split_suffix(s, c, from, k + 1);
        assert(t.subrange(i - from, k - from) == s.subrange(i, k));
    } else {
        assert(t.subrange(i - from, t.len() as int) == s.subrange(i, s.len() as int));
    }
}

/// A text without the separator has one part.
pub proof fn lemma_split_one(s: Seq<char>, c: char)
    requires
        !s.contains(c),
    ensures
        split_on(s, c) == seq![s],
{
    lemma_index_of(s, c, 0);
    assert(s.subrange(0, s.len() as int) == s);
}

/// The parts of two texts with a separator between them are the parts of both.
pub proof fn lemma_split_append(a: Seq<char>, c: char, b: Seq<char>)
    ensures
        split_on(a + seq![c] + b, c) == split_on(a, c) + split_on(b, c),
    decreases a.len(),
{
    let s = a + seq![c] + b;
    let ka = index_of(a, c, 0);
    let k = index_of(s, c, 0);
    lemma_index_of(a, c, 0);
    lemma_index_of(s, c, 0);
    if ka < a.len() {
        assert(s[ka] == c);
        assert(a[ka] == s[ka]);
        if k < ka {
            assert(a[k] == s[k]);
        }
        assert(k == ka);
        let rest = a.subrange(ka + 1, a.len() as int);
        lemma_split_append(rest, c, b);
        lemma_split_suffix(s, c, k + 1, k + 1);
        lemma_split_suffix(a, c, k + 1, k + 1);
        assert(s.subrange(k + 1, s.len() as int) == rest + seq![c] + b);
        assert(s.subrange(0, k) == a.subrange(0, k));
        assert(split_on(s, c) == seq![s.subrange(0, k)] + split_on(rest + seq![c] + b, c));
        assert(split_on(a, c) == seq![a.subrange(0, k)] + split_on(rest, c));
    } else {
        assert(s[a.len() as int] == c);
        if k < a.len() {
            assert(a[k] == s[k]);
        }
        assert(k == a.len());
        lemma_split_suffix(s, c, k + 1, k + 1);
        assert(s.subrange(k + 1, s.len() as int) == b);
        assert(s.subrange(0, k) == a);
        assert(a.subrange(0, a.len() as int) == a);
    }
}

/// The parts of `s` between the separators `c` (`str::split` with a character).
pub fn split(s: &str, c: char) -> (r: Vec<String>)
    ensures
        texts(r@) == split_on(s@, c),
{
    let v = chars_of(s);
    let mut r: Vec<String> = Vec::new();
    let mut i: usize = 0;
    assert(texts(r@) + split_from(s@, c, 0) == split_on(s@, c));
    loop
        invariant
            v@ == s@,
            i <= v@.len(),
            texts(r@) + split_from(s@, c, i as int) == split_on(s@, c),
        decreases v@.len() - i,
    {
        proof {
            lemma_index_of(s@, c, i as int);
        }
        let ghost before = r@;
        let k = index_char(&v, c, i);
        r.push(substring(&v, i, k));
        proof {
            assert(texts(r@) == texts(before).push(r@.last()@));
        }
        if k >= v.len() {
            assert(texts(r@) == texts(before) + split_from(s@, c, i as int));
            return r;
        }
        proof {
            assert(texts(before) + (seq![r@.last()@] + split_from(s@, c, k + 1)) == texts(r@)
                + split_from(s@, c, k + 1));
        }
        i = k + 1;
    }
}

/// The parts in a row with `sep` between them.
pub open spec fn joined(parts: Seq<Seq<char>>, sep: Seq<char>) -> Seq<char>
    decreases parts.len(),
{
    if parts.len() == 0 {
        Seq::empty()
    } else if parts.len() == 1 {
        parts[0]
    } else {
        joined(parts.drop_last(), sep) + sep + parts.last()
    }
}

/// The parts `from..to` in a row with `sep` between them (`[String]::join`).
pub fn join(parts: &Vec<String>, from: usize, to: usize, sep: &str) -> (s: String)
    requires
        from <= to <= parts@.len(),
    ensures
        s@ == joined(texts(parts@).subrange(from as int, to as int), sep@),
{
    let mut s = String::new();
    let ghost all = texts(parts@);
    let mut i: usize = from;
    while i < to
        invariant
            from <= i <= to <= parts@.len(),
            all == texts(parts@),
            s@ == joined(all.subrange(from as int, i as int), sep@),
        decreases to - i,
    {
        proof {
            let next = all.subrange(from as int, i + 1);
            assert(next.drop_last() == all.subrange(from as int, i as int));
            assert(next.last() == parts@[i as int]@);
            if i == from {
                assert(Seq::<char>::empty() + parts@[i as int]@ == parts@[i as int]@);
            }
        }
        if i > from {
            s.append(sep);
        }
        s.append(parts[i].as_str());
        i = i + 1;
    }
    s
}

// ── Numbers ──────────────────────────────────────────────────────────────────

pub open spec fn digit_char(d: int) -> char {
    (48 + d) as char
}

/// The decimal notation of `n`.
pub open spec fn decimal(n: nat) -> Seq<char>
    decreases n,
{
    if n < 10 {
        seq![digit_char(n as int)]
    } else {
        decimal(n / 10).push(digit_char((n % 10) as int))
    }
}

fn char_of_digit(d: u64) -> (c: char)
    requires
        d < 10,
    ensures
        c == digit_char(d as int),
{
    if d == 0 {
        '0'
    } else if d == 1 {
        '1'
    } else if d == 2 {
        '2'
    } else if d == 3 {
        '3'
    } else if d == 4 {
        '4'
    } else if d == 5 {
        '5'
    } else if d == 6 {
        '6'
    } else if d == 7 {
        '7'
    } else if d == 8 {
        '8'
    } else {
        '9'
    }
}

/// `n` in decimal notation.
pub fn format_number(n: u64) -> (s: String)
    ensures
        s@ == decimal(n as nat),
    decreases n,
{
    let mut s = if n < 10 {
        String::new()
    } else {
        format_number(n / 10)
    };
    s.push(char_of_digit(n % 10));
    assert(s@ == decimal(n as nat));
    s
}

pub open spec fn is_digit(c: char) -> bool {
    48 <= c as u32 <= 57
}

pub open spec fn all_digits(s: Seq<char>) -> bool {
    forall|i: int| 0 <= i < s.len() ==> is_digit(#[trigger] s[i])
}

/// The value of a row of digits.
pub open spec fn digits_value(s: Seq<char>) -> nat
    decreases s.len(),
{
    if s.len() == 0 {
        0
    } else {
        digits_value(s.drop_last()) * 10 + (s.last() as u32 - 48) as nat
    }
}

/// The natural number that `s` writes in decimal notation, with an optional plus sign.
pub open spec fn parsed(s: Seq<char>) -> Option<nat> {
    let digits = if s.len() > 0 && s[0] == '+' {
        s.drop_first()
    } else {
        s
    };
    if digits.len() > 0 && all_digits(digits) {
        Some(digits_value(digits))
    } else {
        None
    }
}

/// [`parsed`] where the value fits the type with the largest value `max`.
pub open spec fn parsed_up_to(s: Seq<char>, max: nat) -> Option<nat> {
    match parsed(s) {
        Some(n) => if n <= max {
            Some(n)
        } else {
            None
        },
        None => None,
    }
}

/// A number is read back from its decimal notation.
pub proof fn lemma_decimal_is_parsed(n: nat)
    ensures
        parsed(decimal(n)) == Some(n),
        all_digits(decimal(n)),
        decimal(n).len() > 0,
    decreases n,
{
    let d = decimal(n);
    if n >= 10 {
        lemma_decimal_is_parsed(n / 10);
        let last = digit_char((n % 10) as int);
        assert(d.drop_last() == decimal(n / 10));
        assert(d.last() == last);
        assert(is_digit(last));
        assert forall|i: int| 0 <= i < d.len() implies is_digit(#[trigger] d[i]) by {
            if i < d.len() - 1 {
                assert(d[i] == decimal(n / 10)[i]);
            }
        }
        assert(is_digit(decimal(n / 10)[0]));
        assert(d[0] == decimal(n / 10)[0]);
        assert(decimal(n / 10)[0] != '+');
        assert(digits_value(d) == digits_value(decimal(n / 10)) * 10 + n % 10);
    } else {
        assert(d.drop_last() == Seq::<char>::empty());
        assert(is_digit(d[0]));
        assert(digits_value(d.drop_last()) == 0);
    }
}

proof fn lemma_digits_value_monotone(s: Seq<char>, k: int)
    requires
        0 <= k <= s.len(),
        all_digits(s),
    ensures
        digits_value(s.subrange(0, k)) <= digits_value(s),
    decreases s.len() - k,
{
    if k < s.len() {
        lemma_digits_value_monotone(s, k + 1);
        let t = s.subrange(0, k + 1);
        assert(t.drop_last() == s.subrange(0, k));
        assert(is_digit(s[k]));
    } else {
        assert(s.subrange(0, k) == s);
    }
}

fn parse_max(s: &str, max: u64) -> (r: Option<u64>)
    ensures
        match parsed_up_to(s@, max as nat) {
            Some(n) => r is Some && r->0 == n,
            None => r is None,
        },
{
    let v = chars_of(s);
    let start: usize = if v.len() > 0 && v[0] == '+' {
        1
    } else {
        0
    };
    let ghost digits = v@.subrange(start as int, v@.len() as int);
    proof {
        if start == 1 {
            assert(digits == s@.drop_first());
        } else {
            assert(digits == s@);
        }
    }
    if start == v.len() {
        return None;
    }
    let mut n: u64 = 0;
    let mut i: usize = start;
    assert(digits.subrange(0, 0).len() == 0);
    while i < v.len()
        invariant
            v@ == s@,
            start <= i <= v@.len(),
            digits == v@.subrange(start as int, v@.len() as int),
            parsed(s@) == if digits.len() > 0 && all_digits(digits) {
                Some(digits_value(digits))
            } else {
                None
            },
            forall|j: int| 0 <= j < i - start ==> is_digit(#[trigger] digits[j]),
            n == digits_value(digits.subrange(0, i - start)),
            n <= max,
        decreases v@.len() - i,
    {
        let code: u32 = v[i] as u32;
        assert(digits[i - start] == v@[i as int]);
        if code < 48 || code > 57 {
            assert(!is_digit(digits[i - start]));
            return None;
        }
        let d: u64 = (code - 48) as u64;
        proof {
            let t = digits.subrange(0, i - start + 1);
            assert(t.drop_last() == digits.subrange(0, i - start));
            assert(digits_value(t) == n * 10 + d);
            if all_digits(digits) {
                lemma_digits_value_monotone(digits, i - start + 1);
            }
        }
        if n > max / 10 || d > max || n * 10 > max - d {
            return None;
        }
        n = n * 10 + d;
        i = i + 1;
    }
    assert(digits.subrange(0, digits.len() as int) == digits);
    Some(n)
}

/// The `usize` that `s` writes (`str::parse::<usize>`).
pub fn parse_usize(s: &str) -> (r: Option<usize>)
    ensures
        match parsed_up_to(s@, usize::MAX as nat) {
            Some(n) => r is Some && r->0 == n,
            None => r is None,
        },
{
    match parse_max(s, usize::MAX as u64) {
        Some(n) => Some(n as usize),
        None => None,
    }
}

/// The `u64` that `s` writes (`str::parse::<u64>`).
pub fn parse_u64(s: &str) -> (r: Option<u64>)
    ensures
        match parsed_up_to(s@, u64::MAX as nat) {
            Some(n) => r is Some && r->0 == n,
            None => r is None,
        },
{
    parse_max(s, u64::MAX)
}

// ── Laws ─────────────────────────────────────────────────────────────────────

/// Whether a text is one line: it has no line feed, and no carriage return at its end.
pub open spec fn is_line(s: Seq<char>) -> bool {
    &&& forall|i: int| 0 <= i < s.len() ==> #[trigger] s[i] != '\n'
    &&& s.len() > 0 ==> s.last() != '\r'
}

proof fn lemma_one_line(s: Seq<char>)
    requires
        is_line(s),
    ensures
        lines_of(s + seq!['\n']) == seq![s],
        s.len() > 0 ==> lines_of(s) == seq![s],
{
    let e = s + seq!['\n'];
    lemma_index_of(e, '\n', 0);
    let k = index_of(e, '\n', 0);
    assert(e[s.len() as int] == '\n');
    if k < s.len() {
        assert(e[k] == s[k]);
    }
    assert(e.subrange(0, k) =~= s);
    assert(lines_from(e, k + 1) =~= Seq::<Seq<char>>::empty());
    assert(lines_of(e) =~= seq![s]);
    lemma_index_of(s, '\n', 0);
    if index_of(s, '\n', 0) < s.len() {
        assert(s[index_of(s, '\n', 0)] != '\n');
    }
    assert(s.subrange(0, s.len() as int) =~= s);
}

proof fn lemma_joined_ended(parts: Seq<Seq<char>>)
    requires
        parts.len() > 0,
        forall|i: int| 0 <= i < parts.len() ==> is_line(#[trigger] parts[i]),
    ensures
        lines_of(joined(parts, seq!['\n']) + seq!['\n']) == parts,
    decreases parts.len(),
{
    let nl = seq!['\n'];
    assert(is_line(parts[parts.len() - 1]));
    lemma_one_line(parts.last());
    if parts.len() == 1 {
        assert(parts =~= seq![parts[0]]);
    } else {
        let init = parts.drop_last();
        assert forall|i: int| 0 <= i < init.len() implies is_line(#[trigger] init[i]) by {
            assert(is_line(parts[i]));
        }
        lemma_joined_ended(init);
        let a = joined(init, nl);
        assert(joined(parts, nl) + nl =~= a + nl + (parts.last() + nl));
        lemma_lines_go_on(a, parts.last() + nl, 0);
        assert(init + seq![parts.last()] =~= parts);
    }
}

/// The lines of a text that was joined from lines are these lines, where the last is not empty.
pub proof fn law_joined_lines_are_read_back(parts: Seq<Seq<char>>)
    requires
        parts.len() > 0,
        parts.last().len() > 0,
        forall|i: int| 0 <= i < parts.len() ==> is_line(#[trigger] parts[i]),
    ensures
        lines_of(joined(parts, "\n"@)) == parts,
{
    reveal_strlit("\n");
    let nl = seq!['\n'];
    assert("\n"@ =~= nl);
    assert(is_line(parts[parts.len() - 1]));
    lemma_one_line(parts.last());
    if parts.len() == 1 {
        assert(parts =~= seq![parts[0]]);
    } else {
        let init = parts.drop_last();
        assert forall|i: int| 0 <= i < init.len() implies is_line(#[trigger] init[i]) by {
            assert(is_line(parts[i]));
        }
        lemma_joined_ended(init);
        lemma_lines_go_on(joined(init, nl), parts.last(), 0);
        assert(init + seq![parts.last()] =~= parts);
    }
}

proof fn lemma_trimmed_start_place(s: Seq<char>) -> (k: int)
    ensures
        0 <= k <= s.len(),
        trimmed_start(s) == s.subrange(k, s.len() as int),
        forall|i: int| 0 <= i < k ==> is_space(#[trigger] s[i]),
        k < s.len() ==> !is_space(s[k]),
    decreases s.len(),
{
    if s.len() > 0 && is_space(s[0]) {
        let rest = s.drop_first();
        let k = lemma_trimmed_start_place(rest);
        assert forall|i: int| 0 <= i < k + 1 implies is_space(#[trigger] s[i]) by {
            if i > 0 {
                assert(rest[i - 1] == s[i]);
            }
        }
        assert(rest.subrange(k, rest.len() as int) =~= s.subrange(k + 1, s.len() as int));
        k + 1
    } else {
        assert(s.subrange(0, s.len() as int) =~= s);
        0
    }
}

proof fn lemma_trimmed_end_place(s: Seq<char>) -> (k: int)
    ensures
        0 <= k <= s.len(),
        trimmed_end(s) == s.subrange(0, k),
        forall|i: int| k <= i < s.len() ==> is_space(#[trigger] s[i]),
        k > 0 ==> !is_space(s[k - 1]),
    decreases s.len(),
{
    if s.len() > 0 && is_space(s.last()) {
        let rest = s.drop_last();
        let k = lemma_trimmed_end_place(rest);
        assert forall|i: int| k <= i < s.len() implies is_space(#[trigger] s[i]) by {
            if i < rest.len() {
                assert(rest[i] == s[i]);
            }
        }
        assert(rest.subrange(0, k) =~= s.subrange(0, k));
        k
    } else {
        assert(s.subrange(0, s.len() as int) =~= s);
        s.len() as int
    }
}

/// Trimming cuts white space off both ends, all of it and nothing else.
pub proof fn law_trimming_cuts_white_space(s: Seq<char>) -> (ends: (int, int))
    ensures
        0 <= ends.0 <= ends.1 <= s.len(),
        trimmed(s) == s.subrange(ends.0, ends.1),
        forall|i: int| 0 <= i < ends.0 || ends.1 <= i < s.len() ==> is_space(#[trigger] s[i]),
        ends.0 < ends.1 ==> !is_space(s[ends.0]) && !is_space(s[ends.1 - 1]),
{
    let a = lemma_trimmed_start_place(s);
    let t = trimmed_start(s);
    let b = lemma_trimmed_end_place(t);
    assert(t.subrange(0, b) =~= s.subrange(a, a + b));
    assert forall|i: int| 0 <= i < a || a + b <= i < s.len() implies is_space(#[trigger] s[i]) by {
        if i >= a + b {
            assert(t[i - a] == s[i]);
        }
    }
    if b > 0 {
        assert(t[b - 1] == s[a + b - 1]);
        if a == s.len() {
            assert(t.len() == 0);
        }
    }
    (a, a + b)
}

/// Numbers in decimal notation differ where the numbers do.
pub proof fn law_decimals_differ(a: nat, b: nat)
    requires
        a != b,
    ensures
        decimal(a) != decimal(b),
{
    lemma_decimal_is_parsed(a);
    lemma_decimal_is_parsed(b);
}

/// Parts that are joined in two go are joined.
pub proof fn law_joined_in_two(a: Seq<Seq<char>>, b: Seq<Seq<char>>, sep: Seq<char>)
    requires
        a.len() > 0,
        b.len() > 0,
    ensures
        joined(a + b, sep) == joined(a, sep) + sep + joined(b, sep),
    decreases b.len(),
{
    let all = a + b;
    if b.len() == 1 {
        assert(all.drop_last() =~= a);
        assert(all.last() == b[0]);
    } else {
        law_joined_in_two(a, b.drop_last(), sep);
        assert(all.drop_last() =~= a + b.drop_last());
        assert(all.last() == b.last());
        assert(joined(all, sep) =~= joined(a, sep) + sep + joined(b, sep));
    }
}

/// A text stands in every text that it is a part of, at its start or end where it is that.
pub proof fn law_part_is_found(a: Seq<char>, p: Seq<char>, b: Seq<char>)
    ensures
        contains(a + p + b, p),
        0 <= find_from(a + p + b, p, 0) <= a.len(),
        starts_with(p + b, p),
        ends_with(a + p, p),
{
    let s = a + p + b;
    assert(s.subrange(a.len() as int, (a.len() + p.len()) as int) =~= p);
    assert(occurs_at(s, p, a.len() as int));
    lemma_find_from(s, p, 0);
    assert((p + b).subrange(0, p.len() as int) =~= p);
    assert((a + p).subrange(a.len() as int, (a.len() + p.len()) as int) =~= p);
}

/// A text in which `p` is found is made of what comes before, `p` and the rest.
pub proof fn law_found_part_splits(s: Seq<char>, p: Seq<char>)
    requires
        contains(s, p),
    ensures
        ({
            let k = find_from(s, p, 0);
            &&& 0 <= k <= k + p.len() <= s.len()
            &&& s == s.subrange(0, k) + p + s.subrange(k + p.len(), s.len() as int)
        }),
{
    lemma_find_from(s, p, 0);
    let i = choose|i: int| #[trigger] occurs_at(s, p, i);
    let k = find_from(s, p, 0);
    assert(occurs_at(s, p, k));
    assert(s =~= s.subrange(0, k) + p + s.subrange(k + p.len(), s.len() as int));
}

/// Replacing leaves a text without the part as it is, puts the new text in the place of the
/// first occurrence, and goes on behind it.
pub proof fn law_replacing_goes_from_part_to_part(
    s: Seq<char>,
    from: Seq<char>,
    to: Seq<char>,
    a: Seq<char>,
    b: Seq<char>,
)
    requires
        from.len() > 0,
    ensures
        !contains(s, from) ==> replaced(s, from, to) == s,
        s == a + from + b && find_from(s, from, 0) == a.len() ==> replaced(s, from, to) == a + to
            + replaced(b, from, to),
{
    lemma_find_from(s, from, 0);
    let k = find_from(s, from, 0);
    if s == a + from + b && k == a.len() {
        assert(s.subrange(0, k) =~= a);
        assert(s.subrange(k + from.len(), s.len() as int) =~= b);
    }
}

/// A prefix is cut off as often as it stands there, a suffix likewise.
pub proof fn law_trimming_cuts_the_ends(p: Seq<char>, s: Seq<char>)
    requires
        p.len() > 0,
    ensures
        trim_prefix(p + s, p) == trim_prefix(s, p),
        !starts_with(s, p) ==> trim_prefix(s, p) == s,
        trim_suffix(s + p, p) == trim_suffix(s, p),
        !ends_with(s, p) ==> trim_suffix(s, p) == s,
{
    law_part_is_found(s, p, s);
    assert((p + s).subrange(p.len() as int, (p + s).len() as int) =~= s);
    assert((s + p).subrange(0, (s + p).len() - p.len()) =~= s);
}

/// A text comes before every longer one that it begins, and two texts with the same beginning
/// are ordered by what follows it.
pub proof fn law_order_looks_at_the_first_difference(
    a: Seq<char>,
    x: Seq<char>,
    y: Seq<char>,
)
    ensures
        text_le(a, a + x),
        text_le(a + x, a + y) == text_le(x, y),
        x.len() > 0 && y.len() > 0 && (x[0] as int) < (y[0] as int) ==> text_le(a + x, a + y)
            && !text_le(a + y, a + x),
    decreases a.len(),
{
    if a.len() > 0 {
        law_order_looks_at_the_first_difference(a.drop_first(), x, y);
        assert((a + x).drop_first() =~= a.drop_first() + x);
        assert((a + y).drop_first() =~= a.drop_first() + y);
    } else {
        assert(a + x =~= x);
        assert(a + y =~= y);
    }
    if a.len() > 0 {
        law_order_looks_at_the_first_difference(a.drop_first(), y, x);
    }
}

} // verus!
