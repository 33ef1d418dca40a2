//! Byte positions in texts.
use crate::text::{chars_of, len_bytes, substring};
use vstd::prelude::*;

verus! {

use crate::text::{byte_len, utf8_len};
use vstd::utf8::{char_is_scalar, encode_scalar};

/// The byte at which character `k` of `s` starts.
pub open spec fn offset(s: Seq<char>, k: int) -> int
    decreases k,
{
    if k <= 0 {
        0
    } else {
        offset(s, k - 1) + utf8_len(s[k - 1])
    }
}

spec fn snapped_from(s: Seq<char>, b: int, k: int) -> int
    decreases k,
{
    if k <= 0 {
        0
    } else if offset(s, k) <= b {
        k
    } else {
        snapped_from(s, b, k - 1)
    }
}

/// The last character that starts at byte `b` or before it; past the end, the length.
pub closed spec fn snapped(s: Seq<char>, b: int) -> int {
    snapped_from(s, b, s.len() as int)
}

/// Whether a character starts at byte `b`, or the text ends there.
pub open spec fn on_boundary(s: Seq<char>, b: int) -> bool {
    offset(s, snapped(s, b)) == b
}

/// The text between two bytes that characters start at.
pub open spec fn byte_slice(s: Seq<char>, from: int, to: int) -> Seq<char> {
    s.subrange(snapped(s, from), snapped(s, to))
}

/// Offsets ascend by at least one byte for each character.
pub proof fn lemma_offsets_ascend(s: Seq<char>, i: int, j: int)
    requires
        0 <= i <= j,
    ensures
        offset(s, i) + (j - i) <= offset(s, j),
        0 <= offset(s, i),
    decreases j,
{
    if i < j {
        lemma_offsets_ascend(s, i, j - 1);
    } else if i > 0 {
        lemma_offsets_ascend(s, i - 1, i - 1);
    }
}

proof fn lemma_snapped_from(s: Seq<char>, b: int, k: int)
    requires
        0 <= b,
        0 <= k,
    ensures
        0 <= snapped_from(s, b, k) <= k,
        offset(s, snapped_from(s, b, k)) <= b,
        forall|j: int| snapped_from(s, b, k) < j <= k ==> #[trigger] offset(s, j) > b,
    decreases k,
{
    if k > 0 && offset(s, k) > b {
        lemma_snapped_from(s, b, k - 1);
    }
}

pub proof fn lemma_snapped(s: Seq<char>, b: int)
    requires
        0 <= b,
    ensures
        0 <= snapped(s, b) <= s.len(),
        offset(s, snapped(s, b)) <= b,
        forall|j: int| snapped(s, b) < j <= s.len() ==> #[trigger] offset(s, j) > b,
{
    lemma_snapped_from(s, b, s.len() as int);
}

/// What starts at the offset of a character is that character.
pub proof fn lemma_snapped_is(s: Seq<char>, b: int, k: int)
    requires
        0 <= b,
        0 <= k <= s.len(),
        offset(s, k) <= b,
        k < s.len() ==> offset(s, k + 1) > b,
    ensures
        snapped(s, b) == k,
{
    lemma_snapped(s, b);
    let m = snapped(s, b);
    if m < k {
        assert(offset(s, k) > b);
    } else if m > k {
        lemma_offsets_ascend(s, k + 1, m);
    }
}

/// Later bytes belong to later characters.
pub proof fn lemma_snapped_monotonic(s: Seq<char>, a: int, b: int)
    requires
        0 <= a <= b,
    ensures
        snapped(s, a) <= snapped(s, b),
{
    lemma_snapped(s, a);
    lemma_snapped(s, b);
    if snapped(s, b) < snapped(s, a) {
        assert(offset(s, snapped(s, a)) > b);
    }
}

proof fn lemma_offset_shift(s: Seq<char>, k: int)
    requires
        1 <= k <= s.len(),
    ensures
        offset(s, k) == utf8_len(s[0]) + offset(s.drop_first(), k - 1),
    decreases k,
{
    if k > 1 {
        lemma_offset_shift(s, k - 1);
        assert(s.drop_first()[k - 2] == s[k - 1]);
    } else {
        assert(offset(s, 0) == 0);
    }
}

/// The whole text ends where its bytes end.
pub proof fn lemma_offset_total(s: Seq<char>)
    ensures
        offset(s, s.len() as int) == byte_len(s),
    decreases s.len(),
{
    if s.len() > 0 {
        lemma_offset_total(s.drop_first());
        lemma_offset_shift(s, s.len() as int);
        char_is_scalar(s[0]);
        assert(encode_scalar(s[0] as u32).len() == utf8_len(s[0]));
    }
}

/// A text with the byte position of each character.
pub struct Positions {
    pub chars: Vec<char>,
    pub offsets: Vec<usize>,
}

impl Positions {
    pub open spec fn wf(self) -> bool {
        &&& self.offsets@.len() == self.chars@.len() + 1
        &&& forall|k: int|
            0 <= k <= self.chars@.len() ==> #[trigger] self.offsets@[k] == offset(self.chars@, k)
    }

    pub fn new(s: &str) -> (p: Self)
        ensures
            p.wf(),
            p.chars@ == s@,
    {
        let total = len_bytes(s);
        let chars = chars_of(s);
        let mut offsets: Vec<usize> = Vec::new();
        offsets.push(0);
        let mut k: usize = 0;
        while k < chars.len()
            invariant
                k <= chars@.len(),
                chars@ == s@,
                total == byte_len(s@),
                offsets@.len() == k + 1,
                forall|j: int| 0 <= j <= k ==> #[trigger] offsets@[j] == offset(chars@, j),
            decreases chars@.len() - k,
        {
            let u: u32 = chars[k] as u32;
            let width: usize = if u < 0x80 {
                1
            } else if u < 0x800 {
                2
            } else if u < 0x10000 {
                3
            } else {
                4
            };
            proof {
                lemma_offset_total(chars@);
                lemma_offsets_ascend(chars@, k + 1, chars@.len() as int);
                assert(offset(chars@, k + 1) == offset(chars@, k as int) + utf8_len(
                    chars@[k as int],
                ));
            }
            let next: usize = offsets[k] + width;
            offsets.push(next);
            k = k + 1;
        }
        Positions { chars, offsets }
    }

    /// Number of bytes.
    pub fn total(&self) -> (n: usize)
        requires
            self.wf(),
        ensures
            n == byte_len(self.chars@),
    {
        proof {
            lemma_offset_total(self.chars@);
        }
        self.offsets[self.chars.len()]
    }

    /// The character that byte `b` belongs to.
    pub fn snap(&self, b: usize) -> (k: usize)
        requires
            self.wf(),
        ensures
            k == snapped(self.chars@, b as int),
            k <= self.chars@.len(),
    {
        let mut k: usize = self.chars.len();
        while k > 0 && self.offsets[k] > b
            invariant
                self.wf(),
                k <= self.chars@.len(),
                forall|j: int|
                    k < j <= self.chars@.len() ==> #[trigger] offset(self.chars@, j) > b,
            decreases k,
        {
            k = k - 1;
        }
        proof {
            assert(offset(self.chars@, k as int) <= b);
            lemma_snapped_is(self.chars@, b as int, k as int);
        }
        k
    }

    /// The text between two bytes that characters start at.
    pub fn slice(&self, from: usize, to: usize) -> (r: String)
        requires
            self.wf(),
            from <= to,
        ensures
            r@ == byte_slice(self.chars@, from as int, to as int),
    {
        proof {
            lemma_snapped_monotonic(self.chars@, from as int, to as int);
        }
        let i = self.snap(from);
        let j = self.snap(to);
        substring(&self.chars, i, j)
    }
}

/// The bytes from where one character starts to where another does hold the characters between
/// them.
pub proof fn law_slice_holds_the_characters_between(s: Seq<char>, i: int, j: int)
    requires
        0 <= i <= j <= s.len(),
    ensures
        byte_slice(s, offset(s, i), offset(s, j)) == s.subrange(i, j),
        on_boundary(s, offset(s, i)),
        on_boundary(s, offset(s, j)),
        0 <= offset(s, i) <= offset(s, j) <= byte_len(s),
{
    lemma_offsets_ascend(s, 0, i);
    lemma_offsets_ascend(s, i, j);
    lemma_offsets_ascend(s, j, s.len() as int);
    lemma_offset_total(s);
    if i < s.len() {
        lemma_offsets_ascend(s, i, i + 1);
    }
    if j < s.len() {
        lemma_offsets_ascend(s, j, j + 1);
    }
    lemma_snapped_is(s, offset(s, i), i);
    lemma_snapped_is(s, offset(s, j), j);
}

/// A character starts where the one before it ends, after as many bytes as that has.
pub proof fn law_offsets_go_by_bytes(a: Seq<char>, b: Seq<char>)
    ensures
        offset(a + b, a.len() as int) == byte_len(a),
        byte_len(a + b) == byte_len(a) + byte_len(b),
{
    lemma_offset_prefix(a, b, a.len() as int);
    lemma_offset_total(a);
    lemma_offset_total(a + b);
    lemma_offset_total(b);
    lemma_offset_suffix(a, b, b.len() as int);
}

proof fn lemma_offset_prefix(a: Seq<char>, b: Seq<char>, k: int)
    requires
        0 <= k <= a.len(),
    ensures
        offset(a + b, k) == offset(a, k),
    decreases k,
{
    if k > 0 {
        lemma_offset_prefix(a, b, k - 1);
    }
}

proof fn lemma_offset_suffix(a: Seq<char>, b: Seq<char>, k: int)
    requires
        0 <= k <= b.len(),
    ensures
        offset(a + b, a.len() + k) == offset(a, a.len() as int) + offset(b, k),
    decreases k,
{
    if k > 0 {
        lemma_offset_suffix(a, b, k - 1);
        assert((a + b)[a.len() + k - 1] == b[k - 1]);
    } else {
        lemma_offset_prefix(a, b, a.len() as int);
    }
}

} // verus!
