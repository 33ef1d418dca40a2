//! Cutting documents into overlapping chunks.
//!
//! Sizes and positions are in characters. Documents with code are cut where its items start,
//! others where their paragraphs end, and where neither lies within the chunk size, at the
//! size itself.
use crate::offsets::Positions;
use crate::text::{chars_of, substring};
use vstd::prelude::*;

verus! {

use crate::offsets::snapped;
use crate::text::texts;

/// Matches where an item of Rust code starts.
pub const CODE_BOUNDARY: &'static str =
    "(?m)^(?:pub\\s+)?(?:fn|struct|enum|impl|trait|mod|type|const|static)\\s";

/// Matches the break between two paragraphs.
pub const PARA_BREAK: &'static str = "\\n\\s*\\n";

/// The bytes at which the matches of a pattern start in a text; none if the pattern is not
/// a regular expression.
pub uninterp spec fn regex_starts(pattern: Seq<char>, text: Seq<char>) -> Option<Seq<usize>>;

/// `regex::Regex::new` and `Regex::find_iter`: where the successive matches start.
#[verifier::external_body]
fn match_starts(pattern: &str, text: &str) -> (r: Option<Vec<usize>>)
    ensures
        match r {
            Some(v) => regex_starts(pattern@, text@) == Some(v@),
            None => regex_starts(pattern@, text@) is None,
        },
{
    let re = regex::Regex::new(pattern).ok()?;
    Some(re.find_iter(text).map(|m| m.start()).collect())
}

/// The starts of the matches, none for a pattern that is no regular expression.
pub open spec fn boundaries(pattern: Seq<char>, text: Seq<char>) -> Seq<usize> {
    match regex_starts(pattern, text) {
        Some(v) => v,
        None => Seq::empty(),
    }
}

/// The natural boundaries of a text: where code items start, or without any, where paragraphs
/// end.
pub open spec fn natural_boundaries(text: Seq<char>) -> Seq<usize> {
    if boundaries(CODE_BOUNDARY@, text).len() > 0 {
        boundaries(CODE_BOUNDARY@, text)
    } else {
        boundaries(PARA_BREAK@, text)
    }
}

/// The characters that start at these bytes.
pub open spec fn char_bounds(text: Seq<char>, starts: Seq<usize>) -> Seq<int> {
    starts.map_values(|b: usize| snapped(text, b as int))
}

/// The last boundary after `lo` and up to `hi`, or `lo` if there is none.
pub open spec fn last_bound(bounds: Seq<int>, lo: int, hi: int) -> int
    decreases hi - lo,
{
    if hi <= lo {
        lo
    } else if bounds.contains(hi) {
        hi
    } else {
        last_bound(bounds, lo, hi - 1)
    }
}

/// Where the chunk that starts at `start` ends: with the text where that fits, else at the last
/// boundary within the size, else at the size.
pub open spec fn chunk_end(bounds: Seq<int>, start: int, total: int, size: int) -> int {
    let bound = last_bound(bounds, start, start + size);
    if total - start <= size {
        total
    } else if bound > start {
        bound
    } else {
        start + size
    }
}

/// Whether a chunk that starts at `start`, before the end `end` of the last one, gets on: it
/// ends later, at a boundary or with the text.
pub open spec fn gets_on(bounds: Seq<int>, start: int, end: int, total: int, size: int) -> bool {
    total - start <= size || last_bound(bounds, end, start + size) > end
}

/// Where the chunk after the one from `start` starts: `overlap` characters before the end of
/// that, unless it would start no later than that or end no later, at the same boundary.
pub open spec fn next_start(
    bounds: Seq<int>,
    start: int,
    total: int,
    size: int,
    overlap: int,
) -> int {
    let end = chunk_end(bounds, start, total, size);
    let back = end - overlap;
    if back > start && (last_bound(bounds, start, start + size) == start || gets_on(
        bounds,
        back,
        end,
        total,
        size,
    )) {
        back
    } else {
        end
    }
}

/// The chunks from `start` on.
pub open spec fn cuts_from(
    bounds: Seq<int>,
    start: int,
    total: int,
    size: int,
    overlap: int,
) -> Seq<(int, int)>
    decreases
        (if total > start {
            total - start
        } else {
            0
        }),
{
    if size <= 0 || total - start <= size {
        seq![(start, total)]
    } else {
        seq![(start, chunk_end(bounds, start, total, size))] + cuts_from(
            bounds,
            next_start(bounds, start, total, size, overlap),
            total,
            size,
            overlap,
        )
    }
}

/// The parts of a text between pairs of positions.
pub open spec fn slices(s: Seq<char>, cuts: Seq<(int, int)>) -> Seq<Seq<char>> {
    cuts.map_values(|c: (int, int)| s.subrange(c.0, c.1))
}

/// Where a text is cut whose natural boundaries start at these bytes.
pub open spec fn text_cuts(s: Seq<char>, starts: Seq<usize>, size: int, overlap: int) -> Seq<
    (int, int),
> {
    cuts_from(char_bounds(s, starts), 0, s.len() as int, size, overlap)
}

/// The chunks of a text.
pub open spec fn chunks_of(s: Seq<char>, size: int, overlap: int) -> Seq<Seq<char>> {
    slices(s, text_cuts(s, natural_boundaries(s), size, overlap))
}

proof fn lemma_last_bound(bounds: Seq<int>, lo: int, hi: int)
    requires
        lo <= hi,
    ensures
        lo <= last_bound(bounds, lo, hi) <= hi,
        last_bound(bounds, lo, hi) > lo ==> bounds.contains(last_bound(bounds, lo, hi)),
        forall|m: int| last_bound(bounds, lo, hi) < m <= hi ==> !#[trigger] bounds.contains(m),
    decreases hi - lo,
{
    if lo < hi && !bounds.contains(hi) {
        lemma_last_bound(bounds, lo, hi - 1);
    }
}

/// The boundaries as machine integers.
pub open spec fn positions_of(v: Seq<usize>) -> Seq<int> {
    v.map_values(|b: usize| b as int)
}

/// The last boundary after `lo` and up to `hi`, or `lo` if there is none.
fn find_last_bound(bounds: &Vec<usize>, lo: usize, hi: usize) -> (r: usize)
    requires
        lo <= hi,
    ensures
        r == last_bound(positions_of(bounds@), lo as int, hi as int),
        lo <= r <= hi,
{
    let ghost all = positions_of(bounds@);
    let mut r: usize = lo;
    let mut i: usize = 0;
    while i < bounds.len()
        invariant
            i <= bounds@.len(),
            all == positions_of(bounds@),
            lo <= r <= hi,
            r > lo ==> all.contains(r as int),
            forall|j: int| 0 <= j < i ==> !(r < #[trigger] all[j] <= hi),
        decreases bounds@.len() - i,
    {
        let b: usize = bounds[i];
        assert(all[i as int] == b);
        if r < b && b <= hi {
            r = b;
        }
        i = i + 1;
    }
    proof {
        let m = last_bound(all, lo as int, hi as int);
        lemma_last_bound(all, lo as int, hi as int);
        if m > r {
            let j = choose|j: int| 0 <= j < all.len() && all[j] == m;
            assert(all[j] == m);
        }
    }
    r
}

/// Splits a text at natural boundaries, given as the bytes at which they start, while
/// respecting the chunk size.
pub fn split_at_pattern(text: &str, starts: &Vec<usize>, chunk_size: usize, overlap: usize) -> (r:
    Vec<String>)
    requires
        chunk_size > 0 || text@.len() == 0,
    ensures
        texts(r@) == slices(
            text@,
            text_cuts(text@, starts@, chunk_size as int, overlap as int),
        ),
{
    let p = Positions::new(text);
    let total: usize = p.chars.len();
    let ghost s = text@;
    let ghost bounds = char_bounds(s, starts@);
    let ghost size = chunk_size as int;
    let mut places: Vec<usize> = Vec::new();
    let mut i: usize = 0;
    while i < starts.len()
        invariant
            i <= starts@.len(),
            p.wf(),
            p.chars@ == s,
            bounds == char_bounds(s, starts@),
            places@.len() == i,
            forall|j: int| 0 <= j < i ==> #[trigger] places@[j] == bounds[j],
        decreases starts@.len() - i,
    {
        places.push(p.snap(starts[i]));
        i = i + 1;
    }
    assert(positions_of(places@) =~= bounds);
    let mut chunks: Vec<String> = Vec::new();
    let mut start: usize = 0;
    let ghost mut done: Seq<(int, int)> = Seq::empty();
    let ghost whole = cuts_from(bounds, 0, total as int, size, overlap as int);
    assert(texts(chunks@) =~= slices(s, done));
    assert(done + whole =~= whole);
    while total - start > chunk_size
        invariant
            p.chars@ == s,
            total == s.len(),
            size == chunk_size,
            chunk_size > 0 || total == 0,
            positions_of(places@) == bounds,
            start <= total,
            texts(chunks@) == slices(s, done),
            done + cuts_from(bounds, start as int, total as int, size, overlap as int) == whole,
        decreases total - start,
    {
        let limit: usize = start + chunk_size;
        let bound = find_last_bound(&places, start, limit);
        let end: usize = if bound > start {
            bound
        } else {
            limit
        };
        assert(end == chunk_end(bounds, start as int, total as int, size));
        let mut next: usize = end;
        if overlap < end - start {
            let back: usize = end - overlap;
            if bound == start || total - back <= chunk_size {
                next = back;
            } else if back + chunk_size > end {
                if find_last_bound(&places, end, back + chunk_size) > end {
                    next = back;
                }
            }
        }
        let ghost cut = (start as int, end as int);
        let ghost before = chunks@;
        chunks.push(substring(&p.chars, start, end));
        proof {
            assert(texts(chunks@) =~= texts(before).push(s.subrange(cut.0, cut.1)));
            assert(slices(s, done.push(cut)) =~= slices(s, done).push(s.subrange(cut.0, cut.1)));
            let rest = cuts_from(bounds, next as int, total as int, size, overlap as int);
            assert(next == next_start(
                bounds,
                start as int,
                total as int,
                size,
                overlap as int,
            ));
            assert(done + (seq![cut] + rest) =~= done.push(cut) + rest);
            done = done.push(cut);
        }
        start = next;
    }
    let ghost cut = (start as int, total as int);
    let ghost before = chunks@;
    chunks.push(substring(&p.chars, start, total));
    proof {
        assert(texts(chunks@) =~= texts(before).push(s.subrange(cut.0, cut.1)));
        assert(slices(s, done.push(cut)) =~= slices(s, done).push(s.subrange(cut.0, cut.1)));
        assert(done + seq![cut] =~= done.push(cut));
    }
    chunks
}

/// Splits text into overlapping chunks.
///
/// Prefers splitting where code items start, then at paragraph breaks, then at the hard limit.
pub fn chunk_text(text: &str, chunk_size: usize, overlap: usize) -> (r: Vec<String>)
    requires
        chunk_size > 0 || text@.len() == 0,
    ensures
        texts(r@) == chunks_of(text@, chunk_size as int, overlap as int),
{
    if chars_of(text).len() <= chunk_size {
        let r = vec![text.to_owned()];
        proof {
            assert(text@.subrange(0, text@.len() as int) =~= text@);
            assert(texts(r@) =~= chunks_of(text@, chunk_size as int, overlap as int));
        }
        return r;
    }
    let code = match match_starts(CODE_BOUNDARY, text) {
        Some(v) => v,
        None => Vec::new(),
    };
    if code.len() > 0 {
        return split_at_pattern(text, &code, chunk_size, overlap);
    }
    let paras = match match_starts(PARA_BREAK, text) {
        Some(v) => v,
        None => Vec::new(),
    };
    split_at_pattern(text, &paras, chunk_size, overlap)
}

// ── Laws ─────────────────────────────────────────────────────────────────────

/// Whether chunk `i` follows from the one before.
spec fn follows(
    cuts: Seq<(int, int)>,
    i: int,
    bounds: Seq<int>,
    total: int,
    size: int,
    overlap: int,
) -> bool {
    &&& total - cuts[i - 1].0 > size
    &&& cuts[i - 1].1 == chunk_end(bounds, cuts[i - 1].0, total, size)
    &&& cuts[i].0 == next_start(bounds, cuts[i - 1].0, total, size, overlap)
}

/// What holds of the chunks from `start` on: each follows from the one before.
spec fn cuts_follow(
    cuts: Seq<(int, int)>,
    bounds: Seq<int>,
    start: int,
    total: int,
    size: int,
    overlap: int,
) -> bool {
    &&& cuts.len() > 0
    &&& cuts[0].0 == start
    &&& cuts.last().1 == total
    &&& total - cuts.last().0 <= size
    &&& forall|i: int|
        0 <= i < cuts.len() ==> 0 <= (#[trigger] cuts[i]).0 <= cuts[i].1 <= total && (total > start
            ==> cuts[i].0 < cuts[i].1)
    &&& forall|i: int|
        0 < i < cuts.len() ==> #[trigger] follows(cuts, i, bounds, total, size, overlap)
}

proof fn lemma_cuts_follow(bounds: Seq<int>, start: int, total: int, size: int, overlap: int)
    requires
        0 <= start <= total,
        0 < size,
        0 <= overlap,
    ensures
        cuts_follow(
            cuts_from(bounds, start, total, size, overlap),
            bounds,
            start,
            total,
            size,
            overlap,
        ),
    decreases total - start,
{
    if total - start > size {
        let end = chunk_end(bounds, start, total, size);
        let next = next_start(bounds, start, total, size, overlap);
        lemma_last_bound(bounds, start, start + size);
        lemma_cuts_follow(bounds, next, total, size, overlap);
        let rest = cuts_from(bounds, next, total, size, overlap);
        let all = seq![(start, end)] + rest;
        assert(cuts_from(bounds, start, total, size, overlap) == all);
        assert(all.last() == rest.last());
        assert forall|i: int| 0 <= i < all.len() implies 0 <= (#[trigger] all[i]).0 < all[i].1
            <= total by {
            if i > 0 {
                assert(all[i] == rest[i - 1]);
            }
        }
        assert forall|i: int| 0 < i < all.len() implies #[trigger] follows(
            all,
            i,
            bounds,
            total,
            size,
            overlap,
        ) by {
            assert(all[i] == rest[i - 1]);
            if i > 1 {
                assert(all[i - 1] == rest[i - 2]);
                assert(follows(rest, i - 1, bounds, total, size, overlap));
            }
        }
    }
}

/// Chunks cover the whole text: the first starts at its start, the last ends at its end, and
/// none starts after the end of the one before. Each starts and ends later than that.
pub proof fn law_chunks_cover_the_text(
    s: Seq<char>,
    starts: Seq<usize>,
    size: int,
    overlap: int,
    i: int,
)
    requires
        0 < size,
        0 <= overlap,
    ensures
        ({
            let cuts = text_cuts(s, starts, size, overlap);
            &&& cuts.len() > 0
            &&& cuts[0].0 == 0
            &&& cuts.last().1 == s.len()
            &&& 0 < i < cuts.len() ==> cuts[i - 1].0 < cuts[i].0 <= cuts[i - 1].1 < cuts[i].1
        }),
{
    let bounds = char_bounds(s, starts);
    let total = s.len() as int;
    let cuts = text_cuts(s, starts, size, overlap);
    lemma_cuts_follow(bounds, 0, total, size, overlap);
    if 0 < i < cuts.len() {
        lemma_ends_ascend(bounds, cuts, total, size, overlap, i);
    }
}

proof fn lemma_ends_ascend(
    bounds: Seq<int>,
    cuts: Seq<(int, int)>,
    total: int,
    size: int,
    overlap: int,
    i: int,
)
    requires
        0 < size,
        0 <= overlap,
        0 < i < cuts.len(),
        cuts_follow(cuts, bounds, 0, total, size, overlap),
    ensures
        cuts[i - 1].0 < cuts[i].0 <= cuts[i - 1].1 < cuts[i].1,
{
    let c = cuts[i - 1];
    let d = cuts[i];
    lemma_last_bound(bounds, c.0, c.0 + size);
    assert(follows(cuts, i, bounds, total, size, overlap));
    assert(c.1 < total);
    if i + 1 < cuts.len() {
        assert(follows(cuts, i + 1, bounds, total, size, overlap));
        lemma_last_bound(bounds, d.0, d.0 + size);
        if d.0 < c.1 {
            if last_bound(bounds, c.0, c.0 + size) == c.0 {
                if last_bound(bounds, d.0, d.0 + size) > d.0 && d.1 <= c.1 {
                    assert(bounds.contains(d.1));
                    assert(c.0 < d.1 <= c.0 + size);
                }
            } else {
                let later = last_bound(bounds, c.1, d.0 + size);
                if c.1 <= d.0 + size {
                    lemma_last_bound(bounds, c.1, d.0 + size);
                    assert(bounds.contains(later));
                }
                assert(d.1 >= later);
            }
        }
    } else {
        assert(d == cuts.last());
    }
}

/// No chunk exceeds the chunk size.
pub proof fn law_chunk_size_is_kept(
    s: Seq<char>,
    starts: Seq<usize>,
    size: int,
    overlap: int,
    i: int,
)
    requires
        0 < size,
        0 <= overlap,
        0 <= i < text_cuts(s, starts, size, overlap).len(),
    ensures
        text_cuts(s, starts, size, overlap)[i].1 - text_cuts(s, starts, size, overlap)[i].0
            <= size,
        slices(s, text_cuts(s, starts, size, overlap))[i].len() <= size,
{
    let bounds = char_bounds(s, starts);
    let cuts = text_cuts(s, starts, size, overlap);
    lemma_cuts_follow(bounds, 0, s.len() as int, size, overlap);
    lemma_last_bound(bounds, cuts[i].0, cuts[i].0 + size);
    if i + 1 < cuts.len() {
        assert(follows(cuts, i + 1, bounds, s.len() as int, size, overlap));
    } else {
        assert(cuts[i] == cuts.last());
    }
}

/// A chunk other than the last ends where a natural boundary starts, if one starts within the
/// chunk size: at the last of these.
pub proof fn law_chunks_end_at_boundaries(
    s: Seq<char>,
    starts: Seq<usize>,
    size: int,
    overlap: int,
    i: int,
    bound: int,
)
    requires
        0 < size,
        0 <= overlap,
        0 <= i < text_cuts(s, starts, size, overlap).len() - 1,
        char_bounds(s, starts).contains(bound),
        text_cuts(s, starts, size, overlap)[i].0 < bound <= text_cuts(
            s,
            starts,
            size,
            overlap,
        )[i].0 + size,
    ensures
        char_bounds(s, starts).contains(text_cuts(s, starts, size, overlap)[i].1),
        bound <= text_cuts(s, starts, size, overlap)[i].1,
{
    let bounds = char_bounds(s, starts);
    let cuts = text_cuts(s, starts, size, overlap);
    lemma_cuts_follow(bounds, 0, s.len() as int, size, overlap);
    lemma_last_bound(bounds, cuts[i].0, cuts[i].0 + size);
    assert(follows(cuts, i + 1, bounds, s.len() as int, size, overlap));
}

/// Each chunk begins with the last `overlap` characters of the one before, where that is longer
/// than the overlap. The exception is a chunk that ends at a boundary after which no other lies
/// within reach of the overlapping chunk, and the end of the text neither: the next one starts
/// at that boundary, for it would end there too.
pub proof fn law_chunks_overlap(
    s: Seq<char>,
    starts: Seq<usize>,
    size: int,
    overlap: int,
    i: int,
)
    requires
        0 <= overlap,
        0 < size,
        0 < i < text_cuts(s, starts, size, overlap).len(),
        ({
            let c = text_cuts(s, starts, size, overlap)[i - 1];
            let back = c.1 - overlap;
            let bounds = char_bounds(s, starts);
            &&& overlap < c.1 - c.0
            &&& {
                ||| !bounds.contains(c.1)
                ||| s.len() - back <= size
                ||| exists|m: int| c.1 < m <= back + size && #[trigger] bounds.contains(m)
            }
        }),
    ensures
        ({
            let before = slices(s, text_cuts(s, starts, size, overlap))[i - 1];
            let chunk = slices(s, text_cuts(s, starts, size, overlap))[i];
            &&& chunk.len() > overlap
            &&& chunk.subrange(0, overlap) == before.subrange(
                before.len() - overlap,
                before.len() as int,
            )
        }),
{
    let bounds = char_bounds(s, starts);
    let total = s.len() as int;
    let cuts = text_cuts(s, starts, size, overlap);
    let c = cuts[i - 1];
    let d = cuts[i];
    let back = c.1 - overlap;
    lemma_cuts_follow(bounds, 0, total, size, overlap);
    lemma_ends_ascend(bounds, cuts, total, size, overlap, i);
    lemma_last_bound(bounds, c.0, c.0 + size);
    assert(follows(cuts, i, bounds, total, size, overlap));
    if bounds.contains(c.1) && total - back > size {
        let m = choose|m: int| c.1 < m <= back + size && #[trigger] bounds.contains(m);
        assert(bounds.contains(m));
        lemma_last_bound(bounds, c.1, back + size);
        assert(last_bound(bounds, c.1, back + size) >= m);
    }
    assert(d.0 == back);
    let chunk = slices(s, cuts)[i];
    let before = slices(s, cuts)[i - 1];
    assert(chunk == s.subrange(d.0, d.1));
    assert(before == s.subrange(c.0, c.1));
    assert(chunk.subrange(0, overlap) =~= before.subrange(
        before.len() - overlap,
        before.len() as int,
    ));
}

/// A text without natural boundaries overlaps at every cut.
pub proof fn law_hard_cuts_overlap(s: Seq<char>, size: int, overlap: int, i: int)
    requires
        0 <= overlap < size,
        0 < i < text_cuts(s, Seq::empty(), size, overlap).len(),
    ensures
        ({
            let cuts = text_cuts(s, Seq::empty(), size, overlap);
            &&& cuts[i - 1].1 == cuts[i - 1].0 + size
            &&& cuts[i].0 == cuts[i - 1].1 - overlap
        }),
{
    let bounds = char_bounds(s, Seq::empty());
    let cuts = text_cuts(s, Seq::empty(), size, overlap);
    let c = cuts[i - 1];
    lemma_cuts_follow(bounds, 0, s.len() as int, size, overlap);
    lemma_last_bound(bounds, c.0, c.0 + size);
    assert(follows(cuts, i, bounds, s.len() as int, size, overlap));
    assert(!bounds.contains(last_bound(bounds, c.0, c.0 + size)));
}

} // verus!
