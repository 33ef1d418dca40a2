//! Text out of HTML pages.
use crate::offsets::Positions;
use crate::text::{
    char_is_space,
    chars_of,
    find_chars,
    has_prefix,
    index_char,
    str_eq,
    string_of,
    substring,
    to_lowercase,
    trim,
};
use vstd::prelude::*;

verus! {

use crate::offsets::{
    byte_slice,
    law_slice_holds_the_characters_between,
    lemma_offset_total,
    lemma_offsets_ascend,
    offset,
    on_boundary,
};
use crate::seqs::keep;
use crate::text::{
    byte_len,
    contains,
    find_from,
    index_of,
    is_space,
    lemma_find_from,
    lemma_index_of,
    lowercase,
    starts_with,
    trimmed,
    utf8_len,
};
use vstd::string::StringExecFns;

// ── Documentation pages ──────────────────────────────────────────────────────

/// Whether text is skipped after a tag: a script starts, ends, or goes on.
pub open spec fn script_after(tag: Seq<char>, script: bool) -> bool {
    if starts_with(lowercase(tag), "<script"@) {
        true
    } else if starts_with(lowercase(tag), "</script"@) {
        false
    } else {
        script
    }
}

/// Where the name of the entity ends that starts with the `&` at `i`, searching from `j` on.
pub open spec fn entity_end(s: Seq<char>, i: int, j: int) -> int
    decreases s.len() - j,
{
    if j < s.len() && s[j] != ';' && s[j] != ' ' && j - i < 10 {
        entity_end(s, i, j + 1)
    } else {
        j
    }
}

/// The text that an entity stands for; an unknown one stands for itself.
pub open spec fn decoded(entity: Seq<char>) -> Seq<char> {
    if entity == "&amp;"@ {
        seq!['&']
    } else if entity == "&lt;"@ {
        seq!['<']
    } else if entity == "&gt;"@ {
        seq!['>']
    } else if entity == "&quot;"@ {
        seq!['"']
    } else if entity == "&#39;"@ || entity == "&apos;"@ {
        seq!['\'']
    } else if entity == "&nbsp;"@ {
        seq![' ']
    } else {
        entity
    }
}

/// The text of a page from position `i` on: a line break for every tag, nothing of scripts,
/// and the characters that entities stand for.
pub open spec fn stripped(s: Seq<char>, i: int, script: bool) -> Seq<char>
    decreases s.len() - i,
{
    if i < 0 || i >= s.len() {
        Seq::empty()
    } else if s[i] == '<' {
        let e = index_of(s, '>', i);
        if i < e < s.len() {
            seq!['\n'] + stripped(s, e + 1, script_after(s.subrange(i, e + 1), script))
        } else {
            Seq::empty()
        }
    } else if script {
        stripped(s, i + 1, script)
    } else if s[i] == '&' {
        let e = entity_end(s, i, i + 1);
        if i < e < s.len() && s[e] == ';' {
            decoded(s.subrange(i, e + 1)) + stripped(s, e + 1, script)
        } else {
            seq!['&'] + stripped(s, i + 1, script)
        }
    } else {
        seq![s[i]] + stripped(s, i + 1, script)
    }
}

fn find_entity_end(s: &Vec<char>, i: usize) -> (e: usize)
    requires
        i < s@.len(),
    ensures
        e == entity_end(s@, i as int, i + 1),
        i < e <= s@.len(),
{
    let n: usize = s.len();
    let mut j: usize = i + 1;
    while j < n && s[j] != ';' && s[j] != ' ' && j - i < 10
        invariant
            n == s@.len(),
            i < j <= n,
            entity_end(s@, i as int, j as int) == entity_end(s@, i as int, i + 1),
        decreases s@.len() - j,
    {
        j = j + 1;
    }
    j
}

fn push_decoded(out: &mut String, entity: &str)
    ensures
        final(out)@ == old(out)@ + decoded(entity@),
{
    let ghost pre = out@;
    if str_eq(entity, "&amp;") {
        out.push('&');
        assert(out@ == pre + seq!['&']);
    } else if str_eq(entity, "&lt;") {
        out.push('<');
        assert(out@ == pre + seq!['<']);
    } else if str_eq(entity, "&gt;") {
        out.push('>');
        assert(out@ == pre + seq!['>']);
    } else if str_eq(entity, "&quot;") {
        out.push('"');
        assert(out@ == pre + seq!['"']);
    } else if str_eq(entity, "&#39;") || str_eq(entity, "&apos;") {
        out.push('\'');
        assert(out@ == pre + seq!['\'']);
    } else if str_eq(entity, "&nbsp;") {
        out.push(' ');
        assert(out@ == pre + seq![' ']);
    } else {
        out.append(entity);
    }
}

/// The text of a documentation page.
pub fn strip_html(html: &str) -> (r: String)
    ensures
        r@ == stripped(html@, 0, false),
{
    let s = chars_of(html);
    let mut out = String::new();
    let mut script: bool = false;
    let mut i: usize = 0;
    assert(out@ + stripped(s@, 0, false) =~= stripped(s@, 0, false));
    while i < s.len()
        invariant
            i <= s@.len(),
            s@ == html@,
            out@ + stripped(s@, i as int, script) == stripped(s@, 0, false),
        decreases s@.len() - i,
    {
        let ghost before = out@;
        if s[i] == '<' {
            proof {
                lemma_index_of(s@, '>', i as int);
            }
            let e = index_char(&s, '>', i);
            if e >= s.len() {
                assert(out@ + Seq::<char>::empty() =~= out@);
                return out;
            }
            let tag = substring(&s, i, e + 1);
            let lower = to_lowercase(tag.as_str());
            out.push('\n');
            if has_prefix(lower.as_str(), "<script") {
                script = true;
            } else if has_prefix(lower.as_str(), "</script") {
                script = false;
            }
            i = e + 1;
            assert(before + (seq!['\n'] + stripped(s@, i as int, script)) =~= out@ + stripped(
                s@,
                i as int,
                script,
            ));
        } else if script {
            i = i + 1;
        } else if s[i] == '&' {
            let e = find_entity_end(&s, i);
            if e < s.len() && s[e] == ';' {
                let entity = substring(&s, i, e + 1);
                push_decoded(&mut out, entity.as_str());
                i = e + 1;
                assert(before + (decoded(entity@) + stripped(s@, i as int, script)) =~= out@
                    + stripped(s@, i as int, script));
            } else {
                out.push('&');
                i = i + 1;
                assert(before + (seq!['&'] + stripped(s@, i as int, script)) =~= out@ + stripped(
                    s@,
                    i as int,
                    script,
                ));
            }
        } else {
            let c: char = s[i];
            out.push(c);
            i = i + 1;
            assert(before + (seq![c] + stripped(s@, i as int, script)) =~= out@ + stripped(
                s@,
                i as int,
                script,
            ));
        }
    }
    assert(out@ + Seq::<char>::empty() =~= out@);
    out
}

// ── Other pages ──────────────────────────────────────────────────────────────

/// Whether text is skipped after a tag of this content.
pub open spec fn skips_after(tag: Seq<char>, script: bool) -> bool {
    if starts_with(lowercase(tag), "script"@) {
        true
    } else if starts_with(lowercase(tag), "/script"@) {
        false
    } else {
        script
    }
}

/// What the reading of a page has come to.
pub struct PageState {
    pub out: Seq<char>,
    pub in_tag: bool,
    pub script: bool,
    /// What the current tag holds so far.
    pub tag: Seq<char>,
}

/// The reading of a page after one more character: `<` opens a tag anew, `>` closes it for a
/// blank, and what is neither in a tag nor in a script is text.
pub open spec fn page_step(p: PageState, c: char) -> PageState {
    if c == '<' {
        PageState { in_tag: true, tag: Seq::empty(), ..p }
    } else if c == '>' && p.in_tag {
        PageState {
            out: p.out.push(' '),
            in_tag: false,
            script: skips_after(p.tag, p.script),
            tag: p.tag,
        }
    } else if p.in_tag {
        PageState { tag: p.tag.push(c), ..p }
    } else if !p.script {
        PageState { out: p.out.push(c), ..p }
    } else {
        p
    }
}

/// The reading of the first `n` characters of a page.
pub open spec fn page_read(s: Seq<char>, n: int) -> PageState
    decreases n,
{
    if n <= 0 {
        PageState { out: Seq::empty(), in_tag: false, script: false, tag: Seq::empty() }
    } else {
        page_step(page_read(s, n - 1), s[n - 1])
    }
}

/// A text with a line break for every run of white space.
pub open spec fn collapsed(s: Seq<char>) -> Seq<char>
    decreases s.len(),
{
    if s.len() == 0 {
        Seq::empty()
    } else {
        let rest = collapsed(s.drop_last());
        if !is_space(s.last()) {
            rest.push(s.last())
        } else if s.len() >= 2 && is_space(s[s.len() - 2]) {
            rest
        } else {
            rest.push('\n')
        }
    }
}

/// The text of a page: without tags and scripts, white space collapsed.
pub open spec fn page_text(s: Seq<char>) -> Seq<char> {
    collapsed(page_read(s, s.len() as int).out)
}

fn read_page(s: &Vec<char>) -> (out: Vec<char>)
    ensures
        out@ == page_read(s@, s@.len() as int).out,
{
    let mut out: Vec<char> = Vec::new();
    let mut in_tag: bool = false;
    let mut script: bool = false;
    let mut tag: Vec<char> = Vec::new();
    let mut i: usize = 0;
    while i < s.len()
        invariant
            i <= s@.len(),
            ({
                let p = page_read(s@, i as int);
                out@ == p.out && in_tag == p.in_tag && script == p.script && tag@ == p.tag
            }),
        decreases s@.len() - i,
    {
        let c: char = s[i];
        if c == '<' {
            in_tag = true;
            tag = Vec::new();
        } else if c == '>' && in_tag {
            in_tag = false;
            let name = string_of(&tag);
            let lower = to_lowercase(name.as_str());
            if has_prefix(lower.as_str(), "script") {
                script = true;
            } else if has_prefix(lower.as_str(), "/script") {
                script = false;
            }
            out.push(' ');
        } else if in_tag {
            tag.push(c);
        } else if !script {
            out.push(c);
        }
        i = i + 1;
    }
    out
}

/// The text of a page that is not known to be documentation.
pub fn strip_html_basic(html: &str) -> (r: String)
    ensures
        r@ == page_text(html@),
{
    let s = chars_of(html);
    let out = read_page(&s);
    let mut r = String::new();
    let mut last_was_space: bool = false;
    let mut i: usize = 0;
    assert(collapsed(out@.subrange(0, 0)) =~= r@);
    while i < out.len()
        invariant
            i <= out@.len(),
            r@ == collapsed(out@.subrange(0, i as int)),
            last_was_space == (i > 0 && is_space(out@[i - 1])),
        decreases out@.len() - i,
    {
        let c: char = out[i];
        proof {
            let next = out@.subrange(0, i + 1);
            assert(next.drop_last() =~= out@.subrange(0, i as int));
            assert(next.last() == c);
        }
        if char_is_space(c) {
            if !last_was_space {
                r.push('\n');
                last_was_space = true;
            }
        } else {
            r.push(c);
            last_was_space = false;
        }
        i = i + 1;
    }
    assert(out@.subrange(0, out@.len() as int) =~= out@);
    r
}

/// What a page says of its title.
#[derive(Debug)]
pub enum PageTitle {
    /// There is no title.
    Missing,
    /// The title's place in the lowercase page does not fall between characters of the page
    /// itself.
    Misplaced,
    Found(String),
}

/// The bytes of the lowercase page between which the title stands.
pub open spec fn title_span(lower: Seq<char>) -> Option<(int, int)> {
    let open = find_from(lower, "<title>"@, 0);
    let close = find_from(lower, "</title>"@, 0);
    if open < 0 || close < 0 || offset(lower, open) + 7 >= offset(lower, close) {
        None
    } else {
        Some((offset(lower, open) + 7, offset(lower, close)))
    }
}

/// The title of a page whose lowercase form is `lower`.
pub open spec fn is_title(html: Seq<char>, lower: Seq<char>, r: PageTitle) -> bool {
    match title_span(lower) {
        None => r is Missing,
        Some((from, to)) => if to <= byte_len(html) && on_boundary(html, from) && on_boundary(
            html,
            to,
        ) {
            r is Found && r->0@ == trimmed(byte_slice(html, from, to))
        } else {
            r is Misplaced
        },
    }
}

/// The title of a page, given its lowercase form.
pub fn title_in(html: &str, lower: &str) -> (r: PageTitle)
    ensures
        is_title(html@, lower@, r),
{
    let low = Positions::new(lower);
    let open_tag = chars_of("<title>");
    let close_tag = chars_of("</title>");
    proof {
        reveal_strlit("<title>");
        reveal_strlit("</title>");
        lemma_find_from(low.chars@, "<title>"@, 0);
        lemma_find_from(low.chars@, "</title>"@, 0);
    }
    let open: usize = match find_chars(&low.chars, &open_tag, 0) {
        Some(k) => k,
        None => {
            return PageTitle::Missing;
        },
    };
    let close: usize = match find_chars(&low.chars, &close_tag, 0) {
        Some(k) => k,
        None => {
            return PageTitle::Missing;
        },
    };
    proof {
        lemma_offsets_ascend(low.chars@, open as int, open + 7);
        lemma_offsets_ascend(low.chars@, open + 7, low.chars@.len() as int);
        lemma_offset_total(low.chars@);
    }
    let from: usize = low.offsets[open];
    let to: usize = low.offsets[close];
    if to < 7 || from >= to - 7 {
        return PageTitle::Missing;
    }
    let from: usize = from + 7;
    let page = Positions::new(html);
    let i = page.snap(from);
    let j = page.snap(to);
    if to > page.total() || page.offsets[i] != from || page.offsets[j] != to {
        return PageTitle::Misplaced;
    }
    let cut = page.slice(from, to);
    PageTitle::Found(trim(cut.as_str()))
}

/// The title of a page.
pub fn extract_title(html: &str) -> (r: PageTitle)
    ensures
        is_title(html@, lowercase(html@), r),
{
    let lower = to_lowercase(html);
    title_in(html, lower.as_str())
}

// ── Laws ─────────────────────────────────────────────────────────────────────

/// Whether a text has no tags, and line breaks for white space, one at a time.
pub open spec fn is_plain(s: Seq<char>) -> bool {
    &&& forall|i: int| 0 <= i < s.len() ==> #[trigger] s[i] != '<'
    &&& forall|i: int| 0 <= i < s.len() && is_space(#[trigger] s[i]) ==> s[i] == '\n'
    &&& forall|i: int, j: int|
        0 <= i < s.len() && j == i + 1 && j < s.len() ==> !(is_space(#[trigger] s[i]) && is_space(
            #[trigger] s[j],
        ))
}

proof fn lemma_text_has_no_tags(s: Seq<char>, n: int)
    requires
        n <= s.len(),
    ensures
        forall|i: int|
            0 <= i < page_read(s, n).out.len() ==> #[trigger] page_read(s, n).out[i] != '<',
    decreases n,
{
    if n > 0 {
        lemma_text_has_no_tags(s, n - 1);
        let before = page_read(s, n - 1).out;
        let out = page_read(s, n).out;
        assert forall|i: int| 0 <= i < out.len() implies #[trigger] out[i] != '<' by {
            if i < before.len() {
                assert(out[i] == before[i]);
            }
        }
    }
}

proof fn lemma_collapsed_is_plain(s: Seq<char>)
    requires
        forall|i: int| 0 <= i < s.len() ==> #[trigger] s[i] != '<',
    ensures
        is_plain(collapsed(s)),
        s.len() > 0 ==> collapsed(s).len() > 0 && is_space(collapsed(s).last()) == is_space(
            s.last(),
        ),
    decreases s.len(),
{
    if s.len() > 0 {
        let init = s.drop_last();
        assert forall|i: int| 0 <= i < init.len() implies #[trigger] init[i] != '<' by {
            assert(init[i] == s[i]);
        }
        lemma_collapsed_is_plain(init);
        if s.len() >= 2 {
            assert(init.last() == s[s.len() - 2]);
        }
    }
}

proof fn lemma_plain_is_kept(s: Seq<char>, n: int)
    requires
        is_plain(s),
        0 <= n <= s.len(),
    ensures
        page_read(s, n).out == s.subrange(0, n),
        !page_read(s, n).in_tag,
        !page_read(s, n).script,
        collapsed(s.subrange(0, n)) == s.subrange(0, n),
    decreases n,
{
    if n > 0 {
        lemma_plain_is_kept(s, n - 1);
        let part = s.subrange(0, n);
        assert(s[n - 1] != '<');
        assert(part.drop_last() =~= s.subrange(0, n - 1));
        assert(part =~= s.subrange(0, n - 1).push(s[n - 1]));
        if n >= 2 {
            assert(!(is_space(s[n - 2]) && is_space(s[n - 1])));
        }
    } else {
        assert(page_read(s, n).out =~= s.subrange(0, n));
        assert(collapsed(s.subrange(0, n)) =~= s.subrange(0, n));
    }
}

/// The text of a page has no tags, and line breaks for white space, one at a time.
pub proof fn law_page_text_is_plain(s: Seq<char>)
    ensures
        is_plain(page_text(s)),
{
    lemma_text_has_no_tags(s, s.len() as int);
    lemma_collapsed_is_plain(page_read(s, s.len() as int).out);
}

/// What is left of a page holds nothing more to strip.
pub proof fn law_page_text_stays(s: Seq<char>)
    ensures
        page_text(page_text(s)) == page_text(s),
{
    let text = page_text(s);
    law_page_text_is_plain(s);
    lemma_plain_is_kept(text, text.len() as int);
    assert(text.subrange(0, text.len() as int) =~= text);
}

proof fn lemma_stripped_goes_on(a: Seq<char>, b: Seq<char>, i: int)
    requires
        0 <= i <= a.len(),
        forall|k: int| 0 <= k < a.len() ==> (#[trigger] a[k]) != '<' && a[k] != '&',
    ensures
        stripped(a + b, i, false) == a.subrange(i, a.len() as int) + stripped(
            a + b,
            a.len() as int,
            false,
        ),
    decreases a.len() - i,
{
    let s = a + b;
    if i == a.len() {
        assert(a.subrange(i, a.len() as int) =~= Seq::<char>::empty());
        assert(Seq::<char>::empty() + stripped(s, i, false) =~= stripped(s, i, false));
    } else {
        lemma_stripped_goes_on(a, b, i + 1);
        assert(s[i] == a[i]);
        assert(stripped(s, i, false) =~= a.subrange(i, a.len() as int) + stripped(
            s,
            a.len() as int,
            false,
        ));
    }
}

proof fn lemma_entity_end_suffix(s: Seq<char>, from: int, i: int, j: int)
    requires
        0 <= from <= i < j <= s.len(),
    ensures
        entity_end(s.subrange(from, s.len() as int), i - from, j - from) == entity_end(s, i, j)
            - from,
        j <= entity_end(s, i, j) <= s.len(),
    decreases s.len() - j,
{
    let t = s.subrange(from, s.len() as int);
    if j < s.len() {
        assert(t[j - from] == s[j]);
        if s[j] != ';' && s[j] != ' ' && j - i < 10 {
            lemma_entity_end_suffix(s, from, i, j + 1);
        }
    }
}

proof fn lemma_index_suffix(s: Seq<char>, c: char, from: int, i: int)
    requires
        0 <= from <= i <= s.len(),
    ensures
        index_of(s.subrange(from, s.len() as int), c, i - from) == index_of(s, c, i) - from,
    decreases s.len() - i,
{
    let t = s.subrange(from, s.len() as int);
    if i < s.len() {
        assert(t[i - from] == s[i]);
        if s[i] != c {
            lemma_index_suffix(s, c, from, i + 1);
        }
    }
}

/// What is left of a page from a position on is what is left of the rest of the page.
proof fn lemma_stripped_suffix(s: Seq<char>, from: int, i: int, script: bool)
    requires
        0 <= from <= i <= s.len(),
    ensures
        stripped(s.subrange(from, s.len() as int), i - from, script) == stripped(s, i, script),
    decreases s.len() - i,
{
    let t = s.subrange(from, s.len() as int);
    if i < s.len() {
        assert(t[i - from] == s[i]);
        if s[i] == '<' {
            lemma_index_suffix(s, '>', from, i);
            lemma_index_of(s, '>', i);
            let e = index_of(s, '>', i);
            if i < e < s.len() {
                assert(t.subrange(i - from, e + 1 - from) =~= s.subrange(i, e + 1));
                lemma_stripped_suffix(
                    s,
                    from,
                    e + 1,
                    script_after(s.subrange(i, e + 1), script),
                );
            }
        } else if script {
            lemma_stripped_suffix(s, from, i + 1, script);
        } else if s[i] == '&' {
            lemma_entity_end_suffix(s, from, i, i + 1);
            let e = entity_end(s, i, i + 1);
            if i < e < s.len() && s[e] == ';' {
                assert(t[e - from] == s[e]);
                assert(t.subrange(i - from, e + 1 - from) =~= s.subrange(i, e + 1));
                lemma_stripped_suffix(s, from, e + 1, script);
            } else {
                if e < s.len() {
                    assert(t[e - from] == s[e]);
                }
                lemma_stripped_suffix(s, from, i + 1, script);
            }
        } else {
            lemma_stripped_suffix(s, from, i + 1, script);
        }
    }
}

/// Text before the first tag and the first entity stays as it is, and what follows is stripped on
/// its own.
pub proof fn law_plain_text_stays(a: Seq<char>, b: Seq<char>)
    requires
        forall|k: int| 0 <= k < a.len() ==> (#[trigger] a[k]) != '<' && a[k] != '&',
    ensures
        stripped(a + b, 0, false) == a + stripped(b, 0, false),
        stripped(a, 0, false) == a,
{
    lemma_stripped_goes_on(a, b, 0);
    lemma_stripped_suffix(a + b, a.len() as int, a.len() as int, false);
    assert((a + b).subrange(a.len() as int, (a + b).len() as int) =~= b);
    assert(a.subrange(0, a.len() as int) =~= a);
    lemma_stripped_goes_on(a, Seq::empty(), 0);
    assert(a + Seq::<char>::empty() =~= a);
}

/// A tag becomes a line break, whatever it holds, and what follows is stripped on its own, unless
/// the tag opens a script.
pub proof fn law_tag_becomes_a_line_break(tag: Seq<char>, b: Seq<char>)
    requires
        tag.len() >= 2,
        tag[0] == '<',
        tag.last() == '>',
        forall|k: int| 0 <= k < tag.len() - 1 ==> (#[trigger] tag[k]) != '>',
        !starts_with(lowercase(tag), "<script"@),
    ensures
        stripped(tag + b, 0, false) == seq!['\n'] + stripped(b, 0, false),
{
    let s = tag + b;
    let n = tag.len() as int;
    lemma_index_of(s, '>', 0);
    assert(s[n - 1] == '>');
    let e = index_of(s, '>', 0);
    if e < n - 1 {
        assert(s[e] == tag[e]);
    }
    assert(s.subrange(0, n) =~= tag);
    lemma_stripped_suffix(s, n, n, false);
    assert(s.subrange(n, s.len() as int) =~= b);
}

proof fn lemma_script_skipped(a: Seq<char>, b: Seq<char>, i: int)
    requires
        0 <= i <= a.len(),
        forall|k: int| 0 <= k < a.len() ==> (#[trigger] a[k]) != '<',
    ensures
        stripped(a + b, i, true) == stripped(a + b, a.len() as int, true),
    decreases a.len() - i,
{
    if i < a.len() {
        assert((a + b)[i] == a[i]);
        lemma_script_skipped(a, b, i + 1);
    }
}

/// Of a script up to its end nothing is left but the line breaks of its two tags.
pub proof fn law_script_is_left_out(
    open: Seq<char>,
    code: Seq<char>,
    close: Seq<char>,
    b: Seq<char>,
)
    requires
        open.len() >= 2,
        open[0] == '<',
        open.last() == '>',
        forall|k: int| 0 <= k < open.len() - 1 ==> (#[trigger] open[k]) != '>',
        starts_with(lowercase(open), "<script"@),
        forall|k: int| 0 <= k < code.len() ==> (#[trigger] code[k]) != '<',
        close.len() >= 2,
        close[0] == '<',
        close.last() == '>',
        forall|k: int| 0 <= k < close.len() - 1 ==> (#[trigger] close[k]) != '>',
        starts_with(lowercase(close), "</script"@),
        !starts_with(lowercase(close), "<script"@),
    ensures
        stripped(open + code + close + b, 0, false) == seq!['\n', '\n'] + stripped(b, 0, false),
{
    let s = open + code + close + b;
    let n = open.len() as int;
    let m = n + code.len();
    let z = m + close.len();
    lemma_index_of(s, '>', 0);
    assert(s[n - 1] == '>');
    let e = index_of(s, '>', 0);
    if e < n - 1 {
        assert(s[e] == open[e]);
    }
    assert(s.subrange(0, n) =~= open);
    let rest = code + (close + b);
    assert(s.subrange(n, s.len() as int) =~= rest);
    lemma_stripped_suffix(s, n, n, true);
    lemma_script_skipped(code, close + b, 0);
    lemma_stripped_suffix(rest, code.len() as int, code.len() as int, true);
    assert(rest.subrange(code.len() as int, rest.len() as int) =~= close + b);
    let t = close + b;
    let k = close.len() as int;
    lemma_index_of(t, '>', 0);
    assert(t[k - 1] == '>');
    let f = index_of(t, '>', 0);
    if f < k - 1 {
        assert(t[f] == close[f]);
    }
    assert(t.subrange(0, k) =~= close);
    lemma_stripped_suffix(t, k, k, false);
    assert(t.subrange(k, t.len() as int) =~= b);
    assert(stripped(s, 0, false) =~= seq!['\n', '\n'] + stripped(b, 0, false));
}

/// Entities stand for one character each.
pub proof fn law_entities_are_decoded()
    ensures
        decoded("&amp;"@) == "&"@,
        decoded("&lt;"@) == "<"@,
        decoded("&gt;"@) == ">"@,
        decoded("&quot;"@) == "\""@,
        decoded("&#39;"@) == "'"@,
        decoded("&apos;"@) == "'"@,
        decoded("&nbsp;"@) == " "@,
{
    reveal_strlit("&amp;");
    reveal_strlit("&lt;");
    reveal_strlit("&gt;");
    reveal_strlit("&quot;");
    reveal_strlit("&#39;");
    reveal_strlit("&apos;");
    reveal_strlit("&nbsp;");
    reveal_strlit("&");
    reveal_strlit("<");
    reveal_strlit(">");
    reveal_strlit("\"");
    reveal_strlit("'");
    reveal_strlit(" ");
    assert("&amp;"@[1] == 'a' && "&amp;"@[2] == 'm');
    assert("&lt;"@[1] == 'l');
    assert("&gt;"@[1] == 'g');
    assert("&quot;"@[1] == 'q');
    assert("&#39;"@[1] == '#');
    assert("&apos;"@[1] == 'a' && "&apos;"@[2] == 'p');
    assert("&nbsp;"@[1] == 'n');
    assert(decoded("&amp;"@) =~= "&"@);
    assert(decoded("&lt;"@) =~= "<"@);
    assert(decoded("&gt;"@) =~= ">"@);
    assert(decoded("&quot;"@) =~= "\""@);
    assert(decoded("&#39;"@) =~= "'"@);
    assert(decoded("&apos;"@) =~= "'"@);
    assert(decoded("&nbsp;"@) =~= " "@);
}

/// The characters of a text that are no white space.
pub open spec fn visible(s: Seq<char>) -> Seq<char> {
    keep(s, |c: char| !is_space(c))
}

proof fn lemma_collapsed_visible(s: Seq<char>)
    ensures
        visible(collapsed(s)) == visible(s),
    decreases s.len(),
{
    if s.len() > 0 {
        let rest = collapsed(s.drop_last());
        lemma_collapsed_visible(s.drop_last());
        assert(rest.push(s.last()).drop_last() =~= rest);
        assert(rest.push('\n').drop_last() =~= rest);
    }
}

proof fn lemma_page_read_plain(a: Seq<char>, s: Seq<char>, n: int)
    requires
        0 <= n <= a.len() <= s.len(),
        forall|k: int| 0 <= k < a.len() ==> s[k] == #[trigger] a[k],
        forall|k: int| 0 <= k < a.len() ==> (#[trigger] a[k]) != '<',
    ensures
        page_read(s, n).out == a.subrange(0, n),
        !page_read(s, n).in_tag,
        !page_read(s, n).script,
    decreases n,
{
    if n > 0 {
        lemma_page_read_plain(a, s, n - 1);
        assert(s[n - 1] == a[n - 1]);
        assert(a.subrange(0, n) =~= a.subrange(0, n - 1).push(a[n - 1]));
    } else {
        assert(page_read(s, n).out =~= a.subrange(0, 0));
    }
}

/// A page without tags keeps every character that is no white space, in order.
pub proof fn law_page_without_tags_keeps_its_words(s: Seq<char>)
    requires
        forall|k: int| 0 <= k < s.len() ==> (#[trigger] s[k]) != '<',
    ensures
        visible(page_text(s)) == visible(s),
{
    lemma_page_read_plain(s, s, s.len() as int);
    assert(s.subrange(0, s.len() as int) =~= s);
    lemma_collapsed_visible(s);
}

proof fn lemma_page_in_tag(a: Seq<char>, t: Seq<char>, s: Seq<char>, n: int)
    requires
        0 <= n <= t.len(),
        a.len() + 1 + t.len() <= s.len(),
        forall|k: int| 0 <= k < a.len() ==> s[k] == #[trigger] a[k],
        forall|k: int| 0 <= k < a.len() ==> (#[trigger] a[k]) != '<',
        s[a.len() as int] == '<',
        forall|k: int| 0 <= k < t.len() ==> s[a.len() + 1 + k] == #[trigger] t[k],
        forall|k: int| 0 <= k < t.len() ==> (#[trigger] t[k]) != '<' && t[k] != '>',
    ensures
        ({
            let p = page_read(s, a.len() + 1 + n);
            &&& p.out == a
            &&& p.in_tag
            &&& !p.script
            &&& p.tag == t.subrange(0, n)
        }),
    decreases n,
{
    if n == 0 {
        lemma_page_read_plain(a, s, a.len() as int);
        assert(a.subrange(0, a.len() as int) =~= a);
        assert(t.subrange(0, 0) =~= Seq::<char>::empty());
    } else {
        lemma_page_in_tag(a, t, s, n - 1);
        assert(s[a.len() + 1 + (n - 1)] == t[n - 1]);
        assert(t.subrange(0, n) =~= t.subrange(0, n - 1).push(t[n - 1]));
    }
}

proof fn lemma_page_after(s: Seq<char>, from: int, b: Seq<char>, n: int)
    requires
        0 <= from,
        from + b.len() == s.len(),
        0 <= n <= b.len(),
        forall|k: int| 0 <= k < b.len() ==> s[from + k] == #[trigger] b[k],
        !page_read(s, from).in_tag,
        !page_read(s, from).script,
    ensures
        ({
            let p = page_read(s, from + n);
            let q = page_read(b, n);
            &&& p.out == page_read(s, from).out + q.out
            &&& p.in_tag == q.in_tag
            &&& p.script == q.script
            &&& p.in_tag ==> p.tag == q.tag
        }),
    decreases n,
{
    let first = page_read(s, from).out;
    if n == 0 {
        assert(first + Seq::<char>::empty() =~= first);
    } else {
        lemma_page_after(s, from, b, n - 1);
        assert(s[from + (n - 1)] == b[n - 1]);
        let q = page_read(b, n - 1).out;
        assert((first + q).push(b[n - 1]) =~= first + q.push(b[n - 1]));
        assert((first + q).push(' ') =~= first + q.push(' '));
    }
}

proof fn lemma_visible_concat(a: Seq<char>, b: Seq<char>)
    ensures
        visible(a + b) == visible(a) + visible(b),
    decreases b.len(),
{
    if b.len() == 0 {
        assert(a + b =~= a);
        assert(visible(a) + visible(b) =~= visible(a));
    } else {
        lemma_visible_concat(a, b.drop_last());
        assert((a + b).drop_last() =~= a + b.drop_last());
        assert(visible(a + b) =~= visible(a) + visible(b));
    }
}

/// A tag is left out of a page's text, and what stands before and after it is kept, unless the
/// tag opens a script.
pub proof fn law_page_tag_is_left_out(a: Seq<char>, t: Seq<char>, b: Seq<char>)
    requires
        forall|k: int| 0 <= k < a.len() ==> (#[trigger] a[k]) != '<',
        forall|k: int| 0 <= k < t.len() ==> (#[trigger] t[k]) != '<' && t[k] != '>',
        !starts_with(lowercase(t), "script"@),
    ensures
        visible(page_text(a + seq!['<'] + t + seq!['>'] + b)) == visible(a) + visible(
            page_text(b),
        ),
{
    let s = a + seq!['<'] + t + seq!['>'] + b;
    let from = a.len() + t.len() + 2;
    lemma_page_in_tag(a, t, s, t.len() as int);
    assert(t.subrange(0, t.len() as int) =~= t);
    assert(s[from - 1] == '>');
    lemma_page_after(s, from as int, b, b.len() as int);
    let out = page_read(s, s.len() as int).out;
    let rest = page_read(b, b.len() as int).out;
    assert(out == a.push(' ') + rest);
    lemma_collapsed_visible(out);
    lemma_collapsed_visible(rest);
    lemma_visible_concat(a.push(' '), rest);
    assert(a.push(' ').drop_last() =~= a);
    assert(is_space(' '));
}

/// The title of a page is what stands between its title tags, without white space at its ends.
pub proof fn law_title_is_between_its_tags(
    html: Seq<char>,
    a: Seq<char>,
    t: Seq<char>,
    b: Seq<char>,
    r: PageTitle,
)
    requires
        html == a + "<title>"@ + t + "</title>"@ + b,
        t.len() > 0,
        find_from(html, "<title>"@, 0) == a.len(),
        find_from(html, "</title>"@, 0) == a.len() + 7 + t.len(),
        is_title(html, html, r),
    ensures
        r is Found,
        r->0@ == trimmed(t),
{
    reveal_strlit("<title>");
    let open = a.len() as int;
    let from = open + 7;
    let to = from + t.len();
    assert forall|i: int| open <= i < from implies utf8_len(#[trigger] html[i]) == 1 by {
        assert(html[i] == "<title>"@[i - open]);
    }
    lemma_ascii_offset(html, open, 7);
    law_slice_holds_the_characters_between(html, from, to);
    lemma_offsets_ascend(html, from, to);
    assert(html.subrange(from, to) =~= t);
}

proof fn lemma_ascii_offset(s: Seq<char>, k: int, n: int)
    requires
        0 <= k,
        0 <= n,
        k + n <= s.len(),
        forall|i: int| k <= i < k + n ==> utf8_len(#[trigger] s[i]) == 1,
    ensures
        offset(s, k + n) == offset(s, k) + n,
    decreases n,
{
    if n > 0 {
        lemma_ascii_offset(s, k, n - 1);
        assert(utf8_len(s[k + n - 1]) == 1);
    }
}

/// A page without title tags has no title.
pub proof fn law_no_tags_no_title(html: Seq<char>, lower: Seq<char>, r: PageTitle)
    requires
        is_title(html, lower, r),
        !contains(lower, "<title>"@),
    ensures
        r is Missing,
{
    lemma_find_from(lower, "<title>"@, 0);
}

proof fn lemma_page_script(s: Seq<char>, from: int, code: Seq<char>, u: Seq<char>, n: int)
    requires
        0 <= from,
        from + code.len() + 1 + u.len() <= s.len(),
        0 <= n <= code.len() + 1 + u.len(),
        forall|k: int| 0 <= k < code.len() ==> s[from + k] == #[trigger] code[k],
        s[from + code.len()] == '<',
        forall|k: int| 0 <= k < u.len() ==> s[from + code.len() + 1 + k] == #[trigger] u[k],
        forall|k: int| 0 <= k < code.len() ==> (#[trigger] code[k]) != '<',
        forall|k: int| 0 <= k < u.len() ==> (#[trigger] u[k]) != '<' && u[k] != '>',
        !page_read(s, from).in_tag,
        page_read(s, from).script,
    ensures
        ({
            let p = page_read(s, from + n);
            &&& p.out == page_read(s, from).out
            &&& p.script
            &&& p.in_tag == (n > code.len())
            &&& n > code.len() ==> p.tag == u.subrange(0, n - code.len() - 1)
        }),
    decreases n,
{
    if n > 0 {
        lemma_page_script(s, from, code, u, n - 1);
        let c = s[from + n - 1];
        if n <= code.len() {
            assert(c == code[n - 1]);
        } else if n == code.len() + 1 {
            assert(c == '<');
            assert(u.subrange(0, 0) =~= Seq::<char>::empty());
        } else {
            let k = n - code.len() - 2;
            assert(s[from + code.len() + 1 + k] == u[k]);
            assert(c == u[k]);
            assert(u.subrange(0, k + 1) =~= u.subrange(0, k).push(u[k]));
        }
    }
}

/// A script is left out of a page's text with its code, and what stands before and after it is
/// kept.
pub proof fn law_page_script_is_left_out(
    a: Seq<char>,
    t: Seq<char>,
    code: Seq<char>,
    u: Seq<char>,
    b: Seq<char>,
)
    requires
        forall|k: int| 0 <= k < a.len() ==> (#[trigger] a[k]) != '<',
        forall|k: int| 0 <= k < t.len() ==> (#[trigger] t[k]) != '<' && t[k] != '>',
        starts_with(lowercase(t), "script"@),
        forall|k: int| 0 <= k < code.len() ==> (#[trigger] code[k]) != '<',
        forall|k: int| 0 <= k < u.len() ==> (#[trigger] u[k]) != '<' && u[k] != '>',
        starts_with(lowercase(u), "/script"@),
    ensures
        visible(
            page_text(a + seq!['<'] + t + seq!['>'] + code + seq!['<'] + u + seq!['>'] + b),
        ) == visible(a) + visible(page_text(b)),
{
    let s = a + seq!['<'] + t + seq!['>'] + code + seq!['<'] + u + seq!['>'] + b;
    let inner = a.len() + t.len() + 2;
    let from = inner + code.len() + u.len() + 2;
    reveal_strlit("script");
    reveal_strlit("/script");
    if starts_with(lowercase(u), "script"@) {
        assert(lowercase(u).subrange(0, 6)[0] == 's');
        assert(lowercase(u).subrange(0, 7)[0] == '/');
    }
    lemma_page_in_tag(a, t, s, t.len() as int);
    assert(t.subrange(0, t.len() as int) =~= t);
    assert(s[inner - 1] == '>');
    lemma_page_script(s, inner as int, code, u, (code.len() + 1 + u.len()) as int);
    assert(u.subrange(0, u.len() as int) =~= u);
    assert(s[from - 1] == '>');
    lemma_page_after(s, from as int, b, b.len() as int);
    let out = page_read(s, s.len() as int).out;
    let rest = page_read(b, b.len() as int).out;
    assert(out == a.push(' ').push(' ') + rest);
    lemma_collapsed_visible(out);
    lemma_collapsed_visible(rest);
    lemma_visible_concat(a.push(' ').push(' '), rest);
    assert(is_space(' '));
    let one = a.push(' ');
    let two = one.push(' ');
    assert(one.drop_last() =~= a && one.last() == ' ');
    assert(two.drop_last() =~= one && two.last() == ' ');
    assert(visible(one) == visible(a));
    assert(visible(two) == visible(one));
}

} // verus!
