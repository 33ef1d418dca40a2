//! Documents from their places of origin to chunks.
//!
//! A section is a title with a text.
use super::chunker::chunk_text;
use super::html::{extract_title, strip_html, strip_html_basic, PageTitle};
use super::{Chunk, IndexedSource, RagConfig, SearchResult, SourceType};
use crate::ids::fresh_id;
use crate::model_paths::extension_of;
use crate::text::{
    chars_of,
    concat,
    concat3,
    format_number,
    has,
    has_prefix,
    index_char,
    is_blank,
    len_bytes,
    lines,
    str_eq,
    substring,
    trim,
};
use vstd::prelude::*;

verus! {

use super::chunker::chunks_of;
use super::html::{is_title, page_text, stripped};
use crate::json::pairs;
use crate::model_paths::{extension, law_name_is_stem_and_extension};
use crate::text::{
    byte_len,
    contains,
    decimal,
    index_of,
    lemma_index_of,
    lines_of,
    lowercase,
    occurs_at,
    starts_with,
    texts,
    trimmed,
};
use vstd::string::StringExecFns;

// ── Which source ─────────────────────────────────────────────────────────────

/// A text before and after its first `c`, if it has one.
pub open spec fn split_once_spec(s: Seq<char>, c: char) -> Option<(Seq<char>, Seq<char>)> {
    let k = index_of(s, c, 0);
    if k < s.len() {
        Some((s.subrange(0, k), s.subrange(k + 1, s.len() as int)))
    } else {
        None
    }
}

/// A text before and after its first `c`, if it has one.
pub fn split_once(s: &str, c: char) -> (r: Option<(String, String)>)
    ensures
        match r {
            Some(p) => split_once_spec(s@, c) == Some((p.0@, p.1@)),
            None => split_once_spec(s@, c) is None,
        },
{
    let v = chars_of(s);
    proof {
        lemma_index_of(v@, c, 0);
    }
    let k = index_char(&v, c, 0);
    if k < v.len() {
        Some((substring(&v, 0, k), substring(&v, k + 1, v.len())))
    } else {
        None
    }
}

/// The source that a request names, as "crate:NAME", "dir:PATH" or "url:URL".
pub open spec fn source_spec(source: Seq<char>) -> Option<(SourceType, Seq<char>)> {
    match split_once_spec(source, ':') {
        None => None,
        Some((kind, rest)) => if kind == "crate"@ {
            Some((SourceType::CrateDocs, rest))
        } else if kind == "dir"@ {
            Some((SourceType::LocalDir, rest))
        } else if kind == "url"@ {
            Some((SourceType::Url, rest))
        } else {
            None
        },
    }
}

/// Reads the source of an indexing request.
pub fn parse_source(source: &str) -> (r: Option<(SourceType, String)>)
    ensures
        match r {
            Some(p) => source_spec(source@) == Some((p.0, p.1@)),
            None => source_spec(source@) is None,
        },
{
    match split_once(source, ':') {
        None => None,
        Some((kind, rest)) => if str_eq(kind.as_str(), "crate") {
            Some((SourceType::CrateDocs, rest))
        } else if str_eq(kind.as_str(), "dir") {
            Some((SourceType::LocalDir, rest))
        } else if str_eq(kind.as_str(), "url") {
            Some((SourceType::Url, rest))
        } else {
            None
        },
    }
}

// ── Crate documentation ──────────────────────────────────────────────────────

/// A crate and its version: what follows an `@`, else the latest.
pub open spec fn crate_and_version(s: Seq<char>) -> (Seq<char>, Seq<char>) {
    match split_once_spec(s, '@') {
        Some(p) => p,
        None => (s, "latest"@),
    }
}

/// Whether these are the name of a crate and the page of its documentation.
pub open spec fn are_docs(crate_name: Seq<char>, name: Seq<char>, url: Seq<char>) -> bool {
    let (n, version) = crate_and_version(crate_name);
    &&& name == n
    &&& url == "https://docs.rs/"@ + n + "/"@ + version + "/"@ + n + "/"@
}

/// The name of a crate and the page of its documentation.
pub fn docs_url(crate_name: &str) -> (r: (String, String))
    ensures
        are_docs(crate_name@, r.0@, r.1@),
{
    let (name, version) = match split_once(crate_name, '@') {
        Some(p) => p,
        None => (crate_name.to_owned(), "latest".to_owned()),
    };
    let mut url = concat3("https://docs.rs/", name.as_str(), "/");
    url.append(version.as_str());
    url.append("/");
    url.append(name.as_str());
    url.append("/");
    (name, url)
}

/// Whether a line looks like the declaration of an item.
pub open spec fn is_heading(line: Seq<char>) -> bool {
    &&& {
        ||| starts_with(line, "fn "@)
        ||| starts_with(line, "pub fn "@)
        ||| starts_with(line, "struct "@)
        ||| starts_with(line, "pub struct "@)
        ||| starts_with(line, "enum "@)
        ||| starts_with(line, "pub enum "@)
        ||| starts_with(line, "trait "@)
        ||| starts_with(line, "pub trait "@)
        ||| starts_with(line, "impl "@)
        ||| starts_with(line, "type "@)
        ||| starts_with(line, "pub type "@)
        ||| starts_with(line, "mod "@)
        ||| starts_with(line, "pub mod "@)
    }
    &&& byte_len(line) < 120
}

/// Whether a line looks like the declaration of an item.
pub fn is_section_heading(line: &str) -> (r: bool)
    ensures
        r == is_heading(line@),
{
    (has_prefix(line, "fn ") || has_prefix(line, "pub fn ") || has_prefix(line, "struct ")
        || has_prefix(line, "pub struct ") || has_prefix(line, "enum ") || has_prefix(
        line,
        "pub enum ",
    ) || has_prefix(line, "trait ") || has_prefix(line, "pub trait ") || has_prefix(line, "impl ")
        || has_prefix(line, "type ") || has_prefix(line, "pub type ") || has_prefix(line, "mod ")
        || has_prefix(line, "pub mod ")) && len_bytes(line) < 120
}

/// What the reading of documentation has come to.
pub struct DocsState {
    pub sections: Seq<(Seq<char>, Seq<char>)>,
    pub title: Seq<char>,
    pub content: Seq<char>,
    /// Whether the current section is that of an item.
    pub in_item: bool,
}

/// The sections with the current one: that of an item in any case, the overview if it has any
/// text.
pub open spec fn docs_closed(d: DocsState) -> Seq<(Seq<char>, Seq<char>)> {
    if d.in_item || trimmed(d.content).len() > 0 {
        d.sections.push((d.title, trimmed(d.content)))
    } else {
        d.sections
    }
}

/// The reading after one more line: a heading closes the section before it and opens that of an
/// item; another line belongs to the current section.
pub open spec fn docs_step(d: DocsState, line: Seq<char>) -> DocsState {
    let t = trimmed(line);
    if is_heading(t) {
        DocsState { sections: docs_closed(d), title: t, content: Seq::empty(), in_item: true }
    } else {
        DocsState { content: d.content + line + "\n"@, ..d }
    }
}

/// The reading of the first `n` lines.
pub open spec fn docs_read(crate_name: Seq<char>, lines: Seq<Seq<char>>, n: int) -> DocsState
    decreases n,
{
    if n <= 0 {
        DocsState {
            sections: Seq::empty(),
            title: crate_name + " — overview"@,
            content: Seq::empty(),
            in_item: false,
        }
    } else {
        docs_step(docs_read(crate_name, lines, n - 1), lines[n - 1])
    }
}

/// The first characters of a text.
pub open spec fn first_chars(s: Seq<char>, n: int) -> Seq<char> {
    if s.len() <= n {
        s
    } else {
        s.subrange(0, n)
    }
}

/// The sections of a documentation text.
pub open spec fn docs_sections(crate_name: Seq<char>, text: Seq<char>) -> Seq<
    (Seq<char>, Seq<char>),
> {
    let sections = docs_closed(
        docs_read(crate_name, lines_of(text), lines_of(text).len() as int),
    );
    if sections.len() == 0 && trimmed(text).len() > 0 {
        seq![(crate_name + " docs"@, first_chars(text, 8000))]
    } else {
        sections
    }
}

/// The sections of a documentation page.
pub fn parse_docs_rs_html(crate_name: &str, html: &str) -> (r: Vec<(String, String)>)
    ensures
        pairs(r@) == docs_sections(crate_name@, stripped(html@, 0, false)),
{
    let text = strip_html(html);
    let all = lines(text.as_str());
    let ghost src = lines_of(text@);
    let mut sections: Vec<(String, String)> = Vec::new();
    let mut title = concat(crate_name, " — overview");
    let mut content = String::new();
    let mut in_item: bool = false;
    let mut i: usize = 0;
    assert(pairs(sections@) =~= Seq::<(Seq<char>, Seq<char>)>::empty());
    while i < all.len()
        invariant
            i <= all@.len(),
            texts(all@) == src,
            ({
                let d = docs_read(crate_name@, src, i as int);
                &&& pairs(sections@) == d.sections
                &&& title@ == d.title
                &&& content@ == d.content
                &&& in_item == d.in_item
            }),
        decreases all@.len() - i,
    {
        assert(src[i as int] == all@[i as int]@);
        let t = trim(all[i].as_str());
        if is_section_heading(t.as_str()) {
            if in_item || !is_blank(content.as_str()) {
                let ghost before = sections@;
                let body = trim(content.as_str());
                sections.push((title, body));
                assert(pairs(sections@) =~= pairs(before).push((
                    sections@.last().0@,
                    sections@.last().1@,
                )));
            }
            title = t;
            content = String::new();
            in_item = true;
        } else {
            content.append(all[i].as_str());
            content.append("\n");
        }
        i = i + 1;
    }
    if in_item || !is_blank(content.as_str()) {
        let ghost before = sections@;
        let body = trim(content.as_str());
        sections.push((title, body));
        assert(pairs(sections@) =~= pairs(before).push((
            sections@.last().0@,
            sections@.last().1@,
        )));
    }
    assert(pairs(sections@).len() == sections@.len());
    if sections.len() == 0 && !is_blank(text.as_str()) {
        let v = chars_of(text.as_str());
        let n: usize = if v.len() <= 8000 {
            v.len()
        } else {
            8000
        };
        let head = substring(&v, 0, n);
        assert(v@.subrange(0, v@.len() as int) =~= v@);
        sections.push((concat(crate_name, " docs"), head));
        assert(pairs(sections@) =~= seq![(crate_name@ + " docs"@, first_chars(text@, 8000))]);
    }
    sections
}

/// The declarations among the first `n` lines.
pub open spec fn headings(lines: Seq<Seq<char>>, n: int) -> Seq<Seq<char>>
    decreases n,
{
    if n <= 0 {
        Seq::empty()
    } else if is_heading(trimmed(lines[n - 1])) {
        headings(lines, n - 1).push(trimmed(lines[n - 1]))
    } else {
        headings(lines, n - 1)
    }
}

/// The titles of sections.
pub open spec fn titles(sections: Seq<(Seq<char>, Seq<char>)>) -> Seq<Seq<char>> {
    sections.map_values(|s: (Seq<char>, Seq<char>)| s.0)
}

proof fn lemma_items_are_sections(crate_name: Seq<char>, lines: Seq<Seq<char>>, n: int)
    ensures
        ({
            let d = docs_read(crate_name, lines, n);
            let items = headings(lines, n);
            let overview = seq![crate_name + " — overview"@];
            if d.in_item {
                &&& items.len() > 0
                &&& titles(docs_closed(d)) == items || titles(docs_closed(d)) == overview + items
            } else {
                &&& items.len() == 0
                &&& d.sections.len() == 0
                &&& d.title == overview[0]
            }
        }),
    decreases n,
{
    let overview = seq![crate_name + " — overview"@];
    if n > 0 {
        lemma_items_are_sections(crate_name, lines, n - 1);
        let before = docs_read(crate_name, lines, n - 1);
        let d = docs_read(crate_name, lines, n);
        let items = headings(lines, n);
        if is_heading(trimmed(lines[n - 1])) {
            assert(titles(docs_closed(d)) =~= titles(docs_closed(before)).push(d.title));
            if before.in_item {
                let past = headings(lines, n - 1);
                assert((overview + past).push(d.title) =~= overview + past.push(d.title));
            } else if trimmed(before.content).len() > 0 {
                assert(titles(docs_closed(before)) =~= overview);
                assert(titles(docs_closed(d)) =~= overview + items);
            } else {
                assert(titles(docs_closed(before)) =~= Seq::<Seq<char>>::empty());
                assert(titles(docs_closed(d)) =~= items);
            }
        } else if before.in_item {
            assert(titles(docs_closed(d)) =~= titles(docs_closed(before)));
        }
    }
}

/// Each declared item becomes one section, in order, after the overview if there is any text
/// before the first.
pub proof fn law_each_item_is_a_section(crate_name: Seq<char>, text: Seq<char>)
    requires
        headings(lines_of(text), lines_of(text).len() as int).len() > 0,
    ensures
        ({
            let items = headings(lines_of(text), lines_of(text).len() as int);
            let found = titles(docs_sections(crate_name, text));
            found == items || found == seq![crate_name + " — overview"@] + items
        }),
{
    let n = lines_of(text).len() as int;
    lemma_items_are_sections(crate_name, lines_of(text), n);
    assert(docs_closed(docs_read(crate_name, lines_of(text), n)).len() > 0);
}

// ── Web pages ────────────────────────────────────────────────────────────────

/// What a page gives to index.
#[derive(Debug)]
pub enum PageSection {
    /// The page has no text.
    Empty,
    /// The title cannot be cut out of the page.
    Misplaced,
    Section(String, String),
}

/// The section of a fetched page: HTML loses its markup, other text is taken as it is, and a
/// page without a title goes by its URL.
pub open spec fn is_page_section(
    url: Seq<char>,
    content_type: Seq<char>,
    body: Seq<char>,
    title: PageTitle,
    r: PageSection,
) -> bool {
    if contains(content_type, "html"@) {
        if title is Misplaced {
            r is Misplaced
        } else if trimmed(page_text(body)).len() == 0 {
            r is Empty
        } else {
            &&& r is Section
            &&& r->1@ == page_text(body)
            &&& r->Section_0@ == match title {
                PageTitle::Found(t) => t@,
                _ => url,
            }
        }
    } else {
        if trimmed(body).len() == 0 {
            r is Empty
        } else {
            r is Section && r->Section_0@ == url && r->1@ == body
        }
    }
}

/// Whether this is the section of a fetched page, under the title that the page has.
pub open spec fn is_section_of(
    url: Seq<char>,
    content_type: Seq<char>,
    body: Seq<char>,
    r: PageSection,
) -> bool {
    exists|title: PageTitle| #[trigger]
        is_title(body, lowercase(body), title) && is_page_section(
            url,
            content_type,
            body,
            title,
            r,
        )
}

/// The section of a fetched page.
pub fn page_section(url: &str, content_type: &str, body: &str) -> (r: PageSection)
    ensures
        is_section_of(url@, content_type@, body@, r),
{
    let found = extract_title(body);
    let ghost title = found;
    assert(is_title(body@, lowercase(body@), title));
    if has(content_type, "html") {
        let text = strip_html_basic(body);
        let name = match found {
            PageTitle::Found(t) => t,
            PageTitle::Missing => url.to_owned(),
            PageTitle::Misplaced => {
                return PageSection::Misplaced;
            },
        };
        if is_blank(text.as_str()) {
            return PageSection::Empty;
        }
        PageSection::Section(name, text)
    } else {
        if is_blank(body) {
            return PageSection::Empty;
        }
        PageSection::Section(url.to_owned(), body.to_owned())
    }
}

// ── Local directories ────────────────────────────────────────────────────────

/// Files above this size are passed over.
pub const MAX_FILE_SIZE: u64 = 524288;

/// What to do with an entry of a directory.
#[derive(Debug, Clone, Copy, PartialEq, Eq, Structural)]
pub enum EntryAction {
    Skip,
    Descend,
    Read,
}

/// Whether files of this name are indexed.
pub open spec fn indexable(name: Seq<char>) -> bool {
    let e = extension(name);
    ||| e == "rs"@
    ||| e == "ts"@
    ||| e == "tsx"@
    ||| e == "js"@
    ||| e == "md"@
    ||| e == "toml"@
    ||| e == "yaml"@
    ||| e == "yml"@
    ||| e == "txt"@
}

/// Whether files of this name are indexed.
pub fn is_indexable(name: &str) -> (r: bool)
    ensures
        r == indexable(name@),
{
    let e = extension_of(name);
    let e = e.as_str();
    str_eq(e, "rs") || str_eq(e, "ts") || str_eq(e, "tsx") || str_eq(e, "js") || str_eq(e, "md")
        || str_eq(e, "toml") || str_eq(e, "yaml") || str_eq(e, "yml") || str_eq(e, "txt")
}

/// Whether entries of this name are passed over: hidden ones and build outputs.
pub open spec fn is_skipped(name: Seq<char>) -> bool {
    starts_with(name, "."@) || name == "target"@ || name == "node_modules"@
}

/// What to do with an entry of a directory.
pub open spec fn action_for(name: Seq<char>, is_dir: bool) -> EntryAction {
    if is_skipped(name) {
        EntryAction::Skip
    } else if is_dir {
        EntryAction::Descend
    } else if indexable(name) {
        EntryAction::Read
    } else {
        EntryAction::Skip
    }
}

/// What to do with an entry of a directory.
pub fn entry_action(name: &str, is_dir: bool) -> (r: EntryAction)
    ensures
        r == action_for(name@, is_dir),
{
    if has_prefix(name, ".") || str_eq(name, "target") || str_eq(name, "node_modules") {
        EntryAction::Skip
    } else if is_dir {
        EntryAction::Descend
    } else if is_indexable(name) {
        EntryAction::Read
    } else {
        EntryAction::Skip
    }
}

/// Whether a file of this size with this content is indexed.
pub fn takes_file(size: u64, content: &str) -> (r: bool)
    ensures
        r == (size <= MAX_FILE_SIZE && trimmed(content@).len() > 0),
{
    size <= MAX_FILE_SIZE && !is_blank(content)
}

// ── Chunks ───────────────────────────────────────────────────────────────────

/// The title of chunk `i` out of `n` of a section.
pub open spec fn part_title(title: Seq<char>, i: int, n: int) -> Seq<char> {
    if n > 1 {
        title + " (part "@ + decimal((i + 1) as nat) + ")"@
    } else {
        title
    }
}

/// The chunks of a section with their titles.
pub open spec fn section_parts(section: (Seq<char>, Seq<char>), size: int, overlap: int) -> Seq<
    (Seq<char>, Seq<char>),
> {
    let chunks = chunks_of(section.1, size, overlap);
    Seq::new(
        chunks.len(),
        |i: int| (part_title(section.0, i, chunks.len() as int), chunks[i]),
    )
}

/// The chunks of all sections, in order.
pub open spec fn all_parts(sections: Seq<(Seq<char>, Seq<char>)>, size: int, overlap: int) -> Seq<
    (Seq<char>, Seq<char>),
>
    decreases sections.len(),
{
    if sections.len() == 0 {
        Seq::empty()
    } else {
        all_parts(sections.drop_last(), size, overlap) + section_parts(
            sections.last(),
            size,
            overlap,
        )
    }
}

/// A chunk as it is indexed.
pub open spec fn is_chunk(
    c: Chunk,
    part: (Seq<char>, Seq<char>),
    source_id: Seq<char>,
    source_type: SourceType,
    source_ref: Seq<char>,
    now: u64,
) -> bool {
    &&& c.id@.len() == 36
    &&& c.source_id@ == source_id
    &&& c.source_type == source_type
    &&& c.source_ref@ == source_ref
    &&& c.title@ == part.0
    &&& c.content@ == part.1
    &&& c.indexed_at == now
}

pub open spec fn are_chunks(
    chunks: Seq<Chunk>,
    parts: Seq<(Seq<char>, Seq<char>)>,
    source_id: Seq<char>,
    source_type: SourceType,
    source_ref: Seq<char>,
    now: u64,
) -> bool {
    &&& chunks.len() == parts.len()
    &&& forall|i: int|
        0 <= i < chunks.len() ==> is_chunk(
            #[trigger] chunks[i],
            parts[i],
            source_id,
            source_type,
            source_ref,
            now,
        )
}

/// Whether these are the chunks of the sections of a source, and this is the source's record.
pub open spec fn is_indexed(
    sections: Seq<(Seq<char>, Seq<char>)>,
    config: RagConfig,
    source_type: SourceType,
    source_ref: Seq<char>,
    now: u64,
    chunks: Seq<Chunk>,
    source: IndexedSource,
) -> bool {
    &&& are_chunks(
        chunks,
        all_parts(sections, config.chunk_size as int, config.chunk_overlap as int),
        source.id@,
        source_type,
        source_ref,
        now,
    )
    &&& source.id@.len() == 36
    &&& source.source_type == source_type
    &&& source.source_ref@ == source_ref
    &&& source.chunk_count == chunks.len()
    &&& source.indexed_at == now
    &&& source.last_updated == now
}

fn part_name(title: &str, i: usize, n: usize) -> (r: String)
    requires
        i < n,
    ensures
        r@ == part_title(title@, i as int, n as int),
{
    if n > 1 {
        let number = format_number(i as u64 + 1);
        let mut r = concat3(title, " (part ", number.as_str());
        r.append(")");
        r
    } else {
        title.to_owned()
    }
}

/// The chunks of the sections of a source, and the source's record.
pub fn index_source(
    sections: &Vec<(String, String)>,
    config: &RagConfig,
    source_type: SourceType,
    source_ref: &str,
    now: u64,
) -> (r: (Vec<Chunk>, IndexedSource))
    requires
        config.chunk_size > 0,
    ensures
        is_indexed(pairs(sections@), *config, source_type, source_ref@, now, r.0@, r.1),
{
    let source_id = fresh_id();
    let ghost all = pairs(sections@);
    let ghost size = config.chunk_size as int;
    let ghost overlap = config.chunk_overlap as int;
    let mut chunks: Vec<Chunk> = Vec::new();
    let mut k: usize = 0;
    assert(all_parts(all.subrange(0, 0), size, overlap).len() == 0);
    while k < sections.len()
        invariant
            k <= sections@.len(),
            all == pairs(sections@),
            config.chunk_size > 0,
            size == config.chunk_size,
            overlap == config.chunk_overlap,
            source_id@.len() == 36,
            are_chunks(
                chunks@,
                all_parts(all.subrange(0, k as int), size, overlap),
                source_id@,
                source_type,
                source_ref@,
                now,
            ),
        decreases sections@.len() - k,
    {
        let ghost done = all_parts(all.subrange(0, k as int), size, overlap);
        let ghost section = all[k as int];
        let title = &sections[k].0;
        let parts = chunk_text(
            sections[k].1.as_str(),
            config.chunk_size,
            config.chunk_overlap,
        );
        let ghost want = section_parts(section, size, overlap);
        let ghost base = chunks@.len();
        let mut i: usize = 0;
        assert(done + want.subrange(0, 0) =~= done);
        while i < parts.len()
            invariant
                i <= parts@.len(),
                section == (title@, section.1),
                want == section_parts(section, size, overlap),
                texts(parts@) == chunks_of(section.1, size, overlap),
                source_id@.len() == 36,
                are_chunks(
                    chunks@,
                    done + want.subrange(0, i as int),
                    source_id@,
                    source_type,
                    source_ref@,
                    now,
                ),
            decreases parts@.len() - i,
        {
            let ghost before = chunks@;
            assert(texts(parts@)[i as int] == parts@[i as int]@);
            chunks.push(
                Chunk {
                    id: fresh_id(),
                    source_id: source_id.clone(),
                    source_type,
                    source_ref: source_ref.to_owned(),
                    title: part_name(title.as_str(), i, parts.len()),
                    content: parts[i].clone(),
                    indexed_at: now,
                },
            );
            i = i + 1;
            proof {
                let old_parts = done + want.subrange(0, i - 1);
                let new_parts = done + want.subrange(0, i as int);
                assert(new_parts =~= old_parts.push(want[i - 1]));
                assert forall|j: int| 0 <= j < chunks@.len() implies is_chunk(
                    #[trigger] chunks@[j],
                    new_parts[j],
                    source_id@,
                    source_type,
                    source_ref@,
                    now,
                ) by {
                    if j < before.len() {
                        assert(chunks@[j] == before[j]);
                    }
                }
            }
        }
        k = k + 1;
        proof {
            assert(want.subrange(0, want.len() as int) =~= want);
            let next = all.subrange(0, k as int);
            assert(next.drop_last() =~= all.subrange(0, k - 1));
            assert(next.last() == section);
        }
    }
    assert(all.subrange(0, all.len() as int) =~= all);
    let n: usize = chunks.len();
    (
        chunks,
        IndexedSource {
            id: source_id,
            source_type,
            source_ref: source_ref.to_owned(),
            chunk_count: n,
            indexed_at: now,
            last_updated: now,
        },
    )
}

/// What of a chunk is indexed.
pub fn indexed_text(chunk: &Chunk) -> (r: String)
    ensures
        r@ == chunk.title@ + " "@ + chunk.content@,
{
    concat3(chunk.title.as_str(), " ", chunk.content.as_str())
}

/// One result as the model gets it.
pub open spec fn context_entry(c: Chunk, i: int, n: int) -> Seq<char> {
    "## ["@ + decimal((i + 1) as nat) + "/"@ + decimal(n as nat) + "] "@ + c.title@ + " (from: "@
        + c.source_ref@ + ")\n\n"@ + c.content@ + "\n\n---\n\n"@
}

/// The first `k` results as the model gets them.
pub open spec fn context_of<F>(results: Seq<SearchResult<F>>, k: int) -> Seq<char>
    decreases k,
{
    if k <= 0 {
        "# Relevant Documentation\n\n"@
    } else {
        context_of(results, k - 1) + context_entry(
            results[k - 1].chunk,
            k - 1,
            results.len() as int,
        )
    }
}

/// What the model gets of the documents that fit a question; nothing if none fits.
pub fn build_context<F>(results: &Vec<SearchResult<F>>) -> (r: String)
    ensures
        r@ == if results@.len() == 0 {
            Seq::empty()
        } else {
            context_of(results@, results@.len() as int)
        },
{
    if results.len() == 0 {
        return String::new();
    }
    let mut ctx = "# Relevant Documentation\n\n".to_owned();
    let total = format_number(results.len() as u64);
    let mut i: usize = 0;
    while i < results.len()
        invariant
            i <= results@.len(),
            total@ == decimal(results@.len()),
            ctx@ == context_of(results@, i as int),
        decreases results@.len() - i,
    {
        let ghost before = ctx@;
        let number = format_number(i as u64 + 1);
        let c = &results[i].chunk;
        ctx.append("## [");
        ctx.append(number.as_str());
        ctx.append("/");
        ctx.append(total.as_str());
        ctx.append("] ");
        ctx.append(c.title.as_str());
        ctx.append(" (from: ");
        ctx.append(c.source_ref.as_str());
        ctx.append(")\n\n");
        ctx.append(c.content.as_str());
        ctx.append("\n\n---\n\n");
        assert(ctx@ =~= before + context_entry(*c, i as int, results@.len() as int));
        i = i + 1;
    }
    ctx
}

/// The entry of one result in a context: its number of the total, title, source and content.
pub open spec fn entry_text(c: Chunk, number: nat, total: nat) -> Seq<char> {
    let head = "## ["@ + decimal(number) + "/"@ + decimal(total) + "] "@;
    head + c.title@ + " (from: "@ + c.source_ref@ + ")\n\n"@ + c.content@ + "\n\n---\n\n"@
}

/// The context of the first `k + 1` results is that of the first `k` with the entry of the next
/// one added: its own title, source and content under its number.
pub proof fn law_context_grows_by_each_result<F>(results: Seq<SearchResult<F>>, k: int)
    requires
        0 <= k < results.len(),
    ensures
        context_of(results, 0) == "# Relevant Documentation\n\n"@,
        context_of(results, k + 1) == context_of(results, k) + entry_text(
            results[k].chunk,
            (k + 1) as nat,
            results.len(),
        ),
{
}

proof fn lemma_context_prefix<F>(results: Seq<SearchResult<F>>, k: int, n: int) -> (rest: Seq<char>)
    requires
        0 <= k <= n <= results.len(),
    ensures
        context_of(results, n) == context_of(results, k) + rest,
    decreases n,
{
    if k == n {
        assert(context_of(results, n) =~= context_of(results, k) + Seq::<char>::empty());
        Seq::empty()
    } else {
        let rest = lemma_context_prefix(results, k, n - 1);
        let entry = entry_text(results[n - 1].chunk, n as nat, results.len());
        law_context_grows_by_each_result(results, n - 1);
        assert(context_of(results, n) =~= context_of(results, k) + (rest + entry));
        rest + entry
    }
}

/// The context holds every result: its title, source and content stand in it, in its entry, after
/// the entries of the results before it.
pub proof fn law_context_holds_every_result<F>(results: Seq<SearchResult<F>>, i: int) -> (r: (
    Seq<char>,
    Seq<char>,
))
    requires
        0 <= i < results.len(),
    ensures
        r.0 == context_of(results, i),
        context_of(results, results.len() as int) == r.0 + entry_text(
            results[i].chunk,
            (i + 1) as nat,
            results.len(),
        ) + r.1,
        contains(context_of(results, results.len() as int), results[i].chunk.title@),
        contains(context_of(results, results.len() as int), results[i].chunk.source_ref@),
        contains(context_of(results, results.len() as int), results[i].chunk.content@),
{
    let n = results.len() as int;
    let c = results[i].chunk;
    let before = context_of(results, i);
    let entry = entry_text(c, (i + 1) as nat, results.len());
    let after = lemma_context_prefix(results, i + 1, n);
    law_context_grows_by_each_result(results, i);
    let whole = context_of(results, n);
    assert(whole =~= before + entry + after);
    let head = "## ["@ + decimal((i + 1) as nat) + "/"@ + decimal(results.len()) + "] "@;
    let at = (before + head).len() as int;
    assert(whole.subrange(at, at + c.title@.len()) =~= c.title@);
    assert(occurs_at(whole, c.title@, at));
    let at = (before + head + c.title@ + " (from: "@).len() as int;
    assert(whole.subrange(at, at + c.source_ref@.len()) =~= c.source_ref@);
    assert(occurs_at(whole, c.source_ref@, at));
    let at = (before + head + c.title@ + " (from: "@ + c.source_ref@ + ")\n\n"@).len() as int;
    assert(whole.subrange(at, at + c.content@.len()) =~= c.content@);
    assert(occurs_at(whole, c.content@, at));
    (before, after)
}

/// Every section is indexed: its chunks stand among the parts, one after the other, under its
/// title, which is numbered where there are several. The parts are no others.
pub proof fn law_every_section_is_indexed(
    sections: Seq<(Seq<char>, Seq<char>)>,
    size: int,
    overlap: int,
    k: int,
) -> (at: int)
    requires
        0 <= k < sections.len(),
    ensures
        at == all_parts(sections.subrange(0, k), size, overlap).len(),
        all_parts(sections, size, overlap).len() >= at + chunks_of(sections[k].1, size, overlap).len(),
        k == sections.len() - 1 ==> all_parts(sections, size, overlap).len() == at + chunks_of(
            sections[k].1,
            size,
            overlap,
        ).len(),
        forall|i: int|
            0 <= i < chunks_of(sections[k].1, size, overlap).len() ==> {
                let chunks = chunks_of(sections[k].1, size, overlap);
                let part = #[trigger] all_parts(sections, size, overlap)[at + i];
                &&& part.1 == chunks[i]
                &&& starts_with(part.0, sections[k].0)
                &&& chunks.len() == 1 ==> part.0 == sections[k].0
                &&& chunks.len() > 1 ==> part.0 == sections[k].0 + " (part "@ + decimal(
                    (i + 1) as nat,
                ) + ")"@
            },
    decreases sections.len(),
{
    let init = sections.drop_last();
    let last = sections.last();
    let chunks = chunks_of(sections[k].1, size, overlap);
    let all = all_parts(sections, size, overlap);
    let before = all_parts(init, size, overlap);
    let at = if k < sections.len() - 1 {
        let at = law_every_section_is_indexed(init, size, overlap, k);
        assert(init.subrange(0, k) =~= sections.subrange(0, k));
        assert(init[k] == sections[k]);
        assert forall|i: int| 0 <= i < chunks.len() implies #[trigger] all[at + i] == before[at
            + i] by {}
        at
    } else {
        assert(sections.subrange(0, k) =~= init);
        before.len() as int
    };
    assert forall|i: int| 0 <= i < chunks.len() implies {
        let part = #[trigger] all[at + i];
        &&& part.1 == chunks[i]
        &&& starts_with(part.0, sections[k].0)
        &&& chunks.len() == 1 ==> part.0 == sections[k].0
        &&& chunks.len() > 1 ==> part.0 == sections[k].0 + " (part "@ + decimal((i + 1) as nat)
            + ")"@
    } by {
        let title = sections[k].0;
        if k < sections.len() - 1 {
            assert(all[at + i] == before[at + i]);
        } else {
            assert(all[at + i] == section_parts(last, size, overlap)[i]);
        }
        assert(all[at + i].0.subrange(0, title.len() as int) =~= title);
    }
    at
}

proof fn lemma_split_once(a: Seq<char>, c: char, b: Seq<char>)
    requires
        !a.contains(c),
    ensures
        split_once_spec(a + seq![c] + b, c) == Some((a, b)),
{
    let s = a + seq![c] + b;
    lemma_index_of(s, c, 0);
    let k = index_of(s, c, 0);
    assert(s[a.len() as int] == c);
    if k < a.len() {
        assert(a.contains(a[k]));
    }
    assert(s.subrange(0, k) =~= a);
    assert(s.subrange(k + 1, s.len() as int) =~= b);
}

/// A request names a crate, a directory or an address, and what follows the first colon is its
/// name whatever it holds.
pub proof fn law_named_source_is_read(name: Seq<char>)
    ensures
        source_spec("crate"@ + seq![':'] + name) == Some((SourceType::CrateDocs, name)),
        source_spec("dir"@ + seq![':'] + name) == Some((SourceType::LocalDir, name)),
        source_spec("url"@ + seq![':'] + name) == Some((SourceType::Url, name)),
        !name.contains(':') ==> source_spec(name) is None,
{
    reveal_strlit("crate");
    reveal_strlit("dir");
    reveal_strlit("url");
    assert(!"crate"@.contains(':'));
    assert(!"dir"@.contains(':'));
    assert(!"url"@.contains(':'));
    lemma_split_once("crate"@, ':', name);
    lemma_split_once("dir"@, ':', name);
    lemma_split_once("url"@, ':', name);
    assert("crate"@[0] != "dir"@[0] && "dir"@[0] != "url"@[0] && "crate"@[0] != "url"@[0]);
    lemma_index_of(name, ':', 0);
}

/// The documentation of a crate is that of the version that is asked for, and else the latest.
pub proof fn law_asked_version_is_fetched(
    name: Seq<char>,
    version: Seq<char>,
    n: Seq<char>,
    url: Seq<char>,
)
    requires
        !name.contains('@'),
    ensures
        are_docs(name + seq!['@'] + version, n, url) ==> n == name && url == "https://docs.rs/"@
            + name + "/"@ + version + "/"@ + name + "/"@,
        are_docs(name, n, url) ==> n == name && url == "https://docs.rs/"@ + name + "/latest/"@
            + name + "/"@,
{
    lemma_split_once(name, '@', version);
    lemma_index_of(name, '@', 0);
    reveal_strlit("/");
    reveal_strlit("latest");
    reveal_strlit("/latest/");
    assert("/"@ + "latest"@ + "/"@ =~= "/latest/"@);
    assert("https://docs.rs/"@ + name + "/"@ + "latest"@ + "/"@ + name + "/"@ =~= "https://docs.rs/"@
        + name + "/latest/"@ + name + "/"@);
}

/// Text that is no HTML is indexed as it is, under its address; HTML without its markup. A blank
/// page is not indexed.
pub proof fn law_page_is_indexed_with_its_text(
    url: Seq<char>,
    content_type: Seq<char>,
    body: Seq<char>,
    r: PageSection,
)
    requires
        is_section_of(url, content_type, body, r),
    ensures
        !contains(content_type, "html"@) && trimmed(body).len() > 0 ==> r is Section
            && r->Section_0@ == url && r->1@ == body,
        !contains(content_type, "html"@) && trimmed(body).len() == 0 ==> r is Empty,
        r is Section && contains(content_type, "html"@) ==> r->1@ == page_text(body),
        r is Section && contains(content_type, "html"@) && is_title(
            body,
            lowercase(body),
            PageTitle::Missing,
        ) ==> r->Section_0@ == url,
{
}

/// Source and text files are read, directories are entered, and what is hidden or built is
/// passed over.
pub proof fn law_sources_are_read(a: Seq<char>, is_dir: bool)
    requires
        a.len() > 0,
    ensures
        a[0] != '.' && !is_dir ==> action_for(a + seq!['.'] + "rs"@, is_dir) is Read && action_for(
            a + seq!['.'] + "md"@,
            is_dir,
        ) is Read && action_for(a + seq!['.'] + "toml"@, is_dir) is Read,
        a[0] == '.' ==> action_for(a, is_dir) is Skip,
        action_for("target"@, is_dir) is Skip,
        action_for("node_modules"@, is_dir) is Skip,
        is_dir && a[0] != '.' && a != "target"@ && a != "node_modules"@ ==> action_for(a, is_dir)
            is Descend,
{
    reveal_strlit(".");
    reveal_strlit("rs");
    reveal_strlit("md");
    reveal_strlit("toml");
    reveal_strlit("target");
    reveal_strlit("node_modules");
    law_name_is_stem_and_extension(a, "rs"@);
    law_name_is_stem_and_extension(a, "md"@);
    law_name_is_stem_and_extension(a, "toml"@);
    if a[0] != '.' {
        lemma_not_built(a, "rs"@);
        lemma_not_built(a, "md"@);
        lemma_not_built(a, "toml"@);
    }
    assert(a.subrange(0, 1) =~= seq![a[0]]);
    assert(starts_with(a, "."@) == (a[0] == '.')) by {
        assert("."@ =~= seq!['.']);
        assert(seq![a[0]][0] == a[0]);
    }
}

proof fn lemma_not_built(a: Seq<char>, e: Seq<char>)
    requires
        a.len() > 0,
        a[0] != '.',
    ensures
        !is_skipped(a + seq!['.'] + e),
{
    let s = a + seq!['.'] + e;
    reveal_strlit(".");
    reveal_strlit("target");
    reveal_strlit("node_modules");
    assert(s[a.len() as int] == '.');
    assert(!"target"@.contains('.'));
    assert(!"node_modules"@.contains('.'));
    assert(s.contains(s[a.len() as int]));
    if starts_with(s, "."@) {
        assert(s.subrange(0, 1)[0] == "."@[0]);
    }
}

/// Every chunk of a source belongs to it and holds one part of its sections, in order; the
/// source knows how many there are.
pub proof fn law_chunks_are_the_parts(
    sections: Seq<(Seq<char>, Seq<char>)>,
    config: RagConfig,
    source_type: SourceType,
    source_ref: Seq<char>,
    now: u64,
    chunks: Seq<Chunk>,
    source: IndexedSource,
    i: int,
)
    requires
        is_indexed(sections, config, source_type, source_ref, now, chunks, source),
        0 <= i < chunks.len(),
    ensures
        source.chunk_count == all_parts(
            sections,
            config.chunk_size as int,
            config.chunk_overlap as int,
        ).len(),
        chunks[i].source_id@ == source.id@,
        chunks[i].source_ref@ == source_ref,
        chunks[i].source_type == source_type,
        (chunks[i].title@, chunks[i].content@) == all_parts(
            sections,
            config.chunk_size as int,
            config.chunk_overlap as int,
        )[i],
{
    let part = all_parts(sections, config.chunk_size as int, config.chunk_overlap as int)[i];
    assert(is_chunk(chunks[i], part, source.id@, source_type, source_ref, now));
}

} // verus!
