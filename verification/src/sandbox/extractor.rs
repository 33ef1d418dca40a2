//! Rust code blocks in Markdown, and what they look like.
use super::QualitySignals;
use crate::text::{has, has_prefix, is_blank, lines, str_eq, trim};
use vstd::prelude::*;

verus! {

use crate::seqs::{keep, lemma_keep_step};
use crate::text::{
    contains,
    ended_lines,
    is_line,
    is_space,
    joined,
    law_joined_lines_are_read_back,
    law_part_is_found,
    lemma_lines_append,
    lemma_trimmed_drops_last,
    lemma_trimmed_same,
    lines_of,
    starts_with,
    texts,
    trimmed,
    without_cr,
};
use vstd::string::StringExecFns;

/// What the reading of a response has come to.
pub struct BlockState {
    pub blocks: Seq<Seq<char>>,
    pub in_block: bool,
    pub current: Seq<char>,
}

/// Blocks with one more, if that is not blank.
pub open spec fn with_block(blocks: Seq<Seq<char>>, code: Seq<char>) -> Seq<Seq<char>> {
    if trimmed(code).len() > 0 {
        blocks.push(trimmed(code))
    } else {
        blocks
    }
}

/// The reading after one more line: a Rust fence opens a block, a bare fence closes it.
pub open spec fn block_step(b: BlockState, line: Seq<char>) -> BlockState {
    let t = trimmed(line);
    if !b.in_block {
        if starts_with(t, "```rust"@) {
            BlockState { in_block: true, current: Seq::empty(), ..b }
        } else {
            b
        }
    } else if t == "```"@ {
        BlockState {
            blocks: with_block(b.blocks, b.current),
            in_block: false,
            current: Seq::empty(),
        }
    } else {
        BlockState { current: b.current + line + "\n"@, ..b }
    }
}

/// The reading of the first `n` lines.
pub open spec fn blocks_read(lines: Seq<Seq<char>>, n: int) -> BlockState
    decreases n,
{
    if n <= 0 {
        BlockState { blocks: Seq::empty(), in_block: false, current: Seq::empty() }
    } else {
        block_step(blocks_read(lines, n - 1), lines[n - 1])
    }
}

/// The Rust code blocks of a text; one that is not closed counts.
pub open spec fn blocks_of(text: Seq<char>) -> Seq<Seq<char>> {
    let b = blocks_read(lines_of(text), lines_of(text).len() as int);
    if b.in_block {
        with_block(b.blocks, b.current)
    } else {
        b.blocks
    }
}

fn push_block(blocks: &mut Vec<String>, code: &str)
    ensures
        texts(final(blocks)@) == with_block(texts(old(blocks)@), code@),
{
    let ghost before = blocks@;
    if !is_blank(code) {
        blocks.push(trim(code));
        assert(texts(blocks@) =~= texts(before).push(trimmed(code@)));
    }
}

/// Extracts all fenced Rust code blocks from a Markdown text.
pub fn extract_rust_blocks(text: &str) -> (r: Vec<String>)
    ensures
        texts(r@) == blocks_of(text@),
{
    let all = lines(text);
    let ghost src = lines_of(text@);
    let mut blocks: Vec<String> = Vec::new();
    let mut in_block: bool = false;
    let mut current = String::new();
    let mut i: usize = 0;
    assert(texts(blocks@) =~= Seq::<Seq<char>>::empty());
    while i < all.len()
        invariant
            i <= all@.len(),
            texts(all@) == src,
            ({
                let b = blocks_read(src, i as int);
                texts(blocks@) == b.blocks && in_block == b.in_block && current@ == b.current
            }),
        decreases all@.len() - i,
    {
        assert(src[i as int] == all@[i as int]@);
        let t = trim(all[i].as_str());
        if !in_block {
            if has_prefix(t.as_str(), "```rust") {
                in_block = true;
                current = String::new();
            }
        } else if str_eq(t.as_str(), "```") {
            push_block(&mut blocks, current.as_str());
            in_block = false;
            current = String::new();
        } else {
            current.append(all[i].as_str());
            current.append("\n");
        }
        i = i + 1;
    }
    if in_block {
        push_block(&mut blocks, current.as_str());
    }
    blocks
}

/// Whether a line declares a function.
pub open spec fn declares_fn(line: Seq<char>) -> bool {
    let t = trimmed(line);
    &&& starts_with(t, "fn "@) || starts_with(t, "pub fn "@) || starts_with(t, "async fn "@)
        || starts_with(t, "pub async fn "@)
    &&& !starts_with(t, "//"@)
}

/// Whether these are the quality signals of a piece of code before it was compiled.
pub open spec fn signals_of(s: QualitySignals, code: Seq<char>) -> bool {
    &&& s.has_doc_comments == (contains(code, "///"@) || contains(code, "//!"@))
    &&& s.has_tests == (contains(code, "#[test]"@) || contains(code, "#[cfg(test)]"@))
    &&& s.has_error_handling == (contains(code, "Result<"@) || contains(code, "Option<"@)
        || contains(code, ".unwrap_or"@) || contains(code, "map_err"@) || contains(code, "?;"@))
    &&& s.function_count == keep(lines_of(code), |l: Seq<char>| declares_fn(l)).len()
    &&& s.line_count == lines_of(code).len()
    &&& s.warning_count == 0
}

/// Analyzes code quality signals without executing it.
pub fn analyze_code(code: &str) -> (s: QualitySignals)
    ensures
        signals_of(s, code@),
{
    let all = lines(code);
    let ghost src = lines_of(code@);
    let ghost p = |l: Seq<char>| declares_fn(l);
    let mut function_count: usize = 0;
    let mut i: usize = 0;
    assert(keep(src.subrange(0, 0), p).len() == 0);
    while i < all.len()
        invariant
            i <= all@.len(),
            texts(all@) == src,
            p == (|l: Seq<char>| declares_fn(l)),
            function_count == keep(src.subrange(0, i as int), p).len(),
            function_count <= i,
        decreases all@.len() - i,
    {
        proof {
            lemma_keep_step(src, p, i as int);
            assert(src[i as int] == all@[i as int]@);
        }
        let t = trim(all[i].as_str());
        let t = t.as_str();
        if (has_prefix(t, "fn ") || has_prefix(t, "pub fn ") || has_prefix(t, "async fn ")
            || has_prefix(t, "pub async fn ")) && !has_prefix(t, "//") {
            function_count = function_count + 1;
        }
        i = i + 1;
    }
    assert(src.subrange(0, src.len() as int) =~= src);
    assert(texts(all@).len() == all@.len());
    QualitySignals {
        has_doc_comments: has(code, "///") || has(code, "//!"),
        has_tests: has(code, "#[test]") || has(code, "#[cfg(test)]"),
        has_error_handling: has(code, "Result<") || has(code, "Option<") || has(
            code,
            ".unwrap_or",
        ) || has(code, "map_err") || has(code, "?;"),
        function_count,
        line_count: all.len(),
        warning_count: 0,
    }
}

proof fn lemma_blocks_not_blank(lines: Seq<Seq<char>>, n: int)
    ensures
        forall|k: int|
            0 <= k < blocks_read(lines, n).blocks.len() ==> (
            #[trigger] blocks_read(lines, n).blocks[k]).len() > 0,
    decreases n,
{
    if n > 0 {
        lemma_blocks_not_blank(lines, n - 1);
        let before = blocks_read(lines, n - 1);
        let after = blocks_read(lines, n);
        assert forall|k: int| 0 <= k < after.blocks.len() implies (
        #[trigger] after.blocks[k]).len() > 0 by {
            if k < before.blocks.len() {
                assert(after.blocks[k] == before.blocks[k]);
            }
        }
    }
}

/// No extracted block is empty.
pub proof fn law_blocks_are_not_empty(text: Seq<char>, k: int)
    requires
        0 <= k < blocks_of(text).len(),
    ensures
        blocks_of(text)[k].len() > 0,
{
    lemma_blocks_not_blank(lines_of(text), lines_of(text).len() as int);
}

/// The first lines decide what was read of them.
proof fn lemma_read_same(a: Seq<Seq<char>>, b: Seq<Seq<char>>, n: int)
    requires
        n <= a.len(),
        n <= b.len(),
        forall|i: int| 0 <= i < n ==> a[i] == #[trigger] b[i],
    ensures
        blocks_read(a, n) == blocks_read(b, n),
    decreases n,
{
    if n > 0 {
        lemma_read_same(a, b, n - 1);
    }
}

/// A line feed at the end changes nothing where no block is open.
proof fn lemma_read_ended(lines: Seq<Seq<char>>, ended: Seq<Seq<char>>)
    requires
        ended_lines(lines, ended),
        !blocks_read(lines, lines.len() as int).in_block,
    ensures
        blocks_read(ended, ended.len() as int).blocks == blocks_read(
            lines,
            lines.len() as int,
        ).blocks,
        !blocks_read(ended, ended.len() as int).in_block,
{
    let n = lines.len() as int;
    if ended == lines.push(Seq::empty()) {
        lemma_read_same(lines, ended, n);
        reveal_strlit("```rust");
        assert(trimmed(Seq::<char>::empty()).len() == 0);
    } else {
        lemma_read_same(lines, ended, n - 1);
        let line = lines.last();
        assert(ended[n - 1] == without_cr(line));
        if without_cr(line) != line {
            lemma_trimmed_drops_last(line);
        }
        assert(trimmed(without_cr(line)) == trimmed(line));
    }
}

/// Lines that are read after closed blocks add their own.
proof fn lemma_read_append(a: Seq<Seq<char>>, b: Seq<Seq<char>>, n: int)
    requires
        !blocks_read(a, a.len() as int).in_block,
        0 <= n <= b.len(),
    ensures
        ({
            let whole = blocks_read(a + b, a.len() + n);
            let rest = blocks_read(b, n);
            &&& whole.blocks == blocks_read(a, a.len() as int).blocks + rest.blocks
            &&& whole.in_block == rest.in_block
            &&& whole.in_block ==> whole.current == rest.current
        }),
    decreases n,
{
    let first = blocks_read(a, a.len() as int).blocks;
    if n == 0 {
        lemma_read_same(a + b, a, a.len() as int);
        assert(first + Seq::<Seq<char>>::empty() =~= first);
    } else {
        lemma_read_append(a, b, n - 1);
        assert((a + b)[a.len() + n - 1] == b[n - 1]);
        let rest = blocks_read(b, n - 1);
        assert(with_block(first + rest.blocks, rest.current) =~= first + with_block(
            rest.blocks,
            rest.current,
        ));
    }
}

/// The blocks of two texts, with a line feed between them, are those of the first and those of
/// the second, where every block that the first opens is closed in it.
pub proof fn law_blocks_of_joined_texts(a: Seq<char>, b: Seq<char>)
    requires
        !blocks_read(lines_of(a), lines_of(a).len() as int).in_block,
    ensures
        blocks_of(a + seq!['\n'] + b) == blocks_of(a) + blocks_of(b),
{
    let ended = lemma_lines_append(a, b);
    let lb = lines_of(b);
    lemma_read_ended(lines_of(a), ended);
    lemma_read_append(ended, lb, lb.len() as int);
    let rest = blocks_read(lb, lb.len() as int);
    assert(with_block(blocks_of(a) + rest.blocks, rest.current) =~= blocks_of(a) + with_block(
        rest.blocks,
        rest.current,
    ));
}

proof fn lemma_lines_are_kept(open: Seq<char>, body: Seq<Seq<char>>, all: Seq<Seq<char>>, n: int)
    requires
        starts_with(trimmed(open), "```rust"@),
        all.len() > body.len(),
        all[0] == open,
        forall|i: int| 0 <= i < body.len() ==> all[i + 1] == #[trigger] body[i],
        forall|i: int| 0 <= i < body.len() ==> trimmed(#[trigger] body[i]) != "```"@,
        0 <= n <= body.len(),
    ensures
        ({
            let b = blocks_read(all, n + 1);
            &&& b.blocks.len() == 0
            &&& b.in_block
            &&& b.current == if n == 0 {
                Seq::empty()
            } else {
                joined(body.subrange(0, n), "\n"@) + "\n"@
            }
        }),
    decreases n,
{
    if n == 0 {
        assert(blocks_read(all, 0).blocks.len() == 0);
    } else {
        lemma_lines_are_kept(open, body, all, n - 1);
        let before = blocks_read(all, n);
        assert(all[n - 1 + 1] == body[n - 1]);
        assert(trimmed(body[n - 1]) != "```"@);
        let part = body.subrange(0, n);
        assert(part.drop_last() =~= body.subrange(0, n - 1));
        assert(part.last() == body[n - 1]);
        assert(blocks_read(all, n + 1).current == before.current + body[n - 1] + "\n"@);
        if n == 1 {
            assert(Seq::<char>::empty() + body[0] =~= body[0]);
        }
    }
}

/// The one block that these lines make, if they are not blank.
pub open spec fn whole_block(body: Seq<Seq<char>>) -> Seq<Seq<char>> {
    let code = trimmed(joined(body, "\n"@));
    if code.len() > 0 {
        seq![code]
    } else {
        Seq::empty()
    }
}

proof fn lemma_whole_block(body: Seq<Seq<char>>, current: Seq<char>)
    requires
        current == if body.len() == 0 {
            Seq::empty()
        } else {
            joined(body, "\n"@) + "\n"@
        },
    ensures
        with_block(Seq::empty(), current) == whole_block(body),
{
    reveal_strlit("\n");
    if body.len() > 0 {
        assert(current.last() == '\n');
        assert(current.drop_last() =~= joined(body, "\n"@));
        lemma_trimmed_drops_last(current);
    }
    assert(Seq::<Seq<char>>::empty().push(trimmed(current)) =~= seq![trimmed(current)]);
}

/// A fenced block is extracted whole: its lines, none of which is a fence, joined by line feeds
/// and trimmed. It does not matter whether it is closed.
pub proof fn law_block_is_extracted_whole(text: Seq<char>, open: Seq<char>, body: Seq<Seq<char>>)
    requires
        starts_with(trimmed(open), "```rust"@),
        forall|i: int| 0 <= i < body.len() ==> trimmed(#[trigger] body[i]) != "```"@,
        lines_of(text) == seq![open] + body || (lines_of(text).len() == body.len() + 2 && trimmed(
            lines_of(text).last(),
        ) == "```"@ && lines_of(text).drop_last() == seq![open] + body),
    ensures
        blocks_of(text) == whole_block(body),
{
    let all = lines_of(text);
    let n = body.len() as int;
    assert((seq![open] + body)[0] == open);
    assert forall|i: int| 0 <= i < body.len() implies all[i + 1] == #[trigger] body[i] by {
        assert((seq![open] + body)[i + 1] == body[i]);
        if all.len() == n + 2 {
            assert(all.drop_last()[i + 1] == all[i + 1]);
        }
    }
    if all.len() == n + 2 {
        assert(all.drop_last()[0] == all[0]);
    }
    lemma_lines_are_kept(open, body, all, n);
    assert(body.subrange(0, n) =~= body);
    let b = blocks_read(all, n + 1);
    assert(b.blocks =~= Seq::empty());
    lemma_whole_block(body, b.current);
    if all.len() == n + 2 {
        assert(all[n + 1] == all.last());
        assert(blocks_read(all, n + 2) == block_step(b, all[n + 1]));
    }
}

/// Code between a Rust fence and a bare one comes out as it is, whatever its lines are.
pub proof fn law_fenced_lines_come_out(body: Seq<Seq<char>>)
    requires
        forall|i: int| 0 <= i < body.len() ==> is_line(#[trigger] body[i]),
        forall|i: int| 0 <= i < body.len() ==> trimmed(#[trigger] body[i]) != "```"@,
    ensures
        blocks_of(joined(seq!["```rust"@] + body + seq!["```"@], "\n"@)) == whole_block(body),
{
    reveal_strlit("```rust");
    reveal_strlit("```");
    let all = seq!["```rust"@] + body + seq!["```"@];
    assert forall|i: int| 0 <= i < all.len() implies is_line(#[trigger] all[i]) by {
        if i == 0 {
            assert(all[i] == "```rust"@);
        } else if i == all.len() - 1 {
            assert(all[i] == "```"@);
        } else {
            assert(all[i] == body[i - 1]);
        }
    }
    law_joined_lines_are_read_back(all);
    lemma_trimmed_same("```rust"@);
    lemma_trimmed_same("```"@);
    assert("```rust"@.subrange(0, 7) =~= "```rust"@);
    assert(all.drop_last() =~= seq!["```rust"@] + body);
    law_block_is_extracted_whole(joined(all, "\n"@), "```rust"@, body);
}

/// Where no line opens a Rust fence, there is no block.
pub proof fn law_no_fence_no_block(text: Seq<char>)
    requires
        forall|i: int|
            0 <= i < lines_of(text).len() ==> !starts_with(
                trimmed(#[trigger] lines_of(text)[i]),
                "```rust"@,
            ),
    ensures
        blocks_of(text).len() == 0,
{
    lemma_nothing_opens(lines_of(text), lines_of(text).len() as int);
}

proof fn lemma_nothing_opens(all: Seq<Seq<char>>, n: int)
    requires
        0 <= n <= all.len(),
        forall|i: int|
            0 <= i < all.len() ==> !starts_with(trimmed(#[trigger] all[i]), "```rust"@),
    ensures
        blocks_read(all, n).blocks.len() == 0,
        !blocks_read(all, n).in_block,
    decreases n,
{
    if n > 0 {
        lemma_nothing_opens(all, n - 1);
        assert(!starts_with(trimmed(all[n - 1]), "```rust"@));
    }
}

/// Code that holds a doc comment, a test or the handling of an error anywhere is seen to hold it.
pub proof fn law_signs_are_seen_anywhere(s: QualitySignals, a: Seq<char>, b: Seq<char>)
    ensures
        signals_of(s, a + "///"@ + b) ==> s.has_doc_comments,
        signals_of(s, a + "//!"@ + b) ==> s.has_doc_comments,
        signals_of(s, a + "#[test]"@ + b) ==> s.has_tests,
        signals_of(s, a + "#[cfg(test)]"@ + b) ==> s.has_tests,
        signals_of(s, a + "Result<"@ + b) ==> s.has_error_handling,
        signals_of(s, a + "Option<"@ + b) ==> s.has_error_handling,
        signals_of(s, a + ".unwrap_or"@ + b) ==> s.has_error_handling,
        signals_of(s, a + "map_err"@ + b) ==> s.has_error_handling,
        signals_of(s, a + "?;"@ + b) ==> s.has_error_handling,
{
    law_part_is_found(a, "///"@, b);
    law_part_is_found(a, "//!"@, b);
    law_part_is_found(a, "#[test]"@, b);
    law_part_is_found(a, "#[cfg(test)]"@, b);
    law_part_is_found(a, "Result<"@, b);
    law_part_is_found(a, "Option<"@, b);
    law_part_is_found(a, ".unwrap_or"@, b);
    law_part_is_found(a, "map_err"@, b);
    law_part_is_found(a, "?;"@, b);
}

/// Every line of code counts, and every one that declares a function counts as that.
pub proof fn law_lines_and_functions_are_counted(s: QualitySignals, lines: Seq<Seq<char>>)
    requires
        lines.len() > 0,
        lines.last().len() > 0,
        forall|i: int| 0 <= i < lines.len() ==> is_line(#[trigger] lines[i]),
        signals_of(s, joined(lines, "\n"@)),
    ensures
        s.line_count == lines.len(),
        s.function_count == keep(lines, |l: Seq<char>| declares_fn(l)).len(),
        s.warning_count == 0,
{
    law_joined_lines_are_read_back(lines);
}

/// A line that begins with the keyword for a function, public or not, declares one; a comment
/// does not.
pub proof fn law_keyword_declares_a_function(rest: Seq<char>)
    requires
        rest.len() > 0,
        !is_space(rest.last()),
    ensures
        declares_fn("fn "@ + rest),
        declares_fn("pub fn "@ + rest),
        declares_fn("async fn "@ + rest),
        declares_fn("pub async fn "@ + rest),
        !declares_fn("//"@ + rest),
{
    reveal_strlit("fn ");
    reveal_strlit("pub fn ");
    reveal_strlit("async fn ");
    reveal_strlit("pub async fn ");
    reveal_strlit("//");
    lemma_prefix_stays("fn "@, rest);
    lemma_prefix_stays("pub fn "@, rest);
    lemma_prefix_stays("async fn "@, rest);
    lemma_prefix_stays("pub async fn "@, rest);
    lemma_prefix_stays("//"@, rest);
}

proof fn lemma_prefix_stays(p: Seq<char>, rest: Seq<char>)
    requires
        p.len() >= 2,
        rest.len() > 0,
        !is_space(p[0]),
        !is_space(rest.last()),
    ensures
        trimmed(p + rest) == p + rest,
        starts_with(p + rest, p),
        p[0] != '/' ==> !starts_with(p + rest, "//"@),
{
    let s = p + rest;
    reveal_strlit("//");
    assert(s[0] == p[0]);
    lemma_trimmed_same(s);
    assert(s.subrange(0, p.len() as int) =~= p);
    if starts_with(s, "//"@) {
        assert(s.subrange(0, 2)[0] == "//"@[0]);
    }
}

} // verus!
