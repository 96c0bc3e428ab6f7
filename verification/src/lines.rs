use crate::indent::{indent_char, is_indent_char, lemma_indent_bytes, spec_is_indent_char};
use crate::scan::{
    is_whitespace, lemma_run_len, lemma_run_len_skip, lemma_run_len_unique, lemma_run_of, line_len,
    other_than, run_len, spec_is_whitespace, str_run, whitespace,
};
use crate::text::{
    byte_len, lemma_byte_len_bounds, lemma_byte_len_chars, lemma_byte_len_take_next, str_len,
    str_split,
};
use vstd::prelude::*;

verus! {

/// The first line of `s`, without its line feed.
pub open spec fn first_line(s: Seq<char>) -> Seq<char> {
    s.take(line_len(s) as int)
}

/// The number of characters that the first line of `s` takes with its line feed, if it
/// has one.
pub open spec fn line_step(s: Seq<char>) -> nat {
    if line_len(s) < s.len() {
        line_len(s) + 1
    } else {
        line_len(s)
    }
}

/// What follows the first line of `s`.
pub open spec fn after_line(s: Seq<char>) -> Seq<char> {
    s.skip(line_step(s) as int)
}

/// The number of indentation characters at the start of `line`.
pub open spec fn indent_width(line: Seq<char>) -> nat {
    run_len(line, indent_char())
}

/// Whether `line` holds nothing but indentation.
pub open spec fn is_blank(line: Seq<char>) -> bool {
    indent_width(line) == line.len()
}

/// The first line ends at the first line feed; reading it takes at least one character
/// of a text that is not empty.
pub proof fn lemma_first_line(s: Seq<char>)
    ensures
        line_len(s) <= line_step(s) <= s.len(),
        s.len() > 0 ==> line_step(s) >= 1,
        first_line(s).len() == line_len(s),
        forall|i: int| 0 <= i < line_len(s) ==> #[trigger] s[i] != '\n',
        line_len(s) < s.len() ==> s[line_len(s) as int] == '\n',
        after_line(s).len() == s.len() - line_step(s),
{
    lemma_run_len(s, other_than('\n'));
}

/// The lines that are read while each one is blank or indented by more than
/// `baseline`: a blank line as an empty line, any other without its first `baseline`
/// characters.
pub open spec fn block_lines(s: Seq<char>, baseline: nat) -> Seq<Seq<char>>
    decreases s.len(),
{
    if s.len() == 0 {
        seq![]
    } else {
        proof {
            lemma_first_line(s);
        }
        let line = first_line(s);
        if is_blank(line) {
            seq![Seq::<char>::empty()] + block_lines(after_line(s), baseline)
        } else if indent_width(line) > baseline {
            seq![line.skip(baseline as int)] + block_lines(after_line(s), baseline)
        } else {
            seq![]
        }
    }
}

/// The number of characters that the lines of `block_lines` take, line feeds included.
pub open spec fn block_len(s: Seq<char>, baseline: nat) -> nat
    decreases s.len(),
{
    if s.len() == 0 {
        0
    } else {
        proof {
            lemma_first_line(s);
        }
        let line = first_line(s);
        if is_blank(line) || indent_width(line) > baseline {
            line_step(s) + block_len(after_line(s), baseline)
        } else {
            0
        }
    }
}

/// `lines` without the empty lines at its end.
pub open spec fn trim_blank_end(lines: Seq<Seq<char>>) -> Seq<Seq<char>>
    decreases lines.len(),
{
    if lines.len() > 0 && lines.last().len() == 0 {
        trim_blank_end(lines.drop_last())
    } else {
        lines
    }
}

/// A block ends before a line that is not blank and is indented by no more than the
/// baseline: where such a line comes first, the block is empty and nothing is read.
pub proof fn lemma_dedent_at_baseline(s: Seq<char>, baseline: nat)
    requires
        !is_blank(first_line(s)),
        indent_width(first_line(s)) <= baseline,
    ensures
        block_lines(s, baseline) == Seq::<Seq<char>>::empty(),
        trim_blank_end(block_lines(s, baseline)) == Seq::<Seq<char>>::empty(),
        block_len(s, baseline) == 0,
{
    assert(block_lines(s, baseline) =~= Seq::<Seq<char>>::empty());
}

/// A blank line in a block stands in it as an empty line, whatever its indentation.
pub proof fn lemma_blank_line_in_block(s: Seq<char>, baseline: nat)
    requires
        s.len() > 0,
        is_blank(first_line(s)),
    ensures
        block_lines(s, baseline) == seq![Seq::<char>::empty()] + block_lines(
            after_line(s),
            baseline,
        ),
        block_len(s, baseline) == line_step(s) + block_len(after_line(s), baseline),
{
}

/// Of a list of lines, the empty lines at the end are dropped and all the others are
/// kept, the empty lines between them too.
pub proof fn lemma_trim_blank_end(kept: Seq<Seq<char>>, blanks: Seq<Seq<char>>)
    requires
        kept.len() > 0 ==> kept.last().len() > 0,
        forall|i: int| 0 <= i < blanks.len() ==> (#[trigger] blanks[i]).len() == 0,
    ensures
        trim_blank_end(kept + blanks) == kept,
    decreases blanks.len(),
{
    if blanks.len() == 0 {
        assert(kept + blanks =~= kept);
    } else {
        let all = kept + blanks;
        assert(all.last() == blanks.last());
        assert(all.drop_last() =~= kept + blanks.drop_last());
        lemma_trim_blank_end(kept, blanks.drop_last());
    }
}

/// What is left of a list of lines without the empty lines at its end: the lines up to
/// the last one that is not empty.
pub proof fn lemma_trim_blank_end_parts(lines: Seq<Seq<char>>)
    ensures
        trim_blank_end(lines).len() <= lines.len(),
        trim_blank_end(lines) == lines.take(trim_blank_end(lines).len() as int),
        trim_blank_end(lines).len() > 0 ==> trim_blank_end(lines).last().len() > 0,
        forall|i: int|
            trim_blank_end(lines).len() <= i < lines.len() ==> (#[trigger] lines[i]).len() == 0,
    decreases lines.len(),
{
    if lines.len() > 0 && lines.last().len() == 0 {
        lemma_trim_blank_end_parts(lines.drop_last());
        let n = trim_blank_end(lines).len() as int;
        assert(lines.drop_last().take(n) =~= lines.take(n));
        assert forall|i: int| n <= i < lines.len() implies (#[trigger] lines[i]).len() == 0 by {
            if i < lines.len() - 1 {
                assert(lines[i] == lines.drop_last()[i]);
            }
        }
    } else {
        assert(lines.take(lines.len() as int) =~= lines);
    }
}

/// Each line of a block is either empty or holds more than indentation.
pub proof fn lemma_block_lines_text(s: Seq<char>, baseline: nat)
    ensures
        forall|i: int|
            0 <= i < block_lines(s, baseline).len() ==> (#[trigger] block_lines(
                s,
                baseline,
            )[i]).len() == 0 || !is_blank(block_lines(s, baseline)[i]),
    decreases s.len(),
{
    if s.len() > 0 {
        lemma_first_line(s);
        let line = first_line(s);
        let rest = block_lines(after_line(s), baseline);
        lemma_block_lines_text(after_line(s), baseline);
        if is_blank(line) || indent_width(line) > baseline {
            let first = block_lines(s, baseline)[0];
            assert forall|i: int| 0 <= i < block_lines(s, baseline).len() implies (
            #[trigger] block_lines(s, baseline)[i]).len() == 0 || !is_blank(
                block_lines(s, baseline)[i],
            ) by {
                if i > 0 {
                    assert(block_lines(s, baseline)[i] == rest[i - 1]);
                } else if !is_blank(line) {
                    lemma_run_len(line, indent_char());
                    lemma_run_len_skip(line, indent_char(), baseline as int);
                }
            }
        }
    }
}

/// `lines` without the empty lines at its start.
pub open spec fn trim_blank_start(lines: Seq<Seq<char>>) -> Seq<Seq<char>>
    decreases lines.len(),
{
    if lines.len() > 0 && lines.first().len() == 0 {
        trim_blank_start(lines.drop_first())
    } else {
        lines
    }
}

/// The first line of `s` as a slice, and the number of bytes that it takes with its line
/// feed.
pub fn str_line<'a>(s: &'a str) -> (r: (&'a str, usize))
    ensures
        r.0@ == first_line(s@),
        r.1 == byte_len(s@.take(line_step(s@) as int)),
        r.1 == if line_len(s@) < s@.len() {
            byte_len(r.0@) + 1
        } else {
            byte_len(r.0@)
        },
{
    let f = |c: char| -> (r: bool)
        ensures
            r == (c == '\n'),
        { c == '\n' };
    let total: usize = str_len(s);
    let (n, Ghost(k)) = str_run(s, f, false);
    proof {
        assert forall|i: int| 0 <= i < k implies other_than('\n')(#[trigger] s@[i]) by {
            assert(call_ensures(f, (s@[i],), false));
        }
        lemma_run_len_unique(s@, other_than('\n'), k);
        lemma_byte_len_bounds(s@, k);
        if k < s@.len() {
            lemma_byte_len_take_next(s@, k);
            assert(call_ensures(f, (s@[k],), true));
        } else {
            assert(s@.take(k) =~= s@);
        }
    }
    let (line, _) = str_split(s, n, Ghost(k));
    let step: usize = if n < total {
        n + 1
    } else {
        n
    };
    (line, step)
}

/// The number of indentation characters at the start of `line`.
pub fn str_indent_width(line: &str) -> (n: usize)
    ensures
        n == indent_width(line@),
        n <= line@.len(),
        (n == byte_len(line@)) == is_blank(line@),
{
    let f = |c: char| -> (r: bool)
        ensures
            r == spec_is_indent_char(c),
        { is_indent_char(c) };
    let (n, Ghost(k)) = str_run(line, f, true);
    proof {
        assert forall|i: int| 0 <= i < k implies spec_is_indent_char(
            #[trigger] line@.take(k)[i],
        ) by {
            assert(call_ensures(f, (line@[i],), true));
        }
        assert forall|i: int| 0 <= i < k implies indent_char()(#[trigger] line@[i]) by {
            assert(call_ensures(f, (line@[i],), true));
        }
        lemma_run_len_unique(line@, indent_char(), k);
        lemma_indent_bytes(line@.take(k));
        lemma_byte_len_bounds(line@, k);
    }
    n
}

/// The first `n` characters of `line` take `n` bytes if they are indentation.
pub proof fn lemma_indent_prefix(line: Seq<char>, n: int)
    requires
        0 <= n <= indent_width(line),
    ensures
        n <= line.len(),
        byte_len(line.take(n)) == n,
{
    lemma_run_len(line, indent_char());
    assert forall|i: int| 0 <= i < n implies spec_is_indent_char(#[trigger] line.take(n)[i]) by {
        assert(indent_char()(line[i]));
    }
    lemma_indent_bytes(line.take(n));
}


/// Whether `line` holds nothing but whitespace.
pub open spec fn is_whitespace_line(line: Seq<char>) -> bool {
    run_len(line, whitespace()) == line.len()
}

/// The number of characters that the leading lines of `s` take which hold nothing but
/// whitespace and end in a line feed.
pub open spec fn empty_lines_len(s: Seq<char>) -> nat
    decreases s.len(),
{
    if line_len(s) < s.len() && is_whitespace_line(first_line(s)) {
        proof {
            lemma_first_line(s);
        }
        line_step(s) + empty_lines_len(after_line(s))
    } else {
        0
    }
}

/// The leading empty lines are no longer than the text.
pub proof fn lemma_empty_lines_len(s: Seq<char>)
    ensures
        empty_lines_len(s) <= s.len(),
    decreases s.len(),
{
    if line_len(s) < s.len() && is_whitespace_line(first_line(s)) {
        lemma_first_line(s);
        lemma_empty_lines_len(after_line(s));
    }
}

/// Tells whether `line` holds nothing but whitespace.
pub fn str_is_whitespace(line: &str) -> (r: bool)
    ensures
        r == is_whitespace_line(line@),
{
    let f = |c: char| -> (r: bool)
        ensures
            r == spec_is_whitespace(c),
        { is_whitespace(c) };
    let (n, Ghost(k)) = str_run(line, f, true);
    proof {
        lemma_run_of(f, whitespace(), line@, k);
        lemma_byte_len_bounds(line@, k);
        lemma_byte_len_chars(line@.skip(k));
        if k == line@.len() {
            assert(line@.take(k) =~= line@);
        }
    }
    n == str_len(line)
}

} // verus!
