use crate::lines::{
    first_line, is_whitespace_line, lemma_first_line, line_step, str_line, trim_blank_end,
    trim_blank_start,
};
use crate::scan::{
    is_whitespace, lemma_run_of, line_len, run_len, spec_is_whitespace, str_count, str_run,
    whitespace,
};
use crate::text::{
    byte_len, char_width, lemma_byte_len_bounds, lemma_byte_len_chars, lemma_byte_len_one, spaces,
    str_first, str_len, str_split, str_views,
};
use vstd::prelude::*;
use vstd::string::*;

verus! {

/// The number of columns that a tab is replaced by where the caller names none.
pub const DEFAULT_TAB_SIZE: usize = 8;

/// `s` with each tab replaced by `tab_size` spaces.
pub open spec fn spec_expandtabs(s: Seq<char>, tab_size: nat) -> Seq<char>
    decreases s.len(),
{
    if s.len() == 0 {
        seq![]
    } else {
        spec_expandtabs(s.drop_last(), tab_size) + if s.last() == '\t' {
            spaces(tab_size)
        } else {
            seq![s.last()]
        }
    }
}

/// A text in which the tabs were replaced holds no tab, and is no shorter than the text
/// if a tab takes one column at least.
pub proof fn lemma_expandtabs(s: Seq<char>, tab_size: nat)
    ensures
        forall|i: int|
            0 <= i < spec_expandtabs(s, tab_size).len() ==> #[trigger] spec_expandtabs(
                s,
                tab_size,
            )[i] != '\t',
        tab_size >= 1 ==> spec_expandtabs(s, tab_size).len() >= s.len(),
    decreases s.len(),
{
    if s.len() > 0 {
        let front = spec_expandtabs(s.drop_last(), tab_size);
        let out = spec_expandtabs(s, tab_size);
        lemma_expandtabs(s.drop_last(), tab_size);
        assert forall|i: int| 0 <= i < out.len() implies #[trigger] out[i] != '\t' by {
            if i < front.len() {
                assert(out[i] == front[i]);
            } else if s.last() == '\t' {
                assert(out[i] == spaces(tab_size)[i - front.len()]);
            } else {
                assert(out[i] == s.last());
            }
        }
    }
}

/// The tab size that a caller asks for.
pub open spec fn tab_size_of(tab_size: Option<usize>) -> nat {
    match tab_size {
        Some(n) => n as nat,
        None => DEFAULT_TAB_SIZE as nat,
    }
}

/// The lines of `s`: the texts between its line feeds. A text without a line feed is
/// one line, and a text that ends in a line feed has an empty last line.
pub open spec fn split_lines(s: Seq<char>) -> Seq<Seq<char>>
    decreases s.len(),
{
    if line_len(s) < s.len() {
        proof {
            lemma_first_line(s);
        }
        seq![first_line(s)] + split_lines(s.skip(line_len(s) as int + 1))
    } else {
        seq![s]
    }
}

/// `lines` with a line feed between each two of them.
pub open spec fn join_lines(lines: Seq<Seq<char>>) -> Seq<char>
    decreases lines.len(),
{
    if lines.len() == 0 {
        seq![]
    } else if lines.len() == 1 {
        lines[0]
    } else {
        join_lines(lines.drop_last()) + seq!['\n'] + lines.last()
    }
}

/// The number of whitespace characters at the start of `line`.
pub open spec fn leading_whitespace(line: Seq<char>) -> nat {
    run_len(line, whitespace())
}

/// The least number of leading whitespace characters among the lines of `lines` that
/// hold more than whitespace, if there is such a line.
pub open spec fn margin_of(lines: Seq<Seq<char>>) -> Option<nat>
    decreases lines.len(),
{
    if lines.len() == 0 {
        None
    } else {
        let before = margin_of(lines.drop_last());
        let line = lines.last();
        if is_whitespace_line(line) {
            before
        } else {
            match before {
                None => Some(leading_whitespace(line)),
                Some(m) => Some(
                    if leading_whitespace(line) < m {
                        leading_whitespace(line)
                    } else {
                        m
                    },
                ),
            }
        }
    }
}

/// `line` without its first `margin` characters, or empty if it has no more than that.
pub open spec fn strip_line(line: Seq<char>, margin: nat) -> Seq<char> {
    if margin <= line.len() {
        line.skip(margin as int)
    } else {
        seq![]
    }
}

/// `lines` with the margin that they share taken off each of them, if any of them holds
/// more than whitespace.
pub open spec fn strip_shared_margin(lines: Seq<Seq<char>>) -> Seq<Seq<char>> {
    match margin_of(lines) {
        Some(m) => lines.map_values(|line: Seq<char>| strip_line(line, m)),
        None => lines,
    }
}

/// The lines of a cleaned comment: the first line without its leading whitespace, the
/// lines after it without the margin that they share, and of these lines all but the
/// empty ones at the start and at the end.
pub open spec fn clean_lines(lines: Seq<Seq<char>>) -> Seq<Seq<char>> {
    if lines.len() == 0 {
        lines
    } else {
        trim_blank_start(
            trim_blank_end(
                seq![lines[0].skip(leading_whitespace(lines[0]) as int)] + strip_shared_margin(
                    lines.skip(1),
                ),
            ),
        )
    }
}

/// The cleaned form of the comment `doc`, with tabs taken for `tab_size` columns.
pub open spec fn spec_cleandoc(doc: Seq<char>, tab_size: nat) -> Seq<char> {
    join_lines(clean_lines(split_lines(spec_expandtabs(doc, tab_size))))
}

/// Replaces each tab of `s` by `tab_size` spaces, or by eight where no size is given.
pub fn expandtabs(s: &str, tab_size: Option<usize>) -> (r: String)
    ensures
        r@ == spec_expandtabs(s@, tab_size_of(tab_size)),
{
    let tab_size: usize = match tab_size {
        Some(n) => n,
        None => DEFAULT_TAB_SIZE,
    };
    let mut pad = String::new();
    let mut i: usize = 0;
    while i < tab_size
        invariant
            0 <= i <= tab_size,
            pad@ == spaces(i as nat),
        decreases tab_size - i,
    {
        proof {
            reveal_strlit(" ");
        }
        pad.append(" ");
        i = i + 1;
        assert(pad@ =~= spaces(i as nat));
    }
    let mut out = String::new();
    let mut cur: &str = s;
    let ghost mut k: int = 0;
    proof {
        assert(s@.skip(0) =~= s@);
        assert(s@.take(0) =~= Seq::<char>::empty());
    }
    loop
        invariant
            0 <= k <= s@.len(),
            cur@ == s@.skip(k),
            pad@ == spaces(tab_size as nat),
            out@ == spec_expandtabs(s@.take(k), tab_size as nat),
        ensures
            out@ == spec_expandtabs(s@, tab_size as nat),
        decreases s@.len() - k,
    {
        match str_first(cur) {
            None => {
                proof {
                    assert(s@.take(k) =~= s@);
                }
                break ;
            },
            Some(c) => {
                let w: usize = char_width(c);
                proof {
                    lemma_byte_len_one(c);
                    assert(cur@.take(1) =~= seq![c]);
                    assert(cur@.skip(1) =~= s@.skip(k + 1));
                    assert(s@.take(k + 1).drop_last() =~= s@.take(k));
                }
                let (head, t) = str_split(cur, w, Ghost(1));
                if c == '\t' {
                    out.append(pad.as_str());
                } else {
                    out.append(head);
                }
                cur = t;
                proof {
                    k = k + 1;
                }
            },
        }
    }
    out
}

/// The lines of `s`, as slices of it.
pub fn str_split_lines<'a>(s: &'a str) -> (r: Vec<&'a str>)
    ensures
        str_views(r@) == split_lines(s@),
{
    let mut lines: Vec<&'a str> = Vec::new();
    let mut cur: &'a str = s;
    proof {
        assert(str_views(lines@) + split_lines(cur@) =~= split_lines(s@));
    }
    loop
        invariant_except_break
            str_views(lines@) + split_lines(cur@) == split_lines(s@),
        ensures
            str_views(lines@) == split_lines(s@),
        decreases cur@.len(),
    {
        let ghost seen = str_views(lines@);
        let ghost text = cur@;
        proof {
            lemma_first_line(text);
            lemma_byte_len_chars(text);
        }
        let (line, step) = str_line(cur);
        if step > str_len(line) {
            let (_, rest) = str_split(cur, step, Ghost(line_step(text) as int));
            lines.push(line);
            cur = rest;
            proof {
                assert(str_views(lines@) =~= seen.push(first_line(text)));
                assert(seen + (seq![first_line(text)] + split_lines(cur@)) =~= str_views(lines@)
                    + split_lines(cur@));
            }
        } else {
            lines.push(cur);
            proof {
                assert(str_views(lines@) =~= seen.push(text));
                assert(seen + seq![text] =~= str_views(lines@));
            }
            break ;
        }
    }
    lines
}

/// The least number of leading whitespace characters among the lines, from the second
/// on, that hold more than whitespace.
fn shared_margin(lines: &Vec<&str>) -> (r: Option<usize>)
    requires
        lines.len() > 0,
    ensures
        match margin_of(str_views(lines@).skip(1)) {
            Some(m) => r == Some(m as usize) && m <= usize::MAX,
            None => r is None,
        },
{
    let ghost body = str_views(lines@).skip(1);
    let mut margin: Option<usize> = None;
    let mut i: usize = 1;
    proof {
        assert(body.take(0) =~= Seq::<Seq<char>>::empty());
    }
    while i < lines.len()
        invariant
            1 <= i <= lines.len(),
            body == str_views(lines@).skip(1),
            match margin_of(body.take(i - 1)) {
                Some(m) => margin == Some(m as usize) && m <= usize::MAX,
                None => margin is None,
            },
        decreases lines.len() - i,
    {
        let line: &str = lines[i];
        proof {
            assert(body.take(i as int).drop_last() =~= body.take(i - 1));
            assert(body.take(i as int).last() == line@);
        }
        let f = |c: char| -> (r: bool)
            ensures
                r == spec_is_whitespace(c),
            { is_whitespace(c) };
        let (n, Ghost(k)) = str_run(line, f, true);
        proof {
            lemma_run_of(f, whitespace(), line@, k);
            lemma_byte_len_bounds(line@, k);
            if k == line@.len() {
                assert(line@.take(k) =~= line@);
            }
        }
        if n != str_len(line) {
            let (width, _) = str_count_chars(line, n, Ghost(k));
            margin = match margin {
                None => Some(width),
                Some(m) => Some(
                    if width < m {
                        width
                    } else {
                        m
                    },
                ),
            };
        }
        i = i + 1;
    }
    proof {
        assert(body.take(lines.len() - 1) =~= body);
    }
    margin
}

/// The number of characters in the first `n` bytes of `s`, which hold `k` whole
/// characters.
fn str_count_chars(s: &str, n: usize, Ghost(k): Ghost<int>) -> (r: (usize, Ghost<int>))
    requires
        0 <= k <= s@.len(),
        n == byte_len(s@.take(k)),
    ensures
        r.0 == k,
{
    proof {
        lemma_byte_len_chars(s@.take(k));
    }
    let (head, _) = str_split(s, n, Ghost(k));
    let mut cur: &str = head;
    let mut count: usize = 0;
    proof {
        assert(head@.skip(0) =~= head@);
    }
    loop
        invariant
            0 <= count <= head@.len(),
            head@.len() == k,
            k <= n,
            cur@ == head@.skip(count as int),
        ensures
            count == k,
        decreases head@.len() - count,
    {
        match str_first(cur) {
            None => {
                break ;
            },
            Some(c) => {
                let w: usize = char_width(c);
                proof {
                    lemma_byte_len_one(c);
                    assert(cur@.take(1) =~= seq![c]);
                    assert(cur@.skip(1) =~= head@.skip(count + 1));
                }
                let (_, t) = str_split(cur, w, Ghost(1));
                cur = t;
                count = count + 1;
            },
        }
    }
    (count, Ghost(k))
}

/// A text has one line at least.
pub proof fn lemma_split_lines_len(s: Seq<char>)
    ensures
        split_lines(s).len() >= 1,
    decreases s.len(),
{
    if line_len(s) < s.len() {
        lemma_first_line(s);
        lemma_split_lines_len(s.skip(line_len(s) as int + 1));
    }
}

/// Cleans a comment block: replaces tabs by spaces, takes the leading whitespace off the
/// first line and the shared margin off the lines after it, drops the empty lines at the
/// start and at the end, and joins what is left with line feeds.
///
/// The shared margin is the least number of leading whitespace characters among the
/// lines after the first that hold more than whitespace. A line that is shorter than the
/// margin becomes empty.
pub fn cleandoc(doc: &str, tab_size: Option<usize>) -> (r: String)
    ensures
        r@ == spec_cleandoc(doc@, tab_size_of(tab_size)),
{
    let doc = expandtabs(doc, tab_size);
    let lines = str_split_lines(doc.as_str());
    let ghost texts = str_views(lines@);
    proof {
        lemma_split_lines_len(doc@);
    }
    let margin = shared_margin(&lines);
    let mut out: Vec<&str> = Vec::new();
    let first: &str = lines[0];
    let f = |c: char| -> (r: bool)
        ensures
            r == spec_is_whitespace(c),
        { is_whitespace(c) };
    let (n, Ghost(k)) = str_run(first, f, true);
    proof {
        lemma_run_of(f, whitespace(), first@, k);
    }
    let (_, trimmed) = str_split(first, n, Ghost(k));
    out.push(trimmed);
    let ghost body = texts.skip(1);
    let ghost stripped = strip_shared_margin(body);
    let ghost head = seq![texts[0].skip(leading_whitespace(texts[0]) as int)];
    let mut i: usize = 1;
    proof {
        assert(str_views(out@) =~= head + stripped.take(0));
    }
    while i < lines.len()
        invariant
            1 <= i <= lines.len(),
            texts == str_views(lines@),
            body == texts.skip(1),
            stripped == strip_shared_margin(body),
            stripped.len() == body.len(),
            match margin_of(body) {
                Some(m) => margin == Some(m as usize) && m <= usize::MAX,
                None => margin is None,
            },
            str_views(out@) == head + stripped.take(i - 1),
        decreases lines.len() - i,
    {
        let line: &str = lines[i];
        let ghost seen = str_views(out@);
        proof {
            assert(body[i - 1] == line@);
        }
        match margin {
            Some(m) => {
                let (bytes, Ghost(k)) = str_count(line, m);
                let (_, rest) = str_split(line, bytes, Ghost(k));
                out.push(rest);
                proof {
                    assert(rest@ =~= strip_line(line@, m as nat));
                }
            },
            None => {
                out.push(line);
            },
        }
        proof {
            assert(str_views(out@) =~= seen.push(stripped[i - 1]));
            assert(head + stripped.take(i as int) =~= (head + stripped.take(i - 1)).push(
                stripped[i - 1],
            ));
        }
        i = i + 1;
    }
    let ghost full = head + stripped;
    proof {
        assert(stripped.take(lines.len() - 1) =~= stripped);
    }
    loop
        invariant
            trim_blank_end(str_views(out@)) == trim_blank_end(full),
        ensures
            str_views(out@) == trim_blank_end(full),
        decreases out.len(),
    {
        let len: usize = out.len();
        if len == 0 {
            break ;
        }
        let ghost last = out@[len - 1]@;
        proof {
            lemma_byte_len_chars(last);
            assert(str_views(out@).last() == last);
            if last.len() == 0 {
                assert(last =~= Seq::<char>::empty());
            }
        }
        if str_len(out[len - 1]) != 0 {
            break ;
        }
        let ghost prev = str_views(out@);
        out.pop();
        proof {
            assert(str_views(out@) =~= prev.drop_last());
        }
    }
    let ghost kept = str_views(out@);
    let mut lo: usize = 0;
    proof {
        assert(kept.skip(0) =~= kept);
    }
    while lo < out.len()
        invariant
            0 <= lo <= out.len(),
            kept == str_views(out@),
            trim_blank_start(kept.skip(lo as int)) == trim_blank_start(kept),
        ensures
            0 <= lo <= out.len(),
            kept.skip(lo as int) == trim_blank_start(kept),
        decreases out.len() - lo,
    {
        let ghost line = out@[lo as int]@;
        proof {
            lemma_byte_len_chars(line);
            assert(kept.skip(lo as int).first() == line);
            if line.len() == 0 {
                assert(line =~= Seq::<char>::empty());
            }
        }
        if str_len(out[lo]) != 0 {
            break ;
        }
        proof {
            assert(kept.skip(lo as int).drop_first() =~= kept.skip(lo + 1));
        }
        lo = lo + 1;
    }
    let ghost clean = kept.skip(lo as int);
    let mut res = String::new();
    let mut j: usize = lo;
    proof {
        assert(clean.take(0) =~= Seq::<Seq<char>>::empty());
    }
    while j < out.len()
        invariant
            lo <= j <= out.len(),
            kept == str_views(out@),
            clean == kept.skip(lo as int),
            res@ == join_lines(clean.take(j - lo)),
        decreases out.len() - j,
    {
        let ghost before = res@;
        proof {
            reveal_strlit("\n");
            assert(clean.take(j - lo + 1).drop_last() =~= clean.take(j - lo));
            assert(clean.take(j - lo + 1).last() == out@[j as int]@);
        }
        if j > lo {
            res.append("\n");
            proof {
                assert("\n"@ =~= seq!['\n']);
            }
        } else {
            proof {
                assert(before + out@[j as int]@ =~= out@[j as int]@);
            }
        }
        res.append(out[j]);
        j = j + 1;
    }
    proof {
        assert(clean.take(out.len() - lo) =~= clean);
    }
    res
}

} // verus!
