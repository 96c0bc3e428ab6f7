use crate::error::{ParseError, ParseErrorView};
use crate::guard::Guard;
use crate::indent::{indent_char, is_indent_char, lemma_indent_bytes, spec_is_indent_char, TAB_SIZE};
use crate::lines::{
    after_line, block_len, block_lines, empty_lines_len, lemma_first_line, lemma_indent_prefix,
    line_step, str_indent_width, str_is_whitespace, str_line, trim_blank_end,
};
use crate::scan::{
    ascii_whitespace, find_any_from, find_from, is_ascii_whitespace, lemma_first_prefix,
    lemma_run_of, run_len, run_of, spec_is_ascii_whitespace, stop_of, str_count, str_first_prefix,
    str_run, str_starts_with,
};
use crate::text::{
    byte_len, char_width, lemma_boundary, lemma_byte_len_bounds, lemma_byte_len_chars,
    lemma_byte_len_one, lemma_byte_len_take_next, lemma_encode_concat, str_first, str_len,
    str_split, str_views,
};
use vstd::prelude::*;
use vstd::string::*;
use vstd::utf8::*;

verus! {

/// A position in a text that is read from left to right.
///
/// `pos` is a byte offset into `input`. The operations read and return whole characters,
/// so their contracts speak of `remaining()`, the characters from the position on.
pub struct Cursor<'a> {
    pub pos: usize,
    pub input: &'a str,
}

impl<'a> Cursor<'a> {
    /// The position lies within the input, at the start of a character or at the end.
    pub closed spec fn wf(&self) -> bool {
        is_char_boundary(self.input.spec_bytes(), self.pos as int)
    }

    /// The characters before the position.
    pub closed spec fn consumed(&self) -> Seq<char> {
        decode_utf8(self.input.spec_bytes().subrange(0, self.pos as int))
    }

    /// The characters from the position on.
    pub closed spec fn remaining(&self) -> Seq<char> {
        decode_utf8(
            self.input.spec_bytes().subrange(
                self.pos as int,
                self.input.spec_bytes().len() as int,
            ),
        )
    }

    /// The indentation of any part of the input can be counted in columns.
    pub open spec fn columns_fit(&self) -> bool {
        TAB_SIZE * self.input@.len() <= usize::MAX
    }

    /// `after` is this cursor moved forward over `k` characters of the same input.
    pub open spec fn steps_to(&self, after: &Cursor<'a>, k: int) -> bool {
        &&& 0 <= k <= self.remaining().len()
        &&& after.input == self.input
        &&& after.wf()
        &&& after.pos == self.pos + byte_len(self.remaining().take(k))
        &&& after.remaining() == self.remaining().skip(k)
        &&& after.consumed() == self.consumed() + self.remaining().take(k)
    }

    /// The consumed and the remaining characters make up the input, and the position is
    /// the number of bytes that the consumed characters take.
    pub proof fn lemma_parts(&self)
        requires
            self.wf(),
        ensures
            self.consumed() + self.remaining() == self.input@,
            self.pos == byte_len(self.consumed()),
            self.pos + byte_len(self.remaining()) == byte_len(self.input@),
            self.remaining().len() <= byte_len(self.remaining()),
    {
        broadcast use encode_utf8_valid_utf8;

        let bytes = self.input.spec_bytes();
        let p = self.pos as int;
        assert(valid_utf8(bytes));
        if p != 0 {
            reveal_with_fuel(is_char_boundary, 1);
            assert(p <= bytes.len());
        }
        valid_utf8_split(bytes, p);
        decode_utf8_split(bytes, p);
        encode_utf8_decode_utf8(self.input@);
        decode_utf8_encode_utf8(bytes.subrange(0, p));
        decode_utf8_encode_utf8(bytes.subrange(p, bytes.len() as int));
        lemma_byte_len_chars(self.remaining());
    }

    /// A position that lies behind the first `k` characters of the input is well formed,
    /// and splits the input there.
    pub proof fn lemma_at(&self, k: int)
        requires
            0 <= k <= self.input@.len(),
            self.pos == byte_len(self.input@.take(k)),
        ensures
            self.wf(),
            self.consumed() == self.input@.take(k),
            self.remaining() == self.input@.skip(k),
    {
        broadcast use encode_utf8_valid_utf8;

        let a = self.input@.take(k);
        let b = self.input@.skip(k);
        assert(a + b =~= self.input@);
        lemma_boundary(a, b);
        encode_utf8_decode_utf8(a);
        encode_utf8_decode_utf8(b);
    }

    /// Where the cursor stands after `k` more characters.
    pub proof fn lemma_step(&self, after: &Cursor<'a>, k: int)
        requires
            self.wf(),
            0 <= k <= self.remaining().len(),
            after.input == self.input,
            after.pos == self.pos + byte_len(self.remaining().take(k)),
        ensures
            self.steps_to(after, k),
    {
        broadcast use encode_utf8_valid_utf8;

        self.lemma_parts();
        let rem = self.remaining();
        let a = self.consumed() + rem.take(k);
        let b = rem.skip(k);
        assert(a + b =~= self.input@) by {
            assert(rem.take(k) + rem.skip(k) =~= rem);
        }
        lemma_boundary(a, b);
        lemma_encode_concat(self.consumed(), rem.take(k));
        encode_utf8_decode_utf8(a);
        encode_utf8_decode_utf8(b);
    }

    /// Moving on from where a move ended is one move over both distances.
    pub proof fn lemma_steps_trans(&self, mid: &Cursor<'a>, after: &Cursor<'a>, k1: int, k2: int)
        requires
            self.steps_to(mid, k1),
            mid.steps_to(after, k2),
        ensures
            self.steps_to(after, k1 + k2),
    {
        let rem = self.remaining();
        assert(rem.skip(k1).skip(k2) =~= rem.skip(k1 + k2));
        assert(rem.take(k1) + rem.skip(k1).take(k2) =~= rem.take(k1 + k2));
        lemma_encode_concat(rem.take(k1), rem.skip(k1).take(k2));
        assert(self.consumed() + rem.take(k1) + rem.skip(k1).take(k2) =~= self.consumed()
            + rem.take(k1 + k2));
    }

    /// A cursor at the start of `input`.
    pub fn new(input: &'a str) -> (cursor: Cursor<'a>)
        ensures
            cursor.wf(),
            cursor.pos == 0,
            cursor.input == input,
            cursor.remaining() == input@,
            cursor.consumed() == Seq::<char>::empty(),
    {
        let cursor = Cursor { pos: 0, input };
        proof {
            broadcast use encode_utf8_valid_utf8;

            let bytes = input.spec_bytes();
            assert(bytes.subrange(0, bytes.len() as int) =~= bytes);
            assert(bytes.subrange(0, 0) =~= Seq::<u8>::empty());
            encode_utf8_decode_utf8(input@);
            assert(valid_utf8(Seq::<u8>::empty()));
        }
        cursor
    }

    /// The rest of the input, as a slice of it.
    fn rest(&self) -> (r: &'a str)
        requires
            self.wf(),
        ensures
            r@ == self.remaining(),
            self.pos + byte_len(r@) == byte_len(self.input@),
    {
        proof {
            self.lemma_parts();
        }
        let (_, r) = self.input.split_at(self.pos);
        proof {
            encode_utf8_decode_utf8(r@);
        }
        r
    }

    /// Moves over the next `k` characters, which take `n` bytes.
    fn advance(&mut self, n: usize, Ghost(k): Ghost<int>)
        requires
            old(self).wf(),
            0 <= k <= old(self).remaining().len(),
            n == byte_len(old(self).remaining().take(k)),
        ensures
            old(self).steps_to(final(self), k),
    {
        proof {
            self.lemma_parts();
            lemma_byte_len_bounds(self.remaining(), k);
        }
        let total: usize = str_len(self.input);
        let ghost before = *self;
        self.pos = self.pos + n;
        proof {
            before.lemma_step(self, k);
        }
    }

    /// Whether the whole input has been read.
    pub fn eof(&self) -> (r: bool)
        requires
            self.wf(),
        ensures
            r == (self.remaining().len() == 0),
    {
        proof {
            self.lemma_parts();
            if self.remaining().len() == 0 {
                assert(self.remaining() =~= Seq::<char>::empty());
            }
        }
        self.pos == str_len(self.input)
    }

    /// The next character, if there is one. The cursor stays where it is.
    pub fn peek(&self) -> (r: Option<char>)
        requires
            self.wf(),
        ensures
            self.remaining().len() == 0 ==> r is None,
            self.remaining().len() > 0 ==> r == Some(self.remaining()[0]),
    {
        str_first(self.rest())
    }

    /// The next `n` characters, or all that remain if there are fewer. The cursor stays
    /// where it is.
    pub fn peek_n(&self, n: usize) -> (r: Vec<char>)
        requires
            self.wf(),
        ensures
            r@ == self.remaining().take(
                if n <= self.remaining().len() {
                    n as int
                } else {
                    self.remaining().len() as int
                },
            ),
    {
        let ghost rem = self.remaining();
        let mut out: Vec<char> = Vec::new();
        let mut cur: &str = self.rest();
        let mut i: usize = 0;
        proof {
            assert(rem.skip(0) =~= rem);
            assert(rem.take(0) =~= out@);
        }
        while i < n
            invariant_except_break
                i <= n,
            invariant
                0 <= i <= rem.len(),
                cur@ == rem.skip(i as int),
                out@ == rem.take(i as int),
            ensures
                i == if n <= rem.len() { n as int } else { rem.len() as int },
                out@ == rem.take(i as int),
            decreases n - i,
        {
            match str_first(cur) {
                None => {
                    break ;
                },
                Some(c) => {
                    let w: usize = char_width(c);
                    proof {
                        lemma_byte_len_one(c);
                        assert(cur@.take(1) =~= seq![c]);
                        assert(cur@.skip(1) =~= rem.skip(i + 1));
                        assert(rem.take(i + 1) =~= rem.take(i as int).push(c));
                    }
                    let (_, t) = str_split(cur, w, Ghost(1));
                    cur = t;
                    out.push(c);
                    i = i + 1;
                },
            }
        }
        out
    }

    /// The longest run of characters that `f` accepts, from the position on. The cursor
    /// stays where it is.
    pub fn peek_while<F: Fn(char) -> bool>(&self, f: F) -> (r: &'a str)
        requires
            self.wf(),
            forall|c: char| call_requires(f, (c,)),
        ensures
            run_of(f, self.remaining(), r@.len() as int),
            r@ == self.remaining().take(r@.len() as int),
    {
        let rest = self.rest();
        let (n, Ghost(k)) = str_run(rest, f, true);
        let (head, _) = str_split(rest, n, Ghost(k));
        head
    }

    /// Moves over the next `n` characters, or to the end if fewer remain.
    pub fn skip_n(&mut self, n: usize)
        requires
            old(self).wf(),
        ensures
            old(self).steps_to(
                final(self),
                if n <= old(self).remaining().len() {
                    n as int
                } else {
                    old(self).remaining().len() as int
                },
            ),
    {
        let (bytes, Ghost(k)) = str_count(self.rest(), n);
        self.advance(bytes, Ghost(k));
    }

    /// Reads the next character, if there is one, and moves over it.
    pub fn take(&mut self) -> (r: Option<char>)
        requires
            old(self).wf(),
        ensures
            old(self).remaining().len() == 0 ==> r is None && *final(self) == *old(self),
            old(self).remaining().len() > 0 ==> r == Some(old(self).remaining()[0]) && old(
                self,
            ).steps_to(final(self), 1),
    {
        let next = str_first(self.rest());
        match next {
            Some(ch) => {
                proof {
                    lemma_byte_len_one(ch);
                    assert(self.remaining().take(1) =~= seq![ch]);
                }
                self.advance(char_width(ch), Ghost(1));
            },
            None => {},
        }
        next
    }

    /// Reads the next `n` characters, or all that remain if there are fewer, and moves
    /// over them.
    pub fn take_n(&mut self, n: usize) -> (r: &'a str)
        requires
            old(self).wf(),
        ensures
            r@.len() == if n <= old(self).remaining().len() {
                n as int
            } else {
                old(self).remaining().len() as int
            },
            r@ == old(self).remaining().take(r@.len() as int),
            old(self).steps_to(final(self), r@.len() as int),
    {
        let rest = self.rest();
        let (bytes, Ghost(k)) = str_count(rest, n);
        let (head, _) = str_split(rest, bytes, Ghost(k));
        self.advance(bytes, Ghost(k));
        head
    }

    /// Reads the longest run of characters that `f` refuses, and moves over it.
    pub fn take_until<F: Fn(char) -> bool>(&mut self, f: F) -> (r: &'a str)
        requires
            old(self).wf(),
            forall|c: char| call_requires(f, (c,)),
        ensures
            stop_of(f, old(self).remaining(), r@.len() as int),
            r@ == old(self).remaining().take(r@.len() as int),
            old(self).steps_to(final(self), r@.len() as int),
    {
        let rest = self.rest();
        let (n, Ghost(k)) = str_run(rest, f, false);
        let (head, _) = str_split(rest, n, Ghost(k));
        self.advance(n, Ghost(k));
        head
    }

    /// Reads the longest run of characters that `f` accepts, and moves over it.
    pub fn take_while<F: Fn(char) -> bool>(&mut self, f: F) -> (r: &'a str)
        requires
            old(self).wf(),
            forall|c: char| call_requires(f, (c,)),
        ensures
            run_of(f, old(self).remaining(), r@.len() as int),
            r@ == old(self).remaining().take(r@.len() as int),
            old(self).steps_to(final(self), r@.len() as int),
    {
        let rest = self.rest();
        let (n, Ghost(k)) = str_run(rest, f, true);
        let (head, _) = str_split(rest, n, Ghost(k));
        self.advance(n, Ghost(k));
        head
    }

    /// Searches for the first place, at least one character after the position, at which
    /// one of `candidates` stands; where several stand there, the first in the list counts.
    ///
    /// If there is such a place, the cursor moves to the end of the candidate found there,
    /// and the candidate comes back together with the text between the old position and
    /// the candidate. If there is none, the cursor stays where it is.
    pub fn take_until_match_any(&mut self, candidates: Vec<&str>) -> (r: Option<(String, &'a str)>)
        requires
            old(self).wf(),
        ensures
            match find_any_from(old(self).remaining(), str_views(candidates@), 1) {
                Some((k, j)) => r matches Some(found) && found.0@ == candidates@[j]@ && found.1@
                    == old(self).remaining().take(k) && old(self).steps_to(
                    final(self),
                    k + candidates@[j]@.len(),
                ),
                None => r is None && *final(self) == *old(self),
            },
    {
        let ghost rem = self.remaining();
        let ghost cands = str_views(candidates@);
        let rest = self.rest();
        let total: usize = str_len(rest);
        let mut cur: &str = rest;
        let mut n: usize = 0;
        let ghost mut k: int = 0;
        proof {
            assert(rem.skip(0) =~= rem);
            assert(rem.take(0) =~= Seq::<char>::empty());
            if rem.len() == 0 {
                assert(find_any_from(rem, cands, 1) is None);
            }
        }
        loop
            invariant
                self.wf(),
                rem == self.remaining(),
                rest@ == rem,
                cands == str_views(candidates@),
                total == byte_len(rem),
                0 <= k <= rem.len(),
                cur@ == rem.skip(k),
                n == byte_len(rem.take(k)),
                *self == *old(self),
                find_any_from(rem, cands, 1) == if k < rem.len() {
                    find_any_from(rem, cands, k + 1)
                } else {
                    None
                },
            decreases rem.len() - k,
        {
            match str_first(cur) {
                None => {
                    return None;
                },
                Some(c) => {
                    let w: usize = char_width(c);
                    proof {
                        lemma_byte_len_take_next(rem, k);
                        lemma_byte_len_one(c);
                        assert(cur@.take(1) =~= seq![c]);
                        assert(cur@.skip(1) =~= rem.skip(k + 1));
                    }
                    let (_, t) = str_split(cur, w, Ghost(1));
                    cur = t;
                    n = n + w;
                    proof {
                        k = k + 1;
                    }
                    match str_first_prefix(cur, &candidates) {
                        Some(j) => {
                            let cand: &str = candidates[j];
                            let (before, _) = str_split(rest, n, Ghost(k));
                            let m: usize = str_len(cand);
                            proof {
                                lemma_first_prefix(cands, cur@, 0);
                                assert(cands[j as int] == cand@);
                                let step = k + cand@.len();
                                assert(rem.take(step) =~= rem.take(k) + cand@) by {
                                    assert(rem.skip(k).take(cand@.len() as int) =~= cand@);
                                }
                                lemma_encode_concat(rem.take(k), cand@);
                                lemma_byte_len_bounds(rem, step);
                            }
                            self.advance(n + m, Ghost(k + cand@.len()));
                            return Some((String::from_str(cand), before));
                        },
                        None => {},
                    }
                },
            }
        }
    }

    /// Searches for the first place, from the position on, at which `s` stands.
    ///
    /// If there is such a place, the cursor moves to it, and the text between the old
    /// position and that place comes back. If there is none, the cursor stays where it is.
    pub fn take_until_match_str(&mut self, s: &str) -> (r: Option<&'a str>)
        requires
            old(self).wf(),
        ensures
            match find_from(old(self).remaining(), s@, 0) {
                Some(k) => r matches Some(before) && before@ == old(self).remaining().take(k)
                    && old(self).steps_to(final(self), k),
                None => r is None && *final(self) == *old(self),
            },
    {
        let ghost rem = self.remaining();
        let rest = self.rest();
        let total: usize = str_len(rest);
        let mut cur: &str = rest;
        let mut n: usize = 0;
        let ghost mut k: int = 0;
        proof {
            assert(rem.skip(0) =~= rem);
            assert(rem.take(0) =~= Seq::<char>::empty());
        }
        loop
            invariant
                self.wf(),
                rem == self.remaining(),
                rest@ == rem,
                total == byte_len(rem),
                0 <= k <= rem.len(),
                cur@ == rem.skip(k),
                n == byte_len(rem.take(k)),
                *self == *old(self),
                find_from(rem, s@, 0) == find_from(rem, s@, k),
            decreases rem.len() - k,
        {
            if str_starts_with(cur, s) {
                let (before, _) = str_split(rest, n, Ghost(k));
                self.advance(n, Ghost(k));
                return Some(before);
            }
            match str_first(cur) {
                None => {
                    return None;
                },
                Some(c) => {
                    let w: usize = char_width(c);
                    proof {
                        lemma_byte_len_take_next(rem, k);
                        lemma_byte_len_one(c);
                        assert(cur@.take(1) =~= seq![c]);
                        assert(cur@.skip(1) =~= rem.skip(k + 1));
                    }
                    let (_, t) = str_split(cur, w, Ghost(1));
                    cur = t;
                    n = n + w;
                    proof {
                        k = k + 1;
                    }
                },
            }
        }
    }

    /// Reads the block of lines at the position: the lines that follow one another while
    /// each is blank or indented by more than `indent` characters.
    ///
    /// A blank line, one that holds nothing but indentation, is handed out as an empty
    /// line; any other line without its first `indent` characters. The first line that is
    /// neither ends the block and is not read. The blank lines at the end of the block are
    /// read but not handed out.
    pub fn take_until_dedent(&mut self, indent: usize) -> (r: Vec<&'a str>)
        requires
            old(self).wf(),
        ensures
            str_views(r@) == trim_blank_end(block_lines(old(self).remaining(), indent as nat)),
            old(self).steps_to(
                final(self),
                block_len(old(self).remaining(), indent as nat) as int,
            ),
    {
        let ghost start = *self;
        let ghost rem0 = self.remaining();
        let ghost b = indent as nat;
        let mut lines: Vec<&'a str> = Vec::new();
        let ghost mut done: int = 0;
        proof {
            start.lemma_step(self, 0);
            assert(str_views(lines@) =~= Seq::<Seq<char>>::empty());
            assert(str_views(lines@) + block_lines(rem0, b) =~= block_lines(rem0, b));
        }
        loop
            invariant
                start.wf(),
                rem0 == start.remaining(),
                b == indent as nat,
                start.steps_to(self, done),
                block_lines(rem0, b) == str_views(lines@) + block_lines(self.remaining(), b),
                block_len(rem0, b) == done + block_len(self.remaining(), b),
            ensures
                block_lines(rem0, b) == str_views(lines@),
                block_len(rem0, b) == done,
                start.steps_to(self, done),
            decreases self.remaining().len(),
        {
            let rest = self.rest();
            let ghost rem = self.remaining();
            let ghost before = *self;
            let ghost seen = str_views(lines@);
            proof {
                lemma_first_line(rem);
                lemma_byte_len_chars(rem);
            }
            if str_len(rest) == 0 {
                proof {
                    assert(seen + block_lines(rem, b) =~= seen);
                }
                break ;
            }
            proof {
                if rem.len() == 0 {
                    assert(rem =~= Seq::<char>::empty());
                }
            }
            let (line, step) = str_line(rest);
            let width: usize = str_indent_width(line);
            if width == str_len(line) {
                lines.push("");
                proof {
                    reveal_strlit("");
                    assert(""@ =~= Seq::<char>::empty());
                    assert(str_views(lines@) =~= seen.push(Seq::<char>::empty()));
                }
            } else if width > indent {
                proof {
                    lemma_indent_prefix(line@, indent as int);
                }
                let (_, body) = str_split(line, indent, Ghost(indent as int));
                lines.push(body);
                proof {
                    assert(str_views(lines@) =~= seen.push(line@.skip(indent as int)));
                }
            } else {
                proof {
                    assert(seen + block_lines(rem, b) =~= seen);
                }
                break ;
            }
            self.advance(step, Ghost(line_step(rem) as int));
            proof {
                start.lemma_steps_trans(&before, self, done, line_step(rem) as int);
                done = done + line_step(rem);
                assert(self.remaining() == after_line(rem));
                assert(seen + (seq![str_views(lines@).last()] + block_lines(after_line(rem), b))
                    =~= str_views(lines@) + block_lines(after_line(rem), b));
            }
        }
        let ghost full = str_views(lines@);
        loop
            invariant
                trim_blank_end(str_views(lines@)) == trim_blank_end(full),
            ensures
                str_views(lines@) == trim_blank_end(full),
            decreases lines.len(),
        {
            let n: usize = lines.len();
            if n == 0 {
                break ;
            }
            let ghost last = lines@[n - 1]@;
            proof {
                lemma_byte_len_chars(last);
                assert(str_views(lines@).last() == last);
                if last.len() == 0 {
                    assert(last =~= Seq::<char>::empty());
                }
            }
            if str_len(lines[n - 1]) != 0 {
                break ;
            }
            let ghost prev = str_views(lines@);
            lines.pop();
            proof {
                assert(str_views(lines@) =~= prev.drop_last());
            }
        }
        lines
    }

    /// Reads everything that remains, and moves to the end.
    pub fn take_remaining(&mut self) -> (r: &'a str)
        requires
            old(self).wf(),
        ensures
            r@ == old(self).remaining(),
            old(self).steps_to(final(self), old(self).remaining().len() as int),
            final(self).remaining().len() == 0,
    {
        let remaining = self.rest();
        proof {
            assert(self.remaining().take(self.remaining().len() as int) =~= self.remaining());
        }
        self.advance(str_len(remaining), Ghost(self.remaining().len() as int));
        remaining
    }

    /// Moves over the ASCII whitespace at the position.
    pub fn eat_whitespace(&mut self)
        requires
            old(self).wf(),
        ensures
            old(self).steps_to(
                final(self),
                run_len(old(self).remaining(), ascii_whitespace()) as int,
            ),
    {
        let f = |c: char| -> (r: bool)
            ensures
                r == spec_is_ascii_whitespace(c),
            { is_ascii_whitespace(c) };
        let (n, Ghost(k)) = str_run(self.rest(), f, true);
        proof {
            lemma_run_of(f, ascii_whitespace(), self.remaining(), k);
        }
        self.advance(n, Ghost(k));
    }

    /// Moves over the lines at the position that hold nothing but whitespace and end in a
    /// line feed. A last line without a line feed is not passed over.
    pub fn eat_empty_lines(&mut self)
        requires
            old(self).wf(),
        ensures
            old(self).steps_to(final(self), empty_lines_len(old(self).remaining()) as int),
    {
        let ghost start = *self;
        let ghost rem0 = self.remaining();
        let ghost mut done: int = 0;
        proof {
            start.lemma_step(self, 0);
        }
        loop
            invariant
                start.wf(),
                rem0 == start.remaining(),
                start.steps_to(self, done),
                empty_lines_len(rem0) == done + empty_lines_len(self.remaining()),
            ensures
                start.steps_to(self, done),
                empty_lines_len(rem0) == done,
            decreases self.remaining().len(),
        {
            let rest = self.rest();
            let ghost rem = self.remaining();
            let ghost before = *self;
            proof {
                lemma_first_line(rem);
            }
            let (line, step) = str_line(rest);
            if step > str_len(line) && str_is_whitespace(line) {
                self.advance(step, Ghost(line_step(rem) as int));
                proof {
                    start.lemma_steps_trans(&before, self, done, line_step(rem) as int);
                    done = done + line_step(rem);
                }
            } else {
                break ;
            }
        }
    }

    /// Moves over the indentation at the position and returns how many characters it has.
    pub fn eat_indent(&mut self) -> (r: usize)
        requires
            old(self).wf(),
        ensures
            r == run_len(old(self).remaining(), indent_char()),
            old(self).steps_to(final(self), r as int),
    {
        let f = |c: char| -> (r: bool)
            ensures
                r == spec_is_indent_char(c),
            { is_indent_char(c) };
        let (n, Ghost(k)) = str_run(self.rest(), f, true);
        proof {
            lemma_run_of(f, indent_char(), self.remaining(), k);
            lemma_indent_bytes(self.remaining().take(k));
            assert forall|i: int| 0 <= i < k implies spec_is_indent_char(
                #[trigger] self.remaining().take(k)[i],
            ) by {
                assert(call_ensures(f, (self.remaining()[i],), true));
            }
        }
        self.advance(n, Ghost(k));
        n
    }

    /// Moves over `s` if the input goes on with it, and fails otherwise.
    pub fn eat_string(&mut self, s: &str) -> (r: Result<(), ParseError>)
        requires
            old(self).wf(),
        ensures
            s@.is_prefix_of(old(self).remaining()) ==> r is Ok && old(self).steps_to(
                final(self),
                s@.len() as int,
            ),
            !s@.is_prefix_of(old(self).remaining()) ==> r is Err && *final(self) == *old(self)
                && r->Err_0@ == (ParseErrorView::InvalidValue {
                pos: old(self).pos as nat,
                message: "Expected "@ + s@,
            }),
    {
        if str_starts_with(self.rest(), s) {
            proof {
                assert(self.remaining().take(s@.len() as int) =~= s@);
            }
            self.advance(str_len(s), Ghost(s@.len() as int));
            Ok(())
        } else {
            let mut message = String::from_str("Expected ");
            message.append(s);
            Err(ParseError::invalid_value(self.pos, message))
        }
    }

    /// A guard that remembers the present position.
    pub fn guard(&mut self) -> (guard: CursorGuard)
        ensures
            *final(self) == *old(self),
            guard.saved() == old(self).pos,
    {
        let here = Cursor { pos: self.pos, input: self.input };
        CursorGuard::new(self, here)
    }
}

/// Remembers the position that a cursor had when the guard was taken.
pub struct CursorGuard {
    pos: usize,
}

impl<'a> Guard<Cursor<'a>> for CursorGuard {
    type Value = usize;

    open spec fn guarded(ctx: &Cursor<'a>) -> usize {
        ctx.pos
    }

    closed spec fn saved(&self) -> usize {
        self.pos
    }

    fn new(ctx: &mut Cursor<'a>, new_ctx: Cursor<'a>) -> (guard: CursorGuard)
        ensures
            final(ctx).input == old(ctx).input,
    {
        let previous = ctx.pos;
        ctx.pos = new_ctx.pos;
        CursorGuard { pos: previous }
    }

    fn restore(&self, ctx: &mut Cursor<'a>)
        ensures
            final(ctx).input == old(ctx).input,
    {
        ctx.pos = self.pos;
    }
}

} // verus!
