use crate::text::{
    byte_len, char_width, lemma_byte_len_chars, lemma_byte_len_one, lemma_byte_len_take_next,
    str_first, str_len, str_split, str_views,
};
use vstd::prelude::*;

verus! {

/// The number of leading characters of `s` that satisfy `p`.
pub open spec fn run_len(s: Seq<char>, p: spec_fn(char) -> bool) -> nat
    decreases s.len(),
{
    if s.len() > 0 && p(s[0]) {
        1 + run_len(s.drop_first(), p)
    } else {
        0
    }
}

/// `run_len` is the one length at which a run of `p` ends.
pub proof fn lemma_run_len(s: Seq<char>, p: spec_fn(char) -> bool)
    ensures
        run_len(s, p) <= s.len(),
        forall|i: int| 0 <= i < run_len(s, p) ==> p(#[trigger] s[i]),
        run_len(s, p) < s.len() ==> !p(s[run_len(s, p) as int]),
    decreases s.len(),
{
    if s.len() > 0 && p(s[0]) {
        let t = s.drop_first();
        lemma_run_len(t, p);
        assert forall|i: int| 0 <= i < run_len(s, p) implies p(#[trigger] s[i]) by {
            if i > 0 {
                assert(s[i] == t[i - 1]);
            }
        }
        if run_len(s, p) < s.len() {
            assert(s[run_len(s, p) as int] == t[run_len(t, p) as int]);
        }
    }
}

/// A length at which a run of `p` ends is `run_len`.
pub proof fn lemma_run_len_unique(s: Seq<char>, p: spec_fn(char) -> bool, k: int)
    requires
        0 <= k <= s.len(),
        forall|i: int| 0 <= i < k ==> p(#[trigger] s[i]),
        k < s.len() ==> !p(s[k]),
    ensures
        run_len(s, p) == k,
    decreases s.len(),
{
    if k > 0 {
        let t = s.drop_first();
        assert(p(s[0]));
        assert forall|i: int| 0 <= i < k - 1 implies p(#[trigger] t[i]) by {
            assert(t[i] == s[i + 1]);
        }
        if k - 1 < t.len() {
            assert(t[k - 1] == s[k]);
        }
        lemma_run_len_unique(t, p, k - 1);
    }
}

/// A run that is entered `k` characters after its start goes on for the rest of its
/// length.
pub proof fn lemma_run_len_skip(s: Seq<char>, p: spec_fn(char) -> bool, k: int)
    requires
        0 <= k <= run_len(s, p),
    ensures
        run_len(s.skip(k), p) == run_len(s, p) - k,
{
    lemma_run_len(s, p);
    let n = run_len(s, p) as int;
    let t = s.skip(k);
    assert forall|i: int| 0 <= i < n - k implies p(#[trigger] t[i]) by {
        assert(t[i] == s[i + k]);
    }
    if n - k < t.len() {
        assert(t[n - k] == s[n]);
    }
    lemma_run_len_unique(t, p, n - k);
}

/// How far a predicate given as a function object runs over `s`: it accepts each of the
/// first `k` characters and refuses the next one, if there is one.
pub open spec fn run_of<F: Fn(char) -> bool>(f: F, s: Seq<char>, k: int) -> bool {
    &&& 0 <= k <= s.len()
    &&& forall|i: int| 0 <= i < k ==> call_ensures(f, (#[trigger] s[i],), true)
    &&& k < s.len() ==> call_ensures(f, (s[k],), false)
}

/// How far `s` goes on before a predicate given as a function object holds: it refuses each
/// of the first `k` characters and accepts the next one, if there is one.
pub open spec fn stop_of<F: Fn(char) -> bool>(f: F, s: Seq<char>, k: int) -> bool {
    &&& 0 <= k <= s.len()
    &&& forall|i: int| 0 <= i < k ==> call_ensures(f, (#[trigger] s[i],), false)
    &&& k < s.len() ==> call_ensures(f, (s[k],), true)
}

/// Measures the leading characters of `s` for which `f` gives `want`: their length in bytes
/// and in characters.
pub(crate) fn str_run<F: Fn(char) -> bool>(s: &str, f: F, want: bool) -> (r: (usize, Ghost<int>))
    requires
        forall|c: char| call_requires(f, (c,)),
    ensures
        want ==> run_of(f, s@, r.1@),
        !want ==> stop_of(f, s@, r.1@),
        r.0 == byte_len(s@.take(r.1@)),
{
    let total: usize = str_len(s);
    let mut cur: &str = s;
    let mut n: usize = 0;
    let ghost mut k: int = 0;
    proof {
        assert(s@.take(0) =~= Seq::<char>::empty());
        assert(s@.skip(0) =~= s@);
    }
    loop
        invariant
            forall|c: char| call_requires(f, (c,)),
            0 <= k <= s@.len(),
            cur@ == s@.skip(k),
            n == byte_len(s@.take(k)),
            total == byte_len(s@),
            forall|i: int| 0 <= i < k ==> call_ensures(f, (#[trigger] s@[i],), want),
        ensures
            want ==> run_of(f, s@, k),
            !want ==> stop_of(f, s@, k),
            n == byte_len(s@.take(k)),
        decreases s@.len() - k,
    {
        match str_first(cur) {
            None => {
                break ;
            },
            Some(c) => {
                assert(c == s@[k]);
                if f(c) != want {
                    break ;
                }
                let w: usize = char_width(c);
                proof {
                    lemma_byte_len_take_next(s@, k);
                    lemma_byte_len_one(c);
                    assert(cur@.take(1) =~= seq![c]);
                    assert(cur@.skip(1) =~= s@.skip(k + 1));
                }
                let (_, t) = str_split(cur, w, Ghost(1));
                cur = t;
                n = n + w;
                proof {
                    k = k + 1;
                }
            },
        }
    }
    (n, Ghost(k))
}

/// Measures the first `count` characters of `s`, or all of them if there are fewer: their
/// length in bytes and in characters.
pub(crate) fn str_count(s: &str, count: usize) -> (r: (usize, Ghost<int>))
    ensures
        r.1@ == if count <= s@.len() { count as int } else { s@.len() as int },
        r.0 == byte_len(s@.take(r.1@)),
{
    let total: usize = str_len(s);
    let mut cur: &str = s;
    let mut n: usize = 0;
    let mut i: usize = 0;
    proof {
        assert(s@.take(0) =~= Seq::<char>::empty());
        assert(s@.skip(0) =~= s@);
    }
    while i < count
        invariant_except_break
            i <= count,
        invariant
            0 <= i <= s@.len(),
            cur@ == s@.skip(i as int),
            n == byte_len(s@.take(i as int)),
            total == byte_len(s@),
        ensures
            i == if count <= s@.len() { count as int } else { s@.len() as int },
        decreases count - i,
    {
        match str_first(cur) {
            None => {
                break ;
            },
            Some(c) => {
                let w: usize = char_width(c);
                proof {
                    lemma_byte_len_take_next(s@, i as int);
                    lemma_byte_len_one(c);
                    lemma_byte_len_chars(s@);
                    assert(cur@.take(1) =~= seq![c]);
                    assert(cur@.skip(1) =~= s@.skip(i + 1));
                }
                let (_, t) = str_split(cur, w, Ghost(1));
                cur = t;
                n = n + w;
                i = i + 1;
            },
        }
    }
    (n, Ghost(i as int))
}

/// The ASCII whitespace characters: space, tab, line feed, form feed and carriage return.
pub open spec fn spec_is_ascii_whitespace(c: char) -> bool {
    c == ' ' || c == '\t' || c == '\n' || c == '\x0C' || c == '\r'
}

/// Tells whether `c` is an ASCII whitespace character.
pub fn is_ascii_whitespace(c: char) -> (r: bool)
    ensures
        r == spec_is_ascii_whitespace(c),
{
    c == ' ' || c == '\t' || c == '\n' || c == '\x0C' || c == '\r'
}

/// The characters with the Unicode property `White_Space`.
pub open spec fn spec_is_whitespace(c: char) -> bool {
    let v = c as u32;
    ||| 0x09 <= v <= 0x0D
    ||| v == 0x20
    ||| v == 0x85
    ||| v == 0xA0
    ||| v == 0x1680
    ||| 0x2000 <= v <= 0x200A
    ||| v == 0x2028
    ||| v == 0x2029
    ||| v == 0x202F
    ||| v == 0x205F
    ||| v == 0x3000
}

/// Tells whether `c` is a whitespace character.
pub fn is_whitespace(c: char) -> (r: bool)
    ensures
        r == spec_is_whitespace(c),
{
    let v: u32 = c as u32;
    (0x09 <= v && v <= 0x0D) || v == 0x20 || v == 0x85 || v == 0xA0 || v == 0x1680 || (0x2000 <= v
        && v <= 0x200A) || v == 0x2028 || v == 0x2029 || v == 0x202F || v == 0x205F || v == 0x3000
}

/// The characters of an identifier: the ASCII letters and digits, and the underscore.
pub open spec fn spec_is_ident_char(c: char) -> bool {
    ('A' <= c <= 'Z') || ('a' <= c <= 'z') || ('0' <= c <= '9') || c == '_'
}

/// Tells whether `c` can stand in an identifier.
pub fn is_ident_char(c: char) -> (r: bool)
    ensures
        r == spec_is_ident_char(c),
{
    ('A' <= c && c <= 'Z') || ('a' <= c && c <= 'z') || ('0' <= c && c <= '9') || c == '_'
}

/// The predicate that holds of the ASCII whitespace characters.
pub open spec fn ascii_whitespace() -> spec_fn(char) -> bool {
    |c: char| spec_is_ascii_whitespace(c)
}

/// The predicate that holds of the whitespace characters.
pub open spec fn whitespace() -> spec_fn(char) -> bool {
    |c: char| spec_is_whitespace(c)
}

/// The predicate that holds of the characters of an identifier.
pub open spec fn ident_char() -> spec_fn(char) -> bool {
    |c: char| spec_is_ident_char(c)
}

/// The predicate that holds of every character but `stop`.
pub open spec fn other_than(stop: char) -> spec_fn(char) -> bool {
    |c: char| c != stop
}

/// The length of the first line of `s`: the number of characters before the first line
/// feed, or all of them if there is none.
pub open spec fn line_len(s: Seq<char>) -> nat {
    run_len(s, other_than('\n'))
}

/// A function object that computes `p` runs as far as `p` does.
pub proof fn lemma_run_of<F: Fn(char) -> bool>(
    f: F,
    p: spec_fn(char) -> bool,
    s: Seq<char>,
    k: int,
)
    requires
        run_of(f, s, k),
        forall|c: char, r: bool| call_ensures(f, (c,), r) ==> r == p(c),
    ensures
        k == run_len(s, p),
{
    assert forall|i: int| 0 <= i < k implies p(#[trigger] s[i]) by {
        assert(call_ensures(f, (s[i],), true));
    }
    lemma_run_len_unique(s, p, k);
}

/// Tells whether `s` begins with `pat`.
pub fn str_starts_with(s: &str, pat: &str) -> (r: bool)
    ensures
        r == pat@.is_prefix_of(s@),
{
    let mut a: &str = s;
    let mut b: &str = pat;
    let ghost mut k: int = 0;
    proof {
        assert(s@.skip(0) =~= s@);
        assert(pat@.skip(0) =~= pat@);
    }
    loop
        invariant
            0 <= k <= s@.len(),
            k <= pat@.len(),
            a@ == s@.skip(k),
            b@ == pat@.skip(k),
            s@.take(k) =~= pat@.take(k),
        decreases pat@.len() - k,
    {
        match str_first(b) {
            None => {
                proof {
                    assert(pat@.take(k) =~= pat@);
                }
                return true;
            },
            Some(cb) => {
                match str_first(a) {
                    None => {
                        return false;
                    },
                    Some(ca) => {
                        assert(ca == s@[k] && cb == pat@[k]);
                        if ca != cb {
                            proof {
                                if pat@.is_prefix_of(s@) {
                                    assert(s@.subrange(0, pat@.len() as int)[k] == pat@[k]);
                                }
                            }
                            return false;
                        }
                        let w: usize = char_width(ca);
                        proof {
                            lemma_byte_len_one(ca);
                            assert(a@.take(1) =~= seq![ca]);
                            assert(b@.take(1) =~= seq![cb]);
                            assert(a@.skip(1) =~= s@.skip(k + 1));
                            assert(b@.skip(1) =~= pat@.skip(k + 1));
                            assert(s@.take(k + 1) =~= s@.take(k).push(ca));
                            assert(pat@.take(k + 1) =~= pat@.take(k).push(cb));
                        }
                        let (_, ta) = str_split(a, w, Ghost(1));
                        let (_, tb) = str_split(b, w, Ghost(1));
                        a = ta;
                        b = tb;
                        proof {
                            k = k + 1;
                        }
                    },
                }
            },
        }
    }
}

/// Whether `pat` stands in `s` at position `k`.
pub open spec fn occurs_at(s: Seq<char>, pat: Seq<char>, k: int) -> bool {
    0 <= k <= s.len() && pat.is_prefix_of(s.skip(k))
}

/// The first position at or after `from` at which `pat` stands in `s`.
pub open spec fn find_from(s: Seq<char>, pat: Seq<char>, from: int) -> Option<int>
    decreases s.len() - from,
{
    if from < 0 || from > s.len() {
        None
    } else if pat.is_prefix_of(s.skip(from)) {
        Some(from)
    } else if from == s.len() {
        None
    } else {
        find_from(s, pat, from + 1)
    }
}

/// `find_from` gives the least position at which the pattern stands, and none only if
/// there is no such position.
pub proof fn lemma_find_from(s: Seq<char>, pat: Seq<char>, from: int)
    requires
        0 <= from <= s.len(),
    ensures
        match find_from(s, pat, from) {
            Some(k) => from <= k && occurs_at(s, pat, k) && forall|j: int|
                from <= j < k ==> !occurs_at(s, pat, j),
            None => forall|j: int| from <= j ==> !occurs_at(s, pat, j),
        },
    decreases s.len() - from,
{
    if !pat.is_prefix_of(s.skip(from)) && from < s.len() {
        lemma_find_from(s, pat, from + 1);
    }
}

/// The first of `cands`, from index `from` on, that `s` begins with.
pub open spec fn first_prefix(cands: Seq<Seq<char>>, s: Seq<char>, from: int) -> Option<int>
    decreases cands.len() - from,
{
    if from < 0 || from >= cands.len() {
        None
    } else if cands[from].is_prefix_of(s) {
        Some(from)
    } else {
        first_prefix(cands, s, from + 1)
    }
}

/// `first_prefix` gives the least index of a candidate that `s` begins with, and none
/// only if `s` begins with no candidate.
pub proof fn lemma_first_prefix(cands: Seq<Seq<char>>, s: Seq<char>, from: int)
    requires
        0 <= from,
    ensures
        match first_prefix(cands, s, from) {
            Some(j) => from <= j < cands.len() && cands[j].is_prefix_of(s) && forall|i: int|
                from <= i < j ==> !cands[i].is_prefix_of(s),
            None => forall|i: int| from <= i < cands.len() ==> !cands[i].is_prefix_of(s),
        },
    decreases cands.len() - from,
{
    if from < cands.len() && !cands[from].is_prefix_of(s) {
        lemma_first_prefix(cands, s, from + 1);
    }
}

/// The first position at or after `from` at which one of `cands` stands in `s`, with the
/// index of the first candidate that stands there.
pub open spec fn find_any_from(s: Seq<char>, cands: Seq<Seq<char>>, from: int) -> Option<
    (int, int),
>
    decreases s.len() - from,
{
    if from < 0 || from > s.len() {
        None
    } else {
        match first_prefix(cands, s.skip(from), 0) {
            Some(j) => Some((from, j)),
            None => if from == s.len() {
                None
            } else {
                find_any_from(s, cands, from + 1)
            },
        }
    }
}

/// `find_any_from` gives the least position at which a candidate stands, with the least
/// index of a candidate that stands there, and none only if no candidate stands anywhere.
pub proof fn lemma_find_any_from(s: Seq<char>, cands: Seq<Seq<char>>, from: int)
    requires
        0 <= from <= s.len(),
    ensures
        match find_any_from(s, cands, from) {
            Some((k, j)) => {
                &&& from <= k <= s.len()
                &&& 0 <= j < cands.len()
                &&& occurs_at(s, cands[j], k)
                &&& forall|i: int| 0 <= i < j ==> !occurs_at(s, #[trigger] cands[i], k)
                &&& forall|p: int, i: int|
                    from <= p < k && 0 <= i < cands.len() ==> !#[trigger] occurs_at(s, cands[i], p)
            },
            None => forall|p: int, i: int|
                from <= p && 0 <= i < cands.len() ==> !#[trigger] occurs_at(s, cands[i], p),
        },
    decreases s.len() - from,
{
    lemma_first_prefix(cands, s.skip(from), 0);
    if first_prefix(cands, s.skip(from), 0) is None && from < s.len() {
        lemma_find_any_from(s, cands, from + 1);
    }
}

/// The index of the first of `cands` that `s` begins with.
pub fn str_first_prefix(s: &str, cands: &Vec<&str>) -> (r: Option<usize>)
    ensures
        match first_prefix(str_views(cands@), s@, 0) {
            Some(j) => r == Some(j as usize) && 0 <= j < cands.len(),
            None => r is None,
        },
{
    let ghost views = str_views(cands@);
    proof {
        lemma_first_prefix(views, s@, 0);
    }
    let mut j: usize = 0;
    while j < cands.len()
        invariant
            0 <= j <= cands.len(),
            views == str_views(cands@),
            first_prefix(views, s@, 0) == first_prefix(views, s@, j as int),
        decreases cands.len() - j,
    {
        if str_starts_with(s, cands[j]) {
            return Some(j);
        }
        j = j + 1;
    }
    None
}

} // verus!
