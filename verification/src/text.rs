use vstd::prelude::*;
use vstd::string::*;
use vstd::utf8::*;

verus! {

/// The texts of a list of strings.
pub open spec fn string_views(v: Seq<String>) -> Seq<Seq<char>> {
    v.map_values(|s: String| s@)
}

/// The texts of a list of string slices.
pub open spec fn str_views(v: Seq<&str>) -> Seq<Seq<char>> {
    v.map_values(|s: &str| s@)
}

/// A text of `n` spaces.
pub open spec fn spaces(n: nat) -> Seq<char> {
    Seq::new(n, |i: int| ' ')
}

/// Number of bytes that the UTF-8 encoding of `s` takes.
pub open spec fn byte_len(s: Seq<char>) -> nat {
    encode_utf8(s).len()
}

/// Number of bytes that the UTF-8 encoding of `c` takes.
pub open spec fn char_len(c: char) -> nat {
    if (c as u32) < 0x80 {
        1
    } else if (c as u32) < 0x800 {
        2
    } else if (c as u32) < 0x10000 {
        3
    } else {
        4
    }
}

/// Encoding distributes over concatenation.
pub proof fn lemma_encode_concat(a: Seq<char>, b: Seq<char>)
    ensures
        encode_utf8(a + b) == encode_utf8(a) + encode_utf8(b),
        byte_len(a + b) == byte_len(a) + byte_len(b),
    decreases a.len(),
{
    if a.len() == 0 {
        assert(a + b =~= b);
        assert(encode_utf8(a) + encode_utf8(b) =~= encode_utf8(b));
    } else {
        lemma_encode_concat(a.drop_first(), b);
        assert((a + b).drop_first() =~= a.drop_first() + b);
        assert((a + b)[0] == a[0]);
        assert(encode_utf8(a + b) =~= encode_utf8(a) + encode_utf8(b));
    }
}

/// A single character encodes to `char_len` bytes.
pub proof fn lemma_byte_len_one(c: char)
    ensures
        byte_len(seq![c]) == char_len(c),
        1 <= char_len(c) <= 4,
{
    let s = seq![c];
    assert(s.drop_first() =~= Seq::<char>::empty());
    assert(encode_utf8(s.drop_first()) =~= Seq::<u8>::empty());
    assert(encode_utf8(s) =~= encode_scalar(c as u32));
    char_is_scalar(c);
}

/// The byte length of a text is that of its first character plus that of the rest.
pub proof fn lemma_byte_len_first(s: Seq<char>)
    requires
        s.len() > 0,
    ensures
        byte_len(s) == char_len(s[0]) + byte_len(s.drop_first()),
{
    lemma_byte_len_one(s[0]);
    lemma_encode_concat(seq![s[0]], s.drop_first());
    assert(seq![s[0]] + s.drop_first() =~= s);
}

/// Taking one more character adds that character's width.
pub proof fn lemma_byte_len_take_next(s: Seq<char>, k: int)
    requires
        0 <= k < s.len(),
    ensures
        byte_len(s.take(k + 1)) == byte_len(s.take(k)) + char_len(s[k]),
        byte_len(s.take(k + 1)) <= byte_len(s),
{
    lemma_byte_len_one(s[k]);
    lemma_encode_concat(s.take(k), seq![s[k]]);
    assert(s.take(k) + seq![s[k]] =~= s.take(k + 1));
    lemma_encode_concat(s.take(k + 1), s.skip(k + 1));
    assert(s.take(k + 1) + s.skip(k + 1) =~= s);
}

/// A text has at least as many bytes as characters, and a prefix no more bytes than the whole.
pub proof fn lemma_byte_len_bounds(s: Seq<char>, k: int)
    requires
        0 <= k <= s.len(),
    ensures
        k <= byte_len(s.take(k)) <= byte_len(s),
        byte_len(s) == byte_len(s.take(k)) + byte_len(s.skip(k)),
        s.len() - k <= byte_len(s.skip(k)),
    decreases k,
{
    lemma_encode_concat(s.take(k), s.skip(k));
    assert(s.take(k) + s.skip(k) =~= s);
    if k == 0 {
        assert(s.take(0) =~= Seq::<char>::empty());
    } else {
        lemma_byte_len_bounds(s, k - 1);
        lemma_byte_len_take_next(s, k - 1);
    }
    lemma_byte_len_chars(s.skip(k));
}

/// A text has at least as many bytes as characters.
pub proof fn lemma_byte_len_chars(s: Seq<char>)
    ensures
        s.len() <= byte_len(s),
    decreases s.len(),
{
    if s.len() > 0 {
        lemma_byte_len_first(s);
        lemma_byte_len_chars(s.drop_first());
    }
}

/// The end of an encoded prefix is a character boundary of the whole encoding, and the
/// encoding splits there into the encodings of the two parts.
pub proof fn lemma_boundary(a: Seq<char>, b: Seq<char>)
    ensures
        is_char_boundary(encode_utf8(a + b), byte_len(a) as int),
        encode_utf8(a + b).subrange(0, byte_len(a) as int) == encode_utf8(a),
        encode_utf8(a + b).subrange(byte_len(a) as int, byte_len(a + b) as int) == encode_utf8(b),
    decreases a.len(),
{
    broadcast use encode_utf8_valid_utf8;

    lemma_encode_concat(a, b);
    let bytes = encode_utf8(a + b);
    assert(bytes.subrange(0, byte_len(a) as int) =~= encode_utf8(a));
    assert(bytes.subrange(byte_len(a) as int, byte_len(a + b) as int) =~= encode_utf8(b));
    if a.len() == 0 {
    } else {
        let rest = a.drop_first();
        lemma_boundary(rest, b);
        assert((a + b).drop_first() =~= rest + b);
        encode_utf8_first_scalar(a + b);
        lemma_byte_len_first(a);
        lemma_byte_len_one(a[0]);
        assert(pop_first_scalar(bytes) =~= encode_utf8(rest + b));
        assert(length_of_first_scalar(bytes) == char_len(a[0])) by {
            assert(encode_utf8(seq![a[0]]) =~= encode_scalar(a[0] as u32)) by {
                assert(seq![a[0]].drop_first() =~= Seq::<char>::empty());
                assert(encode_utf8(seq![a[0]].drop_first()) =~= Seq::<u8>::empty());
            }
        }
        assert(valid_utf8(bytes));
    }
}

/// Two texts with the same encoding are the same text.
pub proof fn lemma_encode_injective(a: Seq<char>, b: Seq<char>)
    requires
        encode_utf8(a) == encode_utf8(b),
    ensures
        a == b,
{
    encode_utf8_decode_utf8(a);
    encode_utf8_decode_utf8(b);
}

/// Number of bytes that `c` takes in UTF-8.
pub fn char_width(c: char) -> (n: usize)
    ensures
        n == char_len(c),
        1 <= n <= 4,
{
    let v: u32 = c as u32;
    if v < 0x80 {
        1
    } else if v < 0x800 {
        2
    } else if v < 0x10000 {
        3
    } else {
        4
    }
}

/// First character of `s`, if it has one.
pub fn str_first(s: &str) -> (r: Option<char>)
    ensures
        s@.len() == 0 ==> r is None,
        s@.len() > 0 ==> r == Some(s@[0]),
{
    let mut it = s.chars();
    it.next()
}

/// Splits `s` after its first `k` characters, which take `n` bytes.
pub(crate) fn str_split<'a>(s: &'a str, n: usize, Ghost(k): Ghost<int>) -> (r: (&'a str, &'a str))
    requires
        0 <= k <= s@.len(),
        n == byte_len(s@.take(k)),
    ensures
        r.0@ == s@.take(k),
        r.1@ == s@.skip(k),
{
    proof {
        lemma_boundary(s@.take(k), s@.skip(k));
        assert(s@.take(k) + s@.skip(k) =~= s@);
    }
    let r = s.split_at(n);
    proof {
        lemma_encode_injective(r.0@, s@.take(k));
        lemma_encode_injective(r.1@, s@.skip(k));
    }
    r
}

/// Number of bytes in `s`.
pub fn str_len(s: &str) -> (n: usize)
    ensures
        n == byte_len(s@),
{
    s.as_bytes().len()
}

} // verus!
