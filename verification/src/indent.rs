use crate::text::{
    byte_len, char_width, lemma_byte_len_first, lemma_byte_len_one, str_first, str_split,
};
use vstd::prelude::*;

verus! {

/// Width, in columns, that a tab contributes to an indentation.
pub const TAB_SIZE: usize = 4;

/// The characters that make up indentation: the space and the tab.
pub open spec fn spec_is_indent_char(c: char) -> bool {
    c == ' ' || c == '\t'
}

/// Tells whether `s` is an indentation character.
pub fn is_indent_char(s: char) -> (r: bool)
    ensures
        r == spec_is_indent_char(s),
{
    s == ' ' || s == '\t'
}

/// The number of columns that the characters of `s` take: four for a tab, one for any
/// other character.
pub open spec fn spec_indent_size(s: Seq<char>) -> nat
    decreases s.len(),
{
    if s.len() == 0 {
        0
    } else {
        spec_indent_size(s.drop_last()) + if s.last() == '\t' {
            TAB_SIZE as nat
        } else {
            1
        }
    }
}

/// A text takes at least one column and at most four for each character.
pub proof fn lemma_indent_size_bounds(s: Seq<char>)
    ensures
        s.len() <= spec_indent_size(s) <= TAB_SIZE * s.len(),
    decreases s.len(),
{
    if s.len() > 0 {
        lemma_indent_size_bounds(s.drop_last());
    }
}

/// The number of columns that the characters of `s` take.
pub fn calc_indent_size(s: &str) -> (r: usize)
    requires
        TAB_SIZE * s@.len() <= usize::MAX,
    ensures
        r == spec_indent_size(s@),
{
    let mut cur: &str = s;
    let mut size: usize = 0;
    let ghost mut k: int = 0;
    proof {
        assert(s@.skip(0) =~= s@);
        assert(s@.take(0) =~= Seq::<char>::empty());
    }
    loop
        invariant
            TAB_SIZE * s@.len() <= usize::MAX,
            0 <= k <= s@.len(),
            cur@ == s@.skip(k),
            size == spec_indent_size(s@.take(k)),
        ensures
            size == spec_indent_size(s@),
        decreases s@.len() - k,
    {
        match str_first(cur) {
            None => {
                proof {
                    assert(s@.take(k) =~= s@);
                }
                break ;
            },
            Some(c) => {
                let w: usize = char_width(c);
                proof {
                    lemma_byte_len_one(c);
                    assert(cur@.take(1) =~= seq![c]);
                    assert(cur@.skip(1) =~= s@.skip(k + 1));
                    assert(s@.take(k + 1).drop_last() =~= s@.take(k));
                    lemma_indent_size_bounds(s@.take(k));
                }
                let (_, t) = str_split(cur, w, Ghost(1));
                cur = t;
                size = size + if c == '\t' {
                    TAB_SIZE
                } else {
                    1
                };
                proof {
                    k = k + 1;
                }
            },
        }
    }
    size
}

/// The predicate that holds of the indentation characters.
pub open spec fn indent_char() -> spec_fn(char) -> bool {
    |c: char| spec_is_indent_char(c)
}

/// Indentation characters take one byte each.
pub proof fn lemma_indent_bytes(s: Seq<char>)
    requires
        forall|i: int| 0 <= i < s.len() ==> spec_is_indent_char(#[trigger] s[i]),
    ensures
        byte_len(s) == s.len(),
    decreases s.len(),
{
    if s.len() > 0 {
        lemma_byte_len_first(s);
        let t = s.drop_first();
        assert forall|i: int| 0 <= i < t.len() implies spec_is_indent_char(#[trigger] t[i]) by {
            assert(t[i] == s[i + 1]);
        }
        lemma_indent_bytes(t);
    } else {
        assert(s =~= Seq::<char>::empty());
    }
}

} // verus!
