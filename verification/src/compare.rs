//! Lexicographic comparison of two words, character by character.

use vstd::prelude::*;

verus! {

use core::cmp::Ordering;
use vstd::string::StrSliceExecFns;

/// Lexicographic order on character sequences: the first differing
/// character decides; if one sequence is a proper prefix of the other,
/// the shorter one is smaller.
pub open spec fn lex_cmp(a: Seq<char>, b: Seq<char>) -> Ordering
    decreases a.len(),
{
    if a.len() == 0 && b.len() == 0 {
        Ordering::Equal
    } else if a.len() == 0 {
        Ordering::Less
    } else if b.len() == 0 {
        Ordering::Greater
    } else if a[0] != b[0] {
        if (a[0] as u32) < (b[0] as u32) {
            Ordering::Less
        } else {
            Ordering::Greater
        }
    } else {
        lex_cmp(a.drop_first(), b.drop_first())
    }
}

/// Compares two words lexicographically.
pub fn cmp(one: &str, other: &str) -> (r: Ordering)
    ensures
        r == lex_cmp(one@, other@),
{
    let a_len = one.unicode_len();
    let b_len = other.unicode_len();

    proof {
        assert(one@.skip(0) =~= one@);
        assert(other@.skip(0) =~= other@);
    }

    let mut i: usize = 0;
    while i < a_len
        invariant
            a_len == one@.len(),
            b_len == other@.len(),
            i <= a_len,
            i <= b_len,
            lex_cmp(one@, other@) == lex_cmp(one@.skip(i as int), other@.skip(i as int)),
        decreases a_len - i,
    {
        if i >= b_len {
            // `other` ran out first, so `one` is the longer word.
            return Ordering::Greater;
        }

        let ca = one.get_char(i);
        let cb = other.get_char(i);

        if ca == cb {
            proof {
                assert(one@.skip(i as int).drop_first() =~= one@.skip(i as int + 1));
                assert(other@.skip(i as int).drop_first() =~= other@.skip(i as int + 1));
            }
            i += 1;
        } else if (ca as u32) < (cb as u32) {
            return Ordering::Less;
        } else {
            return Ordering::Greater;
        }
    }

    if b_len > a_len {
        return Ordering::Less;
    }

    Ordering::Equal
}

} // verus!
