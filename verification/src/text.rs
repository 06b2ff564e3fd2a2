//! String equality and byte-lexicographic ordering.
//!
//! The comparator orders strings by their UTF-8 byte sequences, which for
//! UTF-8 coincides with code-point order. Both the order and plain equality
//! are implemented over `as_bytes` and proved against the character views
//! through `encode_utf8`.

use vstd::prelude::*;
use vstd::utf8::{encode_utf8, encode_utf8_decode_utf8};

verus! {

/// Outcome of a comparison.
#[derive(PartialEq, Eq, Structural, Clone, Copy, Debug)]
pub enum Cmp {
    Less,
    Equal,
    Greater,
}

/// The opposite outcome, for descending order.
pub open spec fn flip(c: Cmp) -> Cmp {
    match c {
        Cmp::Less => Cmp::Greater,
        Cmp::Equal => Cmp::Equal,
        Cmp::Greater => Cmp::Less,
    }
}

/// Lexicographic order on byte sequences: a strict prefix sorts first.
pub open spec fn bytes_cmp(a: Seq<u8>, b: Seq<u8>) -> Cmp
    decreases a.len(),
{
    if a.len() == 0 && b.len() == 0 {
        Cmp::Equal
    } else if a.len() == 0 {
        Cmp::Less
    } else if b.len() == 0 {
        Cmp::Greater
    } else if a[0] < b[0] {
        Cmp::Less
    } else if a[0] > b[0] {
        Cmp::Greater
    } else {
        bytes_cmp(a.drop_first(), b.drop_first())
    }
}

/// Order on strings: byte-lexicographic over their UTF-8 encodings.
pub open spec fn str_cmp(a: Seq<char>, b: Seq<char>) -> Cmp {
    bytes_cmp(encode_utf8(a), encode_utf8(b))
}

/// A common prefix does not change the outcome of the comparison.
proof fn lemma_bytes_cmp_skip(a: Seq<u8>, b: Seq<u8>, i: int)
    requires
        0 <= i <= a.len(),
        i <= b.len(),
        forall|j: int| 0 <= j < i ==> a[j] == b[j],
    ensures
        bytes_cmp(a, b) == bytes_cmp(a.skip(i), b.skip(i)),
    decreases i,
{
    if i > 0 {
        lemma_bytes_cmp_skip(a.drop_first(), b.drop_first(), i - 1);
        assert(a.drop_first().skip(i - 1) =~= a.skip(i));
        assert(b.drop_first().skip(i - 1) =~= b.skip(i));
    } else {
        assert(a.skip(0) =~= a);
        assert(b.skip(0) =~= b);
    }
}

/// Two byte sequences compare equal exactly when they are the same sequence.
proof fn lemma_bytes_cmp_equal_iff(a: Seq<u8>, b: Seq<u8>)
    ensures
        bytes_cmp(a, b) == Cmp::Equal <==> a == b,
    decreases a.len(),
{
    if a.len() == 0 && b.len() == 0 {
        assert(a =~= b);
    } else if a.len() > 0 && b.len() > 0 && a[0] == b[0] {
        lemma_bytes_cmp_equal_iff(a.drop_first(), b.drop_first());
        if a.drop_first() == b.drop_first() {
            assert forall|j: int| 0 <= j < a.len() implies a[j] == b[j] by {
                if j > 0 {
                    assert(a.drop_first()[j - 1] == b.drop_first()[j - 1]);
                }
            }
            assert(a =~= b);
        }
        if a == b {
            assert(a.drop_first() =~= b.drop_first());
        }
    } else {
        if a == b {
            assert(a.len() == b.len());
            if a.len() > 0 {
                assert(a[0] == b[0]);
            }
        }
    }
}

/// Compares two byte slices in lexicographic order.
fn bytes_compare(a: &[u8], b: &[u8]) -> (c: Cmp)
    ensures
        c == bytes_cmp(a@, b@),
{
    let alen = a.len();
    let blen = b.len();
    let mut i: usize = 0;
    while i < alen && i < blen
        invariant
            i <= alen,
            i <= blen,
            alen == a@.len(),
            blen == b@.len(),
            forall|j: int| 0 <= j < i ==> a@[j] == b@[j],
        decreases alen - i,
    {
        proof {
            lemma_bytes_cmp_skip(a@, b@, i as int);
        }
        if a[i] < b[i] {
            return Cmp::Less;
        }
        if a[i] > b[i] {
            return Cmp::Greater;
        }
        i = i + 1;
    }
    proof {
        lemma_bytes_cmp_skip(a@, b@, i as int);
    }
    if alen < blen {
        Cmp::Less
    } else if alen > blen {
        Cmp::Greater
    } else {
        Cmp::Equal
    }
}

/// Compares two strings in byte-lexicographic order.
pub fn str_compare(a: &str, b: &str) -> (c: Cmp)
    ensures
        c == str_cmp(a@, b@),
{
    bytes_compare(a.as_bytes(), b.as_bytes())
}

/// Decides whether two strings hold the same characters.
pub fn str_eq(a: &str, b: &str) -> (r: bool)
    ensures
        r == (a@ == b@),
{
    let c = bytes_compare(a.as_bytes(), b.as_bytes());
    proof {
        lemma_bytes_cmp_equal_iff(encode_utf8(a@), encode_utf8(b@));
        if encode_utf8(a@) == encode_utf8(b@) {
            encode_utf8_decode_utf8(a@);
            encode_utf8_decode_utf8(b@);
        }
    }
    c == Cmp::Equal
}

} // verus!
