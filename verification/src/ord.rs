//! Lexicographic, byte-wise ordering on byte strings.
//!
//! Addresses, blob hashes and subscription ids are byte strings, and every
//! map in the engine iterates in ascending byte-wise key order so that
//! replaying the same operations always walks the state in the same order.

use vstd::prelude::*;

verus! {

/// Strict lexicographic order on byte strings, decided from position `i` on,
/// assuming the two strings agree before `i`.
pub open spec fn lex_lt_at(a: Seq<u8>, b: Seq<u8>, i: int) -> bool
    decreases a.len() - i,
{
    if i >= a.len() {
        i < b.len()
    } else if i >= b.len() {
        false
    } else if a[i] < b[i] {
        true
    } else if a[i] > b[i] {
        false
    } else {
        lex_lt_at(a, b, i + 1)
    }
}

/// Strict lexicographic order on byte strings: `a` comes before `b`.
pub open spec fn lex_lt(a: Seq<u8>, b: Seq<u8>) -> bool {
    lex_lt_at(a, b, 0)
}

/// Deciding the order from position `i` is the same as deciding it from the
/// start when the strings agree on everything before `i`.
pub proof fn lemma_lex_lt_at_prefix(a: Seq<u8>, b: Seq<u8>, i: int)
    requires
        0 <= i <= a.len(),
        i <= b.len(),
        forall|j: int| 0 <= j < i ==> a[j] == b[j],
    ensures
        lex_lt(a, b) == lex_lt_at(a, b, i),
    decreases i,
{
    if i > 0 {
        lemma_lex_lt_at_prefix(a, b, i - 1);
        assert(lex_lt_at(a, b, i - 1) == lex_lt_at(a, b, i));
    }
}

/// A string is never strictly before itself.
pub proof fn lemma_lex_irrefl(a: Seq<u8>)
    ensures
        !lex_lt(a, a),
{
    lemma_lex_irrefl_at(a, 0);
}

proof fn lemma_lex_irrefl_at(a: Seq<u8>, i: int)
    requires
        0 <= i,
    ensures
        !lex_lt_at(a, a, i),
    decreases a.len() - i,
{
    if i < a.len() {
        lemma_lex_irrefl_at(a, i + 1);
    }
}

/// Strictly ordered strings are distinct.
pub proof fn lemma_lex_lt_ne(a: Seq<u8>, b: Seq<u8>)
    requires
        lex_lt(a, b),
    ensures
        a != b,
{
    lemma_lex_irrefl(a);
}

/// The order is transitive.
pub proof fn lemma_lex_trans(a: Seq<u8>, b: Seq<u8>, c: Seq<u8>)
    requires
        lex_lt(a, b),
        lex_lt(b, c),
    ensures
        lex_lt(a, c),
{
    lemma_lex_trans_at(a, b, c, 0);
}

proof fn lemma_lex_trans_at(a: Seq<u8>, b: Seq<u8>, c: Seq<u8>, i: int)
    requires
        0 <= i,
        lex_lt_at(a, b, i),
        lex_lt_at(b, c, i),
    ensures
        lex_lt_at(a, c, i),
    decreases b.len() - i,
{
    if i < a.len() && i < b.len() && i < c.len() && a[i] == b[i] && b[i] == c[i] {
        lemma_lex_trans_at(a, b, c, i + 1);
    }
}

/// Two strings with neither strictly before the other are equal.
pub proof fn lemma_lex_connex(a: Seq<u8>, b: Seq<u8>)
    requires
        !lex_lt(a, b),
        !lex_lt(b, a),
    ensures
        a == b,
{
    lemma_lex_connex_at(a, b, 0);
    assert(a =~= b);
}

proof fn lemma_lex_connex_at(a: Seq<u8>, b: Seq<u8>, i: int)
    requires
        0 <= i <= a.len(),
        i <= b.len(),
        !lex_lt_at(a, b, i),
        !lex_lt_at(b, a, i),
    ensures
        a.len() == b.len(),
        forall|j: int| i <= j < a.len() ==> a[j] == b[j],
    decreases a.len() - i,
{
    if i < a.len() && i < b.len() && a[i] == b[i] {
        lemma_lex_connex_at(a, b, i + 1);
    }
}

/// Three-way byte-wise comparison of two byte strings.
/// Returns -1, 0 or 1 as `a` is before, equal to, or after `b`.
pub fn bytes_cmp(a: &Vec<u8>, b: &Vec<u8>) -> (r: i8)
    ensures
        r == -1 || r == 0 || r == 1,
        r == -1 <==> lex_lt(a@, b@),
        r == 0 <==> a@ == b@,
        r == 1 <==> lex_lt(b@, a@),
{
    let mut i: usize = 0;
    loop
        invariant
            0 <= i <= a.len(),
            i <= b.len(),
            forall|j: int| 0 <= j < i ==> a@[j] == b@[j],
        decreases a.len() - i,
    {
        proof {
            lemma_lex_lt_at_prefix(a@, b@, i as int);
            lemma_lex_lt_at_prefix(b@, a@, i as int);
        }
        if i >= a.len() {
            if i < b.len() {
                return -1;
            } else {
                proof {
                    assert(a@ =~= b@);
                }
                return 0;
            }
        }
        if i >= b.len() {
            proof {
                lemma_lex_irrefl(a@);
                assert(a@ != b@) by {
                    assert(a@.len() != b@.len());
                }
            }
            return 1;
        }
        if a[i] < b[i] {
            proof {
                assert(a@ != b@) by {
                    assert(a@[i as int] != b@[i as int]);
                }
            }
            return -1;
        }
        if a[i] > b[i] {
            proof {
                assert(a@ != b@) by {
                    assert(a@[i as int] != b@[i as int]);
                }
            }
            return 1;
        }
        i = i + 1;
    }
}

/// Byte-wise equality of two byte strings.
pub fn bytes_eq(a: &Vec<u8>, b: &Vec<u8>) -> (r: bool)
    ensures
        r <==> a@ == b@,
{
    bytes_cmp(a, b) == 0
}

} // verus!
