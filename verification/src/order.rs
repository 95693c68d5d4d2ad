//! Lexicographic order on byte strings, the order in which paths are reported.

use vstd::prelude::*;

verus! {

/// `a` and `b` agree on their first `k` bytes.
pub open spec fn agree_upto(a: Seq<u8>, b: Seq<u8>, k: int) -> bool {
    &&& 0 <= k <= a.len()
    &&& k <= b.len()
    &&& forall|i: int| 0 <= i < k ==> a[i] == b[i]
}

/// `k` is the position that decides `a < b`: the two agree before it, and
/// there `a` has ended or holds the smaller byte.
pub open spec fn decides_at(a: Seq<u8>, b: Seq<u8>, k: int) -> bool {
    &&& agree_upto(a, b, k)
    &&& k < b.len()
    &&& (k == a.len() || a[k] < b[k])
}

/// Strict lexicographic order by byte value.
pub open spec fn lex_lt(a: Seq<u8>, b: Seq<u8>) -> bool {
    exists|k: int| decides_at(a, b, k)
}

/// Non-strict lexicographic order by byte value.
pub open spec fn lex_le(a: Seq<u8>, b: Seq<u8>) -> bool {
    !lex_lt(b, a)
}

/// Two sequences that agree up to the length of both are the same sequence.
proof fn lemma_agree_full(a: Seq<u8>, b: Seq<u8>)
    requires
        agree_upto(a, b, a.len() as int),
        a.len() == b.len(),
    ensures
        a == b,
{
    assert(a =~= b);
}

/// Where a position decides `a < b`, none decides `b < a`.
proof fn lemma_decides_exclusive(a: Seq<u8>, b: Seq<u8>, j: int, k: int)
    requires
        decides_at(a, b, j),
    ensures
        !decides_at(b, a, k),
{
    if decides_at(b, a, k) {
        if j < k {
            assert(b[j] == a[j]);
        } else if k < j {
            assert(a[k] == b[k]);
        }
    }
}

/// No sequence precedes itself.
pub proof fn lemma_lex_irreflexive(a: Seq<u8>)
    ensures
        !lex_lt(a, a),
{
    if lex_lt(a, a) {
        let k = choose|k: int| decides_at(a, a, k);
        lemma_decides_exclusive(a, a, k, k);
    }
}

/// The strict order never holds in both directions.
pub proof fn lemma_lex_asymmetric(a: Seq<u8>, b: Seq<u8>)
    ensures
        !(lex_lt(a, b) && lex_lt(b, a)),
{
    if lex_lt(a, b) && lex_lt(b, a) {
        let j = choose|k: int| decides_at(a, b, k);
        let k = choose|k: int| decides_at(b, a, k);
        lemma_decides_exclusive(a, b, j, k);
    }
}

/// The strict order is transitive.
pub proof fn lemma_lex_transitive(a: Seq<u8>, b: Seq<u8>, c: Seq<u8>)
    requires
        lex_lt(a, b),
        lex_lt(b, c),
    ensures
        lex_lt(a, c),
{
    let j = choose|k: int| decides_at(a, b, k);
    let k = choose|k: int| decides_at(b, c, k);
    let m = if j <= k { j } else { k };
    assert(agree_upto(a, c, m));
    assert(decides_at(a, c, m));
}

/// Any two sequences are equal or ordered one way.
pub proof fn lemma_lex_total(a: Seq<u8>, b: Seq<u8>)
    ensures
        lex_lt(a, b) || a == b || lex_lt(b, a),
{
    lemma_first_difference(a, b, 0);
}

/// Scanning from an agreed prefix finds a deciding position or equality.
proof fn lemma_first_difference(a: Seq<u8>, b: Seq<u8>, k: int)
    requires
        agree_upto(a, b, k),
    ensures
        lex_lt(a, b) || a == b || lex_lt(b, a),
    decreases a.len() - k,
{
    if k == a.len() {
        if k == b.len() {
            lemma_agree_full(a, b);
        } else {
            assert(decides_at(a, b, k));
        }
    } else if k == b.len() {
        assert(agree_upto(b, a, k));
        assert(decides_at(b, a, k));
    } else if a[k] < b[k] {
        assert(decides_at(a, b, k));
    } else if b[k] < a[k] {
        assert(agree_upto(b, a, k));
        assert(decides_at(b, a, k));
    } else {
        assert(agree_upto(a, b, k + 1));
        lemma_first_difference(a, b, k + 1);
    }
}

/// The non-strict order is antisymmetric.
pub proof fn lemma_lex_le_antisymmetric(a: Seq<u8>, b: Seq<u8>)
    requires
        lex_le(a, b),
        lex_le(b, a),
    ensures
        a == b,
{
    lemma_lex_total(a, b);
}

/// The non-strict order is transitive.
pub proof fn lemma_lex_le_transitive(a: Seq<u8>, b: Seq<u8>, c: Seq<u8>)
    requires
        lex_le(a, b),
        lex_le(b, c),
    ensures
        lex_le(a, c),
{
    if lex_lt(c, a) {
        lemma_lex_total(a, b);
        lemma_lex_total(b, c);
        if a == b {
        } else if b == c {
        } else {
            lemma_lex_transitive(a, b, c);
            lemma_lex_asymmetric(a, c);
        }
    }
}

/// Decides the strict lexicographic order of two byte slices.
pub fn bytes_lt(a: &[u8], b: &[u8]) -> (r: bool)
    ensures
        r == lex_lt(a@, b@),
{
    let mut i: usize = 0;
    while i < a.len() && i < b.len()
        invariant
            agree_upto(a@, b@, i as int),
        decreases a.len() - i,
    {
        if a[i] != b[i] {
            let less = a[i] < b[i];
            proof {
                if less {
                    assert(decides_at(a@, b@, i as int));
                } else {
                    assert(agree_upto(b@, a@, i as int));
                    assert(decides_at(b@, a@, i as int));
                    lemma_lex_asymmetric(a@, b@);
                }
            }
            return less;
        }
        i += 1;
    }
    let shorter = a.len() < b.len();
    proof {
        if shorter {
            assert(decides_at(a@, b@, i as int));
        } else {
            assert(agree_upto(b@, a@, i as int));
            if a.len() == b.len() {
                lemma_agree_full(a@, b@);
                lemma_lex_irreflexive(a@);
            } else {
                assert(decides_at(b@, a@, i as int));
                lemma_lex_asymmetric(a@, b@);
            }
        }
    }
    shorter
}

} // verus!
