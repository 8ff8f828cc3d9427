//! Byte-string order: the order a sorted table of tags or digests is kept in.
use vstd::prelude::*;

verus! {

/// `a` sorts strictly before `b`: they agree up to some position where `a` is smaller.
pub open spec fn lex_lt(a: Seq<u8>, b: Seq<u8>) -> bool {
    exists|k: int|
        0 <= k < a.len() && k < b.len() && a[k] < b[k] && (forall|i: int|
            0 <= i < k ==> a[i] == b[i])
}

pub proof fn lemma_lex_irreflexive(a: Seq<u8>)
    ensures
        !lex_lt(a, a),
{
}

pub proof fn lemma_lex_transitive(a: Seq<u8>, b: Seq<u8>, c: Seq<u8>)
    requires
        lex_lt(a, b),
        lex_lt(b, c),
    ensures
        lex_lt(a, c),
{
    let k1 = choose|k: int|
        0 <= k < a.len() && k < b.len() && a[k] < b[k] && (forall|i: int|
            0 <= i < k ==> a[i] == b[i]);
    let k2 = choose|k: int|
        0 <= k < b.len() && k < c.len() && b[k] < c[k] && (forall|i: int|
            0 <= i < k ==> b[i] == c[i]);
    let k = if k1 < k2 {
        k1
    } else {
        k2
    };
    assert(0 <= k < a.len() && k < c.len() && a[k] < c[k] && (forall|i: int|
        0 <= i < k ==> a[i] == c[i]));
}

pub proof fn lemma_lex_asymmetric(a: Seq<u8>, b: Seq<u8>)
    requires
        lex_lt(a, b),
    ensures
        !lex_lt(b, a),
{
    if lex_lt(b, a) {
        lemma_lex_transitive(a, b, a);
    }
}

/// Compare two byte strings of one length: negative, zero or positive.
pub fn compare_bytes(a: &[u8], b: &[u8]) -> (r: i8)
    requires
        a@.len() == b@.len(),
    ensures
        r < 0 <==> lex_lt(a@, b@),
        r == 0 <==> a@ == b@,
        r > 0 <==> lex_lt(b@, a@),
{
    let n = a.len();
    let mut i: usize = 0;
    while i < n
        invariant
            n == a@.len(),
            a@.len() == b@.len(),
            i <= n,
            forall|j: int| 0 <= j < i ==> a@[j] == b@[j],
        decreases n - i,
    {
        if a[i] < b[i] {
            assert(lex_lt(a@, b@)) by {
                let k = i as int;
                assert(0 <= k < a@.len() && k < b@.len() && a@[k] < b@[k]);
            }
            proof {
                lemma_lex_asymmetric(a@, b@);
            }
            return -1;
        }
        if a[i] > b[i] {
            assert(lex_lt(b@, a@)) by {
                let k = i as int;
                assert(0 <= k < b@.len() && k < a@.len() && b@[k] < a@[k]);
            }
            proof {
                lemma_lex_asymmetric(b@, a@);
            }
            return 1;
        }
        i = i + 1;
    }
    assert(a@ =~= b@);
    0
}

/// Of two different byte strings of one length, one sorts before the other.
pub proof fn lemma_lex_total(a: Seq<u8>, b: Seq<u8>)
    requires
        a.len() == b.len(),
        a != b,
    ensures
        lex_lt(a, b) || lex_lt(b, a),
{
    if !(exists|k: int| 0 <= k < a.len() && a[k] != b[k]) {
        assert(a =~= b);
    }
    let k = choose|k: int| 0 <= k < a.len() && a[k] != b[k];
    lemma_first_difference(a, b, k);
}

proof fn lemma_first_difference(a: Seq<u8>, b: Seq<u8>, k: int)
    requires
        a.len() == b.len(),
        0 <= k < a.len(),
        a[k] != b[k],
    ensures
        lex_lt(a, b) || lex_lt(b, a),
    decreases k,
{
    if exists|j: int| 0 <= j < k && a[j] != b[j] {
        let j = choose|j: int| 0 <= j < k && a[j] != b[j];
        lemma_first_difference(a, b, j);
    } else {
        if a[k] < b[k] {
            assert(0 <= k < a.len() && k < b.len() && a[k] < b[k] && (forall|i: int|
                0 <= i < k ==> a[i] == b[i]));
        } else {
            assert(0 <= k < b.len() && k < a.len() && b[k] < a[k] && (forall|i: int|
                0 <= i < k ==> b[i] == a[i]));
        }
    }
}

} // verus!
