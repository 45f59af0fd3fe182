//! Byte-wise lexicographic order on byte strings.
use vstd::prelude::*;

verus! {

/// `a` and `b` agree on their first `i` bytes, and at `i` the first one ends
/// while the second goes on, or the first one holds the smaller byte.
pub open spec fn differs_first_at(a: Seq<u8>, b: Seq<u8>, i: int) -> bool {
    &&& 0 <= i <= a.len()
    &&& i <= b.len()
    &&& forall|j: int| 0 <= j < i ==> a[j] == b[j]
    &&& (i == a.len() && i < b.len()) || (i < a.len() && i < b.len() && a[i] < b[i])
}

/// `a` comes strictly before `b` in lexicographic order of bytes.
pub open spec fn lex_lt(a: Seq<u8>, b: Seq<u8>) -> bool {
    exists|i: int| #[trigger] differs_first_at(a, b, i)
}

pub proof fn lemma_lex_irreflexive(a: Seq<u8>)
    ensures
        !lex_lt(a, a),
{
}

pub proof fn lemma_lex_transitive(a: Seq<u8>, b: Seq<u8>, c: Seq<u8>)
    requires
        lex_lt(a, b),
        lex_lt(b, c),
    ensures
        lex_lt(a, c),
{
    let i = choose|i: int| differs_first_at(a, b, i);
    let j = choose|j: int| differs_first_at(b, c, j);
    if i < j {
        assert(differs_first_at(a, c, i));
    } else if j < i {
        assert(differs_first_at(a, c, j));
    } else {
        assert(differs_first_at(a, c, i));
    }
}

pub proof fn lemma_lex_total(a: Seq<u8>, b: Seq<u8>)
    requires
        a != b,
    ensures
        lex_lt(a, b) || lex_lt(b, a),
{
    if forall|j: int| 0 <= j < a.len() && j < b.len() ==> a[j] == b[j] {
        if a.len() < b.len() {
            assert(differs_first_at(a, b, a.len() as int));
        } else if b.len() < a.len() {
            assert(differs_first_at(b, a, b.len() as int));
        } else {
            assert(a =~= b);
        }
    } else {
        let k = choose|k: int| 0 <= k < a.len() && k < b.len() && a[k] != b[k];
        lemma_first_difference(a, b, k);
    }
}

proof fn lemma_first_difference(a: Seq<u8>, b: Seq<u8>, k: int)
    requires
        0 <= k < a.len(),
        k < b.len(),
        a[k] != b[k],
    ensures
        lex_lt(a, b) || lex_lt(b, a),
    decreases k,
{
    if exists|j: int| 0 <= j < k && a[j] != b[j] {
        let j = choose|j: int| 0 <= j < k && a[j] != b[j];
        lemma_first_difference(a, b, j);
    } else if a[k] < b[k] {
        assert(differs_first_at(a, b, k));
    } else {
        assert(differs_first_at(b, a, k));
    }
}

/// Compares two byte strings: negative when `a` comes first, zero when they
/// are equal, positive when `b` comes first.
pub fn compare_bytes(a: &[u8], b: &[u8]) -> (r: i8)
    ensures
        r < 0 <==> lex_lt(a@, b@),
        r == 0 <==> a@ == b@,
        r > 0 <==> lex_lt(b@, a@),
{
    let mut i: usize = 0;
    while i < a.len() && i < b.len() && a[i] == b[i]
        invariant
            i <= a@.len(),
            i <= b@.len(),
            forall|j: int| 0 <= j < i ==> a@[j] == b@[j],
        decreases a.len() - i,
    {
        i = i + 1;
    }
    proof {
        lemma_lex_irreflexive(a@);
        lemma_lex_irreflexive(b@);
    }
    if i < a.len() && i < b.len() {
        if a[i] < b[i] {
            assert(differs_first_at(a@, b@, i as int));
            proof { lemma_not_both(a@, b@); }
            -1
        } else {
            assert(differs_first_at(b@, a@, i as int));
            proof { lemma_not_both(a@, b@); }
            1
        }
    } else if i < b.len() {
        assert(differs_first_at(a@, b@, i as int));
        proof { lemma_not_both(a@, b@); }
        -1
    } else if i < a.len() {
        assert(differs_first_at(b@, a@, i as int));
        proof { lemma_not_both(a@, b@); }
        1
    } else {
        assert(a@ =~= b@);
        0
    }
}

proof fn lemma_not_both(a: Seq<u8>, b: Seq<u8>)
    ensures
        !(lex_lt(a, b) && lex_lt(b, a)),
        lex_lt(a, b) ==> a != b,
{
    if lex_lt(a, b) && lex_lt(b, a) {
        lemma_lex_transitive(a, b, a);
        lemma_lex_irreflexive(a);
    }
    lemma_lex_irreflexive(a);
}

} // verus!
