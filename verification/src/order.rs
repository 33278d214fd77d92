//! The lexicographic order of byte strings.

use vstd::prelude::*;

verus! {

/// How one value stands to another in a total order.
#[derive(Clone, Copy, Debug, PartialEq, Eq, Structural)]
pub enum Standing {
    Before,
    Same,
    After,
}

/// `a` comes before `b`: it is a proper prefix of `b`, or it has the smaller
/// byte at the first position where the two differ.
pub open spec fn bytes_before(a: Seq<u8>, b: Seq<u8>) -> bool
    decreases a.len(),
{
    if b.len() == 0 {
        false
    } else if a.len() == 0 {
        true
    } else if a[0] != b[0] {
        a[0] < b[0]
    } else {
        bytes_before(a.drop_first(), b.drop_first())
    }
}

/// Nothing comes before itself.
pub proof fn lemma_bytes_before_irreflexive(a: Seq<u8>)
    ensures
        !bytes_before(a, a),
    decreases a.len(),
{
    if a.len() > 0 {
        lemma_bytes_before_irreflexive(a.drop_first());
    }
}

/// The order is transitive.
pub proof fn lemma_bytes_before_transitive(a: Seq<u8>, b: Seq<u8>, c: Seq<u8>)
    requires
        bytes_before(a, b),
        bytes_before(b, c),
    ensures
        bytes_before(a, c),
    decreases a.len(),
{
    if a.len() > 0 && b.len() > 0 && c.len() > 0 && a[0] == b[0] && b[0] == c[0] {
        lemma_bytes_before_transitive(a.drop_first(), b.drop_first(), c.drop_first());
    }
}

/// Of two different byte strings, one comes before the other.
pub proof fn lemma_bytes_before_total(a: Seq<u8>, b: Seq<u8>)
    ensures
        a == b || bytes_before(a, b) || bytes_before(b, a),
    decreases a.len(),
{
    if a.len() > 0 && b.len() > 0 && a[0] == b[0] {
        lemma_bytes_before_total(a.drop_first(), b.drop_first());
        if a.drop_first() == b.drop_first() {
            assert(a =~= seq![a[0]] + a.drop_first());
            assert(b =~= seq![b[0]] + b.drop_first());
        }
    } else if a.len() == 0 && b.len() == 0 {
        assert(a =~= b);
    }
}

/// Compares two byte strings.
pub fn compare_bytes(a: &[u8], b: &[u8]) -> (r: Standing)
    ensures
        r == Standing::Before <==> bytes_before(a@, b@),
        r == Standing::Same <==> a@ == b@,
        r == Standing::After <==> bytes_before(b@, a@),
{
    let mut i: usize = 0;
    proof {
        assert(a@.skip(0) =~= a@);
        assert(b@.skip(0) =~= b@);
        lemma_bytes_before_irreflexive(a@);
    }
    while i < a.len() && i < b.len()
        invariant
            i <= a@.len(),
            i <= b@.len(),
            a@.take(i as int) == b@.take(i as int),
            bytes_before(a@, b@) == bytes_before(a@.skip(i as int), b@.skip(i as int)),
            bytes_before(b@, a@) == bytes_before(b@.skip(i as int), a@.skip(i as int)),
        decreases a.len() - i,
    {
        let ghost sa = a@.skip(i as int);
        let ghost sb = b@.skip(i as int);
        assert(sa[0] == a@[i as int] && sb[0] == b@[i as int]);
        if a[i] < b[i] {
            return Standing::Before;
        }
        if b[i] < a[i] {
            return Standing::After;
        }
        proof {
            assert(sa.drop_first() =~= a@.skip(i + 1));
            assert(sb.drop_first() =~= b@.skip(i + 1));
            assert(a@.take(i + 1) =~= a@.take(i as int).push(a@[i as int]));
            assert(b@.take(i + 1) =~= b@.take(i as int).push(b@[i as int]));
        }
        i = i + 1;
    }
    if a.len() == b.len() {
        proof {
            assert(a@ =~= a@.take(i as int));
            assert(b@ =~= b@.take(i as int));
        }
        Standing::Same
    } else if i < b.len() {
        Standing::Before
    } else {
        Standing::After
    }
}

/// Whether two byte strings are equal.
pub fn same_bytes(a: &[u8], b: &[u8]) -> (r: bool)
    ensures
        r == (a@ == b@),
{
    match compare_bytes(a, b) {
        Standing::Same => true,
        _ => false,
    }
}

/// One byte string comes before another exactly if the two agree up to some
/// position where the first one has ended and the second has not, or where the
/// first one has the smaller byte.
pub proof fn law_first_difference_decides(a: Seq<u8>, b: Seq<u8>)
    ensures
        bytes_before(a, b) <==> exists|i: int| #[trigger]
            agree_up_to(a, b, i) && i < b.len() && (i == a.len() || a[i] < b[i]),
    decreases a.len(),
{
    if a.len() == 0 {
        if b.len() > 0 {
            assert(agree_up_to(a, b, 0));
        }
    } else if b.len() > 0 {
        let a1 = a.drop_first();
        let b1 = b.drop_first();
        if a[0] == b[0] {
            law_first_difference_decides(a1, b1);
            if bytes_before(a, b) {
                let i = choose|i: int| #[trigger]
                    agree_up_to(a1, b1, i) && i < b1.len() && (i == a1.len() || a1[i] < b1[i]);
                assert forall|j: int| 0 <= j < i + 1 implies a[j] == b[j] by {
                    if j > 0 {
                        assert(a1[j - 1] == b1[j - 1]);
                    }
                }
                assert(agree_up_to(a, b, i + 1));
            }
            if exists|i: int| #[trigger]
                agree_up_to(a, b, i) && i < b.len() && (i == a.len() || a[i] < b[i]) {
                let i = choose|i: int| #[trigger]
                    agree_up_to(a, b, i) && i < b.len() && (i == a.len() || a[i] < b[i]);
                assert(i > 0);
                assert forall|j: int| 0 <= j < i - 1 implies a1[j] == b1[j] by {
                    assert(a[j + 1] == b[j + 1]);
                }
                assert(agree_up_to(a1, b1, i - 1));
            }
        } else {
            if a[0] < b[0] {
                assert(agree_up_to(a, b, 0));
            }
            if exists|i: int| #[trigger]
                agree_up_to(a, b, i) && i < b.len() && (i == a.len() || a[i] < b[i]) {
                let i = choose|i: int| #[trigger]
                    agree_up_to(a, b, i) && i < b.len() && (i == a.len() || a[i] < b[i]);
                if i > 0 {
                    assert(a[0] == b[0]);
                }
            }
        }
    }
}

/// Both byte strings have the same first bytes.
pub open spec fn agree_up_to(a: Seq<u8>, b: Seq<u8>, i: int) -> bool {
    &&& 0 <= i <= a.len()
    &&& i <= b.len()
    &&& forall|j: int| 0 <= j < i ==> a[j] == b[j]
}

} // verus!
