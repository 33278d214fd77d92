//! Sets of byte strings.

use vstd::prelude::*;
use vstd::seq_lib::lemma_seq_contains_after_push;

use crate::order::{
    bytes_before, compare_bytes, lemma_bytes_before_irreflexive, lemma_bytes_before_transitive,
    Standing,
};
use crate::path::{byte_strings, copy_path};

verus! {

/// Each byte string comes before those that follow it.
pub open spec fn increasing(v: Seq<Seq<u8>>) -> bool {
    forall|x: int, y: int|
        0 <= x < y < v.len() ==> bytes_before(#[trigger] v[x], #[trigger] v[y])
}

/// Two lists in increasing order with the same members are the same.
pub proof fn lemma_increasing_unique(a: Seq<Seq<u8>>, b: Seq<Seq<u8>>)
    requires
        increasing(a),
        increasing(b),
        forall|s: Seq<u8>| #[trigger] a.contains(s) <==> b.contains(s),
    ensures
        a == b,
    decreases a.len(),
{
    if a.len() == 0 {
        if b.len() > 0 {
            assert(b.contains(b[0]));
            assert(a.contains(b[0]));
        }
        assert(a =~= b);
    } else {
        assert(a.contains(a[0]));
        assert(b.len() > 0);
        let la = a.last();
        let lb = b.last();
        assert(a.contains(la));
        assert(a.contains(lb)) by {
            assert(b.contains(lb));
        }
        if la != lb {
            let i = choose|i: int| 0 <= i < b.len() && b[i] == la;
            let j = choose|j: int| 0 <= j < a.len() && a[j] == lb;
            assert(bytes_before(b[i], lb));
            assert(bytes_before(a[j], la));
            lemma_bytes_before_transitive(la, lb, la);
            lemma_bytes_before_irreflexive(la);
        }
        let a1 = a.drop_last();
        let b1 = b.drop_last();
        assert forall|s: Seq<u8>| #[trigger] a1.contains(s) <==> b1.contains(s) by {
            lemma_without_last(a, s);
            lemma_without_last(b, s);
            assert(a.contains(s) <==> b.contains(s));
        }
        lemma_increasing_unique(a1, b1);
        assert(a =~= a1.push(la));
        assert(b =~= b1.push(lb));
    }
}

proof fn lemma_without_last(v: Seq<Seq<u8>>, s: Seq<u8>)
    requires
        increasing(v),
        v.len() > 0,
    ensures
        v.drop_last().contains(s) <==> v.contains(s) && s != v.last(),
{
    if v.drop_last().contains(s) {
        let k = choose|k: int| 0 <= k < v.drop_last().len() && v.drop_last()[k] == s;
        assert(v[k] == s);
        assert(bytes_before(v[k], v.last()));
        lemma_bytes_before_irreflexive(s);
    }
    if v.contains(s) && s != v.last() {
        let k = choose|k: int| 0 <= k < v.len() && v[k] == s;
        assert(v.drop_last()[k] == s);
    }
}

/// A set of byte strings.
pub struct ByteSet {
    sorted: Vec<Vec<u8>>,
}

impl View for ByteSet {
    type V = Set<Seq<u8>>;

    closed spec fn view(&self) -> Set<Seq<u8>> {
        byte_strings(self.sorted@).to_set()
    }
}

/// Merges two lists in increasing order into one.
fn merge(a: &[Vec<u8>], b: &[Vec<u8>]) -> (r: Vec<Vec<u8>>)
    requires
        increasing(byte_strings(a@)),
        increasing(byte_strings(b@)),
    ensures
        increasing(byte_strings(r@)),
        forall|s: Seq<u8>| #[trigger]
            byte_strings(r@).contains(s) <==> byte_strings(a@).contains(s) || byte_strings(
                b@,
            ).contains(s),
{
    let ghost va = byte_strings(a@);
    let ghost vb = byte_strings(b@);
    let mut r: Vec<Vec<u8>> = Vec::new();
    let mut i: usize = 0;
    let mut j: usize = 0;
    assert(va.take(0) =~= Seq::<Seq<u8>>::empty());
    assert(vb.take(0) =~= Seq::<Seq<u8>>::empty());
    while i < a.len() || j < b.len()
        invariant
            va == byte_strings(a@),
            vb == byte_strings(b@),
            increasing(va),
            increasing(vb),
            i <= a@.len(),
            j <= b@.len(),
            increasing(byte_strings(r@)),
            forall|s: Seq<u8>| #[trigger]
                byte_strings(r@).contains(s) <==> va.take(i as int).contains(s) || vb.take(
                    j as int,
                ).contains(s),
            forall|x: int, y: int|
                0 <= x < r@.len() && i <= y < va.len() ==> bytes_before(
                    #[trigger] byte_strings(r@)[x],
                    #[trigger] va[y],
                ),
            forall|x: int, y: int|
                0 <= x < r@.len() && j <= y < vb.len() ==> bytes_before(
                    #[trigger] byte_strings(r@)[x],
                    #[trigger] vb[y],
                ),
        decreases a.len() - i + (b.len() - j),
    {
        let ghost before = byte_strings(r@);
        let standing = if i == a.len() {
            Standing::After
        } else if j == b.len() {
            Standing::Before
        } else {
            compare_bytes(a[i].as_slice(), b[j].as_slice())
        };
        let item = match standing {
            Standing::After => copy_path(b[j].as_slice()),
            _ => copy_path(a[i].as_slice()),
        };
        let ghost text = item@;
        r.push(item);
        assert(byte_strings(r@) =~= before.push(text));
        proof {
            if standing != Standing::After {
                assert(text == va[i as int]);
                assert(va.take(i + 1) =~= va.take(i as int).push(text));
            }
            if standing != Standing::Before {
                assert(text == vb[j as int]);
                assert(vb.take(j + 1) =~= vb.take(j as int).push(text));
            }
            let ni = if standing != Standing::After {
                i + 1
            } else {
                i as int
            };
            let nj = if standing != Standing::Before {
                j + 1
            } else {
                j as int
            };
            assert forall|s: Seq<u8>| #[trigger]
                byte_strings(r@).contains(s) <==> va.take(ni).contains(s) || vb.take(
                    nj,
                ).contains(s) by {
                lemma_seq_contains_after_push(before, text, s);
                lemma_seq_contains_after_push(va.take(i as int), text, s);
                lemma_seq_contains_after_push(vb.take(j as int), text, s);
                assert(before.contains(s) <==> va.take(i as int).contains(s) || vb.take(
                    j as int,
                ).contains(s));
            }
            assert forall|x: int, y: int|
                0 <= x < r@.len() && ni <= y < va.len() implies bytes_before(
                #[trigger] byte_strings(r@)[x],
                #[trigger] va[y],
            ) by {
                if x < before.len() {
                    assert(byte_strings(r@)[x] == before[x]);
                } else if standing == Standing::After {
                    if y > i {
                        assert(bytes_before(va[i as int], va[y]));
                        lemma_bytes_before_transitive(text, va[i as int], va[y]);
                    }
                } else {
                    assert(bytes_before(va[i as int], va[y]));
                }
            }
            assert forall|x: int, y: int|
                0 <= x < r@.len() && nj <= y < vb.len() implies bytes_before(
                #[trigger] byte_strings(r@)[x],
                #[trigger] vb[y],
            ) by {
                if x < before.len() {
                    assert(byte_strings(r@)[x] == before[x]);
                } else if standing == Standing::Before {
                    if y > j {
                        assert(bytes_before(vb[j as int], vb[y]));
                        lemma_bytes_before_transitive(text, vb[j as int], vb[y]);
                    }
                } else {
                    assert(bytes_before(vb[j as int], vb[y]));
                }
            }
            assert forall|x: int, y: int| 0 <= x < y < r@.len() implies bytes_before(
                #[trigger] byte_strings(r@)[x],
                #[trigger] byte_strings(r@)[y],
            ) by {
                assert(byte_strings(r@)[x] == before[x]);
                if y < before.len() {
                    assert(byte_strings(r@)[y] == before[y]);
                } else if standing == Standing::After {
                    assert(bytes_before(before[x], vb[j as int]));
                } else {
                    assert(bytes_before(before[x], va[i as int]));
                }
            }
        }
        match standing {
            Standing::Before => {
                i = i + 1;
            },
            Standing::Same => {
                i = i + 1;
                j = j + 1;
            },
            Standing::After => {
                j = j + 1;
            },
        }
    }
    assert(va.take(va.len() as int) =~= va);
    assert(vb.take(vb.len() as int) =~= vb);
    r
}

/// The members of `items` from `lo` up to `hi`, in increasing order.
fn sort_range(items: &[Vec<u8>], lo: usize, hi: usize) -> (r: Vec<Vec<u8>>)
    requires
        lo <= hi <= items@.len(),
    ensures
        increasing(byte_strings(r@)),
        forall|s: Seq<u8>| #[trigger]
            byte_strings(r@).contains(s) <==> byte_strings(items@).subrange(
                lo as int,
                hi as int,
            ).contains(s),
    decreases hi - lo,
{
    let ghost v = byte_strings(items@);
    if hi - lo >= 2 {
        let mid = lo + (hi - lo) / 2;
        let a = sort_range(items, lo, mid);
        let b = sort_range(items, mid, hi);
        let r = merge(a.as_slice(), b.as_slice());
        proof {
            let left = v.subrange(lo as int, mid as int);
            let right = v.subrange(mid as int, hi as int);
            let all = v.subrange(lo as int, hi as int);
            assert(all =~= left + right);
            assert forall|s: Seq<u8>| #[trigger]
                byte_strings(r@).contains(s) <==> all.contains(s) by {
                assert(byte_strings(a@).contains(s) <==> left.contains(s));
                assert(byte_strings(b@).contains(s) <==> right.contains(s));
                vstd::seq_lib::lemma_seq_concat_contains_all_elements(left, right, s);
            }
        }
        r
    } else {
        let mut r: Vec<Vec<u8>> = Vec::new();
        if hi - lo == 1 {
            r.push(copy_path(items[lo].as_slice()));
        }
        assert(byte_strings(r@) =~= v.subrange(lo as int, hi as int));
        r
    }
}

/// The position of a byte string in a list in increasing order.
pub fn find_bytes(sorted: &[Vec<u8>], item: &[u8]) -> (r: Option<usize>)
    requires
        increasing(byte_strings(sorted@)),
    ensures
        match r {
            Some(i) => i < sorted@.len() && sorted@[i as int]@ == item@ && byte_strings(
                sorted@,
            ).contains(item@),
            None => !byte_strings(sorted@).contains(item@),
        },
{
    let ghost v = byte_strings(sorted@);
    let mut lo: usize = 0;
    let mut hi: usize = sorted.len();
    while lo < hi
        invariant
            v == byte_strings(sorted@),
            increasing(v),
            lo <= hi <= v.len(),
            forall|x: int| 0 <= x < lo ==> bytes_before(#[trigger] v[x], item@),
            forall|x: int| hi <= x < v.len() ==> bytes_before(item@, #[trigger] v[x]),
        decreases hi - lo,
    {
        let mid = lo + (hi - lo) / 2;
        assert(v[mid as int] == sorted@[mid as int]@);
        match compare_bytes(sorted[mid].as_slice(), item) {
            Standing::Same => {
                assert(v.contains(item@));
                return Some(mid);
            },
            Standing::Before => {
                assert forall|x: int| 0 <= x < mid + 1 implies bytes_before(
                    #[trigger] v[x],
                    item@,
                ) by {
                    if x < mid {
                        assert(bytes_before(v[x], v[mid as int]));
                        lemma_bytes_before_transitive(v[x], v[mid as int], item@);
                    }
                }
                lo = mid + 1;
            },
            Standing::After => {
                assert forall|x: int| mid <= x < v.len() implies bytes_before(
                    item@,
                    #[trigger] v[x],
                ) by {
                    if x > mid {
                        assert(bytes_before(v[mid as int], v[x]));
                        lemma_bytes_before_transitive(item@, v[mid as int], v[x]);
                    }
                }
                hi = mid;
            },
        }
    }
    proof {
        lemma_bytes_before_irreflexive(item@);
    }
    None
}

impl ByteSet {
    /// The members are held in increasing order.
    pub closed spec fn wf(&self) -> bool {
        increasing(byte_strings(self.sorted@))
    }

    /// The set of the members of a list.
    pub fn from_items(items: &[Vec<u8>]) -> (r: ByteSet)
        ensures
            r.wf(),
            r@ == byte_strings(items@).to_set(),
    {
        let sorted = sort_range(items, 0, items.len());
        let r = ByteSet { sorted };
        proof {
            let v = byte_strings(items@);
            assert(v.subrange(0, v.len() as int) =~= v);
            assert forall|s: Seq<u8>| r@.contains(s) <==> v.to_set().contains(s) by {
                assert(byte_strings(r.sorted@).contains(s) <==> v.contains(s));
            }
            assert(r@ =~= v.to_set());
        }
        r
    }

    /// Whether the set has the member.
    pub fn contains(&self, item: &[u8]) -> (r: bool)
        requires
            self.wf(),
        ensures
            r == self@.contains(item@),
    {
        find_bytes(self.sorted.as_slice(), item).is_some()
    }

    /// The members that are in the other set too, or those that are not, in
    /// increasing order.
    pub fn select(&self, other: &ByteSet, shared: bool) -> (r: Vec<Vec<u8>>)
        requires
            self.wf(),
            other.wf(),
        ensures
            increasing(byte_strings(r@)),
            forall|s: Seq<u8>| #[trigger]
                byte_strings(r@).contains(s) <==> self@.contains(s) && other@.contains(s) == shared,
    {
        let ghost v = byte_strings(self.sorted@);
        let mut r: Vec<Vec<u8>> = Vec::new();
        let mut i: usize = 0;
        assert(v.take(0) =~= Seq::<Seq<u8>>::empty());
        while i < self.sorted.len()
            invariant
                other.wf(),
                v == byte_strings(self.sorted@),
                increasing(v),
                i <= v.len(),
                increasing(byte_strings(r@)),
                forall|s: Seq<u8>| #[trigger]
                    byte_strings(r@).contains(s) <==> v.take(i as int).contains(s)
                        && other@.contains(s) == shared,
                forall|x: int, y: int|
                    0 <= x < r@.len() && i <= y < v.len() ==> bytes_before(
                        #[trigger] byte_strings(r@)[x],
                        #[trigger] v[y],
                    ),
            decreases self.sorted.len() - i,
        {
            let ghost before = byte_strings(r@);
            let ghost text = v[i as int];
            assert(v.take(i + 1) =~= v.take(i as int).push(text));
            if other.contains(self.sorted[i].as_slice()) == shared {
                r.push(copy_path(self.sorted[i].as_slice()));
                assert(byte_strings(r@) =~= before.push(text));
                assert forall|x: int, y: int|
                    0 <= x < r@.len() && i + 1 <= y < v.len() implies bytes_before(
                    #[trigger] byte_strings(r@)[x],
                    #[trigger] v[y],
                ) by {
                    if x < before.len() {
                        assert(byte_strings(r@)[x] == before[x]);
                    }
                }
                assert forall|x: int, y: int| 0 <= x < y < r@.len() implies bytes_before(
                    #[trigger] byte_strings(r@)[x],
                    #[trigger] byte_strings(r@)[y],
                ) by {
                    assert(byte_strings(r@)[x] == before[x]);
                    if y < before.len() {
                        assert(byte_strings(r@)[y] == before[y]);
                    } else {
                        assert(bytes_before(before[x], v[i as int]));
                    }
                }
            }
            proof {
                assert forall|s: Seq<u8>| #[trigger]
                    byte_strings(r@).contains(s) <==> v.take(i + 1).contains(s)
                        && other@.contains(s) == shared by {
                    lemma_seq_contains_after_push(before, text, s);
                    lemma_seq_contains_after_push(v.take(i as int), text, s);
                    assert(before.contains(s) <==> v.take(i as int).contains(s)
                        && other@.contains(s) == shared);
                }
            }
            i = i + 1;
        }
        assert(v.take(v.len() as int) =~= v);
        r
    }
}

} // verus!
