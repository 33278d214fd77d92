//! The difference between the files of two snapshots.

use vstd::prelude::*;

use crate::order::{
    bytes_before, compare_bytes, lemma_bytes_before_irreflexive, lemma_bytes_before_total,
    lemma_bytes_before_transitive, Standing,
};
use crate::packidx::{files, FileInfo, PackEntry};

verus! {

/// The same contents under the same path.
pub open spec fn same_file(a: FileInfo, b: FileInfo) -> bool {
    a.path == b.path && a.object.checksum == b.object.checksum
}

/// The order of files: by checksum, then by path.
pub open spec fn file_before(a: FileInfo, b: FileInfo) -> bool {
    ||| bytes_before(a.object.checksum, b.object.checksum)
    ||| a.object.checksum == b.object.checksum && bytes_before(a.path, b.path)
}

/// The list has the same contents under the same path.
pub open spec fn listed(list: Seq<FileInfo>, f: FileInfo) -> bool {
    exists|i: int| 0 <= i < list.len() && same_file(#[trigger] list[i], f)
}

/// The file at position `i` is not in the other list, and is the last one of
/// its kind in its own list.
pub open spec fn is_missing(list: Seq<FileInfo>, other: Seq<FileInfo>, i: int) -> bool {
    &&& 0 <= i < list.len()
    &&& !listed(other, list[i])
    &&& forall|j: int| i < j < list.len() ==> !same_file(#[trigger] list[j], list[i])
}

/// The file is the last one of its kind in `list`, and not in `other`.
pub open spec fn only_in(list: Seq<FileInfo>, other: Seq<FileInfo>, f: FileInfo) -> bool {
    exists|i: int| #[trigger] is_missing(list, other, i) && list[i] == f
}

/// The files of `list` that are not in `other`, each once, in order.
pub open spec fn is_difference(
    result: Seq<FileInfo>,
    list: Seq<FileInfo>,
    other: Seq<FileInfo>,
) -> bool {
    &&& forall|x: int, y: int|
        0 <= x < y < result.len() ==> file_before(#[trigger] result[x], #[trigger] result[y])
    &&& forall|f: FileInfo| #[trigger] result.contains(f) <==> only_in(list, other, f)
}

/// The order of positions in a list: by their files, then by position.
spec fn slot_before(list: Seq<FileInfo>, i: int, j: int) -> bool {
    file_before(list[i], list[j]) || same_file(list[i], list[j]) && i < j
}

/// The positions are in order.
spec fn in_order(list: Seq<FileInfo>, slots: Seq<usize>) -> bool {
    forall|x: int, y: int|
        0 <= x < y < slots.len() ==> slot_before(
            list,
            (#[trigger] slots[x]) as int,
            (#[trigger] slots[y]) as int,
        )
}

/// The positions are those from `lo` up to `hi`.
spec fn covers(slots: Seq<usize>, lo: int, hi: int) -> bool {
    &&& forall|x: int| 0 <= x < slots.len() ==> lo <= #[trigger] slots[x] < hi
    &&& forall|i: usize| lo <= i < hi ==> #[trigger] slots.contains(i)
}

/// The order of files is irreflexive, asymmetric and total.
pub proof fn lemma_file_order(a: FileInfo, b: FileInfo)
    ensures
        !file_before(a, a),
        same_file(a, b) || file_before(a, b) || file_before(b, a),
        file_before(a, b) ==> !same_file(a, b) && !file_before(b, a),
{
    lemma_bytes_before_irreflexive(a.object.checksum);
    lemma_bytes_before_irreflexive(a.path);
    lemma_bytes_before_total(a.object.checksum, b.object.checksum);
    lemma_bytes_before_total(a.path, b.path);
    if bytes_before(a.object.checksum, b.object.checksum) && bytes_before(
        b.object.checksum,
        a.object.checksum,
    ) {
        lemma_bytes_before_transitive(a.object.checksum, b.object.checksum, a.object.checksum);
    }
    if bytes_before(a.path, b.path) && bytes_before(b.path, a.path) {
        lemma_bytes_before_transitive(a.path, b.path, a.path);
    }
}

proof fn lemma_file_before_transitive(a: FileInfo, b: FileInfo, c: FileInfo)
    requires
        file_before(a, b),
        file_before(b, c),
    ensures
        file_before(a, c),
{
    if bytes_before(a.object.checksum, b.object.checksum) {
        if bytes_before(b.object.checksum, c.object.checksum) {
            lemma_bytes_before_transitive(a.object.checksum, b.object.checksum, c.object.checksum);
        }
    } else if b.object.checksum == c.object.checksum {
        lemma_bytes_before_transitive(a.path, b.path, c.path);
    }
}

proof fn lemma_slot_order(list: Seq<FileInfo>, i: int, j: int)
    ensures
        !slot_before(list, i, i),
        i == j || slot_before(list, i, j) || slot_before(list, j, i),
        slot_before(list, i, j) ==> !slot_before(list, j, i),
{
    lemma_file_order(list[i], list[j]);
    lemma_file_order(list[j], list[i]);
    lemma_file_order(list[i], list[i]);
}

proof fn lemma_slot_before_transitive(list: Seq<FileInfo>, i: int, j: int, k: int)
    requires
        slot_before(list, i, j),
        slot_before(list, j, k),
    ensures
        slot_before(list, i, k),
{
    if file_before(list[i], list[j]) && file_before(list[j], list[k]) {
        lemma_file_before_transitive(list[i], list[j], list[k]);
    }
}

/// Compares two files.
fn compare_files(a: &PackEntry, b: &PackEntry) -> (r: Standing)
    ensures
        r == Standing::Before <==> file_before(a@, b@),
        r == Standing::Same <==> same_file(a@, b@),
        r == Standing::After <==> file_before(b@, a@),
{
    proof {
        lemma_file_order(a@, b@);
        lemma_file_order(b@, a@);
    }
    match compare_bytes(a.object_index().checksum(), b.object_index().checksum()) {
        Standing::Same => compare_bytes(a.path(), b.path()),
        standing => standing,
    }
}

/// Merges two runs of positions; those of the first run are the smaller ones.
fn merge(list: &[PackEntry], a: &[usize], b: &[usize], lo: usize, mid: usize, hi: usize) -> (r:
    Vec<usize>)
    requires
        lo <= mid <= hi <= list@.len(),
        in_order(files(list@), a@),
        in_order(files(list@), b@),
        covers(a@, lo as int, mid as int),
        covers(b@, mid as int, hi as int),
    ensures
        in_order(files(list@), r@),
        covers(r@, lo as int, hi as int),
{
    let ghost fs = files(list@);
    let mut r: Vec<usize> = Vec::new();
    let mut i: usize = 0;
    let mut j: usize = 0;
    while i < a.len() || j < b.len()
        invariant
            lo <= mid <= hi <= list@.len(),
            fs == files(list@),
            in_order(fs, a@),
            in_order(fs, b@),
            covers(a@, lo as int, mid as int),
            covers(b@, mid as int, hi as int),
            i <= a@.len(),
            j <= b@.len(),
            in_order(fs, r@),
            forall|x: int| 0 <= x < r@.len() ==> lo <= #[trigger] r@[x] < hi,
            forall|x: int| 0 <= x < i ==> r@.contains(#[trigger] a@[x]),
            forall|x: int| 0 <= x < j ==> r@.contains(#[trigger] b@[x]),
            forall|x: int, y: int|
                0 <= x < r@.len() && i <= y < a@.len() ==> slot_before(
                    fs,
                    (#[trigger] r@[x]) as int,
                    (#[trigger] a@[y]) as int,
                ),
            forall|x: int, y: int|
                0 <= x < r@.len() && j <= y < b@.len() ==> slot_before(
                    fs,
                    (#[trigger] r@[x]) as int,
                    (#[trigger] b@[y]) as int,
                ),
        decreases a.len() - i + (b.len() - j),
    {
        let ghost before = r@;
        let take_first = if i == a.len() {
            false
        } else if j == b.len() {
            true
        } else {
            match compare_files(&list[a[i]], &list[b[j]]) {
                Standing::After => false,
                _ => true,
            }
        };
        if take_first {
            let slot = a[i];
            r.push(slot);
            proof {
                assert(r@ == before.push(slot));
                if j < b@.len() {
                    lemma_slot_order(fs, slot as int, b@[j as int] as int);
                    lemma_file_order(fs[slot as int], fs[b@[j as int] as int]);
                    lemma_file_order(fs[b@[j as int] as int], fs[slot as int]);
                    assert(slot_before(fs, slot as int, b@[j as int] as int));
                    assert forall|y: int| j <= y < b@.len() implies slot_before(
                        fs,
                        slot as int,
                        (#[trigger] b@[y]) as int,
                    ) by {
                        if y > j {
                            lemma_slot_before_transitive(
                                fs,
                                slot as int,
                                b@[j as int] as int,
                                b@[y] as int,
                            );
                        }
                    }
                }
                assert(r@[before.len() as int] == slot);
                assert forall|x: int| 0 <= x < i + 1 implies r@.contains(#[trigger] a@[x]) by {
                    if x < i {
                        assert(before.contains(a@[x]));
                        let k = choose|k: int| 0 <= k < before.len() && before[k] == a@[x];
                        assert(r@[k] == a@[x]);
                    }
                }
                assert forall|x: int| 0 <= x < j implies r@.contains(#[trigger] b@[x]) by {
                    assert(before.contains(b@[x]));
                    let k = choose|k: int| 0 <= k < before.len() && before[k] == b@[x];
                    assert(r@[k] == b@[x]);
                }
            }
            i = i + 1;
        } else {
            let slot = b[j];
            r.push(slot);
            proof {
                assert(r@ == before.push(slot));
                if i < a@.len() {
                    assert(slot_before(fs, slot as int, a@[i as int] as int));
                    assert forall|y: int| i <= y < a@.len() implies slot_before(
                        fs,
                        slot as int,
                        (#[trigger] a@[y]) as int,
                    ) by {
                        if y > i {
                            lemma_slot_before_transitive(
                                fs,
                                slot as int,
                                a@[i as int] as int,
                                a@[y] as int,
                            );
                        }
                    }
                }
                assert(r@[before.len() as int] == slot);
                assert forall|x: int| 0 <= x < j + 1 implies r@.contains(#[trigger] b@[x]) by {
                    if x < j {
                        assert(before.contains(b@[x]));
                        let k = choose|k: int| 0 <= k < before.len() && before[k] == b@[x];
                        assert(r@[k] == b@[x]);
                    }
                }
                assert forall|x: int| 0 <= x < i implies r@.contains(#[trigger] a@[x]) by {
                    assert(before.contains(a@[x]));
                    let k = choose|k: int| 0 <= k < before.len() && before[k] == a@[x];
                    assert(r@[k] == a@[x]);
                }
            }
            j = j + 1;
        }
    }
    proof {
        assert forall|s: usize| lo <= s < hi implies #[trigger] r@.contains(s) by {
            if s < mid {
                assert(a@.contains(s));
            } else {
                assert(b@.contains(s));
            }
        }
    }
    r
}

/// The positions from `lo` up to `hi`, in order.
fn sort_slots(list: &[PackEntry], lo: usize, hi: usize) -> (r: Vec<usize>)
    requires
        lo <= hi <= list@.len(),
    ensures
        in_order(files(list@), r@),
        covers(r@, lo as int, hi as int),
    decreases hi - lo,
{
    let mut r: Vec<usize> = Vec::new();
    if hi - lo >= 2 {
        let mid = lo + (hi - lo) / 2;
        let a = sort_slots(list, lo, mid);
        let b = sort_slots(list, mid, hi);
        r = merge(list, a.as_slice(), b.as_slice(), lo, mid, hi);
    } else if hi - lo == 1 {
        r.push(lo);
        assert(r@[0] == lo);
    }
    r
}

/// Whether the list has the file; `slots` are the positions of the list, in
/// order.
fn find_file(list: &[PackEntry], slots: &[usize], f: &PackEntry) -> (r: bool)
    requires
        in_order(files(list@), slots@),
        covers(slots@, 0, list@.len() as int),
    ensures
        r == listed(files(list@), f@),
{
    let ghost fs = files(list@);
    let mut lo: usize = 0;
    let mut hi: usize = slots.len();
    while lo < hi
        invariant
            fs == files(list@),
            in_order(fs, slots@),
            covers(slots@, 0, list@.len() as int),
            lo <= hi <= slots@.len(),
            forall|x: int|
                0 <= x < lo ==> file_before(fs[(#[trigger] slots@[x]) as int], f@),
            forall|x: int|
                hi <= x < slots@.len() ==> file_before(f@, fs[(#[trigger] slots@[x]) as int]),
        decreases hi - lo,
    {
        let mid = lo + (hi - lo) / 2;
        let ghost m = slots@[mid as int] as int;
        match compare_files(&list[slots[mid]], f) {
            Standing::Same => {
                assert(same_file(fs[m], f@));
                return true;
            },
            Standing::Before => {
                assert forall|x: int| 0 <= x < mid + 1 implies file_before(
                    fs[(#[trigger] slots@[x]) as int],
                    f@,
                ) by {
                    if x < mid {
                        let s = slots@[x] as int;
                        assert(slot_before(fs, s, m));
                        if file_before(fs[s], fs[m]) {
                            lemma_file_before_transitive(fs[s], fs[m], f@);
                        }
                    }
                }
                lo = mid + 1;
            },
            Standing::After => {
                assert forall|x: int| mid <= x < slots@.len() implies file_before(
                    f@,
                    fs[(#[trigger] slots@[x]) as int],
                ) by {
                    if x > mid {
                        let s = slots@[x] as int;
                        assert(slot_before(fs, m, s));
                        if file_before(fs[m], fs[s]) {
                            lemma_file_before_transitive(f@, fs[m], fs[s]);
                        }
                    }
                }
                hi = mid;
            },
        }
    }
    proof {
        if listed(fs, f@) {
            let i = choose|i: int| 0 <= i < fs.len() && same_file(#[trigger] fs[i], f@);
            assert(i < list.len());
            assert(slots@.contains(i as usize));
            let x = choose|x: int| 0 <= x < slots@.len() && slots@[x] == i as usize;
            lemma_file_order(fs[i], f@);
            lemma_file_order(f@, fs[i]);
            assert(slots@[x] as int == i);
        }
    }
    false
}

/// The files of `list` that are not in `other`, each once, in order.
pub fn difference(list: &[PackEntry], other: &[PackEntry]) -> (r: Vec<PackEntry>)
    ensures
        is_difference(files(r@), files(list@), files(other@)),
{
    let ghost fs = files(list@);
    let ghost os = files(other@);
    let slots = sort_slots(list, 0, list.len());
    let other_slots = sort_slots(other, 0, other.len());
    let mut r: Vec<PackEntry> = Vec::new();
    let mut k: usize = 0;
    while k < slots.len()
        invariant
            fs == files(list@),
            os == files(other@),
            in_order(fs, slots@),
            covers(slots@, 0, list@.len() as int),
            in_order(os, other_slots@),
            covers(other_slots@, 0, other@.len() as int),
            k <= slots@.len(),
            forall|x: int, y: int|
                0 <= x < y < r@.len() ==> file_before(
                    #[trigger] files(r@)[x],
                    #[trigger] files(r@)[y],
                ),
            forall|x: int|
                0 <= x < r@.len() ==> only_in(fs, os, #[trigger] files(r@)[x]),
            forall|x: int|
                0 <= x < k && is_missing(fs, os, (#[trigger] slots@[x]) as int) ==> files(
                    r@,
                ).contains(fs[slots@[x] as int]),
            forall|x: int, y: int|
                0 <= x < r@.len() && k <= y < slots@.len() ==> file_before(
                    #[trigger] files(r@)[x],
                    fs[(#[trigger] slots@[y]) as int],
                ),
        decreases slots.len() - k,
    {
        let ghost before = files(r@);
        let slot = slots[k];
        let ghost m = slot as int;
        let last_of_kind = k + 1 == slots.len() || match compare_files(
            &list[slot],
            &list[slots[k + 1]],
        ) {
            Standing::Same => false,
            _ => true,
        };
        let found = find_file(other, other_slots.as_slice(), &list[slot]);
        proof {
            lemma_last_of_kind(fs, slots@, k as int, last_of_kind);
            assert(is_missing(fs, os, m) <==> last_of_kind && !found);
        }
        if last_of_kind && !found {
            r.push(list[slot].clone());
            proof {
                assert(files(r@) =~= before.push(fs[m]));
                assert(files(r@)[before.len() as int] == fs[m]);
                assert forall|x: int| 0 <= x < k + 1 && is_missing(
                    fs,
                    os,
                    (#[trigger] slots@[x]) as int,
                ) implies files(r@).contains(fs[slots@[x] as int]) by {
                    if x < k {
                        let e = fs[slots@[x] as int];
                        assert(before.contains(e));
                        let n = choose|n: int| 0 <= n < before.len() && before[n] == e;
                        assert(files(r@)[n] == e);
                    }
                }
                assert forall|x: int, y: int|
                    0 <= x < r@.len() && k + 1 <= y < slots@.len() implies file_before(
                    #[trigger] files(r@)[x],
                    fs[(#[trigger] slots@[y]) as int],
                ) by {
                    if x == before.len() {
                        let s = slots@[y] as int;
                        assert(slot_before(fs, m, s));
                        if same_file(fs[m], fs[s]) {
                            assert(m < s);
                            assert(!same_file(fs[s], fs[m]));
                        }
                    } else {
                        assert(files(r@)[x] == before[x]);
                    }
                }
                assert forall|x: int| 0 <= x < r@.len() implies only_in(
                    fs,
                    os,
                    #[trigger] files(r@)[x],
                ) by {
                    if x == before.len() {
                        assert(is_missing(fs, os, m));
                    } else {
                        assert(files(r@)[x] == before[x]);
                    }
                }
                assert forall|x: int, y: int| 0 <= x < y < r@.len() implies file_before(
                    #[trigger] files(r@)[x],
                    #[trigger] files(r@)[y],
                ) by {
                    assert(files(r@)[x] == before[x]);
                    if y == before.len() {
                        assert(file_before(before[x], fs[slots@[k as int] as int]));
                    } else {
                        assert(files(r@)[y] == before[y]);
                    }
                }
            }
        }
        k = k + 1;
    }
    proof {
        assert forall|f: FileInfo| only_in(fs, os, f) implies #[trigger] files(r@).contains(
            f,
        ) by {
            let i = choose|i: int| #[trigger] is_missing(fs, os, i) && fs[i] == f;
            assert(i < list.len());
            assert(slots@.contains(i as usize));
            let x = choose|x: int| 0 <= x < slots@.len() && slots@[x] == i as usize;
            assert(slots@[x] as int == i);
        }
    }
    r
}

/// In a list of positions in order, a file is the last of its kind exactly if
/// the next position does not hold the same file.
proof fn lemma_last_of_kind(list: Seq<FileInfo>, slots: Seq<usize>, k: int, last_of_kind: bool)
    requires
        in_order(list, slots),
        covers(slots, 0, list.len() as int),
        list.len() <= usize::MAX,
        0 <= k < slots.len(),
        last_of_kind <==> (k + 1 == slots.len() || !same_file(
            list[slots[k] as int],
            list[slots[k + 1] as int],
        )),
    ensures
        last_of_kind <==> forall|j: int|
            slots[k] < j < list.len() ==> !same_file(#[trigger] list[j], list[slots[k] as int]),
{
    let m = slots[k] as int;
    if last_of_kind {
        assert forall|j: int| m < j < list.len() implies !same_file(
            #[trigger] list[j],
            list[m],
        ) by {
            if same_file(list[j], list[m]) {
                assert(slots.contains(j as usize));
                let x = choose|x: int| 0 <= x < slots.len() && slots[x] == j as usize;
                assert(slots[x] as int == j);
                lemma_slot_order(list, m, j);
                assert(slot_before(list, m, j));
                if x < k {
                    assert(slot_before(list, slots[x] as int, slots[k] as int));
                }
                assert(x > k);
                let n = slots[k + 1] as int;
                assert(slot_before(list, m, n));
                if x > k + 1 {
                    assert(slot_before(list, slots[k + 1] as int, slots[x] as int));
                    lemma_file_order(list[m], list[n]);
                    lemma_file_order(list[n], list[j]);
                    lemma_file_order(list[j], list[m]);
                    if file_before(list[m], list[n]) {
                        if file_before(list[n], list[j]) {
                            lemma_file_before_transitive(list[m], list[n], list[j]);
                        }
                        assert(file_before(list[m], list[j]));
                        lemma_file_order(list[m], list[j]);
                    }
                    assert(same_file(list[m], list[n]));
                }
            }
        }
    } else {
        let n = slots[k + 1] as int;
        assert(slot_before(list, m, n));
        lemma_file_order(list[m], list[n]);
        assert(m < n);
        assert(same_file(list[n], list[m]));
    }
}

/// The last position of a file of the same kind.
proof fn lemma_last_position(list: Seq<FileInfo>, f: FileInfo, from: int) -> (i: int)
    requires
        0 <= from < list.len(),
        same_file(list[from], f),
    ensures
        from <= i < list.len(),
        same_file(list[i], f),
        forall|j: int| i < j < list.len() ==> !same_file(#[trigger] list[j], f),
    decreases list.len() - from,
{
    if exists|j: int| from < j < list.len() && same_file(#[trigger] list[j], f) {
        let j = choose|j: int| from < j < list.len() && same_file(#[trigger] list[j], f);
        lemma_last_position(list, f, j)
    } else {
        from
    }
}

/// A file is in the difference exactly if it is in the first list and not in
/// the second.
pub proof fn law_difference_lists_what_is_missing(
    result: Seq<FileInfo>,
    list: Seq<FileInfo>,
    other: Seq<FileInfo>,
    f: FileInfo,
)
    requires
        is_difference(result, list, other),
    ensures
        listed(result, f) <==> listed(list, f) && !listed(other, f),
{
    if listed(result, f) {
        let x = choose|x: int| 0 <= x < result.len() && same_file(#[trigger] result[x], f);
        assert(result.contains(result[x]));
        let i = choose|i: int| #[trigger] is_missing(list, other, i) && list[i] == result[x];
        assert(same_file(list[i], f));
        if listed(other, f) {
            let j = choose|j: int| 0 <= j < other.len() && same_file(#[trigger] other[j], f);
            assert(same_file(other[j], list[i]));
        }
    }
    if listed(list, f) && !listed(other, f) {
        let from = choose|i: int| 0 <= i < list.len() && same_file(#[trigger] list[i], f);
        let i = lemma_last_position(list, f, from);
        assert(!listed(other, list[i])) by {
            if listed(other, list[i]) {
                let j = choose|j: int|
                    0 <= j < other.len() && same_file(#[trigger] other[j], list[i]);
                assert(same_file(other[j], f));
            }
        }
        assert forall|j: int| i < j < list.len() implies !same_file(
            #[trigger] list[j],
            list[i],
        ) by {
            assert(!same_file(list[j], f));
        }
        assert(is_missing(list, other, i));
        assert(result.contains(list[i]));
        let x = choose|x: int| 0 <= x < result.len() && result[x] == list[i];
        assert(same_file(result[x], f));
    }
}

/// A list does not differ from itself.
pub proof fn law_no_difference_from_itself(result: Seq<FileInfo>, list: Seq<FileInfo>)
    requires
        is_difference(result, list, list),
    ensures
        result.len() == 0,
{
    if result.len() > 0 {
        assert(same_file(result[0], result[0]));
        law_difference_lists_what_is_missing(result, list, list, result[0]);
    }
}

/// The lists determine their difference.
pub proof fn law_difference_is_determined(
    a: Seq<FileInfo>,
    b: Seq<FileInfo>,
    list: Seq<FileInfo>,
    other: Seq<FileInfo>,
)
    requires
        is_difference(a, list, other),
        is_difference(b, list, other),
    ensures
        a == b,
{
    assert forall|f: FileInfo| #[trigger] a.contains(f) <==> b.contains(f) by {
        assert(only_in(list, other, f) <==> b.contains(f));
    }
    lemma_ordered_unique(a, b);
}

spec fn ordered(v: Seq<FileInfo>) -> bool {
    forall|x: int, y: int| 0 <= x < y < v.len() ==> file_before(#[trigger] v[x], #[trigger] v[y])
}

proof fn lemma_without_last(v: Seq<FileInfo>, f: FileInfo)
    requires
        ordered(v),
        v.len() > 0,
    ensures
        v.drop_last().contains(f) <==> v.contains(f) && f != v.last(),
{
    if v.drop_last().contains(f) {
        let k = choose|k: int| 0 <= k < v.drop_last().len() && v.drop_last()[k] == f;
        assert(v[k] == f);
        assert(file_before(v[k], v.last()));
        lemma_file_order(f, f);
    }
    if v.contains(f) && f != v.last() {
        let k = choose|k: int| 0 <= k < v.len() && v[k] == f;
        assert(v.drop_last()[k] == f);
    }
}

proof fn lemma_ordered_unique(a: Seq<FileInfo>, b: Seq<FileInfo>)
    requires
        ordered(a),
        ordered(b),
        forall|f: FileInfo| #[trigger] a.contains(f) <==> b.contains(f),
    ensures
        a == b,
    decreases a.len(),
{
    if a.len() == 0 {
        if b.len() > 0 {
            assert(b.contains(b[0]));
            assert(a.contains(b[0]));
        }
        assert(a =~= b);
    } else {
        assert(a.contains(a[0]));
        assert(b.len() > 0);
        let la = a.last();
        let lb = b.last();
        assert(a.contains(la));
        assert(b.contains(lb));
        assert(a.contains(lb));
        if la != lb {
            let i = choose|i: int| 0 <= i < b.len() && b[i] == la;
            let j = choose|j: int| 0 <= j < a.len() && a[j] == lb;
            assert(file_before(b[i], lb));
            assert(file_before(a[j], la));
            lemma_file_order(la, lb);
        }
        let a1 = a.drop_last();
        let b1 = b.drop_last();
        assert forall|f: FileInfo| #[trigger] a1.contains(f) <==> b1.contains(f) by {
            lemma_without_last(a, f);
            lemma_without_last(b, f);
            assert(a.contains(f) <==> b.contains(f));
        }
        lemma_ordered_unique(a1, b1);
        assert(a =~= a1.push(la));
        assert(b =~= b1.push(lb));
    }
}

/// The list has a file with this path and this checksum.
pub open spec fn has_file(list: Seq<FileInfo>, path: Seq<u8>, checksum: Seq<u8>) -> bool {
    exists|i: int|
        0 <= i < list.len() && (#[trigger] list[i]).path == path && list[i].object.checksum
            == checksum
}

/// What the difference of two lists has: it has a file with some path and
/// checksum exactly if the first list has one with both and the second has
/// none. Each of its files is one of the first list, and none of its files has
/// both path and checksum of another one. They are in the order of their
/// checksums, and those with the same checksum in the order of their paths.
pub proof fn law_difference_of_files(
    result: Seq<FileInfo>,
    list: Seq<FileInfo>,
    other: Seq<FileInfo>,
    path: Seq<u8>,
    checksum: Seq<u8>,
    x: int,
    y: int,
)
    requires
        is_difference(result, list, other),
    ensures
        has_file(result, path, checksum) <==> has_file(list, path, checksum) && !has_file(
            other,
            path,
            checksum,
        ),
        0 <= x < result.len() ==> list.contains(result[x]),
        0 <= x < y < result.len() ==> {
            ||| bytes_before(result[x].object.checksum, result[y].object.checksum)
            ||| result[x].object.checksum == result[y].object.checksum && bytes_before(
                result[x].path,
                result[y].path,
            )
        },
        0 <= x < y < result.len() ==> result[x].path != result[y].path
            || result[x].object.checksum != result[y].object.checksum,
{
    let f = FileInfo {
        path,
        object: crate::packidx::ObjectInfo { checksum, offset: None, size: 0 },
    };
    law_difference_lists_what_is_missing(result, list, other, f);
    lemma_has_file(result, f);
    lemma_has_file(list, f);
    lemma_has_file(other, f);
    if 0 <= x < result.len() {
        assert(result.contains(result[x]));
        assert(only_in(list, other, result[x]));
        let i = choose|i: int| #[trigger] is_missing(list, other, i) && list[i] == result[x];
        assert(list.contains(list[i]));
    }
    if 0 <= x < y < result.len() {
        assert(file_before(result[x], result[y]));
        lemma_file_order(result[x], result[y]);
    }
}

proof fn lemma_has_file(list: Seq<FileInfo>, f: FileInfo)
    ensures
        listed(list, f) <==> has_file(list, f.path, f.object.checksum),
{
    if listed(list, f) {
        let i = choose|i: int| 0 <= i < list.len() && same_file(#[trigger] list[i], f);
        assert(list[i].path == f.path);
    }
    if has_file(list, f.path, f.object.checksum) {
        let i = choose|i: int|
            0 <= i < list.len() && (#[trigger] list[i]).path == f.path
                && list[i].object.checksum == f.object.checksum;
        assert(same_file(list[i], f));
    }
}

/// Where the first list has a file more than once, the last one is taken.
pub proof fn law_last_of_the_same_files_is_taken(
    result: Seq<FileInfo>,
    list: Seq<FileInfo>,
    other: Seq<FileInfo>,
    i: int,
)
    requires
        is_difference(result, list, other),
        0 <= i < list.len(),
        forall|j: int|
            i < j < list.len() ==> (#[trigger] list[j]).path != list[i].path
                || list[j].object.checksum != list[i].object.checksum,
        !has_file(other, list[i].path, list[i].object.checksum),
    ensures
        result.contains(list[i]),
{
    lemma_has_file(other, list[i]);
    assert(is_missing(list, other, i));
    assert(only_in(list, other, list[i]));
}

} // verus!
