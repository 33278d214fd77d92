//! What an extraction does to the working directory.

use vstd::prelude::*;

use crate::byteset::lemma_increasing_unique;
use crate::diff::{
    is_difference, is_missing, law_difference_is_determined, law_difference_lists_what_is_missing,
    listed, only_in, same_file,
};
use crate::extract::{
    check_steps, copy_of, copy_steps, extract_steps, has_path, head_step, is_plan, preparation_steps,
    removal_of, removal_steps, steps, transfer_steps, ExtractPlan, Step,
};
use crate::layout::loose_object_path;
use crate::options::Switches;
use crate::pack::{PackName, SnapshotName};
use crate::packidx::{files, FileInfo};
use crate::path::{byte_strings, is_relative, join};

verus! {

/// The files of the working directory, and the checksums of their contents.
pub type WorkFiles = Map<Seq<u8>, Seq<u8>>;

/// The files after those of a list were written.
pub open spec fn with_files(work: WorkFiles, repo: Seq<u8>, list: Seq<FileInfo>) -> WorkFiles
    decreases list.len(),
{
    if list.len() == 0 {
        work
    } else {
        with_files(work, repo, list.drop_last()).insert(
            join(repo, list.last().path),
            list.last().object.checksum,
        )
    }
}

/// The files after those at the paths were deleted.
pub open spec fn without_paths(work: WorkFiles, repo: Seq<u8>, paths: Seq<Seq<u8>>) -> WorkFiles
    decreases paths.len(),
{
    if paths.len() == 0 {
        work
    } else {
        without_paths(work, repo, paths.drop_last()).remove(join(repo, paths.last()))
    }
}

/// The files of the unpacked objects, and the checksums of their contents.
pub type StoredFiles = Map<Seq<u8>, Seq<u8>>;

/// Each object of the files is in the store, at its place.
pub open spec fn holds_objects(store: StoredFiles, repo: Seq<u8>, list: Seq<FileInfo>) -> bool {
    forall|i: int|
        0 <= i < list.len() ==> holds_object(store, repo, (#[trigger] list[i]).object.checksum)
}

/// The object is in the store, at its place.
pub open spec fn holds_object(store: StoredFiles, repo: Seq<u8>, checksum: Seq<u8>) -> bool {
    let p = loose_object_path(repo, checksum);
    store.contains_key(p) && store[p] == checksum
}

/// The files after a step of an extraction. A copy puts in place what the
/// store holds.
pub open spec fn after_step(store: StoredFiles, work: WorkFiles, step: Step) -> WorkFiles {
    match step {
        Step::Delete(p) => work.remove(p),
        Step::Copy { from, to, .. } => work.insert(to, store[from]),
        Step::Unpack { files, dest, .. } => with_files(work, dest, files),
        Step::Check(_) | Step::Protect(_) | Step::Verify { .. } | Step::WriteHead { .. } => work,
    }
}

/// The files after some steps of an extraction.
pub open spec fn after_steps(
    store: StoredFiles,
    work: WorkFiles,
    list: Seq<Step>,
) -> WorkFiles
    decreases list.len(),
{
    if list.len() == 0 {
        work
    } else {
        after_step(store, after_steps(store, work, list.drop_last()), list.last())
    }
}

/// Files of the list with the same path have the same contents.
pub open spec fn consistent_paths(list: Seq<FileInfo>) -> bool {
    forall|i: int, j: int|
        0 <= i < list.len() && 0 <= j < list.len() && (#[trigger] list[i]).path == (
        #[trigger] list[j]).path ==> list[i].object.checksum == list[j].object.checksum
}

/// All paths are relative to the repository.
pub open spec fn relative_paths(list: Seq<FileInfo>) -> bool {
    forall|i: int| 0 <= i < list.len() ==> is_relative((#[trigger] list[i]).path)
}

/// The files of the list are in place.
pub open spec fn in_place(work: WorkFiles, repo: Seq<u8>, list: Seq<FileInfo>) -> bool {
    forall|i: int|
        0 <= i < list.len() ==> {
            &&& work.contains_key(join(repo, (#[trigger] list[i]).path))
            &&& work[join(repo, list[i].path)] == list[i].object.checksum
        }
}

/// The path is not that of a file of the list.
pub open spec fn untouched_by(repo: Seq<u8>, list: Seq<FileInfo>, p: Seq<u8>) -> bool {
    forall|i: int| 0 <= i < list.len() ==> join(repo, (#[trigger] list[i]).path) != p
}

/// The path is the same in both, or missing in both.
pub open spec fn same_at(a: WorkFiles, b: WorkFiles, p: Seq<u8>) -> bool {
    &&& a.contains_key(p) == b.contains_key(p)
    &&& a.contains_key(p) ==> a[p] == b[p]
}

pub proof fn lemma_join_injective(repo: Seq<u8>, p: Seq<u8>, q: Seq<u8>)
    requires
        is_relative(p),
        is_relative(q),
        join(repo, p) == join(repo, q),
    ensures
        p == q,
{
    let base = if repo.len() > 0 && repo.last() != crate::path::SEPARATOR {
        repo.push(crate::path::SEPARATOR)
    } else {
        repo
    };
    assert(p =~= (base + p).skip(base.len() as int));
    assert(q =~= (base + q).skip(base.len() as int));
}

proof fn lemma_after_steps_add(
    store: StoredFiles,
    work: WorkFiles,
    a: Seq<Step>,
    b: Seq<Step>,
)
    ensures
        after_steps(store, work, a + b) == after_steps(store, after_steps(store, work, a), b),
    decreases b.len(),
{
    if b.len() == 0 {
        assert(a + b =~= a);
    } else {
        assert((a + b).drop_last() =~= a + b.drop_last());
        lemma_after_steps_add(store, work, a, b.drop_last());
    }
}

proof fn lemma_after_removals(
    store: StoredFiles,
    work: WorkFiles,
    repo: Seq<u8>,
    paths: Seq<Seq<u8>>,
    force: bool,
)
    ensures
        after_steps(store, work, removal_steps(repo, paths, force)) == without_paths(work, repo, paths),
    decreases paths.len(),
{
    if paths.len() > 0 {
        let init = paths.drop_last();
        let last = removal_of(repo, paths.last(), force);
        lemma_after_removals(store, work, repo, init, force);
        lemma_after_steps_add(store, work, removal_steps(repo, init, force), last);
        let mid = without_paths(work, repo, init);
        reveal_with_fuel(after_steps, 3);
        assert(after_steps(store, mid, last) == mid.remove(join(repo, paths.last()))) by {
            if force {
                assert(last.drop_last() =~= Seq::<Step>::empty());
            } else {
                assert(last.drop_last() =~= seq![Step::Check(join(repo, paths.last()))]);
                assert(last.drop_last().drop_last() =~= Seq::<Step>::empty());
            }
        }
    }
}

proof fn lemma_after_checks(
    store: StoredFiles,
    work: WorkFiles,
    list: Seq<Step>,
)
    requires
        forall|i: int| 0 <= i < list.len() ==> #[trigger] list[i] is Check,
    ensures
        after_steps(store, work, list) == work,
    decreases list.len(),
{
    if list.len() > 0 {
        lemma_after_checks(store, work, list.drop_last());
    }
}

proof fn lemma_after_copies(
    store: StoredFiles,
    work: WorkFiles,
    repo: Seq<u8>,
    list: Seq<FileInfo>,
)
    requires
        holds_objects(store, repo, list),
    ensures
        after_steps(store, work, copy_steps(repo, list)) == with_files(work, repo, list),
    decreases list.len(),
{
    if list.len() > 0 {
        let init = copy_steps(repo, list.drop_last());
        let last = copy_of(repo, list.last());
        assert forall|i: int| 0 <= i < list.drop_last().len() implies holds_object(
            store,
            repo,
            (#[trigger] list.drop_last()[i]).object.checksum,
        ) by {
            assert(list[i] == list.drop_last()[i]);
        }
        assert(list[list.len() - 1] == list.last());
        lemma_after_copies(store, work, repo, list.drop_last());
        lemma_after_steps_add(store, work, init, last);
        reveal_with_fuel(after_steps, 3);
        assert(last.drop_last() =~= seq![last[0]]);
        assert(last.drop_last().drop_last() =~= Seq::<Step>::empty());
    }
}

proof fn lemma_after_transfer(
    store: StoredFiles,
    work: WorkFiles,
    repo: Seq<u8>,
    pack: PackName,
    list: Seq<FileInfo>,
    verify: bool,
)
    requires
        pack is Unpacked ==> holds_objects(store, repo, list),
    ensures
        after_steps(store, work, transfer_steps(repo, pack, list, verify)) == with_files(
            work,
            repo,
            list,
        ),
{
    let all = transfer_steps(repo, pack, list, verify);
    match pack {
        PackName::Packed(_) => {
            assert(all.drop_last() =~= Seq::<Step>::empty());
            reveal_with_fuel(after_steps, 2);
        },
        PackName::Unpacked => {
            lemma_after_copies(store, work, repo, list);
            if verify {
                assert(all.drop_last() =~= copy_steps(repo, list));
            }
        },
    }
}

/// All steps of an extraction delete the paths to be removed, then write the
/// files to be put in place.
proof fn lemma_after_extract(
    store: StoredFiles,
    work: WorkFiles,
    repo: Seq<u8>,
    id: SnapshotName,
    opts: Switches,
    added: Seq<FileInfo>,
    updated: Seq<Seq<u8>>,
    removed: Seq<Seq<u8>>,
)
    requires
        id.pack is Unpacked ==> holds_objects(store, repo, added),
    ensures
        after_steps(store, work, extract_steps(repo, id, opts, added, updated, removed)) == with_files(
            without_paths(work, repo, removed),
            repo,
            added,
        ),
{
    let removals = removal_steps(repo, removed, opts.force);
    let checks = check_steps(repo, updated, opts.force);
    let transfer = transfer_steps(repo, id.pack, added, opts.verify);
    let all = extract_steps(repo, id, opts, added, updated, removed);
    assert(all.drop_last() =~= (removals + checks) + transfer);
    lemma_after_steps_add(store, work, removals + checks, transfer);
    lemma_after_steps_add(store, work, removals, checks);
    lemma_after_removals(store, work, repo, removed, opts.force);
    let mid = without_paths(work, repo, removed);
    lemma_after_checks(store, mid, checks);
    lemma_after_transfer(store, mid, repo, id.pack, added, opts.verify);
}

proof fn lemma_without_paths(
    work: WorkFiles,
    repo: Seq<u8>,
    paths: Seq<Seq<u8>>,
    q: Seq<u8>,
)
    ensures
        ({
            let hit = exists|i: int| 0 <= i < paths.len() && join(repo, #[trigger] paths[i]) == q;
            let after = without_paths(work, repo, paths);
            &&& hit ==> !after.contains_key(q)
            &&& !hit ==> same_at(after, work, q)
        }),
    decreases paths.len(),
{
    if paths.len() > 0 {
        let init = paths.drop_last();
        lemma_without_paths(work, repo, init, q);
        assert(paths[paths.len() - 1] == paths.last());
        assert forall|i: int| 0 <= i < init.len() implies #[trigger] init[i] == paths[i] by {}
        if exists|i: int| 0 <= i < paths.len() && join(repo, #[trigger] paths[i]) == q {
            let i = choose|i: int| 0 <= i < paths.len() && join(repo, #[trigger] paths[i]) == q;
            if i < init.len() {
                assert(join(repo, init[i]) == q);
            }
        }
    }
}

proof fn lemma_with_files_miss(work: WorkFiles, repo: Seq<u8>, list: Seq<FileInfo>, q: Seq<u8>)
    requires
        untouched_by(repo, list, q),
    ensures
        same_at(with_files(work, repo, list), work, q),
    decreases list.len(),
{
    if list.len() > 0 {
        let init = list.drop_last();
        assert forall|i: int| 0 <= i < init.len() implies join(
            repo,
            (#[trigger] init[i]).path,
        ) != q by {
            assert(init[i] == list[i]);
        }
        lemma_with_files_miss(work, repo, init, q);
        assert(join(repo, list[list.len() - 1].path) != q);
    }
}

proof fn lemma_with_files_hit(work: WorkFiles, repo: Seq<u8>, list: Seq<FileInfo>, i: int)
    requires
        0 <= i < list.len(),
        consistent_paths(list),
        relative_paths(list),
    ensures
        with_files(work, repo, list).contains_key(join(repo, list[i].path)),
        with_files(work, repo, list)[join(repo, list[i].path)] == list[i].object.checksum,
    decreases list.len(),
{
    if i < list.len() - 1 {
        let init = list.drop_last();
        assert forall|x: int, y: int|
            0 <= x < init.len() && 0 <= y < init.len() && (#[trigger] init[x]).path == (
            #[trigger] init[y]).path implies init[x].object.checksum
            == init[y].object.checksum by {
            assert(list[x].path == list[y].path);
        }
        assert forall|x: int| 0 <= x < init.len() implies is_relative(
            (#[trigger] init[x]).path,
        ) by {
            assert(is_relative(list[x].path));
        }
        lemma_with_files_hit(work, repo, init, i);
        assert(init[i] == list[i]);
        let n = list.len() - 1;
        if join(repo, list[i].path) == join(repo, list[n].path) {
            lemma_join_injective(repo, list[i].path, list[n].path);
            assert(list[i].object.checksum == list[n].object.checksum);
        }
    }
}

/// A file of a difference is a file of the first list that the second does not
/// have.
pub proof fn lemma_difference_member(
    result: Seq<FileInfo>,
    list: Seq<FileInfo>,
    other: Seq<FileInfo>,
    x: int,
) -> (i: int)
    requires
        is_difference(result, list, other),
        0 <= x < result.len(),
    ensures
        0 <= i < list.len(),
        list[i] == result[x],
        !listed(other, list[i]),
{
    assert(result.contains(result[x]));
    assert(only_in(list, other, result[x]));
    choose|i: int| #[trigger] is_missing(list, other, i) && list[i] == result[x]
}

/// A file of the first list that the second does not have is a file of the
/// difference.
pub proof fn lemma_difference_has(
    result: Seq<FileInfo>,
    list: Seq<FileInfo>,
    other: Seq<FileInfo>,
    i: int,
) -> (x: int)
    requires
        is_difference(result, list, other),
        0 <= i < list.len(),
        !listed(other, list[i]),
    ensures
        0 <= x < result.len(),
        same_file(result[x], list[i]),
{
    assert(same_file(list[i], list[i]));
    law_difference_lists_what_is_missing(result, list, other, list[i]);
    choose|x: int| 0 <= x < result.len() && same_file(#[trigger] result[x], list[i])
}

proof fn lemma_difference_paths(result: Seq<FileInfo>, list: Seq<FileInfo>, other: Seq<FileInfo>)
    requires
        is_difference(result, list, other),
        consistent_paths(list),
        relative_paths(list),
    ensures
        consistent_paths(result),
        relative_paths(result),
{
    assert forall|x: int| 0 <= x < result.len() implies is_relative(
        (#[trigger] result[x]).path,
    ) by {
        let i = lemma_difference_member(result, list, other, x);
        assert(is_relative(list[i].path));
    }
    assert forall|x: int, y: int|
        0 <= x < result.len() && 0 <= y < result.len() && (#[trigger] result[x]).path == (
        #[trigger] result[y]).path implies result[x].object.checksum
        == result[y].object.checksum by {
        let i = lemma_difference_member(result, list, other, x);
        let j = lemma_difference_member(result, list, other, y);
        assert(list[i].path == list[j].path);
    }
}

/// An extraction takes the working directory from the files of one snapshot
/// to those of another: afterwards the files of the new snapshot are in place,
/// those that only the previous one had are gone, and all others are as they
/// were. Unpacked files come from the store, which has to hold their objects.
pub proof fn law_extract_reaches_snapshot(
    plan: ExtractPlan,
    repo: Seq<u8>,
    id: SnapshotName,
    opts: Switches,
    wanted: Seq<FileInfo>,
    current: Seq<FileInfo>,
    store: StoredFiles,
    work: WorkFiles,
)
    requires
        is_plan(plan, repo, id, opts, wanted, Some(current)),
        consistent_paths(wanted),
        consistent_paths(current),
        relative_paths(wanted),
        relative_paths(current),
        in_place(work, repo, current),
        id.pack is Unpacked ==> holds_objects(store, repo, files(plan.added@)),
    ensures
        ({
            let after = after_steps(store, work, steps(plan.steps@));
            &&& in_place(after, repo, wanted)
            &&& forall|i: int|
                0 <= i < current.len() && !has_path(wanted, (#[trigger] current[i]).path)
                    ==> !after.contains_key(join(repo, current[i].path))
            &&& forall|p: Seq<u8>|
                untouched_by(repo, current, p) && untouched_by(repo, wanted, p)
                    ==> #[trigger] same_at(after, work, p)
        }),
{
    let added = files(plan.added@);
    let dropped = files(plan.dropped@);
    let updated = byte_strings(plan.updated_paths@);
    let removed = byte_strings(plan.removed_paths@);
    lemma_after_extract(store, work, repo, id, opts, added, updated, removed);
    lemma_difference_paths(added, wanted, current);
    let mid = without_paths(work, repo, removed);
    let after = with_files(mid, repo, added);
    assert forall|i: int| 0 <= i < wanted.len() implies {
        &&& after.contains_key(join(repo, (#[trigger] wanted[i]).path))
        &&& after[join(repo, wanted[i].path)] == wanted[i].object.checksum
    } by {
        let q = join(repo, wanted[i].path);
        if !listed(current, wanted[i]) {
            let x = lemma_difference_has(added, wanted, current, i);
            lemma_with_files_hit(mid, repo, added, x);
        } else {
            let c = choose|c: int|
                0 <= c < current.len() && same_file(#[trigger] current[c], wanted[i]);
            // No added file has this path: it would be this file of the snapshot.
            assert forall|x: int| 0 <= x < added.len() implies join(
                repo,
                (#[trigger] added[x]).path,
            ) != q by {
                if join(repo, added[x].path) == q {
                    let j = lemma_difference_member(added, wanted, current, x);
                    lemma_join_injective(repo, added[x].path, wanted[i].path);
                    assert(wanted[i].path == wanted[j].path);
                    assert(same_file(current[c], wanted[j]));
                }
            }
            lemma_with_files_miss(mid, repo, added, q);
            lemma_kept_is_not_removed(plan, repo, id, opts, wanted, current, i);
            lemma_without_paths(work, repo, removed, q);
            assert(current[c].path == wanted[i].path);
        }
    }
    assert forall|i: int|
        0 <= i < current.len() && !has_path(wanted, (#[trigger] current[i]).path) implies !after
        .contains_key(join(repo, current[i].path)) by {
        let q = join(repo, current[i].path);
        assert forall|x: int| 0 <= x < added.len() implies join(
            repo,
            (#[trigger] added[x]).path,
        ) != q by {
            if join(repo, added[x].path) == q {
                let j = lemma_difference_member(added, wanted, current, x);
                assert(is_relative(current[i].path));
                lemma_join_injective(repo, added[x].path, current[i].path);
                assert(wanted[j].path == current[i].path);
            }
        }
        lemma_with_files_miss(mid, repo, added, q);
        assert(!listed(wanted, current[i])) by {
            if listed(wanted, current[i]) {
                let j = choose|j: int|
                    0 <= j < wanted.len() && same_file(#[trigger] wanted[j], current[i]);
                assert(wanted[j].path == current[i].path);
            }
        }
        let x = lemma_difference_has(dropped, current, wanted, i);
        assert(has_path(dropped, current[i].path)) by {
            assert(dropped[x].path == current[i].path);
        }
        assert(!has_path(added, current[i].path)) by {
            if has_path(added, current[i].path) {
                let y = choose|y: int|
                    0 <= y < added.len() && (#[trigger] added[y]).path == current[i].path;
                assert(join(repo, added[y].path) == q);
            }
        }
        assert(removed.contains(current[i].path));
        let r = choose|r: int| 0 <= r < removed.len() && removed[r] == current[i].path;
        assert(join(repo, removed[r]) == q);
        lemma_without_paths(work, repo, removed, q);
    }
    assert forall|p: Seq<u8>|
        untouched_by(repo, current, p) && untouched_by(repo, wanted, p) implies #[trigger] same_at(
        after,
        work,
        p,
    ) by {
        assert forall|x: int| 0 <= x < added.len() implies join(
            repo,
            (#[trigger] added[x]).path,
        ) != p by {
            let j = lemma_difference_member(added, wanted, current, x);
            assert(join(repo, wanted[j].path) != p);
        }
        lemma_with_files_miss(mid, repo, added, p);
        assert forall|r: int| 0 <= r < removed.len() implies join(
            repo,
            #[trigger] removed[r],
        ) != p by {
            lemma_removed(plan, repo, id, opts, wanted, current, r);
            let d = choose|d: int|
                0 <= d < current.len() && (#[trigger] current[d]).path == removed[r] && !listed(
                    wanted,
                    current[d],
                );
            assert(join(repo, current[d].path) != p);
        }
        lemma_without_paths(work, repo, removed, p);
    }
}

/// A path is deleted only for a file that the snapshot does not have.
pub proof fn lemma_removed(
    plan: ExtractPlan,
    repo: Seq<u8>,
    id: SnapshotName,
    opts: Switches,
    wanted: Seq<FileInfo>,
    current: Seq<FileInfo>,
    r: int,
)
    requires
        is_plan(plan, repo, id, opts, wanted, Some(current)),
        0 <= r < plan.removed_paths@.len(),
    ensures
        exists|d: int|
            0 <= d < current.len() && (#[trigger] current[d]).path == byte_strings(
                plan.removed_paths@,
            )[r] && !listed(wanted, current[d]),
{
    let dropped = files(plan.dropped@);
    let removed = byte_strings(plan.removed_paths@);
    assert(removed.contains(removed[r]));
    assert(has_path(dropped, removed[r]));
    let x = choose|x: int| 0 <= x < dropped.len() && (#[trigger] dropped[x]).path == removed[r];
    let d = lemma_difference_member(dropped, current, wanted, x);
    assert(current[d].path == removed[r]);
}

/// A file that is in place already is not deleted: only files that the snapshot
/// does not have are.
pub proof fn lemma_kept_is_not_removed(
    plan: ExtractPlan,
    repo: Seq<u8>,
    id: SnapshotName,
    opts: Switches,
    wanted: Seq<FileInfo>,
    current: Seq<FileInfo>,
    i: int,
)
    requires
        is_plan(plan, repo, id, opts, wanted, Some(current)),
        consistent_paths(current),
        relative_paths(wanted),
        relative_paths(current),
        0 <= i < wanted.len(),
        listed(current, wanted[i]),
    ensures
        forall|r: int|
            0 <= r < plan.removed_paths@.len() ==> join(
                repo,
                #[trigger] byte_strings(plan.removed_paths@)[r],
            ) != join(repo, wanted[i].path),
{
    let removed = byte_strings(plan.removed_paths@);
    let c = choose|c: int| 0 <= c < current.len() && same_file(#[trigger] current[c], wanted[i]);
    assert forall|r: int| 0 <= r < removed.len() implies join(repo, #[trigger] removed[r]) != join(
        repo,
        wanted[i].path,
    ) by {
        if join(repo, removed[r]) == join(repo, wanted[i].path) {
            lemma_removed(plan, repo, id, opts, wanted, current, r);
            let d = choose|d: int|
                0 <= d < current.len() && (#[trigger] current[d]).path == removed[r] && !listed(
                    wanted,
                    current[d],
                );
            assert(is_relative(current[d].path));
            lemma_join_injective(repo, removed[r], wanted[i].path);
            assert(current[c].path == current[d].path);
            assert(same_file(wanted[i], current[d]));
        }
    }
}

/// An extraction that does not take the files in place into account puts all
/// files of the snapshot in place and leaves all others as they were.
pub proof fn law_extract_all_removes_nothing(
    plan: ExtractPlan,
    repo: Seq<u8>,
    id: SnapshotName,
    opts: Switches,
    wanted: Seq<FileInfo>,
    store: StoredFiles,
    work: WorkFiles,
)
    requires
        is_plan(plan, repo, id, opts, wanted, None),
        consistent_paths(wanted),
        relative_paths(wanted),
        id.pack is Unpacked ==> holds_objects(store, repo, files(plan.added@)),
    ensures
        ({
            let after = after_steps(store, work, steps(plan.steps@));
            &&& in_place(after, repo, wanted)
            &&& forall|p: Seq<u8>|
                untouched_by(repo, wanted, p) ==> #[trigger] same_at(after, work, p)
        }),
{
    let added = files(plan.added@);
    let updated = byte_strings(plan.updated_paths@);
    let removed = byte_strings(plan.removed_paths@);
    lemma_after_extract(store, work, repo, id, opts, added, updated, removed);
    if removed.len() > 0 {
        assert(removed.contains(removed[0]));
    }
    let after = with_files(work, repo, added);
    assert forall|i: int| 0 <= i < wanted.len() implies {
        &&& after.contains_key(join(repo, (#[trigger] wanted[i]).path))
        &&& after[join(repo, wanted[i].path)] == wanted[i].object.checksum
    } by {
        lemma_with_files_hit(work, repo, added, i);
    }
    assert forall|p: Seq<u8>| untouched_by(repo, wanted, p) implies #[trigger] same_at(
        after,
        work,
        p,
    ) by {
        lemma_with_files_miss(work, repo, added, p);
    }
}

/// Without force, the removal of paths is a check before each deletion.
pub proof fn lemma_removal_steps(repo: Seq<u8>, paths: Seq<Seq<u8>>)
    ensures
        removal_steps(repo, paths, false).len() == 2 * paths.len(),
        forall|i: int|
            0 <= i < paths.len() ==> {
                &&& removal_steps(repo, paths, false)[2 * i] == Step::Check(
                    join(repo, #[trigger] paths[i]),
                )
                &&& removal_steps(repo, paths, false)[2 * i + 1] == Step::Delete(
                    join(repo, paths[i]),
                )
            },
    decreases paths.len(),
{
    if paths.len() > 0 {
        let init = paths.drop_last();
        lemma_removal_steps(repo, init);
        let all = removal_steps(repo, paths, false);
        let before = removal_steps(repo, init, false);
        assert forall|i: int| 0 <= i < paths.len() implies {
            &&& all[2 * i] == Step::Check(join(repo, #[trigger] paths[i]))
            &&& all[2 * i + 1] == Step::Delete(join(repo, paths[i]))
        } by {
            if i < init.len() {
                assert(init[i] == paths[i]);
                assert(all[2 * i] == before[2 * i]);
                assert(all[2 * i + 1] == before[2 * i + 1]);
            }
        }
    }
}

/// With force, the removal of paths is their deletion.
proof fn lemma_forced_removal_steps(repo: Seq<u8>, paths: Seq<Seq<u8>>)
    ensures
        forall|k: int|
            0 <= k < removal_steps(repo, paths, true).len() ==> #[trigger] removal_steps(
                repo,
                paths,
                true,
            )[k] is Delete,
    decreases paths.len(),
{
    if paths.len() > 0 {
        lemma_forced_removal_steps(repo, paths.drop_last());
    }
}

/// The steps that put unpacked files in place: copies, each with a file of the
/// list, and what makes the files read-only.
proof fn lemma_copy_kinds(repo: Seq<u8>, list: Seq<FileInfo>)
    ensures
        forall|k: int|
            0 <= k < copy_steps(repo, list).len() ==> is_copy_kind(
                repo,
                list,
                #[trigger] copy_steps(repo, list)[k],
            ),
    decreases list.len(),
{
    if list.len() > 0 {
        let init = list.drop_last();
        lemma_copy_kinds(repo, init);
        let all = copy_steps(repo, list);
        let before = copy_steps(repo, init);
        assert forall|k: int| 0 <= k < all.len() implies is_copy_kind(
            repo,
            list,
            #[trigger] all[k],
        ) by {
            if k < before.len() {
                assert(all[k] == before[k]);
                assert(is_copy_kind(repo, init, before[k]));
                if all[k] is Copy {
                    let i = choose|i: int|
                        0 <= i < init.len() && all[k] == copy_of(repo, #[trigger] init[i])[0];
                    assert(list[i] == init[i]);
                }
            } else {
                let n = list.len() - 1;
                assert(list[n] == list.last());
                assert(all[k] == copy_of(repo, list[n])[k - before.len()]);
            }
        }
    }
}

/// A copy of the object of a file of the list, or what makes a file read-only.
spec fn is_copy_kind(repo: Seq<u8>, list: Seq<FileInfo>, step: Step) -> bool {
    ||| step is Protect
    ||| step is Copy && exists|i: int|
        0 <= i < list.len() && step == copy_of(repo, #[trigger] list[i])[0]
}

/// What stands where in the steps of an extraction.
pub proof fn lemma_step_kinds(
    repo: Seq<u8>,
    id: SnapshotName,
    opts: Switches,
    added: Seq<FileInfo>,
    updated: Seq<Seq<u8>>,
    removed: Seq<Seq<u8>>,
    k: int,
)
    requires
        0 <= k < extract_steps(repo, id, opts, added, updated, removed).len(),
    ensures
        ({
            let all = extract_steps(repo, id, opts, added, updated, removed);
            let r = removal_steps(repo, removed, opts.force).len();
            let p = preparation_steps(repo, updated, removed, opts.force).len();
            &&& p == r + check_steps(repo, updated, opts.force).len()
            &&& p < all.len()
            &&& k < r ==> all[k] == removal_steps(repo, removed, opts.force)[k] && (
            all[k] is Check || all[k] is Delete)
            &&& r <= k < p ==> all[k] == check_steps(repo, updated, opts.force)[k - r]
                && all[k] is Check
            &&& p <= k < all.len() - 1 ==> all[k] is Copy || all[k] is Protect || all[k] is Verify
                || all[k] is Unpack
            &&& k == all.len() - 1 ==> all[k] == head_step(repo, id)
        }),
{
    lemma_copy_kinds(repo, added);
    if opts.force {
        lemma_forced_removal_steps(repo, removed);
    } else {
        lemma_removal_steps(repo, removed);
        let removals = removal_steps(repo, removed, false);
        if k < removals.len() {
            let i = k / 2;
            assert(removals[2 * i] == Step::Check(join(repo, removed[i])));
            assert(k == 2 * i || k == 2 * i + 1);
        }
    }
}

/// Unless forced, no file is deleted that was not checked just before.
pub proof fn law_deletions_are_checked(
    repo: Seq<u8>,
    id: SnapshotName,
    opts: Switches,
    added: Seq<FileInfo>,
    updated: Seq<Seq<u8>>,
    removed: Seq<Seq<u8>>,
    k: int,
)
    requires
        !opts.force,
        0 <= k < extract_steps(repo, id, opts, added, updated, removed).len(),
        extract_steps(repo, id, opts, added, updated, removed)[k] is Delete,
    ensures
        k > 0,
        extract_steps(repo, id, opts, added, updated, removed)[k - 1] == Step::Check(
            extract_steps(repo, id, opts, added, updated, removed)[k]->Delete_0,
        ),
{
    lemma_step_kinds(repo, id, opts, added, updated, removed, k);
    lemma_removal_steps(repo, removed);
    let removals = removal_steps(repo, removed, false);
    let i = k / 2;
    assert(removals[2 * i] == Step::Check(join(repo, removed[i])));
    assert(k == 2 * i || k == 2 * i + 1);
    lemma_step_kinds(repo, id, opts, added, updated, removed, k - 1);
}

/// Unless forced, every path that is overwritten was checked before the first
/// file is put in place.
pub proof fn law_overwrites_are_checked(
    repo: Seq<u8>,
    id: SnapshotName,
    opts: Switches,
    added: Seq<FileInfo>,
    updated: Seq<Seq<u8>>,
    removed: Seq<Seq<u8>>,
    path: Seq<u8>,
    m: int,
)
    requires
        !opts.force,
        updated.contains(path),
        0 <= m < extract_steps(repo, id, opts, added, updated, removed).len(),
        extract_steps(repo, id, opts, added, updated, removed)[m] is Copy || extract_steps(
            repo,
            id,
            opts,
            added,
            updated,
            removed,
        )[m] is Unpack,
    ensures
        exists|k: int|
            0 <= k < m && #[trigger] extract_steps(
                repo,
                id,
                opts,
                added,
                updated,
                removed,
            )[k] == Step::Check(join(repo, path)),
{
    let all = extract_steps(repo, id, opts, added, updated, removed);
    lemma_step_kinds(repo, id, opts, added, updated, removed, m);
    let i = choose|i: int| 0 <= i < updated.len() && updated[i] == path;
    let k = removal_steps(repo, removed, false).len() + i;
    lemma_step_kinds(repo, id, opts, added, updated, removed, k);
    assert(all[k] == Step::Check(join(repo, path)));
}

/// The extracted snapshot is recorded by the last step, and by no other.
pub proof fn law_head_is_written_last(
    repo: Seq<u8>,
    id: SnapshotName,
    opts: Switches,
    added: Seq<FileInfo>,
    updated: Seq<Seq<u8>>,
    removed: Seq<Seq<u8>>,
    k: int,
)
    requires
        0 <= k < extract_steps(repo, id, opts, added, updated, removed).len(),
    ensures
        extract_steps(repo, id, opts, added, updated, removed)[k] is WriteHead <==> k
            == extract_steps(repo, id, opts, added, updated, removed).len() - 1,
        extract_steps(repo, id, opts, added, updated, removed).last() == head_step(repo, id),
{
    lemma_step_kinds(repo, id, opts, added, updated, removed, k);
}

/// Before a check, no file is put in place: an extraction that finds a file
/// that it may not replace has written none.
pub proof fn law_checks_come_before_writes(
    repo: Seq<u8>,
    id: SnapshotName,
    opts: Switches,
    added: Seq<FileInfo>,
    updated: Seq<Seq<u8>>,
    removed: Seq<Seq<u8>>,
    k: int,
    j: int,
)
    requires
        0 <= j < k < extract_steps(repo, id, opts, added, updated, removed).len(),
        extract_steps(repo, id, opts, added, updated, removed)[k] is Check,
    ensures
        extract_steps(repo, id, opts, added, updated, removed)[j] is Check || extract_steps(
            repo,
            id,
            opts,
            added,
            updated,
            removed,
        )[j] is Delete,
{
    lemma_step_kinds(repo, id, opts, added, updated, removed, k);
    lemma_step_kinds(repo, id, opts, added, updated, removed, j);
}

/// A file that is copied to its place is one to be put in place, and is copied
/// from the file of its object.
pub proof fn law_copies_come_from_objects(
    repo: Seq<u8>,
    id: SnapshotName,
    opts: Switches,
    added: Seq<FileInfo>,
    updated: Seq<Seq<u8>>,
    removed: Seq<Seq<u8>>,
    m: int,
)
    requires
        0 <= m < extract_steps(repo, id, opts, added, updated, removed).len(),
        extract_steps(repo, id, opts, added, updated, removed)[m] is Copy,
    ensures
        exists|i: int|
            0 <= i < added.len() && extract_steps(repo, id, opts, added, updated, removed)[m] == (
            Step::Copy {
                checksum: (#[trigger] added[i]).object.checksum,
                from: loose_object_path(repo, added[i].object.checksum),
                to: join(repo, added[i].path),
            }),
{
    lemma_step_kinds(repo, id, opts, added, updated, removed, m);
    let p = preparation_steps(repo, updated, removed, opts.force).len();
    let transfer = transfer_steps(repo, id.pack, added, opts.verify);
    let i = m - p;
    assert(extract_steps(repo, id, opts, added, updated, removed)[m] == transfer[i]);
    assert(id.pack is Unpacked && i < copy_steps(repo, added).len());
    assert(transfer[i] == copy_steps(repo, added)[i]);
    lemma_copy_kinds(repo, added);
    let x = choose|x: int|
        0 <= x < added.len() && transfer[i] == copy_of(repo, #[trigger] added[x])[0];
    assert(0 <= x < added.len() && transfer[i] == copy_of(repo, added[x])[0]);
}

/// The files in place and those of the snapshot determine what an extraction
/// does.
pub proof fn law_plan_is_determined(
    a: ExtractPlan,
    b: ExtractPlan,
    repo: Seq<u8>,
    id: SnapshotName,
    opts: Switches,
    wanted: Seq<FileInfo>,
    current: Option<Seq<FileInfo>>,
)
    requires
        is_plan(a, repo, id, opts, wanted, current),
        is_plan(b, repo, id, opts, wanted, current),
    ensures
        steps(a.steps@) == steps(b.steps@),
{
    match current {
        Some(current) => {
            law_difference_is_determined(files(a.added@), files(b.added@), wanted, current);
            law_difference_is_determined(files(a.dropped@), files(b.dropped@), current, wanted);
        },
        None => {
            assert(files(a.dropped@) =~= files(b.dropped@));
        },
    }
    let added = files(a.added@);
    let dropped = files(a.dropped@);
    let updated = byte_strings(a.updated_paths@);
    let removed = byte_strings(a.removed_paths@);
    assert forall|p: Seq<u8>| #[trigger]
        updated.contains(p) <==> byte_strings(b.updated_paths@).contains(p) by {
        assert(byte_strings(b.updated_paths@).contains(p) <==> has_path(added, p) && has_path(
            dropped,
            p,
        ));
    }
    assert forall|p: Seq<u8>| #[trigger]
        removed.contains(p) <==> byte_strings(b.removed_paths@).contains(p) by {
        assert(byte_strings(b.removed_paths@).contains(p) <==> has_path(dropped, p) && !has_path(
            added,
            p,
        ));
    }
    lemma_increasing_unique(updated, byte_strings(b.updated_paths@));
    lemma_increasing_unique(removed, byte_strings(b.removed_paths@));
}

/// With force, nothing is checked.
pub proof fn law_force_checks_nothing(
    repo: Seq<u8>,
    id: SnapshotName,
    opts: Switches,
    added: Seq<FileInfo>,
    updated: Seq<Seq<u8>>,
    removed: Seq<Seq<u8>>,
    k: int,
)
    requires
        opts.force,
        0 <= k < extract_steps(repo, id, opts, added, updated, removed).len(),
    ensures
        !(extract_steps(repo, id, opts, added, updated, removed)[k] is Check),
{
    lemma_step_kinds(repo, id, opts, added, updated, removed, k);
    lemma_forced_removal_steps(repo, removed);
}

} // verus!
