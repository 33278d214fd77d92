//! Which files an extraction leaves read-only.
//!
//! A file that was put in place is read-only, so a file that is not was
//! changed by someone else. This is what the checks of the next extraction
//! rely on.

use vstd::prelude::*;

use crate::diff::{listed, same_file};
use crate::extract::{
    check_steps, copy_of, copy_steps, extract_steps, has_path, is_plan, removal_of, removal_steps,
    steps, transfer_steps, ExtractPlan, Step,
};
use crate::extract_laws::{
    consistent_paths, law_checks_come_before_writes, law_force_checks_nothing,
    lemma_difference_has, lemma_difference_member, lemma_join_injective,
    lemma_kept_is_not_removed, lemma_removal_steps, lemma_step_kinds, relative_paths,
    untouched_by,
};
use crate::options::Switches;
use crate::order::{bytes_before, lemma_bytes_before_irreflexive};
use crate::pack::SnapshotName;
use crate::packidx::{files, FileInfo};
use crate::path::{byte_strings, is_relative, join};
use crate::run::{step_result, Outcome};

verus! {

/// The paths of files that are known to be read-only.
pub type ReadOnly = Set<Seq<u8>>;

/// The files known to be read-only after a step. Of the files of a pack, the
/// step alone does not tell.
pub open spec fn read_only_after_step(ro: ReadOnly, step: Step) -> ReadOnly {
    match step {
        Step::Delete(p) => ro.remove(p),
        Step::Copy { to, .. } => ro.remove(to),
        Step::Protect(p) => ro.insert(p),
        Step::Unpack { files, dest, .. } => ro.filter(|p: Seq<u8>| untouched_by(dest, files, p)),
        Step::Check(_) | Step::Verify { .. } | Step::WriteHead { .. } => ro,
    }
}

/// The files known to be read-only after some steps.
pub open spec fn read_only_after(ro: ReadOnly, list: Seq<Step>) -> ReadOnly
    decreases list.len(),
{
    if list.len() == 0 {
        ro
    } else {
        read_only_after_step(read_only_after(ro, list.drop_last()), list.last())
    }
}

/// The files of the list are read-only.
pub open spec fn all_read_only(ro: ReadOnly, repo: Seq<u8>, list: Seq<FileInfo>) -> bool {
    forall|i: int| 0 <= i < list.len() ==> ro.contains(join(repo, (#[trigger] list[i]).path))
}

proof fn lemma_read_only_add(ro: ReadOnly, a: Seq<Step>, b: Seq<Step>)
    ensures
        read_only_after(ro, a + b) == read_only_after(read_only_after(ro, a), b),
    decreases b.len(),
{
    if b.len() == 0 {
        assert(a + b =~= a);
    } else {
        assert((a + b).drop_last() =~= a + b.drop_last());
        lemma_read_only_add(ro, a, b.drop_last());
    }
}

/// Checks, and deletions of other files, leave a file read-only.
proof fn lemma_stays_read_only(ro: ReadOnly, list: Seq<Step>, p: Seq<u8>)
    requires
        ro.contains(p),
        forall|k: int|
            0 <= k < list.len() ==> (#[trigger] list[k]) is Check || list[k] is Delete
                && list[k]->Delete_0 != p,
    ensures
        read_only_after(ro, list).contains(p),
    decreases list.len(),
{
    if list.len() > 0 {
        let init = list.drop_last();
        assert forall|k: int| 0 <= k < init.len() implies (#[trigger] init[k]) is Check
            || init[k] is Delete && init[k]->Delete_0 != p by {
            assert(init[k] == list[k]);
        }
        lemma_stays_read_only(ro, init, p);
        assert(list[list.len() - 1] == list.last());
    }
}

/// The removal of other paths leaves a file read-only.
proof fn lemma_removals_keep(
    ro: ReadOnly,
    repo: Seq<u8>,
    paths: Seq<Seq<u8>>,
    force: bool,
    p: Seq<u8>,
)
    requires
        ro.contains(p),
        forall|r: int| 0 <= r < paths.len() ==> join(repo, #[trigger] paths[r]) != p,
    ensures
        read_only_after(ro, removal_steps(repo, paths, force)).contains(p),
    decreases paths.len(),
{
    if paths.len() > 0 {
        let init = paths.drop_last();
        assert forall|r: int| 0 <= r < init.len() implies join(repo, #[trigger] init[r]) != p by {
            assert(init[r] == paths[r]);
        }
        lemma_removals_keep(ro, repo, init, force, p);
        let last = removal_of(repo, paths.last(), force);
        lemma_read_only_add(ro, removal_steps(repo, init, force), last);
        assert(join(repo, paths[paths.len() - 1]) != p);
        lemma_stays_read_only(read_only_after(ro, removal_steps(repo, init, force)), last, p);
    }
}

/// After files were copied to their places, these are read-only, and what was
/// read-only before still is.
proof fn lemma_copies_are_read_only(
    ro: ReadOnly,
    repo: Seq<u8>,
    list: Seq<FileInfo>,
    p: Seq<u8>,
)
    requires
        ro.contains(p) || !untouched_by(repo, list, p),
    ensures
        read_only_after(ro, copy_steps(repo, list)).contains(p),
    decreases list.len(),
{
    if list.len() > 0 {
        let init = list.drop_last();
        let last = copy_of(repo, list.last());
        let q = join(repo, list.last().path);
        lemma_read_only_add(ro, copy_steps(repo, init), last);
        assert(last.drop_last() =~= seq![last[0]]);
        assert(last.drop_last().drop_last() =~= Seq::<Step>::empty());
        reveal_with_fuel(read_only_after, 3);
        if q != p {
            if !ro.contains(p) {
                let i = choose|i: int|
                    0 <= i < list.len() && join(repo, (#[trigger] list[i]).path) == p;
                assert(list[list.len() - 1] == list.last());
                assert(init[i] == list[i]);
            }
            lemma_copies_are_read_only(ro, repo, init, p);
        }
    }
}

/// The steps of an extraction of unpacked files leave a path read-only, if it
/// is one of the files put in place, or was read-only and is not deleted.
proof fn lemma_extract_leaves_read_only(
    ro: ReadOnly,
    repo: Seq<u8>,
    id: SnapshotName,
    opts: Switches,
    added: Seq<FileInfo>,
    updated: Seq<Seq<u8>>,
    removed: Seq<Seq<u8>>,
    p: Seq<u8>,
)
    requires
        id.pack is Unpacked,
        !untouched_by(repo, added, p) || ro.contains(p) && forall|r: int|
            0 <= r < removed.len() ==> join(repo, #[trigger] removed[r]) != p,
    ensures
        read_only_after(ro, extract_steps(repo, id, opts, added, updated, removed)).contains(p),
{
    let removals = removal_steps(repo, removed, opts.force);
    let checks = check_steps(repo, updated, opts.force);
    let copies = copy_steps(repo, added);
    let transfer = transfer_steps(repo, id.pack, added, opts.verify);
    let all = extract_steps(repo, id, opts, added, updated, removed);
    assert(all.drop_last() =~= (removals + checks) + transfer);
    lemma_read_only_add(ro, removals + checks, transfer);
    lemma_read_only_add(ro, removals, checks);
    let mid = read_only_after(ro, removals + checks);
    if untouched_by(repo, added, p) {
        lemma_removals_keep(ro, repo, removed, opts.force, p);
        lemma_stays_read_only(read_only_after(ro, removals), checks, p);
    }
    lemma_copies_are_read_only(mid, repo, added, p);
    if opts.verify {
        assert(transfer.drop_last() =~= copies);
    } else {
        assert(transfer == copies);
    }
}

/// After an extraction of unpacked files, all files of the snapshot are
/// read-only: each was made so when it was put in place, by this extraction or,
/// if those of the extracted snapshot were read-only, by an earlier one.
pub proof fn law_extracted_files_are_read_only(
    plan: ExtractPlan,
    repo: Seq<u8>,
    id: SnapshotName,
    opts: Switches,
    wanted: Seq<FileInfo>,
    current: Option<Seq<FileInfo>>,
    ro: ReadOnly,
)
    requires
        id.pack is Unpacked,
        is_plan(plan, repo, id, opts, wanted, current),
        current matches Some(current) ==> consistent_paths(current) && relative_paths(current)
            && relative_paths(wanted) && all_read_only(ro, repo, current),
    ensures
        all_read_only(read_only_after(ro, steps(plan.steps@)), repo, files(plan.added@)),
        all_read_only(read_only_after(ro, steps(plan.steps@)), repo, wanted),
{
    let added = files(plan.added@);
    let updated = byte_strings(plan.updated_paths@);
    let removed = byte_strings(plan.removed_paths@);
    let after = read_only_after(ro, steps(plan.steps@));
    assert forall|x: int| 0 <= x < added.len() implies after.contains(
        join(repo, (#[trigger] added[x]).path),
    ) by {
        let p = join(repo, added[x].path);
        assert(!untouched_by(repo, added, p));
        lemma_extract_leaves_read_only(ro, repo, id, opts, added, updated, removed, p);
    }
    assert forall|i: int| 0 <= i < wanted.len() implies after.contains(
        join(repo, (#[trigger] wanted[i]).path),
    ) by {
        let p = join(repo, wanted[i].path);
        match current {
            None => {
                assert(added[i] == wanted[i]);
            },
            Some(current) => {
                if listed(current, wanted[i]) {
                    lemma_kept_is_not_removed(plan, repo, id, opts, wanted, current, i);
                    let c = choose|c: int|
                        0 <= c < current.len() && same_file(#[trigger] current[c], wanted[i]);
                    assert(ro.contains(join(repo, current[c].path)));
                    lemma_extract_leaves_read_only(
                        ro,
                        repo,
                        id,
                        opts,
                        added,
                        updated,
                        removed,
                        p,
                    );
                } else {
                    let x = lemma_difference_has(added, wanted, current, i);
                    assert(added[x].path == wanted[i].path);
                }
            },
        }
    }
}

/// The path that a step checks is that of a file in place, and no earlier step
/// deletes it.
proof fn lemma_checked_path(
    plan: ExtractPlan,
    repo: Seq<u8>,
    id: SnapshotName,
    opts: Switches,
    wanted: Seq<FileInfo>,
    current: Seq<FileInfo>,
    k: int,
)
    requires
        is_plan(plan, repo, id, opts, wanted, Some(current)),
        relative_paths(current),
        0 <= k < plan.steps@.len(),
        steps(plan.steps@)[k] is Check,
    ensures
        exists|c: int|
            0 <= c < current.len() && join(repo, (#[trigger] current[c]).path) == steps(
                plan.steps@,
            )[k]->Check_0,
        forall|j: int|
            0 <= j < k ==> (#[trigger] steps(plan.steps@)[j]) is Check || steps(
                plan.steps@,
            )[j] is Delete && steps(plan.steps@)[j]->Delete_0 != steps(plan.steps@)[k]->Check_0,
{
    let all = steps(plan.steps@);
    let added = files(plan.added@);
    let dropped = files(plan.dropped@);
    let updated = byte_strings(plan.updated_paths@);
    let removed = byte_strings(plan.removed_paths@);
    if opts.force {
        law_force_checks_nothing(repo, id, opts, added, updated, removed, k);
    }
    lemma_step_kinds(repo, id, opts, added, updated, removed, k);
    lemma_removal_steps(repo, removed);
    let removals = removal_steps(repo, removed, false);
    let n = removals.len() as int;
    assert(n == 2 * removed.len());
    // The checked path is one to be removed, or one to be overwritten.
    let i = if k < n {
        k / 2
    } else {
        k - n
    };
    let path = if k < n {
        removed[i]
    } else {
        updated[i]
    };
    if k < n {
        assert(removals[2 * i] == Step::Check(join(repo, removed[i])));
        assert(k == 2 * i || k == 2 * i + 1);
        assert(removed.contains(path));
    } else {
        assert(updated.contains(path));
    }
    assert(all[k] == Step::Check(join(repo, path)));
    assert(has_path(dropped, path));
    let x = choose|x: int| 0 <= x < dropped.len() && (#[trigger] dropped[x]).path == path;
    let c = lemma_difference_member(dropped, current, wanted, x);
    assert(join(repo, current[c].path) == all[k]->Check_0);
    assert(is_relative(path));
    assert forall|j: int| 0 <= j < k implies (#[trigger] all[j]) is Check || all[j] is Delete
        && all[j]->Delete_0 != all[k]->Check_0 by {
        law_checks_come_before_writes(repo, id, opts, added, updated, removed, k, j);
        lemma_step_kinds(repo, id, opts, added, updated, removed, j);
        if all[j] is Delete {
            let r = j / 2;
            assert(removals[2 * r] == Step::Check(join(repo, removed[r])));
            assert(j == 2 * r || j == 2 * r + 1);
            assert(all[j] == Step::Delete(join(repo, removed[r])));
            assert(removed.contains(removed[r]));
            assert(has_path(dropped, removed[r]));
            let y = choose|y: int|
                0 <= y < dropped.len() && (#[trigger] dropped[y]).path == removed[r];
            let d = lemma_difference_member(dropped, current, wanted, y);
            assert(is_relative(current[d].path));
            if join(repo, removed[r]) == join(repo, path) {
                lemma_join_injective(repo, removed[r], path);
                if k < n {
                    lemma_bytes_before_irreflexive(path);
                    assert(bytes_before(removed[r], removed[i]));
                } else {
                    assert(!has_path(added, removed[r]));
                    assert(has_path(added, path));
                }
            }
        }
    }
}

/// Where the files of the extracted snapshot are read-only, the checks of an
/// extraction succeed: each path that is checked is read-only when its turn
/// comes.
pub proof fn law_unchanged_files_pass_the_checks(
    plan: ExtractPlan,
    repo: Seq<u8>,
    id: SnapshotName,
    opts: Switches,
    wanted: Seq<FileInfo>,
    current: Seq<FileInfo>,
    ro: ReadOnly,
    k: int,
)
    requires
        is_plan(plan, repo, id, opts, wanted, Some(current)),
        relative_paths(current),
        all_read_only(ro, repo, current),
        0 <= k < plan.steps@.len(),
        steps(plan.steps@)[k] is Check,
    ensures
        ({
            let step = steps(plan.steps@)[k];
            let before = read_only_after(ro, steps(plan.steps@).take(k));
            &&& before.contains(step->Check_0)
            &&& step_result(step, Outcome::Checked(Some(before.contains(step->Check_0)))) is Ok
        }),
{
    let all = steps(plan.steps@);
    lemma_checked_path(plan, repo, id, opts, wanted, current, k);
    let p = all[k]->Check_0;
    let c = choose|c: int|
        0 <= c < current.len() && join(repo, (#[trigger] current[c]).path) == p;
    assert(ro.contains(join(repo, current[c].path)));
    let before = all.take(k);
    assert forall|j: int| 0 <= j < before.len() implies (#[trigger] before[j]) is Check
        || before[j] is Delete && before[j]->Delete_0 != p by {
        assert(before[j] == all[j]);
    }
    lemma_stays_read_only(ro, before, p);
}

} // verus!
