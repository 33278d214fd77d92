//! What checking out a snapshot means, step by step.

use vstd::prelude::*;

use crate::diff::{has_file, law_difference_of_files};
use crate::error::{Error, PackError};
use crate::extract::{
    check_steps, checksums, copy_of, copy_steps, has_path, head_step, is_continued, is_known,
    is_plan, is_source, removal_steps, steps, transfer_steps, ExtractNext, ExtractPlan,
    ExtractStep, HeadLookup, IndexSource, Step,
};
use crate::extract_laws::{law_copies_come_from_objects, lemma_removal_steps, lemma_step_kinds};
use crate::layout::{head_path, loose_object_path, temp_path, unpacked_index_path, utf8};
use crate::options::Switches;
use crate::order::{bytes_before, lemma_bytes_before_irreflexive};
use crate::pack::{PackName, SnapshotName};
use crate::packidx::{
    files, files_of_tag, law_files_of_a_tag, FileInfo, ObjectChecksum, SnapshotInfo,
};
use crate::path::{byte_strings, join};
use crate::repository::RepositoryState;
use crate::run::{step_result, Outcome};

verus! {

/// Some file of the list has the path.
pub open spec fn names_path(list: Seq<FileInfo>, p: Seq<u8>) -> bool {
    exists|i: int| 0 <= i < list.len() && (#[trigger] list[i]).path == p
}

/// The step checks the file at the path.
pub open spec fn checks(step: ExtractStep, p: Seq<u8>) -> bool {
    step matches ExtractStep::CheckFile(q) && q@ == p
}

/// The step deletes the file at the path.
pub open spec fn deletes(step: ExtractStep, p: Seq<u8>) -> bool {
    step matches ExtractStep::DeleteFile(q) && q@ == p
}

/// The step makes the file at the path read-only.
pub open spec fn protects(step: ExtractStep, p: Seq<u8>) -> bool {
    step matches ExtractStep::MakeReadonly(q) && q@ == p
}

/// The step copies the object of the file to the place of the file.
pub open spec fn copies(step: ExtractStep, repo: Seq<u8>, f: FileInfo) -> bool {
    &&& step matches ExtractStep::CopyObject { checksum, from, to }
    &&& checksum@ == f.object.checksum
    &&& from@ == loose_object_path(repo, f.object.checksum)
    &&& to@ == join(repo, f.path)
}

/// The number of steps for the paths that are deleted.
pub open spec fn deleting(plan: ExtractPlan, opts: Switches) -> int {
    if opts.force {
        plan.removed_paths@.len() as int
    } else {
        2 * plan.removed_paths@.len() as int
    }
}

/// The number of steps before files are put in place.
pub open spec fn preparing(plan: ExtractPlan, opts: Switches) -> int {
    if opts.force {
        deleting(plan, opts)
    } else {
        deleting(plan, opts) + plan.updated_paths@.len()
    }
}

/// Some step deletes the file at the path.
pub open spec fn some_step_deletes(plan: ExtractPlan, p: Seq<u8>) -> bool {
    exists|k: int| 0 <= k < plan.steps@.len() && deletes(#[trigger] plan.steps@[k], p)
}

proof fn lemma_forced_removals(repo: Seq<u8>, paths: Seq<Seq<u8>>)
    ensures
        removal_steps(repo, paths, true).len() == paths.len(),
        forall|i: int|
            0 <= i < paths.len() ==> removal_steps(repo, paths, true)[i] == Step::Delete(
                join(repo, #[trigger] paths[i]),
            ),
    decreases paths.len(),
{
    if paths.len() > 0 {
        let init = paths.drop_last();
        lemma_forced_removals(repo, init);
        assert forall|i: int| 0 <= i < paths.len() implies removal_steps(repo, paths, true)[i]
            == Step::Delete(join(repo, #[trigger] paths[i])) by {
            if i < init.len() {
                assert(init[i] == paths[i]);
            }
        }
    }
}

proof fn lemma_copies(repo: Seq<u8>, list: Seq<FileInfo>)
    ensures
        copy_steps(repo, list).len() == 2 * list.len(),
        forall|i: int|
            0 <= i < list.len() ==> {
                &&& copy_steps(repo, list)[2 * i] == copy_of(repo, #[trigger] list[i])[0]
                &&& copy_steps(repo, list)[2 * i + 1] == copy_of(repo, list[i])[1]
            },
    decreases list.len(),
{
    if list.len() > 0 {
        let init = list.drop_last();
        lemma_copies(repo, init);
        let all = copy_steps(repo, list);
        let before = copy_steps(repo, init);
        assert forall|i: int| 0 <= i < list.len() implies {
            &&& all[2 * i] == copy_of(repo, #[trigger] list[i])[0]
            &&& all[2 * i + 1] == copy_of(repo, list[i])[1]
        } by {
            if i < init.len() {
                assert(init[i] == list[i]);
                assert(all[2 * i] == before[2 * i]);
                assert(all[2 * i + 1] == before[2 * i + 1]);
            }
        }
    }
}

/// Where the parts of the steps stand.
#[verifier::spinoff_prover]
#[verifier::rlimit(40)]
proof fn lemma_parts(
    plan: ExtractPlan,
    repo: Seq<u8>,
    id: SnapshotName,
    opts: Switches,
    wanted: Seq<FileInfo>,
    current: Option<Seq<FileInfo>>,
)
    requires
        is_plan(plan, repo, id, opts, wanted, current),
    ensures
        ({
            let added = files(plan.added@);
            let updated = byte_strings(plan.updated_paths@);
            let removed = byte_strings(plan.removed_paths@);
            let removals = removal_steps(repo, removed, opts.force);
            let checked = check_steps(repo, updated, opts.force);
            let transfer = transfer_steps(repo, id.pack, added, opts.verify);
            let r = deleting(plan, opts);
            let p = preparing(plan, opts);
            &&& removals.len() == r
            &&& checked.len() == p - r
            &&& plan.steps@.len() == p + transfer.len() + 1
            &&& forall|k: int| 0 <= k < r ==> (#[trigger] plan.steps@[k])@ == removals[k]
            &&& forall|k: int| r <= k < p ==> (#[trigger] plan.steps@[k])@ == checked[k - r]
            &&& forall|k: int|
                p <= k < p + transfer.len() ==> (#[trigger] plan.steps@[k])@ == transfer[k - p]
        }),
{
    let updated = byte_strings(plan.updated_paths@);
    let removed = byte_strings(plan.removed_paths@);
    if opts.force {
        lemma_forced_removals(repo, removed);
    } else {
        lemma_removal_steps(repo, removed);
    }
    let all = steps(plan.steps@);
    assert(all.len() == plan.steps@.len());
    assert forall|k: int| 0 <= k < all.len() implies (#[trigger] plan.steps@[k])@ == all[k] by {}
}

/// First come the paths to be deleted, each one checked just before, unless
/// forced. Then the paths to be overwritten are checked, unless forced.
#[verifier::spinoff_prover]
#[verifier::rlimit(40)]
pub proof fn law_checks_and_deletions(
    plan: ExtractPlan,
    repo: Seq<u8>,
    id: SnapshotName,
    opts: Switches,
    wanted: Seq<FileInfo>,
    current: Option<Seq<FileInfo>>,
    i: int,
)
    requires
        is_plan(plan, repo, id, opts, wanted, current),
    ensures
        preparing(plan, opts) < plan.steps@.len(),
        opts.force && 0 <= i < plan.removed_paths@.len() ==> deletes(
            plan.steps@[i],
            join(repo, plan.removed_paths@[i]@),
        ),
        !opts.force && 0 <= i < plan.removed_paths@.len() ==> checks(
            plan.steps@[2 * i],
            join(repo, plan.removed_paths@[i]@),
        ) && deletes(plan.steps@[2 * i + 1], join(repo, plan.removed_paths@[i]@)),
        !opts.force && 0 <= i < plan.updated_paths@.len() ==> checks(
            plan.steps@[deleting(plan, opts) + i],
            join(repo, plan.updated_paths@[i]@),
        ),
{
    let updated = byte_strings(plan.updated_paths@);
    let removed = byte_strings(plan.removed_paths@);
    let list = plan.steps@;
    lemma_parts(plan, repo, id, opts, wanted, current);
    if 0 <= i < removed.len() {
        assert(removed[i] == plan.removed_paths@[i]@);
        if opts.force {
            lemma_forced_removals(repo, removed);
            assert(list[i]@ == Step::Delete(join(repo, removed[i])));
        } else {
            lemma_removal_steps(repo, removed);
            assert(list[2 * i]@ == Step::Check(join(repo, removed[i])));
            assert(list[2 * i + 1]@ == Step::Delete(join(repo, removed[i])));
        }
    }
    if !opts.force && 0 <= i < updated.len() {
        assert(updated[i] == plan.updated_paths@[i]@);
        assert(list[deleting(plan, opts) + i]@ == Step::Check(join(repo, updated[i])));
    }
}

/// The files of a pack are put in place at once, by the step before the last:
/// all of them and no others, from that pack, with verification if asked for.
#[verifier::spinoff_prover]
#[verifier::rlimit(40)]
pub proof fn law_packed_files_are_extracted(
    plan: ExtractPlan,
    repo: Seq<u8>,
    id: SnapshotName,
    opts: Switches,
    wanted: Seq<FileInfo>,
    current: Option<Seq<FileInfo>>,
    i: int,
)
    requires
        is_plan(plan, repo, id, opts, wanted, current),
        id.pack is Packed,
    ensures
        plan.steps@.len() == preparing(plan, opts) + 2,
        ({
            &&& plan.steps@[plan.steps@.len() - 2] matches ExtractStep::ExtractPacked {
                pack,
                entries,
                verify,
            }
            &&& pack.name@ == id.pack->Packed_0
            &&& pack.repo_path@ == repo
            &&& verify == opts.verify
            &&& entries@.len() == plan.added@.len()
            &&& 0 <= i < plan.added@.len() ==> entries@[i]@ == plan.added@[i]@
        }),
{
    let added = files(plan.added@);
    let transfer = transfer_steps(repo, id.pack, added, opts.verify);
    lemma_parts(plan, repo, id, opts, wanted, current);
    let step = plan.steps@[plan.steps@.len() - 2];
    assert(transfer.len() == 1);
    assert(step@ == transfer[0]);
    match step {
        ExtractStep::ExtractPacked { pack, entries, verify } => {
            assert(step@ == (Step::Unpack {
                pack: pack.name@,
                files: files(entries@),
                dest: pack.repo_path@,
                verify,
            }));
            assert(files(entries@) == added);
            assert(files(entries@).len() == entries@.len());
            if 0 <= i < added.len() {
                assert(files(entries@)[i] == entries@[i]@);
                assert(added[i] == plan.added@[i]@);
            }
        },
        _ => {
            assert(false);
        },
    }
}

/// Unpacked files are put in place one by one: each by a copy of its object,
/// which is then made read-only.
#[verifier::spinoff_prover]
#[verifier::rlimit(40)]
pub proof fn law_unpacked_files_are_copied(
    plan: ExtractPlan,
    repo: Seq<u8>,
    id: SnapshotName,
    opts: Switches,
    wanted: Seq<FileInfo>,
    current: Option<Seq<FileInfo>>,
    i: int,
)
    requires
        is_plan(plan, repo, id, opts, wanted, current),
        id.pack is Unpacked,
    ensures
        plan.steps@.len() == preparing(plan, opts) + 2 * plan.added@.len() + (if opts.verify {
            2int
        } else {
            1
        }),
        0 <= i < plan.added@.len() ==> copies(
            plan.steps@[preparing(plan, opts) + 2 * i],
            repo,
            plan.added@[i]@,
        ),
        0 <= i < plan.added@.len() ==> protects(
            plan.steps@[preparing(plan, opts) + 2 * i + 1],
            join(repo, plan.added@[i]@.path),
        ),
{
    let added = files(plan.added@);
    let p = preparing(plan, opts);
    lemma_parts(plan, repo, id, opts, wanted, current);
    lemma_copies(repo, added);
    if 0 <= i < added.len() {
        assert(added[i] == plan.added@[i]@);
        assert(plan.steps@[p + 2 * i]@ == copy_of(repo, added[i])[0]);
        assert(plan.steps@[p + 2 * i + 1]@ == copy_of(repo, added[i])[1]);
    }
}

/// The last step writes the head file, with the text of the snapshot.
pub proof fn law_head_file_of_a_plan(
    plan: ExtractPlan,
    repo: Seq<u8>,
    id: SnapshotName,
    opts: Switches,
    wanted: Seq<FileInfo>,
    current: Option<Seq<FileInfo>>,
)
    requires
        is_plan(plan, repo, id, opts, wanted, current),
    ensures
        plan.snapshot_id@ == id,
        ({
            &&& plan.steps@.last() matches ExtractStep::WriteHead(write)
            &&& write.contents@ == utf8(id.text())
            &&& write.temp_dir@ == temp_path(repo)
            &&& write.dest@ == head_path(repo)
        }),
{
    let list = plan.steps@;
    lemma_parts(plan, repo, id, opts, wanted, current);
    assert(list[list.len() - 1]@ == steps(list).last());
    assert(list.last()@ == head_step(repo, id));
}

/// With verification on, an extraction of unpacked files compares, just before
/// the head is written, what each file put in place holds with what it should:
/// the places of the files and their checksums are in the same order.
#[verifier::spinoff_prover]
#[verifier::rlimit(40)]
pub proof fn law_verified_files(
    plan: ExtractPlan,
    repo: Seq<u8>,
    id: SnapshotName,
    opts: Switches,
    wanted: Seq<FileInfo>,
    current: Option<Seq<FileInfo>>,
    i: int,
)
    requires
        is_plan(plan, repo, id, opts, wanted, current),
        id.pack is Unpacked,
        opts.verify,
    ensures
        plan.steps@.len() == preparing(plan, opts) + 2 * plan.added@.len() + 2,
        ({
            &&& plan.steps@[plan.steps@.len() - 2] matches ExtractStep::VerifyFiles {
                paths,
                expected,
            }
            &&& paths@.len() == plan.added@.len()
            &&& expected@.len() == plan.added@.len()
            &&& 0 <= i < plan.added@.len() ==> paths@[i]@ == join(repo, plan.added@[i]@.path)
            &&& 0 <= i < plan.added@.len() ==> expected@[i]@ == plan.added@[i]@.object.checksum
        }),
{
    let added = files(plan.added@);
    let transfer = transfer_steps(repo, id.pack, added, opts.verify);
    lemma_parts(plan, repo, id, opts, wanted, current);
    lemma_copies(repo, added);
    let v = plan.steps@.len() - 2;
    let step = plan.steps@[v];
    assert(step@ == transfer[v - preparing(plan, opts)]);
    assert(step@ == transfer.last());
    assert(step is VerifyFiles);
    let paths = byte_strings(step->paths@);
    let expected = checksums(step->expected@);
    assert(paths == step@->paths && expected == step@->expected);
    if 0 <= i < added.len() {
        assert(added[i] == plan.added@[i]@);
        assert(paths[i] == join(repo, added[i].path));
        assert(expected[i] == added[i].object.checksum);
    }
}

/// Which files an extraction puts in place and which paths it overwrites and
/// deletes, if files are in place already: those files of the snapshot are put
/// in place that are not there with the same contents. A path is overwritten if
/// it had other contents. It is deleted if none of the files put in place has
/// it, and it is that of a file that the snapshot does not have. No path is
/// overwritten or deleted twice, and no file is put in place twice.
#[verifier::spinoff_prover]
#[verifier::rlimit(40)]
pub proof fn law_files_of_a_plan(
    plan: ExtractPlan,
    repo: Seq<u8>,
    id: SnapshotName,
    opts: Switches,
    wanted: Seq<FileInfo>,
    current: Seq<FileInfo>,
    path: Seq<u8>,
    checksum: Seq<u8>,
    i: int,
    j: int,
)
    requires
        is_plan(plan, repo, id, opts, wanted, Some(current)),
    ensures
        ({
            let added = files(plan.added@);
            let dropped = files(plan.dropped@);
            &&& has_file(added, path, checksum) <==> has_file(wanted, path, checksum) && !has_file(
                current,
                path,
                checksum,
            )
            &&& has_file(dropped, path, checksum) <==> has_file(current, path, checksum)
                && !has_file(wanted, path, checksum)
            &&& byte_strings(plan.updated_paths@).contains(path) <==> names_path(added, path)
                && names_path(dropped, path)
            &&& byte_strings(plan.removed_paths@).contains(path) <==> names_path(dropped, path)
                && !names_path(added, path)
            &&& 0 <= i < added.len() ==> wanted.contains(plan.added@[i]@)
            &&& 0 <= i < j < added.len() ==> plan.added@[i]@.path != plan.added@[j]@.path
                || plan.added@[i]@.object.checksum != plan.added@[j]@.object.checksum
            &&& 0 <= i < j < plan.updated_paths@.len() ==> plan.updated_paths@[i]@
                != plan.updated_paths@[j]@
            &&& 0 <= i < j < plan.removed_paths@.len() ==> plan.removed_paths@[i]@
                != plan.removed_paths@[j]@
        }),
{
    let added = files(plan.added@);
    let dropped = files(plan.dropped@);
    law_difference_of_files(added, wanted, current, path, checksum, i, j);
    law_difference_of_files(dropped, current, wanted, path, checksum, 0, 0);
    if 0 <= i < added.len() {
        assert(added[i] == plan.added@[i]@);
    }
    if 0 <= j < added.len() {
        assert(added[j] == plan.added@[j]@);
    }
    lemma_names_path(added, path);
    lemma_names_path(dropped, path);
    let updated = byte_strings(plan.updated_paths@);
    let removed = byte_strings(plan.removed_paths@);
    if 0 <= i < j < updated.len() {
        assert(bytes_before(updated[i], updated[j]));
        lemma_bytes_before_irreflexive(updated[i]);
    }
    if 0 <= i < j < removed.len() {
        assert(bytes_before(removed[i], removed[j]));
        lemma_bytes_before_irreflexive(removed[i]);
    }
}

proof fn lemma_names_path(list: Seq<FileInfo>, p: Seq<u8>)
    ensures
        has_path(list, p) <==> names_path(list, p),
{
}

/// A path that the files in place have and the snapshot does not is deleted,
/// and a path that is deleted is that of a file in place that the snapshot does
/// not have, with this path and contents. If files in place with the same path
/// have the same contents, the snapshot does not have the path at all.
#[verifier::spinoff_prover]
#[verifier::rlimit(40)]
pub proof fn law_what_is_deleted(
    plan: ExtractPlan,
    repo: Seq<u8>,
    id: SnapshotName,
    opts: Switches,
    wanted: Seq<FileInfo>,
    current: Seq<FileInfo>,
    p: Seq<u8>,
    k: int,
)
    requires
        is_plan(plan, repo, id, opts, wanted, Some(current)),
    ensures
        names_path(current, p) && !names_path(wanted, p) ==> some_step_deletes(plan, join(repo, p)),
        0 <= k < plan.steps@.len() && plan.steps@[k] is DeleteFile ==> exists|d: int|
            {
                &&& 0 <= d < current.len()
                &&& deletes(plan.steps@[k], join(repo, (#[trigger] current[d]).path))
                &&& !has_file(wanted, current[d].path, current[d].object.checksum)
                &&& (forall|x: int, y: int|
                    0 <= x < current.len() && 0 <= y < current.len() && (
                    #[trigger] current[x]).path == (#[trigger] current[y]).path
                        ==> current[x].object.checksum == current[y].object.checksum)
                    ==> !names_path(wanted, current[d].path)
            },
{
    let added = files(plan.added@);
    let dropped = files(plan.dropped@);
    let removed = byte_strings(plan.removed_paths@);
    let all = plan.steps@;
    lemma_parts(plan, repo, id, opts, wanted, Some(current));
    if names_path(current, p) && !names_path(wanted, p) {
        let c = choose|c: int| 0 <= c < current.len() && (#[trigger] current[c]).path == p;
        let sum = current[c].object.checksum;
        law_files_of_a_plan(plan, repo, id, opts, wanted, current, p, sum, 0, 0);
        assert(!has_file(wanted, p, sum)) by {
            if has_file(wanted, p, sum) {
                let w = choose|w: int|
                    0 <= w < wanted.len() && (#[trigger] wanted[w]).path == p
                        && wanted[w].object.checksum == sum;
                assert(wanted[w].path == p);
            }
        }
        assert(has_file(current, p, sum));
        assert(has_file(dropped, p, sum));
        let x = choose|x: int|
            0 <= x < dropped.len() && (#[trigger] dropped[x]).path == p
                && dropped[x].object.checksum == sum;
        assert(names_path(dropped, p)) by {
            assert(dropped[x].path == p);
        }
        assert(!names_path(added, p)) by {
            if names_path(added, p) {
                let y = choose|y: int| 0 <= y < added.len() && (#[trigger] added[y]).path == p;
                law_difference_of_files(added, wanted, current, p, sum, y, y);
                let w = choose|w: int| 0 <= w < wanted.len() && wanted[w] == added[y];
                assert(wanted[w].path == p);
            }
        }
        assert(removed.contains(p));
        let i = choose|i: int| 0 <= i < removed.len() && removed[i] == p;
        law_checks_and_deletions(plan, repo, id, opts, wanted, Some(current), i);
        assert(removed[i] == plan.removed_paths@[i]@);
        if opts.force {
            assert(deletes(all[i], join(repo, p)));
        } else {
            assert(deletes(all[2 * i + 1], join(repo, p)));
        }
    }
    if 0 <= k < all.len() && all[k] is DeleteFile {
        let updated = byte_strings(plan.updated_paths@);
        lemma_step_kinds(repo, id, opts, added, updated, removed, k);
        assert(all[k]@ == steps(all)[k]);
        let r = deleting(plan, opts);
        assert(k < r);
        let i = if opts.force {
            k
        } else {
            k / 2
        };
        law_checks_and_deletions(plan, repo, id, opts, wanted, Some(current), i);
        assert(opts.force || k == 2 * i + 1) by {
            if !opts.force && k == 2 * i {
                assert(checks(all[2 * i], join(repo, plan.removed_paths@[i]@)));
            }
        }
        let q = removed[i];
        assert(removed[i] == plan.removed_paths@[i]@);
        assert(deletes(all[k], join(repo, q)));
        assert(removed.contains(q));
        law_files_of_a_plan(plan, repo, id, opts, wanted, current, q, q, 0, 0);
        let x = choose|x: int| 0 <= x < dropped.len() && (#[trigger] dropped[x]).path == q;
        let sum = dropped[x].object.checksum;
        law_difference_of_files(dropped, current, wanted, q, sum, x, x);
        assert(has_file(dropped, q, sum));
        let d = choose|d: int| 0 <= d < current.len() && current[d] == dropped[x];
        assert(current[d].path == q);
        if names_path(wanted, q) && (forall|x: int, y: int|
            0 <= x < current.len() && 0 <= y < current.len() && (#[trigger] current[x]).path == (
            #[trigger] current[y]).path ==> current[x].object.checksum
                == current[y].object.checksum) {
            let w = choose|w: int| 0 <= w < wanted.len() && (#[trigger] wanted[w]).path == q;
            let other = wanted[w].object.checksum;
            assert(has_file(wanted, q, other));
            law_difference_of_files(added, wanted, current, q, other, 0, 0);
            if has_file(current, q, other) {
                let e = choose|e: int|
                    0 <= e < current.len() && (#[trigger] current[e]).path == q
                        && current[e].object.checksum == other;
                assert(current[e].path == current[d].path);
                assert(has_file(wanted, q, sum));
            } else {
                let y = choose|y: int|
                    0 <= y < added.len() && (#[trigger] added[y]).path == q
                        && added[y].object.checksum == other;
                assert(added[y].path == q);
                assert(names_path(added, q));
            }
        }
    }
}

/// With no files taken into account, all files of the snapshot are put in place
/// in their order, and no step checks or deletes a file.
pub proof fn law_everything_is_put_in_place(
    plan: ExtractPlan,
    repo: Seq<u8>,
    id: SnapshotName,
    opts: Switches,
    wanted: Seq<FileInfo>,
    i: int,
    k: int,
)
    requires
        is_plan(plan, repo, id, opts, wanted, None),
    ensures
        plan.added@.len() == wanted.len(),
        0 <= i < wanted.len() ==> plan.added@[i]@ == wanted[i],
        plan.removed_paths@.len() == 0,
        plan.updated_paths@.len() == 0,
        0 <= k < plan.steps@.len() ==> !(plan.steps@[k] is DeleteFile) && !(
        plan.steps@[k] is CheckFile),
{
    let added = files(plan.added@);
    let updated = byte_strings(plan.updated_paths@);
    let removed = byte_strings(plan.removed_paths@);
    if 0 <= i < wanted.len() {
        assert(added[i] == plan.added@[i]@);
    }
    assert(files(plan.dropped@).len() == 0);
    if removed.len() > 0 {
        assert(removed.contains(removed[0]));
    }
    if updated.len() > 0 {
        assert(updated.contains(updated[0]));
    }
    if 0 <= k < plan.steps@.len() {
        lemma_parts(plan, repo, id, opts, wanted, None);
        lemma_step_kinds(repo, id, opts, added, updated, removed, k);
        assert(plan.steps@[k]@ == steps(plan.steps@)[k]);
    }
}

/// Every step that copies a file copies one of the snapshot, and one that is not
/// in place with the same contents.
#[verifier::spinoff_prover]
#[verifier::rlimit(40)]
pub proof fn law_what_is_copied(
    plan: ExtractPlan,
    repo: Seq<u8>,
    id: SnapshotName,
    opts: Switches,
    wanted: Seq<FileInfo>,
    current: Option<Seq<FileInfo>>,
    k: int,
)
    requires
        is_plan(plan, repo, id, opts, wanted, current),
        0 <= k < plan.steps@.len(),
        plan.steps@[k] is CopyObject,
    ensures
        id.pack is Unpacked,
        exists|i: int|
            0 <= i < wanted.len() && copies(plan.steps@[k], repo, #[trigger] wanted[i]) && (
            current matches Some(current) ==> !has_file(
                current,
                wanted[i].path,
                wanted[i].object.checksum,
            )),
{
    let added = files(plan.added@);
    let updated = byte_strings(plan.updated_paths@);
    let removed = byte_strings(plan.removed_paths@);
    let all = plan.steps@;
    assert(all[k]@ == steps(all)[k]);
    law_copies_come_from_objects(
        repo,
        id,
        opts,
        added,
        updated,
        removed,
        k,
    );
    lemma_step_kinds(repo, id, opts, added, updated, removed, k);
    lemma_parts(plan, repo, id, opts, wanted, current);
    assert(id.pack is Unpacked);
    let x = choose|x: int|
        0 <= x < added.len() && steps(all)[k] == (Step::Copy {
            checksum: (#[trigger] added[x]).object.checksum,
            from: loose_object_path(repo, added[x].object.checksum),
            to: join(repo, added[x].path),
        });
    match current {
        Some(current) => {
            let f = added[x];
            law_difference_of_files(
                added,
                wanted,
                current,
                f.path,
                f.object.checksum,
                x,
                x,
            );
            assert(has_file(added, f.path, f.object.checksum));
            let i = choose|i: int| 0 <= i < wanted.len() && wanted[i] == f;
            assert(copies(all[k], repo, wanted[i]));
        },
        None => {
            assert(copies(all[k], repo, wanted[x]));
        },
    }
}

/// The verification of extracted files succeeds exactly if each file that was
/// put in place holds the contents of its object, where the checksums that were
/// computed are those of the files that the step names.
#[verifier::spinoff_prover]
#[verifier::rlimit(40)]
pub proof fn law_verification_finds_wrong_files(
    plan: ExtractPlan,
    repo: Seq<u8>,
    id: SnapshotName,
    opts: Switches,
    wanted: Seq<FileInfo>,
    current: Option<Seq<FileInfo>>,
    contents: Map<Seq<u8>, Seq<u8>>,
    actual: Vec<ObjectChecksum>,
)
    requires
        is_plan(plan, repo, id, opts, wanted, current),
        id.pack is Unpacked,
        opts.verify,
        plan.steps@[plan.steps@.len() - 2] matches ExtractStep::VerifyFiles { paths, .. } ==> {
            &&& actual@.len() == paths@.len()
            &&& forall|k: int|
                0 <= k < paths@.len() ==> (#[trigger] actual@[k])@ == contents[paths@[k]@]
        },
    ensures
        plan.steps@.len() >= 2,
        plan.steps@[plan.steps@.len() - 2] is VerifyFiles,
        step_result(
            plan.steps@[plan.steps@.len() - 2]@,
            Outcome::Checksums(Ok(actual)),
        ) is Ok <==> forall|x: int|
            0 <= x < plan.added@.len() ==> contents[join(
                repo,
                (#[trigger] plan.added@[x])@.path,
            )] == plan.added@[x]@.object.checksum,
{
    let n = plan.added@.len() as int;
    let v = plan.steps@.len() - 2;
    law_verified_files(plan, repo, id, opts, wanted, current, 0);
    let step = plan.steps@[v];
    let paths = step->paths;
    let expected = step->expected;
    let outcome = Outcome::Checksums(Ok(actual));
    let a = checksums(expected@);
    let b = checksums(actual@);
    assert(a.len() == n && b.len() == n);
    assert forall|x: int| 0 <= x < n implies {
        &&& (#[trigger] a[x]) == plan.added@[x]@.object.checksum
        &&& b[x] == contents[join(repo, plan.added@[x]@.path)]
    } by {
        law_verified_files(plan, repo, id, opts, wanted, current, x);
        assert(actual@[x]@ == contents[paths@[x]@]);
    }
    if step_result(step@, outcome) is Ok {
        assert forall|x: int| 0 <= x < n implies contents[join(
            repo,
            (#[trigger] plan.added@[x])@.path,
        )] == plan.added@[x]@.object.checksum by {
            assert(a[x] == b[x]);
        }
    }
    if forall|x: int|
        0 <= x < plan.added@.len() ==> contents[join(repo, (#[trigger] plan.added@[x])@.path)]
            == plan.added@[x]@.object.checksum {
        assert forall|x: int| 0 <= x < a.len() && x < b.len() implies #[trigger] a[x] == b[x] by {
            assert(contents[join(repo, plan.added@[x]@.path)]
                == plan.added@[x]@.object.checksum);
        }
    }
}

/// Snapshot `i` of the index is the first one with the tag.
pub open spec fn is_first_with(index: Seq<SnapshotInfo>, tag: Seq<char>, i: int) -> bool {
    &&& 0 <= i < index.len()
    &&& index[i].tag == tag
    &&& forall|j: int| 0 <= j < i ==> (#[trigger] index[j]).tag != tag
}

/// Some snapshot of the index has the tag.
pub open spec fn tag_occurs(index: Seq<SnapshotInfo>, tag: Seq<char>) -> bool {
    exists|i: int| 0 <= i < index.len() && (#[trigger] index[i]).tag == tag
}

proof fn lemma_first_with(index: Seq<SnapshotInfo>, tag: Seq<char>) -> (i: int)
    requires
        tag_occurs(index, tag),
    ensures
        is_first_with(index, tag, i),
    decreases index.len(),
{
    let init = index.drop_last();
    if tag_occurs(init, tag) {
        let i = lemma_first_with(init, tag);
        assert forall|j: int| 0 <= j < i implies (#[trigger] index[j]).tag != tag by {
            assert(init[j].tag != tag);
        }
        i
    } else {
        let i = choose|i: int| 0 <= i < index.len() && (#[trigger] index[i]).tag == tag;
        assert(i == index.len() - 1) by {
            if i < init.len() {
                assert(init[i].tag == tag);
            }
        }
        assert forall|j: int| 0 <= j < i implies (#[trigger] index[j]).tag != tag by {
            assert(init[j].tag != tag);
        }
        i
    }
}

/// Unless reset, an extraction from a repository with an extracted snapshot
/// takes the files of that snapshot into account, whichever packs the two are
/// in. If they are in the same pack, the plan is made from the files of both,
/// and every path that only the extracted snapshot has is deleted. If not, the
/// index of the other pack is asked for. It fails exactly if a snapshot is not
/// in the index of its pack, or the pack of the extracted one is not known.
#[verifier::spinoff_prover]
#[verifier::rlimit(40)]
pub proof fn law_extracted_snapshot_counts(
    r: Result<ExtractNext, Error>,
    repo: RepositoryState,
    id: SnapshotName,
    opts: Switches,
    index: Seq<SnapshotInfo>,
    p: Seq<u8>,
)
    requires
        is_continued(r, repo, id, opts, index),
        !opts.reset,
        repo.head is Some,
    ensures
        ({
            let head = repo.head->0;
            let same_pack = head.pack == id.pack;
            let known = match head.pack {
                PackName::Unpacked => true,
                PackName::Packed(_) => exists|t: Seq<char>| #[trigger]
                    repo.packs.contains_key(t) && repo.packs[t].contains(head.pack),
            };
            if !tag_occurs(index, id.tag) || same_pack && !tag_occurs(index, head.tag) {
                r == Err::<ExtractNext, Error>(Error::PackError(PackError::SnapshotNotFound))
            } else if !same_pack && !known {
                r == Err::<ExtractNext, Error>(Error::PackNotFound)
            } else if !same_pack {
                &&& r matches Ok(ExtractNext::ReadHead(lookup))
                &&& lookup.snapshot_id@ == id
                &&& lookup.opts@ == opts
                &&& lookup.head@ == head
                &&& exists|w: int| #[trigger]
                    is_first_with(index, id.tag, w) && files(lookup.wanted@) == index[w].files
                &&& match head.pack {
                    PackName::Packed(name) => lookup.source matches IndexSource::Pack(file)
                        && file.name@ == name && file.repo_path@ == repo.path,
                    PackName::Unpacked => lookup.source matches IndexSource::Unpacked(path)
                        && path@ == unpacked_index_path(repo.path),
                }
            } else {
                &&& r matches Ok(ExtractNext::Run(plan))
                &&& exists|w: int, h: int|
                    {
                        &&& #[trigger] is_first_with(index, id.tag, w)
                        &&& #[trigger] is_first_with(index, head.tag, h)
                        &&& is_plan(
                            plan,
                            repo.path,
                            id,
                            opts,
                            index[w].files,
                            Some(index[h].files),
                        )
                        &&& names_path(index[h].files, p) && !names_path(index[w].files, p)
                            ==> some_step_deletes(plan, join(repo.path, p))
                    }
            }
        }),
{
    let head = repo.head->0;
    law_files_of_a_tag(index, id.tag, 0);
    law_files_of_a_tag(index, head.tag, 0);
    if tag_occurs(index, id.tag) {
        let w = lemma_first_with(index, id.tag);
        law_files_of_a_tag(index, id.tag, w);
        assert(files_of_tag(index, id.tag) == index[w].files);
        if head.pack == id.pack && tag_occurs(index, head.tag) {
            let h = lemma_first_with(index, head.tag);
            law_files_of_a_tag(index, head.tag, h);
            assert(files_of_tag(index, head.tag) == index[h].files);
            let plan = r->Ok_0->Run_0;
            law_what_is_deleted(
                plan,
                repo.path,
                id,
                opts,
                index[w].files,
                index[h].files,
                p,
                0,
            );
            assert(is_first_with(index, id.tag, w) && is_first_with(index, head.tag, h));
        }
    }
}

/// With reset, or if nothing has been extracted yet, all files of the snapshot
/// are put in place and none is deleted. It fails exactly if the index does not
/// have the snapshot.
pub proof fn law_without_extracted_snapshot(
    r: Result<ExtractNext, Error>,
    repo: RepositoryState,
    id: SnapshotName,
    opts: Switches,
    index: Seq<SnapshotInfo>,
    k: int,
)
    requires
        is_continued(r, repo, id, opts, index),
        opts.reset || repo.head is None,
    ensures
        if !tag_occurs(index, id.tag) {
            r == Err::<ExtractNext, Error>(Error::PackError(PackError::SnapshotNotFound))
        } else {
            &&& r matches Ok(ExtractNext::Run(plan))
            &&& exists|w: int| #[trigger]
                is_first_with(index, id.tag, w) && files(plan.added@) == index[w].files && is_plan(
                    plan,
                    repo.path,
                    id,
                    opts,
                    index[w].files,
                    None,
                )
            &&& 0 <= k < plan.steps@.len() ==> !(plan.steps@[k] is DeleteFile)
        },
{
    law_files_of_a_tag(index, id.tag, 0);
    if tag_occurs(index, id.tag) {
        let w = lemma_first_with(index, id.tag);
        law_files_of_a_tag(index, id.tag, w);
        assert(files_of_tag(index, id.tag) == index[w].files);
        let plan = r->Ok_0->Run_0;
        law_everything_is_put_in_place(plan, repo.path, id, opts, index[w].files, 0, k);
        assert(is_first_with(index, id.tag, w));
    }
}

/// The index of a pack is looked for in the pack, if some tag has the pack; that
/// of the unpacked objects is looked for in its file. Other packs are not known.
pub proof fn law_where_indexes_are(repo: RepositoryState, source: IndexSource, name: Seq<char>)
    ensures
        is_known(repo, PackName::Unpacked),
        is_known(repo, PackName::Packed(name)) <==> exists|t: Seq<char>| #[trigger]
            repo.packs.contains_key(t) && repo.packs[t].contains(PackName::Packed(name)),
        is_source(source, repo.path, PackName::Packed(name)) <==> (
        source matches IndexSource::Pack(file) && file.name@ == name && file.repo_path@
            == repo.path),
        is_source(source, repo.path, PackName::Unpacked) <==> (
        source matches IndexSource::Unpacked(path) && path@ == unpacked_index_path(repo.path)),
{
}

/// An extraction that had to ask for the index of another pack ends in a plan
/// that deletes every path that the extracted snapshot has in that index and
/// the new snapshot has not.
pub proof fn law_extracted_snapshot_in_another_pack_counts(
    lookup: HeadLookup,
    repo: RepositoryState,
    id: SnapshotName,
    opts: Switches,
    index: Seq<SnapshotInfo>,
    head_index: Seq<SnapshotInfo>,
    plan: ExtractPlan,
    w: int,
    h: int,
    p: Seq<u8>,
)
    requires
        is_continued(Ok(ExtractNext::ReadHead(lookup)), repo, id, opts, index),
        is_plan(
            plan,
            repo.path,
            lookup.snapshot_id@,
            lookup.opts@,
            files(lookup.wanted@),
            Some(files_of_tag(head_index, lookup.head@.tag)),
        ),
        repo.head is Some,
        is_first_with(index, id.tag, w),
        is_first_with(head_index, repo.head->0.tag, h),
        names_path(head_index[h].files, p),
        !names_path(index[w].files, p),
    ensures
        plan.snapshot_id@ == id,
        some_step_deletes(plan, join(repo.path, p)),
{
    law_files_of_a_tag(index, id.tag, w);
    law_files_of_a_tag(head_index, repo.head->0.tag, h);
    law_what_is_deleted(
        plan,
        repo.path,
        lookup.snapshot_id@,
        lookup.opts@,
        files(lookup.wanted@),
        files_of_tag(head_index, lookup.head@.tag),
        p,
        0,
    );
}

/// Lists of checksums and of steps are read in order, each item as it is.
pub proof fn law_steps_keep_their_places(v: Seq<ExtractStep>, w: Seq<ObjectChecksum>, i: int)
    ensures
        steps(v).len() == v.len(),
        0 <= i < v.len() ==> steps(v)[i] == v[i]@,
        checksums(w).len() == w.len(),
        0 <= i < w.len() ==> checksums(w)[i] == w[i]@,
{
}

} // verus!
