//! What an extraction gives back of a snapshot.

use vstd::prelude::*;

use crate::diff::is_missing;
use crate::error::IoError;
use crate::extract::{checksums, is_plan, steps, ExtractPlan};
use crate::extract_laws::{
    after_steps, consistent_paths, holds_object, in_place, law_extract_all_removes_nothing,
    law_extract_reaches_snapshot, relative_paths, WorkFiles,
};
use crate::options::Switches;
use crate::pack::SnapshotName;
use crate::packidx::{
    files, files_of_tag, has_tag, law_pushed_snapshot_is_found, FileInfo, ObjectChecksum,
    SnapshotInfo,
};
use crate::path::{is_relative, join};
use crate::run::is_snapshot_run;
use crate::snapshot::{is_snapshot_plan, snapshot_files, SnapshotStep};
use crate::store::{
    after_store_steps, is_input, is_sound, is_unspoilt, law_store_stays_sound,
    lemma_files_have_objects, InputFiles, StoreState,
};

verus! {

/// An extraction from a sound store puts files with the contents of the
/// snapshot in place: what lies at the place of each object is copied. If the
/// files `current` of the extracted snapshot are taken into account, they have
/// to be in place.
pub proof fn law_sound_store_gives_files(
    store: StoreState,
    plan: ExtractPlan,
    repo: Seq<u8>,
    id: SnapshotName,
    opts: Switches,
    current: Option<Seq<FileInfo>>,
    work: WorkFiles,
)
    requires
        is_sound(store, repo),
        has_tag(store.index, id.tag),
        is_plan(plan, repo, id, opts, files_of_tag(store.index, id.tag), current),
        consistent_paths(files_of_tag(store.index, id.tag)),
        relative_paths(files_of_tag(store.index, id.tag)),
        current matches Some(current) ==> consistent_paths(current) && relative_paths(current)
            && in_place(work, repo, current),
    ensures
        in_place(
            after_steps(store.files, work, steps(plan.steps@)),
            repo,
            files_of_tag(store.index, id.tag),
        ),
{
    let wanted = files_of_tag(store.index, id.tag);
    let added = files(plan.added@);
    assert forall|x: int| 0 <= x < added.len() implies holds_object(
        store.files,
        repo,
        (#[trigger] added[x]).object.checksum,
    ) by {
        let i = match current {
            Some(current) => {
                assert(added.contains(added[x]));
                choose|i: int| #[trigger] is_missing(wanted, current, i) && wanted[i] == added[x]
            },
            None => x,
        };
        lemma_files_have_objects(store.index, id.tag, i);
    }
    match current {
        Some(current) => {
            law_extract_reaches_snapshot(
                plan,
                repo,
                id,
                opts,
                wanted,
                current,
                store.files,
                work,
            );
        },
        None => {
            law_extract_all_removes_nothing(plan, repo, id, opts, wanted, store.files, work);
        },
    }
}

/// Once a snapshot of files was made, extracting it puts files with the same
/// contents at the same paths, whatever was there before. The extraction reads
/// the index, and copies from the store, that making the snapshot left behind.
/// If the files `current` of the extracted snapshot are taken into account,
/// they have to be in place.
pub proof fn law_extract_gives_back_snapshot(
    store: StoreState,
    made: Seq<SnapshotStep>,
    outcomes: Seq<Result<(), IoError>>,
    plan: ExtractPlan,
    repo: Seq<u8>,
    id: SnapshotName,
    opts: Switches,
    paths: Seq<Seq<u8>>,
    sums: Seq<ObjectChecksum>,
    sizes: Seq<Result<u64, IoError>>,
    input: InputFiles,
    current: Option<Seq<FileInfo>>,
    work: WorkFiles,
)
    requires
        !has_tag(store.index, id.tag),
        is_snapshot_plan(made, repo, id, paths, checksums(sums), sizes, store.index),
        is_sound(store, repo),
        is_input(input, paths, sums),
        is_unspoilt(store.files, repo, sums),
        is_snapshot_run(made, outcomes),
        outcomes.len() == made.len(),
        is_plan(
            plan,
            repo,
            id,
            opts,
            files_of_tag(after_store_steps(store, repo, input, made, outcomes).index, id.tag),
            current,
        ),
        consistent_paths(snapshot_files(paths, checksums(sums), sizes)),
        relative_paths(snapshot_files(paths, checksums(sums), sizes)),
        current matches Some(current) ==> consistent_paths(current) && relative_paths(current)
            && in_place(work, repo, current),
    ensures
        in_place(
            after_steps(
                after_store_steps(store, repo, input, made, outcomes).files,
                work,
                steps(plan.steps@),
            ),
            repo,
            snapshot_files(paths, checksums(sums), sizes),
        ),
{
    let after = after_store_steps(store, repo, input, made, outcomes);
    let added = SnapshotInfo { tag: id.tag, files: snapshot_files(paths, checksums(sums), sizes) };
    law_store_stays_sound(store, repo, id, paths, sums, sizes, input, made, outcomes);
    law_pushed_snapshot_is_found(store.index, added, id.tag);
    law_sound_store_gives_files(after, plan, repo, id, opts, current, work);
}

/// What is given comes back: once a snapshot of files was made and extracted,
/// each path that was given holds contents with the checksum that was given for
/// it. A path that was given twice must have had the same checksum both times.
#[verifier::rlimit(40)]
pub proof fn law_given_files_come_back(
    store: StoreState,
    made: Seq<SnapshotStep>,
    outcomes: Seq<Result<(), IoError>>,
    plan: ExtractPlan,
    repo: Seq<u8>,
    id: SnapshotName,
    opts: Switches,
    paths: Seq<Seq<u8>>,
    sums: Seq<ObjectChecksum>,
    sizes: Seq<Result<u64, IoError>>,
    input: InputFiles,
    current: Option<Seq<FileInfo>>,
    work: WorkFiles,
    i: int,
)
    requires
        !has_tag(store.index, id.tag),
        is_snapshot_plan(made, repo, id, paths, checksums(sums), sizes, store.index),
        is_sound(store, repo),
        is_input(input, paths, sums),
        is_unspoilt(store.files, repo, sums),
        is_snapshot_run(made, outcomes),
        outcomes.len() == made.len(),
        is_plan(
            plan,
            repo,
            id,
            opts,
            files_of_tag(after_store_steps(store, repo, input, made, outcomes).index, id.tag),
            current,
        ),
        forall|x: int, y: int|
            0 <= x < sums.len() && 0 <= y < sums.len() && #[trigger] paths[x]
                == #[trigger] paths[y] ==> sums[x]@ == sums[y]@,
        forall|x: int|
            0 <= x < sums.len() ==> (#[trigger] paths[x]).len() == 0 || paths[x][0] != 47,
        current matches Some(current) ==> consistent_paths(current) && relative_paths(current)
            && in_place(work, repo, current),
        0 <= i < sums.len(),
    ensures
        ({
            let store = after_store_steps(store, repo, input, made, outcomes);
            let after = after_steps(store.files, work, steps(plan.steps@));
            &&& after.contains_key(join(repo, paths[i]))
            &&& after[join(repo, paths[i])] == sums[i]@
        }),
{
    let all = checksums(sums);
    let wanted = snapshot_files(paths, all, sizes);
    assert forall|x: int| 0 <= x < wanted.len() implies (#[trigger] wanted[x]).path == paths[x]
        && wanted[x].object.checksum == sums[x]@ by {}
    assert(consistent_paths(wanted));
    assert(relative_paths(wanted)) by {
        assert forall|x: int| 0 <= x < wanted.len() implies is_relative(
            (#[trigger] wanted[x]).path,
        ) by {
            assert(paths[x].len() == 0 || paths[x][0] != 47);
        }
    }
    law_extract_gives_back_snapshot(
        store,
        made,
        outcomes,
        plan,
        repo,
        id,
        opts,
        paths,
        sums,
        sizes,
        input,
        current,
        work,
    );
    assert(wanted[i].path == paths[i]);
}

} // verus!
