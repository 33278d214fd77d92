//! The store of the unpacked objects, and how making a snapshot changes it.

use vstd::prelude::*;

use crate::error::IoError;
use crate::extract::checksums;
use crate::extract_laws::{holds_object, StoredFiles};
use crate::layout::{law_loose_object_paths_differ, loose_object_path};
use crate::pack::SnapshotName;
use crate::packidx::{files_of_tag, has_object, has_tag, ObjectChecksum, SnapshotInfo};
use crate::run::is_snapshot_run;
use crate::snapshot::{
    is_new_objects, is_snapshot_plan, is_snapshot_steps, snapshot_files, stored_checksums,
    NewObject, SnapshotStep,
};

verus! {

/// The unpacked objects on disk: the files of the objects, and their index.
pub struct StoreState {
    pub files: StoredFiles,
    pub index: Seq<SnapshotInfo>,
}

/// The files that a snapshot is made of, and the checksums of their contents.
pub type InputFiles = Map<Seq<u8>, Seq<u8>>;

/// The store after a step of making a snapshot. An object is written only if
/// its file is not there yet; the index is replaced. Writes are atomic: a step
/// that fails changes nothing.
pub open spec fn after_store_step(
    store: StoreState,
    repo: Seq<u8>,
    input: InputFiles,
    step: SnapshotStep,
    outcome: Result<(), IoError>,
) -> StoreState {
    if outcome is Err {
        store
    } else {
        match step {
            SnapshotStep::StoreObject(object) => {
                let p = loose_object_path(repo, object.checksum@);
                if store.files.contains_key(p) {
                    store
                } else {
                    StoreState { files: store.files.insert(p, input[object.file@]), ..store }
                }
            },
            SnapshotStep::WriteIndex(index) => StoreState { index: index@, ..store },
            SnapshotStep::EnsureDir(_) | SnapshotStep::WriteHead(_) => store,
        }
    }
}

/// The store after the first steps of making a snapshot.
pub open spec fn after_store_steps(
    store: StoreState,
    repo: Seq<u8>,
    input: InputFiles,
    list: Seq<SnapshotStep>,
    outcomes: Seq<Result<(), IoError>>,
) -> StoreState
    decreases outcomes.len(),
{
    if outcomes.len() == 0 {
        store
    } else {
        after_store_step(
            after_store_steps(store, repo, input, list, outcomes.drop_last()),
            repo,
            input,
            list[outcomes.len() - 1],
            outcomes.last(),
        )
    }
}

/// Every object that the index names is in the store, with its contents.
pub open spec fn is_sound(store: StoreState, repo: Seq<u8>) -> bool {
    forall|c: Seq<u8>| #[trigger]
        has_object(store.index, c) ==> holds_object(store.files, repo, c)
}

/// The files of the store are still there, with the same contents.
pub open spec fn keeps_files(before: StoredFiles, after: StoredFiles) -> bool {
    forall|p: Seq<u8>| #[trigger]
        before.contains_key(p) ==> after.contains_key(p) && after[p] == before[p]
}

/// The checksums are those of the files.
pub open spec fn is_input(
    input: InputFiles,
    paths: Seq<Seq<u8>>,
    sums: Seq<ObjectChecksum>,
) -> bool {
    forall|i: int| 0 <= i < sums.len() ==> input[paths[i]] == (#[trigger] sums[i])@
}

/// Where an object of the list has a file in the store, that file has its
/// contents.
pub open spec fn is_unspoilt(
    files: StoredFiles,
    repo: Seq<u8>,
    sums: Seq<ObjectChecksum>,
) -> bool {
    forall|i: int|
        0 <= i < sums.len() && files.contains_key(loose_object_path(repo, (#[trigger] sums[i])@))
            ==> files[loose_object_path(repo, sums[i]@)] == sums[i]@
}

/// The objects whose steps succeeded are in the store, what was there before
/// is unchanged, and the index is the old one until it is written.
spec fn is_stored_so_far(
    before: StoreState,
    after: StoreState,
    repo: Seq<u8>,
    sums: Seq<ObjectChecksum>,
    objects: Seq<NewObject>,
    index: Seq<SnapshotInfo>,
    m: int,
) -> bool {
    &&& keeps_files(before.files, after.files)
    &&& is_unspoilt(after.files, repo, sums)
    &&& forall|k: int|
        0 <= k < objects.len() && k + 1 < m ==> holds_object(
            after.files,
            repo,
            (#[trigger] objects[k]).checksum@,
        )
    &&& after.index == (if m >= objects.len() + 2 {
        index
    } else {
        before.index
    })
}

proof fn lemma_stored_so_far(
    store: StoreState,
    repo: Seq<u8>,
    id: SnapshotName,
    paths: Seq<Seq<u8>>,
    sums: Seq<ObjectChecksum>,
    input: InputFiles,
    objects: Seq<NewObject>,
    index: Seq<SnapshotInfo>,
    list: Seq<SnapshotStep>,
    outcomes: Seq<Result<(), IoError>>,
)
    requires
        is_new_objects(objects, paths, checksums(sums), store.index),
        is_snapshot_steps(list, repo, id, objects, index),
        is_input(input, paths, sums),
        is_unspoilt(store.files, repo, sums),
        outcomes.len() <= list.len(),
        forall|k: int| 0 <= k < outcomes.len() ==> (#[trigger] outcomes[k]) is Ok,
    ensures
        is_stored_so_far(
            store,
            after_store_steps(store, repo, input, list, outcomes),
            repo,
            sums,
            objects,
            index,
            outcomes.len() as int,
        ),
    decreases outcomes.len(),
{
    if outcomes.len() > 0 {
        let init = outcomes.drop_last();
        assert forall|k: int| 0 <= k < init.len() implies (#[trigger] init[k]) is Ok by {
            assert(outcomes[k] is Ok);
        }
        lemma_stored_so_far(
            store,
            repo,
            id,
            paths,
            sums,
            input,
            objects,
            index,
            list,
            init,
        );
        let m = outcomes.len() as int;
        let n = objects.len() as int;
        let before = after_store_steps(store, repo, input, list, init);
        let after = after_store_steps(store, repo, input, list, outcomes);
        assert(outcomes[m - 1] is Ok);
        if 2 <= m <= n + 1 {
            let object = objects[m - 2];
            assert(list[m - 2 + 1] == SnapshotStep::StoreObject(object));
            assert(comes_from(object, paths, sums));
            let i = choose|i: int|
                0 <= i < sums.len() && (#[trigger] sums[i])@ == object.checksum@ && object.file@
                    == paths[i];
            assert(input[object.file@] == sums[i]@);
            assert forall|j: int|
                0 <= j < sums.len() && after.files.contains_key(
                    loose_object_path(repo, (#[trigger] sums[j])@),
                ) implies after.files[loose_object_path(repo, sums[j]@)] == sums[j]@ by {
                if sums[j]@ != sums[i]@ {
                    law_loose_object_paths_differ(repo, sums[j]@, sums[i]@);
                }
            }
            assert(holds_object(after.files, repo, object.checksum@));
            assert forall|k: int| 0 <= k < n && k + 1 < m implies holds_object(
                after.files,
                repo,
                (#[trigger] objects[k]).checksum@,
            ) by {
                if k < m - 2 {
                    assert(holds_object(before.files, repo, objects[k].checksum@));
                }
            }
        }
    }
}

/// The object is taken from one of the files with its contents.
spec fn comes_from(
    object: NewObject,
    paths: Seq<Seq<u8>>,
    sums: Seq<ObjectChecksum>,
) -> bool {
    exists|i: int|
        0 <= i < sums.len() && (#[trigger] sums[i])@ == object.checksum@ && object.file@ == paths[i]
}

/// The objects of the index of a new snapshot are those that the index named
/// before, and those of its files.
proof fn lemma_objects_of_new_index(
    index: Seq<SnapshotInfo>,
    tag: Seq<char>,
    paths: Seq<Seq<u8>>,
    sums: Seq<Seq<u8>>,
    sizes: Seq<Result<u64, IoError>>,
    c: Seq<u8>,
)
    requires
        has_object(
            index.push(SnapshotInfo { tag, files: snapshot_files(paths, sums, sizes) }),
            c,
        ),
    ensures
        has_object(index, c) || sums.contains(c),
{
    let all = index.push(SnapshotInfo { tag, files: snapshot_files(paths, sums, sizes) });
    let (i, j) = choose|i: int, j: int|
        0 <= i < all.len() && 0 <= j < all[i].files.len() && (
        #[trigger] all[i].files[j]).object.checksum == c;
    if i < index.len() {
        assert(index[i].files[j].object.checksum == c);
    } else {
        assert(sums[j] == c);
    }
}

/// Making a snapshot keeps the store sound, after any number of its steps and
/// whether or not the next one fails: every object that the index names is in
/// the store, with its contents. No file of the store is altered or removed.
/// The file of a new object must not be there with other contents.
pub proof fn law_store_stays_sound(
    store: StoreState,
    repo: Seq<u8>,
    id: SnapshotName,
    paths: Seq<Seq<u8>>,
    sums: Seq<ObjectChecksum>,
    sizes: Seq<Result<u64, IoError>>,
    input: InputFiles,
    list: Seq<SnapshotStep>,
    outcomes: Seq<Result<(), IoError>>,
)
    requires
        is_snapshot_plan(list, repo, id, paths, checksums(sums), sizes, store.index),
        is_sound(store, repo),
        is_input(input, paths, sums),
        is_unspoilt(store.files, repo, sums),
        is_snapshot_run(list, outcomes),
    ensures
        ({
            let after = after_store_steps(store, repo, input, list, outcomes);
            let added = SnapshotInfo {
                tag: id.tag,
                files: snapshot_files(paths, checksums(sums), sizes),
            };
            &&& is_sound(after, repo)
            &&& keeps_files(store.files, after.files)
            &&& after.index == store.index || after.index == store.index.push(added)
            &&& outcomes.len() == list.len() ==> after.index == store.index.push(added)
        }),
{
    let files = snapshot_files(paths, checksums(sums), sizes);
    let index = store.index.push(SnapshotInfo { tag: id.tag, files });
    let objects = choose|objects: Seq<NewObject>| #[trigger]
        is_new_objects(objects, paths, checksums(sums), store.index) && is_snapshot_steps(
            list,
            repo,
            id,
            objects,
            index,
        );
    let n = objects.len() as int;
    let after = after_store_steps(store, repo, input, list, outcomes);
    // A step that failed changed nothing.
    let done = if outcomes.len() > 0 && outcomes.last() is Err {
        outcomes.drop_last()
    } else {
        outcomes
    };
    assert(after == after_store_steps(store, repo, input, list, done));
    assert forall|k: int| 0 <= k < done.len() implies (#[trigger] done[k]) is Ok by {
        assert(done[k] == outcomes[k]);
    }
    lemma_stored_so_far(store, repo, id, paths, sums, input, objects, index, list, done);
    assert forall|c: Seq<u8>| #[trigger] has_object(after.index, c) implies holds_object(
        after.files,
        repo,
        c,
    ) by {
        if !has_object(store.index, c) {
            lemma_objects_of_new_index(
                store.index,
                id.tag,
                paths,
                checksums(sums),
                sizes,
                c,
            );
            assert(stored_checksums(objects).contains(c));
            let k = choose|k: int| 0 <= k < n && stored_checksums(objects)[k] == c;
            assert(objects[k].checksum@ == c);
        }
    }
}

/// The index names the objects of the files of its snapshots.
pub proof fn lemma_files_have_objects(index: Seq<SnapshotInfo>, tag: Seq<char>, i: int)
    requires
        has_tag(index, tag),
        0 <= i < files_of_tag(index, tag).len(),
    ensures
        has_object(index, files_of_tag(index, tag)[i].object.checksum),
    decreases index.len(),
{
    let c = files_of_tag(index, tag)[i].object.checksum;
    if index[0].tag == tag {
        assert(index[0].files[i].object.checksum == c);
    } else {
        let rest = index.drop_first();
        let k = choose|k: int| 0 <= k < index.len() && (#[trigger] index[k]).tag == tag;
        assert(rest[k - 1].tag == tag);
        lemma_files_have_objects(rest, tag, i);
        let (x, y) = choose|x: int, y: int|
            0 <= x < rest.len() && 0 <= y < rest[x].files.len() && (
            #[trigger] rest[x].files[y]).object.checksum == c;
        assert(index[x + 1].files[y].object.checksum == c);
    }
}

} // verus!
