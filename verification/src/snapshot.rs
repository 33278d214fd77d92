//! Making a snapshot of files.
//!
//! A new snapshot is one of the unpacked objects. The objects that are not
//! there yet are stored first, then the index of the unpacked objects is
//! written, and then the snapshot becomes the extracted one.

use vstd::prelude::*;

use crate::byteset::{find_bytes, increasing, ByteSet};
use crate::error::{Error, IoError, PackError};
use crate::extract::checksums;
use crate::layout::{build_unpacked_path, head_path, temp_path, unpacked_path, utf8};
use crate::order::{bytes_before, lemma_bytes_before_irreflexive};
use crate::pack::{SnapshotId, SnapshotName};
use crate::packidx::{
    files, files_of_tag, has_object, has_tag, law_pushed_snapshot_is_found, FileInfo,
    ObjectChecksum, ObjectIndex, ObjectInfo, PackEntry, PackIndex, SnapshotInfo,
};
use crate::path::{byte_strings, copy_path};
use crate::repository::{FileWrite, Repository};

verus! {

/// An object to store: where its contents are, and their checksum.
pub struct ObjectSource {
    pub file: Seq<u8>,
    pub checksum: Seq<u8>,
}

/// An object to store.
pub struct NewObject {
    /// A file with the contents.
    pub file: Vec<u8>,
    /// The checksum of the contents.
    pub checksum: ObjectChecksum,
}

impl View for NewObject {
    type V = ObjectSource;

    open spec fn view(&self) -> ObjectSource {
        ObjectSource { file: self.file@, checksum: self.checksum@ }
    }
}

/// The checksums of the objects to store.
pub open spec fn stored_checksums(objects: Seq<NewObject>) -> Seq<Seq<u8>> {
    Seq::new(objects.len(), |i: int| objects[i].checksum@)
}

/// Position `i` is the last one with the checksum.
spec fn is_last_with(sums: Seq<Seq<u8>>, c: Seq<u8>, i: int) -> bool {
    &&& 0 <= i < sums.len()
    &&& sums[i] == c
    &&& forall|j: int| i < j < sums.len() ==> #[trigger] sums[j] != c
}

/// The object is taken from one of the files with its contents.
pub open spec fn comes_from_file(
    object: ObjectSource,
    paths: Seq<Seq<u8>>,
    sums: Seq<Seq<u8>>,
) -> bool {
    exists|i: int|
        0 <= i < sums.len() && #[trigger] sums[i] == object.checksum && object.file == paths[i]
}

/// The objects that the files hold and the index does not know, each once, in
/// the order of their checksums.
pub open spec fn is_new_objects(
    objects: Seq<NewObject>,
    paths: Seq<Seq<u8>>,
    sums: Seq<Seq<u8>>,
    index: Seq<SnapshotInfo>,
) -> bool {
    &&& increasing(stored_checksums(objects))
    &&& forall|c: Seq<u8>| #[trigger]
        stored_checksums(objects).contains(c) <==> sums.contains(c) && !has_object(index, c)
    &&& forall|k: int|
        0 <= k < objects.len() ==> comes_from_file((#[trigger] objects[k])@, paths, sums)
}

/// The files of the new snapshot.
pub open spec fn snapshot_files(
    paths: Seq<Seq<u8>>,
    sums: Seq<Seq<u8>>,
    sizes: Seq<Result<u64, IoError>>,
) -> Seq<FileInfo> {
    Seq::new(
        sums.len(),
        |i: int|
            FileInfo {
                path: paths[i],
                object: ObjectInfo { checksum: sums[i], offset: None, size: sizes[i]->Ok_0 },
            },
    )
}

/// A step of making a snapshot.
pub enum SnapshotStep {
    /// Make the directory, unless it is there.
    EnsureDir(Vec<u8>),
    /// Store an object; see [`Repository::write_loose_object`].
    StoreObject(NewObject),
    /// Write the index; see [`Repository::update_unpacked_index`].
    WriteIndex(PackIndex),
    /// Write the head file; see [`Repository::update_head`].
    WriteHead(FileWrite),
}

/// The steps are to make the directory of the unpacked objects, store the new
/// objects, write the index and write the head file, in this order.
pub open spec fn is_snapshot_steps(
    steps: Seq<SnapshotStep>,
    repo: Seq<u8>,
    id: SnapshotName,
    objects: Seq<NewObject>,
    index: Seq<SnapshotInfo>,
) -> bool {
    let n = objects.len() as int;
    &&& steps.len() == n + 3
    &&& steps[0] matches SnapshotStep::EnsureDir(dir)
    &&& dir@ == unpacked_path(repo)
    &&& forall|k: int| 0 <= k < n ==> steps[k + 1] == SnapshotStep::StoreObject(#[trigger] objects[k])
    &&& steps[n + 1] matches SnapshotStep::WriteIndex(written)
    &&& written@ == index
    &&& steps[n + 2] matches SnapshotStep::WriteHead(write)
    &&& write.contents@ == utf8(id.text())
    &&& write.temp_dir@ == temp_path(repo)
    &&& write.dest@ == head_path(repo)
}

/// The steps make a snapshot of the files.
pub open spec fn is_snapshot_plan(
    steps: Seq<SnapshotStep>,
    repo: Seq<u8>,
    id: SnapshotName,
    paths: Seq<Seq<u8>>,
    sums: Seq<Seq<u8>>,
    sizes: Seq<Result<u64, IoError>>,
    index: Seq<SnapshotInfo>,
) -> bool {
    exists|objects: Seq<NewObject>| #[trigger]
        is_new_objects(objects, paths, sums, index) && is_snapshot_steps(
            steps,
            repo,
            id,
            objects,
            index.push(SnapshotInfo { tag: id.tag, files: snapshot_files(paths, sums, sizes) }),
        )
}

/// The bytes of checksums.
fn checksum_bytes(sums: &[ObjectChecksum]) -> (r: Vec<Vec<u8>>)
    ensures
        byte_strings(r@) == checksums(sums@),
{
    let mut r: Vec<Vec<u8>> = Vec::new();
    let mut i: usize = 0;
    while i < sums.len()
        invariant
            i <= sums@.len(),
            byte_strings(r@) =~= checksums(sums@).take(i as int),
        decreases sums.len() - i,
    {
        let ghost before = byte_strings(r@);
        r.push(copy_path(&sums[i]));
        assert(byte_strings(r@) =~= before.push(sums@[i as int]@));
        i = i + 1;
    }
    assert(checksums(sums@).take(sums@.len() as int) =~= checksums(sums@));
    r
}

/// For each of the sorted checksums, the last position that has it.
fn last_positions(sorted: &[Vec<u8>], sums: &[ObjectChecksum]) -> (r: Vec<Option<usize>>)
    requires
        increasing(byte_strings(sorted@)),
    ensures
        r@.len() == sorted@.len(),
        forall|k: int|
            0 <= k < sorted@.len() ==> match #[trigger] r@[k] {
                Some(i) => is_last_with(checksums(sums@), sorted@[k]@, i as int),
                None => !checksums(sums@).contains(sorted@[k]@),
            },
{
    let ghost all = checksums(sums@);
    let mut r: Vec<Option<usize>> = Vec::new();
    while r.len() < sorted.len()
        invariant
            r@.len() <= sorted@.len(),
            forall|k: int| 0 <= k < r@.len() ==> #[trigger] r@[k] is None,
        decreases sorted.len() - r.len(),
    {
        r.push(None);
    }
    let mut i: usize = 0;
    while i < sums.len()
        invariant
            increasing(byte_strings(sorted@)),
            all == checksums(sums@),
            r@.len() == sorted@.len(),
            i <= sums@.len(),
            forall|k: int|
                0 <= k < sorted@.len() ==> match #[trigger] r@[k] {
                    Some(p) => is_last_with(all.take(i as int), sorted@[k]@, p as int),
                    None => !all.take(i as int).contains(sorted@[k]@),
                },
        decreases sums.len() - i,
    {
        let ghost before = r@;
        let ghost seen = all.take(i as int);
        assert(all.take(i + 1) =~= seen.push(all[i as int]));
        let found = find_bytes(sorted, &sums[i]);
        match found {
            Some(k) => {
                r[k] = Some(i);
            },
            None => {},
        }
        assert forall|k: int| 0 <= k < sorted@.len() implies match #[trigger] r@[k] {
            Some(p) => is_last_with(all.take(i + 1), sorted@[k]@, p as int),
            None => !all.take(i + 1).contains(sorted@[k]@),
        } by {
            let c = sorted@[k]@;
            if all[i as int] == c {
                assert(byte_strings(sorted@)[k] == c);
                assert(byte_strings(sorted@).contains(c));
                let q = found->0 as int;
                if q != k {
                    // Each checksum is sorted in once.
                    assert(byte_strings(sorted@)[q] == c);
                    lemma_bytes_before_irreflexive(c);
                    if q < k {
                        assert(bytes_before(
                            byte_strings(sorted@)[q],
                            byte_strings(sorted@)[k],
                        ));
                    } else {
                        assert(bytes_before(
                            byte_strings(sorted@)[k],
                            byte_strings(sorted@)[q],
                        ));
                    }
                }
                assert(r@[k] == Some(i));
            } else {
                assert(found is Some ==> found->0 as int != k);
                assert(r@[k] == before[k]);
                match before[k] {
                    Some(p) => {
                        assert(is_last_with(seen, c, p as int));
                    },
                    None => {
                        let more = all.take(i + 1);
                        if more.contains(c) {
                            let x = choose|x: int| 0 <= x < more.len() && more[x] == c;
                            assert(seen[x] == c);
                        }
                    },
                }
            }
        }
        i = i + 1;
    }
    assert(all.take(all.len() as int) =~= all);
    r
}

/// The objects that the files hold and the index does not know.
fn new_objects(files: &[Vec<u8>], sums: &[ObjectChecksum], index: &PackIndex) -> (r: Vec<NewObject>)
    requires
        sums@.len() <= files@.len(),
    ensures
        is_new_objects(r@, byte_strings(files@), checksums(sums@), index@),
{
    let ghost all = checksums(sums@);
    let ghost paths = byte_strings(files@);
    let bytes = checksum_bytes(sums);
    let found = ByteSet::from_items(bytes.as_slice());
    let known = index.checksums();
    let sorted = found.select(&known, false);
    let ghost names = byte_strings(sorted@);
    proof {
        assert forall|c: Seq<u8>| #[trigger] names.contains(c) <==> all.contains(c)
            && !has_object(index@, c) by {
            assert(found@.contains(c) <==> all.contains(c));
            assert(known@.contains(c) <==> has_object(index@, c));
        }
    }
    let last = last_positions(sorted.as_slice(), sums);
    let mut r: Vec<NewObject> = Vec::new();
    let mut k: usize = 0;
    while k < sorted.len()
        invariant
            all == checksums(sums@),
            paths == byte_strings(files@),
            sums@.len() <= files@.len(),
            names == byte_strings(sorted@),
            last@.len() == sorted@.len(),
            forall|c: Seq<u8>| #[trigger]
                names.contains(c) <==> all.contains(c) && !has_object(index@, c),
            forall|k: int|
                0 <= k < sorted@.len() ==> match #[trigger] last@[k] {
                    Some(i) => is_last_with(all, sorted@[k]@, i as int),
                    None => !all.contains(sorted@[k]@),
                },
            k <= sorted@.len(),
            stored_checksums(r@) =~= names.take(k as int),
            forall|j: int|
                0 <= j < r@.len() ==> comes_from_file((#[trigger] r@[j])@, paths, all),
        decreases sorted.len() - k,
    {
        assert(names[k as int] == sorted@[k as int]@);
        assert(names.contains(names[k as int]));
        match last[k] {
            Some(i) => {
                assert(is_last_with(all, names[k as int], i as int));
                let object = NewObject { file: copy_path(files[i].as_slice()), checksum: sums[i] };
                assert(object@.file == paths[i as int]);
                assert(object@.checksum == all[i as int]);
                assert(comes_from_file(object@, paths, all));
                r.push(object);
                assert(stored_checksums(r@) =~= names.take(k as int).push(names[k as int]));
            },
            None => {
                assert(false);
            },
        }
        k = k + 1;
    }
    assert(names.take(names.len() as int) =~= names);
    r
}

/// The entries of the new snapshot, or why the size of a file is unknown.
fn snapshot_entries(
    files: &[Vec<u8>],
    sums: &[ObjectChecksum],
    sizes: Vec<Result<u64, IoError>>,
) -> (r: Result<Vec<PackEntry>, IoError>)
    requires
        sums@.len() <= files@.len(),
        sizes@.len() == sums@.len(),
    ensures
        match r {
            Ok(entries) => {
                &&& forall|i: int| 0 <= i < sizes@.len() ==> (#[trigger] sizes@[i]) is Ok
                &&& crate::packidx::files(entries@) == snapshot_files(
                    byte_strings(files@),
                    checksums(sums@),
                    sizes@,
                )
            },
            Err(e) => is_first_failure(sizes@, e),
        },
{
    let ghost all = snapshot_files(byte_strings(files@), checksums(sums@), sizes@);
    let mut r: Vec<PackEntry> = Vec::new();
    let mut i: usize = 0;
    for size in it: sizes
        invariant
            it.seq() == sizes@,
            i == it.index(),
            sums@.len() <= files@.len(),
            sizes@.len() == sums@.len(),
            all == snapshot_files(byte_strings(files@), checksums(sums@), sizes@),
            forall|j: int| 0 <= j < i ==> (#[trigger] sizes@[j]) is Ok,
            crate::packidx::files(r@) =~= all.take(i as int),
    {
        assert(size == sizes@[i as int]);
        match size {
            Err(e) => {
                return Err(e);
            },
            Ok(size) => {
                let ghost before = crate::packidx::files(r@);
                r.push(PackEntry::new(files[i].as_slice(), ObjectIndex::loose(sums[i], size)));
                assert(crate::packidx::files(r@) =~= before.push(all[i as int]));
            },
        }
        i = i + 1;
    }
    assert(all.take(all.len() as int) =~= all);
    Ok(r)
}

/// The first of the sizes that is unknown, is so for this reason.
pub open spec fn is_first_failure(sizes: Seq<Result<u64, IoError>>, e: IoError) -> bool {
    exists|i: int|
        {
            &&& 0 <= i < sizes.len()
            &&& #[trigger] sizes[i] == Err::<u64, IoError>(e)
            &&& forall|j: int| 0 <= j < i ==> (#[trigger] sizes[j]) is Ok
        }
}

impl Repository {
    /// Makes a snapshot of files, of which the checksums and sizes are given,
    /// where `index` is that of the unpacked objects.
    pub fn snapshot(
        &self,
        snapshot: &SnapshotId,
        files: &[Vec<u8>],
        sums: &[ObjectChecksum],
        index: PackIndex,
        sizes: Vec<Result<u64, IoError>>,
    ) -> (r: Result<Vec<SnapshotStep>, Error>)
        requires
            snapshot@.pack is Unpacked,
            sums@.len() <= files@.len(),
            sizes@.len() == sums@.len(),
        ensures
            if has_tag(index@, snapshot@.tag) {
                r == Err::<Vec<SnapshotStep>, Error>(
                    Error::PackError(PackError::SnapshotAlreadyExists),
                )
            } else {
                match r {
                    Ok(steps) => {
                        &&& forall|i: int| 0 <= i < sizes@.len() ==> (#[trigger] sizes@[i]) is Ok
                        &&& is_snapshot_plan(
                            steps@,
                            self@.path,
                            snapshot@,
                            byte_strings(files@),
                            checksums(sums@),
                            sizes@,
                            index@,
                        )
                    },
                    Err(e) => e is IoError && is_first_failure(sizes@, e->IoError_0),
                }
            },
    {
        let ghost known = index@;
        if index.has_snapshot(snapshot.tag()) {
            return Err(Error::PackError(PackError::SnapshotAlreadyExists));
        }
        let objects = new_objects(files, sums, &index);
        let entries = match snapshot_entries(files, sums, sizes) {
            Ok(entries) => entries,
            Err(e) => {
                return Err(Error::IoError(e));
            },
        };
        let mut index = index;
        match index.push_snapshot(snapshot.tag(), entries.as_slice()) {
            Ok(_) => {},
            Err(e) => {
                return Err(Error::PackError(e));
            },
        }
        let ghost stored = objects@;
        let mut steps: Vec<SnapshotStep> = Vec::new();
        steps.push(SnapshotStep::EnsureDir(build_unpacked_path(self.path())));
        let ghost first = steps@[0];
        for object in it: objects
            invariant
                it.seq() == stored,
                steps@.len() == it.index() + 1,
                steps@[0] == first,
                forall|k: int|
                    0 <= k < it.index() ==> steps@[k + 1] == SnapshotStep::StoreObject(
                        #[trigger] stored[k],
                    ),
        {
            steps.push(SnapshotStep::StoreObject(object));
        }
        steps.push(SnapshotStep::WriteIndex(index));
        steps.push(SnapshotStep::WriteHead(self.head_file(snapshot)));
        assert(is_new_objects(stored, byte_strings(files@), checksums(sums@), known));
        Ok(steps)
    }
}

/// When the index is written, the object of every file of the new snapshot is
/// in store: an earlier step stored it, or the index knew it before.
pub proof fn law_objects_are_stored_before_the_index(
    steps: Seq<SnapshotStep>,
    repo: Seq<u8>,
    id: SnapshotName,
    paths: Seq<Seq<u8>>,
    sums: Seq<Seq<u8>>,
    sizes: Seq<Result<u64, IoError>>,
    index: Seq<SnapshotInfo>,
    w: int,
    i: int,
)
    requires
        is_snapshot_plan(steps, repo, id, paths, sums, sizes, index),
        0 <= w < steps.len(),
        steps[w] is WriteIndex,
        0 <= i < sums.len(),
    ensures
        has_object(index, sums[i]) || exists|k: int|
            0 <= k < w && (#[trigger] steps[k]) is StoreObject
                && steps[k]->StoreObject_0.checksum@ == sums[i],
{
    let objects = choose|objects: Seq<NewObject>| #[trigger]
        is_new_objects(objects, paths, sums, index) && is_snapshot_steps(
            steps,
            repo,
            id,
            objects,
            index.push(SnapshotInfo { tag: id.tag, files: snapshot_files(paths, sums, sizes) }),
        );
    let n = objects.len() as int;
    assert(w == n + 1) by {
        if 0 < w <= n {
            assert(steps[w - 1 + 1] == SnapshotStep::StoreObject(objects[w - 1]));
        }
    }
    if !has_object(index, sums[i]) {
        assert(sums.contains(sums[i]));
        assert(stored_checksums(objects).contains(sums[i]));
        let k = choose|k: int|
            0 <= k < objects.len() && stored_checksums(objects)[k] == sums[i];
        assert(steps[k + 1] == SnapshotStep::StoreObject(objects[k]));
    }
}

/// The index that is written gives the files of the new snapshot under its
/// tag, and under other tags what it gave before.
pub proof fn law_snapshot_can_be_found(
    steps: Seq<SnapshotStep>,
    repo: Seq<u8>,
    id: SnapshotName,
    paths: Seq<Seq<u8>>,
    sums: Seq<Seq<u8>>,
    sizes: Seq<Result<u64, IoError>>,
    index: Seq<SnapshotInfo>,
    w: int,
    other: Seq<char>,
)
    requires
        !has_tag(index, id.tag),
        is_snapshot_plan(steps, repo, id, paths, sums, sizes, index),
        0 <= w < steps.len(),
        steps[w] is WriteIndex,
    ensures
        has_tag(steps[w]->WriteIndex_0@, id.tag),
        files_of_tag(steps[w]->WriteIndex_0@, id.tag) == snapshot_files(paths, sums, sizes),
        other != id.tag ==> has_tag(steps[w]->WriteIndex_0@, other) == has_tag(index, other),
        other != id.tag ==> files_of_tag(steps[w]->WriteIndex_0@, other) == files_of_tag(
            index,
            other,
        ),
{
    let added = SnapshotInfo { tag: id.tag, files: snapshot_files(paths, sums, sizes) };
    let objects = choose|objects: Seq<NewObject>| #[trigger]
        is_new_objects(objects, paths, sums, index) && is_snapshot_steps(
            steps,
            repo,
            id,
            objects,
            index.push(added),
        );
    let n = objects.len() as int;
    assert(w == n + 1) by {
        if 0 < w <= n {
            assert(steps[w - 1 + 1] == SnapshotStep::StoreObject(objects[w - 1]));
        }
    }
    law_pushed_snapshot_is_found(index, added, other);
}

/// The snapshot becomes the extracted one by the last step, after the index
/// was written.
pub proof fn law_snapshot_head_is_written_last(
    steps: Seq<SnapshotStep>,
    repo: Seq<u8>,
    id: SnapshotName,
    paths: Seq<Seq<u8>>,
    sums: Seq<Seq<u8>>,
    sizes: Seq<Result<u64, IoError>>,
    index: Seq<SnapshotInfo>,
    k: int,
)
    requires
        is_snapshot_plan(steps, repo, id, paths, sums, sizes, index),
        0 <= k < steps.len(),
    ensures
        steps.len() >= 2,
        steps[k] is WriteHead <==> k == steps.len() - 1,
        steps[k] is WriteIndex <==> k == steps.len() - 2,
{
    let objects = choose|objects: Seq<NewObject>| #[trigger]
        is_new_objects(objects, paths, sums, index) && is_snapshot_steps(
            steps,
            repo,
            id,
            objects,
            index.push(SnapshotInfo { tag: id.tag, files: snapshot_files(paths, sums, sizes) }),
        );
    let n = objects.len() as int;
    if 0 < k <= n {
        assert(steps[k - 1 + 1] == SnapshotStep::StoreObject(objects[k - 1]));
    }
}

/// The index that is written has, behind the snapshots that were there, the new
/// one under its tag. It lists as many files as were given, each with its path,
/// its checksum and its size, in the same order.
pub proof fn law_every_file_is_listed(
    steps: Seq<SnapshotStep>,
    repo: Seq<u8>,
    id: SnapshotName,
    paths: Seq<Seq<u8>>,
    sums: Seq<Seq<u8>>,
    sizes: Seq<Result<u64, IoError>>,
    index: Seq<SnapshotInfo>,
    i: int,
)
    requires
        is_snapshot_plan(steps, repo, id, paths, sums, sizes, index),
    ensures
        ({
            &&& steps.len() >= 3
            &&& steps[steps.len() - 2] matches SnapshotStep::WriteIndex(written)
            &&& written@.len() == index.len() + 1
            &&& written@.take(index.len() as int) == index
            &&& written@.last().tag == id.tag
            &&& written@.last().files.len() == sums.len()
            &&& 0 <= i < sums.len() ==> written@.last().files[i] == (FileInfo {
                path: paths[i],
                object: ObjectInfo { checksum: sums[i], offset: None, size: sizes[i]->Ok_0 },
            })
        }),
{
    let added = SnapshotInfo { tag: id.tag, files: snapshot_files(paths, sums, sizes) };
    let objects = choose|objects: Seq<NewObject>| #[trigger]
        is_new_objects(objects, paths, sums, index) && is_snapshot_steps(
            steps,
            repo,
            id,
            objects,
            index.push(added),
        );
    assert(steps.len() - 2 == objects.len() + 1);
    let written = steps[steps.len() - 2]->WriteIndex_0;
    assert(written@ == index.push(added));
    assert(written@.take(index.len() as int) =~= index);
}

/// Some file of some snapshot of the index holds the object.
pub open spec fn knows_object(index: Seq<SnapshotInfo>, c: Seq<u8>) -> bool {
    exists|i: int, j: int|
        0 <= i < index.len() && 0 <= j < index[i].files.len() && (
        #[trigger] index[i].files[j]).object.checksum == c
}

/// The steps of making a snapshot, one by one: the directory of the unpacked
/// objects, the new objects, the index, the head. Each object that a file holds
/// and the index does not know is stored, from a file that holds it, and only
/// once; no other object is.
#[verifier::rlimit(40)]
pub proof fn law_what_is_stored(
    steps: Seq<SnapshotStep>,
    repo: Seq<u8>,
    id: SnapshotName,
    paths: Seq<Seq<u8>>,
    sums: Seq<Seq<u8>>,
    sizes: Seq<Result<u64, IoError>>,
    index: Seq<SnapshotInfo>,
    i: int,
    k: int,
    l: int,
)
    requires
        is_snapshot_plan(steps, repo, id, paths, sums, sizes, index),
    ensures
        ({
            let n = steps.len() - 2;
            &&& n >= 1
            &&& steps[0] matches SnapshotStep::EnsureDir(dir)
            &&& dir@ == unpacked_path(repo)
            &&& steps.last() matches SnapshotStep::WriteHead(write)
            &&& write.contents@ == utf8(id.text())
            &&& write.temp_dir@ == temp_path(repo)
            &&& write.dest@ == head_path(repo)
            &&& 0 <= i < sums.len() && !knows_object(index, sums[i]) ==> exists|x: int|
                1 <= x < n && (#[trigger] steps[x]) is StoreObject
                    && steps[x]->StoreObject_0.checksum@ == sums[i]
            &&& 1 <= k < n ==> {
                &&& steps[k] matches SnapshotStep::StoreObject(object)
                &&& !knows_object(index, object.checksum@)
                &&& exists|x: int|
                    0 <= x < sums.len() && #[trigger] sums[x] == object.checksum@ && paths[x]
                        == object.file@
            }
            &&& 1 <= k < l < n ==> steps[k]->StoreObject_0.checksum@
                != steps[l]->StoreObject_0.checksum@
        }),
{
    let objects = choose|objects: Seq<NewObject>| #[trigger]
        is_new_objects(objects, paths, sums, index) && is_snapshot_steps(
            steps,
            repo,
            id,
            objects,
            index.push(SnapshotInfo { tag: id.tag, files: snapshot_files(paths, sums, sizes) }),
        );
    let n = objects.len() as int;
    let stored = stored_checksums(objects);
    assert(steps.len() - 2 == n + 1);
    assert forall|x: int| 1 <= x < n + 1 implies (#[trigger] steps[x])
        == SnapshotStep::StoreObject(objects[x - 1]) by {
        assert(steps[x - 1 + 1] == SnapshotStep::StoreObject(objects[x - 1]));
    }
    if 0 <= i < sums.len() && !knows_object(index, sums[i]) {
        assert(sums.contains(sums[i]));
        assert(!has_object(index, sums[i]));
        assert(stored.contains(sums[i]));
        let x = choose|x: int| 0 <= x < stored.len() && stored[x] == sums[i];
        assert(steps[x + 1] is StoreObject);
    }
    if 1 <= k < n + 1 {
        let object = objects[k - 1];
        assert(steps[k] == SnapshotStep::StoreObject(object));
        assert(stored[k - 1] == object.checksum@);
        assert(stored.contains(object.checksum@));
        assert(comes_from_file(object@, paths, sums));
        let x = choose|x: int|
            0 <= x < sums.len() && #[trigger] sums[x] == object@.checksum && object@.file
                == paths[x];
        assert(sums[x] == object.checksum@ && paths[x] == object.file@);
    }
    if 1 <= k < l < n + 1 {
        assert(steps[k] == SnapshotStep::StoreObject(objects[k - 1]));
        assert(steps[l] == SnapshotStep::StoreObject(objects[l - 1]));
        assert(bytes_before(stored[k - 1], stored[l - 1]));
        lemma_bytes_before_irreflexive(stored[k - 1]);
    }
}

/// A snapshot whose sizes are not all known fails for the first reason.
pub proof fn law_first_failure(sizes: Seq<Result<u64, IoError>>, e: IoError)
    ensures
        is_first_failure(sizes, e) <==> exists|i: int|
            {
                &&& 0 <= i < sizes.len()
                &&& #[trigger] sizes[i] == Err::<u64, IoError>(e)
                &&& forall|j: int| 0 <= j < i ==> (#[trigger] sizes[j]) is Ok
            },
{
}

} // verus!
