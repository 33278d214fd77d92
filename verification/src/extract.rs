//! Extracting a snapshot.
//!
//! An extraction reads the index of the pack of the snapshot and, where the
//! files of another snapshot are in place, the index of the pack of that one.
//! Then it takes a list of steps. It stops at the first step that fails.

use vstd::prelude::*;

use crate::byteset::{increasing, ByteSet};
use crate::diff::is_difference;
use crate::error::{Error, IoError, IoErrorKind, PackError};
use crate::index::is_available;
use crate::layout::{
    build_loose_object_path, head_path, loose_object_path, temp_path, unpacked_index_path, utf8,
};
use crate::options::{ExtractOptions, Switches};
use crate::order::same_bytes;
use crate::pack::{PackId, PackName, SnapshotId, SnapshotName};
use crate::packidx::{
    copy_entries, files, files_of_tag, has_tag, FileInfo, ObjectChecksum, PackEntry, PackIndex,
    SnapshotInfo,
};
use crate::path::{byte_strings, copy_path, join, join_path};
use crate::repository::{FileWrite, PackFile, Repository, RepositoryState};

verus! {

/// The checksums of a list.
pub open spec fn checksums(v: Seq<ObjectChecksum>) -> Seq<Seq<u8>> {
    Seq::new(v.len(), |i: int| v[i]@)
}

/// What a step of an extraction does.
pub enum Step {
    Check(Seq<u8>),
    Delete(Seq<u8>),
    Copy { checksum: Seq<u8>, from: Seq<u8>, to: Seq<u8> },
    Protect(Seq<u8>),
    Verify { paths: Seq<Seq<u8>>, expected: Seq<Seq<u8>> },
    Unpack { pack: Seq<char>, files: Seq<FileInfo>, dest: Seq<u8>, verify: bool },
    WriteHead { contents: Seq<u8>, temp_dir: Seq<u8>, dest: Seq<u8> },
}

/// A step of an extraction.
pub enum ExtractStep {
    /// Look whether the file may be replaced or deleted; see
    /// [`Repository::ensure_safe_to_delete`].
    CheckFile(Vec<u8>),
    /// Delete the file; see [`Repository::file_deleted`].
    DeleteFile(Vec<u8>),
    /// Copy the file of an unpacked object to its place, which is made
    /// writable before.
    CopyObject { checksum: ObjectChecksum, from: Vec<u8>, to: Vec<u8> },
    /// Make the file read-only.
    MakeReadonly(Vec<u8>),
    /// Compute the checksums of the files; see
    /// [`Repository::verify_checksums`].
    VerifyFiles { paths: Vec<Vec<u8>>, expected: Vec<ObjectChecksum> },
    /// Extract the entries from the pack to the path of its repository.
    ExtractPacked { pack: PackFile, entries: Vec<PackEntry>, verify: bool },
    /// Write the head file; see [`Repository::update_head`].
    WriteHead(FileWrite),
}

impl View for ExtractStep {
    type V = Step;

    open spec fn view(&self) -> Step {
        match self {
            ExtractStep::CheckFile(p) => Step::Check(p@),
            ExtractStep::DeleteFile(p) => Step::Delete(p@),
            ExtractStep::CopyObject { checksum, from, to } => Step::Copy {
                checksum: checksum@,
                from: from@,
                to: to@,
            },
            ExtractStep::MakeReadonly(p) => Step::Protect(p@),
            ExtractStep::VerifyFiles { paths, expected } => Step::Verify {
                paths: byte_strings(paths@),
                expected: checksums(expected@),
            },
            ExtractStep::ExtractPacked { pack, entries, verify } => Step::Unpack {
                pack: pack.name@,
                files: files(entries@),
                dest: pack.repo_path@,
                verify: *verify,
            },
            ExtractStep::WriteHead(write) => Step::WriteHead {
                contents: write.contents@,
                temp_dir: write.temp_dir@,
                dest: write.dest@,
            },
        }
    }
}

/// The steps of a list.
pub open spec fn steps(v: Seq<ExtractStep>) -> Seq<Step> {
    Seq::new(v.len(), |i: int| v[i]@)
}

/// Some file of the list has the path.
pub open spec fn has_path(list: Seq<FileInfo>, p: Seq<u8>) -> bool {
    exists|i: int| 0 <= i < list.len() && (#[trigger] list[i]).path == p
}

/// The paths that files of both lists have, each once, in order.
pub open spec fn is_shared_paths(paths: Seq<Seq<u8>>, a: Seq<FileInfo>, b: Seq<FileInfo>) -> bool {
    &&& increasing(paths)
    &&& forall|p: Seq<u8>| #[trigger] paths.contains(p) <==> has_path(a, p) && has_path(b, p)
}

/// The paths that files of the first list have, but none of the second, each
/// once, in order.
pub open spec fn is_other_paths(paths: Seq<Seq<u8>>, a: Seq<FileInfo>, b: Seq<FileInfo>) -> bool {
    &&& increasing(paths)
    &&& forall|p: Seq<u8>| #[trigger] paths.contains(p) <==> has_path(a, p) && !has_path(b, p)
}

/// The removal of one path; unless forced, it is checked before.
pub open spec fn removal_of(repo: Seq<u8>, p: Seq<u8>, force: bool) -> Seq<Step> {
    if force {
        seq![Step::Delete(join(repo, p))]
    } else {
        seq![Step::Check(join(repo, p)), Step::Delete(join(repo, p))]
    }
}

/// The removal of paths, one after the other.
pub open spec fn removal_steps(repo: Seq<u8>, paths: Seq<Seq<u8>>, force: bool) -> Seq<Step>
    decreases paths.len(),
{
    if paths.len() == 0 {
        Seq::empty()
    } else {
        removal_steps(repo, paths.drop_last(), force) + removal_of(repo, paths.last(), force)
    }
}

/// The checks of the paths that will be overwritten; none, if forced.
pub open spec fn check_steps(repo: Seq<u8>, paths: Seq<Seq<u8>>, force: bool) -> Seq<Step> {
    if force {
        Seq::empty()
    } else {
        Seq::new(paths.len(), |i: int| Step::Check(join(repo, paths[i])))
    }
}

/// The paths of files in the repository.
pub open spec fn dest_paths(repo: Seq<u8>, list: Seq<FileInfo>) -> Seq<Seq<u8>> {
    Seq::new(list.len(), |i: int| join(repo, list[i].path))
}

/// The checksums of files.
pub open spec fn file_checksums(list: Seq<FileInfo>) -> Seq<Seq<u8>> {
    Seq::new(list.len(), |i: int| list[i].object.checksum)
}

/// Copies the object of a file to its place, and makes the file read-only.
pub open spec fn copy_of(repo: Seq<u8>, f: FileInfo) -> Seq<Step> {
    seq![
        Step::Copy {
            checksum: f.object.checksum,
            from: loose_object_path(repo, f.object.checksum),
            to: join(repo, f.path),
        },
        Step::Protect(join(repo, f.path)),
    ]
}

/// Copies the objects of files to their places, one after the other.
pub open spec fn copy_steps(repo: Seq<u8>, list: Seq<FileInfo>) -> Seq<Step>
    decreases list.len(),
{
    if list.len() == 0 {
        Seq::empty()
    } else {
        copy_steps(repo, list.drop_last()) + copy_of(repo, list.last())
    }
}

/// Puts files in place: those of a pack all at once, unpacked ones one by one.
pub open spec fn transfer_steps(
    repo: Seq<u8>,
    pack: PackName,
    list: Seq<FileInfo>,
    verify: bool,
) -> Seq<Step> {
    match pack {
        PackName::Packed(name) => seq![
            Step::Unpack { pack: name, files: list, dest: repo, verify },
        ],
        PackName::Unpacked => if verify {
            copy_steps(repo, list).push(
                Step::Verify { paths: dest_paths(repo, list), expected: file_checksums(list) },
            )
        } else {
            copy_steps(repo, list)
        },
    }
}

/// Makes the snapshot the extracted one.
pub open spec fn head_step(repo: Seq<u8>, id: SnapshotName) -> Step {
    Step::WriteHead { contents: utf8(id.text()), temp_dir: temp_path(repo), dest: head_path(repo) }
}

/// What comes before the files are put in place.
pub open spec fn preparation_steps(
    repo: Seq<u8>,
    updated: Seq<Seq<u8>>,
    removed: Seq<Seq<u8>>,
    force: bool,
) -> Seq<Step> {
    removal_steps(repo, removed, force) + check_steps(repo, updated, force)
}

/// An extraction that puts the files `added` in place, overwrites the paths
/// `updated` and deletes the paths `removed`.
pub open spec fn extract_steps(
    repo: Seq<u8>,
    id: SnapshotName,
    opts: Switches,
    added: Seq<FileInfo>,
    updated: Seq<Seq<u8>>,
    removed: Seq<Seq<u8>>,
) -> Seq<Step> {
    (preparation_steps(repo, updated, removed, opts.force) + transfer_steps(
        repo,
        id.pack,
        added,
        opts.verify,
    )).push(head_step(repo, id))
}

/// What an extraction will do.
pub struct ExtractPlan {
    /// The snapshot to extract.
    pub snapshot_id: SnapshotId,
    /// The files to put in place.
    pub added: Vec<PackEntry>,
    /// The files in place that the snapshot does not have.
    pub dropped: Vec<PackEntry>,
    /// The paths, relative to the repository, that are overwritten.
    pub updated_paths: Vec<Vec<u8>>,
    /// The paths, relative to the repository, that are deleted.
    pub removed_paths: Vec<Vec<u8>>,
    /// All of it, in order.
    pub steps: Vec<ExtractStep>,
}

/// The plan takes the repository from the files `current` to those of the
/// snapshot; from `None`, it puts all files in place and deletes none.
pub open spec fn is_plan(
    plan: ExtractPlan,
    repo: Seq<u8>,
    id: SnapshotName,
    opts: Switches,
    wanted: Seq<FileInfo>,
    current: Option<Seq<FileInfo>>,
) -> bool {
    &&& plan.snapshot_id@ == id
    &&& match current {
        Some(current) => {
            &&& is_difference(files(plan.added@), wanted, current)
            &&& is_difference(files(plan.dropped@), current, wanted)
        },
        None => {
            &&& files(plan.added@) == wanted
            &&& plan.dropped@.len() == 0
        },
    }
    &&& is_shared_paths(
        byte_strings(plan.updated_paths@),
        files(plan.added@),
        files(plan.dropped@),
    )
    &&& is_other_paths(
        byte_strings(plan.removed_paths@),
        files(plan.dropped@),
        files(plan.added@),
    )
    &&& steps(plan.steps@) == extract_steps(
        repo,
        id,
        opts,
        files(plan.added@),
        byte_strings(plan.updated_paths@),
        byte_strings(plan.removed_paths@),
    )
}

/// The paths of a list of entries.
fn entry_paths(entries: &[PackEntry]) -> (r: Vec<Vec<u8>>)
    ensures
        forall|p: Seq<u8>| #[trigger] byte_strings(r@).contains(p) <==> has_path(files(entries@), p),
{
    let ghost fs = files(entries@);
    let mut r: Vec<Vec<u8>> = Vec::new();
    let mut i: usize = 0;
    while i < entries.len()
        invariant
            fs == files(entries@),
            i <= entries@.len(),
            r@.len() == i,
            forall|j: int| 0 <= j < i ==> (#[trigger] byte_strings(r@)[j]) == fs[j].path,
        decreases entries.len() - i,
    {
        let ghost before = byte_strings(r@);
        r.push(copy_path(entries[i].path()));
        assert(byte_strings(r@) =~= before.push(fs[i as int].path));
        i = i + 1;
    }
    proof {
        let v = byte_strings(r@);
        assert forall|p: Seq<u8>| #[trigger] v.contains(p) <==> has_path(fs, p) by {
            if v.contains(p) {
                let k = choose|k: int| 0 <= k < v.len() && v[k] == p;
                assert(fs[k].path == p);
            }
            if has_path(fs, p) {
                let k = choose|k: int| 0 <= k < fs.len() && (#[trigger] fs[k]).path == p;
                assert(v[k] == p);
            }
        }
    }
    r
}

/// The paths that will be overwritten, and those that have to be deleted:
/// there is no point in deleting files that are put in place anew.
pub fn affected_paths(added: &[PackEntry], dropped: &[PackEntry]) -> (r: (
    Vec<Vec<u8>>,
    Vec<Vec<u8>>,
))
    ensures
        is_shared_paths(byte_strings(r.0@), files(added@), files(dropped@)),
        is_other_paths(byte_strings(r.1@), files(dropped@), files(added@)),
{
    let added_paths = entry_paths(added);
    let dropped_paths = entry_paths(dropped);
    let new_set = ByteSet::from_items(added_paths.as_slice());
    let old_set = ByteSet::from_items(dropped_paths.as_slice());
    proof {
        assert forall|p: Seq<u8>| #[trigger] new_set@.contains(p) <==> has_path(files(added@), p) by {
            assert(new_set@.contains(p) <==> byte_strings(added_paths@).contains(p));
        }
        assert forall|p: Seq<u8>| #[trigger] old_set@.contains(p) <==> has_path(files(dropped@), p) by {
            assert(old_set@.contains(p) <==> byte_strings(dropped_paths@).contains(p));
        }
    }
    (new_set.select(&old_set, true), old_set.select(&new_set, false))
}

proof fn lemma_steps_push(v: Seq<ExtractStep>, step: ExtractStep)
    ensures
        steps(v.push(step)) == steps(v).push(step@),
{
    assert(steps(v.push(step)) =~= steps(v).push(step@));
}

/// The removal of paths.
fn push_removals(plan: &mut Vec<ExtractStep>, repo: &[u8], paths: &[Vec<u8>], force: bool)
    ensures
        steps(final(plan)@) == steps(old(plan)@) + removal_steps(
            repo@,
            byte_strings(paths@),
            force,
        ),
{
    let ghost start = steps(plan@);
    let ghost ps = byte_strings(paths@);
    let mut i: usize = 0;
    assert(ps.take(0) =~= Seq::<Seq<u8>>::empty());
    assert(start + removal_steps(repo@, ps.take(0), force) =~= start);
    while i < paths.len()
        invariant
            ps == byte_strings(paths@),
            i <= paths@.len(),
            steps(plan@) == start + removal_steps(repo@, ps.take(i as int), force),
        decreases paths.len() - i,
    {
        let ghost before = plan@;
        let path = join_path(repo, paths[i].as_slice());
        if !force {
            let check = ExtractStep::CheckFile(copy_path(path.as_slice()));
            proof {
                lemma_steps_push(before, check);
            }
            plan.push(check);
        }
        let ghost mid = plan@;
        let delete = ExtractStep::DeleteFile(path);
        proof {
            lemma_steps_push(mid, delete);
            assert(ps.take(i + 1).drop_last() =~= ps.take(i as int));
            assert(ps.take(i + 1).last() == ps[i as int]);
        }
        plan.push(delete);
        proof {
            assert(steps(plan@) =~= steps(before) + removal_of(repo@, ps[i as int], force));
            assert(steps(plan@) =~= start + removal_steps(repo@, ps.take(i + 1), force));
        }
        i = i + 1;
    }
    assert(ps.take(ps.len() as int) =~= ps);
}

/// The checks of the paths that will be overwritten.
fn push_checks(plan: &mut Vec<ExtractStep>, repo: &[u8], paths: &[Vec<u8>], force: bool)
    ensures
        steps(final(plan)@) == steps(old(plan)@) + check_steps(repo@, byte_strings(paths@), force),
{
    let ghost start = steps(plan@);
    let ghost ps = byte_strings(paths@);
    if !force {
        let ghost all = check_steps(repo@, ps, false);
        let mut i: usize = 0;
        assert(start + all.take(0) =~= start);
        while i < paths.len()
            invariant
                ps == byte_strings(paths@),
                all == check_steps(repo@, ps, false),
                i <= paths@.len(),
                steps(plan@) == start + all.take(i as int),
            decreases paths.len() - i,
        {
            let ghost before = plan@;
            let check = ExtractStep::CheckFile(join_path(repo, paths[i].as_slice()));
            proof {
                lemma_steps_push(before, check);
                assert(check@ == all[i as int]);
            }
            plan.push(check);
            assert(start + all.take(i + 1) =~= (start + all.take(i as int)).push(all[i as int]));
            i = i + 1;
        }
        assert(all.take(all.len() as int) =~= all);
    } else {
        assert(start + check_steps(repo@, ps, force) =~= start);
    }
}

/// Copies the objects of entries to their places.
fn push_copies(plan: &mut Vec<ExtractStep>, repo: &[u8], entries: &[PackEntry])
    ensures
        steps(final(plan)@) == steps(old(plan)@) + copy_steps(repo@, files(entries@)),
{
    let ghost start = steps(plan@);
    let ghost fs = files(entries@);
    let mut i: usize = 0;
    assert(fs.take(0) =~= Seq::<FileInfo>::empty());
    assert(start + copy_steps(repo@, fs.take(0)) =~= start);
    while i < entries.len()
        invariant
            fs == files(entries@),
            i <= entries@.len(),
            steps(plan@) == start + copy_steps(repo@, fs.take(i as int)),
        decreases entries.len() - i,
    {
        let ghost before = plan@;
        let checksum = *entries[i].object_index().checksum();
        let to = join_path(repo, entries[i].path());
        let protect = ExtractStep::MakeReadonly(copy_path(to.as_slice()));
        let copy = ExtractStep::CopyObject {
            checksum,
            from: build_loose_object_path(repo, &checksum),
            to,
        };
        proof {
            lemma_steps_push(before, copy);
            lemma_steps_push(before.push(copy), protect);
            assert(fs.take(i + 1).drop_last() =~= fs.take(i as int));
            assert(fs.take(i + 1).last() == fs[i as int]);
        }
        plan.push(copy);
        plan.push(protect);
        proof {
            assert(steps(plan@) =~= steps(before) + copy_of(repo@, fs[i as int]));
            assert(steps(plan@) =~= start + copy_steps(repo@, fs.take(i + 1)));
        }
        i = i + 1;
    }
    assert(fs.take(fs.len() as int) =~= fs);
}

/// The comparison of files in place with what they should hold.
fn verify_step(repo: &[u8], entries: &[PackEntry]) -> (r: ExtractStep)
    ensures
        r@ == (Step::Verify {
            paths: dest_paths(repo@, files(entries@)),
            expected: file_checksums(files(entries@)),
        }),
{
    let ghost all_paths = dest_paths(repo@, files(entries@));
    let ghost all_sums = file_checksums(files(entries@));
    let mut paths: Vec<Vec<u8>> = Vec::new();
    let mut expected: Vec<ObjectChecksum> = Vec::new();
    let mut i: usize = 0;
    while i < entries.len()
        invariant
            all_paths == dest_paths(repo@, files(entries@)),
            all_sums == file_checksums(files(entries@)),
            i <= entries@.len(),
            byte_strings(paths@) =~= all_paths.take(i as int),
            checksums(expected@) =~= all_sums.take(i as int),
        decreases entries.len() - i,
    {
        let ghost before = byte_strings(paths@);
        let ghost sums = checksums(expected@);
        paths.push(join_path(repo, entries[i].path()));
        expected.push(*entries[i].object_index().checksum());
        assert(byte_strings(paths@) =~= before.push(all_paths[i as int]));
        assert(checksums(expected@) =~= sums.push(all_sums[i as int]));
        i = i + 1;
    }
    assert(all_paths.take(entries@.len() as int) =~= all_paths);
    assert(all_sums.take(entries@.len() as int) =~= all_sums);
    ExtractStep::VerifyFiles { paths, expected }
}

/// Puts files in place.
fn push_transfer(
    plan: &mut Vec<ExtractStep>,
    repo: &Repository,
    pack: &PackId,
    entries: &[PackEntry],
    verify: bool,
)
    ensures
        steps(final(plan)@) == steps(old(plan)@) + transfer_steps(
            repo@.path,
            pack@,
            files(entries@),
            verify,
        ),
{
    let ghost start = plan@;
    match pack {
        PackId::Packed(name) => {
            let unpack = ExtractStep::ExtractPacked {
                pack: PackFile { repo_path: copy_path(repo.path()), name: name.clone() },
                entries: copy_entries(entries),
                verify,
            };
            proof {
                lemma_steps_push(plan@, unpack);
            }
            plan.push(unpack);
            assert(steps(plan@) =~= steps(start) + transfer_steps(
                repo@.path,
                pack@,
                files(entries@),
                verify,
            ));
        },
        PackId::Unpacked => {
            let mut rest = repo.extract_from_unpacked(entries, verify);
            let ghost added = rest@;
            plan.append(&mut rest);
            assert(steps(plan@) =~= steps(start) + steps(added));
        },
    }
}

impl Repository {
    /// The steps that put files of the unpacked objects in place.
    pub fn extract_from_unpacked(&self, entries: &[PackEntry], verify: bool) -> (r: Vec<
        ExtractStep,
    >)
        ensures
            steps(r@) == transfer_steps(
                self@.path,
                PackName::Unpacked,
                files(entries@),
                verify,
            ),
    {
        let mut r: Vec<ExtractStep> = Vec::new();
        let ghost none = steps(r@);
        push_copies(&mut r, self.path(), entries);
        assert(none + copy_steps(self@.path, files(entries@)) =~= copy_steps(
            self@.path,
            files(entries@),
        ));
        if verify {
            let step = verify_step(self.path(), entries);
            proof {
                lemma_steps_push(r@, step);
            }
            r.push(step);
        }
        r
    }
}

/// The plan to extract a snapshot with the files `wanted`, where the files
/// `current` are in place, or where that is left open.
fn make_plan(
    repo: &Repository,
    snapshot_id: SnapshotId,
    opts: ExtractOptions,
    wanted: Vec<PackEntry>,
    current: Option<Vec<PackEntry>>,
) -> (r: ExtractPlan)
    ensures
        is_plan(
            r,
            repo@.path,
            snapshot_id@,
            opts@,
            files(wanted@),
            match current {
                Some(current) => Some(files(current@)),
                None => None,
            },
        ),
{
    let (added, dropped) = match current {
        Some(current) => Repository::compute_entry_diff(current.as_slice(), wanted.as_slice()),
        None => (wanted, Vec::new()),
    };
    let (updated_paths, removed_paths) = affected_paths(added.as_slice(), dropped.as_slice());
    let mut plan: Vec<ExtractStep> = Vec::new();
    let ghost none = steps(plan@);
    assert(none =~= Seq::<Step>::empty());
    push_removals(&mut plan, repo.path(), removed_paths.as_slice(), opts.force());
    let ghost first = removal_steps(repo@.path, byte_strings(removed_paths@), opts@.force);
    assert(none + first =~= first);
    push_checks(&mut plan, repo.path(), updated_paths.as_slice(), opts.force());
    push_transfer(&mut plan, repo, snapshot_id.pack(), added.as_slice(), opts.verify());
    let head = ExtractStep::WriteHead(repo.head_file(&snapshot_id));
    proof {
        lemma_steps_push(plan@, head);
        assert(head@ == head_step(repo@.path, snapshot_id@));
    }
    plan.push(head);
    ExtractPlan { snapshot_id, added, dropped, updated_paths, removed_paths, steps: plan }
}

/// Where the index with the files of a snapshot is.
pub enum IndexSource {
    /// In a pack.
    Pack(PackFile),
    /// In the file at this path; see [`Repository::unpacked_index`].
    Unpacked(Vec<u8>),
}

/// The place is that of the index of the pack.
pub open spec fn is_source(source: IndexSource, repo: Seq<u8>, pack: PackName) -> bool {
    match (source, pack) {
        (IndexSource::Pack(file), PackName::Packed(name)) => file.repo_path@ == repo && file.name@
            == name,
        (IndexSource::Unpacked(path), PackName::Unpacked) => path@ == unpacked_index_path(repo),
        _ => false,
    }
}

/// The index of the repository knows the pack. The unpacked objects need no
/// entry there.
pub open spec fn is_known(repo: RepositoryState, pack: PackName) -> bool {
    pack is Unpacked || is_available(repo.packs, pack)
}

/// An extraction that waits for the index of the pack of its snapshot.
pub struct Extraction {
    pub snapshot_id: SnapshotId,
    pub opts: ExtractOptions,
    /// Where that index is.
    pub source: IndexSource,
}

/// An extraction that waits for the index of the pack of the snapshot whose
/// files are in place.
pub struct HeadLookup {
    pub snapshot_id: SnapshotId,
    pub opts: ExtractOptions,
    /// The files of the snapshot to extract.
    pub wanted: Vec<PackEntry>,
    /// The snapshot whose files are in place.
    pub head: SnapshotId,
    /// Where that index is.
    pub source: IndexSource,
}

/// How an extraction goes on.
pub enum ExtractNext {
    ReadHead(HeadLookup),
    Run(ExtractPlan),
}

/// Whether the files in place are taken into account.
pub open spec fn uses_head(repo: RepositoryState, opts: Switches) -> bool {
    !opts.reset && repo.head is Some
}

/// How an extraction goes on once the index of the pack of its snapshot was
/// read.
pub open spec fn is_continued(
    r: Result<ExtractNext, Error>,
    repo: RepositoryState,
    id: SnapshotName,
    opts: Switches,
    index: Seq<SnapshotInfo>,
) -> bool {
    if !has_tag(index, id.tag) {
        r == Err::<ExtractNext, Error>(Error::PackError(PackError::SnapshotNotFound))
    } else if !uses_head(repo, opts) {
        &&& r matches Ok(ExtractNext::Run(plan))
        &&& is_plan(plan, repo.path, id, opts, files_of_tag(index, id.tag), None)
    } else {
        let head = repo.head->0;
        if head.pack == id.pack {
            if !has_tag(index, head.tag) {
                r == Err::<ExtractNext, Error>(Error::PackError(PackError::SnapshotNotFound))
            } else {
                &&& r matches Ok(ExtractNext::Run(plan))
                &&& is_plan(
                    plan,
                    repo.path,
                    id,
                    opts,
                    files_of_tag(index, id.tag),
                    Some(files_of_tag(index, head.tag)),
                )
            }
        } else if !is_known(repo, head.pack) {
            r == Err::<ExtractNext, Error>(Error::PackNotFound)
        } else {
            &&& r matches Ok(ExtractNext::ReadHead(lookup))
            &&& lookup.snapshot_id@ == id
            &&& lookup.opts@ == opts
            &&& files(lookup.wanted@) == files_of_tag(index, id.tag)
            &&& lookup.head@ == head
            &&& is_source(lookup.source, repo.path, head.pack)
        }
    }
}

impl Repository {
    /// Where the index of a pack is.
    fn index_source(&self, pack: &PackId) -> (r: Result<IndexSource, Error>)
        requires
            self.wf(),
        ensures
            match r {
                Ok(source) => is_known(self@, pack@) && is_source(source, self@.path, pack@),
                Err(e) => e == Error::PackNotFound && !is_known(self@, pack@),
            },
    {
        match pack {
            PackId::Packed(name) => match self.open_pack(name.as_str()) {
                Ok(file) => Ok(IndexSource::Pack(file)),
                Err(e) => Err(e),
            },
            PackId::Unpacked => Ok(IndexSource::Unpacked(self.unpacked_index_path())),
        }
    }

    /// Begins to extract a snapshot: says where the index of its pack is.
    pub fn extract(&self, snapshot_id: SnapshotId, opts: ExtractOptions) -> (r: Result<
        Extraction,
        Error,
    >)
        requires
            self.wf(),
        ensures
            match r {
                Ok(extraction) => {
                    &&& is_known(self@, snapshot_id@.pack)
                    &&& extraction.snapshot_id == snapshot_id
                    &&& extraction.opts == opts
                    &&& is_source(extraction.source, self@.path, snapshot_id@.pack)
                },
                Err(e) => e == Error::PackNotFound && !is_known(self@, snapshot_id@.pack),
            },
    {
        match self.index_source(snapshot_id.pack()) {
            Ok(source) => Ok(Extraction { snapshot_id, opts, source }),
            Err(e) => Err(e),
        }
    }

    /// Goes on with an extraction once the index of the pack of its snapshot
    /// was read.
    pub fn extract_from_index(
        &self,
        extraction: Extraction,
        index: Result<PackIndex, Error>,
    ) -> (r: Result<ExtractNext, Error>)
        requires
            self.wf(),
        ensures
            match index {
                Err(e) => r == Err::<ExtractNext, Error>(e),
                Ok(index) => is_continued(
                    r,
                    self@,
                    extraction.snapshot_id@,
                    extraction.opts@,
                    index@,
                ),
            },
    {
        let index = match index {
            Ok(index) => index,
            Err(e) => {
                return Err(e);
            },
        };
        let snapshot_id = extraction.snapshot_id;
        let opts = extraction.opts;
        let wanted = match index.entries_from_snapshot(snapshot_id.tag()) {
            Ok(wanted) => wanted,
            Err(e) => {
                return Err(Error::PackError(e));
            },
        };
        if !opts.reset() {
            if let Some(head) = self.head() {
                if *snapshot_id.pack() == *head.pack() {
                    match index.entries_from_snapshot(head.tag()) {
                        Ok(current) => {
                            return Ok(
                                ExtractNext::Run(
                                    make_plan(self, snapshot_id, opts, wanted, Some(current)),
                                ),
                            );
                        },
                        Err(e) => {
                            return Err(Error::PackError(e));
                        },
                    }
                }
                match self.index_source(head.pack()) {
                    Ok(source) => {
                        return Ok(
                            ExtractNext::ReadHead(
                                HeadLookup {
                                    snapshot_id,
                                    opts,
                                    wanted,
                                    head: head.clone(),
                                    source,
                                },
                            ),
                        );
                    },
                    Err(e) => {
                        return Err(e);
                    },
                }
            }
        }
        // Extract all, remove nothing
        Ok(ExtractNext::Run(make_plan(self, snapshot_id, opts, wanted, None)))
    }

    /// Goes on with an extraction once the index of the pack of the snapshot
    /// whose files are in place was read.
    pub fn extract_from_head_index(
        &self,
        lookup: HeadLookup,
        index: Result<PackIndex, Error>,
    ) -> (r: Result<ExtractPlan, Error>)
        ensures
            match index {
                Err(e) => r == Err::<ExtractPlan, Error>(e),
                Ok(index) => if has_tag(index@, lookup.head@.tag) {
                    r is Ok && is_plan(
                        r->Ok_0,
                        self@.path,
                        lookup.snapshot_id@,
                        lookup.opts@,
                        files(lookup.wanted@),
                        Some(files_of_tag(index@, lookup.head@.tag)),
                    )
                } else {
                    r == Err::<ExtractPlan, Error>(Error::PackError(PackError::SnapshotNotFound))
                },
            },
    {
        match index {
            Err(e) => Err(e),
            Ok(index) => match index.entries_from_snapshot(lookup.head.tag()) {
                Err(e) => Err(Error::PackError(e)),
                Ok(current) => Ok(
                    make_plan(self, lookup.snapshot_id, lookup.opts, lookup.wanted, Some(current)),
                ),
            },
        }
    }

    /// A file may be replaced or deleted only if it is there and read-only:
    /// `readonly` is `None` if it is missing. Otherwise the working directory
    /// has been modified.
    pub fn ensure_safe_to_delete(readonly: Option<bool>) -> (r: Result<(), Error>)
        ensures
            match r {
                Ok(_) => readonly == Some(true),
                Err(e) => e == Error::DirtyWorkDir && readonly != Some(true),
            },
    {
        match readonly {
            Some(true) => Ok(()),
            _ => Err(Error::DirtyWorkDir),
        }
    }

    /// The outcome of deleting a file: it is no failure if the file was not
    /// there.
    pub fn file_deleted(deleted: Result<(), IoError>) -> (r: Result<(), Error>)
        ensures
            match deleted {
                Ok(_) => r is Ok,
                Err(e) => if e.kind == IoErrorKind::NotFound {
                    r is Ok
                } else {
                    r == Err::<(), Error>(Error::IoError(e))
                },
            },
    {
        match deleted {
            Ok(_) => Ok(()),
            Err(e) => match e.kind {
                IoErrorKind::NotFound => Ok(()),
                IoErrorKind::Other => Err(Error::IoError(e)),
            },
        }
    }

    /// Compares the checksums of extracted files, as far as there are any,
    /// with what they should be.
    pub fn verify_checksums(expected: &[ObjectChecksum], actual: &[ObjectChecksum]) -> (r: Result<
        (),
        Error,
    >)
        ensures
            match r {
                Ok(_) => forall|i: int|
                    0 <= i < expected@.len() && i < actual@.len() ==> (
                    #[trigger] expected@[i])@ == actual@[i]@,
                Err(e) => {
                    &&& e == Error::PackError(PackError::ChecksumMismatch)
                    &&& exists|i: int|
                        0 <= i < expected@.len() && i < actual@.len() && (
                        #[trigger] expected@[i])@ != actual@[i]@
                },
            },
    {
        let mut i: usize = 0;
        while i < expected.len() && i < actual.len()
            invariant
                i <= expected@.len(),
                i <= actual@.len(),
                forall|j: int| 0 <= j < i ==> (#[trigger] expected@[j])@ == actual@[j]@,
            decreases expected.len() - i,
        {
            if !same_bytes(&expected[i], &actual[i]) {
                assert(expected@[i as int]@ != actual@[i as int]@);
                return Err(Error::PackError(PackError::ChecksumMismatch));
            }
            i = i + 1;
        }
        Ok(())
    }
}

} // verus!
