//! The index of a pack: its snapshots, and the files and objects of each.

use vstd::prelude::*;

use crate::byteset::ByteSet;
use crate::error::PackError;
use crate::path::{byte_strings, copy_path};

verus! {

/// The checksum of the contents of an object.
pub type ObjectChecksum = [u8; 20];

/// Where an object is and what it holds.
pub struct ObjectInfo {
    pub checksum: Seq<u8>,
    pub offset: Option<u64>,
    pub size: u64,
}

/// An object in a pack, or an unpacked one.
#[derive(Clone, Copy, Debug, PartialEq, Eq)]
pub struct ObjectIndex {
    checksum: ObjectChecksum,
    offset: Option<u64>,
    size: u64,
}

impl View for ObjectIndex {
    type V = ObjectInfo;

    closed spec fn view(&self) -> ObjectInfo {
        ObjectInfo { checksum: self.checksum@, offset: self.offset, size: self.size }
    }
}

impl ObjectIndex {
    /// An object that starts at an offset in the data of its pack.
    pub fn new(checksum: ObjectChecksum, offset: u64, size: u64) -> (r: ObjectIndex)
        ensures
            r@ == (ObjectInfo { checksum: checksum@, offset: Some(offset), size }),
    {
        ObjectIndex { checksum, offset: Some(offset), size }
    }

    /// An object that is in no pack.
    pub fn loose(checksum: ObjectChecksum, size: u64) -> (r: ObjectIndex)
        ensures
            r@ == (ObjectInfo { checksum: checksum@, offset: None, size }),
    {
        ObjectIndex { checksum, offset: None, size }
    }

    /// The checksum of the contents.
    pub fn checksum(&self) -> (r: &ObjectChecksum)
        ensures
            r@ == self@.checksum,
    {
        &self.checksum
    }

    /// Where the object starts in the data of its pack.
    pub fn offset(&self) -> (r: Option<u64>)
        ensures
            r == self@.offset,
    {
        self.offset
    }

    /// The number of bytes of the contents.
    pub fn size(&self) -> (r: u64)
        ensures
            r == self@.size,
    {
        self.size
    }
}

/// A file of a snapshot: where it is, and which object it holds.
pub struct FileInfo {
    pub path: Seq<u8>,
    pub object: ObjectInfo,
}

/// A file of a snapshot.
#[derive(Debug, PartialEq, Eq)]
pub struct PackEntry {
    path: Vec<u8>,
    object: ObjectIndex,
}

impl View for PackEntry {
    type V = FileInfo;

    closed spec fn view(&self) -> FileInfo {
        FileInfo { path: self.path@, object: self.object@ }
    }
}

/// The files of a list of entries.
pub open spec fn files(v: Seq<PackEntry>) -> Seq<FileInfo> {
    Seq::new(v.len(), |i: int| v[i]@)
}

impl Clone for PackEntry {
    fn clone(&self) -> (r: Self)
        ensures
            r@ == self@,
    {
        PackEntry { path: copy_path(self.path.as_slice()), object: self.object }
    }
}

impl PackEntry {
    /// The file at `path` with the contents of `object`.
    pub fn new(path: &[u8], object: ObjectIndex) -> (r: PackEntry)
        ensures
            r@ == (FileInfo { path: path@, object: object@ }),
    {
        PackEntry { path: copy_path(path), object }
    }

    /// The path of the file, relative to the root of the repository.
    pub fn path(&self) -> (r: &[u8])
        ensures
            r@ == self@.path,
    {
        self.path.as_slice()
    }

    /// The object with the contents of the file.
    pub fn object_index(&self) -> (r: &ObjectIndex)
        ensures
            r@ == self@.object,
    {
        &self.object
    }
}

/// A copy of a list of entries.
pub fn copy_entries(entries: &[PackEntry]) -> (r: Vec<PackEntry>)
    ensures
        files(r@) == files(entries@),
{
    let mut r: Vec<PackEntry> = Vec::new();
    let mut i: usize = 0;
    while i < entries.len()
        invariant
            i <= entries@.len(),
            files(r@) =~= files(entries@).take(i as int),
        decreases entries.len() - i,
    {
        let ghost before = files(r@);
        r.push(entries[i].clone());
        assert(files(r@) =~= before.push(entries@[i as int]@));
        i = i + 1;
    }
    assert(files(entries@).take(entries@.len() as int) =~= files(entries@));
    r
}

/// A snapshot: its tag and its files.
pub struct SnapshotInfo {
    pub tag: Seq<char>,
    pub files: Seq<FileInfo>,
}

/// A snapshot in the index of a pack.
#[derive(Debug, PartialEq, Eq)]
pub struct PackSnapshot {
    tag: String,
    entries: Vec<PackEntry>,
}

impl View for PackSnapshot {
    type V = SnapshotInfo;

    closed spec fn view(&self) -> SnapshotInfo {
        SnapshotInfo { tag: self.tag@, files: files(self.entries@) }
    }
}

impl PackSnapshot {
    /// The snapshot with a tag and its files.
    pub fn new(tag: String, entries: Vec<PackEntry>) -> (r: PackSnapshot)
        ensures
            r@ == (SnapshotInfo { tag: tag@, files: files(entries@) }),
    {
        PackSnapshot { tag, entries }
    }

    /// The tag of the snapshot.
    pub fn tag(&self) -> (r: &str)
        ensures
            r@ == self@.tag,
    {
        self.tag.as_str()
    }

    /// The files of the snapshot.
    pub fn entries(&self) -> (r: &[PackEntry])
        ensures
            files(r@) == self@.files,
    {
        self.entries.as_slice()
    }
}

/// The index of a pack.
#[derive(Debug, PartialEq, Eq)]
pub struct PackIndex {
    snapshots: Vec<PackSnapshot>,
}

/// The snapshots of a list.
pub open spec fn snapshot_infos(v: Seq<PackSnapshot>) -> Seq<SnapshotInfo> {
    Seq::new(v.len(), |i: int| v[i]@)
}

impl View for PackIndex {
    type V = Seq<SnapshotInfo>;

    closed spec fn view(&self) -> Seq<SnapshotInfo> {
        snapshot_infos(self.snapshots@)
    }
}

/// Some snapshot has the tag.
pub open spec fn has_tag(snapshots: Seq<SnapshotInfo>, tag: Seq<char>) -> bool {
    exists|i: int| 0 <= i < snapshots.len() && (#[trigger] snapshots[i]).tag == tag
}

/// The files of the first snapshot with the tag.
pub open spec fn files_of_tag(snapshots: Seq<SnapshotInfo>, tag: Seq<char>) -> Seq<FileInfo>
    recommends
        has_tag(snapshots, tag),
    decreases snapshots.len(),
{
    if snapshots.len() == 0 {
        Seq::empty()
    } else if snapshots[0].tag == tag {
        snapshots[0].files
    } else {
        files_of_tag(snapshots.drop_first(), tag)
    }
}

/// Some file of some snapshot holds the contents with this checksum.
pub open spec fn has_object(snapshots: Seq<SnapshotInfo>, checksum: Seq<u8>) -> bool {
    exists|i: int, j: int|
        0 <= i < snapshots.len() && 0 <= j < snapshots[i].files.len() && (
        #[trigger] snapshots[i].files[j]).object.checksum == checksum
}

proof fn lemma_files_of_tag(snapshots: Seq<SnapshotInfo>, tag: Seq<char>, i: int)
    requires
        0 <= i < snapshots.len(),
        snapshots[i].tag == tag,
        forall|j: int| 0 <= j < i ==> (#[trigger] snapshots[j]).tag != tag,
    ensures
        files_of_tag(snapshots, tag) == snapshots[i].files,
    decreases snapshots.len(),
{
    if i > 0 {
        assert(snapshots[0].tag != tag);
        assert forall|j: int| 0 <= j < i - 1 implies (
        #[trigger] snapshots.drop_first()[j]).tag != tag by {
            assert(snapshots[j + 1].tag != tag);
        }
        lemma_files_of_tag(snapshots.drop_first(), tag, i - 1);
    }
}

/// A snapshot that is added under a new tag is found under that tag, and what
/// was found under other tags still is.
pub proof fn law_pushed_snapshot_is_found(
    snapshots: Seq<SnapshotInfo>,
    added: SnapshotInfo,
    other: Seq<char>,
)
    requires
        !has_tag(snapshots, added.tag),
    ensures
        has_tag(snapshots.push(added), added.tag),
        files_of_tag(snapshots.push(added), added.tag) == added.files,
        other != added.tag ==> has_tag(snapshots.push(added), other) == has_tag(snapshots, other),
        other != added.tag ==> files_of_tag(snapshots.push(added), other) == files_of_tag(
            snapshots,
            other,
        ),
{
    let all = snapshots.push(added);
    let n = snapshots.len() as int;
    assert(all[n].tag == added.tag);
    assert forall|j: int| 0 <= j < n implies (#[trigger] all[j]).tag != added.tag by {
        assert(snapshots[j].tag != added.tag);
    }
    lemma_files_of_tag(all, added.tag, n);
    if other != added.tag {
        lemma_files_of_other_tag(snapshots, added, other);
        if has_tag(snapshots, other) {
            let i = choose|i: int| 0 <= i < snapshots.len() && (#[trigger] snapshots[i]).tag == other;
            assert(all[i].tag == other);
        }
        if has_tag(all, other) {
            let i = choose|i: int| 0 <= i < all.len() && (#[trigger] all[i]).tag == other;
            assert(snapshots[i].tag == other);
        }
    }
}

proof fn lemma_files_of_other_tag(
    snapshots: Seq<SnapshotInfo>,
    added: SnapshotInfo,
    other: Seq<char>,
)
    requires
        other != added.tag,
    ensures
        files_of_tag(snapshots.push(added), other) == files_of_tag(snapshots, other),
    decreases snapshots.len(),
{
    let all = snapshots.push(added);
    if snapshots.len() == 0 {
        assert(all.drop_first() =~= snapshots);
        reveal_with_fuel(files_of_tag, 2);
    } else {
        assert(all.drop_first() =~= snapshots.drop_first().push(added));
        lemma_files_of_other_tag(snapshots.drop_first(), added, other);
    }
}

impl Default for PackIndex {
    fn default() -> (r: Self)
        ensures
            r@ == Seq::<SnapshotInfo>::empty(),
    {
        let r = PackIndex { snapshots: Vec::new() };
        assert(r@ =~= Seq::<SnapshotInfo>::empty());
        r
    }
}

impl PackIndex {
    /// The index with these snapshots.
    pub fn new(snapshots: Vec<PackSnapshot>) -> (r: PackIndex)
        ensures
            r@ == snapshot_infos(snapshots@),
    {
        PackIndex { snapshots }
    }

    /// The snapshots, in the order in which they were added.
    pub fn snapshots(&self) -> (r: &[PackSnapshot])
        ensures
            snapshot_infos(r@) == self@,
    {
        self.snapshots.as_slice()
    }

    /// The position of the first snapshot with the tag.
    fn find(&self, tag: &str) -> (r: Option<usize>)
        ensures
            match r {
                Some(i) => {
                    &&& i < self.snapshots@.len()
                    &&& has_tag(self@, tag@)
                    &&& files_of_tag(self@, tag@) == self@[i as int].files
                },
                None => !has_tag(self@, tag@),
            },
    {
        let wanted = tag.to_owned();
        let mut i: usize = 0;
        while i < self.snapshots.len()
            invariant
                i <= self.snapshots@.len(),
                wanted@ == tag@,
                forall|j: int| 0 <= j < i ==> (#[trigger] self@[j]).tag != tag@,
            decreases self.snapshots.len() - i,
        {
            assert(self@[i as int] == self.snapshots@[i as int]@);
            if self.snapshots[i].tag == wanted {
                proof {
                    lemma_files_of_tag(self@, tag@, i as int);
                }
                return Some(i);
            }
            i = i + 1;
        }
        None
    }

    /// Whether there is a snapshot with the tag.
    pub fn has_snapshot(&self, tag: &str) -> (r: bool)
        ensures
            r == has_tag(self@, tag@),
    {
        self.find(tag).is_some()
    }

    /// The files of the snapshot with the tag.
    pub fn entries_from_snapshot(&self, tag: &str) -> (r: Result<Vec<PackEntry>, PackError>)
        ensures
            match r {
                Ok(entries) => has_tag(self@, tag@) && files(entries@) == files_of_tag(
                    self@,
                    tag@,
                ),
                Err(e) => e == PackError::SnapshotNotFound && !has_tag(self@, tag@),
            },
    {
        match self.find(tag) {
            Some(i) => Ok(copy_entries(self.snapshots[i].entries.as_slice())),
            None => Err(PackError::SnapshotNotFound),
        }
    }

    /// Adds a snapshot under a new tag.
    pub fn push_snapshot(&mut self, tag: &str, entries: &[PackEntry]) -> (r: Result<(), PackError>)
        ensures
            match r {
                Ok(_) => !has_tag(old(self)@, tag@) && final(self)@ == old(self)@.push(
                    SnapshotInfo { tag: tag@, files: files(entries@) },
                ),
                Err(e) => e == PackError::SnapshotAlreadyExists && has_tag(old(self)@, tag@)
                    && *final(self) == *old(self),
            },
    {
        if self.has_snapshot(tag) {
            return Err(PackError::SnapshotAlreadyExists);
        }
        let ghost before = self@;
        let snapshot = PackSnapshot { tag: tag.to_owned(), entries: copy_entries(entries) };
        let ghost added = snapshot@;
        self.snapshots.push(snapshot);
        assert(self@ =~= before.push(added));
        Ok(())
    }

    /// The checksums of the objects that the files of the snapshots hold.
    pub fn checksums(&self) -> (r: ByteSet)
        ensures
            r.wf(),
            forall|c: Seq<u8>| #[trigger] r@.contains(c) <==> has_object(self@, c),
    {
        let mut all: Vec<Vec<u8>> = Vec::new();
        let mut i: usize = 0;
        assert(byte_strings(all@) =~= checksums_of(self@.take(0)));
        while i < self.snapshots.len()
            invariant
                i <= self.snapshots@.len(),
                byte_strings(all@) == checksums_of(self@.take(i as int)),
            decreases self.snapshots.len() - i,
        {
            let entries = self.snapshots[i].entries();
            let ghost before = byte_strings(all@);
            let ghost fs = files(entries@);
            proof {
                assert(self@[i as int] == self.snapshots@[i as int]@);
                assert(self@.take(i + 1).drop_last() =~= self@.take(i as int));
            }
            let mut j: usize = 0;
            assert(byte_strings(all@) =~= before + object_checksums(fs.take(0)));
            while j < entries.len()
                invariant
                    fs == files(entries@),
                    j <= entries@.len(),
                    byte_strings(all@) == before + object_checksums(fs.take(j as int)),
                decreases entries.len() - j,
            {
                let ghost mid = byte_strings(all@);
                all.push(copy_path(entries[j].object_index().checksum()));
                assert(byte_strings(all@) =~= mid.push(fs[j as int].object.checksum));
                assert(byte_strings(all@) =~= before + object_checksums(fs.take(j + 1)));
                j = j + 1;
            }
            assert(fs.take(fs.len() as int) =~= fs);
            i = i + 1;
        }
        assert(self@.take(self@.len() as int) =~= self@);
        let r = ByteSet::from_items(all.as_slice());
        proof {
            assert forall|c: Seq<u8>| #[trigger] r@.contains(c) <==> has_object(self@, c) by {
                lemma_checksums_of(self@, c);
                assert(r@.contains(c) <==> byte_strings(all@).contains(c));
            }
        }
        r
    }
}

/// The checksums of files.
spec fn object_checksums(list: Seq<FileInfo>) -> Seq<Seq<u8>> {
    Seq::new(list.len(), |i: int| list[i].object.checksum)
}

/// The checksums of the files of all snapshots.
spec fn checksums_of(snapshots: Seq<SnapshotInfo>) -> Seq<Seq<u8>>
    decreases snapshots.len(),
{
    if snapshots.len() == 0 {
        Seq::empty()
    } else {
        checksums_of(snapshots.drop_last()) + object_checksums(snapshots.last().files)
    }
}

proof fn lemma_checksums_of(snapshots: Seq<SnapshotInfo>, c: Seq<u8>)
    ensures
        checksums_of(snapshots).contains(c) <==> has_object(snapshots, c),
    decreases snapshots.len(),
{
    if snapshots.len() > 0 {
        let init = snapshots.drop_last();
        let n = snapshots.len() - 1;
        let last = object_checksums(snapshots.last().files);
        lemma_checksums_of(init, c);
        vstd::seq_lib::lemma_seq_concat_contains_all_elements(checksums_of(init), last, c);
        if last.contains(c) {
            let j = choose|j: int| 0 <= j < last.len() && last[j] == c;
            assert(snapshots[n].files[j].object.checksum == c);
        }
        if has_object(init, c) {
            let (i, j) = choose|i: int, j: int|
                0 <= i < init.len() && 0 <= j < init[i].files.len() && (
                #[trigger] init[i].files[j]).object.checksum == c;
            assert(snapshots[i].files[j].object.checksum == c);
        }
        if has_object(snapshots, c) {
            let (i, j) = choose|i: int, j: int|
                0 <= i < snapshots.len() && 0 <= j < snapshots[i].files.len() && (
                #[trigger] snapshots[i].files[j]).object.checksum == c;
            if i < n {
                assert(init[i].files[j].object.checksum == c);
            } else {
                assert(last[j] == c);
            }
        }
    }
}

/// A tag is found exactly if some snapshot has it, and its files are those of
/// the first such snapshot.
pub proof fn law_files_of_a_tag(snapshots: Seq<SnapshotInfo>, tag: Seq<char>, i: int)
    ensures
        has_tag(snapshots, tag) <==> exists|k: int|
            0 <= k < snapshots.len() && (#[trigger] snapshots[k]).tag == tag,
        0 <= i < snapshots.len() && snapshots[i].tag == tag && (forall|j: int|
            0 <= j < i ==> (#[trigger] snapshots[j]).tag != tag) ==> files_of_tag(snapshots, tag)
            == snapshots[i].files,
{
    if 0 <= i < snapshots.len() && snapshots[i].tag == tag && (forall|j: int|
        0 <= j < i ==> (#[trigger] snapshots[j]).tag != tag) {
        lemma_files_of_tag(snapshots, tag, i);
    }
}

/// An index knows an object exactly if some file of some snapshot holds it.
pub proof fn law_known_objects(snapshots: Seq<SnapshotInfo>, checksum: Seq<u8>)
    ensures
        has_object(snapshots, checksum) <==> exists|i: int, j: int|
            0 <= i < snapshots.len() && 0 <= j < snapshots[i].files.len() && (
            #[trigger] snapshots[i].files[j]).object.checksum == checksum,
{
}

/// Lists of files and of snapshots are read in order, each item as it is.
pub proof fn law_lists_keep_their_places(v: Seq<PackEntry>, w: Seq<PackSnapshot>, i: int)
    ensures
        files(v).len() == v.len(),
        0 <= i < v.len() ==> files(v)[i] == v[i]@,
        snapshot_infos(w).len() == w.len(),
        0 <= i < w.len() ==> snapshot_infos(w)[i] == w[i]@,
{
}

} // verus!
