//! A repository and what it knows: where it is, which snapshot is extracted,
//! and which packs it has.

use vstd::prelude::*;

use crate::constants::REPO_DIR;
use crate::diff::{difference, is_difference};
use crate::error::{Error, IoError};
use crate::index::{is_available, RepositoryIndex, TagMap};
use crate::layout::{
    build_head_path, build_loose_object_path, build_temp_path, build_unpacked_index_path,
    head_path, loose_object_path, temp_path, unpacked_index_path, utf8,
};
use crate::pack::{law_parse_of_text, law_text_of_parse, PackId, PackName, SnapshotId, SnapshotName};
use crate::packidx::{files, ObjectChecksum, PackEntry, PackIndex, SnapshotInfo};
use crate::path::copy_path;

verus! {

/// What a repository knows.
pub struct RepositoryState {
    pub path: Seq<u8>,
    pub head: Option<SnapshotName>,
    pub packs: TagMap,
}

/// A repository.
pub struct Repository {
    /// The path of the directory with the data directory.
    path: Vec<u8>,
    /// The extracted snapshot, or `None` if nothing has been extracted yet.
    head: Option<SnapshotId>,
    /// Maps snapshots to packs.
    index: RepositoryIndex,
}

/// The snapshot that an option holds.
pub open spec fn head_name(head: Option<SnapshotId>) -> Option<SnapshotName> {
    match head {
        Some(id) => Some(id@),
        None => None,
    }
}

impl View for Repository {
    type V = RepositoryState;

    closed spec fn view(&self) -> RepositoryState {
        RepositoryState { path: self.path@, head: head_name(self.head), packs: self.index@ }
    }
}

/// The index file of a repository, as it was found.
pub enum IndexFile {
    /// There is no such file.
    Missing,
    /// The file does not hold an index.
    Undecodable,
    /// The file holds this index.
    Decoded(RepositoryIndex),
}

/// The pack with a name in the repository at a path.
pub struct PackFile {
    pub repo_path: Vec<u8>,
    pub name: String,
}

/// A file to be written: first under a new name in a directory for that
/// purpose, which is made if need be, then moved to its place.
pub struct FileWrite {
    pub contents: Vec<u8>,
    pub temp_dir: Vec<u8>,
    pub dest: Vec<u8>,
}

/// The file of an object that has to be written, in the way of [`FileWrite`].
pub struct ObjectWrite {
    pub temp_dir: Vec<u8>,
    pub dest: Vec<u8>,
}

/// The snapshot that the contents of the head file name.
pub open spec fn head_of_bytes(bytes: Seq<u8>) -> Option<SnapshotName> {
    if !vstd::utf8::valid_utf8(bytes) {
        None
    } else {
        match SnapshotName::parse(vstd::utf8::decode_utf8(bytes)) {
            Ok(id) => Some(id),
            Err(_) => None,
        }
    }
}

/// What opening a repository gives, from what was found on disk.
pub open spec fn opened(
    data_dir_exists: bool,
    head_file: Result<Option<Vec<u8>>, IoError>,
    index_file: Result<IndexFile, IoError>,
) -> Result<(Option<SnapshotName>, TagMap), Error> {
    if !data_dir_exists {
        Err(Error::RepositoryNotFound)
    } else {
        match head_file {
            Err(e) => Err(Error::IoError(e)),
            Ok(contents) => if contents is Some && head_of_bytes(contents->0@) is None {
                Err(Error::CorruptHead)
            } else {
                match index_file {
                    Err(e) => Err(Error::IoError(e)),
                    Ok(IndexFile::Decoded(index)) => Ok(
                        (
                            match contents {
                                Some(bytes) => head_of_bytes(bytes@),
                                None => None,
                            },
                            index@,
                        ),
                    ),
                    Ok(_) => Err(Error::CorruptRepositoryIndex),
                }
            },
        }
    }
}

/// The snapshots of an index that was read.
pub open spec fn index_snapshots(index: Result<PackIndex, Error>) -> Result<
    Seq<SnapshotInfo>,
    Error,
> {
    match index {
        Ok(index) => Ok(index@),
        Err(e) => Err(e),
    }
}

/// The snapshots of the unpacked objects, from what was found on disk. A
/// missing index has none.
pub open spec fn found_snapshots(
    index_file: Result<Option<Result<PackIndex, Error>>, IoError>,
) -> Result<Seq<SnapshotInfo>, Error> {
    match index_file {
        Err(e) => Err(Error::IoError(e)),
        Ok(Some(parsed)) => index_snapshots(parsed),
        Ok(None) => Ok(Seq::empty()),
    }
}

/// Calls `std::str::from_utf8`, which gives the string whose bytes these are,
/// and fails exactly if the bytes are not valid UTF-8.
#[verifier::external_body]
fn str_from_utf8(bytes: &[u8]) -> (r: Option<&str>)
    ensures
        match r {
            Some(s) => vstd::utf8::valid_utf8(bytes@) && s@ == vstd::utf8::decode_utf8(bytes@),
            None => !vstd::utf8::valid_utf8(bytes@),
        },
{
    std::str::from_utf8(bytes).ok()
}

/// The snapshot that the contents of the head file name.
fn parse_head(bytes: &[u8]) -> (r: Option<SnapshotId>)
    ensures
        head_name(r) == head_of_bytes(bytes@),
{
    match str_from_utf8(bytes) {
        None => None,
        Some(text) => match SnapshotId::from_str(text) {
            Ok(id) => Some(id),
            Err(_) => None,
        },
    }
}

/// What is written to the head file for a snapshot names that snapshot.
pub proof fn law_head_round_trip(id: SnapshotName)
    requires
        id.valid(),
    ensures
        head_of_bytes(utf8(id.text())) == Some(id),
{
    vstd::utf8::encode_utf8_valid_utf8(id.text());
    vstd::utf8::encode_utf8_decode_utf8(id.text());
    law_parse_of_text(id);
}

/// A repository that is opened again has the extracted snapshot whose head
/// file was written, and the index that is in its index file.
pub proof fn law_reopened_repository_keeps_head(
    id: SnapshotName,
    head_file: Vec<u8>,
    index: RepositoryIndex,
)
    requires
        id.valid(),
        head_file@ == utf8(id.text()),
    ensures
        opened(true, Ok(Some(head_file)), Ok(IndexFile::Decoded(index))) == Ok::<
            (Option<SnapshotName>, TagMap),
            Error,
        >((Some(id), index@)),
{
    law_head_round_trip(id);
}

impl Repository {
    /// The index of the repository is well-formed.
    pub closed spec fn wf(&self) -> bool {
        self.index.wf()
    }

    /// Opens the repository at `path`, from what was found on disk: whether
    /// the data directory is there, the contents of the head file, if there is
    /// one, and the index file.
    pub fn open(
        path: &[u8],
        data_dir_exists: bool,
        head_file: Result<Option<Vec<u8>>, IoError>,
        index_file: Result<IndexFile, IoError>,
    ) -> (r: Result<Repository, Error>)
        requires
            index_file matches Ok(IndexFile::Decoded(index)) ==> index.wf(),
        ensures
            match opened(data_dir_exists, head_file, index_file) {
                Ok((head, packs)) => {
                    &&& r matches Ok(repo)
                    &&& repo.wf()
                    &&& repo@ == (RepositoryState { path: path@, head, packs })
                },
                Err(e) => r == Err::<Repository, Error>(e),
            },
    {
        if !data_dir_exists {
            return Err(Error::RepositoryNotFound);
        }
        let head = match head_file {
            Err(e) => {
                return Err(Error::IoError(e));
            },
            Ok(None) => None,
            Ok(Some(bytes)) => match parse_head(bytes.as_slice()) {
                None => {
                    return Err(Error::CorruptHead);
                },
                Some(id) => Some(id),
            },
        };
        match index_file {
            Err(e) => Err(Error::IoError(e)),
            Ok(IndexFile::Decoded(index)) => Ok(Repository { path: copy_path(path), head, index }),
            Ok(_) => Err(Error::CorruptRepositoryIndex),
        }
    }

    /// The base path of the repository.
    pub fn path(&self) -> (r: &[u8])
        ensures
            r@ == self@.path,
    {
        self.path.as_slice()
    }

    /// The extracted snapshot.
    pub fn head(&self) -> (r: &Option<SnapshotId>)
        ensures
            head_name(*r) == self@.head,
    {
        &self.head
    }

    /// The index of the repository.
    pub fn index(&self) -> (r: &RepositoryIndex)
        requires
            self.wf(),
        ensures
            r.wf(),
            r@ == self@.packs,
    {
        &self.index
    }

    /// The name of the data directory.
    pub fn data_dir() -> (r: &'static str)
        ensures
            r@ == REPO_DIR@,
    {
        REPO_DIR
    }

    /// The directory for files that are being written.
    pub fn temp_dir(&self) -> (r: Vec<u8>)
        ensures
            r@ == temp_path(self@.path),
    {
        build_temp_path(self.path.as_slice())
    }

    /// The pack to open, if the index knows it.
    pub fn open_pack(&self, pack: &str) -> (r: Result<PackFile, Error>)
        requires
            self.wf(),
        ensures
            match r {
                Ok(file) => {
                    &&& is_available(self@.packs, PackName::Packed(pack@))
                    &&& file.repo_path@ == self@.path
                    &&& file.name@ == pack@
                },
                Err(e) => e == Error::PackNotFound && !is_available(
                    self@.packs,
                    PackName::Packed(pack@),
                ),
            },
    {
        let pack_id = PackId::Packed(pack.to_owned());
        let available = self.index.available_packs();
        let ghost names = crate::pack::pack_names(available@);
        let mut i: usize = 0;
        while i < available.len()
            invariant
                names == crate::pack::pack_names(available@),
                pack_id@ == PackName::Packed(pack@),
                forall|p: PackName| #[trigger] names.contains(p) <==> is_available(self@.packs, p),
                i <= available@.len(),
                forall|j: int| 0 <= j < i ==> #[trigger] names[j] != pack_id@,
            decreases available.len() - i,
        {
            assert(names[i as int] == available@[i as int]@);
            if available[i] == pack_id {
                assert(names.contains(pack_id@));
                return Ok(
                    PackFile { repo_path: copy_path(self.path.as_slice()), name: pack.to_owned() },
                );
            }
            i = i + 1;
        }
        assert(!names.contains(pack_id@));
        Err(Error::PackNotFound)
    }

    /// The index of the unpacked objects, from what was found on disk: its
    /// file is missing, or was read and parsed.
    pub fn read_unpacked_index(
        index_file: Result<Option<Result<PackIndex, Error>>, IoError>,
    ) -> (r: Result<PackIndex, Error>)
        ensures
            index_snapshots(r) == found_snapshots(index_file),
    {
        match index_file {
            Err(e) => Err(Error::IoError(e)),
            Ok(Some(parsed)) => parsed,
            Ok(None) => Ok(PackIndex::default()),
        }
    }

    /// Where the index of the unpacked objects is.
    pub fn unpacked_index_path(&self) -> (r: Vec<u8>)
        ensures
            r@ == unpacked_index_path(self@.path),
    {
        build_unpacked_index_path(self.path.as_slice())
    }

    /// The index of the unpacked objects, from what was found at
    /// [`Repository::unpacked_index_path`].
    pub fn unpacked_index(
        &self,
        index_file: Result<Option<Result<PackIndex, Error>>, IoError>,
    ) -> (r: Result<PackIndex, Error>)
        ensures
            index_snapshots(r) == found_snapshots(index_file),
    {
        Self::read_unpacked_index(index_file)
    }

    /// The file to write for the encoded index of the unpacked objects.
    pub fn update_unpacked_index(&self, encoded: Vec<u8>) -> (r: FileWrite)
        ensures
            r.contents == encoded,
            r.temp_dir@ == temp_path(self@.path),
            r.dest@ == unpacked_index_path(self@.path),
    {
        FileWrite {
            contents: encoded,
            temp_dir: self.temp_dir(),
            dest: self.unpacked_index_path(),
        }
    }

    /// The file to write for the extracted snapshot to be `snapshot_id`.
    pub fn head_file(&self, snapshot_id: &SnapshotId) -> (r: FileWrite)
        ensures
            r.contents@ == utf8(snapshot_id@.text()),
            head_of_bytes(r.contents@) == Some(snapshot_id@),
            r.temp_dir@ == temp_path(self@.path),
            r.dest@ == head_path(self@.path),
    {
        proof {
            use_type_invariant(snapshot_id);
            law_head_round_trip(snapshot_id@);
        }
        FileWrite {
            contents: snapshot_id.to_text().as_str().as_bytes_vec(),
            temp_dir: self.temp_dir(),
            dest: build_head_path(self.path.as_slice()),
        }
    }

    /// Makes `snapshot_id` the extracted snapshot, if its head file was
    /// written.
    pub fn update_head(
        &mut self,
        snapshot_id: &SnapshotId,
        written: Result<(), IoError>,
    ) -> (r: Result<(), Error>)
        requires
            old(self).wf(),
        ensures
            final(self).wf(),
            match written {
                Ok(_) => r is Ok && final(self)@ == (RepositoryState {
                    head: Some(snapshot_id@),
                    ..old(self)@
                }),
                Err(e) => r == Err::<(), Error>(Error::IoError(e)) && final(self)@ == old(self)@,
            },
    {
        match written {
            Err(e) => Err(Error::IoError(e)),
            Ok(_) => {
                self.head = Some(snapshot_id.clone());
                Ok(())
            },
        }
    }

    /// The file to write for an object, unless it is there already.
    pub fn write_loose_object(&self, checksum: &ObjectChecksum, exists: bool) -> (r: Option<
        ObjectWrite,
    >)
        ensures
            r is Some <==> !exists,
            r matches Some(write) ==> {
                &&& write.temp_dir@ == temp_path(self@.path)
                &&& write.dest@ == loose_object_path(self@.path, checksum@)
            },
    {
        if exists {
            None
        } else {
            Some(
                ObjectWrite {
                    temp_dir: self.temp_dir(),
                    dest: build_loose_object_path(self.path.as_slice(), checksum),
                },
            )
        }
    }

    /// Returns the pair of lists (`added`, `removed`). `added` contains the entries from
    /// `to_entries` which are not present in `from_entries`. `removed` contains the entries
    /// from `from_entries` which are not present in `to_entries`.
    pub fn compute_entry_diff(from_entries: &[PackEntry], to_entries: &[PackEntry]) -> (r: (
        Vec<PackEntry>,
        Vec<PackEntry>,
    ))
        ensures
            is_difference(files(r.0@), files(to_entries@), files(from_entries@)),
            is_difference(files(r.1@), files(from_entries@), files(to_entries@)),
    {
        (difference(to_entries, from_entries), difference(from_entries, to_entries))
    }
}

/// A head file names a snapshot exactly if it holds the text of that snapshot.
pub proof fn law_head_file_holds_the_text(bytes: Seq<u8>, id: SnapshotName)
    ensures
        head_of_bytes(bytes) == Some(id) <==> id.valid() && bytes == utf8(id.text()),
{
    if head_of_bytes(bytes) is Some {
        law_text_of_parse(vstd::utf8::decode_utf8(bytes));
        vstd::utf8::decode_utf8_encode_utf8(bytes);
    }
    if id.valid() {
        law_head_round_trip(id);
    }
}

/// When a repository opens, and why not: the data directory has to be there,
/// the head file has to be missing or readable and name a snapshot, and the
/// index has to be there, readable and decodable. The first of these that fails
/// is reported.
pub proof fn law_when_a_repository_opens(
    data_dir_exists: bool,
    head_file: Result<Option<Vec<u8>>, IoError>,
    index_file: Result<IndexFile, IoError>,
)
    ensures
        ({
            let r = opened(data_dir_exists, head_file, index_file);
            if !data_dir_exists {
                r == Err::<(Option<SnapshotName>, TagMap), Error>(Error::RepositoryNotFound)
            } else if head_file is Err {
                r == Err::<(Option<SnapshotName>, TagMap), Error>(
                    Error::IoError(head_file->Err_0),
                )
            } else if head_file->Ok_0 is Some && !(exists|id: SnapshotName| #[trigger]
                id.valid() && head_file->Ok_0->0@ == utf8(id.text())) {
                r == Err::<(Option<SnapshotName>, TagMap), Error>(Error::CorruptHead)
            } else if index_file is Err {
                r == Err::<(Option<SnapshotName>, TagMap), Error>(
                    Error::IoError(index_file->Err_0),
                )
            } else if index_file->Ok_0 is Decoded {
                &&& r is Ok
                &&& r->Ok_0.1 == index_file->Ok_0->Decoded_0@
                &&& head_file->Ok_0 is None ==> r->Ok_0.0 is None
                &&& head_file->Ok_0 matches Some(bytes) ==> {
                    &&& r->Ok_0.0 matches Some(id)
                    &&& id.valid()
                    &&& bytes@ == utf8(id.text())
                }
            } else {
                r == Err::<(Option<SnapshotName>, TagMap), Error>(Error::CorruptRepositoryIndex)
            }
        }),
{
    if let Ok(Some(bytes)) = head_file {
        if head_of_bytes(bytes@) is Some {
            let id = head_of_bytes(bytes@)->0;
            law_head_file_holds_the_text(bytes@, id);
            assert(id.valid());
        } else {
            assert forall|id: SnapshotName| !(#[trigger] id.valid() && bytes@ == utf8(
                id.text(),
            )) by {
                law_head_file_holds_the_text(bytes@, id);
            }
        }
    }
}

/// The index of the unpacked objects, as it is found: a missing file is an index
/// without snapshots, and a failure is passed on.
pub proof fn law_found_index(
    parsed: Result<PackIndex, Error>,
    index: PackIndex,
    e: IoError,
    other: Error,
)
    ensures
        found_snapshots(Ok(None)) == Ok::<Seq<SnapshotInfo>, Error>(Seq::empty()),
        found_snapshots(Err(e)) == Err::<Seq<SnapshotInfo>, Error>(Error::IoError(e)),
        found_snapshots(Ok(Some(parsed))) == index_snapshots(parsed),
        index_snapshots(Ok(index)) == Ok::<Seq<SnapshotInfo>, Error>(index@),
        index_snapshots(Err(other)) == Err::<Seq<SnapshotInfo>, Error>(other),
{
}

} // verus!
