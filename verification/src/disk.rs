//! What is read back of the files that a repository writes.
//!
//! The indexes are encoded and decoded outside of this crate. What is said
//! here holds for every way to do so that decodes what it encoded.

use vstd::prelude::*;

use crate::constants::{HEAD_FILE, INDEX_FILE};
use crate::error::Error;
use crate::index::{
    distinct_tags, index_of, law_order_of_tags_does_not_matter, tag_map, TagMap,
};
use crate::layout::{head_path, index_path, unpacked_index_path, utf8};
use crate::pack::{PackName, SnapshotName};
use crate::packidx::{PackIndex, SnapshotInfo};
use crate::rebuild::{all_snapshots, IndexWrite};
use crate::repository::{
    found_snapshots, head_of_bytes, index_snapshots, opened, FileWrite, IndexFile,
};

verus! {

/// The files on disk and their contents.
pub type DiskFiles = Map<Seq<u8>, Seq<u8>>;

/// The contents of a file, if there is one.
pub open spec fn file_at(disk: DiskFiles, path: Seq<u8>) -> Option<Seq<u8>> {
    if disk.contains_key(path) {
        Some(disk[path])
    } else {
        None
    }
}

/// The contents are those that were found.
pub open spec fn is_contents(file: Option<Vec<u8>>, found: Option<Seq<u8>>) -> bool {
    match (file, found) {
        (Some(bytes), Some(found)) => bytes@ == found,
        (None, None) => true,
        _ => false,
    }
}

/// The snapshot that a head file names, if there is one.
pub open spec fn named_by(head_file: Option<Seq<u8>>) -> Option<SnapshotName> {
    match head_file {
        Some(bytes) => head_of_bytes(bytes),
        None => None,
    }
}

/// The index file is what the contents found decode to.
pub open spec fn is_index_file(
    file: IndexFile,
    found: Option<Seq<u8>>,
    decode: spec_fn(Seq<u8>) -> Option<Seq<(Seq<char>, Seq<PackName>)>>,
) -> bool {
    match found {
        None => file is Missing,
        Some(bytes) => match decode(bytes) {
            None => file is Undecodable,
            Some(pairs) => file matches IndexFile::Decoded(index) && index@ == tag_map(pairs),
        },
    }
}

/// The index of the unpacked objects is what the contents found parse to.
pub open spec fn is_pack_index_file(
    file: Option<Result<PackIndex, Error>>,
    found: Option<Seq<u8>>,
    parse: spec_fn(Seq<u8>) -> Result<Seq<SnapshotInfo>, Error>,
) -> bool {
    match (file, found) {
        (Some(parsed), Some(bytes)) => index_snapshots(parsed) == parse(bytes),
        (None, None) => true,
        _ => false,
    }
}

proof fn lemma_head_and_index_differ(repo: Seq<u8>)
    ensures
        head_path(repo) != index_path(repo),
{
    reveal_strlit("HEAD");
    reveal_strlit("index");
    assert(vstd::utf8::is_ascii_chars(HEAD_FILE@));
    assert(vstd::utf8::is_ascii_chars(INDEX_FILE@));
    vstd::utf8::is_ascii_chars_encode_utf8(HEAD_FILE@);
    vstd::utf8::is_ascii_chars_encode_utf8(INDEX_FILE@);
    let h = utf8(HEAD_FILE@);
    let i = utf8(INDEX_FILE@);
    assert(h.len() == 4 && h[0] == 72);
    assert(i.len() == 5 && i[0] == 105);
    assert(head_path(repo).len() + 1 == index_path(repo).len());
}

/// Rebuilding the index makes a repository open again, unless its head file
/// is corrupt: once the rebuilt index was written, opening the repository
/// finds all snapshots. The index may be encoded in any order of its tags.
pub proof fn law_rebuilt_repository_opens(
    repo: Seq<u8>,
    packs: Seq<(String, Result<PackIndex, Error>)>,
    unpacked: Result<PackIndex, Error>,
    encoded: Seq<(Seq<char>, Seq<PackName>)>,
    decoded: Seq<(Seq<char>, Seq<PackName>)>,
    decode: spec_fn(Seq<u8>) -> Option<Seq<(Seq<char>, Seq<PackName>)>>,
    write: IndexWrite,
    disk: DiskFiles,
    head_file: Option<Vec<u8>>,
    index_file: IndexFile,
)
    requires
        all_snapshots(packs, unpacked) is Ok,
        distinct_tags(encoded),
        tag_map(encoded) == index_of(all_snapshots(packs, unpacked)->Ok_0),
        decode(write.contents@) == Some(decoded),
        decoded.to_multiset() == encoded.to_multiset(),
        write.dest@ == index_path(repo),
        file_at(disk, head_path(repo)) is Some ==> named_by(
            file_at(disk, head_path(repo)),
        ) is Some,
        is_contents(
            head_file,
            file_at(disk.insert(write.dest@, write.contents@), head_path(repo)),
        ),
        is_index_file(
            index_file,
            file_at(disk.insert(write.dest@, write.contents@), index_path(repo)),
            decode,
        ),
    ensures
        opened(true, Ok(head_file), Ok(index_file)) == Ok::<(Option<SnapshotName>, TagMap), Error>(
            (
                named_by(file_at(disk, head_path(repo))),
                index_of(all_snapshots(packs, unpacked)->Ok_0),
            ),
        ),
{
    lemma_head_and_index_differ(repo);
    law_order_of_tags_does_not_matter(encoded, decoded);
    assert(file_at(disk.insert(write.dest@, write.contents@), head_path(repo)) == file_at(
        disk,
        head_path(repo),
    ));
}

/// The index of the unpacked objects reads back as it was written: it is read
/// from the file that it was written to.
pub proof fn law_unpacked_index_reads_back(
    repo: Seq<u8>,
    index: Seq<SnapshotInfo>,
    parse: spec_fn(Seq<u8>) -> Result<Seq<SnapshotInfo>, Error>,
    write: FileWrite,
    disk: DiskFiles,
    index_file: Option<Result<PackIndex, Error>>,
)
    requires
        parse(write.contents@) == Ok::<Seq<SnapshotInfo>, Error>(index),
        write.dest@ == unpacked_index_path(repo),
        is_pack_index_file(
            index_file,
            file_at(disk.insert(write.dest@, write.contents@), unpacked_index_path(repo)),
            parse,
        ),
    ensures
        found_snapshots(Ok(index_file)) == Ok::<Seq<SnapshotInfo>, Error>(index),
{
}

} // verus!
