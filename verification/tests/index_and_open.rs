use elfshaker::error::{Error, IdError, IoError, IoErrorKind, PackError};
use elfshaker::index::RepositoryIndex;
use elfshaker::layout::build_index_path;
use elfshaker::order::Standing;
use elfshaker::pack::{PackId, SnapshotId};
use elfshaker::packidx::{ObjectIndex, PackEntry, PackIndex, PackSnapshot};
use elfshaker::rebuild::{is_pack_index, pack_index_path, pack_name};
use elfshaker::repository::{IndexFile, PackFile, Repository};

fn io_error(message: &str) -> IoError {
    IoError { kind: IoErrorKind::Other, message: message.to_owned() }
}

fn packed(name: &str) -> PackId {
    PackId::Packed(name.to_owned())
}

fn id(pack: &str, tag: &str) -> SnapshotId {
    SnapshotId::new(packed(pack), tag).unwrap()
}

fn with_tags(tags: &[&str]) -> PackIndex {
    PackIndex::new(tags.iter().map(|t| PackSnapshot::new((*t).to_owned(), vec![])).collect())
}

fn open_with(
    head: Result<Option<Vec<u8>>, IoError>,
    index: Result<IndexFile, IoError>,
) -> Result<Repository, Error> {
    Repository::open("/repo".as_bytes(), true, head, index)
}

#[test]
fn snapshot_ids_are_checked() {
    assert_eq!(SnapshotId::new(packed(""), "t"), Err(IdError::InvalidPack));
    assert_eq!(SnapshotId::new(packed("a/b"), "t"), Err(IdError::InvalidPack));
    assert_eq!(SnapshotId::new(packed("unpacked"), "t"), Err(IdError::InvalidPack));
    assert_eq!(SnapshotId::new(packed("p"), ""), Err(IdError::InvalidSnapshot));
    assert_eq!(SnapshotId::unpacked(""), Err(IdError::InvalidSnapshot));
    let ok = SnapshotId::new(packed("p"), "t/u").unwrap();
    assert_eq!(*ok.pack(), packed("p"));
    assert_eq!(ok.tag(), "t/u");
}

#[test]
fn snapshot_ids_are_read_back_from_their_text() {
    for id in [id("p", "t"), id("p", "t/u"), SnapshotId::unpacked("é").unwrap()] {
        assert_eq!(SnapshotId::from_str(&id.to_text()), Ok(id.clone()));
    }
    assert_eq!(id("p", "t").to_text(), "p/t");
    assert_eq!(SnapshotId::unpacked("t").unwrap().to_text(), "unpacked/t");
}

#[test]
fn text_of_a_parsed_snapshot_id_is_that_text() {
    for text in ["p/t", "p//", "unpacked/x", "p/t/u"] {
        assert_eq!(SnapshotId::from_str(text).unwrap().to_text(), text);
    }
    assert_eq!(*SnapshotId::from_str("unpacked/x").unwrap().pack(), PackId::Unpacked);
    assert_eq!(SnapshotId::from_str("pt"), Err(IdError::BadFormat));
    assert_eq!(SnapshotId::from_str("/t"), Err(IdError::InvalidPack));
    assert_eq!(SnapshotId::from_str("p/"), Err(IdError::InvalidSnapshot));
}

#[test]
fn packs_are_ordered_by_name_with_the_unpacked_objects_last() {
    assert!(packed("a").compare(&packed("b")) == Standing::Before);
    assert!(packed("b").compare(&packed("a")) == Standing::After);
    assert!(packed("a").compare(&packed("a")) == Standing::Same);
    assert!(packed("z").compare(&PackId::Unpacked) == Standing::Before);
    assert!(PackId::Unpacked.compare(&packed("z")) == Standing::After);
    assert!(PackId::Unpacked.compare(&PackId::Unpacked) == Standing::Same);
}

#[test]
fn added_snapshots_are_found() {
    let mut index = RepositoryIndex::new();
    assert!(index.find_packs("t").is_empty());
    assert!(index.available_packs().is_empty());
    index.add_snapshot(&id("q", "t"));
    index.add_snapshot(&id("p", "t"));
    index.add_snapshot(&id("p", "u"));
    index.add_snapshot(&SnapshotId::unpacked("v").unwrap());
    assert_eq!(index.find_packs("t"), &[packed("q"), packed("p")]);
    assert_eq!(index.find_packs("u"), &[packed("p")]);
    assert_eq!(index.find_packs("v"), &[PackId::Unpacked]);
    assert!(index.find_packs("w").is_empty());
    assert_eq!(index.available_packs(), vec![packed("p"), packed("q"), PackId::Unpacked]);
}

#[test]
fn adding_the_same_snapshot_twice_lists_its_pack_twice() {
    let mut index = RepositoryIndex::default();
    index.add_snapshot(&id("p", "t"));
    index.add_snapshot(&id("p", "t"));
    assert_eq!(index.find_packs("t"), &[packed("p"), packed("p")]);
    assert_eq!(index.available_packs(), vec![packed("p")]);
}

#[test]
fn index_is_made_from_its_snapshots() {
    let mut index = RepositoryIndex::new();
    index.add_snapshot(&id("p", "t"));
    index.add_snapshot(&id("q", "u"));
    let pairs = index
        .snapshots()
        .iter()
        .map(|(tag, packs)| (tag.clone(), packs.to_vec()))
        .collect();
    let copy = RepositoryIndex::from_snapshots(pairs);
    assert_eq!(copy.find_packs("t"), &[packed("p")]);
    assert_eq!(copy.find_packs("u"), &[packed("q")]);
    let last = RepositoryIndex::from_snapshots(vec![
        ("t".to_owned(), vec![packed("p")]),
        ("t".to_owned(), vec![packed("q")]),
    ]);
    assert_eq!(last.find_packs("t"), &[packed("q")]);
    assert_eq!(last.available_packs(), vec![packed("q")]);
}

#[test]
fn pack_indexes_are_recognised() {
    assert!(is_pack_index(true, Some("a.pack.idx")));
    assert!(is_pack_index(true, Some("pack.idx")));
    assert!(!is_pack_index(false, Some("a.pack.idx")));
    assert!(!is_pack_index(true, Some("a.pack")));
    assert!(!is_pack_index(true, Some("idx")));
    assert!(!is_pack_index(true, None));
    assert_eq!(pack_name("a.pack.idx"), "a");
    assert_eq!(pack_name("é.b.pack.idx"), "é.b");
    assert_eq!(pack_name("?pack.idx"), "");
}

#[test]
fn pack_index_is_looked_for_under_the_name_of_its_pack() {
    let pack = PackFile { repo_path: "/repo".as_bytes().to_vec(), name: "a.b".to_owned() };
    assert_eq!(
        pack_index_path(&pack),
        "/repo/elfshaker_data/packs/a.b.pack.idx".as_bytes()
    );
    assert!(is_pack_index(true, Some("a.b.pack.idx")));
    assert_eq!(pack_name("a.b.pack.idx"), pack.name);
}

#[test]
fn rebuilt_index_has_all_snapshots() {
    let index = Repository::update_index(
        vec![
            ("b.pack.idx".to_owned(), Ok(with_tags(&["t", "u"]))),
            ("a.pack.idx".to_owned(), Ok(with_tags(&["t"]))),
            ("empty.pack.idx".to_owned(), Ok(with_tags(&[]))),
        ],
        Ok(with_tags(&["u", "v"])),
    )
    .unwrap();
    assert_eq!(index.find_packs("t"), &[packed("b"), packed("a")]);
    assert_eq!(index.find_packs("u"), &[packed("b"), PackId::Unpacked]);
    assert_eq!(index.find_packs("v"), &[PackId::Unpacked]);
    assert_eq!(index.available_packs(), vec![packed("a"), packed("b"), PackId::Unpacked]);
}

#[test]
fn rebuilding_stops_at_the_first_failure() {
    let unreadable = || Error::PackError(PackError::Unreadable("x".to_owned()));
    let first = Repository::update_index(
        vec![
            ("a.pack.idx".to_owned(), Ok(with_tags(&[""]))),
            ("b.pack.idx".to_owned(), Err(unreadable())),
        ],
        Ok(with_tags(&[])),
    );
    assert_eq!(first.err(), Some(Error::IdError(IdError::InvalidSnapshot)));
    let second = Repository::update_index(
        vec![
            ("a.pack.idx".to_owned(), Ok(with_tags(&["t"]))),
            ("b.pack.idx".to_owned(), Err(unreadable())),
            ("unpacked.pack.idx".to_owned(), Ok(with_tags(&["t"]))),
        ],
        Err(Error::IoError(io_error("y"))),
    );
    assert_eq!(second.err(), Some(unreadable()));
    let name = Repository::update_index(
        vec![("unpacked.pack.idx".to_owned(), Ok(with_tags(&["t"])))],
        Err(Error::IoError(io_error("y"))),
    );
    assert_eq!(name.err(), Some(Error::IdError(IdError::InvalidPack)));
    let last = Repository::update_index(vec![], Err(Error::IoError(io_error("y"))));
    assert_eq!(last.err(), Some(Error::IoError(io_error("y"))));
    let tag = Repository::update_index(vec![], Ok(with_tags(&["t", ""])));
    assert_eq!(tag.err(), Some(Error::IdError(IdError::InvalidSnapshot)));
}

#[test]
fn a_rebuilt_index_makes_the_repository_open_again() {
    assert_eq!(
        open_with(Ok(None), Ok(IndexFile::Missing)).err(),
        Some(Error::CorruptRepositoryIndex)
    );
    let index = Repository::update_index(
        vec![("p.pack.idx".to_owned(), Ok(with_tags(&["t", "u"])))],
        Ok(with_tags(&["t"])),
    )
    .unwrap();
    let write = Repository::index_file("/repo".as_bytes(), vec![1, 2]);
    assert_eq!(write.contents, vec![1, 2]);
    assert_eq!(write.dest, "/repo/elfshaker_data/index".as_bytes());
    assert_eq!(write.dest, build_index_path("/repo".as_bytes()));
    // The tags come back in another order.
    let mut pairs: Vec<(String, Vec<PackId>)> = index
        .snapshots()
        .iter()
        .map(|(tag, packs)| (tag.clone(), packs.to_vec()))
        .collect();
    pairs.reverse();
    let decoded = RepositoryIndex::from_snapshots(pairs);
    let head = "p/u".as_bytes().to_vec();
    let repo = open_with(Ok(Some(head)), Ok(IndexFile::Decoded(decoded))).ok().unwrap();
    assert_eq!(*repo.head(), Some(id("p", "u")));
    for tag in ["t", "u", "v"] {
        assert_eq!(repo.index().find_packs(tag), index.find_packs(tag));
    }
    assert_eq!(repo.index().find_packs("t"), &[packed("p"), PackId::Unpacked]);
}

#[test]
fn unpacked_index_is_read_from_where_it_was_written() {
    let repo = open_with(Ok(None), Ok(IndexFile::Decoded(RepositoryIndex::new())))
        .ok()
        .unwrap();
    let write = repo.update_unpacked_index(vec![7]);
    assert_eq!(write.dest, repo.unpacked_index_path());
    // What is found there is an encoding of this index.
    assert_eq!(
        repo.unpacked_index(Ok(Some(Ok(with_tags(&["t", "u"]))))),
        Ok(with_tags(&["t", "u"]))
    );
}

#[test]
fn opening_reports_what_is_wrong() {
    let index = || Ok(IndexFile::Decoded(RepositoryIndex::new()));
    let missing = Repository::open("/r".as_bytes(), false, Ok(None), index());
    assert_eq!(missing.err(), Some(Error::RepositoryNotFound));
    assert_eq!(
        open_with(Err(io_error("head")), index()).err(),
        Some(Error::IoError(io_error("head")))
    );
    assert_eq!(
        open_with(Ok(Some(vec![0xff, 0x2f, 0x74])), index()).err(),
        Some(Error::CorruptHead)
    );
    assert_eq!(
        open_with(Ok(Some("nothing".as_bytes().to_vec())), index()).err(),
        Some(Error::CorruptHead)
    );
    assert_eq!(
        open_with(Ok(None), Err(io_error("index"))).err(),
        Some(Error::IoError(io_error("index")))
    );
    assert_eq!(
        open_with(Ok(None), Ok(IndexFile::Missing)).err(),
        Some(Error::CorruptRepositoryIndex)
    );
    assert_eq!(
        open_with(Ok(None), Ok(IndexFile::Undecodable)).err(),
        Some(Error::CorruptRepositoryIndex)
    );
    // A corrupt head file is noticed before a missing index.
    assert_eq!(
        open_with(Ok(Some(vec![])), Ok(IndexFile::Missing)).err(),
        Some(Error::CorruptHead)
    );
}

#[test]
fn opened_repository_has_what_was_found() {
    let mut index = RepositoryIndex::new();
    index.add_snapshot(&id("p", "t"));
    let repo = open_with(
        Ok(Some("p/t".as_bytes().to_vec())),
        Ok(IndexFile::Decoded(index)),
    )
    .ok()
    .unwrap();
    assert_eq!(repo.path(), "/repo".as_bytes());
    assert_eq!(*repo.head(), Some(id("p", "t")));
    assert_eq!(repo.index().find_packs("t"), &[packed("p")]);
    assert_eq!(repo.temp_dir(), "/repo/elfshaker_data/temp".as_bytes());
    assert_eq!(Repository::data_dir(), "elfshaker_data");
}

#[test]
fn only_known_packs_are_opened() {
    let mut index = RepositoryIndex::new();
    index.add_snapshot(&id("p", "t"));
    index.add_snapshot(&SnapshotId::unpacked("u").unwrap());
    let repo = open_with(Ok(None), Ok(IndexFile::Decoded(index))).ok().unwrap();
    let file = repo.open_pack("p").ok().unwrap();
    assert_eq!(file.name, "p");
    assert_eq!(file.repo_path, "/repo".as_bytes());
    assert_eq!(repo.open_pack("q").err(), Some(Error::PackNotFound));
    assert_eq!(repo.open_pack("unpacked").err(), Some(Error::PackNotFound));
}

#[test]
fn unpacked_index_is_empty_if_missing() {
    let repo = open_with(Ok(None), Ok(IndexFile::Decoded(RepositoryIndex::new())))
        .ok()
        .unwrap();
    assert_eq!(repo.unpacked_index(Ok(None)), Ok(PackIndex::default()));
    assert_eq!(
        repo.unpacked_index(Ok(Some(Ok(with_tags(&["t"]))))),
        Ok(with_tags(&["t"]))
    );
    let bad = || Error::PackError(PackError::Unreadable("x".to_owned()));
    assert_eq!(Repository::read_unpacked_index(Ok(Some(Err(bad())))), Err(bad()));
    assert_eq!(
        Repository::read_unpacked_index(Err(io_error("z"))),
        Err(Error::IoError(io_error("z")))
    );
    let write = repo.update_unpacked_index(vec![1, 2, 3]);
    assert_eq!(write.contents, vec![1, 2, 3]);
    assert_eq!(write.temp_dir, repo.temp_dir());
    assert_eq!(write.dest, "/repo/elfshaker_data/unpacked/unpacked.idx".as_bytes());
}

#[test]
fn head_is_read_back_after_it_was_written() {
    let index = || Ok(IndexFile::Decoded(RepositoryIndex::new()));
    let mut repo = open_with(Ok(None), index()).ok().unwrap();
    let new = SnapshotId::unpacked("tag/é").unwrap();
    let write = repo.head_file(&new);
    assert_eq!(write.contents, "unpacked/tag/é".as_bytes());
    assert_eq!(write.dest, "/repo/elfshaker_data/HEAD".as_bytes());
    assert_eq!(
        repo.update_head(&new, Err(io_error("full"))),
        Err(Error::IoError(io_error("full")))
    );
    assert_eq!(*repo.head(), None);
    assert_eq!(repo.update_head(&new, Ok(())), Ok(()));
    assert_eq!(*repo.head(), Some(new.clone()));
    let again = open_with(Ok(Some(write.contents)), index()).ok().unwrap();
    assert_eq!(*again.head(), Some(new));
}

#[test]
fn pack_index_finds_its_snapshots() {
    let files = vec![
        PackEntry::new("a".as_bytes(), ObjectIndex::new([1; 20], 7, 5)),
        PackEntry::new("b".as_bytes(), ObjectIndex::loose([2; 20], 6)),
    ];
    let mut index = PackIndex::default();
    assert_eq!(index.entries_from_snapshot("t"), Err(PackError::SnapshotNotFound));
    assert_eq!(index.push_snapshot("t", &files), Ok(()));
    assert_eq!(index.push_snapshot("u", &files[..1]), Ok(()));
    assert_eq!(index.push_snapshot("t", &[]), Err(PackError::SnapshotAlreadyExists));
    assert_eq!(index.entries_from_snapshot("t"), Ok(files.clone()));
    assert_eq!(index.entries_from_snapshot("u").unwrap().len(), 1);
    assert!(index.has_snapshot("u"));
    assert!(!index.has_snapshot("v"));
    assert_eq!(index.snapshots()[0].tag(), "t");
    assert_eq!(index.snapshots()[1].entries().len(), 1);
    assert!(index.checksums().contains(&[1; 20]));
    assert!(!index.checksums().contains(&[3; 20]));
    assert_eq!(files[0].object_index().offset(), Some(7));
    assert_eq!(files[1].object_index().offset(), None);
    assert_eq!(files[1].object_index().size(), 6);
}
