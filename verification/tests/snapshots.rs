use std::collections::BTreeMap;

use elfshaker::error::{Error, IoError, IoErrorKind, PackError};
use elfshaker::extract::{ExtractNext, ExtractStep};
use elfshaker::file_list::{clean_file_list, relative_files};
use elfshaker::index::RepositoryIndex;
use elfshaker::layout::build_loose_object_path;
use elfshaker::options::ExtractOptions;
use elfshaker::pack::SnapshotId;
use elfshaker::packidx::{ObjectIndex, PackEntry, PackIndex};
use elfshaker::repository::{IndexFile, Repository};
use elfshaker::snapshot::SnapshotStep;

fn io_error(message: &str) -> IoError {
    IoError { kind: IoErrorKind::Other, message: message.to_owned() }
}

fn names(paths: &[&str]) -> Vec<Vec<u8>> {
    paths.iter().map(|p| p.as_bytes().to_vec()).collect()
}

fn canonical(paths: &[&str]) -> Vec<Result<Vec<u8>, IoError>> {
    names(paths).into_iter().map(Ok).collect()
}

fn repo() -> Repository {
    Repository::open(
        "/r".as_bytes(),
        true,
        Ok(None),
        Ok(IndexFile::Decoded(RepositoryIndex::new())),
    )
    .ok()
    .unwrap()
}

fn id() -> SnapshotId {
    SnapshotId::unpacked("t").unwrap()
}

#[test]
fn absolute_files_are_skipped() {
    assert_eq!(relative_files(&names(&["a", "/b", "", "c/d"])), names(&["a", "", "c/d"]));
}

#[test]
fn cleaned_files_are_below_the_repository() {
    let list = canonical(&["/r/a", "/r/elfshaker_data/HEAD", "/r/b/c", "/r/elfshaker_data", "/r"]);
    assert_eq!(clean_file_list("/r".as_bytes(), list), Ok(names(&["a", "b/c", ""])));
    let list = canonical(&["/x/y/a/b"]);
    assert_eq!(clean_file_list("r/s".as_bytes(), list), Ok(names(&["y/a/b"])));
    let list = canonical(&["a/b", "elfshaker_data/x"]);
    assert_eq!(clean_file_list("".as_bytes(), list), Ok(names(&["a/b"])));
}

#[test]
fn the_first_missing_file_is_reported() {
    let list = vec![
        Ok("/r/a".as_bytes().to_vec()),
        Err(io_error("first")),
        Err(io_error("second")),
    ];
    assert_eq!(clean_file_list("/r".as_bytes(), list), Err(io_error("first")));
}

#[test]
fn a_snapshot_stores_what_is_new() {
    let mut index = PackIndex::default();
    let known = [PackEntry::new("k".as_bytes(), ObjectIndex::loose([2; 20], 1))];
    index.push_snapshot("before", &known).unwrap();
    let files = names(&["a", "b", "c", "d"]);
    let sums = [[3; 20], [2; 20], [3; 20], [1; 20]];
    let sizes = vec![Ok(10), Ok(20), Ok(30), Ok(40)];
    let steps = repo().snapshot(&id(), &files, &sums, index, sizes).ok().unwrap();
    assert_eq!(steps.len(), 5);
    assert!(matches!(&steps[0], SnapshotStep::EnsureDir(dir)
        if *dir == "/r/elfshaker_data/unpacked".as_bytes()));
    assert!(matches!(&steps[1], SnapshotStep::StoreObject(o)
        if o.checksum == [1; 20] && o.file == "d".as_bytes()));
    // One of the files with the same contents is stored.
    assert!(matches!(&steps[2], SnapshotStep::StoreObject(o)
        if o.checksum == [3; 20] && o.file == "c".as_bytes()));
    match &steps[3] {
        SnapshotStep::WriteIndex(written) => {
            assert_eq!(written.entries_from_snapshot("before").unwrap(), known);
            let entries = written.entries_from_snapshot("t").unwrap();
            assert_eq!(entries.len(), 4);
            for i in 0..4 {
                assert_eq!(entries[i].path(), files[i]);
                assert_eq!(*entries[i].object_index().checksum(), sums[i]);
                assert_eq!(entries[i].object_index().size(), 10 * (i as u64 + 1));
                assert_eq!(entries[i].object_index().offset(), None);
            }
        }
        _ => panic!("the index is written after the objects"),
    }
    assert!(matches!(&steps[4], SnapshotStep::WriteHead(write)
        if write.contents == "unpacked/t".as_bytes()
            && write.dest == "/r/elfshaker_data/HEAD".as_bytes()));
}

#[test]
fn a_snapshot_of_nothing_stores_nothing() {
    let steps = repo().snapshot(&id(), &[], &[], PackIndex::default(), vec![]).ok().unwrap();
    assert_eq!(steps.len(), 3);
    assert!(matches!(&steps[1], SnapshotStep::WriteIndex(index) if index.has_snapshot("t")));
}

#[test]
fn a_snapshot_needs_a_new_tag() {
    let mut index = PackIndex::default();
    index.push_snapshot("t", &[]).unwrap();
    let taken = repo().snapshot(&id(), &names(&["a"]), &[[1; 20]], index, vec![Err(io_error("s"))]);
    assert_eq!(
        taken.err(),
        Some(Error::PackError(PackError::SnapshotAlreadyExists))
    );
}

#[test]
fn a_snapshot_needs_the_sizes() {
    let sizes = vec![Ok(1), Err(io_error("first")), Err(io_error("second"))];
    let failed = repo().snapshot(
        &id(),
        &names(&["a", "b", "c"]),
        &[[1; 20], [2; 20], [3; 20]],
        PackIndex::default(),
        sizes,
    );
    assert_eq!(failed.err(), Some(Error::IoError(io_error("first"))));
}

#[test]
fn stored_objects_are_not_written_again() {
    let repo = repo();
    assert!(repo.write_loose_object(&[0xab; 20], true).is_none());
    let write = repo.write_loose_object(&[0xab; 20], false).unwrap();
    assert_eq!(write.temp_dir, "/r/elfshaker_data/temp".as_bytes());
    assert_eq!(
        write.dest,
        "/r/elfshaker_data/unpacked/ab/ab/abababababababababababababababababab".as_bytes()
    );
}

#[test]
fn a_new_snapshot_becomes_the_head_at_the_end() {
    let mut repo = repo();
    let steps = repo
        .snapshot(&id(), &names(&["a"]), &[[1; 20]], PackIndex::default(), vec![Ok(1)])
        .ok()
        .unwrap();
    for step in &steps {
        assert_eq!(
            repo.finish_snapshot_step(&id(), step, Err(io_error("full"))),
            Err(Error::IoError(io_error("full")))
        );
        assert_eq!(*repo.head(), None);
    }
    for (k, step) in steps.iter().enumerate() {
        assert_eq!(repo.finish_snapshot_step(&id(), step, Ok(())), Ok(()));
        assert_eq!(repo.head().is_some(), k + 1 == steps.len());
    }
    assert_eq!(*repo.head(), Some(id()));
}

#[test]
fn the_store_has_every_object_that_the_index_names() {
    let repo = repo();
    let files = names(&["a", "b", "c", "d"]);
    let sums = [[3; 20], [2; 20], [3; 20], [1; 20]];
    let contents: BTreeMap<Vec<u8>, [u8; 20]> = files.iter().cloned().zip(sums).collect();
    let mut known = PackIndex::default();
    let old = [PackEntry::new("k".as_bytes(), ObjectIndex::loose([2; 20], 1))];
    known.push_snapshot("before", &old).unwrap();
    let path = |c: &[u8; 20]| build_loose_object_path("/r".as_bytes(), c);
    // Fail at each step in turn, and not at all.
    for failing in 0..6 {
        let mut index = PackIndex::default();
        index.push_snapshot("before", &old).unwrap();
        let sizes = vec![Ok(1), Ok(1), Ok(1), Ok(1)];
        let steps = repo.snapshot(&id(), &files, &sums, index, sizes).ok().unwrap();
        // The object of an earlier attempt is there already.
        let mut store = BTreeMap::from([(path(&[2; 20]), [2; 20]), (path(&[1; 20]), [1; 20])]);
        let before = store.clone();
        let mut named = vec![[2; 20]];
        for step in steps.into_iter().take(failing) {
            match step {
                SnapshotStep::StoreObject(object) => {
                    let exists = store.contains_key(&path(&object.checksum));
                    if let Some(write) = repo.write_loose_object(&object.checksum, exists) {
                        store.insert(write.dest, contents[&object.file]);
                    }
                }
                SnapshotStep::WriteIndex(written) => {
                    named = written
                        .snapshots()
                        .iter()
                        .flat_map(|s| s.entries())
                        .map(|e| *e.object_index().checksum())
                        .collect();
                }
                _ => {}
            }
        }
        for checksum in &named {
            assert_eq!(store.get(&path(checksum)), Some(checksum));
        }
        for (p, c) in &before {
            assert_eq!(store.get(p), Some(c));
        }
        assert_eq!(named.len(), if failing >= 4 { 5 } else { 1 });
    }
}

#[test]
fn an_extraction_gives_back_the_snapshot() {
    let repo = repo();
    let files = names(&["a", "b/c", "a", "d"]);
    let sums = [[7; 20], [8; 20], [7; 20], [8; 20]];
    let sizes = vec![Ok(1), Ok(2), Ok(1), Ok(2)];
    let steps = repo.snapshot(&id(), &files, &sums, PackIndex::default(), sizes).ok().unwrap();
    let mut store: BTreeMap<Vec<u8>, [u8; 20]> = BTreeMap::new();
    let mut written = None;
    for step in steps {
        match step {
            SnapshotStep::StoreObject(object) => {
                let write = repo.write_loose_object(&object.checksum, false).unwrap();
                store.insert(write.dest, object.checksum);
            }
            SnapshotStep::WriteIndex(index) => written = Some(index),
            _ => {}
        }
    }
    let begun = repo.extract(id(), ExtractOptions::default()).ok().unwrap();
    let plan = match repo.extract_from_index(begun, Ok(written.unwrap())).ok().unwrap() {
        ExtractNext::Run(plan) => plan,
        ExtractNext::ReadHead(_) => panic!("there is no head"),
    };
    let mut work: BTreeMap<Vec<u8>, [u8; 20]> = BTreeMap::new();
    for step in &plan.steps {
        if let ExtractStep::CopyObject { from, to, .. } = step {
            work.insert(to.clone(), store[from]);
        }
    }
    let expected: BTreeMap<Vec<u8>, [u8; 20]> = [("/r/a", 7), ("/r/b/c", 8), ("/r/d", 8)]
        .iter()
        .map(|(p, c)| (p.as_bytes().to_vec(), [*c; 20]))
        .collect();
    assert_eq!(work, expected);
}
