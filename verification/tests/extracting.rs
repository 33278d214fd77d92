use std::collections::{BTreeMap, BTreeSet};

use elfshaker::error::{Error, IoError, IoErrorKind, PackError};
use elfshaker::extract::{affected_paths, ExtractNext, ExtractPlan, ExtractStep, IndexSource};
use elfshaker::index::RepositoryIndex;
use elfshaker::options::ExtractOptions;
use elfshaker::pack::{PackId, SnapshotId};
use elfshaker::packidx::{ObjectIndex, PackEntry, PackIndex, PackSnapshot};
use elfshaker::repository::{IndexFile, Repository};
use elfshaker::run::Outcome;

type Work = BTreeMap<Vec<u8>, [u8; 20]>;

fn entry(path: &str, checksum: u8) -> PackEntry {
    PackEntry::new(path.as_bytes(), ObjectIndex::loose([checksum; 20], 1))
}

fn packed(pack: &str, tag: &str) -> SnapshotId {
    SnapshotId::new(PackId::Packed(pack.to_owned()), tag).unwrap()
}

fn unpacked(tag: &str) -> SnapshotId {
    SnapshotId::unpacked(tag).unwrap()
}

fn repo(head: Option<&str>) -> Repository {
    let mut index = RepositoryIndex::new();
    index.add_snapshot(&packed("p", "t"));
    index.add_snapshot(&packed("q", "t"));
    Repository::open(
        "/r".as_bytes(),
        true,
        Ok(head.map(|h| h.as_bytes().to_vec())),
        Ok(IndexFile::Decoded(index)),
    )
    .ok()
    .unwrap()
}

fn snapshots(list: Vec<(&str, Vec<PackEntry>)>) -> PackIndex {
    PackIndex::new(
        list.into_iter()
            .map(|(tag, entries)| PackSnapshot::new(tag.to_owned(), entries))
            .collect(),
    )
}

fn two() -> PackIndex {
    snapshots(vec![
        ("old", vec![entry("same", 1), entry("changed", 2), entry("gone", 3), entry("from", 4)]),
        ("new", vec![entry("same", 1), entry("changed", 5), entry("added", 6), entry("to", 4)]),
    ])
}

fn options(verify: bool, reset: bool, force: bool) -> ExtractOptions {
    let mut opts = ExtractOptions::default();
    opts.set_verify(verify);
    opts.set_reset(reset);
    opts.set_force(force);
    opts
}

fn plan(repo: &Repository, id: SnapshotId, opts: ExtractOptions, index: PackIndex) -> ExtractPlan {
    let begun = repo.extract(id, opts).ok().unwrap();
    match repo.extract_from_index(begun, Ok(index)).ok().unwrap() {
        ExtractNext::Run(plan) => plan,
        ExtractNext::ReadHead(_) => panic!("no other index is needed"),
    }
}

fn describe(plan: &ExtractPlan) -> Vec<String> {
    let text = |p: &[u8]| std::str::from_utf8(p).unwrap().to_owned();
    plan.steps
        .iter()
        .map(|step| match step {
            ExtractStep::CheckFile(p) => format!("check {}", text(p)),
            ExtractStep::DeleteFile(p) => format!("delete {}", text(p)),
            ExtractStep::CopyObject { checksum, to, .. } => {
                format!("copy {} {}", checksum[0], text(to))
            }
            ExtractStep::MakeReadonly(p) => format!("protect {}", text(p)),
            ExtractStep::VerifyFiles { paths, expected } => {
                format!("verify {} {}", paths.len(), expected.len())
            }
            ExtractStep::ExtractPacked { pack, entries, verify } => {
                format!("unpack {} {} {}", pack.name, entries.len(), verify)
            }
            ExtractStep::WriteHead(write) => format!("head {}", text(&write.contents)),
        })
        .collect()
}

fn run(work: &mut Work, step: &ExtractStep) {
    match step {
        ExtractStep::DeleteFile(p) => {
            work.remove(p);
        }
        ExtractStep::CopyObject { checksum, to, .. } => {
            work.insert(to.clone(), *checksum);
        }
        ExtractStep::ExtractPacked { pack, entries, .. } => {
            for e in entries {
                let mut path = pack.repo_path.clone();
                path.push(b'/');
                path.extend_from_slice(e.path());
                work.insert(path, *e.object_index().checksum());
            }
        }
        _ => {}
    }
}

fn work(files: &[(&str, u8)]) -> Work {
    files
        .iter()
        .map(|(p, c)| (p.as_bytes().to_vec(), [*c; 20]))
        .collect()
}

#[test]
fn options_have_defaults_and_setters() {
    let mut opts = ExtractOptions::default();
    assert!(opts.verify());
    assert!(!opts.reset());
    assert!(!opts.force());
    opts.set_verify(false);
    assert_eq!(opts, options(false, false, false));
    opts.set_reset(true);
    assert_eq!(opts, options(false, true, false));
    opts.set_force(true);
    assert_eq!(opts, options(false, true, true));
}

#[test]
fn extraction_reads_the_index_of_the_pack() {
    let repo = repo(None);
    let begun = repo.extract(packed("p", "t"), options(true, false, false)).ok().unwrap();
    assert!(matches!(&begun.source, IndexSource::Pack(file)
        if file.name == "p" && file.repo_path == "/r".as_bytes()));
    let begun = repo.extract(unpacked("t"), options(true, false, false)).ok().unwrap();
    assert!(matches!(&begun.source, IndexSource::Unpacked(path)
        if *path == "/r/elfshaker_data/unpacked/unpacked.idx".as_bytes()));
    assert_eq!(begun.snapshot_id, unpacked("t"));
    let unknown = repo.extract(packed("x", "t"), options(true, false, false));
    assert_eq!(unknown.err(), Some(Error::PackNotFound));
}

#[test]
fn extraction_needs_the_snapshot() {
    let not_found = || Some(Error::PackError(PackError::SnapshotNotFound));
    let repo = repo(Some("unpacked/lost"));
    let begun = repo.extract(unpacked("none"), ExtractOptions::default()).ok().unwrap();
    assert_eq!(repo.extract_from_index(begun, Ok(two())).err(), not_found());
    // The extracted snapshot has to be there too.
    let begun = repo.extract(unpacked("new"), ExtractOptions::default()).ok().unwrap();
    assert_eq!(repo.extract_from_index(begun, Ok(two())).err(), not_found());
    let begun = repo.extract(unpacked("new"), ExtractOptions::default()).ok().unwrap();
    let failed = Err(Error::PackError(PackError::Unreadable("x".to_owned())));
    assert_eq!(
        repo.extract_from_index(begun, failed).err(),
        Some(Error::PackError(PackError::Unreadable("x".to_owned())))
    );
}

#[test]
fn extraction_without_head_puts_all_files_in_place() {
    let repo = repo(None);
    let plan = plan(&repo, unpacked("new"), ExtractOptions::default(), two());
    assert_eq!(
        describe(&plan),
        vec![
            "copy 1 /r/same",
            "protect /r/same",
            "copy 5 /r/changed",
            "protect /r/changed",
            "copy 6 /r/added",
            "protect /r/added",
            "copy 4 /r/to",
            "protect /r/to",
            "verify 4 4",
            "head unpacked/new"
        ]
    );
    let mut files = work(&[("/r/other", 9), ("/r/same", 8)]);
    for step in &plan.steps {
        run(&mut files, step);
    }
    assert_eq!(
        files,
        work(&[
            ("/r/other", 9),
            ("/r/same", 1),
            ("/r/changed", 5),
            ("/r/added", 6),
            ("/r/to", 4)
        ])
    );
}

#[test]
fn extraction_with_reset_ignores_the_head() {
    let repo = repo(Some("unpacked/old"));
    let plan = plan(&repo, unpacked("new"), options(false, true, false), two());
    assert_eq!(
        describe(&plan),
        vec![
            "copy 1 /r/same",
            "protect /r/same",
            "copy 5 /r/changed",
            "protect /r/changed",
            "copy 6 /r/added",
            "protect /r/added",
            "copy 4 /r/to",
            "protect /r/to",
            "head unpacked/new"
        ]
    );
}

#[test]
fn extraction_goes_from_one_snapshot_to_the_other() {
    let repo = repo(Some("unpacked/old"));
    let plan = plan(&repo, unpacked("new"), options(true, false, false), two());
    assert_eq!(
        describe(&plan),
        vec![
            "check /r/from",
            "delete /r/from",
            "check /r/gone",
            "delete /r/gone",
            "check /r/changed",
            "copy 4 /r/to",
            "protect /r/to",
            "copy 5 /r/changed",
            "protect /r/changed",
            "copy 6 /r/added",
            "protect /r/added",
            "verify 3 3",
            "head unpacked/new"
        ]
    );
    let mut files = work(&[
        ("/r/same", 1),
        ("/r/changed", 2),
        ("/r/gone", 3),
        ("/r/from", 4),
        ("/r/mine", 7),
    ]);
    for step in &plan.steps {
        run(&mut files, step);
    }
    assert_eq!(
        files,
        work(&[
            ("/r/same", 1),
            ("/r/changed", 5),
            ("/r/added", 6),
            ("/r/to", 4),
            ("/r/mine", 7)
        ])
    );
}

#[test]
fn forced_extraction_checks_nothing() {
    let repo = repo(Some("p/old"));
    let plan = plan(&repo, packed("p", "new"), options(true, false, true), two());
    assert_eq!(
        describe(&plan),
        vec!["delete /r/from", "delete /r/gone", "unpack p 3 true", "head p/new"]
    );
}

#[test]
fn objects_are_copied_from_their_files() {
    let repo = repo(None);
    let index = snapshots(vec![("t", vec![entry("f", 0xab)])]);
    let plan = plan(&repo, unpacked("t"), options(false, false, false), index);
    assert!(matches!(&plan.steps[0], ExtractStep::CopyObject { from, .. }
        if *from == "/r/elfshaker_data/unpacked/ab/ab/abababababababababababababababababab"
            .as_bytes()));
}

#[test]
fn extraction_reads_the_index_of_the_head_in_another_pack() {
    let repo = repo(Some("q/old"));
    let begun = repo.extract(packed("p", "new"), options(false, false, false)).ok().unwrap();
    let lookup = match repo.extract_from_index(begun, Ok(two())).ok().unwrap() {
        ExtractNext::ReadHead(lookup) => lookup,
        ExtractNext::Run(_) => panic!("the index of the head is needed"),
    };
    assert!(matches!(&lookup.source, IndexSource::Pack(file) if file.name == "q"));
    assert_eq!(lookup.head, packed("q", "old"));
    let index = snapshots(vec![("old", vec![entry("same", 1), entry("x", 9)])]);
    let plan = repo.extract_from_head_index(lookup, Ok(index)).ok().unwrap();
    assert_eq!(
        describe(&plan),
        vec!["check /r/x", "delete /r/x", "unpack p 3 false", "head p/new"]
    );
}

#[test]
fn head_in_another_pack_has_to_be_found() {
    let next = |repo: &Repository| {
        let begun = repo.extract(packed("p", "new"), ExtractOptions::default()).ok().unwrap();
        repo.extract_from_index(begun, Ok(two()))
    };
    assert_eq!(next(&repo(Some("lost/old"))).err(), Some(Error::PackNotFound));
    let with_unpacked = repo(Some("unpacked/old"));
    let lookup = match next(&with_unpacked).ok().unwrap() {
        ExtractNext::ReadHead(lookup) => lookup,
        ExtractNext::Run(_) => panic!("the index of the head is needed"),
    };
    assert!(matches!(&lookup.source, IndexSource::Unpacked(_)));
    assert_eq!(
        with_unpacked.extract_from_head_index(lookup, Ok(PackIndex::default())).err(),
        Some(Error::PackError(PackError::SnapshotNotFound))
    );
}

#[test]
fn same_files_give_the_same_plan() {
    let repo = repo(Some("unpacked/old"));
    let a = plan(&repo, unpacked("new"), ExtractOptions::default(), two());
    let b = plan(&repo, unpacked("new"), ExtractOptions::default(), two());
    assert_eq!(describe(&a), describe(&b));
}

#[test]
fn extracted_files_pass_the_checks_of_the_next_extraction() {
    let mut readonly: BTreeSet<Vec<u8>> = BTreeSet::new();
    let go = |readonly: &mut BTreeSet<Vec<u8>>, head: Option<&str>, tag: &str| {
        let mut repo = repo(head);
        let plan = plan(&repo, unpacked(tag), ExtractOptions::default(), two());
        for step in &plan.steps {
            let outcome = match step {
                ExtractStep::CheckFile(p) => Outcome::Checked(Some(readonly.contains(p))),
                ExtractStep::DeleteFile(p) => {
                    readonly.remove(p);
                    Outcome::Deleted(Ok(()))
                }
                ExtractStep::CopyObject { to, .. } => {
                    readonly.remove(to);
                    Outcome::Transferred(Ok(()))
                }
                ExtractStep::MakeReadonly(p) => {
                    readonly.insert(p.clone());
                    Outcome::Transferred(Ok(()))
                }
                ExtractStep::VerifyFiles { expected, .. } => {
                    Outcome::Checksums(Ok(expected.clone()))
                }
                ExtractStep::WriteHead(_) => Outcome::HeadWritten(Ok(())),
                ExtractStep::ExtractPacked { .. } => panic!("the files are unpacked"),
            };
            repo.finish_extract_step(&unpacked(tag), step, outcome)?;
        }
        Ok(())
    };
    let paths = |names: &[&str]| -> BTreeSet<Vec<u8>> {
        names.iter().map(|n| n.as_bytes().to_vec()).collect()
    };
    assert_eq!(go(&mut readonly, None, "old"), Ok(()));
    assert_eq!(readonly, paths(&["/r/same", "/r/changed", "/r/gone", "/r/from"]));
    assert_eq!(go(&mut readonly, Some("unpacked/old"), "new"), Ok(()));
    assert_eq!(readonly, paths(&["/r/same", "/r/changed", "/r/added", "/r/to"]));
    // A file that was made writable is not overwritten.
    readonly.remove("/r/changed".as_bytes());
    assert_eq!(go(&mut readonly, Some("unpacked/new"), "old"), Err(Error::DirtyWorkDir));
}

#[test]
fn overwritten_paths_are_not_deleted() {
    let added = [entry("b", 1), entry("a", 2)];
    let dropped = [entry("c", 3), entry("b", 4), entry("0", 5)];
    let (updated, removed) = affected_paths(&added, &dropped);
    assert_eq!(updated, vec!["b".as_bytes().to_vec()]);
    assert_eq!(removed, vec!["0".as_bytes().to_vec(), "c".as_bytes().to_vec()]);
}

#[test]
fn only_readonly_files_are_safe_to_delete() {
    assert_eq!(Repository::ensure_safe_to_delete(Some(true)), Ok(()));
    assert_eq!(Repository::ensure_safe_to_delete(Some(false)), Err(Error::DirtyWorkDir));
    assert_eq!(Repository::ensure_safe_to_delete(None), Err(Error::DirtyWorkDir));
}

#[test]
fn a_missing_file_counts_as_deleted() {
    let error = |kind: IoErrorKind| IoError { kind, message: "m".to_owned() };
    assert_eq!(Repository::file_deleted(Ok(())), Ok(()));
    assert_eq!(Repository::file_deleted(Err(error(IoErrorKind::NotFound))), Ok(()));
    assert_eq!(
        Repository::file_deleted(Err(error(IoErrorKind::Other))),
        Err(Error::IoError(error(IoErrorKind::Other)))
    );
}

#[test]
fn checksums_are_compared() {
    let mismatch = Err(Error::PackError(PackError::ChecksumMismatch));
    assert_eq!(Repository::verify_checksums(&[[1; 20], [2; 20]], &[[1; 20], [2; 20]]), Ok(()));
    assert_eq!(Repository::verify_checksums(&[[1; 20], [2; 20]], &[[1; 20]]), Ok(()));
    assert_eq!(Repository::verify_checksums(&[[1; 20], [2; 20]], &[[1; 20], [3; 20]]), mismatch);
}

#[test]
fn outcomes_decide_how_an_extraction_ends() {
    let id = unpacked("new");
    let error = || IoError { kind: IoErrorKind::Other, message: "m".to_owned() };
    let mut repo = repo(Some("unpacked/old"));
    let plan = plan(&repo, unpacked("new"), ExtractOptions::default(), two());
    let outcome = |step: &ExtractStep| match step {
        ExtractStep::CheckFile(_) => Outcome::Checked(Some(true)),
        ExtractStep::DeleteFile(_) => Outcome::Deleted(Ok(())),
        ExtractStep::VerifyFiles { expected, .. } => Outcome::Checksums(Ok(expected.clone())),
        ExtractStep::WriteHead(_) => Outcome::HeadWritten(Ok(())),
        _ => Outcome::Transferred(Ok(())),
    };
    // Failures leave the extracted snapshot as it was.
    for step in &plan.steps {
        let (failed, expected) = match step {
            ExtractStep::CheckFile(_) => (Outcome::Checked(None), Error::DirtyWorkDir),
            ExtractStep::DeleteFile(_) => (Outcome::Deleted(Err(error())), Error::IoError(error())),
            ExtractStep::VerifyFiles { .. } => (
                Outcome::Checksums(Ok(vec![[0; 20]])),
                Error::PackError(PackError::ChecksumMismatch),
            ),
            ExtractStep::WriteHead(_) => {
                (Outcome::HeadWritten(Err(error())), Error::IoError(error()))
            }
            _ => (Outcome::Transferred(Err(Error::IoError(error()))), Error::IoError(error())),
        };
        assert_eq!(repo.finish_extract_step(&id, step, failed), Err(expected));
        assert_eq!(*repo.head(), Some(unpacked("old")));
    }
    for (k, step) in plan.steps.iter().enumerate() {
        assert_eq!(repo.finish_extract_step(&id, step, outcome(step)), Ok(()));
        let head = if k + 1 == plan.steps.len() { "new" } else { "old" };
        assert_eq!(*repo.head(), Some(unpacked(head)));
    }
}
