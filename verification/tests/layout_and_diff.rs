use elfshaker::byteset::ByteSet;
use elfshaker::constants::UNPACKED_DIR;
use elfshaker::layout::{
    build_head_path, build_index_path, build_loose_object_path, build_packs_path, build_temp_path,
    build_unpacked_index_path, build_unpacked_path,
};
use elfshaker::packidx::{ObjectIndex, PackEntry};
use elfshaker::path::{
    is_data_dir, join_path, path_components, path_is_relative, path_without_first,
};
use elfshaker::repository::Repository;

fn entry(path: &str, checksum: u8, size: u64) -> PackEntry {
    PackEntry::new(path.as_bytes(), ObjectIndex::loose([checksum; 20], size))
}

fn names(paths: &[&str]) -> Vec<Vec<u8>> {
    paths.iter().map(|p| p.as_bytes().to_vec()).collect()
}

#[test]
fn building_loose_object_paths_works() {
    let checksum = [
        0xFA, 0xF0, 0xDE, 0xAD, 0xBE, 0xEF, 0xBA, 0xDC, 0x0D, 0xE0, 0xFA, 0xF0, 0xDE, 0xAD, 0xBE,
        0xEF, 0xBA, 0xDC, 0x0D, 0xE0,
    ];
    let path = build_loose_object_path("/repo".as_bytes(), &checksum);
    assert_eq!(
        format!(
            "/repo/{}/{}/fa/f0/deadbeefbadc0de0faf0deadbeefbadc0de0",
            Repository::data_dir(),
            UNPACKED_DIR
        ),
        std::str::from_utf8(&path).unwrap(),
    );
}

#[test]
fn data_dir_detected() {
    let path = format!("{}", Repository::data_dir());
    assert!(is_data_dir(path.as_bytes()));
}

#[test]
fn data_dir_detected_as_parent() {
    let path = format!("{}/something", Repository::data_dir());
    assert!(is_data_dir(path.as_bytes()));
}

#[test]
fn data_dir_not_detected_incorrectly() {
    let path = "some/path/something";
    assert!(!is_data_dir(path.as_bytes()));
}

#[test]
fn data_dir_below_the_first_component_is_no_data_dir() {
    let path = format!("some/{}", Repository::data_dir());
    assert!(!is_data_dir(path.as_bytes()));
    assert!(!is_data_dir("elfshaker_data2/x".as_bytes()));
    assert!(!is_data_dir("./elfshaker_data".as_bytes()));
    assert!(!is_data_dir("".as_bytes()));
    assert!(is_data_dir("elfshaker_data//x".as_bytes()));
}

#[test]
fn compute_entry_diff_finds_updates() {
    let path = "/path/to/A";
    let old_checksum = [0; 20];
    let new_checksum = [1; 20];
    let old_entries = [PackEntry::new(
        path.as_bytes(),
        ObjectIndex::loose(old_checksum, 1),
    )];
    let new_entries = [PackEntry::new(
        path.as_bytes(),
        ObjectIndex::loose(new_checksum, 1),
    )];
    let (added, removed) = Repository::compute_entry_diff(&old_entries, &new_entries);
    assert_eq!(1, added.len());
    assert_eq!(path.as_bytes(), added[0].path());
    assert_eq!(1, removed.len());
    assert_eq!(path.as_bytes(), removed[0].path());
}

#[test]
fn compute_entry_diff_finds_update_of_duplicated() {
    let path_a = "/path/to/A".as_bytes();
    let path_a_old_checksum = [0; 20];
    let path_b = "/path/to/B".as_bytes();
    let path_b_old_checksum = [0; 20];
    let path_a_new_checksum = [1; 20];
    let old_entries = [
        PackEntry::new(path_a, ObjectIndex::loose(path_a_old_checksum, 1)),
        PackEntry::new(path_b, ObjectIndex::loose(path_b_old_checksum, 1)),
    ];
    let new_entries = [PackEntry::new(
        path_a,
        ObjectIndex::loose(path_a_new_checksum, 1),
    )];
    let (added, removed) = Repository::compute_entry_diff(&old_entries, &new_entries);
    assert_eq!(1, added.len());
    assert_eq!(path_a, added[0].path());
    assert_eq!(2, removed.len());
    assert!(removed.iter().any(|e| path_a == e.path()));
    assert!(removed.iter().any(|e| path_b == e.path()));
}

#[test]
fn compute_entry_diff_path_switch() {
    let path_a = "/path/to/A".as_bytes();
    let path_a_old_checksum = [0; 20];
    let path_a_new_checksum = [1; 20];
    let path_b = "/path/to/B".as_bytes();
    let path_b_old_checksum = [1; 20];
    let path_b_new_checksum = [0; 20];
    let old_entries = [
        PackEntry::new(path_a, ObjectIndex::loose(path_a_old_checksum, 1)),
        PackEntry::new(path_b, ObjectIndex::loose(path_b_old_checksum, 1)),
    ];
    let new_entries = [
        PackEntry::new(path_a, ObjectIndex::loose(path_a_new_checksum, 1)),
        PackEntry::new(path_b, ObjectIndex::loose(path_b_new_checksum, 1)),
    ];
    let (added, removed) = Repository::compute_entry_diff(&old_entries, &new_entries);
    assert_eq!(2, added.len());
    assert!(added
        .iter()
        .any(|e| path_a == e.path() && path_a_new_checksum == *e.object_index().checksum()));
    assert!(added
        .iter()
        .any(|e| path_b == e.path() && path_b_new_checksum == *e.object_index().checksum()));
    assert_eq!(2, removed.len());
    assert!(removed
        .iter()
        .any(|e| path_a == e.path() && path_a_old_checksum == *e.object_index().checksum()));
    assert!(removed
        .iter()
        .any(|e| path_b == e.path() && path_b_old_checksum == *e.object_index().checksum()));
}

#[test]
fn difference_is_ordered_by_checksum_then_path() {
    let from = [entry("gone", 7, 1), entry("kept", 3, 1)];
    let to = [
        entry("z", 9, 1),
        entry("kept", 3, 2),
        entry("b", 1, 1),
        entry("a", 1, 1),
        entry("c", 0, 1),
    ];
    let (added, removed) = Repository::compute_entry_diff(&from, &to);
    let paths: Vec<&[u8]> = added.iter().map(|e| e.path()).collect();
    assert_eq!(
        paths,
        vec![
            "c".as_bytes(),
            "a".as_bytes(),
            "b".as_bytes(),
            "z".as_bytes()
        ]
    );
    assert_eq!(removed, vec![entry("gone", 7, 1)]);
}

#[test]
fn difference_lists_a_repeated_file_once() {
    let from = [];
    let to = [entry("a", 1, 10), entry("a", 1, 20), entry("a", 2, 30)];
    let (added, removed) = Repository::compute_entry_diff(&from, &to);
    assert_eq!(added, vec![entry("a", 1, 20), entry("a", 2, 30)]);
    assert!(removed.is_empty());
}

#[test]
fn a_list_does_not_differ_from_itself() {
    let list = [entry("a", 1, 1), entry("b", 1, 1), entry("c", 2, 1)];
    let (added, removed) = Repository::compute_entry_diff(&list, &list);
    assert!(added.is_empty());
    assert!(removed.is_empty());
}

#[test]
fn paths_of_the_data_directory() {
    let repo = "/repo".as_bytes();
    assert_eq!(build_head_path(repo), "/repo/elfshaker_data/HEAD".as_bytes());
    assert_eq!(build_index_path(repo), "/repo/elfshaker_data/index".as_bytes());
    assert_eq!(build_packs_path(repo), "/repo/elfshaker_data/packs".as_bytes());
    assert_eq!(build_unpacked_path(repo), "/repo/elfshaker_data/unpacked".as_bytes());
    assert_eq!(
        build_unpacked_index_path(repo),
        "/repo/elfshaker_data/unpacked/unpacked.idx".as_bytes()
    );
    assert_eq!(build_temp_path(repo), "/repo/elfshaker_data/temp".as_bytes());
    assert_eq!(build_temp_path("".as_bytes()), "elfshaker_data/temp".as_bytes());
}

#[test]
fn loose_object_paths_of_different_objects_differ() {
    let a = [0x10; 20];
    let mut b = a;
    b[19] = 0x01;
    let pa = build_loose_object_path("r".as_bytes(), &a);
    let pb = build_loose_object_path("r".as_bytes(), &b);
    assert_ne!(pa, pb);
    assert_eq!(
        pa,
        "r/elfshaker_data/unpacked/10/10/101010101010101010101010101010101010".as_bytes()
    );
}

#[test]
fn joining_paths() {
    assert_eq!(join_path("a".as_bytes(), "b".as_bytes()), "a/b".as_bytes());
    assert_eq!(join_path("a/".as_bytes(), "b".as_bytes()), "a/b".as_bytes());
    assert_eq!(join_path("".as_bytes(), "b".as_bytes()), "b".as_bytes());
    assert_eq!(join_path("a".as_bytes(), "/b".as_bytes()), "/b".as_bytes());
    assert_eq!(join_path("a".as_bytes(), "".as_bytes()), "a/".as_bytes());
    assert!(path_is_relative("a/b".as_bytes()));
    assert!(path_is_relative("".as_bytes()));
    assert!(!path_is_relative("/a".as_bytes()));
}

#[test]
fn joining_agrees_with_std_paths() {
    for base in ["", "/", "a", "a/", "/a/b", "."] {
        for p in ["", "b", "/b", "b/c", "./b", "../b"] {
            let joined = std::path::Path::new(base).join(p);
            assert_eq!(
                join_path(base.as_bytes(), p.as_bytes()),
                joined.to_str().unwrap().as_bytes()
            );
        }
    }
}

#[test]
fn components_agree_with_std_paths() {
    for p in [
        "", "/", "a", "a/b", "/a//b/", "./a", "a/./b", "a/.", ".", "..", "../a/..", "//", "a//", "./.",
    ] {
        let expected: Vec<Vec<u8>> = std::path::Path::new(p)
            .components()
            .map(|c| c.as_os_str().to_str().unwrap().as_bytes().to_vec())
            .collect();
        assert_eq!(path_components(p.as_bytes()), expected);
        for n in 0..4 {
            let rest: std::path::PathBuf = std::path::Path::new(p).components().skip(n).collect();
            assert_eq!(
                path_without_first(p.as_bytes(), n),
                rest.to_str().unwrap().as_bytes()
            );
        }
    }
}

#[test]
fn skipping_the_components_of_a_directory() {
    let dir = "/home/x/repo".as_bytes();
    let below = "src/main.rs".as_bytes();
    let n = path_components(dir).len();
    assert_eq!(n, 4);
    assert_eq!(path_without_first(&join_path(dir, below), n), below);
}

#[test]
fn byte_sets() {
    let a = ByteSet::from_items(&names(&["b", "a", "b", "", "c"]));
    let b = ByteSet::from_items(&names(&["c", "d", "a"]));
    assert!(a.contains("b".as_bytes()));
    assert!(a.contains("".as_bytes()));
    assert!(!a.contains("d".as_bytes()));
    assert_eq!(a.select(&b, true), names(&["a", "c"]));
    assert_eq!(a.select(&b, false), names(&["", "b"]));
    assert_eq!(b.select(&a, false), names(&["d"]));
}
