use gallerina::scan::{
    classify, finish_dir, is_hidden, keep_if_media, scan_dir, scan_tree, split_level, Entry,
    RawEntry, RawListing, RawMeta, RawTree, ScanDir, ScanFile,
};
use gallerina::scanner::{ScanError, Stats};

fn file(name: &str, mtime: i64) -> RawEntry {
    RawEntry { name: name.to_string(), meta: Some(RawMeta { mtime, is_dir: false, is_file: true }) }
}

fn dir(name: &str, mtime: i64) -> RawEntry {
    RawEntry { name: name.to_string(), meta: Some(RawMeta { mtime, is_dir: true, is_file: false }) }
}

fn other(name: &str) -> RawEntry {
    RawEntry {
        name: name.to_string(),
        meta: Some(RawMeta { mtime: 1, is_dir: false, is_file: false }),
    }
}

fn unreadable(name: &str) -> RawEntry {
    RawEntry { name: name.to_string(), meta: None }
}

fn shown(e: Option<Entry>) -> String {
    match e {
        None => "dropped".to_string(),
        Some(Entry::Dir(name, mtime)) => format!("dir {} {}", name, mtime),
        Some(Entry::File(name, mtime)) => format!("file {} {}", name, mtime),
    }
}

fn leaf(name: &str) -> ScanDir {
    ScanDir { name: name.to_string(), mtime: 5, dirs: vec![], files: vec![] }
}

#[test]
fn names_with_a_leading_dot_are_hidden() {
    assert!(is_hidden(".git"));
    assert!(is_hidden("."));
    assert!(is_hidden(".photo.jpg"));
    assert!(!is_hidden("photo.jpg"));
    assert!(!is_hidden("a.b"));
    assert!(!is_hidden(""));
}

#[test]
fn media_files_and_directories_are_kept() {
    assert_eq!(shown(classify(&file("photo.jpg", 10))), "file photo.jpg 10");
    assert_eq!(shown(classify(&file("CLIP.MP4", 11))), "file CLIP.MP4 11");
    assert_eq!(shown(classify(&dir("folderA", 12))), "dir folderA 12");
    assert_eq!(shown(classify(&dir("folder.jpg", 13))), "dir folder.jpg 13");
}

#[test]
fn hidden_unreadable_and_other_entries_are_dropped() {
    assert_eq!(shown(classify(&file(".photo.jpg", 10))), "dropped");
    assert_eq!(shown(classify(&dir(".cache", 10))), "dropped");
    assert_eq!(shown(classify(&file("notes.txt", 10))), "dropped");
    assert_eq!(shown(classify(&file("photo", 10))), "dropped");
    assert_eq!(shown(classify(&other("pipe.jpg"))), "dropped");
    assert_eq!(shown(classify(&unreadable("photo.jpg"))), "dropped");
}

#[test]
fn a_level_is_split_in_the_order_of_its_entries() {
    let entries = vec![
        file("b.jpg", 2),
        dir("z", 3),
        file("readme.md", 4),
        dir(".hidden", 5),
        file("a.png", 6),
        unreadable("c.gif"),
        dir("y", 7),
    ];
    let mut stats = Stats::new();
    stats.scan_files_total = 10;
    let level = split_level(&mut stats, &entries);
    assert_eq!(stats.scan_files_total, 12);
    assert_eq!(stats.scan_folders_total, 0);
    let files: Vec<(String, i64)> = level.files.into_iter().map(|f| (f.name, f.mtime)).collect();
    let dirs: Vec<(String, i64)> = level.subdirs.into_iter().map(|d| (d.name, d.mtime)).collect();
    assert_eq!(files, vec![("b.jpg".to_string(), 2), ("a.png".to_string(), 6)]);
    assert_eq!(dirs, vec![("z".to_string(), 3), ("y".to_string(), 7)]);
}

#[test]
fn an_empty_level_has_nothing() {
    let mut stats = Stats::new();
    let level = split_level(&mut stats, &vec![]);
    assert!(level.files.is_empty());
    assert!(level.subdirs.is_empty());
    assert_eq!(stats.scan_files_total, 0);
}

#[test]
fn a_subdirectory_without_media_is_left_out() {
    let mut dirs = Vec::new();
    keep_if_media(&mut dirs, true, leaf("a"));
    keep_if_media(&mut dirs, false, leaf("b"));
    keep_if_media(&mut dirs, true, leaf("c"));
    let names: Vec<String> = dirs.into_iter().map(|d| d.name).collect();
    assert_eq!(names, vec!["a".to_string(), "c".to_string()]);
}

#[test]
fn a_directory_holds_media_when_a_file_or_a_subdirectory_is_left() {
    let f = || vec![ScanFile { name: "a.jpg".to_string(), mtime: 1 }];
    let mut stats = Stats::new();
    let (has, d) = finish_dir(&mut stats, "x".to_string(), 9, vec![], f());
    assert!(has);
    assert_eq!((d.name.as_str(), d.mtime, d.dirs.len(), d.files.len()), ("x", 9, 0, 1));
    assert_eq!(stats.scan_folders_total, 1);
    let (has, d) = finish_dir(&mut stats, "x".to_string(), 9, vec![leaf("sub")], vec![]);
    assert!(has);
    assert_eq!((d.dirs.len(), d.files.len()), (1, 0));
    assert_eq!(stats.scan_folders_total, 2);
    let (has, d) = finish_dir(&mut stats, "x".to_string(), 9, vec![], vec![]);
    assert!(!has);
    assert_eq!((d.name.as_str(), d.mtime, d.dirs.len(), d.files.len()), ("x", 9, 0, 0));
    assert_eq!(stats.scan_folders_total, 2);
    assert_eq!(stats.scan_files_total, 0);
}

fn leaf_file(name: &str, mtime: i64) -> RawTree {
    RawTree { entry: file(name, mtime), listing: RawListing::Entries(vec![]) }
}

fn folder(name: &str, mtime: i64, content: Vec<RawTree>) -> RawTree {
    RawTree { entry: dir(name, mtime), listing: RawListing::Entries(content) }
}

fn locked(name: &str, cause: &str) -> RawTree {
    RawTree { entry: dir(name, 1), listing: RawListing::Failed(cause.to_string()) }
}

fn outline(d: &ScanDir) -> String {
    let files: Vec<String> = d.files.iter().map(|f| format!("{}@{}", f.name, f.mtime)).collect();
    let dirs: Vec<String> = d.dirs.iter().map(outline).collect();
    format!("{}@{}[{}]({})", d.name, d.mtime, files.join(","), dirs.join(","))
}

#[test]
fn a_tree_is_scanned_level_by_level() {
    let listing = RawListing::Entries(vec![
        leaf_file("photo.jpg", 1),
        folder("folderA", 2, vec![leaf_file("deer.jpg", 3), leaf_file("notes.txt", 4)]),
        leaf_file("readme", 5),
        folder(
            "folderB",
            6,
            vec![folder("sub", 7, vec![folder("sub", 8, vec![leaf_file("bear.jpg", 9)])])],
        ),
    ]);
    let mut stats = Stats::new();
    stats.scan_files_total = 100;
    stats.scan_folders_total = 100;
    stats.scan_files_count = 7;
    let root = scan_dir(&mut stats, "/data", &listing).expect("a snapshot");
    assert_eq!(
        outline(&root),
        ".@0[photo.jpg@1](folderA@2[deer.jpg@3](),folderB@6[](sub@7[](sub@8[bear.jpg@9]())))"
    );
    assert_eq!(stats.scan_files_total, 3);
    assert_eq!(stats.scan_folders_total, 5);
    assert_eq!(stats.scan_files_count, 7);
}

#[test]
fn directories_without_media_are_pruned() {
    let listing = RawListing::Entries(vec![
        folder("empty", 1, vec![]),
        folder("texts", 2, vec![leaf_file("a.txt", 3)]),
        folder("deep", 4, vec![folder("deeper", 5, vec![folder("deepest", 6, vec![])])]),
        folder("kept", 7, vec![folder("void", 8, vec![]), leaf_file("a.gif", 9)]),
    ]);
    let mut stats = Stats::new();
    let root = scan_dir(&mut stats, "/data", &listing).expect("a snapshot");
    assert_eq!(outline(&root), ".@0[](kept@7[a.gif@9]())");
    assert_eq!(stats.scan_files_total, 1);
    assert_eq!(stats.scan_folders_total, 2);
}

#[test]
fn a_tree_without_media_leaves_a_bare_root() {
    let listing = RawListing::Entries(vec![folder("empty", 1, vec![]), leaf_file("a.txt", 2)]);
    let mut stats = Stats::new();
    stats.scan_files_total = 4;
    stats.scan_folders_total = 2;
    let (has_media, root) =
        scan_tree(&mut stats, "/data", &listing, "top".to_string(), 3).expect("a snapshot");
    assert!(!has_media);
    assert_eq!(outline(&root), "top@3[]()");
    assert_eq!((stats.scan_files_total, stats.scan_folders_total), (4, 2));
    let empty = RawListing::Entries(vec![]);
    assert_eq!(outline(&scan_dir(&mut stats, "/data", &empty).unwrap()), ".@0[]()");
    assert_eq!((stats.scan_files_total, stats.scan_folders_total), (0, 0));
}

#[test]
fn hidden_directories_are_not_descended_into() {
    let listing = RawListing::Entries(vec![
        locked(".trash", "denied"),
        folder(".cache", 1, vec![leaf_file("a.jpg", 2)]),
        leaf_file("b.jpg", 3),
    ]);
    let root = scan_dir(&mut Stats::new(), "/data", &listing).expect("a snapshot");
    assert_eq!(outline(&root), ".@0[b.jpg@3]()");
}

#[test]
fn a_directory_that_cannot_be_read_fails_the_scan() {
    let listing = RawListing::Entries(vec![
        leaf_file("photo.jpg", 1),
        folder("folderA", 2, vec![locked("inner", "permission denied")]),
        locked("later", "gone"),
    ]);
    match scan_dir(&mut Stats::new(), "/data", &listing) {
        Err(ScanError::Io(path, cause)) => {
            assert_eq!(path, "/data/folderA/inner");
            assert_eq!(cause, "permission denied");
        }
        other => panic!("unexpected {:?}", other),
    }
    let failed = RawListing::Failed("no such directory".to_string());
    match scan_dir(&mut Stats::new(), "/data", &failed) {
        Err(ScanError::Io(path, cause)) => {
            assert_eq!(path, "/data");
            assert_eq!(cause, "no such directory");
        }
        other => panic!("unexpected {:?}", other),
    }
}

#[test]
fn the_listing_of_a_file_is_not_looked_at() {
    let listing = RawListing::Entries(vec![RawTree {
        entry: file("photo.jpg", 1),
        listing: RawListing::Failed("not a directory".to_string()),
    }]);
    let root = scan_dir(&mut Stats::new(), "/data", &listing).unwrap();
    assert_eq!(outline(&root), ".@0[photo.jpg@1]()");
}
