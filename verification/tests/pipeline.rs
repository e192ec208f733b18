use gallerina::catalog::{root_folder, Statement, ThumbOp};
use gallerina::exif::Exif;
use gallerina::indexer::{plan_files, plan_folders, Indexer};
use gallerina::models::tables::{Folder, Image};
use gallerina::models::views::{FolderScan, MediaScan};
use gallerina::scan::{ScanDir, ScanFile};
use gallerina::scanner::Stats;
use gallerina::worker::next_job;
use gallerina::writer::{count_written, image_statements, thumb_writes, Batch};
use std::collections::BTreeMap;

struct Store {
    folders: BTreeMap<String, Folder>,
    images: BTreeMap<String, Image>,
    thumbs: BTreeMap<String, Vec<u8>>,
    commits: usize,
}

/// What a file on disk holds: the bytes its thumbnail is made of, and its
/// capture time if it has one.
struct Disk {
    files: BTreeMap<String, (Vec<u8>, Option<i64>)>,
}

struct Outcome {
    stats: Stats,
    requested_new: Vec<String>,
    requested_update: Vec<String>,
}

impl Store {
    fn new() -> Store {
        let root = root_folder();
        let mut folders = BTreeMap::new();
        folders.insert(root.path.clone(), root);
        Store { folders, images: BTreeMap::new(), thumbs: BTreeMap::new(), commits: 0 }
    }

    fn run(&mut self, s: &Statement) {
        match s {
            Statement::InsertFolder { path, name, dir, mtime } => {
                let row = Folder {
                    path: path.clone(),
                    name: name.clone(),
                    dir: Some(dir.clone()),
                    mtime: *mtime,
                };
                assert!(self.folders.insert(path.clone(), row).is_none(), "folder {} twice", path);
            }
            Statement::UpdateFolder { path, mtime } => {
                if let Some(row) = self.folders.get_mut(path) {
                    row.mtime = *mtime;
                }
            }
            Statement::DeleteImagesUnder { prefix } => {
                self.images.retain(|k, _| !k.starts_with(prefix.as_str()));
            }
            Statement::DeleteFoldersUnder { prefix } => {
                self.folders.retain(|k, _| !k.starts_with(prefix.as_str()));
            }
            Statement::DeleteFolder { path } => {
                self.folders.remove(path);
            }
            Statement::DeleteImage { path } => {
                self.images.remove(path);
            }
            Statement::InsertImage { image } => {
                let row = Image {
                    path: image.path.clone(),
                    name: image.name.clone(),
                    dir: image.dir.clone(),
                    mtime: image.mtime,
                    timestamp: image.timestamp,
                };
                assert!(self.images.insert(row.path.clone(), row).is_none(), "image twice");
            }
            Statement::UpdateImage { path, mtime, timestamp } => {
                if let Some(row) = self.images.get_mut(path) {
                    row.mtime = *mtime;
                    row.timestamp = *timestamp;
                }
            }
        }
    }

    fn run_all(&mut self, statements: &[Statement]) {
        let mut batch = Batch::new(gallerina::MAX_SQL_TX_SIZE);
        for s in statements {
            if batch.inc_maybe_commit_begin() {
                self.commits += 1;
            }
            self.run(s);
        }
        batch.commit();
        self.commits += 1;
    }

    fn change(&mut self, ops: &[ThumbOp]) {
        for op in ops {
            match op {
                ThumbOp::Put { key, value } => {
                    self.thumbs.insert(key.clone(), value.clone());
                }
                ThumbOp::Delete { key } => {
                    self.thumbs.remove(key);
                }
                ThumbOp::DeleteUnder { prefix } => {
                    self.thumbs.retain(|k, _| !k.starts_with(prefix.as_str()));
                }
            }
        }
    }

    fn subfolders(&self, dir: &str) -> Vec<FolderScan> {
        self.folders
            .values()
            .filter(|f| f.dir.as_deref() == Some(dir))
            .map(|f| FolderScan { name: f.name.clone(), mtime: f.mtime })
            .collect()
    }

    fn files(&self, dir: &str) -> Vec<MediaScan> {
        self.images
            .values()
            .filter(|i| i.dir == dir)
            .map(|i| MediaScan { name: i.name.clone(), mtime: i.mtime })
            .collect()
    }

    fn folder_rows(&self) -> Vec<(String, String, Option<String>, i64)> {
        self.folders
            .values()
            .map(|f| (f.path.clone(), f.name.clone(), f.dir.clone(), f.mtime))
            .collect()
    }

    fn image_rows(&self) -> Vec<(String, String, String, i64, i64)> {
        self.images
            .values()
            .map(|i| (i.path.clone(), i.name.clone(), i.dir.clone(), i.mtime, i.timestamp))
            .collect()
    }

    fn thumb_keys(&self) -> Vec<String> {
        self.thumbs.keys().cloned().collect()
    }
}

/// One cycle over `tree`: the walk, the two plans of every directory, the
/// generation of every request and its writing.
fn index(store: &mut Store, disk: &Disk, tree: &ScanDir) -> Outcome {
    let (indexer, _) = Indexer::start(4);
    let mut stats = Stats::new();
    let mut requested_new = Vec::new();
    let mut requested_update = Vec::new();
    let mut walk = indexer.update(&mut stats, tree);
    while let Some(visit) = walk.next() {
        let folders = plan_folders(&visit.path, visit.dir, &store.subfolders(&visit.path));
        store.run_all(&folders.statements);
        store.change(&folders.thumbs);
        stats.add_folders_done(folders.folders_done);
        let files = plan_files(&visit.path, visit.dir, &store.files(&visit.path));
        stats.add_files_done(files.files_done);
        store.run_all(&files.statements);
        store.change(&files.thumbs);
        let mut request = files.request;
        requested_new.extend(request.new.iter().map(|e| e.media.path.clone()));
        requested_update.extend(request.update.iter().map(|e| e.media.path.clone()));
        let mut done = 0;
        while let Some(path) = next_job("/disk", &request, done, false) {
            let found = disk.files.get(path.strip_prefix("/disk").expect("a path below the root"));
            let exif = found.map(|(_, taken)| Exif { date_time_original: *taken, orientation: None });
            let thumb = found.map(|(bytes, _)| bytes.clone());
            request.complete_entry(done, &exif, thumb);
            done += 1;
        }
        store.change(&thumb_writes(&request));
        store.run_all(&image_statements(&request));
        count_written(&mut stats, &request);
        walk.descend(&visit);
    }
    Outcome { stats, requested_new, requested_update }
}

fn file(name: &str, mtime: i64) -> ScanFile {
    ScanFile { name: name.to_string(), mtime }
}

fn dir(name: &str, mtime: i64, dirs: Vec<ScanDir>, files: Vec<ScanFile>) -> ScanDir {
    ScanDir { name: name.to_string(), mtime, dirs, files }
}

fn gallery0() -> ScanDir {
    dir(
        ".",
        0,
        vec![
            dir("folderA", 1635097823, vec![], vec![file("deer.jpg", 1635097823)]),
            dir(
                "folderB",
                1635097963,
                vec![dir(
                    "sub",
                    1635097976,
                    vec![dir("sub", 1635097976, vec![], vec![file("bear.jpg", 1635097926)])],
                    vec![file("zebras.jpg", 1635097880)],
                )],
                vec![file("wild.jpg", 1635097861), file("duck.jpg", 1635097870)],
            ),
            dir("folderD", 1635101039, vec![], vec![file("elephants.jpg", 1635101081)]),
        ],
        vec![file("photo.jpg", 1635097492), file("rams.jpg", 1635097425)],
    )
}

fn disk0() -> Disk {
    let mut files = BTreeMap::new();
    files.insert("/folderA/deer.jpg".to_string(), (vec![1], Some(1553969835)));
    files.insert("/folderB/sub/sub/bear.jpg".to_string(), (vec![2], Some(1533470497)));
    files.insert("/folderB/sub/zebras.jpg".to_string(), (vec![3], Some(1538708222)));
    files.insert("/folderB/wild.jpg".to_string(), (vec![4], Some(1510497678)));
    files.insert("/folderB/duck.jpg".to_string(), (vec![5], Some(1528563996)));
    files.insert("/folderD/elephants.jpg".to_string(), (vec![6], None));
    files.insert("/photo.jpg".to_string(), (vec![7], None));
    files.insert("/rams.jpg".to_string(), (vec![8], None));
    Disk { files }
}

fn small() -> ScanDir {
    dir(
        ".",
        0,
        vec![
            dir("folderA", 10, vec![], vec![file("deer.jpg", 11)]),
            dir(
                "folderB",
                20,
                vec![dir("sub", 21, vec![dir("sub", 22, vec![], vec![file("bear.jpg", 23)])], vec![])],
                vec![],
            ),
        ],
        vec![file("photo.jpg", 1)],
    )
}

fn small_disk() -> Disk {
    let mut files = BTreeMap::new();
    files.insert("/folderA/deer.jpg".to_string(), (vec![1, 1], Some(5)));
    files.insert("/folderB/sub/sub/bear.jpg".to_string(), (vec![2, 2], None));
    files.insert("/photo.jpg".to_string(), (vec![3, 3], Some(7)));
    Disk { files }
}

fn s(x: &str) -> String {
    x.to_string()
}

#[test]
fn a_first_cycle_fills_both_stores() {
    let mut store = Store::new();
    let out = index(&mut store, &small_disk(), &small());
    assert_eq!(
        store.thumb_keys(),
        vec!["/folderA/deer.jpg", "/folderB/sub/sub/bear.jpg", "/photo.jpg"]
    );
    assert_eq!(
        store.image_rows(),
        vec![
            (s("/folderA/deer.jpg"), s("deer.jpg"), s("/folderA"), 11, 5),
            (s("/folderB/sub/sub/bear.jpg"), s("bear.jpg"), s("/folderB/sub/sub"), 23, 23),
            (s("/photo.jpg"), s("photo.jpg"), s("/"), 1, 7),
        ]
    );
    assert_eq!(
        store.folder_rows(),
        vec![
            (s("/"), s("."), None, 0),
            (s("/folderA"), s("folderA"), Some(s("/")), 10),
            (s("/folderB"), s("folderB"), Some(s("/")), 20),
            (s("/folderB/sub"), s("sub"), Some(s("/folderB")), 21),
            (s("/folderB/sub/sub"), s("sub"), Some(s("/folderB/sub")), 22),
        ]
    );
    assert_eq!(store.thumbs["/photo.jpg"], vec![3, 3]);
    assert_eq!(out.stats.scan_folders_count, 5);
    assert_eq!(out.stats.scan_files_count, 3);
    assert_eq!(out.requested_new.len(), 3);
    assert!(out.requested_update.is_empty());
}

#[test]
fn every_image_row_names_the_folder_that_holds_it() {
    let mut store = Store::new();
    index(&mut store, &disk0(), &gallery0());
    assert_eq!(store.images.len(), 8);
    for image in store.images.values() {
        let parent = store.folders.get(&image.dir).expect("the folder of an image");
        assert_eq!(image.path, gallerina::paths::subpath(&parent.path, &image.name));
    }
    for folder in store.folders.values() {
        match &folder.dir {
            None => assert_eq!(folder.path, "/"),
            Some(dir) => {
                let parent = store.folders.get(dir).expect("the parent of a folder");
                assert_eq!(folder.path, gallerina::paths::subpath(&parent.path, &folder.name));
            }
        }
    }
}

#[test]
fn a_second_cycle_over_an_unchanged_tree_finds_nothing_to_do() {
    let mut store = Store::new();
    let first = index(&mut store, &disk0(), &gallery0());
    assert_eq!(first.requested_new.len(), 8);
    let folders = store.folder_rows();
    let images = store.image_rows();
    let thumbs = store.thumbs.clone();
    let second = index(&mut store, &disk0(), &gallery0());
    assert!(second.requested_new.is_empty());
    assert!(second.requested_update.is_empty());
    assert_eq!(store.folder_rows(), folders);
    assert_eq!(store.image_rows(), images);
    assert_eq!(store.thumbs, thumbs);
    assert_eq!(second.stats.scan_files_count, 8);
    assert_eq!(second.stats.scan_folders_count, 6);
}

#[test]
fn a_subtree_that_is_gone_takes_its_rows_and_thumbnails_with_it() {
    let mut store = Store::new();
    index(&mut store, &disk0(), &gallery0());
    let mut tree = gallery0();
    tree.dirs.remove(1);
    let out = index(&mut store, &disk0(), &tree);
    assert!(out.requested_new.is_empty() && out.requested_update.is_empty());
    assert_eq!(
        store.thumb_keys(),
        vec!["/folderA/deer.jpg", "/folderD/elephants.jpg", "/photo.jpg", "/rams.jpg"]
    );
    let images: Vec<String> = store.images.keys().cloned().collect();
    assert_eq!(images, store.thumb_keys());
    let folders: Vec<String> = store.folders.keys().cloned().collect();
    assert_eq!(folders, vec!["/", "/folderA", "/folderD"]);
    assert_eq!(store.thumbs["/folderA/deer.jpg"], vec![1]);
    assert_eq!(store.thumbs["/folderD/elephants.jpg"], vec![6]);
    assert_eq!(
        store.images["/folderA/deer.jpg"],
        Image {
            path: s("/folderA/deer.jpg"),
            name: s("deer.jpg"),
            dir: s("/folderA"),
            mtime: 1635097823,
            timestamp: 1553969835,
        }
    );
}

#[test]
fn a_file_with_a_changed_modification_time_is_generated_anew() {
    let mut store = Store::new();
    index(&mut store, &disk0(), &gallery0());
    assert_eq!(store.images["/photo.jpg"].timestamp, 1635097492);
    let mut tree = gallery0();
    tree.files[0].mtime = 1635097503;
    let mut disk = disk0();
    disk.files.insert(s("/photo.jpg"), (vec![70], Some(1503747647)));
    let out = index(&mut store, &disk, &tree);
    assert!(out.requested_new.is_empty());
    assert_eq!(out.requested_update, vec!["/photo.jpg"]);
    assert_eq!(store.thumbs["/photo.jpg"], vec![70]);
    assert_eq!(
        store.images["/photo.jpg"],
        Image {
            path: s("/photo.jpg"),
            name: s("photo.jpg"),
            dir: s("/"),
            mtime: 1635097503,
            timestamp: 1503747647,
        }
    );
    assert_eq!(store.thumbs["/rams.jpg"], vec![8]);
    assert_eq!(out.stats.scan_files_count, 8);
}

#[test]
fn a_file_with_the_same_modification_time_is_left_alone_whatever_it_holds() {
    let mut store = Store::new();
    index(&mut store, &disk0(), &gallery0());
    let mut disk = disk0();
    disk.files.insert(s("/photo.jpg"), (vec![70], Some(1503747647)));
    let out = index(&mut store, &disk, &gallery0());
    assert!(out.requested_new.is_empty() && out.requested_update.is_empty());
    assert_eq!(store.thumbs["/photo.jpg"], vec![7]);
    assert_eq!(store.images["/photo.jpg"].timestamp, 1635097492);
}

#[test]
fn one_file_removed_and_one_added_change_one_thumbnail_each() {
    let mut store = Store::new();
    index(&mut store, &disk0(), &gallery0());
    let before = store.thumbs.clone();
    let mut tree = gallery0();
    tree.dirs[1].files.remove(0);
    tree.dirs[2].files.push(file("horses.jpg", 1635101071));
    let mut disk = disk0();
    disk.files.remove("/folderB/wild.jpg");
    disk.files.insert(s("/folderD/horses.jpg"), (vec![9], None));
    let out = index(&mut store, &disk, &tree);
    assert_eq!(out.requested_new, vec!["/folderD/horses.jpg"]);
    assert!(out.requested_update.is_empty());
    assert!(!store.thumbs.contains_key("/folderB/wild.jpg"));
    assert!(!store.images.contains_key("/folderB/wild.jpg"));
    assert_eq!(store.thumbs["/folderD/horses.jpg"], vec![9]);
    assert_eq!(store.images["/folderD/horses.jpg"].timestamp, 1635101071);
    assert_eq!(store.thumbs.len(), before.len());
    for (key, bytes) in &before {
        if key != "/folderB/wild.jpg" {
            assert_eq!(&store.thumbs[key], bytes);
        }
    }
    for key in store.thumbs.keys() {
        assert!(key == "/folderD/horses.jpg" || before.contains_key(key));
    }
}

#[test]
fn a_file_without_thumbnail_still_has_its_row() {
    let mut store = Store::new();
    let mut disk = small_disk();
    disk.files.remove("/photo.jpg");
    index(&mut store, &disk, &small());
    assert_eq!(store.thumb_keys(), vec!["/folderA/deer.jpg", "/folderB/sub/sub/bear.jpg"]);
    assert_eq!(store.images["/photo.jpg"].timestamp, 1);
    assert_eq!(store.images.len(), 3);
}

#[test]
fn a_folder_that_is_gone_leaves_a_sibling_whose_name_begins_with_its_name() {
    let tree = dir(
        ".",
        0,
        vec![
            dir("folderB", 1, vec![dir("sub", 3, vec![], vec![file("d.jpg", 4)])], vec![file("b.jpg", 1)]),
            dir("folderBC", 2, vec![dir("deep", 5, vec![], vec![file("e.jpg", 6)])], vec![file("c.jpg", 2)]),
        ],
        vec![file("folderB.jpg", 7)],
    );
    let mut files = BTreeMap::new();
    files.insert(s("/folderB/b.jpg"), (vec![1], None));
    files.insert(s("/folderB/sub/d.jpg"), (vec![4], None));
    files.insert(s("/folderBC/c.jpg"), (vec![2], Some(20)));
    files.insert(s("/folderBC/deep/e.jpg"), (vec![6], None));
    files.insert(s("/folderB.jpg"), (vec![7], Some(70)));
    let disk = Disk { files };
    let mut store = Store::new();
    index(&mut store, &disk, &tree);
    assert_eq!(store.thumbs.len(), 5);
    let folders_before = store.folder_rows();
    let images_before = store.image_rows();
    let thumbs_before = store.thumbs.clone();

    let mut tree = tree;
    tree.dirs.remove(0);
    let out = index(&mut store, &disk, &tree);

    // Nothing of the sibling or of the file beside it is touched or made anew.
    assert!(out.requested_new.is_empty() && out.requested_update.is_empty());
    assert_eq!(
        store.thumb_keys(),
        vec!["/folderB.jpg", "/folderBC/c.jpg", "/folderBC/deep/e.jpg"]
    );
    for key in store.thumbs.keys() {
        assert_eq!(store.thumbs[key], thumbs_before[key]);
    }
    let folders: Vec<String> = store.folders.keys().cloned().collect();
    assert_eq!(folders, vec!["/", "/folderBC", "/folderBC/deep"]);
    for row in store.folder_rows() {
        assert!(folders_before.contains(&row));
    }
    let images: Vec<String> = store.images.keys().cloned().collect();
    assert_eq!(images, store.thumb_keys());
    for row in store.image_rows() {
        assert!(images_before.contains(&row));
    }
    assert_eq!(store.images["/folderBC/c.jpg"].timestamp, 20);
    assert_eq!(store.images["/folderB.jpg"].timestamp, 70);

    // And a further cycle finds nothing to do.
    let again = index(&mut store, &disk, &tree);
    assert!(again.requested_new.is_empty() && again.requested_update.is_empty());
    assert_eq!(store.folder_rows().len(), 3);
}

#[test]
fn a_folder_that_gave_way_to_a_file_of_its_name_leaves_the_file() {
    let before = dir(".", 0, vec![dir("a.jpg", 1, vec![], vec![file("x.jpg", 2)])], vec![]);
    let after = dir(".", 0, vec![], vec![file("a.jpg", 3)]);
    let mut files = BTreeMap::new();
    files.insert(s("/a.jpg/x.jpg"), (vec![1], None));
    let mut store = Store::new();
    index(&mut store, &Disk { files }, &before);
    assert_eq!(store.thumb_keys(), vec!["/a.jpg/x.jpg"]);
    let mut files = BTreeMap::new();
    files.insert(s("/a.jpg"), (vec![9], None));
    let out = index(&mut store, &Disk { files }, &after);
    assert_eq!(out.requested_new, vec!["/a.jpg"]);
    assert_eq!(store.thumb_keys(), vec!["/a.jpg"]);
    assert_eq!(store.thumbs["/a.jpg"], vec![9]);
    let folders: Vec<String> = store.folders.keys().cloned().collect();
    assert_eq!(folders, vec!["/"]);
    let images: Vec<String> = store.images.keys().cloned().collect();
    assert_eq!(images, vec!["/a.jpg"]);
}

#[test]
fn statements_are_committed_in_batches() {
    let files: Vec<ScanFile> = (0..2500).map(|i| file(&format!("f{}.jpg", i), i)).collect();
    let tree = dir(".", 0, vec![], files);
    let mut store = Store::new();
    let disk = Disk { files: BTreeMap::new() };
    let out = index(&mut store, &disk, &tree);
    assert_eq!(store.images.len(), 2500);
    assert_eq!(out.stats.scan_files_count, 2500);
    assert!(store.thumbs.is_empty());
    // Two plans without statements, each one commit; 2500 inserts in three transactions.
    assert_eq!(store.commits, 2 + 3);
}
