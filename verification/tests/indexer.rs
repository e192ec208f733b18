use gallerina::catalog::{root_folder, Statement, ThumbOp};
use gallerina::indexer::{
    plan_files, plan_folders, Indexer, IndexerHandle, ShutdownStep,
};
use gallerina::models::views::{FolderScan, MediaScan};
use gallerina::scan::{ScanDir, ScanFile};
use gallerina::scanner::Stats;

fn file(name: &str, mtime: i64) -> ScanFile {
    ScanFile { name: name.to_string(), mtime }
}

fn dir(name: &str, mtime: i64, dirs: Vec<ScanDir>, files: Vec<ScanFile>) -> ScanDir {
    ScanDir { name: name.to_string(), mtime, dirs, files }
}

fn folder_row(name: &str, mtime: i64) -> FolderScan {
    FolderScan { name: name.to_string(), mtime }
}

fn media_row(name: &str, mtime: i64) -> MediaScan {
    MediaScan { name: name.to_string(), mtime }
}

fn shown(s: &Statement) -> String {
    match s {
        Statement::InsertFolder { path, name, dir, mtime } => {
            format!("insert folder {} {} {} {}", path, name, dir, mtime)
        }
        Statement::UpdateFolder { path, mtime } => format!("update folder {} {}", path, mtime),
        Statement::DeleteImagesUnder { prefix } => format!("delete images under {}", prefix),
        Statement::DeleteFoldersUnder { prefix } => format!("delete folders under {}", prefix),
        Statement::DeleteFolder { path } => format!("delete folder {}", path),
        Statement::DeleteImage { path } => format!("delete image {}", path),
        other => format!("{:?}", other),
    }
}

fn shown_op(op: &ThumbOp) -> String {
    match op {
        ThumbOp::Put { key, value } => format!("put {} {:?}", key, value),
        ThumbOp::Delete { key } => format!("delete {}", key),
        ThumbOp::DeleteUnder { prefix } => format!("delete under {}", prefix),
    }
}

fn tree() -> ScanDir {
    dir(
        ".",
        0,
        vec![
            dir("folderA", 1, vec![], vec![file("deer.jpg", 2)]),
            dir(
                "folderB",
                3,
                vec![dir("sub", 4, vec![dir("sub", 5, vec![], vec![file("bear.jpg", 6)])], vec![])],
                vec![],
            ),
            dir("folderD", 7, vec![], vec![file("elephants.jpg", 8)]),
        ],
        vec![file("photo.jpg", 9)],
    )
}

#[test]
fn the_root_folder_has_no_parent() {
    let r = root_folder();
    assert_eq!((r.path.as_str(), r.name.as_str(), r.dir, r.mtime), ("/", ".", None, 0));
}

#[test]
fn against_an_empty_catalog_every_subfolder_is_inserted() {
    let plan = plan_folders("/", &tree(), &vec![]);
    let shown: Vec<String> = plan.statements.iter().map(shown).collect();
    assert_eq!(
        shown,
        vec![
            "insert folder /folderA folderA / 1",
            "insert folder /folderB folderB / 3",
            "insert folder /folderD folderD / 7",
        ]
    );
    assert!(plan.thumbs.is_empty());
    assert_eq!(plan.folders_done, 3);
}

#[test]
fn subfolders_are_inserted_updated_and_removed_in_this_order() {
    let db = vec![
        folder_row("gone", 1),
        folder_row("folderB", 3),
        folder_row("folderD", 70),
        folder_row("old", 2),
    ];
    let plan = plan_folders("/", &tree(), &db);
    let shown: Vec<String> = plan.statements.iter().map(shown).collect();
    assert_eq!(
        shown,
        vec![
            "insert folder /folderA folderA / 1",
            "update folder /folderD 7",
            "delete images under /gone/",
            "delete folders under /gone/",
            "delete folder /gone",
            "delete images under /old/",
            "delete folders under /old/",
            "delete folder /old",
        ]
    );
    let ops: Vec<String> = plan.thumbs.iter().map(shown_op).collect();
    assert_eq!(ops, vec!["delete under /gone/", "delete under /old/"]);
    assert_eq!(plan.folders_done, 3);
}

#[test]
fn subfolders_of_a_deeper_directory_get_its_path() {
    let b = dir("folderB", 3, vec![dir("sub", 4, vec![], vec![file("x.jpg", 1)])], vec![]);
    let plan = plan_folders("/folderB", &b, &vec![folder_row("was", 9)]);
    let shown: Vec<String> = plan.statements.iter().map(shown).collect();
    assert_eq!(
        shown,
        vec![
            "insert folder /folderB/sub sub /folderB 4",
            "delete images under /folderB/was/",
            "delete folders under /folderB/was/",
            "delete folder /folderB/was",
        ]
    );
    assert_eq!(plan.folders_done, 1);
}

#[test]
fn a_catalog_that_mirrors_the_subfolders_asks_for_nothing() {
    let db = vec![folder_row("folderD", 7), folder_row("folderA", 1), folder_row("folderB", 3)];
    let plan = plan_folders("/", &tree(), &db);
    assert!(plan.statements.is_empty());
    assert!(plan.thumbs.is_empty());
    assert_eq!(plan.folders_done, 3);
}

#[test]
fn files_are_requested_removed_or_counted_as_done() {
    let d = dir(
        "folderB",
        3,
        vec![],
        vec![file("new.jpg", 1), file("same.jpg", 2), file("touched.jpg", 3), file("fresh.png", 4)],
    );
    let db = vec![media_row("same.jpg", 2), media_row("touched.jpg", 30), media_row("gone.gif", 5)];
    let plan = plan_files("/folderB", &d, &db);
    let shown: Vec<String> = plan.statements.iter().map(shown).collect();
    assert_eq!(shown, vec!["delete image /folderB/gone.gif"]);
    let ops: Vec<String> = plan.thumbs.iter().map(shown_op).collect();
    assert_eq!(ops, vec!["delete /folderB/gone.gif"]);
    assert_eq!(plan.files_done, 1);
    let new: Vec<(&str, &str, &str, i64, i64)> = plan
        .request
        .new
        .iter()
        .map(|e| {
            (
                e.media.path.as_str(),
                e.media.name.as_str(),
                e.media.dir.as_str(),
                e.media.mtime,
                e.media.timestamp,
            )
        })
        .collect();
    assert_eq!(
        new,
        vec![
            ("/folderB/new.jpg", "new.jpg", "/folderB", 1, 0),
            ("/folderB/fresh.png", "fresh.png", "/folderB", 4, 0),
        ]
    );
    let update: Vec<(&str, i64)> =
        plan.request.update.iter().map(|e| (e.media.path.as_str(), e.media.mtime)).collect();
    assert_eq!(update, vec![("/folderB/touched.jpg", 3)]);
    assert!(plan.request.new.iter().chain(plan.request.update.iter()).all(|e| e.thumb.is_none()));
}

#[test]
fn a_changed_modification_time_asks_for_an_update_whichever_way_it_went() {
    let d = dir(".", 0, vec![], vec![file("a.jpg", 5), file("b.jpg", 5)]);
    let plan = plan_files("/", &d, &vec![media_row("a.jpg", 4), media_row("b.jpg", 6)]);
    let update: Vec<&str> = plan.request.update.iter().map(|e| e.media.path.as_str()).collect();
    assert_eq!(update, vec!["/a.jpg", "/b.jpg"]);
    assert!(plan.request.new.is_empty());
    assert!(plan.statements.is_empty());
    assert_eq!(plan.files_done, 0);
}

#[test]
fn a_catalog_that_mirrors_the_files_asks_for_nothing() {
    let d = dir(".", 0, vec![], vec![file("a.jpg", 5), file("b.jpg", 6)]);
    let plan = plan_files("/", &d, &vec![media_row("b.jpg", 6), media_row("a.jpg", 5)]);
    assert!(plan.statements.is_empty());
    assert!(plan.thumbs.is_empty());
    assert!(plan.request.new.is_empty());
    assert!(plan.request.update.is_empty());
    assert_eq!(plan.files_done, 2);
}

#[test]
fn an_empty_directory_asks_for_nothing() {
    let d = dir(".", 0, vec![], vec![]);
    let plan = plan_files("/", &d, &vec![]);
    assert!(plan.statements.is_empty() && plan.thumbs.is_empty());
    assert!(plan.request.new.is_empty() && plan.request.update.is_empty());
    assert_eq!(plan.files_done, 0);
    let plan = plan_folders("/", &d, &vec![]);
    assert!(plan.statements.is_empty() && plan.thumbs.is_empty());
    assert_eq!(plan.folders_done, 0);
}

#[test]
fn the_walk_visits_every_directory_before_those_below_it() {
    let t = tree();
    let (indexer, _) = Indexer::start(4);
    let mut stats = Stats::new();
    let mut walk = indexer.update(&mut stats, &t);
    assert_eq!(stats.scan_folders_count, 1);
    let mut seen = Vec::new();
    while let Some(visit) = walk.next() {
        seen.push((visit.path.clone(), visit.dir.name.clone()));
        walk.descend(&visit);
    }
    let seen: Vec<(&str, &str)> = seen.iter().map(|(p, n)| (p.as_str(), n.as_str())).collect();
    assert_eq!(
        seen,
        vec![
            ("/", "."),
            ("/folderA", "folderA"),
            ("/folderB", "folderB"),
            ("/folderB/sub", "sub"),
            ("/folderB/sub/sub", "sub"),
            ("/folderD", "folderD"),
        ]
    );
}

#[test]
fn a_directory_that_is_not_descended_into_hides_what_lies_below_it() {
    let t = tree();
    let (indexer, _) = Indexer::start(1);
    let mut stats = Stats::new();
    let mut walk = indexer.update(&mut stats, &t);
    let mut seen = Vec::new();
    while let Some(visit) = walk.next() {
        seen.push(visit.path.clone());
        if visit.path != "/folderB" {
            walk.descend(&visit);
        }
    }
    assert_eq!(seen, vec!["/", "/folderA", "/folderB", "/folderD"]);
    let mut walk = indexer.update(&mut stats, &t);
    assert_eq!(walk.next().map(|v| v.path), Some("/".to_string()));
    assert!(walk.next().is_none());
    assert!(walk.next().is_none());
}

#[test]
fn an_indexing_has_a_worker_and_a_place_in_each_queue_per_thread() {
    let (indexer, handle) = Indexer::start(4);
    assert_eq!(
        indexer,
        Indexer { workers: 4, request_capacity: 4, result_capacity: 4 }
    );
    assert_eq!(handle, IndexerHandle { stop: false, requests_open: true, results_open: true });
}

#[test]
fn a_stop_raises_the_flag_before_it_closes_the_queues() {
    let (_, mut handle) = Indexer::start(2);
    assert_eq!(
        handle.stop(),
        vec![
            ShutdownStep::RaiseStop,
            ShutdownStep::CloseRequests,
            ShutdownStep::CloseResults,
            ShutdownStep::AwaitWorkers,
            ShutdownStep::AwaitWriter,
            ShutdownStep::CancelWriter,
        ]
    );
    assert_eq!(handle, IndexerHandle { stop: true, requests_open: false, results_open: false });
}

#[test]
fn a_drain_lets_the_workers_finish_before_it_closes_the_results() {
    let (_, mut handle) = Indexer::start(2);
    assert_eq!(
        handle.wait_stop(),
        vec![
            ShutdownStep::CloseRequests,
            ShutdownStep::AwaitWorkers,
            ShutdownStep::CloseResults,
            ShutdownStep::AwaitWriter,
            ShutdownStep::CancelWriter,
        ]
    );
    assert_eq!(handle, IndexerHandle { stop: false, requests_open: false, results_open: false });
}

#[test]
fn every_statement_has_its_text() {
    let s = |x: &str| x.to_string();
    assert_eq!(
        Statement::InsertFolder { path: s("/a"), name: s("a"), dir: s("/"), mtime: 1 }.sql(),
        "INSERT INTO folder (path, name, dir, mtime) VALUES (?, ?, ?, ?)"
    );
    assert_eq!(
        Statement::UpdateFolder { path: s("/a"), mtime: 1 }.sql(),
        "UPDATE folder SET mtime = ?2 WHERE path = ?1"
    );
    assert_eq!(
        Statement::DeleteImagesUnder { prefix: s("/a") }.sql(),
        "DELETE FROM image WHERE substr(path, 1, length(?1)) = ?1"
    );
    assert_eq!(
        Statement::DeleteFoldersUnder { prefix: s("/a") }.sql(),
        "DELETE FROM folder WHERE substr(path, 1, length(?1)) = ?1"
    );
    assert_eq!(Statement::DeleteFolder { path: s("/a") }.sql(), "DELETE FROM folder WHERE path = ?");
    assert_eq!(Statement::DeleteImage { path: s("/a") }.sql(), "DELETE FROM image WHERE path = ?");
    assert_eq!(
        Statement::UpdateImage { path: s("/a.jpg"), mtime: 1, timestamp: 2 }.sql(),
        "UPDATE image SET mtime = ?2, timestamp = ?3 WHERE path = ?1"
    );
    let image = gallerina::models::tables::Image {
        path: s("/a.jpg"),
        name: s("a.jpg"),
        dir: s("/"),
        mtime: 1,
        timestamp: 2,
    };
    assert_eq!(
        Statement::InsertImage { image }.sql(),
        "INSERT INTO image (path, name, dir, mtime, timestamp) VALUES (?, ?, ?, ?, ?)"
    );
}

#[test]
fn a_folder_that_is_gone_is_removed_up_to_the_separator() {
    let d = dir(".", 0, vec![dir("folderAB", 1, vec![], vec![file("x.jpg", 1)])], vec![]);
    let db = vec![folder_row("folderA", 1), folder_row("folderAB", 1)];
    let plan = plan_folders("/", &d, &db);
    let shown: Vec<String> = plan.statements.iter().map(shown).collect();
    assert_eq!(
        shown,
        vec![
            "delete images under /folderA/",
            "delete folders under /folderA/",
            "delete folder /folderA",
        ]
    );
    let ops: Vec<String> = plan.thumbs.iter().map(shown_op).collect();
    assert_eq!(ops, vec!["delete under /folderA/"]);
}
