use gallerina::catalog::{Statement, ThumbOp};
use gallerina::indexer::{IndexRequest, MediaThumb};
use gallerina::scanner::{ScanError, Stats};
use gallerina::writer::{
    count_written, image_statements, retry_delay, thumb_writes, Batch, RETRY_DELAY_SECS,
};

fn entry(dir: &str, name: &str, mtime: i64, timestamp: i64, thumb: Option<Vec<u8>>) -> MediaThumb {
    let mut e = MediaThumb::new(dir, name, mtime);
    e.media.timestamp = timestamp;
    e.thumb = thumb;
    e
}

fn request() -> IndexRequest {
    IndexRequest {
        new: vec![
            entry("/", "a.jpg", 10, 5, Some(vec![1])),
            entry("/", "broken.jpg", 11, 11, None),
        ],
        update: vec![
            entry("/sub", "c.png", 30, 30, Some(vec![3, 3])),
            entry("/sub", "d.gif", 40, 4, None),
        ],
    }
}

fn shown(s: &Statement) -> String {
    match s {
        Statement::InsertImage { image } => format!(
            "insert {} {} {} {} {}",
            image.path, image.name, image.dir, image.mtime, image.timestamp
        ),
        Statement::UpdateImage { path, mtime, timestamp } => {
            format!("update {} {} {}", path, mtime, timestamp)
        }
        other => format!("{:?}", other),
    }
}

fn puts(ops: &[ThumbOp]) -> Vec<(String, Vec<u8>)> {
    ops.iter()
        .map(|op| match op {
            ThumbOp::Put { key, value } => (key.clone(), value.clone()),
            other => panic!("unexpected {:?}", other),
        })
        .collect()
}

#[test]
fn only_entries_with_a_thumbnail_are_stored() {
    let ops = thumb_writes(&request());
    assert_eq!(
        puts(&ops),
        vec![("/a.jpg".to_string(), vec![1]), ("/sub/c.png".to_string(), vec![3, 3])]
    );
}

#[test]
fn a_request_without_thumbnails_stores_none() {
    let r = IndexRequest { new: vec![entry("/", "a.jpg", 1, 1, None)], update: vec![] };
    assert!(thumb_writes(&r).is_empty());
    assert!(thumb_writes(&IndexRequest { new: vec![], update: vec![] }).is_empty());
}

#[test]
fn new_entries_are_inserted_and_updated_ones_updated() {
    let shown: Vec<String> = image_statements(&request()).iter().map(shown).collect();
    assert_eq!(
        shown,
        vec![
            "insert /a.jpg a.jpg / 10 5",
            "insert /broken.jpg broken.jpg / 11 11",
            "update /sub/c.png 30 30",
            "update /sub/d.gif 40 4",
        ]
    );
}

#[test]
fn a_batch_commits_when_its_limit_is_reached() {
    let mut b = Batch::new(3);
    let commits: Vec<bool> = (0..7).map(|_| b.inc_maybe_commit_begin()).collect();
    assert_eq!(commits, vec![false, false, true, false, false, true, false]);
    assert_eq!(b.commit(), 1);
}

#[test]
fn a_batch_of_the_usual_limit_commits_at_statement_1024() {
    let mut b = Batch::new(gallerina::MAX_SQL_TX_SIZE);
    for _ in 0..1023 {
        assert!(!b.inc_maybe_commit_begin());
    }
    assert!(b.inc_maybe_commit_begin());
    assert!(!b.inc_maybe_commit_begin());
    assert_eq!(b.commit(), 1);
}

#[test]
fn a_batch_with_a_limit_of_one_or_none_commits_before_every_statement() {
    let mut b = Batch::new(1);
    assert!(b.inc_maybe_commit_begin());
    assert!(b.inc_maybe_commit_begin());
    assert_eq!(b.commit(), 0);
    let mut b = Batch::new(0);
    assert!(b.inc_maybe_commit_begin());
    assert!(b.inc_maybe_commit_begin());
    assert_eq!(b.commit(), 0);
}

#[test]
fn a_new_batch_holds_nothing() {
    assert_eq!(Batch::new(1024).commit(), 0);
}

#[test]
fn a_failed_attempt_is_tried_again_after_the_delay() {
    assert_eq!(RETRY_DELAY_SECS, 10);
    assert_eq!(retry_delay(&Ok(())), None);
    assert_eq!(retry_delay(&Err(ScanError::Sqlx("locked".to_string()))), Some(10));
    assert_eq!(retry_delay(&Err(ScanError::Heed("full".to_string()))), Some(10));
}

#[test]
fn the_entries_of_a_written_request_are_done() {
    let mut stats = Stats::new();
    stats.scan_files_count = 5;
    count_written(&mut stats, &request());
    assert_eq!(stats.scan_files_count, 9);
    count_written(&mut stats, &IndexRequest { new: vec![], update: vec![] });
    assert_eq!(stats.scan_files_count, 9);
    assert_eq!(stats.scan_files_total, 0);
}
