use gallerina::exif::{Exif, Orientation, Rotation};
use gallerina::indexer::{IndexRequest, MediaThumb};
use gallerina::worker::{continue_after_forward, next_job, timestamp_for};

fn request() -> IndexRequest {
    IndexRequest {
        new: vec![MediaThumb::new("/", "a.jpg", 10), MediaThumb::new("/sub", "b.jpg", 20)],
        update: vec![MediaThumb::new("/sub", "c.png", 30)],
    }
}

fn taken_at(t: i64) -> Option<Exif> {
    Some(Exif { date_time_original: Some(t), orientation: None })
}

#[test]
fn a_fresh_entry_has_no_thumbnail_and_a_timestamp_of_zero() {
    let e = MediaThumb::new("/folderA", "deer.jpg", 1635097823);
    assert_eq!(e.media.path, "/folderA/deer.jpg");
    assert_eq!(e.media.name, "deer.jpg");
    assert_eq!(e.media.dir, "/folderA");
    assert_eq!(e.media.mtime, 1635097823);
    assert_eq!(e.media.timestamp, 0);
    assert_eq!(e.thumb, None);
    assert_eq!(MediaThumb::new("/", "photo.jpg", 1).media.path, "/photo.jpg");
}

#[test]
fn the_timestamp_is_the_capture_time_where_there_is_one() {
    assert_eq!(timestamp_for(&taken_at(1503415812), 1635098049), 1503415812);
    assert_eq!(timestamp_for(&taken_at(0), 1635098049), 0);
    assert_eq!(timestamp_for(&taken_at(-5), 7), -5);
}

#[test]
fn the_timestamp_is_the_modification_time_otherwise() {
    assert_eq!(timestamp_for(&None, 1635097425), 1635097425);
    let turned = Some(Exif {
        date_time_original: None,
        orientation: Some(Orientation { rotation: Rotation::D90, mirror: false }),
    });
    assert_eq!(timestamp_for(&turned, 1635097425), 1635097425);
}

#[test]
fn an_entry_takes_the_outcome_of_generation() {
    let mut e = MediaThumb::new("/", "a.jpg", 10);
    e.complete(&taken_at(3), Some(vec![1, 2]));
    assert_eq!((e.media.timestamp, e.media.mtime), (3, 10));
    assert_eq!(e.thumb, Some(vec![1, 2]));
    assert_eq!(e.media.path, "/a.jpg");
    let mut e = MediaThumb::new("/", "a.jpg", 10);
    e.complete(&None, None);
    assert_eq!((e.media.timestamp, e.media.mtime), (10, 10));
    assert_eq!(e.thumb, None);
}

#[test]
fn the_new_entries_come_before_the_updated_ones() {
    let r = request();
    assert!(r.has_entry(0) && r.has_entry(1) && r.has_entry(2));
    assert!(!r.has_entry(3));
    assert!(!r.has_entry(usize::MAX));
    assert_eq!(r.entry(0).media.path, "/a.jpg");
    assert_eq!(r.entry(1).media.path, "/sub/b.jpg");
    assert_eq!(r.entry(2).media.path, "/sub/c.png");
    let empty = IndexRequest { new: vec![], update: vec![] };
    assert!(!empty.has_entry(0));
}

#[test]
fn the_next_job_is_the_file_of_the_next_entry() {
    let r = request();
    assert_eq!(next_job("/data", &r, 0, false), Some("/data/a.jpg".to_string()));
    assert_eq!(next_job("/data", &r, 1, false), Some("/data/sub/b.jpg".to_string()));
    assert_eq!(next_job("/data/", &r, 2, false), Some("/data/sub/c.png".to_string()));
    assert_eq!(next_job("/data", &r, 3, false), None);
}

#[test]
fn a_raised_stop_flag_leaves_the_rest_of_a_request() {
    let r = request();
    assert_eq!(next_job("/data", &r, 0, true), None);
    assert_eq!(next_job("/data", &r, 2, true), None);
    assert_eq!(next_job("/data", &r, 3, true), None);
}

#[test]
fn completing_one_entry_leaves_the_others() {
    let mut r = request();
    r.complete_entry(2, &taken_at(77), Some(vec![9]));
    r.complete_entry(0, &None, None);
    assert_eq!(r.new[0].media.timestamp, 10);
    assert_eq!(r.new[0].thumb, None);
    assert_eq!(r.new[1].media.timestamp, 0);
    assert_eq!(r.new[1].thumb, None);
    assert_eq!(r.update[0].media.timestamp, 77);
    assert_eq!(r.update[0].thumb, Some(vec![9]));
    assert_eq!(r.update[0].media.path, "/sub/c.png");
    assert_eq!((r.new.len(), r.update.len()), (2, 1));
}

#[test]
fn a_worker_ends_when_the_results_are_closed() {
    assert!(continue_after_forward(true));
    assert!(!continue_after_forward(false));
}
