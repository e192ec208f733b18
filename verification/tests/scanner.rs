use gallerina::scanner::{Action, Moment, Reply, Request, ScanError, Scanner, State, Stats};

fn at(secs: i64) -> Moment {
    Moment { secs, nanos: 0, offset: 0 }
}

fn state_name(s: &State) -> String {
    match s {
        State::Idle => "Idle".to_string(),
        State::Scanning => "Scanning".to_string(),
        State::Indexing => "Indexing".to_string(),
        State::Error(m) => format!("Error({})", m),
    }
}

fn scanning() -> (Scanner, Stats) {
    let mut s = Scanner::new(4);
    let mut stats = Stats::new();
    assert_eq!(s.request_at(&mut stats, Request::Run, at(100)), (Reply::OK, Action::StartScan));
    (s, stats)
}

fn indexing() -> (Scanner, Stats) {
    let (mut s, stats) = scanning();
    assert_eq!(s.scan_finished(Ok(())), Action::StartIndexing);
    (s, stats)
}

#[test]
fn a_new_lifecycle_is_idle() {
    let s = Scanner::new(3);
    assert_eq!(state_name(&s.state()), "Idle");
    assert_eq!(s.n_threads(), 3);
    let stats = Stats::new();
    assert_eq!(stats.last_scan_start, None);
    assert_eq!(stats.last_scan_end, None);
    assert_eq!(stats.scan_folders_count, 0);
    assert_eq!(stats.scan_files_count, 0);
    assert_eq!(stats.scan_folders_total, 0);
    assert_eq!(stats.scan_files_total, 0);
}

#[test]
fn run_while_idle_starts_a_scan_and_clears_the_counters() {
    let mut s = Scanner::new(4);
    let mut stats = Stats::new();
    stats.scan_files_count = 7;
    stats.scan_folders_count = 3;
    stats.scan_files_total = 9;
    stats.scan_folders_total = 4;
    stats.last_scan_end = Some(at(50));
    let out = s.request_at(&mut stats, Request::Run, at(100));
    assert_eq!(out, (Reply::OK, Action::StartScan));
    assert_eq!(state_name(&s.state()), "Scanning");
    assert_eq!(stats.last_scan_start, Some(at(100)));
    assert_eq!(stats.last_scan_end, Some(at(50)));
    assert_eq!(stats.scan_files_count, 0);
    assert_eq!(stats.scan_folders_count, 0);
    assert_eq!(stats.scan_files_total, 0);
    assert_eq!(stats.scan_folders_total, 0);
}

#[test]
fn run_while_scanning_is_refused() {
    let (mut s, mut stats) = scanning();
    stats.scan_files_total = 5;
    let out = s.request_at(&mut stats, Request::Run, at(200));
    assert_eq!(out, (Reply::NotIdle, Action::Nothing));
    assert_eq!(state_name(&s.state()), "Scanning");
    assert_eq!(stats.last_scan_start, Some(at(100)));
    assert_eq!(stats.scan_files_total, 5);
}

#[test]
fn run_while_indexing_is_refused() {
    let (mut s, mut stats) = indexing();
    let out = s.request_at(&mut stats, Request::Run, at(200));
    assert_eq!(out, (Reply::NotIdle, Action::Nothing));
    assert_eq!(state_name(&s.state()), "Indexing");
    assert_eq!(stats.last_scan_start, Some(at(100)));
}

#[test]
fn stop_while_idle_is_answered_with_idle() {
    let mut s = Scanner::new(4);
    let mut stats = Stats::new();
    let out = s.request_at(&mut stats, Request::Stop, at(100));
    assert_eq!(out, (Reply::Idle, Action::Nothing));
    assert_eq!(state_name(&s.state()), "Idle");
    assert_eq!(stats.last_scan_start, None);
}

#[test]
fn stop_while_scanning_cancels_the_scan() {
    let (mut s, mut stats) = scanning();
    let out = s.request_at(&mut stats, Request::Stop, at(200));
    assert_eq!(out, (Reply::OK, Action::CancelScan));
    assert_eq!(state_name(&s.state()), "Idle");
}

#[test]
fn stop_while_indexing_stops_the_indexing() {
    let (mut s, mut stats) = indexing();
    let out = s.request_at(&mut stats, Request::Stop, at(200));
    assert_eq!(out, (Reply::OK, Action::StopIndexing));
    assert_eq!(state_name(&s.state()), "Idle");
    assert_eq!(stats.last_scan_end, None);
}

#[test]
fn a_scan_that_fails_leaves_an_error() {
    let (mut s, _) = scanning();
    let e = ScanError::Io("/data/x".to_string(), "denied".to_string());
    assert_eq!(s.scan_finished(Err(e)), Action::Nothing);
    assert_eq!(state_name(&s.state()), "Error(scan_dir: Io(\"/data/x\", denied))");
}

#[test]
fn an_error_keeps_a_stop_out_and_lets_a_run_in() {
    let (mut s, mut stats) = scanning();
    s.scan_finished(Err(ScanError::Sqlx("locked".to_string())));
    let out = s.request_at(&mut stats, Request::Stop, at(200));
    assert_eq!(out, (Reply::Idle, Action::Nothing));
    assert_eq!(state_name(&s.state()), "Error(scan_dir: Sqlx(locked))");
    let out = s.request_at(&mut stats, Request::Run, at(300));
    assert_eq!(out, (Reply::OK, Action::StartScan));
    assert_eq!(state_name(&s.state()), "Scanning");
    assert_eq!(stats.last_scan_start, Some(at(300)));
}

#[test]
fn an_indexing_that_ends_well_notes_its_end() {
    let (mut s, mut stats) = indexing();
    stats.scan_files_count = 12;
    s.index_finished_at(&mut stats, Ok(()), at(500));
    assert_eq!(state_name(&s.state()), "Idle");
    assert_eq!(stats.last_scan_end, Some(at(500)));
    assert_eq!(stats.last_scan_start, Some(at(100)));
    assert_eq!(stats.scan_files_count, 12);
}

#[test]
fn an_indexing_that_fails_leaves_an_error() {
    let (mut s, mut stats) = indexing();
    s.index_finished_at(&mut stats, Err(ScanError::Heed("full".to_string())), at(500));
    assert_eq!(state_name(&s.state()), "Error(indexer update: Heed(full))");
    assert_eq!(stats.last_scan_end, None);
}

#[test]
fn an_end_that_comes_out_of_turn_changes_nothing() {
    let mut s = Scanner::new(4);
    let mut stats = Stats::new();
    assert_eq!(s.scan_finished(Ok(())), Action::Nothing);
    assert_eq!(state_name(&s.state()), "Idle");
    s.index_finished_at(&mut stats, Ok(()), at(500));
    assert_eq!(state_name(&s.state()), "Idle");
    assert_eq!(stats.last_scan_end, None);
    let (mut s, mut stats) = scanning();
    s.index_finished_at(&mut stats, Ok(()), at(500));
    assert_eq!(state_name(&s.state()), "Scanning");
    assert_eq!(stats.last_scan_end, None);
    let (mut s, _) = indexing();
    assert_eq!(s.scan_finished(Ok(())), Action::Nothing);
    assert_eq!(state_name(&s.state()), "Indexing");
}

#[test]
fn a_request_that_arrives_now_takes_the_time_from_the_clock() {
    let mut s = Scanner::new(4);
    let mut stats = Stats::new();
    assert_eq!(s.request(&mut stats, Request::Run), (Reply::OK, Action::StartScan));
    let start = stats.last_scan_start.expect("a start");
    assert!(start.secs > 1_600_000_000);
    assert!(start.offset > -86_400 && start.offset < 86_400);
    s.scan_finished(Ok(()));
    s.index_finished(&mut stats, Ok(()));
    let end = stats.last_scan_end.expect("an end");
    assert!((end.secs, end.nanos) >= (start.secs, start.nanos) || end.secs + 5 > start.secs);
    assert_eq!(state_name(&s.state()), "Idle");
}

#[test]
fn the_counters_count_up() {
    let mut stats = Stats::new();
    stats.add_files_total(3);
    stats.add_files_total(4);
    stats.add_folders_total(1);
    stats.add_folders_done(2);
    stats.add_files_done(5);
    assert_eq!(stats.scan_files_total, 7);
    assert_eq!(stats.scan_folders_total, 1);
    assert_eq!(stats.scan_folders_count, 2);
    assert_eq!(stats.scan_files_count, 5);
    stats.reset_totals();
    assert_eq!(stats.scan_files_total, 0);
    assert_eq!(stats.scan_folders_total, 0);
    assert_eq!(stats.scan_folders_count, 2);
    assert_eq!(stats.scan_files_count, 5);
    stats.add_files_total(1);
    stats.last_scan_start = Some(at(1));
    stats.reset_counters();
    assert_eq!(stats.scan_files_total, 0);
    assert_eq!(stats.scan_folders_total, 0);
    assert_eq!(stats.scan_folders_count, 0);
    assert_eq!(stats.scan_files_count, 0);
    assert_eq!(stats.last_scan_start, Some(at(1)));
}

#[test]
fn errors_have_a_text() {
    assert_eq!(ScanError::Io("/a".to_string(), "gone".to_string()).message(), "Io(\"/a\", gone)");
    assert_eq!(ScanError::Sqlx("busy".to_string()).message(), "Sqlx(busy)");
    assert_eq!(ScanError::Heed("full".to_string()).message(), "Heed(full)");
}
