use listen::listener::blocks_listing;
use listen::{dispatch, ListenError, Listener, Visit};
use listen::Event;

fn entry(path: &str) -> Visit {
    Visit::Entry { depth: 1, is_dir: false, path: Some(path.to_string()) }
}

fn folder(path: &str) -> Visit {
    Visit::Entry { depth: 1, is_dir: true, path: Some(path.to_string()) }
}

fn top(path: &str) -> Visit {
    Visit::Entry { depth: 0, is_dir: true, path: Some(path.to_string()) }
}

fn listing(files: &[&str]) -> Vec<Visit> {
    let mut walk = vec![top("d")];
    for name in files {
        walk.push(entry(name));
    }
    walk
}

fn record_arg(arg: i32) -> i32 {
    arg
}

#[test]
fn blocks_listing_finds_a_failure_at_the_watched_path() {
    assert!(blocks_listing(&vec![Visit::Failed { depth: 0 }]));
    assert!(blocks_listing(&vec![top("d"), entry("d/a"), Visit::Failed { depth: 0 }]));
    assert!(!blocks_listing(&vec![top("d"), Visit::Failed { depth: 1 }]));
    assert!(!blocks_listing(&vec![]));
}

#[test]
fn dispatch_runs_the_function_on_a_change() {
    assert_eq!(dispatch(true, 42, record_arg), Some(42));
}

#[test]
fn dispatch_does_not_run_the_function_without_a_change() {
    let mut calls = 0;
    let ran = dispatch(false, 42, |arg: i32| {
        calls += 1;
        arg
    });
    assert_eq!(ran, None);
    assert_eq!(calls, 0);
}

#[test]
fn replay_of_no_scan_finds_nothing() {
    let mut listener = Listener::new();
    assert_eq!(listener.replay(&vec![]), Ok(None));
}

#[test]
fn replay_of_the_baseline_alone_finds_nothing() {
    let mut listener = Listener::new();
    assert_eq!(listener.replay(&vec![listing(&["d/a.txt"])]), Ok(None));
}

#[test]
fn replay_finds_an_added_file() {
    let mut listener = Listener::new();
    let scans = vec![listing(&["d/a.txt"]), listing(&["d/a.txt"]), listing(&["d/a.txt", "d/b.txt"])];
    assert_eq!(listener.replay(&scans), Ok(Some(2)));
}

#[test]
fn replay_finds_a_removed_file() {
    let mut listener = Listener::new();
    let scans = vec![listing(&["d/a.txt", "d/b.txt"]), listing(&["d/b.txt"])];
    assert_eq!(listener.replay(&scans), Ok(Some(1)));
}

#[test]
fn replay_does_not_find_one_file_swapped_for_another() {
    let mut listener = Listener::new();
    let scans = vec![
        listing(&["d/a.txt", "d/b.txt"]),
        listing(&["d/a.txt", "d/b.txt"]),
        listing(&["d/c.txt", "d/b.txt"]),
        listing(&["d/c.txt", "d/b.txt"]),
    ];
    assert_eq!(listener.replay(&scans), Ok(None));
}

#[test]
fn replay_does_not_find_an_added_directory() {
    let mut listener = Listener::new();
    let mut later = listing(&["d/a.txt"]);
    later.push(folder("d/sub"));
    assert_eq!(listener.replay(&vec![listing(&["d/a.txt"]), later]), Ok(None));
}

#[test]
fn replay_stops_at_the_first_change() {
    let mut listener = Listener::new();
    listener.store_files = true;
    let scans = vec![listing(&[]), listing(&["d/a.txt"]), listing(&["d/a.txt", "d/b.txt"])];
    assert_eq!(listener.replay(&scans), Ok(Some(1)));
    assert_eq!(listener.files, vec!["d/a.txt".to_string()]);
}

#[test]
fn replay_compares_with_the_baseline_and_not_with_the_last_scan() {
    let mut listener = Listener::new();
    let scans = vec![listing(&["d/a.txt"]), listing(&["d/b.txt"]), listing(&["d/c.txt"]), listing(&[])];
    assert_eq!(listener.replay(&scans), Ok(Some(3)));
}

#[test]
fn replay_fails_on_an_unreadable_baseline() {
    let mut listener = Listener::new();
    let scans = vec![vec![Visit::Failed { depth: 0 }], listing(&["d/a.txt"])];
    assert_eq!(listener.replay(&scans), Err(ListenError::PathUnreadable));
}

#[test]
fn replay_fails_when_the_path_becomes_unreadable() {
    let mut listener = Listener::new();
    listener.store_files = true;
    let scans = vec![
        listing(&["d/a.txt"]),
        vec![top("d"), Visit::Failed { depth: 0 }],
        listing(&["d/a.txt", "d/b.txt"]),
    ];
    assert_eq!(listener.replay(&scans), Err(ListenError::PathUnreadable));
    assert_eq!(listener.files, vec!["d/a.txt".to_string()]);
}

#[test]
fn replay_stores_every_scan_that_it_reads() {
    let mut listener = Listener::new();
    listener.store_files = true;
    let scans = vec![
        listing(&["d/a.txt", "d/b.txt"]),
        listing(&["d/a.txt", "d/b.txt"]),
        listing(&["d/a.txt", "d/b.txt", "d/c.txt"]),
    ];
    assert_eq!(listener.replay(&scans), Ok(Some(2)));
    let expected: Vec<String> = ["d/a.txt", "d/b.txt", "d/a.txt", "d/b.txt", "d/a.txt", "d/b.txt", "d/c.txt"]
        .iter()
        .map(|s| s.to_string())
        .collect();
    assert_eq!(listener.files, expected);
    assert_eq!(&listener.files[4..], &["d/a.txt".to_string(), "d/b.txt".to_string(), "d/c.txt".to_string()][..]);
}

#[test]
fn stored_list_of_a_watch_from_empty_is_the_final_listing() {
    let mut listener = Listener::new();
    listener.store_files = true;
    let scans = vec![listing(&[]), listing(&[]), listing(&["d/x.txt"])];
    assert_eq!(listener.replay(&scans), Ok(Some(2)));
    assert_eq!(listener.files, vec!["d/x.txt".to_string()]);
}

#[test]
fn listen_over_runs_the_function_with_the_argument() {
    let mut listener = Listener::new();
    let scans = vec![listing(&[]), listing(&[]), listing(&["d/x.txt"])];
    assert_eq!(listener.listen_over(&scans, 42, record_arg), Ok(Some(42)));
}

#[test]
fn listen_over_runs_the_function_once_on_an_added_file() {
    let mut listener = Listener::new();
    let mut calls = 0;
    let mut seen = 0;
    let scans = vec![listing(&["d/a.txt"]), listing(&["d/a.txt", "d/b.txt"]), listing(&["d/a.txt"])];
    let res = listener.listen_over(&scans, 7, |arg: i32| {
        calls += 1;
        seen = arg;
    });
    assert_eq!(res, Ok(Some(())));
    assert_eq!(calls, 1);
    assert_eq!(seen, 7);
}

#[test]
fn listen_over_runs_the_function_once_on_a_removed_file() {
    let mut listener = Listener::new();
    let mut calls = 0;
    let scans = vec![listing(&["d/a.txt", "d/b.txt"]), listing(&["d/a.txt"])];
    let res = listener.listen_over(&scans, (), |_| calls += 1);
    assert_eq!(res, Ok(Some(())));
    assert_eq!(calls, 1);
}

#[test]
fn listen_over_does_not_run_the_function_before_a_change() {
    let mut listener = Listener::new();
    let mut calls = 0;
    let scans = vec![listing(&[]), listing(&[]), listing(&[])];
    let res = listener.listen_over(&scans, 42, |_| calls += 1);
    assert_eq!(res, Ok(None));
    assert_eq!(calls, 0);
}

#[test]
fn listen_over_does_not_run_the_function_on_a_swap() {
    let mut listener = Listener::new();
    let mut calls = 0;
    let scans = vec![listing(&["d/a.txt"]), listing(&["d/b.txt"]), listing(&["d/b.txt"])];
    let res = listener.listen_over(&scans, 42, |_| calls += 1);
    assert_eq!(res, Ok(None));
    assert_eq!(calls, 0);
}

#[test]
fn listen_over_does_not_run_the_function_on_an_error() {
    let mut listener = Listener::new();
    let mut calls = 0;
    let scans = vec![vec![Visit::Failed { depth: 0 }]];
    let res = listener.listen_over(&scans, 42, |_| calls += 1);
    assert_eq!(res, Err(ListenError::PathUnreadable));
    assert_eq!(calls, 0);
}

#[test]
fn listen_over_refuses_to_wait_for_an_added_file() {
    let mut listener = Listener::new();
    listener.event = Event::OnFileAdd;
    listener.store_files = true;
    let mut calls = 0;
    let scans = vec![listing(&["d/a.txt"]), listing(&["d/a.txt", "d/b.txt"])];
    let res = listener.listen_over(&scans, 42, |_| calls += 1);
    assert_eq!(res, Err(ListenError::NotImplemented));
    assert_eq!(calls, 0);
    assert!(listener.files.is_empty());
}

#[test]
fn listen_over_refuses_to_wait_for_a_removed_file() {
    let mut listener = Listener::new();
    listener.event = Event::OnFileRemove;
    listener.store_files = true;
    let mut calls = 0;
    let scans = vec![listing(&["d/a.txt", "d/b.txt"]), listing(&["d/a.txt"])];
    let res = listener.listen_over(&scans, 42, |_| calls += 1);
    assert_eq!(res, Err(ListenError::NotImplemented));
    assert_eq!(calls, 0);
    assert!(listener.files.is_empty());
}
