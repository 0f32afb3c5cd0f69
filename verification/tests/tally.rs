use listen::{Event, ListenError, Listener, Visit};

fn file(path: &str) -> Visit {
    Visit::Entry { depth: 1, is_dir: false, path: Some(path.to_string()) }
}

fn dir(path: &str) -> Visit {
    Visit::Entry { depth: 1, is_dir: true, path: Some(path.to_string()) }
}

fn root(path: &str) -> Visit {
    Visit::Entry { depth: 0, is_dir: true, path: Some(path.to_string()) }
}

#[test]
fn new_listener_has_the_default_settings() {
    let listener = Listener::new();
    assert_eq!(listener.event, Event::OnFileChange);
    assert!(!listener.store_files);
    assert_eq!(listener.max_polls, u64::MAX);
    assert!(listener.files.is_empty());
}

#[test]
fn default_listener_equals_new_listener() {
    let listener = Listener::default();
    assert_eq!(listener.event, Event::OnFileChange);
    assert!(!listener.store_files);
    assert_eq!(listener.max_polls, u64::MAX);
    assert!(listener.files.is_empty());
}

#[test]
fn only_the_undirected_event_is_supported() {
    assert!(Event::OnFileChange.is_supported());
    assert!(!Event::OnFileAdd.is_supported());
    assert!(!Event::OnFileRemove.is_supported());
}

#[test]
fn tally_of_an_empty_scan_is_zero() {
    let mut listener = Listener::new();
    assert_eq!(listener.tally(&vec![]), Ok(0));
}

#[test]
fn tally_counts_files_and_not_directories() {
    let mut listener = Listener::new();
    let walk = vec![root("d"), file("d/a.txt"), dir("d/sub"), file("d/b.txt"), file("d/c.txt")];
    assert_eq!(listener.tally(&walk), Ok(3));
}

#[test]
fn tally_is_the_same_with_and_without_directories() {
    let mut listener = Listener::new();
    let plain = vec![file("d/a.txt"), file("d/b.txt")];
    let mixed = vec![root("d"), file("d/a.txt"), dir("d/x"), dir("d/y"), file("d/b.txt"), dir("d/z")];
    assert_eq!(listener.tally(&plain), Ok(2));
    assert_eq!(listener.tally(&mixed), Ok(2));
}

#[test]
fn tally_counts_a_watched_path_that_is_a_file() {
    let mut listener = Listener::new();
    assert_eq!(listener.tally(&vec![Visit::Entry { depth: 0, is_dir: false, path: Some("notes.txt".to_string()) }]), Ok(1));
}

#[test]
fn tally_skips_children_that_could_not_be_read() {
    let mut listener = Listener::new();
    listener.store_files = true;
    let walk = vec![root("d"), file("d/a.txt"), Visit::Failed { depth: 1 }, file("d/b.txt")];
    assert_eq!(listener.tally(&walk), Ok(2));
    assert_eq!(listener.files, vec!["d/a.txt".to_string(), "d/b.txt".to_string()]);
}

#[test]
fn tally_rejects_a_failure_at_the_watched_path() {
    let mut listener = Listener::new();
    assert_eq!(listener.tally(&vec![Visit::Failed { depth: 0 }]), Err(ListenError::PathUnreadable));
}

#[test]
fn tally_rejects_an_unlistable_directory_and_stores_nothing() {
    let mut listener = Listener::new();
    listener.store_files = true;
    listener.files.push("kept".to_string());
    let walk = vec![root("d"), file("d/a.txt"), Visit::Failed { depth: 0 }];
    assert_eq!(listener.tally(&walk), Err(ListenError::PathUnreadable));
    assert_eq!(listener.files, vec!["kept".to_string()]);
}

#[test]
fn tally_stores_nothing_unless_told_to() {
    let mut listener = Listener::new();
    assert_eq!(listener.tally(&vec![file("d/a.txt"), file("d/b.txt")]), Ok(2));
    assert!(listener.files.is_empty());
}

#[test]
fn tally_stores_paths_in_scan_order() {
    let mut listener = Listener::new();
    listener.store_files = true;
    let walk = vec![root("d"), file("d/b.txt"), dir("d/sub"), file("d/a.txt")];
    assert_eq!(listener.tally(&walk), Ok(2));
    assert_eq!(listener.files, vec!["d/b.txt".to_string(), "d/a.txt".to_string()]);
}

#[test]
fn tally_appends_on_every_call() {
    let mut listener = Listener::new();
    listener.store_files = true;
    let walk = vec![file("d/a.txt"), file("d/b.txt")];
    assert_eq!(listener.tally(&walk), Ok(2));
    assert_eq!(listener.tally(&walk), Ok(2));
    assert_eq!(listener.tally(&walk), Ok(2));
    assert_eq!(listener.files.len(), 6);
    assert_eq!(listener.files[4], "d/a.txt");
    assert_eq!(listener.files[5], "d/b.txt");
}

#[test]
fn tally_counts_a_file_without_a_path_but_cannot_store_it() {
    let mut listener = Listener::new();
    listener.store_files = true;
    let walk = vec![file("d/a.txt"), Visit::Entry { depth: 1, is_dir: false, path: None }];
    assert_eq!(listener.tally(&walk), Ok(2));
    assert_eq!(listener.files, vec!["d/a.txt".to_string()]);
}

#[test]
fn tally_leaves_the_settings_alone() {
    let mut listener = Listener::new();
    listener.store_files = true;
    listener.max_polls = 7;
    listener.event = Event::OnFileAdd;
    assert_eq!(listener.tally(&vec![file("d/a.txt")]), Ok(1));
    assert_eq!(listener.event, Event::OnFileAdd);
    assert!(listener.store_files);
    assert_eq!(listener.max_polls, 7);
}

#[test]
fn cloned_visit_equals_the_visit() {
    let visits = vec![file("d/a.txt"), dir("d"), Visit::Failed { depth: 1 }, Visit::Entry { depth: 1, is_dir: false, path: None }];
    for visit in &visits {
        assert_eq!(&visit.clone(), visit);
    }
}
