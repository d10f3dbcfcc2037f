use unterm::fetch::{DiffFetcher, FetchAction, FetchEvent};

fn done(stamp: u64, head: &str) -> FetchEvent {
    FetchEvent::Done {
        stamp,
        head: Some(head.to_string()),
        index: None,
    }
}

#[test]
fn a_fetch_is_delivered_once() {
    let mut f: DiffFetcher<String> = DiffFetcher::new();
    assert_eq!(f.poll(done(0, "x")), None);
    let action = f.set_path(Some("a.cs".to_string()));
    assert_eq!(action, FetchAction::Read { stamp: 1 });
    assert_eq!(f.path().as_deref(), Some("a.cs"));
    assert_eq!(f.poll(FetchEvent::Pending), None);
    assert_eq!(f.poll(done(1, "x")), Some((Some("x".to_string()), None)));
    assert_eq!(f.poll(done(1, "x")), None);
}

#[test]
fn a_superseded_fetch_is_dropped() {
    let mut f: DiffFetcher<u8> = DiffFetcher::default();
    assert_eq!(f.set_path(Some(1)), FetchAction::Read { stamp: 1 });
    assert_eq!(f.set_path(Some(2)), FetchAction::Read { stamp: 2 });
    assert_eq!(f.poll(done(1, "stale")), None);
    assert_eq!(f.request(), FetchAction::Read { stamp: 3 });
    assert_eq!(f.poll(done(3, "new")), Some((Some("new".to_string()), None)));
}

#[test]
fn without_a_path_the_markers_are_cleared() {
    let mut f: DiffFetcher<u8> = DiffFetcher::new();
    assert_eq!(f.request(), FetchAction::Clear { stamp: 1 });
    let cleared = FetchEvent::Done { stamp: 1, head: None, index: None };
    assert_eq!(f.poll(cleared), Some((None, None)));
}

#[test]
fn a_lost_worker_ends_the_wait() {
    let mut f: DiffFetcher<u8> = DiffFetcher::new();
    f.set_path(Some(1));
    assert_eq!(f.poll(FetchEvent::Disconnected), None);
    assert_eq!(f.poll(done(1, "late")), None);
}

#[test]
fn staging_reads_the_index_again() {
    let mut f: DiffFetcher<u8> = DiffFetcher::new();
    assert_eq!(f.stage(true), (false, None));
    f.set_path(Some(1));
    assert_eq!(f.stage(false), (false, None));
    assert_eq!(f.stage(true), (true, Some(FetchAction::Read { stamp: 2 })));
    assert_eq!(f.poll(done(2, "x")), Some((Some("x".to_string()), None)));
}
