use lore_session::{FeedStep, LoreSession, LoreSessionError, Patch, LORE_PAGE_SIZE};
use std::cell::RefCell;

fn patch(id: &str, version: usize, number: usize, reply_to: Option<&str>) -> Patch {
    Patch {
        message_id: id.to_string(),
        title: format!("[PATCH v{version} {number}/3] title of {id}"),
        author: "someone".to_string(),
        updated: "2024-01-01T00:00:00Z".to_string(),
        version,
        number_in_series: number,
        in_reply_to: reply_to.map(|s| s.to_string()),
    }
}

fn series_page() -> Vec<Patch> {
    vec![
        patch("c1", 1, 0, None),
        patch("c1-p1", 1, 1, Some("c1")),
        patch("c1-p2", 1, 2, Some("c1")),
        patch("solo-p1", 1, 1, None),
        patch("solo-p2", 1, 2, Some("solo-p1")),
    ]
}

#[test]
fn new_session_is_empty() {
    let s = LoreSession::new("amd-gfx".to_string());
    assert!(s.representative_patches_ids().is_empty());
    assert_eq!(s.target_list(), "amd-gfx");
    assert_eq!(s.min_index(), 0);
    assert!(s.get_processed_patch("c1").is_none());
}

#[test]
fn ingest_same_page_twice_changes_nothing() {
    let mut s = LoreSession::new("l".to_string());
    s.ingest_feed_page(series_page());
    let reps = s.representative_patches_ids().clone();
    s.ingest_feed_page(series_page());
    assert_eq!(s.representative_patches_ids(), &reps);
    for p in series_page() {
        assert!(s.get_processed_patch(&p.message_id).is_some());
    }
    assert_eq!(s.min_index(), 2 * LORE_PAGE_SIZE);
}

#[test]
fn one_representative_per_series() {
    let mut s = LoreSession::new("l".to_string());
    s.ingest_feed_page(series_page());
    assert_eq!(s.representative_patches_ids(), &vec!["c1".to_string(), "solo-p1".to_string()]);
}

#[test]
fn cover_of_other_version_does_not_hide_patch_one() {
    let mut s = LoreSession::new("l".to_string());
    s.ingest_feed_page(vec![patch("c", 1, 0, None), patch("p", 2, 1, Some("c"))]);
    assert_eq!(s.representative_patches_ids(), &vec!["c".to_string(), "p".to_string()]);
}

#[test]
fn duplicate_within_page_keeps_first() {
    let mut s = LoreSession::new("l".to_string());
    s.ingest_feed_page(vec![patch("a", 1, 0, None), patch("a", 3, 0, None)]);
    assert_eq!(s.representative_patches_ids(), &vec!["a".to_string()]);
    assert_eq!(s.get_processed_patch("a").unwrap().version, 1);
}

#[test]
fn page_beyond_end_is_none() {
    let mut s = LoreSession::new("l".to_string());
    s.ingest_feed_page(vec![patch("a", 1, 0, None), patch("b", 1, 0, None), patch("c", 1, 0, None)]);
    assert!(s.get_patch_feed_page(2, 3).is_none());
    assert!(s.get_patch_feed_page(3, 2).is_none());
    let second = s.get_patch_feed_page(2, 2).unwrap();
    assert_eq!(second.len(), 1);
    assert_eq!(second[0].message_id, "c");
}

#[test]
fn first_page_holds_short_list() {
    let size = 4;
    let mut s = LoreSession::new("l".to_string());
    s.ingest_feed_page(vec![patch("a", 1, 0, None), patch("b", 1, 0, None), patch("c", 1, 0, None)]);
    let page = s.get_patch_feed_page(size, 1).unwrap();
    let ids: Vec<&str> = page.iter().map(|p| p.message_id.as_str()).collect();
    assert_eq!(ids, vec!["a", "b", "c"]);
}

#[test]
fn empty_session_has_no_page() {
    let s = LoreSession::new("l".to_string());
    assert!(s.get_patch_feed_page(10, 1).is_none());
}

trait Feed {
    fn request(&self, target_list: &str, min_index: usize) -> Result<Vec<Patch>, String>;
}

struct FakeFeed {
    pages: Vec<Vec<Patch>>,
    offsets: RefCell<Vec<usize>>,
}

impl Feed for FakeFeed {
    fn request(&self, _target_list: &str, min_index: usize) -> Result<Vec<Patch>, String> {
        self.offsets.borrow_mut().push(min_index);
        let k = min_index / LORE_PAGE_SIZE;
        Ok(self.pages.get(k).cloned().unwrap_or_default())
    }
}

struct FailingFeed;

impl Feed for FailingFeed {
    fn request(&self, _target_list: &str, _min_index: usize) -> Result<Vec<Patch>, String> {
        Err("unreachable host".to_string())
    }
}

fn drive<F: Feed>(s: &mut LoreSession, feed: &F, n: usize) -> Result<(), LoreSessionError> {
    let mut step = s.first_feed_request(n);
    loop {
        match step {
            FeedStep::Fetch(offset) => {
                let response = feed.request(s.target_list(), offset);
                step = s.on_feed_response(n, response);
            }
            FeedStep::Done(r) => return r,
        }
    }
}

#[test]
fn fetch_loop_stops_once_enough() {
    let feed = FakeFeed {
        pages: vec![
            vec![patch("a", 1, 0, None), patch("a-1", 1, 1, Some("a"))],
            vec![patch("b", 1, 0, None)],
            vec![patch("c", 1, 0, None)],
        ],
        offsets: RefCell::new(Vec::new()),
    };
    let mut s = LoreSession::new("l".to_string());
    assert!(drive(&mut s, &feed, 2).is_ok());
    assert_eq!(s.representative_patches_ids(), &vec!["a".to_string(), "b".to_string()]);
    assert_eq!(*feed.offsets.borrow(), vec![0, LORE_PAGE_SIZE]);
    assert_eq!(s.min_index(), 2 * LORE_PAGE_SIZE);
}

#[test]
fn fetch_loop_stops_on_empty_page() {
    let feed = FakeFeed { pages: vec![vec![patch("a", 1, 0, None)]], offsets: RefCell::new(Vec::new()) };
    let mut s = LoreSession::new("l".to_string());
    assert!(drive(&mut s, &feed, 5).is_ok());
    assert_eq!(s.representative_patches_ids().len(), 1);
}

#[test]
fn fetch_loop_reports_transport_error() {
    let mut s = LoreSession::new("l".to_string());
    match drive(&mut s, &FailingFeed, 1) {
        Err(LoreSessionError::FromLoreAPIClient(m)) => assert_eq!(m, "unreachable host"),
        _ => panic!("expected a transport error"),
    }
}

#[test]
fn fetch_loop_does_nothing_when_enough() {
    let mut s = LoreSession::new("l".to_string());
    assert!(drive(&mut s, &FailingFeed, 0).is_ok());
}

#[test]
fn ingestion_reads_subject_metadata() {
    let mut p = patch("m", 1, 0, None);
    p.title = "[PATCH v2 1/2] fix".to_string();
    p.version = 9;
    p.number_in_series = 7;
    let mut s = LoreSession::new("l".to_string());
    s.ingest_feed_page(vec![p]);
    let stored = s.get_processed_patch("m").unwrap();
    assert_eq!((stored.version, stored.number_in_series), (2, 1));
    assert_eq!(s.representative_patches_ids(), &vec!["m".to_string()]);
}

#[test]
fn fetch_loop_keeps_cursor_when_enough() {
    let mut s = LoreSession::new("l".to_string());
    s.ingest_feed_page(vec![patch("a", 1, 0, None)]);
    assert!(drive(&mut s, &FailingFeed, 1).is_ok());
    assert_eq!(s.min_index(), LORE_PAGE_SIZE);
}

#[test]
fn failed_fetch_keeps_earlier_pages() {
    struct HalfFeed;
    impl Feed for HalfFeed {
        fn request(&self, _t: &str, min_index: usize) -> Result<Vec<Patch>, String> {
            if min_index == 0 { Ok(vec![patch("a", 1, 0, None)]) } else { Err("down".to_string()) }
        }
    }
    let mut s = LoreSession::new("l".to_string());
    match drive(&mut s, &HalfFeed, 3) {
        Err(LoreSessionError::FromLoreAPIClient(m)) => assert_eq!(m, "down"),
        _ => panic!("expected a transport error"),
    }
    assert_eq!(s.representative_patches_ids(), &vec!["a".to_string()]);
    assert_eq!(s.min_index(), LORE_PAGE_SIZE);
}

#[test]
fn first_request_at_cursor() {
    let s = LoreSession::new("l".to_string());
    assert!(matches!(s.first_feed_request(1), FeedStep::Fetch(0)));
    assert!(matches!(s.first_feed_request(0), FeedStep::Done(Ok(()))));
}
