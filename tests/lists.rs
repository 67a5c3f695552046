use lore_session::patch::parse_usize;
use lore_session::Patch;
use std::cell::RefCell;
use lore_session::{
    collect_available_lists, process_available_lists, sort_available_lists, ListsFetch, ListsStep,
    LoreSessionError, MailingList, LORE_PAGE_SIZE,
};

fn directory_page(entries: &str) -> String {
    format!(
        "<html><pre>header</pre><pre>nav</pre><pre>{entries}</pre><pre>footer</pre></html>"
    )
}

#[test]
fn list_scraping_drops_all() {
    let page = directory_page(
        "<a href=\"all/\">all</a>     All of lore.kernel.org *\n<a href=\"amd-gfx/\">amd-gfx</a>  Discussion list for AMD gfx *\n",
    );
    let lists = sort_available_lists(process_available_lists(&page).unwrap());
    assert_eq!(lists.len(), 1);
    assert_eq!(lists[0].name, "amd-gfx");
    assert_eq!(lists[0].description, "Discussion list for AMD gfx");
}

#[test]
fn list_scraping_needs_third_block() {
    assert!(process_available_lists("<pre>a</pre><pre>b</pre>").is_none());
    assert!(process_available_lists("").is_none());
}

#[test]
fn list_scraping_empty_listing() {
    assert!(process_available_lists(&directory_page("nothing")).unwrap().is_empty());
}

#[test]
fn lists_sorted_by_name() {
    let v = vec![
        MailingList::new("linux-mm", "mm"),
        MailingList::new("amd-gfx", "gfx"),
        MailingList::new("b", "b"),
        MailingList::new("Zed", "z"),
    ];
    let names: Vec<String> = sort_available_lists(v).into_iter().map(|l| l.name).collect();
    assert_eq!(names, vec!["Zed", "amd-gfx", "b", "linux-mm"]);
}

trait AvailableListsRequest {
    fn request_available_lists(&self, min_index: usize) -> Result<String, String>;
}

fn fetch_available_lists<T: AvailableListsRequest>(client: &T) -> Result<Vec<MailingList>, LoreSessionError> {
    let mut fetch = ListsFetch::new();
    let mut offset = fetch.min_index();
    loop {
        match fetch.on_response(client.request_available_lists(offset)) {
            ListsStep::Fetch(next) => offset = next,
            ListsStep::Done(r) => return r,
        }
    }
}

struct FakeDirectory {
    pages: Vec<String>,
}

impl AvailableListsRequest for FakeDirectory {
    fn request_available_lists(&self, min_index: usize) -> Result<String, String> {
        Ok(self.pages.get(min_index / LORE_PAGE_SIZE).cloned().unwrap_or_else(|| directory_page("")))
    }
}

struct BrokenDirectory;

impl AvailableListsRequest for BrokenDirectory {
    fn request_available_lists(&self, _min_index: usize) -> Result<String, String> {
        Err("timeout".to_string())
    }
}

#[test]
fn fetch_lists_over_pages() {
    let d = FakeDirectory {
        pages: vec![
            directory_page("<a href=\"z/\">zz</a> last *\n<a href=\"all/\">all</a> every *\n"),
            directory_page("<a href=\"a/\">aa</a> first *\n"),
        ],
    };
    let lists = fetch_available_lists(&d).ok().unwrap();
    let names: Vec<&str> = lists.iter().map(|l| l.name.as_str()).collect();
    assert_eq!(names, vec!["aa", "zz"]);
}

#[test]
fn fetch_lists_errors() {
    assert!(matches!(fetch_available_lists(&BrokenDirectory), Err(LoreSessionError::FromLoreAPIClient(_))));
    let d = FakeDirectory { pages: vec!["<pre>only one</pre>".to_string()] };
    assert!(matches!(fetch_available_lists(&d), Err(LoreSessionError::MalformedPage)));
}

#[test]
fn metadata_from_subject() {
    let mut p = Patch {
        message_id: "m".to_string(),
        title: "[PATCH v3 2/5] drm: fix".to_string(),
        author: String::new(),
        updated: String::new(),
        version: 1,
        number_in_series: 0,
        in_reply_to: None,
    };
    assert!(p.update_patch_metadata());
    assert_eq!((p.version, p.number_in_series), (3, 2));
    p.title = "[PATCH 0/4] cover".to_string();
    assert!(p.update_patch_metadata());
    assert_eq!((p.version, p.number_in_series), (1, 0));
    p.title = "[PATCH] single".to_string();
    assert!(p.update_patch_metadata());
    assert_eq!((p.version, p.number_in_series), (1, 0));
}

#[test]
fn decimal_parsing() {
    assert_eq!(parse_usize("0"), Some(0));
    assert_eq!(parse_usize("42"), Some(42));
    assert_eq!(parse_usize(""), None);
    assert_eq!(parse_usize("4a"), None);
    assert_eq!(parse_usize("99999999999999999999999"), None);
    assert_eq!(parse_usize(&usize::MAX.to_string()), Some(usize::MAX));
}

const P7_PAGE: &str = "<pre></pre><pre></pre><pre><a href=\"/all/\">all</a> all lists *\n<a href=\"/foo/\">foo</a> Foo list *\n</pre>";

#[test]
fn list_scraping_spec_example() {
    let lists = process_available_lists(P7_PAGE).unwrap();
    assert_eq!(lists.len(), 1);
    assert_eq!((lists[0].name.as_str(), lists[0].description.as_str()), ("foo", "Foo list"));
}

#[test]
fn list_scraping_reads_third_block_only() {
    let a = "<pre><a href=\"x/\">x</a> X *</pre><pre></pre><pre><a href=\"y/\">y</a> Y *</pre>";
    let b = "<pre></pre><pre><a href=\"z/\">z</a> Z *</pre><pre><a href=\"y/\">y</a> Y *</pre>";
    let la = process_available_lists(a).unwrap();
    let lb = process_available_lists(b).unwrap();
    assert_eq!(la.len(), 1);
    assert_eq!(lb.len(), 1);
    assert_eq!(la[0].name, lb[0].name);
    assert_eq!(la[0].name, "y");
}

struct RecordingDirectory {
    calls: RefCell<Vec<usize>>,
}

impl AvailableListsRequest for RecordingDirectory {
    fn request_available_lists(&self, min_index: usize) -> Result<String, String> {
        self.calls.borrow_mut().push(min_index);
        if min_index == 0 {
            Ok(P7_PAGE.to_string())
        } else {
            Ok("<pre></pre><pre></pre><pre></pre>".to_string())
        }
    }
}

#[test]
fn fetch_lists_spec_example() {
    let d = RecordingDirectory { calls: RefCell::new(Vec::new()) };
    let lists = fetch_available_lists(&d).ok().unwrap();
    assert_eq!(lists.len(), 1);
    assert_eq!(lists[0].name, "foo");
    assert_eq!(*d.calls.borrow(), vec![0, LORE_PAGE_SIZE]);
}

#[test]
fn collect_stops_at_first_empty_page() {
    let pages = vec![
        directory_page("<a href=\"m/\">mm</a> M *\n"),
        directory_page("<a href=\"b/\">bb</a> B *\n<a href=\"all/\">all</a> every *\n"),
        directory_page(""),
        directory_page("<a href=\"a/\">aa</a> after the end *\n"),
    ];
    let lists = collect_available_lists(&pages).unwrap();
    let names: Vec<&str> = lists.iter().map(|l| l.name.as_str()).collect();
    assert_eq!(names, vec!["bb", "mm"]);
}

#[test]
fn collect_rejects_malformed_page_before_end() {
    let pages = vec![directory_page("<a href=\"m/\">mm</a> M *\n"), "<pre>x</pre>".to_string()];
    assert!(collect_available_lists(&pages).is_none());
    assert!(collect_available_lists(&Vec::new()).unwrap().is_empty());
}
