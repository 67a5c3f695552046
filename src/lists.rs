use vstd::prelude::*;
use vstd::string::StringExecFns;

use crate::scrape::{group_matches, regex_compiles, regex_group_all};
use crate::session::{LORE_PAGE_SIZE, LoreSessionError};
use crate::text::{chars_of, str_eq, trim_str, trimmed, views};

verus! {

/// Preformatted blocks of a directory page.
pub const RE_PRE_BLOCK: &'static str = r#"(?s)<pre>(.*?)</pre>"#;

/// Anchor texts: the list names.
pub const RE_LIST_NAME: &'static str = r#"(?s)<a\s*href=".*?">(.*?)</a>"#;

/// Text between an anchor and the next `*`: the list descriptions.
pub const RE_LIST_DESCRIPTION: &'static str = r#"(?s)</a>\s*(.*?)\s*\*"#;

/// A mailing list of the archive.
pub struct MailingList {
    pub name: String,
    pub description: String,
}

impl MailingList {
    pub fn new(name: &str, description: &str) -> (r: MailingList)
        ensures
            r.name@ == name@,
            r.description@ == description@,
    {
        MailingList { name: String::from_str(name), description: String::from_str(description) }
    }
}

/// Name and description of each list.
pub open spec fn list_views(v: Seq<MailingList>) -> Seq<(Seq<char>, Seq<char>)> {
    v.map_values(|l: MailingList| (l.name@, l.description@))
}

/// The first `k` names paired with the first `k` descriptions, both
/// trimmed, without the entry named `all`.
pub open spec fn listed(names: Seq<Seq<char>>, descriptions: Seq<Seq<char>>, k: nat) -> Seq<
    (Seq<char>, Seq<char>),
>
    decreases k,
{
    if k == 0 {
        Seq::empty()
    } else {
        let r = listed(names, descriptions, (k - 1) as nat);
        if trimmed(names[k - 1]) == "all"@ {
            r
        } else {
            r.push((trimmed(names[k - 1]), trimmed(descriptions[k - 1])))
        }
    }
}

/// The lists of a directory page: read from its third preformatted block,
/// names and descriptions paired in order; `None` without a third block.
pub open spec fn available_lists_of(page: Seq<char>) -> Option<Seq<(Seq<char>, Seq<char>)>> {
    let blocks = group_matches(RE_PRE_BLOCK@, page);
    if blocks.len() < 3 {
        None
    } else {
        let names = group_matches(RE_LIST_NAME@, blocks[2]);
        let descriptions = group_matches(RE_LIST_DESCRIPTION@, blocks[2]);
        let k = if names.len() <= descriptions.len() {
            names.len()
        } else {
            descriptions.len()
        };
        Some(listed(names, descriptions, k))
    }
}

/// Whether the three patterns of the directory scraper compile.
pub open spec fn lists_patterns_compile() -> bool {
    regex_compiles(RE_PRE_BLOCK@) && regex_compiles(RE_LIST_NAME@) && regex_compiles(RE_LIST_DESCRIPTION@)
}

/// Reads the mailing lists of one directory page; `None` for a page
/// without a third preformatted block.
pub fn process_available_lists(available_lists_str: &str) -> (r: Option<Vec<MailingList>>)
    ensures
        r matches Some(v) ==> available_lists_of(available_lists_str@) == Some(list_views(v@)),
        available_lists_of(available_lists_str@) is None ==> r is None,
        lists_patterns_compile() && available_lists_of(available_lists_str@) is Some ==> r is Some,
{
    let pre_blocks = match regex_group_all(RE_PRE_BLOCK, available_lists_str) {
        Some(b) => b,
        None => {
            return None;
        },
    };
    if pre_blocks.len() < 3 {
        return None;
    }
    let ghost block = pre_blocks@[2]@;
    assert(pre_blocks@.map_values(|s: String| s@)[2] == block);
    let list_names = match regex_group_all(RE_LIST_NAME, pre_blocks[2].as_str()) {
        Some(v) => v,
        None => {
            return None;
        },
    };
    let list_descriptions = match regex_group_all(RE_LIST_DESCRIPTION, pre_blocks[2].as_str()) {
        Some(v) => v,
        None => {
            return None;
        },
    };
    let ghost names = list_names@.map_values(|s: String| s@);
    let ghost descriptions = list_descriptions@.map_values(|s: String| s@);
    let k: usize = if list_names.len() <= list_descriptions.len() {
        list_names.len()
    } else {
        list_descriptions.len()
    };
    let mut available_lists: Vec<MailingList> = Vec::new();
    let mut i: usize = 0;
    proof {
        assert(list_views(available_lists@) =~= Seq::<(Seq<char>, Seq<char>)>::empty());
    }
    while i < k
        invariant
            i <= k,
            k <= list_names.len(),
            k <= list_descriptions.len(),
            names == list_names@.map_values(|s: String| s@),
            descriptions == list_descriptions@.map_values(|s: String| s@),
            list_views(available_lists@) == listed(names, descriptions, i as nat),
        decreases k - i,
    {
        proof {
            assert(names[i as int] == list_names@[i as int]@);
            assert(descriptions[i as int] == list_descriptions@[i as int]@);
        }
        let name = trim_str(list_names[i].as_str());
        if !str_eq(name, "all") {
            let description = trim_str(list_descriptions[i].as_str());
            let ghost before = available_lists@;
            let entry = MailingList::new(name, description);
            available_lists.push(entry);
            proof {
                assert(list_views(available_lists@) =~= list_views(before).push((entry.name@, entry.description@)));
            }
        }
        i = i + 1;
    }
    Some(available_lists)
}

/// Whether `a` comes no later than `b` in the order of their characters'
/// code points, character by character.
pub open spec fn name_le(a: Seq<char>, b: Seq<char>) -> bool
    decreases a.len(),
{
    if a.len() == 0 {
        true
    } else if b.len() == 0 {
        false
    } else if (a[0] as u32) < (b[0] as u32) {
        true
    } else if (a[0] as u32) > (b[0] as u32) {
        false
    } else {
        name_le(a.drop_first(), b.drop_first())
    }
}

proof fn lemma_name_le_total(a: Seq<char>, b: Seq<char>)
    ensures
        name_le(a, b) || name_le(b, a),
    decreases a.len(),
{
    if a.len() > 0 && b.len() > 0 && (a[0] as u32) == (b[0] as u32) {
        lemma_name_le_total(a.drop_first(), b.drop_first());
    }
}

fn name_le_exec(a: &String, b: &String) -> (r: bool)
    ensures
        r == name_le(a@, b@),
{
    let x = chars_of(a.as_str());
    let y = chars_of(b.as_str());
    let mut i: usize = 0;
    proof {
        assert(x@.subrange(0, x@.len() as int) =~= x@);
        assert(y@.subrange(0, y@.len() as int) =~= y@);
    }
    while i < x.len() && i < y.len()
        invariant
            x@ == a@,
            y@ == b@,
            i <= x.len(),
            i <= y.len(),
            name_le(x@, y@) == name_le(x@.subrange(i as int, x@.len() as int), y@.subrange(i as int, y@.len() as int)),
        decreases x.len() - i,
    {
        let ghost xs = x@.subrange(i as int, x@.len() as int);
        let ghost ys = y@.subrange(i as int, y@.len() as int);
        assert(xs[0] == x@[i as int] && ys[0] == y@[i as int]);
        if (x[i] as u32) < (y[i] as u32) {
            return true;
        }
        if (x[i] as u32) > (y[i] as u32) {
            return false;
        }
        assert(xs.drop_first() =~= x@.subrange(i + 1, x@.len() as int));
        assert(ys.drop_first() =~= y@.subrange(i + 1, y@.len() as int));
        i = i + 1;
    }
    i == x.len()
}

/// Whether each list's name comes no later than the next one's.
pub open spec fn sorted_by_name(v: Seq<MailingList>) -> bool {
    forall|i: int| 0 <= i < v.len() - 1 ==> name_le(#[trigger] v[i].name@, v[i + 1].name@)
}

/// The lists of `lists` ordered by name.
pub fn sort_available_lists(lists: Vec<MailingList>) -> (r: Vec<MailingList>)
    ensures
        sorted_by_name(r@),
        r@.to_multiset() == lists@.to_multiset(),
        list_views(r@).to_multiset() == list_views(lists@).to_multiset(),
{
    broadcast use vstd::seq_lib::group_to_multiset_ensures;
    let mut sorted: Vec<MailingList> = Vec::new();
    let mut rest = lists;
    let ghost all = rest@;
    proof {
        assert(all.subrange(0, 0) =~= Seq::<MailingList>::empty());
        assert(list_views(sorted@) =~= list_views(all.subrange(0, 0)));
    }
    let mut k: usize = 0;
    let n = rest.len();
    while k < n
        invariant
            n == rest.len(),
            all == rest@,
            k <= n,
            sorted_by_name(sorted@),
            sorted@.to_multiset() == all.subrange(0, k as int).to_multiset(),
            list_views(sorted@).to_multiset() == list_views(all.subrange(0, k as int)).to_multiset(),
        decreases n - k,
    {
        let item = rest[k].clone_list();
        let mut p: usize = 0;
        while p < sorted.len() && name_le_exec(&sorted[p].name, &item.name)
            invariant
                p <= sorted.len(),
                forall|j: int| 0 <= j < p ==> name_le(#[trigger] sorted@[j].name@, item.name@),
            decreases sorted.len() - p,
        {
            p = p + 1;
        }
        let ghost before = sorted@;
        proof {
            if p < sorted.len() {
                lemma_name_le_total(sorted@[p as int].name@, item.name@);
            }
        }
        sorted.insert(p, item);
        proof {
            assert forall|i: int| 0 <= i < sorted@.len() - 1 implies name_le(#[trigger] sorted@[i].name@, sorted@[i + 1].name@) by {
                if i + 1 < p {
                    assert(sorted@[i] == before[i] && sorted@[i + 1] == before[i + 1]);
                } else if i + 1 == p {
                    assert(sorted@[i] == before[i]);
                } else if i == p {
                } else {
                    assert(sorted@[i] == before[i - 1] && sorted@[i + 1] == before[i]);
                }
            }
            assert(all.subrange(0, k + 1) =~= all.subrange(0, k as int).push(all[k as int]));
            assert(sorted@ == before.insert(p as int, item));
            vstd::seq_lib::to_multiset_insert(before, p as int, item);
            vstd::seq_lib::to_multiset_build(all.subrange(0, k as int), all[k as int]);
            let iv = (item.name@, item.description@);
            assert(list_views(sorted@) =~= list_views(before).insert(p as int, iv));
            assert(list_views(all.subrange(0, k + 1)) =~= list_views(all.subrange(0, k as int)).push(iv));
            vstd::seq_lib::to_multiset_insert(list_views(before), p as int, iv);
            vstd::seq_lib::to_multiset_build(list_views(all.subrange(0, k as int)), iv);
        }
        k = k + 1;
    }
    proof {
        assert(all.subrange(0, n as int) =~= all);
    }
    sorted
}

/// No list read from a directory page is the synthetic `all` entry.
pub proof fn lemma_no_list_named_all(page: Seq<char>)
    ensures
        available_lists_of(page) matches Some(l) ==> forall|i: int|
            0 <= i < l.len() ==> #[trigger] l[i].0 != "all"@,
{
    let blocks = group_matches(RE_PRE_BLOCK@, page);
    if blocks.len() >= 3 {
        let names = group_matches(RE_LIST_NAME@, blocks[2]);
        let descriptions = group_matches(RE_LIST_DESCRIPTION@, blocks[2]);
        let k = if names.len() <= descriptions.len() { names.len() } else { descriptions.len() };
        lemma_listed_no_all(names, descriptions, k);
    }
}

proof fn lemma_listed_no_all(names: Seq<Seq<char>>, descriptions: Seq<Seq<char>>, k: nat)
    ensures
        forall|i: int| 0 <= i < listed(names, descriptions, k).len() ==> #[trigger] listed(names, descriptions, k)[i].0 != "all"@,
    decreases k,
{
    if k > 0 {
        lemma_listed_no_all(names, descriptions, (k - 1) as nat);
        let r = listed(names, descriptions, (k - 1) as nat);
        let l = listed(names, descriptions, k);
        assert forall|i: int| 0 <= i < l.len() implies #[trigger] l[i].0 != "all"@ by {
            if i < r.len() {
                assert(l[i] == r[i]);
            }
        }
    }
}

/// The lists read from directory pages in order, up to the first page
/// that lists none, and whether that page was reached; `None` where a page
/// before it has no listing block.
pub open spec fn pages_scan(pages: Seq<Seq<char>>) -> Option<(Seq<(Seq<char>, Seq<char>)>, bool)>
    decreases pages.len(),
{
    if pages.len() == 0 {
        Some((Seq::empty(), false))
    } else {
        match pages_scan(pages.drop_last()) {
            None => None,
            Some((acc, stopped)) => if stopped {
                Some((acc, true))
            } else {
                match available_lists_of(pages.last()) {
                    None => None,
                    Some(l) => if l.len() == 0 {
                        Some((acc, true))
                    } else {
                        Some((acc + l, false))
                    },
                }
            },
        }
    }
}

/// Gathers the lists of the directory pages `pages`, up to the first page
/// that lists none, ordered by name.
pub fn collect_available_lists(pages: &Vec<String>) -> (r: Option<Vec<MailingList>>)
    ensures
        lists_patterns_compile() ==> (r is Some <==> pages_scan(views(pages@)) is Some),
        r matches Some(v) ==> pages_scan(views(pages@)) matches Some((l, _)) && sorted_by_name(v@)
            && list_views(v@).to_multiset() == l.to_multiset(),
{
    let ghost ps = views(pages@);
    let mut acc: Vec<MailingList> = Vec::new();
    let mut stopped = false;
    let mut i: usize = 0;
    proof {
        assert(ps.take(0) =~= Seq::<Seq<char>>::empty());
        assert(list_views(acc@) =~= Seq::<(Seq<char>, Seq<char>)>::empty());
    }
    while i < pages.len()
        invariant
            i <= pages.len(),
            ps == views(pages@),
            pages_scan(ps.take(i as int)) == Some((list_views(acc@), stopped)),
        decreases pages.len() - i,
    {
        proof {
            assert(ps.take(i + 1).drop_last() =~= ps.take(i as int));
            assert(ps.take(i + 1).last() == pages@[i as int]@);
        }
        if !stopped {
            match process_available_lists(pages[i].as_str()) {
                None => {
                    proof {
                        if lists_patterns_compile() {
                            assert(pages_scan(ps.take(i + 1)) is None);
                            lemma_scan_none_stays(ps, i + 1);
                            assert(ps.take(ps.len() as int) =~= ps);
                        }
                    }
                    return None;
                },
                Some(l) => {
                    if l.len() == 0 {
                        stopped = true;
                    } else {
                        let ghost before = acc@;
                        let ghost lv = l@;
                        let mut l = l;
                        acc.append(&mut l);
                        proof {
                            assert(list_views(acc@) =~= list_views(before) + list_views(lv));
                        }
                    }
                },
            }
        }
        i = i + 1;
    }
    proof {
        assert(ps.take(i as int) =~= ps);
    }
    Some(sort_available_lists(acc))
}

proof fn lemma_scan_none_stays(ps: Seq<Seq<char>>, j: int)
    requires
        0 <= j <= ps.len(),
        pages_scan(ps.take(j)) is None,
    ensures
        pages_scan(ps.take(ps.len() as int)) is None,
    decreases ps.len() - j,
{
    if j < ps.len() {
        assert(ps.take(j + 1).drop_last() =~= ps.take(j));
        lemma_scan_none_stays(ps, j + 1);
    }
}

/// What the directory fetch does next: request the page at an offset, or
/// end with its result.
pub enum ListsStep {
    Fetch(usize),
    Done(Result<Vec<MailingList>, LoreSessionError>),
}

/// Whether the fetch ends after the page `body` received at `offset`: it
/// lists nothing, or the offset cannot move on.
pub open spec fn page_ends(offset: nat, body: Seq<char>) -> bool {
    available_lists_of(body)->0.len() == 0 || offset + LORE_PAGE_SIZE > usize::MAX
}

/// Whether `r` ends the fetch with the lists of `pages`, ordered by name.
pub open spec fn ends_with_lists(r: ListsStep, pages: Seq<Seq<char>>) -> bool {
    match r {
        ListsStep::Done(Ok(v)) => match pages_scan(pages) {
            Some((all, _)) => sorted_by_name(v@) && list_views(v@).to_multiset() == all.to_multiset(),
            None => false,
        },
        _ => false,
    }
}

/// The directory fetch in progress: the pages received so far, page `i`
/// having been requested at offset `i` times the page size.
pub struct ListsFetch {
    pages: Vec<String>,
    min_index: usize,
}

impl ListsFetch {
    /// The pages received so far, in order.
    pub closed spec fn pages(&self) -> Seq<Seq<char>> {
        views(self.pages@)
    }

    /// Offset of the page to request next.
    pub closed spec fn offset(&self) -> nat {
        self.min_index as nat
    }

    /// Each page was requested one page size after the previous one, from
    /// 0, and each listed some list.
    pub open spec fn wf(&self) -> bool {
        &&& self.offset() == LORE_PAGE_SIZE * self.pages().len()
        &&& pages_scan(self.pages()) matches Some((_, stopped)) && !stopped
    }

    /// A fetch that has received nothing; its first request is at offset 0.
    pub fn new() -> (r: ListsFetch)
        ensures
            r.wf(),
            r.pages() == Seq::<Seq<char>>::empty(),
            r.offset() == 0,
    {
        let r = ListsFetch { pages: Vec::new(), min_index: 0 };
        assert(r.pages() =~= Seq::<Seq<char>>::empty());
        r
    }

    /// Offset of the page to request next.
    pub fn min_index(&self) -> (r: usize)
        ensures
            r == self.offset(),
    {
        self.min_index
    }

    /// Takes the transport's answer to the request at `offset()`. A failed
    /// request ends the fetch with its error; a page without the listing
    /// block ends it with `MalformedPage`. A page that lists nothing, or an
    /// offset that cannot move on, ends it with every list received,
    /// ordered by name; otherwise the next page is requested one page size
    /// further.
    pub fn on_response(&mut self, response: Result<String, String>) -> (r: ListsStep)
        requires
            old(self).wf(),
        ensures
            response matches Err(e) ==> r == ListsStep::Done(Err(LoreSessionError::FromLoreAPIClient(e))),
            response matches Ok(body) ==> final(self).pages() == old(self).pages().push(body@),
            response matches Ok(body) ==> (available_lists_of(body@) is None ==> r
                == ListsStep::Done(Err(LoreSessionError::MalformedPage))),
            response is Ok && lists_patterns_compile() && available_lists_of(response->Ok_0@) is Some
                && page_ends(old(self).offset(), response->Ok_0@) ==> ends_with_lists(r, final(self).pages()),
            response is Ok && lists_patterns_compile() && available_lists_of(response->Ok_0@) is Some
                && !page_ends(old(self).offset(), response->Ok_0@) ==> r == ListsStep::Fetch(
                (old(self).offset() + LORE_PAGE_SIZE) as usize,
            ) && final(self).offset() == old(self).offset() + LORE_PAGE_SIZE,
            r matches ListsStep::Fetch(o) ==> o == final(self).offset() && final(self).wf(),
    {
        let body = match response {
            Ok(b) => b,
            Err(e) => {
                return ListsStep::Done(Err(LoreSessionError::FromLoreAPIClient(e)));
            },
        };
        let listed_here = process_available_lists(body.as_str());
        let ghost before = self.pages@;
        self.pages.push(body);
        proof {
            assert(views(self.pages@) =~= views(before).push(self.pages@.last()@));
            assert(self.pages().drop_last() =~= old(self).pages());
        }
        let l = match listed_here {
            Some(l) => l,
            None => {
                return ListsStep::Done(Err(LoreSessionError::MalformedPage));
            },
        };
        if l.len() == 0 || self.min_index > usize::MAX - LORE_PAGE_SIZE {
            return match collect_available_lists(&self.pages) {
                Some(v) => ListsStep::Done(Ok(v)),
                None => ListsStep::Done(Err(LoreSessionError::MalformedPage)),
            };
        }
        self.min_index = self.min_index + LORE_PAGE_SIZE;
        proof {
            assert(list_views(l@).len() == l@.len());
        }
        ListsStep::Fetch(self.min_index)
    }
}

impl MailingList {
    fn clone_list(&self) -> (r: MailingList)
        ensures
            r == *self,
    {
        MailingList { name: self.name.clone(), description: self.description.clone() }
    }
}

} // verus!
