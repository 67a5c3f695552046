use vstd::prelude::*;
use vstd::string::StringExecFns;

use crate::patch::{read_metadata, Patch};

verus! {

/// Offset step between two consecutive pages of the remote feed.
pub const LORE_PAGE_SIZE: usize = 200;

/// Whether some patch of `ps` has identifier `id`.
pub open spec fn has_id(ps: Seq<Patch>, id: Seq<char>) -> bool {
    exists|i: int| 0 <= i < ps.len() && #[trigger] ps[i].message_id@ == id
}

/// No two patches of `ps` share an identifier.
pub open spec fn ids_unique(ps: Seq<Patch>) -> bool {
    forall|i: int, j: int|
        0 <= i < ps.len() && 0 <= j < ps.len() && #[trigger] ps[i].message_id@
            == #[trigger] ps[j].message_id@ ==> i == j
}

/// The patch of `ps` with identifier `id`, if there is one.
pub open spec fn lookup(ps: Seq<Patch>, id: Seq<char>) -> Option<Patch> {
    if has_id(ps, id) {
        Some(ps[choose|i: int| 0 <= i < ps.len() && #[trigger] ps[i].message_id@ == id])
    } else {
        None
    }
}

/// The patches of `feed` that are new to `known`, in feed order: the first
/// entry with a given identifier is taken, later ones are dropped.
pub open spec fn fresh(known: Seq<Patch>, feed: Seq<Patch>) -> Seq<Patch>
    decreases feed.len(),
{
    if feed.len() == 0 {
        Seq::empty()
    } else {
        let f = fresh(known, feed.drop_last());
        if has_id(known + f, feed.last().message_id@) {
            f
        } else {
            f.push(feed.last())
        }
    }
}

/// The patches of a feed page with their subject metadata read.
pub open spec fn with_metadata(feed: Seq<Patch>) -> Seq<Patch> {
    feed.map_values(|p: Patch| read_metadata(p))
}

/// Identifiers of a sequence of patches.
pub open spec fn ids_of(ps: Seq<Patch>) -> Seq<Seq<char>> {
    ps.map_values(|p: Patch| p.message_id@)
}

/// Whether `p` stands for its series once `ps` has been processed: later
/// patches of a series never do, and patch 1 does not where it replies to a
/// processed cover letter of the same version.
pub open spec fn is_representative(ps: Seq<Patch>, p: Patch) -> bool {
    if p.number_in_series > 1 {
        false
    } else if p.number_in_series == 1 {
        match p.in_reply_to {
            Some(r) => match lookup(ps, r@) {
                Some(q) => !(q.number_in_series == 0 && q.version == p.version),
                None => true,
            },
            None => true,
        }
    } else {
        true
    }
}

/// The identifiers among `ids` whose patch in `ps` is a representative, in
/// order.
pub open spec fn representatives(ps: Seq<Patch>, ids: Seq<Seq<char>>) -> Seq<Seq<char>>
    decreases ids.len(),
{
    if ids.len() == 0 {
        Seq::empty()
    } else {
        let r = representatives(ps, ids.drop_last());
        match lookup(ps, ids.last()) {
            Some(p) => if is_representative(ps, p) {
                r.push(ids.last())
            } else {
                r
            },
            None => r,
        }
    }
}

proof fn lemma_lookup_at(ps: Seq<Patch>, i: int)
    requires
        ids_unique(ps),
        0 <= i < ps.len(),
    ensures
        lookup(ps, ps[i].message_id@) == Some(ps[i]),
{
    assert(has_id(ps, ps[i].message_id@));
}

proof fn lemma_fresh_ids(known: Seq<Patch>, feed: Seq<Patch>)
    requires
        ids_unique(known),
    ensures
        ids_unique(known + fresh(known, feed)),
        forall|i: int|
            0 <= i < feed.len() ==> has_id(known + fresh(known, feed), #[trigger] feed[i].message_id@),
        forall|i: int|
            0 <= i < fresh(known, feed).len() ==> !has_id(known, #[trigger] fresh(known, feed)[i].message_id@),
    decreases feed.len(),
{
    if feed.len() > 0 {
        let f0 = fresh(known, feed.drop_last());
        lemma_fresh_ids(known, feed.drop_last());
        let all0 = known + f0;
        let f = fresh(known, feed);
        let all = known + f;
        assert forall|i: int| 0 <= i < feed.len() implies has_id(all, #[trigger] feed[i].message_id@) by {
            if i < feed.len() - 1 {
                assert(feed.drop_last()[i] == feed[i]);
                let j = choose|j: int| 0 <= j < all0.len() && #[trigger] all0[j].message_id@ == feed[i].message_id@;
                assert(all[j] == all0[j]);
            } else if !has_id(all0, feed.last().message_id@) {
                assert(all[all.len() - 1] == feed.last());
            } else {
                let j = choose|j: int| 0 <= j < all0.len() && #[trigger] all0[j].message_id@ == feed.last().message_id@;
                assert(all[j] == all0[j]);
            }
        }
        if !has_id(all0, feed.last().message_id@) {
            assert(all == all0.push(feed.last()));
            assert forall|i: int, j: int|
                0 <= i < all.len() && 0 <= j < all.len() && #[trigger] all[i].message_id@
                    == #[trigger] all[j].message_id@ implies i == j by {
                if i < all0.len() && j < all0.len() {
                    assert(all[i] == all0[i] && all[j] == all0[j]);
                } else if i < all0.len() {
                    assert(all[i] == all0[i]);
                } else if j < all0.len() {
                    assert(all[j] == all0[j]);
                }
            }
            assert forall|i: int| 0 <= i < f.len() implies !has_id(known, #[trigger] f[i].message_id@) by {
                if i < f0.len() {
                    assert(f[i] == f0[i]);
                } else {
                    if has_id(known, f[i].message_id@) {
                        let j = choose|j: int| 0 <= j < known.len() && #[trigger] known[j].message_id@ == f[i].message_id@;
                        assert(all0[j] == known[j]);
                    }
                }
            }
        }
    }
}


proof fn lemma_fresh_known(known: Seq<Patch>, feed: Seq<Patch>)
    requires
        forall|i: int| 0 <= i < feed.len() ==> has_id(known, #[trigger] feed[i].message_id@),
    ensures
        fresh(known, feed) == Seq::<Patch>::empty(),
    decreases feed.len(),
{
    if feed.len() > 0 {
        let d = feed.drop_last();
        assert forall|i: int| 0 <= i < d.len() implies has_id(known, #[trigger] d[i].message_id@) by {
            assert(d[i] == feed[i]);
        }
        lemma_fresh_known(known, d);
        assert(known + Seq::<Patch>::empty() =~= known);
        assert(has_id(known, feed[feed.len() - 1].message_id@));
    }
}

/// Ingesting the same page twice (as `ingest_feed_page` does, subject
/// metadata read first): the second time records no patch and appends no
/// representative, so the processed patches and the representative
/// identifiers stay as the first time left them.
pub proof fn lemma_ingest_idempotent(known: Seq<Patch>, feed: Seq<Patch>)
    requires
        ids_unique(known),
    ensures
        ({
            let page = with_metadata(feed);
            let once = known + fresh(known, page);
            &&& fresh(once, page) == Seq::<Patch>::empty()
            &&& once + fresh(once, page) == once
            &&& representatives(once + fresh(once, page), ids_of(fresh(once, page)))
                == Seq::<Seq<char>>::empty()
        }),
{
    let page = with_metadata(feed);
    let once = known + fresh(known, page);
    lemma_fresh_ids(known, page);
    lemma_fresh_known(once, page);
    assert(once + Seq::<Patch>::empty() =~= once);
    assert(ids_of(Seq::<Patch>::empty()) =~= Seq::<Seq<char>>::empty());
}

/// Within one series and version, once its cover letter has been processed
/// the cover letter is the representative and patch 1 is not; without a
/// processed cover letter of that version patch 1 is the representative;
/// later patches never are.
pub proof fn lemma_series_representative(ps: Seq<Patch>, cover: Patch, first: Patch, later: Patch)
    requires
        ids_unique(ps),
        cover.number_in_series == 0,
        first.number_in_series == 1,
        later.number_in_series > 1,
    ensures
        is_representative(ps, cover),
        !is_representative(ps, later),
        (lookup(ps, cover.message_id@) == Some(cover) && first.in_reply_to is Some
            && first.in_reply_to->0@ == cover.message_id@ && first.version == cover.version)
            ==> !is_representative(ps, first),
        (forall|q: Patch|
            #[trigger] ps.contains(q) && q.number_in_series == 0 && q.version == first.version ==> !(
            first.in_reply_to is Some && first.in_reply_to->0@ == q.message_id@)) ==> is_representative(ps, first),
{
    if first.in_reply_to is Some {
        let r = first.in_reply_to->0;
        if has_id(ps, r@) {
            let i = choose|i: int| 0 <= i < ps.len() && #[trigger] ps[i].message_id@ == r@;
            assert(ps.contains(ps[i]));
        }
    }
}

/// Whether the processed patch with identifier `id` belongs to the series of
/// `cover`: the cover letter itself, or a numbered patch of the same
/// version that replies to it.
pub open spec fn in_series_of(ps: Seq<Patch>, cover: Patch, id: Seq<char>) -> bool {
    match lookup(ps, id) {
        Some(p) => p.message_id@ == cover.message_id@ || (p.number_in_series >= 1
            && p.version == cover.version && p.in_reply_to is Some && p.in_reply_to->0@
            == cover.message_id@),
        None => false,
    }
}

proof fn lemma_representatives_from(ps: Seq<Patch>, ids: Seq<Seq<char>>)
    ensures
        forall|k: int| 0 <= k < representatives(ps, ids).len() ==> ids.contains(#[trigger] representatives(ps, ids)[k]),
        ids.no_duplicates() ==> representatives(ps, ids).no_duplicates(),
    decreases ids.len(),
{
    if ids.len() > 0 {
        let d = ids.drop_last();
        lemma_representatives_from(ps, d);
        let r0 = representatives(ps, d);
        let r = representatives(ps, ids);
        assert forall|k: int| 0 <= k < r.len() implies ids.contains(#[trigger] r[k]) by {
            if k < r0.len() {
                assert(r[k] == r0[k]);
                let j = choose|j: int| 0 <= j < d.len() && d[j] == r0[k];
                assert(ids[j] == d[j]);
            } else {
                assert(ids[ids.len() - 1] == ids.last());
            }
        }
        if ids.no_duplicates() {
            assert(d.no_duplicates()) by {
                assert forall|i: int, j: int| 0 <= i < d.len() && 0 <= j < d.len() && i != j implies d[i] != d[j] by {
                    assert(d[i] == ids[i] && d[j] == ids[j]);
                }
            }
            if r.len() > r0.len() {
                assert forall|i: int, j: int| 0 <= i < r.len() && 0 <= j < r.len() && i != j implies r[i] != r[j] by {
                    if i < r0.len() && j < r0.len() {
                        assert(r[i] == r0[i] && r[j] == r0[j]);
                    } else if i < r0.len() {
                        assert(r[i] == r0[i]);
                        let m = choose|m: int| 0 <= m < d.len() && d[m] == r0[i];
                        assert(ids[m] == d[m]);
                        assert(r[j] == ids[ids.len() - 1]);
                    } else if j < r0.len() {
                        assert(r[j] == r0[j]);
                        let m = choose|m: int| 0 <= m < d.len() && d[m] == r0[j];
                        assert(ids[m] == d[m]);
                        assert(r[i] == ids[ids.len() - 1]);
                    }
                }
            } else {
                assert(r == r0);
            }
        }
    }
}

/// Among the identifiers of one ingestion round (no identifier twice), a
/// series whose cover letter has been processed has exactly one
/// representative: its cover letter. No other patch of the series is
/// chosen, and the cover letter is chosen once.
pub proof fn lemma_one_representative_per_series(ps: Seq<Patch>, ids: Seq<Seq<char>>, cover: Patch)
    requires
        ids_unique(ps),
        ids.no_duplicates(),
        cover.number_in_series == 0,
        lookup(ps, cover.message_id@) == Some(cover),
        ids.contains(cover.message_id@),
    ensures
        representatives(ps, ids).contains(cover.message_id@),
        forall|k: int|
            0 <= k < representatives(ps, ids).len() && in_series_of(ps, cover, #[trigger] representatives(ps, ids)[k])
                ==> representatives(ps, ids)[k] == cover.message_id@,
        forall|k1: int, k2: int|
            0 <= k1 < representatives(ps, ids).len() && 0 <= k2 < representatives(ps, ids).len()
                && #[trigger] representatives(ps, ids)[k1] == cover.message_id@
                && #[trigger] representatives(ps, ids)[k2] == cover.message_id@ ==> k1 == k2,
    decreases ids.len(),
{
    lemma_representatives_from(ps, ids);
    lemma_series_members_skipped(ps, ids, cover);
    lemma_cover_kept(ps, ids, cover);
}

proof fn lemma_series_members_skipped(ps: Seq<Patch>, ids: Seq<Seq<char>>, cover: Patch)
    requires
        ids_unique(ps),
        cover.number_in_series == 0,
        lookup(ps, cover.message_id@) == Some(cover),
    ensures
        forall|k: int|
            0 <= k < representatives(ps, ids).len() && in_series_of(ps, cover, #[trigger] representatives(ps, ids)[k])
                ==> representatives(ps, ids)[k] == cover.message_id@,
    decreases ids.len(),
{
    if ids.len() > 0 {
        let d = ids.drop_last();
        lemma_series_members_skipped(ps, d, cover);
        let r0 = representatives(ps, d);
        let r = representatives(ps, ids);
        assert forall|k: int|
            0 <= k < r.len() && in_series_of(ps, cover, #[trigger] r[k]) implies r[k] == cover.message_id@ by {
            if k < r0.len() {
                assert(r[k] == r0[k]);
            } else {
                let p = lookup(ps, ids.last())->0;
                if p.message_id@ != cover.message_id@ {
                    assert(p.in_reply_to is Some);
                    assert(lookup(ps, p.in_reply_to->0@) == Some(cover));
                }
            }
        }
    }
}

proof fn lemma_cover_kept(ps: Seq<Patch>, ids: Seq<Seq<char>>, cover: Patch)
    requires
        cover.number_in_series == 0,
        lookup(ps, cover.message_id@) == Some(cover),
        ids.contains(cover.message_id@),
    ensures
        representatives(ps, ids).contains(cover.message_id@),
    decreases ids.len(),
{
    let d = ids.drop_last();
    let r0 = representatives(ps, d);
    let r = representatives(ps, ids);
    if ids.last() == cover.message_id@ {
        assert(r[r.len() - 1] == cover.message_id@);
    } else {
        let j = choose|j: int| 0 <= j < ids.len() && ids[j] == cover.message_id@;
        assert(d[j] == ids[j]);
        lemma_cover_kept(ps, d, cover);
        let k = choose|k: int| 0 <= k < r0.len() && r0[k] == cover.message_id@;
        assert(r[k] == r0[k]);
    }
}

/// What the fetch of representatives does next: request the feed page of
/// the session's list at an offset, or end with its result.
pub enum FeedStep {
    Fetch(usize),
    Done(Result<(), LoreSessionError>),
}

/// Failure of a session operation.
pub enum LoreSessionError {
    /// The feed transport failed; carries its description.
    FromLoreAPIClient(String),
    /// A page came back without the structure it must have.
    MalformedPage,
}

/// Incremental deduplication and representative selection over the feed of
/// one mailing list.
pub struct LoreSession {
    representative_patches_ids: Vec<String>,
    processed_patches: Vec<Patch>,
    target_list: String,
    min_index: usize,
}

impl LoreSession {
    /// Every patch processed so far, in discovery order.
    pub closed spec fn processed(&self) -> Seq<Patch> {
        self.processed_patches@
    }

    /// Identifiers of the representative patches, in discovery order.
    pub closed spec fn representative_ids(&self) -> Seq<Seq<char>> {
        self.representative_patches_ids@.map_values(|s: String| s@)
    }

    /// Offset of the next feed page to request.
    pub closed spec fn cursor(&self) -> nat {
        self.min_index as nat
    }

    pub closed spec fn target(&self) -> Seq<char> {
        self.target_list@
    }

    /// Identifiers are unique, every representative has been processed,
    /// and no representative is listed twice.
    pub open spec fn wf(&self) -> bool {
        &&& self.reps_processed()
        &&& self.representative_ids().no_duplicates()
    }

    /// Identifiers are unique and every representative has been processed.
    pub open spec fn reps_processed(&self) -> bool {
        &&& ids_unique(self.processed())
        &&& forall|i: int|
            0 <= i < self.representative_ids().len() ==> has_id(
                self.processed(),
                #[trigger] self.representative_ids()[i],
            )
    }

    pub fn new(target_list: String) -> (r: LoreSession)
        ensures
            r.wf(),
            r.processed() == Seq::<Patch>::empty(),
            r.representative_ids() == Seq::<Seq<char>>::empty(),
            r.cursor() == 0,
            r.target() == target_list@,
    {
        let r = LoreSession {
            target_list,
            representative_patches_ids: Vec::new(),
            processed_patches: Vec::new(),
            min_index: 0,
        };
        assert(r.representative_ids() =~= Seq::<Seq<char>>::empty());
        r
    }

    fn find_index(&self, message_id: &String) -> (r: Option<usize>)
        requires
            ids_unique(self.processed()),
        ensures
            match r {
                Some(i) => i < self.processed().len() && lookup(self.processed(), message_id@)
                    == Some(self.processed()[i as int]),
                None => !has_id(self.processed(), message_id@),
            },
    {
        let mut i: usize = 0;
        while i < self.processed_patches.len()
            invariant
                i <= self.processed_patches.len(),
                ids_unique(self.processed()),
                forall|j: int| 0 <= j < i ==> #[trigger] self.processed_patches@[j].message_id@ != message_id@,
            decreases self.processed_patches.len() - i,
        {
            if self.processed_patches[i].message_id == *message_id {
                proof {
                    lemma_lookup_at(self.processed(), i as int);
                }
                return Some(i);
            }
            i = i + 1;
        }
        None
    }

    /// The processed patch with identifier `message_id`, if any.
    pub fn get_processed_patch(&self, message_id: &str) -> (r: Option<&Patch>)
        requires
            self.wf(),
        ensures
            match r {
                Some(p) => lookup(self.processed(), message_id@) == Some(*p),
                None => lookup(self.processed(), message_id@) is None,
            },
    {
        let key = String::from_str(message_id);
        match self.find_index(&key) {
            Some(i) => Some(&self.processed_patches[i]),
            None => None,
        }
    }

    /// Reads the subject metadata of each patch of `patch_feed`, adds those
    /// whose identifiers are new, and returns
    /// those identifiers in feed order.
    fn process_patches(&mut self, patch_feed: Vec<Patch>) -> (ids: Vec<String>)
        requires
            ids_unique(old(self).processed()),
        ensures
            final(self).processed() == old(self).processed() + fresh(old(self).processed(), with_metadata(patch_feed@)),
            ids@.map_values(|s: String| s@) == ids_of(fresh(old(self).processed(), with_metadata(patch_feed@))),
            final(self).representative_patches_ids == old(self).representative_patches_ids,
            final(self).target_list == old(self).target_list,
            final(self).min_index == old(self).min_index,
            ids_unique(final(self).processed()),
    {
        let ghost known = self.processed();
        let ghost feed = with_metadata(patch_feed@);
        let mut processed_patches_ids: Vec<String> = Vec::new();
        let mut i: usize = 0;
        while i < patch_feed.len()
            invariant
                i <= patch_feed.len(),
                feed == with_metadata(patch_feed@),
                ids_unique(known),
                self.processed() == known + fresh(known, feed.take(i as int)),
                processed_patches_ids@.map_values(|s: String| s@) == ids_of(fresh(known, feed.take(i as int))),
                self.representative_patches_ids == old(self).representative_patches_ids,
                self.target_list == old(self).target_list,
                self.min_index == old(self).min_index,
            decreases patch_feed.len() - i,
        {
            proof {
                lemma_fresh_ids(known, feed.take(i as int));
                assert(feed.take(i + 1).drop_last() =~= feed.take(i as int));
            }
            let mut patch = patch_feed[i].clone();
            patch.update_patch_metadata();
            assert(patch == feed[i as int]);
            assert(feed.take(i + 1).last() == feed[i as int]);
            match self.find_index(&patch.message_id) {
                Some(_) => {},
                None => {
                    let ghost f = fresh(known, feed.take(i as int));
                    let ghost old_ids = processed_patches_ids@;
                    let id = patch.message_id.clone();
                    let ghost gp = patch;
                    processed_patches_ids.push(id);
                    self.processed_patches.push(patch);
                    proof {
                        assert(self.processed() =~= known + f.push(gp));
                        assert(processed_patches_ids@ == old_ids.push(id));
                        assert(old_ids.map_values(|s: String| s@) == ids_of(f));
                        let lhs = processed_patches_ids@.map_values(|s: String| s@);
                        let rhs = ids_of(f.push(gp));
                        assert forall|k: int| 0 <= k < lhs.len() implies lhs[k] == rhs[k] by {
                            assert(old_ids.map_values(|s: String| s@).len() == old_ids.len());
                            assert(ids_of(f).len() == f.len());
                            if k < old_ids.len() {
                                assert(old_ids.map_values(|s: String| s@)[k] == ids_of(f)[k]);
                                assert(f.push(gp)[k] == f[k]);
                            }
                        }
                        assert(old_ids.map_values(|s: String| s@).len() == old_ids.len());
                        assert(ids_of(f).len() == f.len());
                        assert(lhs.len() == rhs.len());
                        assert(lhs =~= rhs);
                    }
                },
            }
            i = i + 1;
        }
        proof {
            assert(feed.take(i as int) =~= feed);
            lemma_fresh_ids(known, feed);
        }
        processed_patches_ids
    }

    /// Appends, in order, the identifiers among `processed_patches_ids` that
    /// are representatives.
    fn update_representative_patches(&mut self, processed_patches_ids: Vec<String>)
        requires
            old(self).wf(),
            processed_patches_ids@.map_values(|s: String| s@).no_duplicates(),
            forall|k: int|
                0 <= k < processed_patches_ids.len() ==> !old(self).representative_ids().contains(
                    #[trigger] processed_patches_ids@[k]@,
                ),
        ensures
            final(self).wf(),
            final(self).representative_ids() == old(self).representative_ids() + representatives(
                old(self).processed(),
                processed_patches_ids@.map_values(|s: String| s@),
            ),
            final(self).processed_patches == old(self).processed_patches,
            final(self).target_list == old(self).target_list,
            final(self).min_index == old(self).min_index,
    {
        let ghost ps = self.processed();
        let ghost ids = processed_patches_ids@.map_values(|s: String| s@);
        let ghost reps0 = self.representative_ids();
        let mut i: usize = 0;
        while i < processed_patches_ids.len()
            invariant
                i <= processed_patches_ids.len(),
                ids == processed_patches_ids@.map_values(|s: String| s@),
                self.reps_processed(),
                self.processed() == ps,
                self.representative_ids() == reps0 + representatives(ps, ids.take(i as int)),
                self.processed_patches == old(self).processed_patches,
                self.target_list == old(self).target_list,
                self.min_index == old(self).min_index,
            decreases processed_patches_ids.len() - i,
        {
            proof {
                assert(ids.take(i + 1).drop_last() =~= ids.take(i as int));
                assert(ids.take(i + 1).last() == processed_patches_ids@[i as int]@);
            }
            let message_id = &processed_patches_ids[i];
            let mut keep = false;
            match self.find_index(message_id) {
                Some(j) => {
                    let patch = &self.processed_patches[j];
                    keep = true;
                    if patch.number_in_series > 1 {
                        keep = false;
                    } else if patch.number_in_series == 1 {
                        if let Some(in_reply_to) = &patch.in_reply_to {
                            if let Some(k) = self.find_index(in_reply_to) {
                                let patch_in_reply_to = &self.processed_patches[k];
                                if patch_in_reply_to.number_in_series == 0
                                    && patch.version == patch_in_reply_to.version {
                                    keep = false;
                                }
                            }
                        }
                    }
                },
                None => {},
            }
            if keep {
                let ghost old_reps = self.representative_patches_ids@;
                let id = message_id.clone();
                self.representative_patches_ids.push(id);
                proof {
                    let lhs = self.representative_ids();
                    let rhs = reps0 + representatives(ps, ids.take(i + 1));
                    assert(old_reps.map_values(|s: String| s@).len() == old_reps.len());
                    assert(lhs.len() == rhs.len());
                    assert forall|k: int| 0 <= k < lhs.len() implies lhs[k] == rhs[k] by {
                        if k < old_reps.len() {
                            assert(old_reps.map_values(|s: String| s@)[k] == lhs[k]);
                        }
                    }
                    assert(lhs =~= rhs);
                    assert forall|k: int| 0 <= k < lhs.len() implies has_id(ps, #[trigger] lhs[k]) by {
                        if k < old_reps.len() {
                            assert(old_reps.map_values(|s: String| s@)[k] == lhs[k]);
                        }
                    }
                }
            }
            i = i + 1;
        }
        proof {
            assert(ids.take(i as int) =~= ids);
            lemma_representatives_from(ps, ids);
            let r = representatives(ps, ids);
            let all = self.representative_ids();
            assert forall|a: int, b: int| 0 <= a < all.len() && 0 <= b < all.len() && a != b implies all[a] != all[b] by {
                if a >= reps0.len() && b >= reps0.len() {
                    assert(all[a] == r[a - reps0.len()] && all[b] == r[b - reps0.len()]);
                } else if a >= reps0.len() || b >= reps0.len() {
                    let (x, y) = if a >= reps0.len() { (a, b) } else { (b, a) };
                    assert(all[x] == r[x - reps0.len()]);
                    assert(ids.contains(r[x - reps0.len()]));
                    let m = choose|m: int| 0 <= m < ids.len() && ids[m] == r[x - reps0.len()];
                    assert(ids[m] == processed_patches_ids@[m]@);
                    assert(all[y] == reps0[y]);
                    assert(!reps0.contains(processed_patches_ids@[m]@));
                } else {
                    assert(all[a] == reps0[a] && all[b] == reps0[b]);
                }
            }
        }
    }

    /// Folds one page of the feed into the session: new patches are
    /// recorded, the representatives among them are appended, and the cursor
    /// moves on by one page whatever the page held.
    pub fn ingest_feed_page(&mut self, patch_feed: Vec<Patch>)
        requires
            old(self).wf(),
            old(self).cursor() + LORE_PAGE_SIZE <= usize::MAX,
        ensures
            final(self).wf(),
            final(self).processed() == old(self).processed() + fresh(old(self).processed(), with_metadata(patch_feed@)),
            final(self).representative_ids() == old(self).representative_ids() + representatives(
                final(self).processed(),
                ids_of(fresh(old(self).processed(), with_metadata(patch_feed@))),
            ),
            ids_of(fresh(old(self).processed(), with_metadata(patch_feed@))).no_duplicates(),
            final(self).cursor() == old(self).cursor() + LORE_PAGE_SIZE,
            final(self).target() == old(self).target(),
    {
        let ghost ps0 = self.processed();
        proof {
            lemma_fresh_ids(ps0, with_metadata(patch_feed@));
            let f = fresh(ps0, with_metadata(patch_feed@));
            let all = ps0 + f;
            assert forall|i: int, j: int| 0 <= i < f.len() && 0 <= j < f.len() && i != j implies ids_of(f)[i] != ids_of(f)[j] by {
                assert(all[ps0.len() + i] == f[i] && all[ps0.len() + j] == f[j]);
            }
        }
        let ghost reps0 = self.representative_ids();
        let processed_patches_ids = self.process_patches(patch_feed);
        proof {
            assert(reps0 == self.representative_ids());
            assert forall|i: int| 0 <= i < self.representative_ids().len() implies has_id(
                self.processed(),
                #[trigger] self.representative_ids()[i],
            ) by {
                assert(has_id(ps0, reps0[i]));
                let j = choose|j: int| 0 <= j < ps0.len() && #[trigger] ps0[j].message_id@ == self.representative_ids()[i];
                assert(self.processed()[j] == ps0[j]);
            }
            let f = fresh(ps0, with_metadata(patch_feed@));
            lemma_fresh_ids(ps0, with_metadata(patch_feed@));
            assert(processed_patches_ids@.map_values(|s: String| s@).len() == processed_patches_ids.len());
            assert(ids_of(f).len() == f.len());
            assert forall|k: int| 0 <= k < processed_patches_ids.len() implies !reps0.contains(
                #[trigger] processed_patches_ids@[k]@,
            ) by {
                assert(processed_patches_ids@.map_values(|s: String| s@)[k] == ids_of(f)[k]);
                assert(!has_id(ps0, f[k].message_id@));
                if reps0.contains(processed_patches_ids@[k]@) {
                    let m = choose|m: int| 0 <= m < reps0.len() && reps0[m] == processed_patches_ids@[k]@;
                    assert(has_id(ps0, reps0[m]));
                }
            }
        }
        self.update_representative_patches(processed_patches_ids);
        self.min_index = self.min_index + LORE_PAGE_SIZE;
    }

    /// Page `page_number` (counted from 1) of the representative patches,
    /// `page_size` to a page; `None` where the page starts at or past the
    /// end of the list.
    pub fn get_patch_feed_page(&self, page_size: usize, page_number: usize) -> (r: Option<Vec<&Patch>>)
        requires
            self.wf(),
            page_number >= 1,
        ensures
            r is None <==> page_size * (page_number - 1) >= self.representative_ids().len(),
            r matches Some(v) ==> {
                let lower = page_size * (page_number - 1);
                let upper = if lower + page_size <= self.representative_ids().len() {
                    lower + page_size
                } else {
                    self.representative_ids().len() as int
                };
                &&& v.len() == upper - lower
                &&& forall|k: int|
                    0 <= k < v.len() ==> lookup(self.processed(), self.representative_ids()[lower + k])
                        == Some(*#[trigger] v[k])
            },
    {
        let len = self.representative_patches_ids.len();
        let lower_end: usize = match page_size.checked_mul(page_number - 1) {
            Some(l) => l,
            None => {
                return None;
            },
        };
        if lower_end >= len {
            return None;
        }
        let upper_end: usize = if len - lower_end >= page_size {
            lower_end + page_size
        } else {
            len
        };
        let mut patch_feed_page: Vec<&Patch> = Vec::new();
        let mut i: usize = lower_end;
        while i < upper_end
            invariant
                self.wf(),
                lower_end <= i <= upper_end <= len,
                len == self.representative_ids().len(),
                patch_feed_page.len() == i - lower_end,
                forall|k: int|
                    0 <= k < patch_feed_page.len() ==> lookup(self.processed(), self.representative_ids()[lower_end + k])
                        == Some(*#[trigger] patch_feed_page@[k]),
            decreases upper_end - i,
        {
            let ghost id = self.representative_ids()[i as int];
            assert(self.representative_patches_ids@[i as int]@ == id);
            assert(has_id(self.processed(), id));
            match self.find_index(&self.representative_patches_ids[i]) {
                Some(j) => {
                    patch_feed_page.push(&self.processed_patches[j]);
                },
                None => {
                    return None;
                },
            }
            i = i + 1;
        }
        Some(patch_feed_page)
    }

    /// Identifiers of the representative patches, in discovery order.
    pub fn representative_patches_ids(&self) -> (r: &Vec<String>)
        ensures
            r@.map_values(|s: String| s@) == self.representative_ids(),
    {
        &self.representative_patches_ids
    }

    /// Name of the list this session follows.
    pub fn target_list(&self) -> (r: &String)
        ensures
            r@ == self.target(),
    {
        &self.target_list
    }

    /// Offset of the next feed page to request.
    pub fn min_index(&self) -> (r: usize)
        ensures
            r == self.cursor(),
    {
        self.min_index
    }

    /// The first step towards `n` representatives: nothing to do once
    /// there are enough, or where the cursor cannot move on; else request
    /// the page at the cursor.
    pub fn first_feed_request(&self, n: usize) -> (r: FeedStep)
        ensures
            r == if self.representative_ids().len() >= n || self.cursor() + LORE_PAGE_SIZE > usize::MAX {
                FeedStep::Done(Ok(()))
            } else {
                FeedStep::Fetch(self.cursor() as usize)
            },
    {
        if self.representative_patches_ids.len() >= n || self.min_index > usize::MAX - LORE_PAGE_SIZE {
            FeedStep::Done(Ok(()))
        } else {
            FeedStep::Fetch(self.min_index)
        }
    }

    /// Takes the transport's answer to the request for this session's list
    /// at the cursor, on the way to `n` representatives. A failed request
    /// ends with its error and changes nothing. A page is ingested (the
    /// cursor moves one page size); the fetch then ends where the page was
    /// empty (the archive is exhausted), where there are `n`
    /// representatives, or where the cursor cannot move on; else the page
    /// at the new cursor is requested.
    pub fn on_feed_response(&mut self, n: usize, response: Result<Vec<Patch>, String>) -> (r: FeedStep)
        requires
            old(self).wf(),
        ensures
            final(self).wf(),
            final(self).target() == old(self).target(),
            response matches Err(e) ==> r == FeedStep::Done(Err(LoreSessionError::FromLoreAPIClient(e))),
            (response is Err || old(self).cursor() + LORE_PAGE_SIZE > usize::MAX) ==> final(self).processed()
                == old(self).processed() && final(self).representative_ids()
                == old(self).representative_ids() && final(self).cursor() == old(self).cursor(),
            response is Ok && old(self).cursor() + LORE_PAGE_SIZE > usize::MAX ==> r == FeedStep::Done(Ok(())),
            response is Ok && old(self).cursor() + LORE_PAGE_SIZE <= usize::MAX ==> {
                let page = with_metadata(response->Ok_0@);
                &&& final(self).processed() == old(self).processed() + fresh(old(self).processed(), page)
                &&& final(self).representative_ids() == old(self).representative_ids() + representatives(
                    final(self).processed(),
                    ids_of(fresh(old(self).processed(), page)),
                )
                &&& final(self).cursor() == old(self).cursor() + LORE_PAGE_SIZE
                &&& r == if response->Ok_0@.len() == 0 || final(self).representative_ids().len() >= n
                    || final(self).cursor() + LORE_PAGE_SIZE > usize::MAX {
                    FeedStep::Done(Ok(()))
                } else {
                    FeedStep::Fetch(final(self).cursor() as usize)
                }
            },
    {
        let patch_feed = match response {
            Ok(f) => f,
            Err(e) => {
                return FeedStep::Done(Err(LoreSessionError::FromLoreAPIClient(e)));
            },
        };
        if self.min_index > usize::MAX - LORE_PAGE_SIZE {
            return FeedStep::Done(Ok(()));
        }
        let empty_page = patch_feed.len() == 0;
        self.ingest_feed_page(patch_feed);
        if empty_page || self.representative_patches_ids.len() >= n || self.min_index > usize::MAX
            - LORE_PAGE_SIZE {
            FeedStep::Done(Ok(()))
        } else {
            FeedStep::Fetch(self.min_index)
        }
    }
}

} // verus!
