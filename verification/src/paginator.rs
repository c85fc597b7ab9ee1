//! Walking the pages of a run list. The pages come newest first: page 1,
//! then page 2, up to the last page that the pagination header announces.
//! Of each page the runs inside the window are kept, and the first page
//! that holds a run from before the window is the last one read.
//!
//! Fetching a page is not done here. `Paginator` says which page to fetch
//! next and takes the page that came back; `collect_runs` does the same walk
//! over pages that are at hand already.

use crate::dates::DateWindow;
use crate::link::{
    announced_pages, is_tagged_last, lemma_untagged_header_is_one_page, link_view, max_page_count,
    LinkError,
};
use crate::model::{
    any_before, distinct_ids, has_id, lemma_all_within, lemma_kept_exactly_within,
    lemma_with_unseen, lemma_with_unseen_of_distinct, runs_within, views_of, with_unseen, RunView,
    WorkflowRuns,
};
use crate::text::split_on;
use vstd::prelude::*;

verus! {

/// The index of the first page that holds a run from before `from`, or the
/// number of pages where no page holds one.
pub open spec fn first_boundary(pages: Seq<Seq<RunView>>, from: int) -> int
    decreases pages.len(),
{
    if pages.len() == 0 || any_before(pages[0], from) {
        0
    } else {
        1 + first_boundary(pages.drop_first(), from)
    }
}

/// How many pages of a list are read when its header announces `count`
/// pages: all of them, but none after the first page that holds a run from
/// before `from`.
pub open spec fn pages_read(pages: Seq<Seq<RunView>>, count: int, from: int) -> int {
    if count <= 0 {
        0
    } else if first_boundary(pages, from) + 1 <= count {
        first_boundary(pages, from) + 1
    } else {
        count
    }
}

/// What has been collected after the first `n` pages: of each page, in
/// order, the runs inside the window whose number has not come before.
pub open spec fn collected(pages: Seq<Seq<RunView>>, window: DateWindow, n: int) -> Seq<RunView>
    decreases n,
{
    if n <= 0 || n > pages.len() {
        Seq::empty()
    } else {
        with_unseen(
            collected(pages, window, n - 1),
            runs_within(pages[n - 1], window.from as int, window.to as int),
        )
    }
}

/// `first_boundary` is the least index of a page that holds a run from
/// before `from`.
pub proof fn lemma_first_boundary(pages: Seq<Seq<RunView>>, from: int)
    ensures
        0 <= first_boundary(pages, from) <= pages.len(),
        first_boundary(pages, from) < pages.len() ==> any_before(
            pages[first_boundary(pages, from)],
            from,
        ),
        forall|j: int|
            0 <= j < first_boundary(pages, from) ==> !any_before(#[trigger] pages[j], from),
    decreases pages.len(),
{
    if pages.len() == 0 || any_before(pages[0], from) {
    } else {
        let rest = pages.drop_first();
        lemma_first_boundary(rest, from);
        assert forall|j: int| 0 <= j < first_boundary(pages, from) implies !any_before(
            #[trigger] pages[j],
            from,
        ) by {
            if j > 0 {
                assert(pages[j] == rest[j - 1]);
            }
        }
    }
}

/// What has been collected after `n` pages depends on those pages only.
pub proof fn lemma_collected_of_prefix(
    pages: Seq<Seq<RunView>>,
    other: Seq<Seq<RunView>>,
    window: DateWindow,
    n: int,
)
    requires
        0 <= n <= pages.len(),
        n <= other.len(),
        pages.take(n) == other.take(n),
    ensures
        collected(pages, window, n) == collected(other, window, n),
    decreases n,
{
    if n > 0 {
        assert(pages.take(n - 1) == pages.take(n).take(n - 1));
        assert(other.take(n - 1) == other.take(n).take(n - 1));
        lemma_collected_of_prefix(pages, other, window, n - 1);
        assert(pages[n - 1] == pages.take(n)[n - 1]);
        assert(other[n - 1] == other.take(n)[n - 1]);
    }
}

/// No number occurs twice in what has been collected, whatever the pages
/// hold, and every run collected lies inside the window and stands on one
/// of the pages read.
pub proof fn lemma_collected(pages: Seq<Seq<RunView>>, window: DateWindow, n: int)
    ensures
        distinct_ids(collected(pages, window, n)),
        forall|i: int|
            0 <= i < collected(pages, window, n).len() ==> window.holds(
                (#[trigger] collected(pages, window, n)[i]).seconds,
            ) && exists|p: int|
                0 <= p < n && p < pages.len() && (#[trigger] pages[p]).contains(
                    collected(pages, window, n)[i],
                ),
    decreases n,
{
    if n <= 0 || n > pages.len() {
    } else {
        let before = collected(pages, window, n - 1);
        let kept = runs_within(pages[n - 1], window.from as int, window.to as int);
        let all = collected(pages, window, n);
        lemma_collected(pages, window, n - 1);
        lemma_with_unseen(before, kept);
        assert forall|i: int| 0 <= i < all.len() implies window.holds((#[trigger] all[i]).seconds)
            && exists|p: int|
            0 <= p < n && p < pages.len() && (#[trigger] pages[p]).contains(all[i]) by {
            if i < before.len() {
                assert(all[i] == all.take(before.len() as int)[i]);
                assert(all[i] == before[i]);
                let p = choose|p: int|
                    0 <= p < n - 1 && p < pages.len() && (#[trigger] pages[p]).contains(before[i]);
                assert(pages[p].contains(all[i]));
            } else {
                assert(kept.contains(all[i]));
                lemma_kept_exactly_within(
                    pages[n - 1],
                    window.from as int,
                    window.to as int,
                    all[i],
                );
                assert(pages[n - 1].contains(all[i]));
            }
        }
    }
}

/// Every run inside the window that stands on one of the first `n` pages
/// is among what has been collected after those pages, under its number.
pub proof fn lemma_collected_misses_nothing(
    pages: Seq<Seq<RunView>>,
    window: DateWindow,
    n: int,
    p: int,
    run: RunView,
)
    requires
        0 <= p < n <= pages.len(),
        pages[p].contains(run),
        window.holds(run.seconds),
    ensures
        has_id(collected(pages, window, n), run.id),
    decreases n,
{
    let before = collected(pages, window, n - 1);
    let kept = runs_within(pages[n - 1], window.from as int, window.to as int);
    let all = collected(pages, window, n);
    lemma_with_unseen(before, kept);
    if p == n - 1 {
        lemma_kept_exactly_within(pages[p], window.from as int, window.to as int, run);
        let j = choose|j: int| 0 <= j < kept.len() && kept[j] == run;
        assert(has_id(all, kept[j].id));
    } else {
        lemma_collected_misses_nothing(pages, window, n - 1, p, run);
        let k = choose|k: int| 0 <= k < before.len() && (#[trigger] before[k]).id == run.id;
        assert(all.take(before.len() as int)[k] == all[k]);
        assert(all[k].id == run.id);
    }
}

/// The first pages of a list hold their first boundary where the list holds
/// it, if it lies among them.
pub proof fn lemma_first_boundary_of_prefix(pages: Seq<Seq<RunView>>, from: int, n: int)
    requires
        0 <= n <= pages.len(),
    ensures
        first_boundary(pages.take(n), from) == if first_boundary(pages, from) < n {
            first_boundary(pages, from)
        } else {
            n
        },
{
    let front = pages.take(n);
    lemma_first_boundary(pages, from);
    lemma_first_boundary(front, from);
    let whole = first_boundary(pages, from);
    let part = first_boundary(front, from);
    if part < n {
        assert(front[part] == pages[part]);
        if whole < part {
            assert(front[whole] == pages[whole]);
        }
    }
    if whole < n {
        assert(front[whole] == pages[whole]);
        if part < whole {
            assert(front[part] == pages[part]);
        }
    }
}

/// The walk over the pages of one run list.
pub struct Paginator {
    window: DateWindow,
    page_count: i32,
    fetched: i32,
    reached: bool,
    runs: WorkflowRuns,
    pages: Ghost<Seq<Seq<RunView>>>,
}

impl Paginator {
    /// The window of the walk.
    pub closed spec fn window(&self) -> DateWindow {
        self.window
    }

    /// The number of pages that the header announced.
    pub closed spec fn page_count(&self) -> int {
        self.page_count as int
    }

    /// The pages taken so far, in order.
    pub closed spec fn history(&self) -> Seq<Seq<RunView>> {
        self.pages@
    }

    /// The runs collected so far.
    pub closed spec fn runs(&self) -> Seq<RunView> {
        self.runs@
    }

    /// One of the pages taken holds a run from before the window.
    pub open spec fn boundary_reached(&self) -> bool {
        first_boundary(self.history(), self.window().from as int) < self.history().len()
    }

    /// The number of the page to fetch next; none once the announced pages
    /// are read or a page held a run from before the window.
    pub open spec fn wanted(&self) -> Option<int> {
        if self.history().len() < self.page_count() && !self.boundary_reached() {
            Some(self.history().len() as int + 1)
        } else {
            None
        }
    }

    /// The walk is sound: no page was taken after the announced ones or
    /// after a page with a run from before the window, and the runs are
    /// what the pages taken give.
    pub closed spec fn wf(&self) -> bool {
        &&& self.fetched == self.pages@.len()
        &&& self.fetched == 0 || self.fetched <= self.page_count
        &&& self.reached == self.boundary_reached()
        &&& first_boundary(self.pages@, self.window.from as int) >= self.pages@.len() - 1
        &&& self.runs@ == collected(self.pages@, self.window, self.pages@.len() as int)
    }

    /// The walk over a list of `page_count` pages, before its first page.
    pub fn new(window: DateWindow, page_count: i32) -> (walk: Paginator)
        ensures
            walk.wf(),
            walk.window() == window,
            walk.page_count() == page_count,
            walk.history() == Seq::<Seq<RunView>>::empty(),
            walk.runs() == Seq::<RunView>::empty(),
    {
        Paginator {
            window,
            page_count,
            fetched: 0,
            reached: false,
            runs: WorkflowRuns::empty(),
            pages: Ghost(Seq::empty()),
        }
    }

    /// The walk over the list whose first page came with the pagination
    /// header `link`, or with none. Without a header, and with a header that
    /// has no entry tagged `rel="last"`, the list is that one page. A
    /// tagged entry without a page number ends the walk before it begins.
    pub fn start(window: DateWindow, link: Option<&str>) -> (r: Result<Paginator, LinkError>)
        ensures
            match r {
                Ok(walk) => {
                    &&& walk.wf()
                    &&& walk.window() == window
                    &&& walk.page_count() >= 1
                    &&& announced_pages(link_view(link)) == Ok::<int, LinkError>(walk.page_count())
                    &&& walk.history() == Seq::<Seq<RunView>>::empty()
                    &&& walk.runs() == Seq::<RunView>::empty()
                },
                Err(e) => announced_pages(link_view(link)) == Err::<int, LinkError>(e),
            },
    {
        match max_page_count(link) {
            Ok(page_count) => Ok(Paginator::new(window, page_count)),
            Err(e) => Err(e),
        }
    }

    /// The number of the page to fetch next, if the walk goes on.
    pub fn next_page(&self) -> (page: Option<i32>)
        requires
            self.wf(),
        ensures
            match page {
                Some(number) => self.wanted() == Some(number as int),
                None => self.wanted() is None,
            },
    {
        if self.fetched < self.page_count && !self.reached {
            Some(self.fetched + 1)
        } else {
            None
        }
    }

    /// Tells whether a page held a run from before the window.
    pub fn is_boundary_reached(&self) -> (reached: bool)
        requires
            self.wf(),
        ensures
            reached == self.boundary_reached(),
    {
        self.reached
    }

    /// Takes the page that was asked for: keeps its runs inside the window
    /// whose number has not come before, and ends the walk if the page
    /// holds a run from before the window. A page that was not asked for
    /// is ignored.
    pub fn accept_page(&mut self, page: WorkflowRuns)
        requires
            old(self).wf(),
        ensures
            final(self).wf(),
            final(self).window() == old(self).window(),
            final(self).page_count() == old(self).page_count(),
            old(self).wanted() is None ==> final(self).history() == old(self).history()
                && final(self).runs() == old(self).runs(),
            old(self).wanted() is Some ==> final(self).history() == old(self).history().push(
                page@,
            ) && final(self).runs() == with_unseen(
                old(self).runs(),
                runs_within(
                    page@,
                    old(self).window().from as int,
                    old(self).window().to as int,
                ),
            ),
            old(self).wanted() is Some && any_before(page@, old(self).window().from as int)
                ==> final(self).wanted() is None,
    {
        if self.fetched >= self.page_count || self.reached {
            return;
        }
        let mut page = page;
        let reached = page.is_reached_at_from_date(self.window.from);
        let kept = page.exclude_runs_exceeding_date_limit(self.window.from, self.window.to);
        proof {
            let before = self.pages@;
            let after = before.push(page@);
            let from = self.window.from as int;
            let n = before.len() as int;
            assert(after.take(n) == before);
            assert(before.take(n) == before);
            assert(after[n] == page@);
            lemma_first_boundary(after, from);
            lemma_first_boundary_of_prefix(after, from, n);
            lemma_collected_of_prefix(before, after, self.window, n);
        }
        self.runs.add_unseen_workflow_runs(kept);
        self.pages = Ghost(self.pages@.push(page@));
        self.fetched = self.fetched + 1;
        self.reached = reached;
    }

    /// The runs collected so far, in the order in which the pages gave
    /// them; once the walk has ended, the runs of the list inside the
    /// window.
    pub fn finish(self) -> (runs: WorkflowRuns)
        requires
            self.wf(),
        ensures
            runs@ == self.runs(),
            runs@ == collected(self.history(), self.window(), self.history().len() as int),
            distinct_ids(runs@),
    {
        proof {
            lemma_collected(self.pages@, self.window, self.pages@.len() as int);
        }
        self.runs
    }
}

/// Why a run list could not be collected.
#[derive(Debug, Clone, Copy, PartialEq, Eq, Structural)]
pub enum CollectError {
    /// The pagination header of the first page has an entry tagged
    /// `rel="last"` that holds no page number.
    Link(LinkError),
    /// The page with this number was wanted and could not be had.
    MissingPage(i32),
}

/// The runs of a list inside the window, where `listing` holds the pages
/// that can be had, page 1 first, and `link` is the pagination header of
/// page 1. A page that is wanted and is not in `listing` fails the whole
/// collection.
pub open spec fn collect_spec(
    listing: Seq<Seq<RunView>>,
    link: Option<Seq<char>>,
    window: DateWindow,
) -> Result<Seq<RunView>, CollectError> {
    match announced_pages(link) {
        Err(e) => Err(CollectError::Link(e)),
        Ok(count) => {
            let n = pages_read(listing, count, window.from as int);
            if n > listing.len() {
                Err(CollectError::MissingPage((listing.len() + 1) as i32))
            } else {
                Ok(collected(listing, window, n))
            }
        },
    }
}

/// Collects the runs inside the window from pages that are at hand:
/// `pages` holds page 1 first, `link` is the pagination header that came
/// with page 1.
pub fn collect_runs(pages: &Vec<WorkflowRuns>, link: Option<&str>, window: DateWindow) -> (r:
    Result<WorkflowRuns, CollectError>)
    ensures
        match r {
            Ok(runs) => collect_spec(views_of(pages@), link_view(link), window) == Ok::<
                Seq<RunView>,
                CollectError,
            >(runs@),
            Err(e) => collect_spec(views_of(pages@), link_view(link), window) == Err::<
                Seq<RunView>,
                CollectError,
            >(e),
        },
{
    let ghost listing = views_of(pages@);
    let mut walk = match Paginator::start(window, link) {
        Ok(walk) => walk,
        Err(e) => {
            return Err(CollectError::Link(e));
        },
    };
    proof {
        assert(listing.take(0) == walk.history());
    }
    loop
        invariant
            listing == views_of(pages@),
            walk.wf(),
            walk.window() == window,
            announced_pages(link_view(link)) == Ok::<int, LinkError>(walk.page_count()),
            walk.history().len() <= listing.len(),
            walk.history() == listing.take(walk.history().len() as int),
        ensures
            walk.wf(),
            walk.wanted() is None,
            walk.window() == window,
            announced_pages(link_view(link)) == Ok::<int, LinkError>(walk.page_count()),
            walk.history().len() <= listing.len(),
            walk.history() == listing.take(walk.history().len() as int),
        decreases walk.page_count() - walk.history().len(),
    {
        match walk.next_page() {
            None => {
                break;
            },
            Some(number) => {
                let ghost n = walk.history().len() as int;
                if number as usize > pages.len() {
                    proof {
                        lemma_first_boundary(listing, window.from as int);
                        lemma_first_boundary_of_prefix(listing, window.from as int, n);
                        assert(listing.take(n) == listing);
                    }
                    return Err(CollectError::MissingPage(number));
                }
                let page = pages[(number - 1) as usize].clone();
                proof {
                    assert(listing.take(n + 1) == listing.take(n).push(listing[n]));
                }
                walk.accept_page(page);
            },
        }
    }
    proof {
        lemma_walk_is_determined(walk, listing);
    }
    Ok(walk.finish())
}

/// A walk that has ended over the first pages of a listing has read
/// `pages_read` of them, and has collected what those pages give. So two
/// walks over one listing end with the same runs.
pub proof fn lemma_walk_is_determined(walk: Paginator, listing: Seq<Seq<RunView>>)
    requires
        walk.wf(),
        walk.wanted() is None,
        walk.history().len() <= listing.len(),
        walk.history() == listing.take(walk.history().len() as int),
    ensures
        walk.history().len() == pages_read(
            listing,
            walk.page_count(),
            walk.window().from as int,
        ),
        walk.runs() == collected(
            listing,
            walk.window(),
            pages_read(listing, walk.page_count(), walk.window().from as int),
        ),
{
    let n = walk.history().len() as int;
    let from = walk.window().from as int;
    lemma_first_boundary(listing, from);
    lemma_first_boundary_of_prefix(listing, from, n);
    assert(walk.history().take(n) == walk.history());
    lemma_collected_of_prefix(walk.history(), listing, walk.window(), n);
}

/// Collecting again from an unchanged listing gives the same runs in the
/// same order: two walks with one window and one page count that have both
/// ended over the same listing have taken the same pages and hold the same
/// runs.
pub proof fn lemma_same_listing_same_runs(
    first: Paginator,
    second: Paginator,
    listing: Seq<Seq<RunView>>,
)
    requires
        first.wf(),
        second.wf(),
        first.window() == second.window(),
        first.page_count() == second.page_count(),
        first.wanted() is None,
        second.wanted() is None,
        first.history().len() <= listing.len(),
        second.history().len() <= listing.len(),
        first.history() == listing.take(first.history().len() as int),
        second.history() == listing.take(second.history().len() as int),
    ensures
        first.history() == second.history(),
        first.runs() == second.runs(),
{
    lemma_walk_is_determined(first, listing);
    lemma_walk_is_determined(second, listing);
}

/// No number occurs twice among the runs of a walk, whatever the pages
/// held and however they overlapped.
pub proof fn lemma_walk_runs_distinct(walk: Paginator)
    requires
        walk.wf(),
    ensures
        distinct_ids(walk.runs()),
{
    lemma_collected(walk.history(), walk.window(), walk.history().len() as int);
}

/// Once a page holds a run from before the window, no later page is read
/// and no run of a later page is collected: if the page at index `k` of the
/// listing holds such a run, at most `k + 1` pages are read, and every run
/// collected stands on one of them.
pub proof fn lemma_nothing_past_boundary(
    listing: Seq<Seq<RunView>>,
    count: int,
    window: DateWindow,
    k: int,
)
    requires
        0 <= k < listing.len(),
        any_before(listing[k], window.from as int),
    ensures
        pages_read(listing, count, window.from as int) <= k + 1,
        forall|i: int|
            0 <= i < collected(
                listing,
                window,
                pages_read(listing, count, window.from as int),
            ).len() ==> exists|p: int|
                0 <= p <= k && (#[trigger] listing[p]).contains(
                    #[trigger] collected(
                        listing,
                        window,
                        pages_read(listing, count, window.from as int),
                    )[i],
                ),
{
    let from = window.from as int;
    let n = pages_read(listing, count, from);
    lemma_first_boundary(listing, from);
    lemma_collected(listing, window, n);
    let all = collected(listing, window, n);
    assert forall|i: int| 0 <= i < all.len() implies exists|p: int|
        0 <= p <= k && (#[trigger] listing[p]).contains(#[trigger] all[i]) by {
        let p = choose|p: int|
            0 <= p < n && p < listing.len() && (#[trigger] listing[p]).contains(all[i]);
        assert(0 <= p <= k && listing[p].contains(all[i]));
    }
}

/// What stands on the pages after the first page with a run from before
/// the window decides nothing: two listings that agree up to such a page
/// have the same number of pages read and give the same runs.
pub proof fn lemma_later_pages_decide_nothing(
    listing: Seq<Seq<RunView>>,
    other: Seq<Seq<RunView>>,
    count: int,
    window: DateWindow,
    k: int,
)
    requires
        0 <= k < listing.len(),
        k < other.len(),
        any_before(listing[k], window.from as int),
        listing.take(k + 1) == other.take(k + 1),
    ensures
        pages_read(listing, count, window.from as int) == pages_read(
            other,
            count,
            window.from as int,
        ),
        collected(listing, window, pages_read(listing, count, window.from as int)) == collected(
            other,
            window,
            pages_read(other, count, window.from as int),
        ),
{
    let from = window.from as int;
    assert(listing.take(k + 1)[k] == listing[k]);
    assert(other.take(k + 1)[k] == other[k]);
    lemma_first_boundary(listing, from);
    lemma_first_boundary(other, from);
    lemma_first_boundary_of_prefix(listing, from, k + 1);
    lemma_first_boundary_of_prefix(other, from, k + 1);
    let n = pages_read(listing, count, from);
    if n > 0 {
        assert(listing.take(n) == listing.take(k + 1).take(n));
        assert(other.take(n) == other.take(k + 1).take(n));
        lemma_collected_of_prefix(listing, other, window, n);
    }
}

/// In a walk over a list of one page, page 1 is the only page ever asked
/// for: it is wanted before any page was taken, and nothing is wanted
/// after.
pub proof fn lemma_one_page_walk(walk: Paginator)
    requires
        walk.wf(),
        walk.page_count() == 1,
    ensures
        walk.history().len() <= 1,
        walk.history().len() == 0 ==> walk.wanted() == Some(1int),
        walk.history().len() == 1 ==> walk.wanted() is None,
{
}

/// A list whose first page came without pagination header, or with a
/// header that has no entry tagged `rel="last"`, is read as one page
/// without error: the result holds the runs of page 1 inside the window, and
/// of no other page. Where every run of page 1 lies inside the window and
/// no number occurs twice on it, the result is page 1 as it came.
pub proof fn lemma_untagged_header_reads_first_page(
    listing: Seq<Seq<RunView>>,
    link: Option<Seq<char>>,
    window: DateWindow,
)
    requires
        listing.len() >= 1,
        match link {
            None => true,
            Some(header) => forall|j: int|
                0 <= j < split_on(header, ',').len() ==> !is_tagged_last(
                    #[trigger] split_on(header, ',')[j],
                ),
        },
    ensures
        announced_pages(link) == Ok::<int, LinkError>(1),
        pages_read(listing, 1, window.from as int) == 1,
        collect_spec(listing, link, window) == Ok::<Seq<RunView>, CollectError>(
            with_unseen(
                Seq::empty(),
                runs_within(listing[0], window.from as int, window.to as int),
            ),
        ),
        distinct_ids(listing[0]) && (forall|i: int|
            0 <= i < listing[0].len() ==> window.holds((#[trigger] listing[0][i]).seconds))
            ==> collect_spec(listing, link, window) == Ok::<Seq<RunView>, CollectError>(
            listing[0],
        ),
{
    match link {
        None => {},
        Some(header) => {
            lemma_untagged_header_is_one_page(header);
        },
    }
    let from = window.from as int;
    let to = window.to as int;
    lemma_first_boundary(listing, from);
    assert(collected(listing, window, 0) == Seq::<RunView>::empty());
    if distinct_ids(listing[0]) && (forall|i: int|
        0 <= i < listing[0].len() ==> window.holds((#[trigger] listing[0][i]).seconds)) {
        lemma_all_within(listing[0], from, to);
        assert(Seq::<RunView>::empty() + listing[0] == listing[0]);
        lemma_with_unseen_of_distinct(Seq::empty(), listing[0]);
    }
}

} // verus!
