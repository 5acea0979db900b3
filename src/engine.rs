//! The traversal engine. It decides, task by task, what to fetch next and
//! what a fetched page leads to; the caller performs the fetches.
//!
//! Tasks wait on a stack, so pages are visited depth first in the order in
//! which a page lists its links, and each task's children are done before
//! its next sibling. A task is claimed in the visited set before it is
//! handed out, so no address is handed out twice in a run.
use vstd::prelude::*;

use crate::address::{canonical, canonical_of};
use crate::bucket::{bucket_key_of, views};
use crate::links::{extract_links, sorted_links};
use crate::page::{entry_text_of, html_hrefs, html_main, page_entry, BucketEntry};
use crate::visited::VisitedSet;

verus! {

/// One page to process: its canonical address and how many links away
/// from a start address it was found.
pub struct CrawlTask {
    pub address: String,
    pub depth: usize,
}

/// A task as plain values.
pub open spec fn task_view(t: CrawlTask) -> (Seq<char>, usize) {
    (t.address@, t.depth)
}

/// The sequence `s` with each run of equal neighbours reduced to one element.
pub open spec fn dedup_adjacent(s: Seq<Seq<char>>) -> Seq<Seq<char>>
    decreases s.len(),
{
    if s.len() == 0 {
        s
    } else if s.len() >= 2 && s[s.len() - 1] == s[s.len() - 2] {
        dedup_adjacent(s.drop_last())
    } else {
        dedup_adjacent(s.drop_last()).push(s.last())
    }
}

/// Tasks for `links` at `depth`, stacked so that the first link is on top.
pub open spec fn stacked(links: Seq<Seq<char>>, depth: usize) -> Seq<(Seq<char>, usize)> {
    Seq::new(links.len(), |i: int| (links[links.len() - 1 - i], depth))
}

/// Drops each element equal to the one before it, as `Vec::dedup` does.
pub fn dedup_seeds(start_urls: &Vec<String>) -> (r: Vec<String>)
    ensures
        views(r@) == dedup_adjacent(views(start_urls@)),
{
    let mut out: Vec<String> = Vec::new();
    let mut i: usize = 0;
    assert(views(start_urls@).take(0) =~= Seq::<Seq<char>>::empty());
    assert(views(out@) =~= Seq::<Seq<char>>::empty());
    while i < start_urls.len()
        invariant
            i <= start_urls@.len(),
            views(out@) == dedup_adjacent(views(start_urls@).take(i as int)),
        decreases start_urls@.len() - i,
    {
        let ghost next = views(start_urls@).take(i + 1);
        assert(next.drop_last() =~= views(start_urls@).take(i as int));
        let ghost before = views(out@);
        if i > 0 && start_urls[i] == start_urls[i - 1] {
            assert(next[next.len() - 1] == next[next.len() - 2]);
        } else {
            out.push(start_urls[i].clone());
            assert(views(out@) =~= before.push(next.last()));
        }
        i += 1;
    }
    assert(views(start_urls@).take(i as int) =~= views(start_urls@));
    out
}

/// The start addresses of a run: the configured ones without adjacent
/// repeats, each in canonical form with its fragment cleared; `None` when
/// one of them is not a valid absolute address.
pub fn seed_addresses(start_urls: &Vec<String>) -> (r: Option<Vec<String>>)
    ensures
        r is Some <==> forall|i: int|
            0 <= i < dedup_adjacent(views(start_urls@)).len() ==> (#[trigger] canonical_of(
                dedup_adjacent(views(start_urls@))[i],
            )) is Some,
        r is Some ==> views(r->0@) == dedup_adjacent(views(start_urls@)).map_values(
            |s: Seq<char>| canonical_of(s)->0,
        ),
{
    let seeds = dedup_seeds(start_urls);
    let ghost d = dedup_adjacent(views(start_urls@));
    let mut out: Vec<String> = Vec::new();
    let mut i: usize = 0;
    while i < seeds.len()
        invariant
            d == dedup_adjacent(views(start_urls@)),
            views(seeds@) == d,
            i <= seeds@.len(),
            views(out@) == d.take(i as int).map_values(|s: Seq<char>| canonical_of(s)->0),
            forall|k: int| 0 <= k < i ==> (#[trigger] canonical_of(d[k])) is Some,
        decreases seeds@.len() - i,
    {
        let ghost before = views(out@);
        assert(views(seeds@)[i as int] == seeds@[i as int]@);
        match canonical(seeds[i].as_str()) {
            Some(c) => {
                assert(canonical_of(d[i as int]) == Some(c@));
                let ghost cv = c@;
                out.push(c);
                assert(views(out@) =~= before.push(cv));
                assert(d.take(i + 1) =~= d.take(i as int).push(d[i as int]));
                assert(views(out@) =~= d.take(i + 1).map_values(
                    |s: Seq<char>| canonical_of(s)->0,
                ));
            },
            None => {
                assert(canonical_of(d[i as int]) is None);
                assert(!(forall|k: int| 0 <= k < d.len() ==> (#[trigger] canonical_of(d[k])) is Some));
                return None;
            },
        }
        i += 1;
    }
    assert(d.take(i as int) =~= d);
    Some(out)
}

/// The state of one crawl run.
pub struct Crawler {
    visited: VisitedSet,
    pending: Vec<CrawlTask>,
    max_depth: usize,
    fetched: Ghost<Seq<Seq<char>>>,
}

impl Crawler {
    /// Tasks waiting, the next one last.
    pub closed spec fn pending_view(&self) -> Seq<(Seq<char>, usize)> {
        self.pending@.map_values(|t: CrawlTask| task_view(t))
    }

    /// Addresses claimed so far.
    pub closed spec fn visited_view(&self) -> Set<Seq<char>> {
        self.visited@
    }

    /// Addresses handed out for fetching, in the order they were handed out.
    pub closed spec fn fetched_log(&self) -> Seq<Seq<char>> {
        self.fetched@
    }

    /// The depth limit of the run.
    pub closed spec fn depth_limit(&self) -> usize {
        self.max_depth
    }

    /// A task is dropped without being fetched: it lies beyond the depth
    /// limit, or its address has been claimed already.
    pub open spec fn skips(&self, t: (Seq<char>, usize)) -> bool {
        t.1 > self.depth_limit() || self.visited_view().contains(t.0)
    }

    /// Every waiting task is within the depth limit; the claimed addresses
    /// are exactly those handed out, each handed out once.
    pub open spec fn wf(&self) -> bool {
        &&& forall|i: int|
            0 <= i < self.pending_view().len() ==> (#[trigger] self.pending_view()[i]).1
                <= self.depth_limit()
        &&& self.fetched_log().no_duplicates()
        &&& forall|a: Seq<char>| self.visited_view().contains(a) <==> self.fetched_log().contains(a)
    }

    /// A run over `seeds` with depth limit `max_depth`: one task at depth 0
    /// per seed, the first seed on top, nothing claimed yet.
    pub fn new(seeds: &Vec<String>, max_depth: usize) -> (r: Crawler)
        ensures
            r.wf(),
            r.depth_limit() == max_depth,
            r.pending_view() == stacked(views(seeds@), 0),
            r.visited_view() == Set::<Seq<char>>::empty(),
            r.fetched_log() == Seq::<Seq<char>>::empty(),
    {
        let mut pending: Vec<CrawlTask> = Vec::new();
        let n = seeds.len();
        let mut i: usize = n;
        while i > 0
            invariant
                i <= n,
                n == seeds@.len(),
                pending@.map_values(|t: CrawlTask| task_view(t)) == stacked(
                    views(seeds@).subrange(i as int, n as int),
                    0,
                ),
            decreases i,
        {
            i -= 1;
            let ghost before = pending@.map_values(|t: CrawlTask| task_view(t));
            let seed = seeds[i].clone();
            assert(seed@ == views(seeds@)[i as int]);
            pending.push(CrawlTask { address: seed, depth: 0 });
            assert(pending@.map_values(|t: CrawlTask| task_view(t)) =~= before.push(
                (views(seeds@)[i as int], 0usize),
            ));
            assert(pending@.map_values(|t: CrawlTask| task_view(t)) =~= stacked(
                views(seeds@).subrange(i as int, n as int),
                0,
            ));
        }
        assert(views(seeds@).subrange(0, n as int) =~= views(seeds@));
        let r = Crawler {
            visited: VisitedSet::new(),
            pending,
            max_depth,
            fetched: Ghost(Seq::empty()),
        };
        r
    }

    /// The depth limit of the run.
    pub fn max_depth(&self) -> (r: usize)
        ensures
            r == self.depth_limit(),
    {
        self.max_depth
    }

    /// How many tasks wait.
    pub fn pending_count(&self) -> (r: usize)
        ensures
            r == self.pending_view().len(),
    {
        self.pending.len()
    }

    /// Whether `address` has been claimed in this run.
    pub fn is_visited(&self, address: &str) -> (r: bool)
        ensures
            r == self.visited_view().contains(address@),
    {
        self.visited.contains(address)
    }

    /// Takes the next task to fetch. Tasks on top of the stack that lie
    /// beyond the depth limit or whose address is claimed already are
    /// dropped; the first other one is claimed and returned. `None` once no
    /// task is left.
    pub fn next_task(&mut self) -> (r: Option<CrawlTask>)
        requires
            old(self).wf(),
        ensures
            final(self).wf(),
            final(self).depth_limit() == old(self).depth_limit(),
            match r {
                Some(t) => {
                    let k = final(self).pending_view().len();
                    &&& k < old(self).pending_view().len()
                    &&& final(self).pending_view() == old(self).pending_view().take(k as int)
                    &&& old(self).pending_view()[k as int] == task_view(t)
                    &&& forall|j: int|
                        k < j < old(self).pending_view().len() ==> old(self).skips(
                            #[trigger] old(self).pending_view()[j],
                        )
                    &&& t.depth <= old(self).depth_limit()
                    &&& !old(self).visited_view().contains(t.address@)
                    &&& final(self).visited_view() == old(self).visited_view().insert(t.address@)
                    &&& final(self).fetched_log() == old(self).fetched_log().push(t.address@)
                },
                None => {
                    &&& final(self).pending_view().len() == 0
                    &&& forall|j: int|
                        0 <= j < old(self).pending_view().len() ==> old(self).skips(
                            #[trigger] old(self).pending_view()[j],
                        )
                    &&& final(self).visited_view() == old(self).visited_view()
                    &&& final(self).fetched_log() == old(self).fetched_log()
                },
            },
    {
        while self.pending.len() > 0
            invariant
                self.wf(),
                self.max_depth == old(self).max_depth,
                self.visited@ == old(self).visited@,
                self.fetched@ == old(self).fetched@,
                self.pending_view().len() <= old(self).pending_view().len(),
                self.pending_view() == old(self).pending_view().take(
                    self.pending_view().len() as int,
                ),
                forall|j: int|
                    self.pending_view().len() <= j < old(self).pending_view().len() ==> old(self).skips(
                        #[trigger] old(self).pending_view()[j],
                    ),
            decreases self.pending@.len(),
        {
            let ghost top = self.pending_view().len() - 1;
            let ghost pv = self.pending_view();
            let ghost pvec = self.pending@;
            assert(pv[top] == old(self).pending_view()[top]);
            let task = self.pending.pop().unwrap();
            assert(task == pvec[top]);
            assert(pv[top] == task_view(pvec[top]));
            assert(self.pending_view() =~= old(self).pending_view().take(top));
            assert(old(self).pending_view()[top] == task_view(task));
            if task.depth <= self.max_depth {
                if self.visited.try_claim(task.address.as_str()) {
                    let ghost log = self.fetched@;
                    self.fetched = Ghost(log.push(task.address@));
                    proof {
                        assert forall|a: Seq<char>|
                            self.visited_view().contains(a) <==> self.fetched_log().contains(
                                a,
                            ) by {
                            if log.contains(a) {
                                let k = choose|k: int| 0 <= k < log.len() && log[k] == a;
                                assert(log.push(task.address@)[k] == a);
                            }
                            if log.push(task.address@).contains(a) {
                                let k = choose|k: int|
                                    0 <= k < log.len() + 1 && log.push(task.address@)[k] == a;
                                if k < log.len() {
                                    assert(log[k] == a);
                                }
                            }
                            if a == task.address@ {
                                assert(log.push(task.address@)[log.len() as int] == a);
                            }
                        }
                        assert(!log.contains(task.address@));
                        assert(log.push(task.address@).no_duplicates()) by {
                            assert forall|i: int, j: int|
                                0 <= i < log.len() + 1 && 0 <= j < log.len() + 1 && i != j
                                    implies log.push(task.address@)[i] != log.push(
                                    task.address@,
                                )[j] by {
                                if i < log.len() && j == log.len() {
                                    assert(log.contains(log[i]));
                                } else if j < log.len() && i == log.len() {
                                    assert(log.contains(log[j]));
                                }
                            }
                        }
                    }
                    return Some(task);
                }
            }
        }
        None
    }

    /// The tasks that `task` leads to when its page links to `links`: one
    /// per link at the next depth, the first link on top; none when `task`
    /// is at the depth limit already.
    pub open spec fn children(&self, task: (Seq<char>, usize), links: Seq<Seq<char>>) -> Seq<
        (Seq<char>, usize),
    > {
        if task.1 < self.depth_limit() {
            stacked(links, (task.1 + 1) as usize)
        } else {
            seq![]
        }
    }

    /// Queues the children of `task`, whose page links to `links`.
    pub fn push_children(&mut self, task: &CrawlTask, links: &Vec<String>)
        requires
            old(self).wf(),
        ensures
            final(self).wf(),
            final(self).depth_limit() == old(self).depth_limit(),
            final(self).visited_view() == old(self).visited_view(),
            final(self).fetched_log() == old(self).fetched_log(),
            final(self).pending_view() == old(self).pending_view() + old(self).children(
                task_view(*task),
                views(links@),
            ),
    {
        if task.depth < self.max_depth {
            let d = task.depth + 1;
            let n = links.len();
            let mut i: usize = n;
            assert(old(self).pending_view() + stacked(views(links@).subrange(n as int, n as int), d)
                =~= old(self).pending_view());
            while i > 0
                invariant
                    self.wf(),
                    d == task.depth + 1,
                    d <= self.max_depth,
                    i <= n,
                    n == links@.len(),
                    self.max_depth == old(self).max_depth,
                    self.visited@ == old(self).visited@,
                    self.fetched@ == old(self).fetched@,
                    self.pending_view() == old(self).pending_view() + stacked(
                        views(links@).subrange(i as int, n as int),
                        d,
                    ),
                decreases i,
            {
                i -= 1;
                let ghost before = self.pending_view();
                let link = links[i].clone();
                assert(link@ == views(links@)[i as int]);
                self.pending.push(CrawlTask { address: link, depth: d });
                assert(self.pending_view() =~= before.push((views(links@)[i as int], d)));
                assert(self.pending_view() =~= old(self).pending_view() + stacked(
                    views(links@).subrange(i as int, n as int),
                    d,
                ));
            }
            assert(views(links@).subrange(0, n as int) =~= views(links@));
        } else {
            assert(self.pending_view() + seq![] =~= self.pending_view());
        }
    }

    /// Handles the document `html` fetched for `task`: returns the bucket
    /// entry of its main content, if it has any, and queues one task per
    /// in-domain link at the next depth unless `task` is at the depth limit.
    pub fn page_fetched(&mut self, task: &CrawlTask, html: &str) -> (r: Option<BucketEntry>)
        requires
            old(self).wf(),
        ensures
            final(self).wf(),
            final(self).depth_limit() == old(self).depth_limit(),
            final(self).visited_view() == old(self).visited_view(),
            final(self).fetched_log() == old(self).fetched_log(),
            r is Some <==> html_main(html@) is Some,
            r is Some ==> r->0.key@ == bucket_key_of(task.address@) && r->0.text@
                == entry_text_of(task.address@, html_main(html@)->0),
            final(self).pending_view() == old(self).pending_view() + old(self).children(
                task_view(*task),
                sorted_links(task.address@, html_hrefs(html@)),
            ),
    {
        let entry = page_entry(task.address.as_str(), html);
        if task.depth < self.max_depth {
            let links = extract_links(task.address.as_str(), html);
            self.push_children(task, &links);
        } else {
            assert(self.pending_view() + seq![] =~= self.pending_view());
        }
        entry
    }
}

/// In every state of a run, no address has been handed out for fetching
/// twice, and the addresses handed out are exactly those claimed.
pub proof fn lemma_fetched_once(c: &Crawler)
    requires
        c.wf(),
    ensures
        c.fetched_log().no_duplicates(),
        forall|a: Seq<char>| c.visited_view().contains(a) <==> c.fetched_log().contains(a),
{
}

/// In every state of a run, each waiting task lies within the depth limit,
/// so no task beyond it is ever handed out for fetching.
pub proof fn lemma_pending_within_limit(c: &Crawler)
    requires
        c.wf(),
    ensures
        forall|i: int|
            0 <= i < c.pending_view().len() ==> (#[trigger] c.pending_view()[i]).1
                <= c.depth_limit(),
{
}

/// Each task that a page leads to lies exactly one hop deeper than the
/// page's own task, and still within the depth limit.
pub proof fn lemma_children_one_deeper(
    c: &Crawler,
    task: (Seq<char>, usize),
    links: Seq<Seq<char>>,
)
    requires
        c.wf(),
    ensures
        forall|i: int|
            0 <= i < c.children(task, links).len() ==> (#[trigger] c.children(task, links)[i]).1
                == task.1 + 1 && c.children(task, links)[i].1 <= c.depth_limit(),
{
}

/// Whether an HTTP status code reports success (the 2xx range).
pub fn is_success(status: u16) -> (r: bool)
    ensures
        r == (200 <= status && status <= 299),
{
    200 <= status && status <= 299
}

} // verus!
