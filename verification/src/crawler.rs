//! The crawl engine: drives a spider from its seed URLs to quiescence.
//!
//! The engine owns a frontier (deduplication, failure accounting, the
//! pending-scrape queue) and a bounded item queue between scraping and
//! processing. A run keeps a ghost log of what happened — the seeds, one
//! event per scrape with its outcome, and the items handed to processing —
//! and the engine's guarantees are stated over that log: no URL is scraped
//! twice, only seeded or discovered URLs are scraped, every admitted URL is
//! scraped before the run ends, the returned failed set is exactly the set
//! of failed scrapes, and every produced item is processed exactly once,
//! whatever the processing outcomes.

use vstd::prelude::*;
use vstd::set_lib::lemma_set_subset_finite;
use vstd::seq_lib::lemma_no_dup_in_concat;
use core::time::Duration;
use crate::frontier::{Frontier, FrontierView, fresh_urls, lemma_fresh_urls_elems, no_revisits};
use crate::queue::ItemQueue;
use crate::spiders::Spider;

verus! {

broadcast use vstd::set::group_set_axioms, vstd::seq_lib::group_seq_properties;

/// One scrape, as recorded in a run's ghost log: the URL handed to the
/// spider, whether the scrape succeeded, and the items and discoveries it
/// returned (none, for a failed scrape).
pub ghost struct ScrapeEvent<I> {
    pub url: Seq<char>,
    pub ok: bool,
    pub items: Seq<I>,
    pub discovered: Seq<Seq<char>>,
}

/// The ghost log of one run: the seed URLs, the scrapes in the order they
/// happened, and the items handed to processing, in order.
pub ghost struct CrawlLog<I> {
    pub seeds: Seq<Seq<char>>,
    pub events: Seq<ScrapeEvent<I>>,
    pub processed: Seq<I>,
}

/// The URLs handed to the spider's `scrape`, in order.
pub open spec fn scraped_urls<I>(events: Seq<ScrapeEvent<I>>) -> Seq<Seq<char>>
    decreases events.len(),
{
    if events.len() == 0 {
        Seq::empty()
    } else {
        scraped_urls(events.drop_last()) + seq![events.last().url]
    }
}

/// The URLs whose scrape failed, in order, one entry per failed scrape.
pub open spec fn failures_of<I>(events: Seq<ScrapeEvent<I>>) -> Seq<Seq<char>>
    decreases events.len(),
{
    if events.len() == 0 {
        Seq::empty()
    } else {
        failures_of(events.drop_last()) + (if events.last().ok {
            Seq::empty()
        } else {
            seq![events.last().url]
        })
    }
}

/// Every item the scrapes produced, in production order.
pub open spec fn items_of<I>(events: Seq<ScrapeEvent<I>>) -> Seq<I>
    decreases events.len(),
{
    if events.len() == 0 {
        Seq::empty()
    } else {
        items_of(events.drop_last()) + events.last().items
    }
}

/// The URLs known after these events: the seeds together with everything
/// the scrapes discovered. Only these may ever be scraped.
pub open spec fn known_urls<I>(seeds: Seq<Seq<char>>, events: Seq<ScrapeEvent<I>>) -> Set<
    Seq<char>,
>
    decreases events.len(),
{
    if events.len() == 0 {
        seeds.to_set()
    } else {
        known_urls(seeds, events.drop_last()).union(events.last().discovered.to_set())
    }
}

/// How one more event extends each of the log folds.
proof fn lemma_log_push<I>(seeds: Seq<Seq<char>>, events: Seq<ScrapeEvent<I>>, e: ScrapeEvent<I>)
    ensures
        scraped_urls(events.push(e)) == scraped_urls(events) + seq![e.url],
        failures_of(events.push(e)) == failures_of(events) + (if e.ok {
            Seq::<Seq<char>>::empty()
        } else {
            seq![e.url]
        }),
        items_of(events.push(e)) == items_of(events) + e.items,
        known_urls(seeds, events.push(e)) == known_urls(seeds, events).union(e.discovered.to_set()),
{
    assert(events.push(e).drop_last() =~= events);
    assert(events.push(e).last() == e);
}

/// Everything a run knows stems from its seeds and discoveries, each of
/// which is therefore among the known URLs.
proof fn lemma_known_urls_cover<I>(seeds: Seq<Seq<char>>, events: Seq<ScrapeEvent<I>>)
    ensures
        forall|u: Seq<char>| seeds.contains(u) ==> known_urls(seeds, events).contains(u),
        forall|i: int, u: Seq<char>|
            0 <= i < events.len() && #[trigger] events[i].discovered.contains(u) ==> known_urls(
                seeds,
                events,
            ).contains(u),
    decreases events.len(),
{
    if events.len() == 0 {
    } else {
        let rest = events.drop_last();
        lemma_known_urls_cover(seeds, rest);
        assert forall|i: int, u: Seq<char>|
            0 <= i < events.len() && #[trigger] events[i].discovered.contains(
                u,
            ) implies known_urls(seeds, events).contains(u) by {
            if i < events.len() - 1 {
                assert(rest[i] == events[i]);
                assert(known_urls(seeds, rest).contains(u));
            } else {
                assert(events.last().discovered.to_set().contains(u));
            }
        }
    }
}

/// The hand-out history reads off the log: one URL per event, in order.
pub proof fn lemma_scraped_urls_index<I>(events: Seq<ScrapeEvent<I>>)
    ensures
        scraped_urls(events).len() == events.len(),
        forall|i: int| 0 <= i < events.len() ==> scraped_urls(events)[i] == (#[trigger] events[i]).url,
    decreases events.len(),
{
    if events.len() > 0 {
        let rest = events.drop_last();
        lemma_scraped_urls_index(rest);
        let su = scraped_urls(events);
        assert forall|i: int| 0 <= i < events.len() implies su[i] == (
        #[trigger] events[i]).url by {
            if i < events.len() - 1 {
                assert(su[i] == scraped_urls(rest)[i]);
                assert(rest[i] == events[i]);
            } else {
                assert(su[i] == events.last().url);
            }
        }
    }
}

/// A run in which every scrape succeeded has nothing in its failure list.
proof fn lemma_no_failures<I>(events: Seq<ScrapeEvent<I>>)
    requires
        forall|i: int| 0 <= i < events.len() ==> (#[trigger] events[i]).ok,
    ensures
        failures_of(events) == Seq::<Seq<char>>::empty(),
    decreases events.len(),
{
    if events.len() > 0 {
        lemma_no_failures(events.drop_last());
        assert(failures_of(events) =~= Seq::<Seq<char>>::empty());
    }
}

/// Failure accounting: in a run without repeated hand-outs whose scrapes
/// fail exactly on the URL `x`, and where `x` was scraped at all, the
/// failure list is exactly `x`, once.
pub proof fn lemma_failure_accounting<I>(events: Seq<ScrapeEvent<I>>, x: Seq<char>)
    requires
        scraped_urls(events).no_duplicates(),
        forall|i: int|
            0 <= i < events.len() ==> (!(#[trigger] events[i]).ok <==> events[i].url == x),
        scraped_urls(events).contains(x),
    ensures
        failures_of(events) == seq![x],
    decreases events.len(),
{
    lemma_scraped_urls_index(events);
    let su = scraped_urls(events);
    assert(events.len() > 0);
    let rest = events.drop_last();
    let sur = scraped_urls(rest);
    lemma_scraped_urls_index(rest);
    assert(su == sur + seq![events.last().url]);
    assert(forall|i: int| 0 <= i < sur.len() ==> sur[i] == su[i]);
    assert(sur.no_duplicates());
    if events.last().url == x {
        assert(!events.last().ok);
        assert(su[su.len() - 1] == x);
        if sur.contains(x) {
            let j = choose|j: int| 0 <= j < sur.len() && sur[j] == x;
            assert(su[j] == su[su.len() - 1]);
            assert(false);
        }
        assert forall|i: int| 0 <= i < rest.len() implies (#[trigger] rest[i]).ok by {
            if !rest[i].ok {
                assert(rest[i].url == x);
                assert(sur[i] == x);
            }
        }
        lemma_no_failures(rest);
        assert(failures_of(events) =~= seq![x]);
    } else {
        assert(events.last().ok);
        let j = choose|j: int| 0 <= j < su.len() && su[j] == x;
        assert(j < sur.len());
        assert(sur.contains(x));
        lemma_failure_accounting(rest, x);
        assert(failures_of(events) =~= failures_of(rest));
    }
}

/// A URL can only fail once handed to `scrape`: the failures are among the
/// scraped URLs.
pub proof fn lemma_failures_are_scraped<I>(events: Seq<ScrapeEvent<I>>)
    ensures
        forall|u: Seq<char>| #[trigger]
            failures_of(events).contains(u) ==> scraped_urls(events).contains(u),
    decreases events.len(),
{
    if events.len() > 0 {
        lemma_failures_are_scraped(events.drop_last());
        assert(scraped_urls(events).contains(events.last().url)) by {
            assert(scraped_urls(events)[scraped_urls(events).len() - 1] == events.last().url);
        }
        assert forall|u: Seq<char>| #[trigger]
            failures_of(events).contains(u) implies scraped_urls(events).contains(u) by {
            if failures_of(events.drop_last()).contains(u) {
                assert(scraped_urls(events.drop_last()).contains(u));
                assert(scraped_urls(events).contains(u));
            } else {
                assert(u == events.last().url);
            }
        }
    }
}

/// How one scrape event carries the run's bookkeeping forward: the
/// hand-out history matches the event urls, every event's URL was known
/// before it, and the failed list tracks the failed events — exactly, when
/// it held exactly before, and as a set in any case.
proof fn lemma_step_bookkeeping<I>(
    seeds: Seq<Seq<char>>,
    ev0: Seq<ScrapeEvent<I>>,
    e: ScrapeEvent<I>,
    pre: FrontierView,
    post: FrontierView,
)
    requires
        pre.visited == known_urls(seeds, ev0),
        pre.visited.contains(e.url),
        pre.scraped == scraped_urls(ev0),
        pre.failed.to_set() == failures_of(ev0).to_set(),
        forall|i: int|
            0 <= i < ev0.len() ==> known_urls(seeds, ev0.take(i)).contains(
                #[trigger] ev0[i].url,
            ),
        post.scraped == pre.scraped.push(e.url),
        post.failed == (if !e.ok && !pre.failed.contains(e.url) {
            pre.failed.push(e.url)
        } else {
            pre.failed
        }),
    ensures
        post.scraped == scraped_urls(ev0.push(e)),
        forall|i: int|
            0 <= i < ev0.push(e).len() ==> known_urls(seeds, ev0.push(e).take(i)).contains(
                #[trigger] ev0.push(e)[i].url,
            ),
        post.failed.to_set() == failures_of(ev0.push(e)).to_set(),
        (pre.failed == failures_of(ev0) && (!e.ok ==> !pre.failed.contains(e.url))) ==> post.failed
            == failures_of(ev0.push(e)),
{
    lemma_log_push(seeds, ev0, e);
    let ev = ev0.push(e);
    assert(ev.take(ev.len() - 1) =~= ev0);
    assert(post.scraped =~= pre.scraped + seq![e.url]);
    assert forall|i: int|
        0 <= i < ev.len() implies known_urls(seeds, ev.take(i)).contains(
        #[trigger] ev[i].url,
    ) by {
        if i < ev0.len() {
            assert(ev.take(i) =~= ev0.take(i));
            assert(ev[i] == ev0[i]);
        } else {
            assert(ev.take(i) =~= ev0);
            assert(ev[i] == e);
        }
    }
    if e.ok {
        assert(failures_of(ev) =~= failures_of(ev0));
    } else {
        assert(seq![e.url][0] == e.url);
        assert(failures_of(ev).to_set() =~= failures_of(ev0).to_set().insert(e.url));
        if pre.failed.contains(e.url) {
            assert(failures_of(ev0).to_set().contains(e.url));
            assert(post.failed.to_set() =~= failures_of(ev).to_set());
        } else {
            assert(post.failed.to_set() =~= pre.failed.to_set().insert(e.url));
        }
        if pre.failed == failures_of(ev0) && !pre.failed.contains(e.url) {
            assert(post.failed =~= failures_of(ev0) + seq![e.url]);
        }
    }
}

/// Taking a subset away from a finite set takes away exactly its size.
proof fn lemma_len_remove_subset<A>(a: Set<A>, f: Set<A>)
    requires
        a.finite(),
        f.finite(),
        f.subset_of(a),
    ensures
        a.difference(f).len() == a.len() - f.len(),
    decreases f.len(),
{
    if f.len() == 0 {
        assert(f =~= Set::<A>::empty());
        assert(a.difference(f) =~= a);
    } else {
        let x = f.choose();
        assert(f.contains(x));
        let f2 = f.remove(x);
        let a2 = a.remove(x);
        lemma_len_remove_subset(a2, f2);
        assert(a.difference(f) =~= a2.difference(f2));
    }
}

/// Relies on core::time::Duration::from_millis to build the per-fetch
/// delay from a number of milliseconds; nothing is assumed of the value.
pub assume_specification[ core::time::Duration::from_millis ](millis: u64) -> Duration;

/// The crawl engine, parameterized by the per-fetch delay and the two
/// worker-pool widths. The pending-scrape queue is sized at 400 slots per
/// scrape worker — large, so scrapers are rarely starved — and the item
/// queue at 10 slots per processing worker — small, so unprocessed items
/// cannot pile up without bound.
pub struct Crawler {
    pub delay: Duration,
    pub crawling_concurrency: usize,
    pub processing_concurrency: usize,
}

impl Default for Crawler {
    /// The engine as the crawling shell runs it: a 200 ms delay between
    /// fetches, two scrape workers and five hundred processing workers.
    fn default() -> (c: Crawler)
        ensures
            c.wf(),
            c.crawling_concurrency == 2,
            c.processing_concurrency == 500,
    {
        Crawler::new(Duration::from_millis(200), 2, 500)
    }
}

impl Crawler {
    /// A usable configuration: both pools have at least one worker — a
    /// crawl with none could never finish — and the derived queue
    /// capacities fit the machine.
    pub open spec fn wf(&self) -> bool {
        &&& 1 <= self.crawling_concurrency
        &&& 1 <= self.processing_concurrency
        &&& self.crawling_concurrency * 400 <= usize::MAX
        &&& self.processing_concurrency * 10 <= usize::MAX
    }

    /// Builds an engine; a configuration with a zero concurrency is
    /// rejected here, before a run can start.
    pub fn new(delay: Duration, crawling_concurrency: usize, processing_concurrency: usize) -> (c:
        Crawler)
        requires
            1 <= crawling_concurrency,
            1 <= processing_concurrency,
            crawling_concurrency * 400 <= usize::MAX,
            processing_concurrency * 10 <= usize::MAX,
        ensures
            c.wf(),
            c.delay == delay,
            c.crawling_concurrency == crawling_concurrency,
            c.processing_concurrency == processing_concurrency,
    {
        Crawler { delay, crawling_concurrency, processing_concurrency }
    }

    /// The capacity of the pending-scrape queue and of the queue of scrape
    /// outcomes: 400 slots per scrape worker.
    pub fn crawling_queue_capacity(&self) -> (n: usize)
        requires
            self.wf(),
        ensures
            n == self.crawling_concurrency * 400,
    {
        self.crawling_concurrency * 400
    }

    /// The capacity of the item queue: 10 slots per processing worker.
    pub fn processing_queue_capacity(&self) -> (n: usize)
        requires
            self.wf(),
        ensures
            n == self.processing_concurrency * 10,
    {
        self.processing_concurrency * 10
    }

    /// Crawls to quiescence: seeds the frontier from the spider, then
    /// repeatedly hands out a pending URL, scrapes it, forwards its items
    /// through the bounded item queue to `process`, and feeds its outcome
    /// and discoveries back into the frontier — until no work remains.
    /// Returns the URLs whose scrape failed, in order of first failure,
    /// together with the ghost log of the run.
    ///
    /// The guarantees, over the log `r.1@` and the failed list `r.0`: the
    /// log's seeds are exactly the spider's seed list, and every recorded
    /// event satisfies the spider's own `scrape_post` relation, so the log
    /// is pinned to what the spider returned;
    /// every scraped URL was a seed or a discovery of an earlier scrape;
    /// when the run ends, the scraped URLs are exactly the known ones —
    /// quiescence is reached, and not before all admitted work is done;
    /// under a duplicate-free seed list no URL is ever scraped twice, and
    /// the failed list is then exactly the failed scrapes in order; in any
    /// case the failed list, as a set, is exactly the set of URLs whose
    /// scrape failed, named once each; and the items handed to `process`
    /// are exactly the items the scrapes produced, in order, whatever
    /// `process` returned for each.
    pub fn run<S: Spider>(&self, spider: &S) -> (r: (Vec<String>, Ghost<CrawlLog<S::Item>>))
        requires
            self.wf(),
        ensures
            r.1@.seeds == spider.seeds_spec(),
            forall|i: int|
                0 <= i < r.1@.events.len() ==> spider.scrape_post(
                    (#[trigger] r.1@.events[i]).url,
                    r.1@.events[i].ok,
                    r.1@.events[i].items,
                    r.1@.events[i].discovered,
                ),
            forall|i: int|
                0 <= i < r.1@.events.len() ==> known_urls(
                    r.1@.seeds,
                    r.1@.events.take(i),
                ).contains(#[trigger] r.1@.events[i].url),
            known_urls(r.1@.seeds, r.1@.events) == scraped_urls(r.1@.events).to_set(),
            forall|u: Seq<char>|
                r.1@.seeds.contains(u) ==> scraped_urls(r.1@.events).contains(u),
            forall|i: int, u: Seq<char>|
                0 <= i < r.1@.events.len() && #[trigger] r.1@.events[i].discovered.contains(u)
                    ==> scraped_urls(r.1@.events).contains(u),
            r.1@.seeds.no_duplicates() ==> scraped_urls(r.1@.events).no_duplicates(),
            r.1@.seeds.no_duplicates() ==> r.0.deep_view() == failures_of(r.1@.events),
            r.0.deep_view().to_set() == failures_of(r.1@.events).to_set(),
            r.0.deep_view().no_duplicates(),
            r.1@.processed == items_of(r.1@.events),
            forall|i: int|
                0 <= i < r.1@.events.len() && !(#[trigger] r.1@.events[i].ok)
                    ==> r.1@.events[i].items == Seq::<S::Item>::empty() && r.1@.events[i].discovered
                    == Seq::<Seq<char>>::empty(),
    {
        let mut frontier = Frontier::new();
        let start = spider.start_urls();
        let ghost seeds = start.deep_view();
        frontier.seed(&start);
        let mut queue: ItemQueue<S::Item> = ItemQueue::new(self.processing_queue_capacity());
        let ghost mut events: Seq<ScrapeEvent<S::Item>> = Seq::empty();
        let ghost mut processed: Seq<S::Item> = Seq::empty();
        proof {
            spider.universe_finite();
            assert(frontier@.visited =~= known_urls(seeds, events));
        }
        // In the sequential engine, the scrape outcome of the current URL
        // is consumed before the next is handed out and no worker holds a
        // URL between iterations, so the quiescence test sees no queued
        // outcomes and no active scrapers: it fires, once, exactly when
        // the pending queue empties.
        while !frontier.is_quiescent(0, 0)
            invariant
                spider.universe().finite(),
                frontier.wf(),
                queue.wf(),
                seeds.no_duplicates() ==> no_revisits(frontier@),
                frontier@.scraped == scraped_urls(events),
                frontier@.visited == known_urls(seeds, events),
                frontier@.failed.to_set() == failures_of(events).to_set(),
                seeds.no_duplicates() ==> frontier@.failed == failures_of(events),
                processed + queue@ == items_of(events),
                forall|i: int|
                    0 <= i < events.len() ==> known_urls(seeds, events.take(i)).contains(
                        #[trigger] events[i].url,
                    ),
                forall|i: int|
                    0 <= i < events.len() && !(#[trigger] events[i].ok) ==> events[i].items
                        == Seq::<S::Item>::empty() && events[i].discovered == Seq::<
                        Seq<char>,
                    >::empty(),
                forall|i: int|
                    0 <= i < events.len() ==> spider.scrape_post(
                        (#[trigger] events[i]).url,
                        events[i].ok,
                        events[i].items,
                        events[i].discovered,
                    ),
            decreases frontier@.pending.len() + spider.universe().difference(
                frontier@.visited,
            ).len(),
        {
            let ghost pre = frontier@;
            let ghost ev0 = events;
            let url = frontier.pop_pending().unwrap();
            proof {
                assert(pre.pending.contains(pre.pending[0]));
                assert(frontier@.visited.contains(url@));
            }
            match spider.scrape(url.clone()) {
                Ok((items, discovered)) => {
                    let ghost item_seq = items@;
                    let ghost e = ScrapeEvent {
                        url: url@,
                        ok: true,
                        items: item_seq,
                        discovered: discovered.deep_view(),
                    };
                    let newp = forward_items(spider, &mut queue, items, Ghost(processed));
                    frontier.record_result(&url, false, &discovered);
                    proof {
                        processed = newp@;
                        lemma_log_push(seeds, ev0, e);
                        lemma_fresh_urls_elems(pre.visited, discovered.deep_view());
                        self.lemma_run_step(
                            spider.universe(),
                            pre,
                            frontier@,
                            url@,
                            discovered.deep_view(),
                        );
                        events = ev0.push(e);
                        lemma_step_bookkeeping(seeds, ev0, e, pre, frontier@);
                        assert(spider.scrape_post(e.url, e.ok, e.items, e.discovered));
                        assert forall|i: int| 0 <= i < events.len() implies spider.scrape_post(
                            (#[trigger] events[i]).url,
                            events[i].ok,
                            events[i].items,
                            events[i].discovered,
                        ) by {
                            if i < events.len() - 1 {
                                assert(events[i] == ev0[i]);
                            } else {
                                assert(events[i] == e);
                            }
                        }
                        assert(processed + queue@ =~= items_of(events));
                    }
                }
                Err(_) => {
                    let none_found: Vec<String> = Vec::new();
                    let ghost e = ScrapeEvent {
                        url: url@,
                        ok: false,
                        items: Seq::<S::Item>::empty(),
                        discovered: Seq::<Seq<char>>::empty(),
                    };
                    proof {
                        if seeds.no_duplicates() {
                            lemma_failures_are_scraped::<S::Item>(events);
                            assert(!frontier@.failed.contains(url@));
                        }
                    }
                    frontier.record_result(&url, true, &none_found);
                    proof {
                        lemma_log_push(seeds, ev0, e);
                        lemma_fresh_urls_elems(pre.visited, none_found.deep_view());
                        assert(none_found.deep_view() =~= Seq::<Seq<char>>::empty());
                        self.lemma_run_step(
                            spider.universe(),
                            pre,
                            frontier@,
                            url@,
                            none_found.deep_view(),
                        );
                        events = ev0.push(e);
                        lemma_step_bookkeeping(seeds, ev0, e, pre, frontier@);
                        assert(processed + queue@ =~= items_of(events));
                    }
                }
            }
        }
        while queue.len() > 0
            invariant
                queue.wf(),
                processed + queue@ == items_of(events),
            decreases queue@.len(),
        {
            let item = queue.pop().unwrap();
            proof {
                processed = processed.push(item);
                assert(processed + queue@ =~= items_of(events));
            }
            let _ = spider.process(item);
        }
        let failed = frontier.failed_urls();
        proof {
            assert(frontier@.pending.len() == 0);
            assert(frontier@.visited =~= frontier@.scraped.to_set());
            assert(processed =~= items_of(events));
            lemma_known_urls_cover(seeds, events);
            if seeds.no_duplicates() {
                assert(frontier@.scraped + frontier@.pending =~= frontier@.scraped);
            }
        }
        (failed, Ghost(CrawlLog { seeds, events, processed }))
    }

    /// One engine step shrinks the work measure: handing out a URL takes
    /// one entry off the pending queue, and recording its outcome adds to
    /// the queue only URLs of the universe that were never seen before.
    proof fn lemma_run_step(
        &self,
        universe: Set<Seq<char>>,
        pre: crate::frontier::FrontierView,
        post: crate::frontier::FrontierView,
        url: Seq<char>,
        ds: Seq<Seq<char>>,
    )
        requires
            universe.finite(),
            pre.pending.len() > 0,
            forall|u: Seq<char>| #[trigger] ds.contains(u) ==> universe.contains(u),
            post.pending == pre.pending.drop_first() + fresh_urls(pre.visited, ds),
            post.visited == pre.visited.union(ds.to_set()),
        ensures
            post.pending.len() + universe.difference(post.visited).len() < pre.pending.len()
                + universe.difference(pre.visited).len(),
    {
        let fresh = fresh_urls(pre.visited, ds);
        lemma_fresh_urls_elems(pre.visited, ds);
        let fs = fresh.to_set();
        fresh.unique_seq_to_set();
        let before = universe.difference(pre.visited);
        let after = universe.difference(post.visited);
        assert(fs.subset_of(before));
        assert(before.finite()) by {
            lemma_set_subset_finite(universe, before);
        }
        assert(fs.finite()) by {
            lemma_set_subset_finite(before, fs);
        }
        lemma_len_remove_subset(before, fs);
        assert(after.subset_of(before.difference(fs)));
        assert(before.difference(fs).finite()) by {
            lemma_set_subset_finite(before, before.difference(fs));
        }
        vstd::set_lib::lemma_len_subset(after, before.difference(fs));
        assert(after.len() <= before.len() - fresh.len());
        assert(post.pending.len() == pre.pending.len() - 1 + fresh.len());
    }
}

/// Forwards produced items into the bounded item queue, oldest first; while
/// the queue is at capacity, the oldest queued item is handed to the
/// spider's `process` — whose outcome is dropped — to make room. Exactly
/// the handed-over items, in order, move from the front of the pipeline.
fn forward_items<S: Spider>(
    spider: &S,
    queue: &mut ItemQueue<S::Item>,
    items: Vec<S::Item>,
    processed: Ghost<Seq<S::Item>>,
) -> (r: Ghost<Seq<S::Item>>)
    requires
        old(queue).wf(),
    ensures
        final(queue).wf(),
        final(queue).cap() == old(queue).cap(),
        r@ + final(queue)@ == processed@ + old(queue)@ + items@,
{
    let ghost total = processed@ + old(queue)@ + items@;
    let mut items = items;
    let ghost mut done = processed@;
    while items.len() > 0
        invariant
            queue.wf(),
            queue.cap() == old(queue).cap(),
            done + queue@ + items@ == total,
        decreases items@.len(),
    {
        if queue.len() == queue.capacity() {
            let oldest = queue.pop().unwrap();
            proof {
                done = done.push(oldest);
                assert(done + queue@ + items@ =~= total);
            }
            let _ = spider.process(oldest);
        }
        let ghost qv = queue@;
        let item = items.remove(0);
        queue.push(item);
        proof {
            assert(done + queue@ + items@ =~= total);
        }
    }
    proof {
        assert(done + queue@ =~= total);
    }
    Ghost(done)
}

} // verus!
