//! The URL frontier: the single owner of the visited-URL set, the failed-URL
//! set and the pending-scrape queue of one crawl run.
//!
//! The frontier is the only place where new work is admitted: seeds and
//! newly discovered URLs enter through it, duplicates are dropped here, and
//! scrape workers draw their URLs from its pending queue. Once a URL has
//! been handed out it is never handed out again within the run.

use vstd::prelude::*;
use vstd::seq_lib::lemma_no_dup_in_concat;

verus! {

broadcast use vstd::set::group_set_axioms, vstd::seq_lib::group_seq_properties;

/// The mathematical state of a frontier.
///
/// `visited` is every URL the run has ever admitted; `failed` lists, in
/// order of first failure, the URLs whose scrape failed; `pending` is the
/// queue of URLs admitted but not yet handed to a scrape worker; `scraped`
/// is the history, in order, of the URLs handed out.
pub ghost struct FrontierView {
    pub visited: Set<Seq<char>>,
    pub failed: Seq<Seq<char>>,
    pub pending: Seq<Seq<char>>,
    pub scraped: Seq<Seq<char>>,
}

/// The frontier invariant: every URL the run knows of (handed out or still
/// queued) is exactly the visited set, and the failed list names each
/// visited URL at most once.
pub open spec fn inv(v: FrontierView) -> bool {
    &&& v.visited == v.scraped.to_set().union(v.pending.to_set())
    &&& v.failed.no_duplicates()
    &&& forall|u: Seq<char>| v.failed.contains(u) ==> v.visited.contains(u)
}

/// No URL is handed to a scrape worker twice: the hand-out history and the
/// queue of URLs still to be handed out hold no URL more than once between
/// them. Seeding with a duplicate-free list establishes this, and every
/// frontier operation preserves it.
pub open spec fn no_revisits(v: FrontierView) -> bool {
    (v.scraped + v.pending).no_duplicates()
}

/// The subsequence of `ds` that a frontier whose visited set is `visited`
/// admits: the URLs not yet visited, first occurrences only, in order.
pub open spec fn fresh_urls(visited: Set<Seq<char>>, ds: Seq<Seq<char>>) -> Seq<Seq<char>>
    decreases ds.len(),
{
    if ds.len() == 0 {
        Seq::empty()
    } else if visited.contains(ds[0]) {
        fresh_urls(visited, ds.drop_first())
    } else {
        seq![ds[0]] + fresh_urls(visited.insert(ds[0]), ds.drop_first())
    }
}

/// Admitting one more URL after `ds` enqueues it exactly when neither the
/// visited set nor `ds` already has it.
pub proof fn lemma_fresh_urls_snoc(visited: Set<Seq<char>>, ds: Seq<Seq<char>>, d: Seq<char>)
    ensures
        fresh_urls(visited, ds.push(d)) == fresh_urls(visited, ds) + (if visited.union(
            ds.to_set(),
        ).contains(d) {
            Seq::<Seq<char>>::empty()
        } else {
            seq![d]
        }),
    decreases ds.len(),
{
    let tail = (if visited.union(ds.to_set()).contains(d) {
        Seq::<Seq<char>>::empty()
    } else {
        seq![d]
    });
    if ds.len() == 0 {
        assert(ds.push(d)[0] == d);
        assert(ds.push(d).drop_first() =~= Seq::<Seq<char>>::empty());
        assert(visited.union(ds.to_set()).contains(d) == visited.contains(d));
        if visited.contains(d) {
            assert(fresh_urls(visited, ds.push(d)) =~= fresh_urls(visited, ds) + tail);
        } else {
            let e = Seq::<Seq<char>>::empty();
            assert(ds.push(d).drop_first() == e);
            assert(fresh_urls(visited.insert(d), e) == e);
            assert(fresh_urls(visited, ds.push(d)) =~= seq![d] + e);
            assert(seq![d] + e =~= seq![d]);
            assert(fresh_urls(visited, ds) + tail =~= seq![d]);
        }
    } else {
        let d0 = ds[0];
        assert(ds.push(d)[0] == d0);
        assert(ds.push(d).drop_first() =~= ds.drop_first().push(d));
        if visited.contains(d0) {
            lemma_fresh_urls_snoc(visited, ds.drop_first(), d);
            assert(visited.union(ds.drop_first().to_set()) =~= visited.union(ds.to_set()));
        } else {
            lemma_fresh_urls_snoc(visited.insert(d0), ds.drop_first(), d);
            assert(visited.insert(d0).union(ds.drop_first().to_set()) =~= visited.union(
                ds.to_set(),
            ));
            assert(fresh_urls(visited, ds.push(d)) =~= seq![d0] + fresh_urls(
                visited.insert(d0),
                ds.drop_first(),
            ) + tail);
            assert(fresh_urls(visited, ds) + tail =~= seq![d0] + fresh_urls(
                visited.insert(d0),
                ds.drop_first(),
            ) + tail);
        }
    }
}

/// What the admitted subsequence holds: only first occurrences of URLs of
/// `ds` that were not yet visited (so it has no duplicates), and together
/// with the visited set it covers all of `ds`.
pub proof fn lemma_fresh_urls_elems(visited: Set<Seq<char>>, ds: Seq<Seq<char>>)
    ensures
        forall|u: Seq<char>| #[trigger]
            fresh_urls(visited, ds).contains(u) ==> ds.contains(u) && !visited.contains(u),
        fresh_urls(visited, ds).no_duplicates(),
        forall|u: Seq<char>| #[trigger]
            ds.contains(u) ==> visited.union(fresh_urls(visited, ds).to_set()).contains(u),
    decreases ds.len(),
{
    if ds.len() == 0 {
    } else {
        let d0 = ds[0];
        let rest = ds.drop_first();
        assert(forall|u: Seq<char>| #[trigger]
            rest.contains(u) ==> ds.contains(u)) by {
            assert(forall|j: int| 0 <= j < rest.len() ==> rest[j] == ds[j + 1]);
        }
        assert(forall|u: Seq<char>|
            ds.contains(u) ==> u == d0 || rest.contains(u)) by {
            assert forall|u: Seq<char>| ds.contains(u) && u != d0 implies rest.contains(u) by {
                let j = choose|j: int| 0 <= j < ds.len() && ds[j] == u;
                assert(rest[j - 1] == u);
            }
        }
        if visited.contains(d0) {
            lemma_fresh_urls_elems(visited, rest);
        } else {
            let bigger = visited.insert(d0);
            lemma_fresh_urls_elems(bigger, rest);
            let f = fresh_urls(visited, ds);
            let fr = fresh_urls(bigger, rest);
            assert(f == seq![d0] + fr);
            assert(forall|u: Seq<char>| #[trigger]
                f.contains(u) ==> u == d0 || fr.contains(u)) by {
                assert forall|u: Seq<char>| f.contains(u) && u != d0 implies fr.contains(u) by {
                    let j = choose|j: int| 0 <= j < f.len() && f[j] == u;
                    assert(fr[j - 1] == u);
                }
            }
            assert(f.no_duplicates()) by {
                assert(!fr.contains(d0));
                lemma_no_dup_in_concat(seq![d0], fr);
            }
            assert(forall|u: Seq<char>| #[trigger]
                fr.contains(u) ==> f.contains(u)) by {
                assert forall|u: Seq<char>| fr.contains(u) implies f.contains(u) by {
                    let j = choose|j: int| 0 <= j < fr.len() && fr[j] == u;
                    assert(f[j + 1] == u);
                }
            }
            assert(f.contains(d0)) by {
                assert(f[0] == d0);
            }
        }
    }
}

/// No URL is ever handed to a scrape worker twice: under the no-revisit
/// guarantee the hand-out history itself holds no duplicates.
pub proof fn lemma_no_repeat_handouts(v: FrontierView)
    requires
        no_revisits(v),
    ensures
        v.scraped.no_duplicates(),
{
    let joint = v.scraped + v.pending;
    assert forall|i: int, j: int|
        0 <= i < v.scraped.len() && 0 <= j < v.scraped.len() && i != j implies v.scraped[i]
        != v.scraped[j] by {
        assert(joint[i] == v.scraped[i]);
        assert(joint[j] == v.scraped[j]);
    }
}

/// Quiescence is sound: when the pending queue has been observed empty,
/// every URL the run ever admitted has already been handed to a scrape
/// worker — no admitted work is left behind, and (the frontier being the
/// only place work is admitted) none can appear unless the frontier itself
/// admits it.
pub proof fn lemma_quiescent_drained(v: FrontierView)
    requires
        inv(v),
        v.pending.len() == 0,
    ensures
        v.visited == v.scraped.to_set(),
{
    assert(v.visited =~= v.scraped.to_set());
}

/// The frontier of one crawl run.
///
/// It owns the visited-URL set, the failed-URL set and the pending-scrape
/// queue; scrape outcomes are fed back into it and it alone decides which
/// discovered URLs become new work.
pub struct Frontier {
    visited: Vec<String>,
    failed: Vec<String>,
    pending: Vec<String>,
    scraped: Ghost<Seq<Seq<char>>>,
}

impl View for Frontier {
    type V = FrontierView;

    closed spec fn view(&self) -> FrontierView {
        FrontierView {
            visited: self.visited.deep_view().to_set(),
            failed: self.failed.deep_view(),
            pending: self.pending.deep_view(),
            scraped: self.scraped@,
        }
    }
}

impl Frontier {
    /// Representation invariant: the visited vector lists each URL once.
    pub closed spec fn rep_ok(&self) -> bool {
        self.visited.deep_view().no_duplicates()
    }

    /// A well-formed frontier: its representation is tight and its state
    /// satisfies the frontier invariant.
    pub open spec fn wf(&self) -> bool {
        &&& self.rep_ok()
        &&& inv(self@)
    }

    /// An empty frontier: nothing visited, nothing failed, nothing queued,
    /// nothing handed out.
    pub fn new() -> (f: Frontier)
        ensures
            f.wf(),
            no_revisits(f@),
            f@.visited == Set::<Seq<char>>::empty(),
            f@.failed == Seq::<Seq<char>>::empty(),
            f@.pending == Seq::<Seq<char>>::empty(),
            f@.scraped == Seq::<Seq<char>>::empty(),
    {
        let f = Frontier {
            visited: Vec::new(),
            failed: Vec::new(),
            pending: Vec::new(),
            scraped: Ghost(Seq::empty()),
        };
        proof {
            assert(f@.visited =~= f@.scraped.to_set().union(f@.pending.to_set()));
            assert(f@.visited =~= Set::<Seq<char>>::empty());
        }
        f
    }

    /// Admits the seed URLs: each is marked visited and each, in the given
    /// order, is appended to the pending queue, exactly as handed in. A
    /// duplicate-free seed list disjoint from the URLs already known keeps
    /// the no-revisit guarantee.
    pub fn seed(&mut self, urls: &Vec<String>)
        requires
            old(self).wf(),
        ensures
            final(self).wf(),
            final(self)@.visited == old(self)@.visited.union(urls.deep_view().to_set()),
            final(self)@.pending == old(self)@.pending + urls.deep_view(),
            final(self)@.failed == old(self)@.failed,
            final(self)@.scraped == old(self)@.scraped,
            (no_revisits(old(self)@) && urls.deep_view().no_duplicates() && (forall|u: Seq<char>|
                urls.deep_view().contains(u) ==> !old(self)@.visited.contains(u))) ==> no_revisits(
                final(self)@,
            ),
    {
        let ghost pre = self@;
        let ghost us = urls.deep_view();
        let mut i: usize = 0;
        while i < urls.len()
            invariant
                i <= urls.len(),
                us == urls.deep_view(),
                self.rep_ok(),
                self@.visited == pre.visited.union(us.take(i as int).to_set()),
                self@.pending == pre.pending + us.take(i as int),
                self@.failed == pre.failed,
                self@.scraped == pre.scraped,
            decreases urls.len() - i,
        {
            let ghost taken = us.take(i as int);
            let url = &urls[i];
            proof {
                assert(us.take(i + 1) =~= taken.push(url@));
                assert(taken.push(url@).to_set() =~= taken.to_set().insert(url@));
            }
            if !contains_url(&self.visited, url) {
                let ghost vis = self.visited.deep_view();
                self.visited.push(url.clone());
                proof {
                    assert(self.visited.deep_view() =~= vis.push(url@));
                    assert(vis.push(url@).no_duplicates());
                    assert(vis.push(url@).to_set() =~= vis.to_set().insert(url@));
                }
            } else {
                proof {
                    assert(self@.visited.insert(url@) =~= self@.visited);
                }
            }
            let ghost pen = self.pending.deep_view();
            self.pending.push(url.clone());
            proof {
                assert(self.pending.deep_view() =~= pen.push(url@));
                assert(pre.pending + us.take(i + 1) =~= (pre.pending + taken).push(url@));
                assert(self@.visited =~= pre.visited.union(us.take(i + 1).to_set()));
            }
            i = i + 1;
        }
        proof {
            assert(us.take(us.len() as int) =~= us);
            assert(inv(self@)) by {
                assert(self@.visited =~= self@.scraped.to_set().union(self@.pending.to_set())) by {
                    assert(forall|u: Seq<char>| #[trigger]
                        (pre.pending + us).to_set().contains(u) <==> pre.pending.to_set().contains(
                            u,
                        ) || us.to_set().contains(u)) by {
                        lemma_concat_to_set(pre.pending, us);
                    }
                }
            }
            if no_revisits(pre) && us.no_duplicates() && (forall|u: Seq<char>|
                us.contains(u) ==> !pre.visited.contains(u)) {
                assert(no_revisits(self@)) by {
                    assert(forall|u: Seq<char>| #[trigger]
                        (pre.scraped + pre.pending).contains(u) ==> pre.visited.contains(u)) by {
                        assert(forall|j: int|
                            0 <= j < pre.scraped.len() ==> pre.scraped.to_set().contains(
                                (pre.scraped + pre.pending)[j],
                            ));
                        assert(forall|j: int|
                            pre.scraped.len() <= j < pre.scraped.len() + pre.pending.len()
                                ==> pre.pending.to_set().contains((pre.scraped + pre.pending)[j]));
                    }
                    let joint = pre.scraped + pre.pending;
                    assert forall|j1: int, j2: int|
                        0 <= j1 < joint.len() && 0 <= j2 < us.len() implies joint[j1]
                        != us[j2] by {
                        assert(joint.contains(joint[j1]));
                        assert(us.contains(us[j2]));
                    }
                    lemma_no_dup_in_concat(joint, us);
                    assert(self@.scraped + self@.pending =~= joint + us);
                }
            }
        }
    }

    /// Hands out the next pending URL, oldest first, and records the
    /// hand-out. Under the no-revisit guarantee the returned URL was never
    /// handed out before.
    pub fn pop_pending(&mut self) -> (r: Option<String>)
        requires
            old(self).wf(),
        ensures
            final(self).wf(),
            old(self)@.pending.len() == 0 ==> r is None && final(self)@ == old(self)@,
            old(self)@.pending.len() > 0 ==> {
                &&& r is Some
                &&& r->0@ == old(self)@.pending[0]
                &&& final(self)@.pending == old(self)@.pending.drop_first()
                &&& final(self)@.scraped == old(self)@.scraped.push(old(self)@.pending[0])
                &&& final(self)@.visited == old(self)@.visited
                &&& final(self)@.failed == old(self)@.failed
            },
            no_revisits(old(self)@) ==> no_revisits(final(self)@),
            (no_revisits(old(self)@) && old(self)@.pending.len() > 0) ==> !old(
                self,
            )@.scraped.contains(old(self)@.pending[0]),
    {
        if self.pending.len() == 0 {
            proof {
                assert(self.pending.deep_view().len() == 0);
            }
            None
        } else {
            let ghost pre = self@;
            let url = self.pending.remove(0);
            proof {
                self.scraped = Ghost(pre.scraped.push(url@));
                assert(self.pending.deep_view() =~= pre.pending.drop_first());
                assert(url@ == pre.pending[0]);
                assert(self@.visited =~= self@.scraped.to_set().union(self@.pending.to_set())) by {
                    assert(forall|u: Seq<char>| #[trigger]
                        pre.pending.contains(u) <==> (u == pre.pending[0]
                            || pre.pending.drop_first().contains(u))) by {
                        lemma_first_or_rest(pre.pending);
                    }
                }
                assert(self@.scraped + self@.pending =~= pre.scraped + pre.pending);
                if no_revisits(pre) {
                    let joint = pre.scraped + pre.pending;
                    assert(forall|j: int|
                        0 <= j < pre.scraped.len() ==> pre.scraped[j] == joint[j]);
                    assert(joint[pre.scraped.len() as int] == pre.pending[0]);
                    if pre.scraped.contains(pre.pending[0]) {
                        let k = choose|k: int|
                            0 <= k < pre.scraped.len() && pre.scraped[k] == pre.pending[0];
                        assert(joint[k] == joint[pre.scraped.len() as int]);
                        assert(false);
                    }
                }
            }
            Some(url)
        }
    }

    /// Records the outcome of one scrape: a failed URL joins the failed
    /// list (once), and every discovered URL not yet visited is admitted —
    /// marked visited and appended to the pending queue — while the rest
    /// are dropped as duplicates.
    pub fn record_result(&mut self, url: &String, failure: bool, discovered: &Vec<String>)
        requires
            old(self).wf(),
            old(self)@.visited.contains(url@),
        ensures
            final(self).wf(),
            final(self)@.visited == old(self)@.visited.union(discovered.deep_view().to_set()),
            final(self)@.pending == old(self)@.pending + fresh_urls(
                old(self)@.visited,
                discovered.deep_view(),
            ),
            final(self)@.scraped == old(self)@.scraped,
            final(self)@.failed == (if failure && !old(self)@.failed.contains(url@) {
                old(self)@.failed.push(url@)
            } else {
                old(self)@.failed
            }),
            no_revisits(old(self)@) ==> no_revisits(final(self)@),
    {
        let ghost pre = self@;
        let ghost ds = discovered.deep_view();
        if failure && !contains_url(&self.failed, url) {
            let ghost fl = self.failed.deep_view();
            self.failed.push(url.clone());
            proof {
                assert(self.failed.deep_view() =~= fl.push(url@));
                assert(fl.push(url@).no_duplicates());
            }
        }
        let ghost mid = self@;
        let mut i: usize = 0;
        while i < discovered.len()
            invariant
                i <= discovered.len(),
                ds == discovered.deep_view(),
                self.rep_ok(),
                self@.visited == pre.visited.union(ds.take(i as int).to_set()),
                self@.pending == pre.pending + fresh_urls(pre.visited, ds.take(i as int)),
                self@.failed == mid.failed,
                self@.scraped == pre.scraped,
            decreases discovered.len() - i,
        {
            let ghost taken = ds.take(i as int);
            let d = &discovered[i];
            proof {
                assert(ds.take(i + 1) =~= taken.push(d@));
                assert(taken.push(d@).to_set() =~= taken.to_set().insert(d@));
                lemma_fresh_urls_snoc(pre.visited, taken, d@);
            }
            if !contains_url(&self.visited, d) {
                let ghost vis = self.visited.deep_view();
                let ghost pen = self.pending.deep_view();
                self.visited.push(d.clone());
                self.pending.push(d.clone());
                proof {
                    assert(self.visited.deep_view() =~= vis.push(d@));
                    assert(vis.push(d@).no_duplicates());
                    assert(vis.push(d@).to_set() =~= vis.to_set().insert(d@));
                    assert(self.pending.deep_view() =~= pen.push(d@));
                    assert(!pre.visited.union(taken.to_set()).contains(d@));
                    assert(fresh_urls(pre.visited, ds.take(i + 1)) =~= fresh_urls(
                        pre.visited,
                        taken,
                    ).push(d@));
                    assert(self.pending.deep_view() =~= pre.pending + fresh_urls(
                        pre.visited,
                        ds.take(i + 1),
                    ));
                    assert(self@.visited =~= pre.visited.union(ds.take(i + 1).to_set()));
                }
            } else {
                proof {
                    assert(pre.visited.union(taken.to_set()).contains(d@));
                    assert(fresh_urls(pre.visited, ds.take(i + 1)) =~= fresh_urls(
                        pre.visited,
                        taken,
                    ));
                    assert(self@.visited.insert(d@) =~= self@.visited);
                    assert(self@.visited =~= pre.visited.union(ds.take(i + 1).to_set()));
                }
            }
            i = i + 1;
        }
        proof {
            assert(ds.take(ds.len() as int) =~= ds);
            let fresh = fresh_urls(pre.visited, ds);
            lemma_fresh_urls_elems(pre.visited, ds);
            assert(inv(self@)) by {
                lemma_concat_to_set(pre.pending, fresh);
                assert(self@.visited =~= self@.scraped.to_set().union(self@.pending.to_set())) by {
                    assert(forall|u: Seq<char>| #[trigger]
                        ds.contains(u) ==> pre.visited.union(fresh.to_set()).contains(u));
                    assert(forall|u: Seq<char>| #[trigger]
                        fresh.contains(u) ==> ds.contains(u));
                }
                assert(forall|u: Seq<char>| #[trigger]
                    self@.failed.contains(u) ==> self@.visited.contains(u)) by {
                    assert(forall|u: Seq<char>| #[trigger]
                        mid.failed.contains(u) ==> pre.failed.contains(u) || u == url@);
                }
            }
            if no_revisits(pre) {
                assert(no_revisits(self@)) by {
                    assert(forall|u: Seq<char>| #[trigger]
                        (pre.scraped + pre.pending).contains(u) ==> pre.visited.contains(u)) by {
                        assert(forall|j: int|
                            0 <= j < pre.scraped.len() ==> pre.scraped.to_set().contains(
                                (pre.scraped + pre.pending)[j],
                            ));
                        assert(forall|j: int|
                            pre.scraped.len() <= j < pre.scraped.len() + pre.pending.len()
                                ==> pre.pending.to_set().contains((pre.scraped + pre.pending)[j]));
                    }
                    let joint = pre.scraped + pre.pending;
                    assert forall|j1: int, j2: int|
                        0 <= j1 < joint.len() && 0 <= j2 < fresh.len() implies joint[j1]
                        != fresh[j2] by {
                        assert(joint.contains(joint[j1]));
                        assert(fresh.contains(fresh[j2]));
                    }
                    lemma_no_dup_in_concat(joint, fresh);
                    assert(self@.scraped + self@.pending =~= joint + fresh);
                }
            }
        }
    }

    /// Whether `url` has been admitted this run — seeded or discovered,
    /// and so marked visited. Callers feeding scrape outcomes back test
    /// this before `record_result`.
    pub fn is_visited(&self, url: &String) -> (b: bool)
        ensures
            b == self@.visited.contains(url@),
    {
        let b = contains_url(&self.visited, url);
        proof {
            assert(self.visited.deep_view().contains(url@) == self.visited.deep_view().to_set(
            ).contains(url@));
        }
        b
    }

    /// The number of URLs waiting in the pending queue.
    pub fn pending_len(&self) -> (n: usize)
        ensures
            n == self@.pending.len(),
    {
        proof {
            assert(self.pending.deep_view().len() == self.pending@.len());
        }
        self.pending.len()
    }

    /// The crawl is quiescent — and only then may the run end — exactly
    /// when the pending queue is empty, no scrape outcome is waiting to be
    /// consumed, and no scrape worker holds a URL.
    pub fn is_quiescent(&self, results_pending: usize, active_scrapers: usize) -> (b: bool)
        ensures
            b == (self@.pending.len() == 0 && results_pending == 0 && active_scrapers == 0),
    {
        self.pending_len() == 0 && results_pending == 0 && active_scrapers == 0
    }

    /// The URLs whose scrape failed, in order of first failure.
    pub fn failed_urls(&self) -> (r: Vec<String>)
        ensures
            r.deep_view() == self@.failed,
    {
        let mut r: Vec<String> = Vec::new();
        let mut i: usize = 0;
        while i < self.failed.len()
            invariant
                i <= self.failed.len(),
                r.deep_view() == self.failed.deep_view().take(i as int),
            decreases self.failed.len() - i,
        {
            let ghost rv = r.deep_view();
            r.push(self.failed[i].clone());
            proof {
                assert(r.deep_view() =~= rv.push(self.failed.deep_view()[i as int]));
                assert(self.failed.deep_view().take(i + 1) =~= self.failed.deep_view().take(
                    i as int,
                ).push(self.failed.deep_view()[i as int]));
            }
            i = i + 1;
        }
        proof {
            assert(self.failed.deep_view().take(self.failed.deep_view().len() as int)
                =~= self.failed.deep_view());
        }
        r
    }
}

/// Membership of the concatenation of two sequences is membership of one
/// of the two.
proof fn lemma_concat_to_set(a: Seq<Seq<char>>, b: Seq<Seq<char>>)
    ensures
        forall|u: Seq<char>| #[trigger]
            (a + b).to_set().contains(u) <==> a.to_set().contains(u) || b.to_set().contains(u),
{
    assert forall|u: Seq<char>| #[trigger]
        (a + b).contains(u) <==> a.contains(u) || b.contains(u) by {
        if (a + b).contains(u) {
            let j = choose|j: int| 0 <= j < (a + b).len() && (a + b)[j] == u;
            if j < a.len() {
                assert(a[j] == u);
            } else {
                assert(b[j - a.len()] == u);
            }
        }
        if a.contains(u) {
            let j = choose|j: int| 0 <= j < a.len() && a[j] == u;
            assert((a + b)[j] == u);
        }
        if b.contains(u) {
            let j = choose|j: int| 0 <= j < b.len() && b[j] == u;
            assert((a + b)[j + a.len()] == u);
        }
    }
}

/// A non-empty sequence holds its first element and the elements of its
/// rest, and nothing else.
proof fn lemma_first_or_rest(s: Seq<Seq<char>>)
    requires
        s.len() > 0,
    ensures
        forall|u: Seq<char>| #[trigger]
            s.contains(u) <==> (u == s[0] || s.drop_first().contains(u)),
{
    assert forall|u: Seq<char>| #[trigger]
        s.contains(u) <==> (u == s[0] || s.drop_first().contains(u)) by {
        if s.contains(u) {
            let j = choose|j: int| 0 <= j < s.len() && s[j] == u;
            if j > 0 {
                assert(s.drop_first()[j - 1] == u);
            }
        }
        if s.drop_first().contains(u) {
            let j = choose|j: int| 0 <= j < s.drop_first().len() && s.drop_first()[j] == u;
            assert(s[j + 1] == u);
        }
    }
}

/// Whether `v` holds a string equal to `url`.
pub(crate) fn contains_url(v: &Vec<String>, url: &String) -> (b: bool)
    ensures
        b == v.deep_view().contains(url@),
{
    let mut i: usize = 0;
    while i < v.len()
        invariant
            i <= v.len(),
            forall|j: int| 0 <= j < i ==> v.deep_view()[j] != url@,
        decreases v.len() - i,
    {
        if v[i] == *url {
            proof {
                assert(v.deep_view()[i as int] == url@);
            }
            return true;
        }
        i = i + 1;
    }
    proof {
        assert(!v.deep_view().contains(url@));
    }
    false
}

} // verus!
