//! The spider capability: the pluggable, site-specific strategy the engine
//! drives.

use vstd::prelude::*;
use crate::error::Error;

pub mod svt;

verus! {

/// A site-specific strategy consumed by the crawl engine.
///
/// A spider supplies the seed URLs, fetches one URL at a time producing
/// zero-or-more items and zero-or-more newly discovered URLs, and consumes
/// one item at a time for side-effecting processing.
///
/// The engine asks little of a spider — a `scrape` error marks the URL as
/// failed for the run, a `process` error is dropped, and whatever values
/// come back are handled for every outcome — but each spider describes
/// itself at the specification level, and the engine's own contract is
/// stated against that description: `seeds_spec` names the seed list that
/// `start_urls` returns, and `scrape_post` is the spider's relation
/// between a URL and the outcome `scrape` produced for it, so a run's
/// recorded events are pinned to what the spider actually returned. A
/// spider further vouches that its discoveries stay within some finite
/// universe of URLs — the crawl of an endless site never finishes, and no
/// engine could promise otherwise — and that assumption is exactly what
/// lets the engine guarantee that a run terminates.
///
/// The spec and proof members are ghost: they take no part at run time
/// and are never called. An unverified spider implements them with
/// placeholder bodies (`unreachable!()` and an empty body will do); a
/// verified one states and proves them.
pub trait Spider {
    /// The opaque payload produced by `scrape` and consumed by `process`.
    type Item;

    /// The universe of URLs this spider can ever discover.
    spec fn universe(&self) -> Set<Seq<char>>;

    /// The seed URLs, as `start_urls` will return them.
    spec fn seeds_spec(&self) -> Seq<Seq<char>>;

    /// The spider's own description of a scrape outcome: whether scraping
    /// `url` may end with success flag `ok`, producing `items` and
    /// discovering `discovered`. A scripted spider pins the outcome
    /// exactly; one that fetches a live site states what it can.
    spec fn scrape_post(
        &self,
        url: Seq<char>,
        ok: bool,
        items: Seq<Self::Item>,
        discovered: Seq<Seq<char>>,
    ) -> bool;

    /// The universe is finite: discoveries eventually stop producing
    /// unseen URLs, so a crawl run ends.
    proof fn universe_finite(&self)
        ensures
            self.universe().finite(),
    ;

    /// Returns the seed URLs; called once at the start of a run.
    fn start_urls(&self) -> (r: Vec<String>)
        ensures
            r.deep_view() == self.seeds_spec(),
    ;

    /// Fetches and parses one URL; on success returns the items it yielded
    /// and the URLs discovered on the page, all within the universe. The
    /// outcome — tag, items and discoveries on success, a bare failure
    /// otherwise — satisfies the spider's own `scrape_post` relation.
    fn scrape(&self, url: String) -> (r: Result<(Vec<Self::Item>, Vec<String>), Error>)
        ensures
            r is Ok ==> forall|u: Seq<char>|
                r->Ok_0.1.deep_view().contains(u) ==> self.universe().contains(u),
            r is Ok ==> self.scrape_post(url@, true, r->Ok_0.0@, r->Ok_0.1.deep_view()),
            r is Err ==> self.scrape_post(
                url@,
                false,
                Seq::<Self::Item>::empty(),
                Seq::<Seq<char>>::empty(),
            ),
    ;

    /// Consumes one item, e.g. by persisting it.
    fn process(&self, item: Self::Item) -> Result<(), Error>;
}

/// One scripted page of a [`TableSpider`]: what scraping `url` yields.
pub struct TableEntry {
    pub url: String,
    pub items: Vec<String>,
    pub discovered: Vec<String>,
}

/// The mathematical content of one scripted page.
pub ghost struct TableEntryView {
    pub url: Seq<char>,
    pub items: Seq<Seq<char>>,
    pub discovered: Seq<Seq<char>>,
}

impl View for TableEntry {
    type V = TableEntryView;

    open spec fn view(&self) -> TableEntryView {
        TableEntryView {
            url: self.url@,
            items: self.items.deep_view(),
            discovered: self.discovered.deep_view(),
        }
    }
}

/// The first scripted page for `url`, if there is one: the entry a scan
/// from the front finds.
pub open spec fn first_entry(entries: Seq<TableEntry>, url: Seq<char>) -> Option<TableEntryView>
    decreases entries.len(),
{
    if entries.len() == 0 {
        None
    } else if entries[0]@.url == url {
        Some(entries[0]@)
    } else {
        first_entry(entries.drop_first(), url)
    }
}

/// A scan that matched nothing before position `i` finds at `i` the first
/// scripted page for `url`; one that reached the end finds none.
pub proof fn lemma_first_entry_scan(entries: Seq<TableEntry>, url: Seq<char>, i: int)
    requires
        0 <= i <= entries.len(),
        forall|j: int| 0 <= j < i ==> (#[trigger] entries[j])@.url != url,
    ensures
        i == entries.len() ==> first_entry(entries, url) is None,
        (i < entries.len() && entries[i]@.url == url) ==> first_entry(entries, url) == Some(
            entries[i]@,
        ),
    decreases i,
{
    if entries.len() == 0 {
    } else if i == 0 {
    } else {
        assert(entries[0]@.url != url);
        let rest = entries.drop_first();
        assert(forall|j: int| 0 <= j < i - 1 ==> (#[trigger] rest[j])@.url != url) by {
            assert(forall|j: int| 0 <= j < i - 1 ==> rest[j] == entries[j + 1]);
        }
        lemma_first_entry_scan(rest, url, i - 1);
        if i < entries.len() {
            assert(rest[i - 1] == entries[i]);
        }
    }
}

/// Every URL the scripted pages can discover.
pub open spec fn all_discovered(entries: Seq<TableEntry>) -> Set<Seq<char>>
    decreases entries.len(),
{
    if entries.len() == 0 {
        Set::empty()
    } else {
        all_discovered(entries.drop_last()).union(entries.last()@.discovered.to_set())
    }
}

/// Finitely many scripted pages discover finitely many URLs.
proof fn lemma_all_discovered_finite(entries: Seq<TableEntry>)
    ensures
        all_discovered(entries).finite(),
    decreases entries.len(),
{
    broadcast use vstd::set::group_set_axioms, vstd::seq_lib::seq_to_set_is_finite;

    if entries.len() > 0 {
        lemma_all_discovered_finite(entries.drop_last());
    }
}

/// A URL discovered by some scripted page is among all discovered URLs.
proof fn lemma_all_discovered_contains(entries: Seq<TableEntry>, i: int)
    requires
        0 <= i < entries.len(),
    ensures
        forall|u: Seq<char>|
            entries[i]@.discovered.contains(u) ==> all_discovered(entries).contains(u),
    decreases entries.len(),
{
    broadcast use vstd::set::group_set_axioms;

    if i < entries.len() - 1 {
        lemma_all_discovered_contains(entries.drop_last(), i);
        assert(entries.drop_last()[i] == entries[i]);
        assert forall|u: Seq<char>|
            entries[i]@.discovered.contains(u) implies all_discovered(entries).contains(u) by {
            assert(all_discovered(entries.drop_last()).contains(u));
        }
    } else {
        assert(entries.last() == entries[i]);
        assert forall|u: Seq<char>|
            entries[i]@.discovered.contains(u) implies all_discovered(entries).contains(u) by {
            assert(entries.last()@.discovered.to_set().contains(u));
        }
    }
}

/// A spider scripted by a fixed table: its whole behaviour is laid down in
/// advance, which makes it the harness of choice for exercising the
/// engine. Scraping a URL with a scripted page succeeds with that page's
/// items and discoveries; scraping any other URL fails; processing an item
/// fails exactly when the item was listed as rejected.
pub struct TableSpider {
    pub seeds: Vec<String>,
    pub entries: Vec<TableEntry>,
    pub rejected_items: Vec<String>,
}

impl Spider for TableSpider {
    type Item = String;

    open spec fn universe(&self) -> Set<Seq<char>> {
        all_discovered(self.entries@)
    }

    open spec fn seeds_spec(&self) -> Seq<Seq<char>> {
        self.seeds.deep_view()
    }

    open spec fn scrape_post(
        &self,
        url: Seq<char>,
        ok: bool,
        items: Seq<String>,
        discovered: Seq<Seq<char>>,
    ) -> bool {
        match first_entry(self.entries@, url) {
            Some(entry) => {
                &&& ok
                &&& items.map_values(|s: String| s@) == entry.items
                &&& discovered == entry.discovered
            },
            None => {
                &&& !ok
                &&& items == Seq::<String>::empty()
                &&& discovered == Seq::<Seq<char>>::empty()
            },
        }
    }

    proof fn universe_finite(&self) {
        lemma_all_discovered_finite(self.entries@);
    }

    fn start_urls(&self) -> (urls: Vec<String>) {
        clone_strings(&self.seeds)
    }

    fn scrape(&self, url: String) -> (r: Result<(Vec<String>, Vec<String>), Error>)
        ensures
            r is Ok <==> first_entry(self.entries@, url@) is Some,
    {
        let mut i: usize = 0;
        while i < self.entries.len()
            invariant
                i <= self.entries.len(),
                forall|j: int| 0 <= j < i ==> (#[trigger] self.entries@[j])@.url != url@,
            decreases self.entries.len() - i,
        {
            if self.entries[i].url == url {
                let items = clone_strings(&self.entries[i].items);
                let discovered = clone_strings(&self.entries[i].discovered);
                proof {
                    lemma_all_discovered_contains(self.entries@, i as int);
                    lemma_first_entry_scan(self.entries@, url@, i as int);
                    assert(items@.map_values(|s: String| s@) =~= items.deep_view());
                }
                return Ok((items, discovered));
            }
            i = i + 1;
        }
        proof {
            lemma_first_entry_scan(self.entries@, url@, self.entries@.len() as int);
        }
        Err(Error::Internal(String::new()))
    }

    fn process(&self, item: String) -> (r: Result<(), Error>)
        ensures
            r is Ok <==> !self.rejected_items.deep_view().contains(item@),
    {
        if crate::frontier::contains_url(&self.rejected_items, &item) {
            Err(Error::Internal(String::new()))
        } else {
            Ok(())
        }
    }
}

/// A fresh vector holding equal strings, in the same order.
fn clone_strings(v: &Vec<String>) -> (r: Vec<String>)
    ensures
        r.deep_view() == v.deep_view(),
{
    let mut r: Vec<String> = Vec::new();
    let mut i: usize = 0;
    while i < v.len()
        invariant
            i <= v.len(),
            r.deep_view() == v.deep_view().take(i as int),
        decreases v.len() - i,
    {
        let ghost rv = r.deep_view();
        r.push(v[i].clone());
        proof {
            assert(r.deep_view() =~= rv.push(v.deep_view()[i as int]));
            assert(v.deep_view().take(i + 1) =~= v.deep_view().take(i as int).push(
                v.deep_view()[i as int],
            ));
        }
        i = i + 1;
    }
    proof {
        assert(v.deep_view().take(v.deep_view().len() as int) =~= v.deep_view());
    }
    r
}

} // verus!
