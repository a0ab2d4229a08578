use std::cell::RefCell;
use std::time::Duration;

use vstd::prelude::*;

use svt_scraper::error::Error;
use svt_scraper::spiders::{Spider, TableEntry, TableSpider};
use svt_scraper::Crawler;

/// A spider scripted by `pages` that records every call made to it.
struct RecordingSpider {
    seeds: Vec<String>,
    pages: Vec<(String, Vec<String>, Vec<String>)>,
    reject: Vec<String>,
    scrape_calls: RefCell<Vec<String>>,
    process_calls: RefCell<Vec<String>>,
}

impl RecordingSpider {
    fn new(
        seeds: &[&str],
        pages: &[(&str, &[&str], &[&str])],
        reject: &[&str],
    ) -> RecordingSpider {
        RecordingSpider {
            seeds: seeds.iter().map(|s| s.to_string()).collect(),
            pages: pages
                .iter()
                .map(|(u, items, disc)| {
                    (
                        u.to_string(),
                        items.iter().map(|s| s.to_string()).collect(),
                        disc.iter().map(|s| s.to_string()).collect(),
                    )
                })
                .collect(),
            reject: reject.iter().map(|s| s.to_string()).collect(),
            scrape_calls: RefCell::new(Vec::new()),
            process_calls: RefCell::new(Vec::new()),
        }
    }
}

impl Spider for RecordingSpider {
    type Item = String;

    // The ghost members of the trait play no part at run time and are
    // never called; an unverified spider gives them placeholder bodies.
    fn universe(&self) -> Set<Seq<char>> {
        unreachable!()
    }

    fn seeds_spec(&self) -> Seq<Seq<char>> {
        unreachable!()
    }

    fn scrape_post(
        &self,
        _url: Seq<char>,
        _ok: bool,
        _items: Seq<String>,
        _discovered: Seq<Seq<char>>,
    ) -> bool {
        unreachable!()
    }

    fn universe_finite(&self) {}

    fn start_urls(&self) -> Vec<String> {
        self.seeds.clone()
    }

    fn scrape(&self, url: String) -> Result<(Vec<String>, Vec<String>), Error> {
        self.scrape_calls.borrow_mut().push(url.clone());
        for (u, items, disc) in &self.pages {
            if *u == url {
                return Ok((items.clone(), disc.clone()));
            }
        }
        Err(Error::Internal(String::from("no such page")))
    }

    fn process(&self, item: String) -> Result<(), Error> {
        self.process_calls.borrow_mut().push(item.clone());
        if self.reject.contains(&item) {
            Err(Error::Internal(String::from("rejected item")))
        } else {
            Ok(())
        }
    }
}

fn engine(crawling: usize, processing: usize) -> Crawler {
    Crawler::new(Duration::from_millis(1), crawling, processing)
}

#[test]
fn scenario_seed_discovers_self_and_failure() {
    // Seeds {"a"}; scraping "a" yields item "i1" and discoveries ["b", "a"];
    // scraping "b" fails; processing "i1" succeeds. The failed set is
    // exactly {"b"}, scrape runs exactly twice ("a" rediscovered by itself
    // is deduplicated), and process runs exactly once.
    let spider = RecordingSpider::new(&["a"], &[("a", &["i1"], &["b", "a"])], &[]);
    let (failed, _) = engine(2, 2).run(&spider);
    assert_eq!(failed, vec!["b".to_string()]);
    let scrapes = spider.scrape_calls.borrow();
    assert_eq!(scrapes.len(), 2);
    assert_eq!(scrapes[0], "a");
    assert_eq!(scrapes[1], "b");
    assert_eq!(*spider.process_calls.borrow(), vec!["i1".to_string()]);
}

#[test]
fn no_duplicate_visits_under_redundant_discovery() {
    // Both "b" and "c" discover "d", and every page rediscovers the seed;
    // still every URL is scraped exactly once.
    let spider = RecordingSpider::new(
        &["a"],
        &[
            ("a", &[], &["b", "c"]),
            ("b", &[], &["d", "a", "c"]),
            ("c", &[], &["d", "b", "a"]),
            ("d", &[], &["a"]),
        ],
        &[],
    );
    let (failed, _) = engine(3, 1).run(&spider);
    assert!(failed.is_empty());
    let mut scrapes = spider.scrape_calls.borrow().clone();
    scrapes.sort();
    assert_eq!(scrapes, vec!["a", "b", "c", "d"]);
}

#[test]
fn failure_accounting_single_failure() {
    // Scraping fails for "x" and succeeds for every other URL: the failed
    // set is exactly {"x"}, and "x" is scraped only once even though it is
    // discovered again later.
    let spider = RecordingSpider::new(
        &["a"],
        &[("a", &[], &["x", "b"]), ("b", &[], &["x"])],
        &[],
    );
    let (failed, _) = engine(1, 1).run(&spider);
    assert_eq!(failed, vec!["x".to_string()]);
    let scrapes = spider.scrape_calls.borrow();
    assert_eq!(scrapes.iter().filter(|u| u.as_str() == "x").count(), 1);
    assert_eq!(scrapes.len(), 3);
}

#[test]
fn processing_failure_is_isolated() {
    // Item "bad" is rejected by process; the items before and after it are
    // still processed, and the run completes with no failed URLs.
    let spider = RecordingSpider::new(
        &["a"],
        &[("a", &["one", "bad", "two"], &[])],
        &["bad"],
    );
    let (failed, _) = engine(1, 1).run(&spider);
    assert!(failed.is_empty());
    assert_eq!(
        *spider.process_calls.borrow(),
        vec!["one".to_string(), "bad".to_string(), "two".to_string()]
    );
}

#[test]
fn item_burst_beyond_queue_capacity_completes() {
    // With processing_concurrency = 1 the item queue holds 10 items; a
    // single page yielding 25 items must not wedge the pipeline: the run
    // completes and every item is processed, in production order.
    let items: Vec<String> = (0..25).map(|i: i32| format!("item{}", i)).collect();
    let item_refs: Vec<&str> = items.iter().map(|s| s.as_str()).collect();
    let spider = RecordingSpider::new(&["a"], &[("a", item_refs.as_slice(), &[])], &[]);
    let (failed, _) = engine(1, 1).run(&spider);
    assert!(failed.is_empty());
    assert_eq!(*spider.process_calls.borrow(), items);
}

#[test]
fn empty_seed_list_completes_immediately() {
    let spider = RecordingSpider::new(&[], &[], &[]);
    let (failed, _) = engine(1, 1).run(&spider);
    assert!(failed.is_empty());
    assert!(spider.scrape_calls.borrow().is_empty());
    assert!(spider.process_calls.borrow().is_empty());
}

#[test]
fn all_scrapes_fail() {
    // Every seed fails: the failed set lists each seed once, in order of
    // first failure.
    let spider = RecordingSpider::new(&["a", "b"], &[], &[]);
    let (failed, _) = engine(2, 1).run(&spider);
    assert_eq!(failed, vec!["a".to_string(), "b".to_string()]);
}

#[test]
fn table_spider_runs_scenario() {
    // The same concrete scenario through the library's own scripted
    // spider: "b" has no scripted page, so it fails.
    let spider = TableSpider {
        seeds: vec!["a".to_string()],
        entries: vec![TableEntry {
            url: "a".to_string(),
            items: vec!["i1".to_string()],
            discovered: vec!["b".to_string(), "a".to_string()],
        }],
        rejected_items: Vec::new(),
    };
    let (failed, _) = engine(2, 2).run(&spider);
    assert_eq!(failed, vec!["b".to_string()]);
}

#[test]
fn table_spider_chain_completes() {
    let spider = TableSpider {
        seeds: vec!["p1".to_string()],
        entries: vec![
            TableEntry {
                url: "p1".to_string(),
                items: vec!["a1".to_string()],
                discovered: vec!["p2".to_string()],
            },
            TableEntry {
                url: "p2".to_string(),
                items: vec!["a2".to_string()],
                discovered: vec!["p1".to_string()],
            },
        ],
        rejected_items: vec!["a2".to_string()],
    };
    let (failed, _) = engine(4, 4).run(&spider);
    assert!(failed.is_empty());
}
