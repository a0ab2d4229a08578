use std::time::Duration;

use svt_scraper::error::Error;
use svt_scraper::frontier::Frontier;
use svt_scraper::queue::ItemQueue;
use svt_scraper::spiders::svt::domain::{Auto, Content, Page, Pagination};
use svt_scraper::spiders::{Spider, TableEntry, TableSpider};
use svt_scraper::Crawler;

fn strings(v: &[&str]) -> Vec<String> {
    v.iter().map(|s| s.to_string()).collect()
}

#[test]
fn crawler_queue_capacities() {
    let c = Crawler::new(Duration::from_millis(5), 3, 2);
    assert_eq!(c.crawling_queue_capacity(), 1200);
    assert_eq!(c.processing_queue_capacity(), 20);
    assert_eq!(c.delay, Duration::from_millis(5));
}

#[test]
fn crawler_default_configuration() {
    let c = Crawler::default();
    assert_eq!(c.crawling_concurrency, 2);
    assert_eq!(c.processing_concurrency, 500);
    assert_eq!(c.delay, Duration::from_millis(200));
    assert_eq!(c.crawling_queue_capacity(), 800);
    assert_eq!(c.processing_queue_capacity(), 5000);
}

#[test]
fn frontier_seeds_then_hands_out_in_order() {
    let mut f = Frontier::new();
    f.seed(&strings(&["a", "b"]));
    assert_eq!(f.pending_len(), 2);
    assert_eq!(f.pop_pending(), Some("a".to_string()));
    assert_eq!(f.pop_pending(), Some("b".to_string()));
    assert_eq!(f.pop_pending(), None);
}

#[test]
fn frontier_knows_what_it_admitted() {
    let mut f = Frontier::new();
    assert!(!f.is_visited(&"a".to_string()));
    f.seed(&strings(&["a"]));
    assert!(f.is_visited(&"a".to_string()));
    assert!(!f.is_visited(&"b".to_string()));
    let a = f.pop_pending().unwrap();
    f.record_result(&a, false, &strings(&["b"]));
    assert!(f.is_visited(&"b".to_string()));
    assert!(f.is_visited(&"a".to_string()));
}

#[test]
fn frontier_drops_duplicate_discoveries() {
    let mut f = Frontier::new();
    f.seed(&strings(&["a"]));
    let a = f.pop_pending().unwrap();
    // "a" rediscovers itself and "b" twice; only one "b" is admitted.
    f.record_result(&a, false, &strings(&["b", "a", "b"]));
    assert_eq!(f.pending_len(), 1);
    let b = f.pop_pending().unwrap();
    assert_eq!(b, "b");
    f.record_result(&b, false, &strings(&["a", "b"]));
    assert_eq!(f.pending_len(), 0);
    assert!(f.failed_urls().is_empty());
}

#[test]
fn frontier_records_failure_once() {
    let mut f = Frontier::new();
    f.seed(&strings(&["a"]));
    let a = f.pop_pending().unwrap();
    f.record_result(&a, true, &Vec::new());
    f.record_result(&a, true, &Vec::new());
    assert_eq!(f.failed_urls(), strings(&["a"]));
}

#[test]
fn frontier_quiescence_needs_all_three() {
    let mut f = Frontier::new();
    f.seed(&strings(&["a"]));
    assert!(!f.is_quiescent(0, 0));
    let a = f.pop_pending().unwrap();
    assert!(!f.is_quiescent(1, 0));
    assert!(!f.is_quiescent(0, 1));
    assert!(f.is_quiescent(0, 0));
    f.record_result(&a, false, &strings(&["b"]));
    assert!(!f.is_quiescent(0, 0));
}

#[test]
fn item_queue_backpressure_at_capacity() {
    let mut q: ItemQueue<String> = ItemQueue::new(3);
    assert_eq!(q.capacity(), 3);
    assert_eq!(q.try_push("1".to_string()), None);
    assert_eq!(q.try_push("2".to_string()), None);
    assert_eq!(q.try_push("3".to_string()), None);
    // Full: the producer is refused and keeps its item.
    assert_eq!(q.try_push("4".to_string()), Some("4".to_string()));
    assert_eq!(q.len(), 3);
    // One consumption re-enables the producer.
    assert_eq!(q.pop(), Some("1".to_string()));
    assert_eq!(q.try_push("4".to_string()), None);
    assert_eq!(q.len(), 3);
}

#[test]
fn item_queue_is_first_in_first_out() {
    let mut q: ItemQueue<u64> = ItemQueue::new(10);
    q.push(5);
    q.push(6);
    q.push(7);
    assert_eq!(q.pop(), Some(5));
    assert_eq!(q.pop(), Some(6));
    assert_eq!(q.pop(), Some(7));
    assert_eq!(q.pop(), None);
}

#[test]
fn table_spider_scrapes_scripted_pages_only() {
    let spider = TableSpider {
        seeds: strings(&["a"]),
        entries: vec![TableEntry {
            url: "a".to_string(),
            items: strings(&["i1", "i2"]),
            discovered: strings(&["b"]),
        }],
        rejected_items: strings(&["i2"]),
    };
    assert_eq!(spider.start_urls(), strings(&["a"]));
    let (items, discovered) = spider.scrape("a".to_string()).unwrap();
    assert_eq!(items, strings(&["i1", "i2"]));
    assert_eq!(discovered, strings(&["b"]));
    assert!(spider.scrape("b".to_string()).is_err());
    assert!(spider.process("i1".to_string()).is_ok());
    assert!(spider.process("i2".to_string()).is_err());
}

#[test]
fn error_variants_carry_their_message() {
    let e = Error::BadData("payload".to_string());
    let e2 = e.clone();
    match e2 {
        Error::BadData(msg) => assert_eq!(msg, "payload"),
        _ => panic!("wrong variant"),
    }
    match Error::Reqwest("transport".to_string()) {
        Error::Reqwest(msg) => assert_eq!(msg, "transport"),
        _ => panic!("wrong variant"),
    }
    match Error::IoError("disk".to_string()) {
        Error::IoError(msg) => assert_eq!(msg, "disk"),
        _ => panic!("wrong variant"),
    }
    match Error::Internal("fault".to_string()) {
        Error::Internal(msg) => assert_eq!(msg, "fault"),
        _ => panic!("wrong variant"),
    }
}

#[test]
fn listing_page_shapes_hold_their_fields() {
    let page = Page {
        auto: Auto {
            pagination: Pagination { total_available_items: 12 },
            content: vec![
                Content { url: Some("https://www.svt.se/x".to_string()), published: None },
                Content { url: None, published: Some("2020-01-01".to_string()) },
            ],
        },
    };
    assert_eq!(page.auto.pagination.total_available_items, 12);
    assert_eq!(page.auto.content.len(), 2);
    assert_eq!(page.auto.content[0].url.as_deref(), Some("https://www.svt.se/x"));
    assert!(page.auto.content[1].url.is_none());
}
