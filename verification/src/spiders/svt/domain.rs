//! Plain data shapes of the svt.se listing API.

use vstd::prelude::*;

verus! {

/// One listing page of the svt.se API.
#[derive(Debug)]
pub struct Page {
    pub auto: Auto,
}

/// The automatically curated feed of a listing page.
#[derive(Debug)]
pub struct Auto {
    pub pagination: Pagination,
    pub content: Vec<Content>,
}

/// One entry of a listing feed: a link to an article, when present.
#[derive(Debug)]
pub struct Content {
    pub url: Option<String>,
    pub published: Option<String>,
}

/// Paging information of a listing feed.
#[derive(Debug)]
pub struct Pagination {
    pub total_available_items: u32,
}

} // verus!
