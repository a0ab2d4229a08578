//! The error type shared by the engine and its spiders.

use vstd::prelude::*;

verus! {

/// An error raised by a spider while fetching, parsing or storing a page.
///
/// The engine never inspects the payload: a `scrape` error marks the URL as
/// failed for the run, and a `process` error is dropped. The variants keep
/// the origin of the fault: malformed data, an internal fault of the spider,
/// an I/O fault, or a fault of the HTTP transport.
#[derive(Debug, Clone)]
pub enum Error {
    BadData(String),
    Internal(String),
    IoError(String),
    Reqwest(String),
}

} // verus!
