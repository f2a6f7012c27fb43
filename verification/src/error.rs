use vstd::prelude::*;

verus! {

/// The one error type that the crawl surfaces to its caller.
/// Only configuration problems are fatal; per-page fetch failures are
/// counted by the engine and never become a `SpiderError`.
#[derive(Debug)]
pub struct SpiderError {
    msg: String,
}

impl View for SpiderError {
    type V = Seq<char>;

    closed spec fn view(&self) -> Seq<char> {
        self.msg@
    }
}

impl SpiderError {
    /// Wrap a message describing what went wrong.
    pub fn new(msg: String) -> (r: SpiderError)
        ensures
            r@ == msg@,
    {
        SpiderError { msg }
    }

    /// The human-readable description carried by this error.
    pub fn message(&self) -> (r: &str)
        ensures
            r@ == self@,
    {
        self.msg.as_str()
    }
}

} // verus!
