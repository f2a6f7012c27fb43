use vstd::prelude::*;
use crate::error::SpiderError;
use crate::extract::{extract, extract_spec, tokens_of, crawl_views};
use crate::frontier::{claims, distinct, seq_views, Frontier, FrontierView};
use crate::scope::{in_scope, in_scope_spec};
use crate::urls::{parse_url, url_parts_of, CrawlUrl};

verus! {

/// Everything fixed for one run: the seed URL (already parsed and
/// normalized), the request-rate budget, whether to follow links to
/// other hosts, whether the caller wants the mail addresses shown, and
/// an optional cap on the number of pages ever claimed for fetching.
pub struct CrawlConfig {
    pub start: CrawlUrl,
    pub requests_per_second: u64,
    pub include_external: bool,
    pub show_mail: bool,
    pub page_cap: Option<u64>,
}

impl CrawlConfig {
    /// Validate the raw configuration. Succeeds exactly when the rate
    /// budget is positive and the seed parses as an absolute URL with
    /// a host; both failures are fatal and abort before any work.
    pub fn new(
        seed: &str,
        requests_per_second: u64,
        include_external: bool,
        show_mail: bool,
        page_cap: Option<u64>,
    ) -> (r: Result<CrawlConfig, SpiderError>)
        ensures
            match r {
                Ok(c) => {
                    &&& requests_per_second >= 1
                    &&& url_parts_of(seed@) == Some((c.start.full@, c.start.host@))
                    &&& c.requests_per_second == requests_per_second
                    &&& c.include_external == include_external
                    &&& c.show_mail == show_mail
                    &&& c.page_cap == page_cap
                },
                Err(_) => requests_per_second == 0 || url_parts_of(seed@) is None,
            },
    {
        if requests_per_second == 0 {
            return Err(SpiderError::new("requests per second must be positive".to_owned()));
        }
        match parse_url(seed) {
            Some(start) => Ok(
                CrawlConfig {
                    start,
                    requests_per_second,
                    include_external,
                    show_mail,
                    page_cap,
                },
            ),
            None => Err(SpiderError::new("the start URL is not a valid absolute URL".to_owned())),
        }
    }
}

/// What the engine asks of its caller next: fetch one URL, wait because
/// other workers still hold in-flight work, or stop — the crawl is done.
pub enum EngineStep {
    Fetch(String),
    Wait,
    Done,
}

/// The mathematical content of the engine: the frontier, the URLs
/// claimed but not yet completed, the count of failed fetches, and
/// whether the caller has cancelled the run.
pub struct EngineView {
    pub frontier: FrontierView,
    pub in_flight: Seq<Seq<char>>,
    pub failed: u64,
    pub cancelled: bool,
}

impl EngineView {
    /// Engine well-formedness: the frontier is well-formed, no URL is
    /// in flight twice, and in-flight URLs were all claimed (visited).
    pub open spec fn wf(self) -> bool {
        &&& self.frontier.wf()
        &&& distinct(self.in_flight)
        &&& forall|i: int|
            0 <= i < self.in_flight.len() ==> self.frontier.visited.contains(
                #[trigger] self.in_flight[i],
            )
    }
}

/// Offer a sequence of candidate links to a frontier, in order, keeping
/// only those the scope rule accepts.
pub open spec fn offer_links_spec(
    f: FrontierView,
    links: Seq<(Seq<char>, Seq<char>)>,
    origin: Seq<char>,
    allow: bool,
) -> FrontierView
    decreases links.len(),
{
    if links.len() == 0 {
        f
    } else {
        let g = offer_links_spec(f, links.drop_last(), origin, allow);
        let l = links.last();
        if in_scope_spec(l.1, origin, allow) {
            g.offer_spec(l.0)
        } else {
            g
        }
    }
}

/// Record a sequence of mail addresses in a frontier, in order.
pub open spec fn record_emails_spec(f: FrontierView, es: Seq<Seq<char>>) -> FrontierView
    decreases es.len(),
{
    if es.len() == 0 {
        f
    } else {
        record_emails_spec(f, es.drop_last()).record_spec(es.last())
    }
}

/// What completing the page `u` does to an engine state: the addresses
/// and the in-scope links the page yielded enter the frontier, and `u`
/// leaves the in-flight set.
pub open spec fn complete_transition(
    e: EngineView,
    e2: EngineView,
    u: Seq<char>,
    links: Seq<(Seq<char>, Seq<char>)>,
    emails: Seq<Seq<char>>,
    origin: Seq<char>,
    allow: bool,
) -> bool {
    &&& e2.frontier == record_emails_spec(offer_links_spec(e.frontier, links, origin, allow), emails)
    &&& e2.in_flight == e.in_flight.remove_value(u)
    &&& e2.failed == e.failed
}

/// The crawl engine: it owns the frontier, hands out fetch work one URL
/// at a time, folds each page's findings back in, and detects the end
/// of the crawl — nothing pending and no worker holding work.
pub struct CrawlEngine {
    config: CrawlConfig,
    frontier: Frontier,
    in_flight: Vec<String>,
    failed: u64,
    cancelled: bool,
}

impl View for CrawlEngine {
    type V = EngineView;

    closed spec fn view(&self) -> EngineView {
        EngineView {
            frontier: self.frontier@,
            in_flight: seq_views(self.in_flight@),
            failed: self.failed,
            cancelled: self.cancelled,
        }
    }
}

impl CrawlEngine {
    /// The configuration this engine runs under.
    pub closed spec fn config_spec(&self) -> CrawlConfig {
        self.config
    }

    /// Well-formedness of the running engine.
    pub open spec fn wf(&self) -> bool {
        self@.wf()
    }

    /// The page cap has been reached: as many pages were claimed as the
    /// cap allows. Never true while the cap is unset.
    pub open spec fn cap_reached(&self) -> bool {
        match self.config_spec().page_cap {
            Some(c) => self@.frontier.visited.len() >= c,
            None => false,
        }
    }

    /// No more work is handed out: the cap was reached or the caller
    /// cancelled the run. In-flight work still completes normally.
    pub open spec fn halted(&self) -> bool {
        self.cap_reached() || self@.cancelled
    }

    /// Seed a fresh engine: the frontier starts with exactly the
    /// configured start URL pending, nothing visited, nothing in
    /// flight, no failures.
    pub fn new(config: CrawlConfig) -> (r: CrawlEngine)
        ensures
            r.wf(),
            r.config_spec() == config,
            r@.frontier.pending =~= seq![config.start.full@],
            r@.frontier.visited.len() == 0,
            r@.frontier.emails.len() == 0,
            r@.in_flight.len() == 0,
            r@.failed == 0,
            !r@.cancelled,
    {
        let mut frontier = Frontier::new();
        let start = config.start.full.clone();
        frontier.offer(start);
        let r = CrawlEngine {
            config,
            frontier,
            in_flight: Vec::new(),
            failed: 0,
            cancelled: false,
        };
        proof {
            assert(r@.in_flight =~= Seq::<Seq<char>>::empty());
            assert(r@.frontier.pending =~= seq![r.config.start.full@]);
        }
        r
    }

    /// Read access to the configuration.
    pub fn config(&self) -> (r: &CrawlConfig)
        ensures
            *r == self.config_spec(),
    {
        &self.config
    }

    /// Hand out the next unit of work. `Fetch(u)` claims the pending
    /// URL `u` — atomically moved to `visited`, never handed out again
    /// — and marks it in flight. `Wait` means nothing can be claimed
    /// now (drained or cap reached) but workers still hold in-flight
    /// work, so new URLs may yet arrive. `Done` means nothing is
    /// pending or claimable and nobody holds work: the crawl is over.
    pub fn next_task(&mut self) -> (r: EngineStep)
        requires
            old(self).wf(),
        ensures
            final(self).wf(),
            final(self).config_spec() == old(self).config_spec(),
            match r {
                EngineStep::Fetch(u) => {
                    &&& !old(self).halted()
                    &&& claims(old(self)@.frontier, final(self)@.frontier, u@)
                    &&& final(self)@.in_flight == old(self)@.in_flight.push(u@)
                    &&& final(self)@.failed == old(self)@.failed
                    &&& final(self)@.cancelled == old(self)@.cancelled
                },
                EngineStep::Wait => {
                    &&& final(self)@ == old(self)@
                    &&& old(self)@.in_flight.len() > 0
                    &&& (old(self).halted() || old(self)@.frontier.pending.len() == 0)
                },
                EngineStep::Done => {
                    &&& final(self)@ == old(self)@
                    &&& old(self)@.in_flight.len() == 0
                    &&& (old(self).halted() || old(self)@.frontier.pending.len() == 0)
                },
            },
    {
        let capped = self.cancelled || match self.config.page_cap {
            Some(c) => self.frontier.visited_urls().len() as u64 >= c,
            None => false,
        };
        if !capped {
            let ghost pre = self@;
            match self.frontier.try_claim_next() {
                Some(u) => {
                    let handed = u.clone();
                    self.in_flight.push(u);
                    proof {
                        assert(self@.in_flight =~= pre.in_flight.push(handed@));
                        assert(self@.frontier.visited.last() == handed@);
                        assert forall|i: int| 0 <= i < self@.in_flight.len() implies self@
                            .frontier.visited.contains(#[trigger] self@.in_flight[i]) by {
                            if i < pre.in_flight.len() {
                                assert(pre.frontier.visited.contains(pre.in_flight[i]));
                                let k = choose|k: int|
                                    0 <= k < pre.frontier.visited.len()
                                        && pre.frontier.visited[k] == pre.in_flight[i];
                                assert(self@.frontier.visited[k] == pre.in_flight[i]);
                            } else {
                                let n = self@.frontier.visited.len();
                                assert(self@.frontier.visited[n - 1] == handed@);
                            }
                        }
                        assert forall|i: int, j: int|
                            0 <= i < j < self@.in_flight.len() implies self@.in_flight[i]
                            != self@.in_flight[j] by {
                            if j == pre.in_flight.len() {
                                assert(self@.in_flight[j] == handed@);
                                assert(pre.frontier.visited.contains(pre.in_flight[i]));
                                assert(!pre.frontier.visited.contains(
                                    pre.frontier.pending.last(),
                                ));
                            }
                        }
                    }
                    return EngineStep::Fetch(handed);
                },
                None => {},
            }
        }
        if self.in_flight.len() == 0 {
            EngineStep::Done
        } else {
            EngineStep::Wait
        }
    }

    /// Cancel the run: no further URL is ever handed out, in-flight
    /// fetches complete normally, and the frontier is untouched —
    /// cancellation never corrupts the collected results.
    pub fn cancel(&mut self)
        requires
            old(self).wf(),
        ensures
            final(self).wf(),
            final(self).config_spec() == old(self).config_spec(),
            final(self)@.frontier == old(self)@.frontier,
            final(self)@.in_flight == old(self)@.in_flight,
            final(self)@.failed == old(self)@.failed,
            final(self)@.cancelled,
    {
        self.cancelled = true;
    }

    /// Is this URL currently claimed and awaiting completion?
    pub fn is_in_flight(&self, url: &String) -> (r: bool)
        ensures
            r == self@.in_flight.contains(url@),
    {
        let n = self.in_flight.len();
        let mut i: usize = 0;
        while i < n
            invariant
                n == self.in_flight@.len(),
                i <= n,
                forall|j: int| 0 <= j < i ==> seq_views(self.in_flight@)[j] != url@,
            decreases n - i,
        {
            proof {
                assert(seq_views(self.in_flight@)[i as int] == self.in_flight@[i as int]@);
            }
            if self.in_flight[i] == *url {
                return true;
            }
            i += 1;
        }
        false
    }

    /// Fold a successfully fetched page back in: extract its tokens,
    /// resolve candidates against the page URL, offer the links the
    /// scope rule accepts (judged against the seed's host, never the
    /// page's), record every mail address, and release the URL from the
    /// in-flight set. Addresses are always collected; the show-mail
    /// flag governs output only.
    pub fn complete_fetched(&mut self, url: &String, body: &str)
        requires
            old(self).wf(),
            old(self)@.in_flight.contains(url@),
        ensures
            final(self).wf(),
            final(self).config_spec() == old(self).config_spec(),
            final(self)@.cancelled == old(self)@.cancelled,
            complete_transition(
                old(self)@,
                final(self)@,
                url@,
                extract_spec(tokens_of(body@), url@).0,
                extract_spec(tokens_of(body@), url@).1,
                old(self).config_spec().start.host@,
                old(self).config_spec().include_external,
            ),
    {
        let ghost pre = self@;
        let ghost glinks = extract_spec(tokens_of(body@), url@).0;
        let ghost gmails = extract_spec(tokens_of(body@), url@).1;
        let (links, emails) = extract(body, url.as_str());
        let ghost origin = self.config.start.host@;
        let ghost allow = self.config.include_external;

        let n = links.len();
        let mut i: usize = 0;
        proof {
            assert(crawl_views(links@).subrange(0, 0) =~= Seq::<(Seq<char>, Seq<char>)>::empty());
        }
        while i < n
            invariant
                n == links@.len(),
                i <= n,
                crawl_views(links@) == glinks,
                origin == self.config.start.host@,
                allow == self.config.include_external,
                self.config == old(self).config_spec(),
                self@.frontier.wf(),
                self@.frontier == offer_links_spec(
                    pre.frontier,
                    glinks.subrange(0, i as int),
                    origin,
                    allow,
                ),
                self@.in_flight == pre.in_flight,
                self@.failed == pre.failed,
                self@.cancelled == pre.cancelled,
            decreases n - i,
        {
            let ghost curpre = glinks.subrange(0, i as int);
            let ghost cur = glinks.subrange(0, i as int + 1);
            proof {
                assert(cur.drop_last() =~= curpre);
                assert(glinks[i as int] == (links@[i as int].full@, links@[i as int].host@));
                assert(cur.last() == glinks[i as int]);
            }
            let link = &links[i];
            if in_scope(link.host.as_str(), self.config.start.host.as_str(), self.config.include_external) {
                self.frontier.offer(link.full.clone());
            }
            i += 1;
        }
        proof {
            assert(glinks.subrange(0, n as int) =~= glinks);
        }

        let ghost mid = self@.frontier;
        let m = emails.len();
        let mut k: usize = 0;
        while k < m
            invariant
                m == emails@.len(),
                k <= m,
                seq_views(emails@) == gmails,
                self.config == old(self).config_spec(),
                self@.frontier.wf(),
                self@.frontier == record_emails_spec(mid, gmails.subrange(0, k as int)),
                self@.in_flight == pre.in_flight,
                self@.failed == pre.failed,
                self@.cancelled == pre.cancelled,
            decreases m - k,
        {
            let ghost curpre = gmails.subrange(0, k as int);
            let ghost cur = gmails.subrange(0, k as int + 1);
            proof {
                assert(cur.drop_last() =~= curpre);
                assert(gmails[k as int] == emails@[k as int]@);
                assert(cur.last() == gmails[k as int]);
            }
            self.frontier.record_email(emails[k].clone());
            k += 1;
        }
        proof {
            assert(gmails.subrange(0, m as int) =~= gmails);
            assert(mid.visited == pre.frontier.visited) by {
                lemma_offer_links_visited(pre.frontier, glinks, origin, allow);
            }
            assert(self@.frontier.visited == pre.frontier.visited) by {
                lemma_record_emails_frontier(mid, gmails);
            }
        }

        self.release(url);
    }

    /// Record a failed fetch: the failure is counted (saturating), the
    /// URL stays visited — the attempt happened and is never retried —
    /// and the URL leaves the in-flight set. The frontier's URL and
    /// mail sets are untouched.
    pub fn complete_failed(&mut self, url: &String)
        requires
            old(self).wf(),
            old(self)@.in_flight.contains(url@),
        ensures
            final(self).wf(),
            final(self).config_spec() == old(self).config_spec(),
            final(self)@.frontier == old(self)@.frontier,
            final(self)@.in_flight == old(self)@.in_flight.remove_value(url@),
            final(self)@.cancelled == old(self)@.cancelled,
            final(self)@.failed == if old(self)@.failed < u64::MAX {
                (old(self)@.failed + 1) as u64
            } else {
                u64::MAX
            },
    {
        if self.failed < u64::MAX {
            self.failed = self.failed + 1;
        }
        self.release(url);
    }

    /// Drop one in-flight URL from the in-flight set.
    #[verifier::loop_isolation(false)]
    fn release(&mut self, url: &String)
        requires
            old(self).wf(),
            old(self)@.in_flight.contains(url@),
        ensures
            final(self).wf(),
            final(self).config_spec() == old(self).config_spec(),
            final(self)@.frontier == old(self)@.frontier,
            final(self)@.in_flight == old(self)@.in_flight.remove_value(url@),
            final(self)@.failed == old(self)@.failed,
            final(self)@.cancelled == old(self)@.cancelled,
    {
        let ghost pre = self@;
        let n = self.in_flight.len();
        let mut i: usize = 0;
        while i < n
            invariant
                n == self.in_flight@.len(),
                i <= n,
                pre == self@,
                self.config == old(self).config_spec(),
                pre.in_flight.contains(url@),
                forall|j: int| 0 <= j < i ==> seq_views(self.in_flight@)[j] != url@,
            decreases n - i,
        {
            proof {
                assert(seq_views(self.in_flight@)[i as int] == self.in_flight@[i as int]@);
            }
            if self.in_flight[i] == *url {
                proof {
                    pre.in_flight.index_of_first_ensures(url@);
                    let f = pre.in_flight.index_of_first(url@).unwrap();
                    assert(pre.in_flight[f] == url@);
                    assert(f == i);
                }
                let ghost vecpre = self.in_flight@;
                self.in_flight.remove(i);
                proof {
                    vecpre.remove_ensures(i as int);
                    pre.in_flight.remove_ensures(i as int);
                    assert forall|j: int| 0 <= j < self@.in_flight.len() implies self@
                        .in_flight[j] == pre.in_flight.remove(i as int)[j] by {
                        assert(seq_views(self.in_flight@)[j] == self.in_flight@[j]@);
                        assert(seq_views(vecpre)[j] == vecpre[j]@);
                        assert(seq_views(vecpre)[j + 1] == vecpre[j + 1]@);
                    }
                    assert(self@.in_flight =~= pre.in_flight.remove(i as int));
                    assert(self@.in_flight == pre.in_flight.remove_value(url@));
                    assert forall|a: int, b: int|
                        0 <= a < b < self@.in_flight.len() implies self@.in_flight[a]
                        != self@.in_flight[b] by {
                        assert(self@.in_flight[a] == if a < i as int {
                            pre.in_flight[a]
                        } else {
                            pre.in_flight[a + 1]
                        });
                        assert(self@.in_flight[b] == if b < i as int {
                            pre.in_flight[b]
                        } else {
                            pre.in_flight[b + 1]
                        });
                    }
                    assert forall|a: int| 0 <= a < self@.in_flight.len() implies self@
                        .frontier.visited.contains(#[trigger] self@.in_flight[a]) by {
                        assert(self@.in_flight[a] == if a < i as int {
                            pre.in_flight[a]
                        } else {
                            pre.in_flight[a + 1]
                        });
                    }
                }
                return;
            }
            i += 1;
        }
        proof {
            let w = choose|w: int|
                0 <= w < pre.in_flight.len() && pre.in_flight[w] == url@;
            assert(seq_views(self.in_flight@)[w] == url@);
            assert(false);
        }
    }

    /// The URLs visited so far, in claim order.
    pub fn visited_urls(&self) -> (r: &Vec<String>)
        ensures
            seq_views(r@) == self@.frontier.visited,
    {
        self.frontier.visited_urls()
    }

    /// The mail addresses collected so far, in discovery order.
    pub fn emails(&self) -> (r: &Vec<String>)
        ensures
            seq_views(r@) == self@.frontier.emails,
    {
        self.frontier.emails()
    }

    /// How many fetches failed over the run so far.
    pub fn failed_count(&self) -> (r: u64)
        ensures
            r == self@.failed,
    {
        self.failed
    }
}

/// Offering links never touches `visited` or `emails`.
pub proof fn lemma_offer_links_visited(
    f: FrontierView,
    links: Seq<(Seq<char>, Seq<char>)>,
    origin: Seq<char>,
    allow: bool,
)
    ensures
        offer_links_spec(f, links, origin, allow).visited == f.visited,
        offer_links_spec(f, links, origin, allow).emails == f.emails,
    decreases links.len(),
{
    if links.len() > 0 {
        lemma_offer_links_visited(f, links.drop_last(), origin, allow);
    }
}

/// Recording addresses never touches `pending` or `visited`.
pub proof fn lemma_record_emails_frontier(f: FrontierView, es: Seq<Seq<char>>)
    ensures
        record_emails_spec(f, es).visited == f.visited,
        record_emails_spec(f, es).pending == f.pending,
    decreases es.len(),
{
    if es.len() > 0 {
        lemma_record_emails_frontier(f, es.drop_last());
    }
}

} // verus!
