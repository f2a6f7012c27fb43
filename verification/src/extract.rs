use vstd::prelude::*;
use crate::urls::{resolve_spec, resolve_candidate, CrawlUrl};
use crate::frontier::seq_views;

verus! {

/// The tokens that the link scanner finds in a page text, in order:
/// each token's characters, paired with `true` when it is a mail-like
/// token and `false` when it is a link-like token. A function of the
/// text alone.
pub uninterp spec fn tokens_of(body: Seq<char>) -> Seq<(Seq<char>, bool)>;

/// Relies on `linkify::LinkFinder::links` with optional URL schemes
/// (`url_must_have_scheme(false)`) and on `Link::as_str` and
/// `Link::kind`: the tokens found, their order and their kinds depend
/// on the text alone, and an empty text holds no tokens.
#[verifier::external_body]
fn find_tokens(body: &str) -> (r: Vec<(String, bool)>)
    ensures
        r@.map_values(|t: (String, bool)| (t.0@, t.1)) == tokens_of(body@),
        body@.len() == 0 ==> r@.len() == 0,
{
    let mut finder = linkify::LinkFinder::new();
    finder.url_must_have_scheme(false);
    finder
        .links(body)
        .map(|l| (l.as_str().to_owned(), matches!(l.kind(), linkify::LinkKind::Email)))
        .collect()
}

/// The views of a sequence of crawl URLs: (serialization, host) pairs.
pub open spec fn crawl_views(v: Seq<CrawlUrl>) -> Seq<(Seq<char>, Seq<char>)> {
    v.map_values(|u: CrawlUrl| (u.full@, u.host@))
}

/// What extraction yields from a token sequence: mail-like tokens go to
/// the second component; link-like tokens are resolved against `base`
/// and, when that succeeds, their (serialization, host) pairs go to the
/// first component in order.
pub open spec fn extract_spec(toks: Seq<(Seq<char>, bool)>, base: Seq<char>) -> (
    Seq<(Seq<char>, Seq<char>)>,
    Seq<Seq<char>>,
)
    decreases toks.len(),
{
    if toks.len() == 0 {
        (Seq::empty(), Seq::empty())
    } else {
        let prev = extract_spec(toks.drop_last(), base);
        let t = toks.last();
        if t.1 {
            (prev.0, prev.1.push(t.0))
        } else {
            match resolve_spec(t.0, base) {
                Some(p) => (prev.0.push(p), prev.1),
                None => prev,
            }
        }
    }
}

/// Scan a page text for link-like and mail-like tokens. Mail-like
/// tokens are returned as addresses; link-like tokens are resolved to
/// absolute URLs against the page URL `base` (candidates that resolve
/// to nothing are dropped). An empty body yields two empty sequences.
/// Stateless: the outcome depends on `body` and `base` alone.
pub fn extract(body: &str, base: &str) -> (r: (Vec<CrawlUrl>, Vec<String>))
    ensures
        crawl_views(r.0@) == extract_spec(tokens_of(body@), base@).0,
        seq_views(r.1@) == extract_spec(tokens_of(body@), base@).1,
        body@.len() == 0 ==> r.0@.len() == 0 && r.1@.len() == 0,
{
    let toks = find_tokens(body);
    let ghost tview = tokens_of(body@);
    let mut links: Vec<CrawlUrl> = Vec::new();
    let mut emails: Vec<String> = Vec::new();
    proof {
        assert(crawl_views(links@) =~= extract_spec(tview.subrange(0, 0), base@).0);
        assert(seq_views(emails@) =~= extract_spec(tview.subrange(0, 0), base@).1);
    }
    let n = toks.len();
    let mut i: usize = 0;
    while i < n
        invariant
            n == toks@.len(),
            i <= n,
            tview == toks@.map_values(|t: (String, bool)| (t.0@, t.1)),
            crawl_views(links@) == extract_spec(tview.subrange(0, i as int), base@).0,
            seq_views(emails@) == extract_spec(tview.subrange(0, i as int), base@).1,
        decreases n - i,
    {
        let ghost pre = tview.subrange(0, i as int);
        let ghost cur = tview.subrange(0, i as int + 1);
        proof {
            assert(cur.drop_last() =~= pre);
            assert(tview[i as int] == (toks@[i as int].0@, toks@[i as int].1));
            assert(cur.last() == tview[i as int]);
        }
        let t = &toks[i];
        if t.1 {
            emails.push(t.0.clone());
            proof {
                assert(seq_views(emails@) =~= extract_spec(cur, base@).1);
            }
        } else {
            match resolve_candidate(t.0.as_str(), base) {
                Some(u) => {
                    links.push(u);
                    proof {
                        assert(crawl_views(links@) =~= extract_spec(cur, base@).0);
                    }
                },
                None => {},
            }
        }
        i += 1;
    }
    proof {
        assert(tview.subrange(0, n as int) =~= tview);
    }
    (links, emails)
}

} // verus!
