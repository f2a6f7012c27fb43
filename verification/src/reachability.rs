use vstd::prelude::*;
use vstd::set_lib::lemma_len_subset;
use crate::engine::{
    complete_transition, lemma_offer_links_visited, lemma_record_emails_frontier,
    offer_links_spec, record_emails_spec, EngineView,
};
use crate::frontier::{claims, frontier_step, lemma_step_preserves, FrontierView};
use crate::scope::in_scope_spec;

verus! {

/// A URL is known to a frontier when it is pending or visited.
pub open spec fn fknown(f: FrontierView, x: Seq<char>) -> bool {
    f.pending.contains(x) || f.visited.contains(x)
}

/// A URL is known to an engine state when its frontier knows it.
pub open spec fn known(e: EngineView, x: Seq<char>) -> bool {
    fknown(e.frontier, x)
}

/// A set of URLs is crawl-closed for a link graph: it holds the seed,
/// and with every member it holds every in-scope link of that member's
/// page. `graph` maps each page URL to the (URL, host) pairs its page
/// yields after extraction and resolution; the reachable part of the
/// site is the least crawl-closed set.
pub open spec fn closed_set(
    graph: Map<Seq<char>, Seq<(Seq<char>, Seq<char>)>>,
    origin: Seq<char>,
    allow: bool,
    seed: Seq<char>,
    cs: Set<Seq<char>>,
) -> bool {
    &&& cs.contains(seed)
    &&& forall|u: Seq<char>, i: int|
        #![trigger cs.contains(u), graph[u][i]]
        cs.contains(u) && 0 <= i < graph[u].len() && in_scope_spec(graph[u][i].1, origin, allow)
            ==> cs.contains(graph[u][i].0)
}

/// Every in-scope link of page `u` is already known to the engine.
pub open spec fn page_covered(
    e: EngineView,
    graph: Map<Seq<char>, Seq<(Seq<char>, Seq<char>)>>,
    origin: Seq<char>,
    allow: bool,
    u: Seq<char>,
) -> bool {
    forall|i: int|
        0 <= i < graph[u].len() && in_scope_spec((#[trigger] graph[u][i]).1, origin, allow)
            ==> known(e, graph[u][i].0)
}

/// The crawl invariant, relative to a link graph: the engine is
/// well-formed, the seed is known, every visited page whose worker has
/// finished has all its in-scope links known, and everything known
/// lies inside every crawl-closed set — so the crawl never strays off
/// the reachable part of the site.
pub open spec fn crawl_inv(
    e: EngineView,
    graph: Map<Seq<char>, Seq<(Seq<char>, Seq<char>)>>,
    origin: Seq<char>,
    allow: bool,
    seed: Seq<char>,
) -> bool {
    &&& e.wf()
    &&& known(e, seed)
    &&& forall|u: Seq<char>|
        #![trigger e.in_flight.contains(u)]
        e.frontier.visited.contains(u) && !e.in_flight.contains(u) ==> page_covered(
            e,
            graph,
            origin,
            allow,
            u,
        )
    &&& forall|cs: Set<Seq<char>>, x: Seq<char>|
        #![trigger closed_set(graph, origin, allow, seed, cs), cs.contains(x)]
        closed_set(graph, origin, allow, seed, cs) && known(e, x) ==> cs.contains(x)
}

/// Offering one URL makes it known, keeps everything known, adds
/// nothing else, and leaves `visited` alone.
proof fn lemma_offer_spec_known(f: FrontierView, u: Seq<char>)
    ensures
        fknown(f.offer_spec(u), u),
        forall|x: Seq<char>| fknown(f, x) ==> fknown(f.offer_spec(u), x),
        forall|x: Seq<char>| fknown(f.offer_spec(u), x) ==> fknown(f, x) || x == u,
        f.offer_spec(u).visited == f.visited,
{
    let g = f.offer_spec(u);
    if !f.contains_url(u) {
        assert(f.pending.push(u)[f.pending.len() as int] == u);
        assert forall|x: Seq<char>| fknown(f, x) implies fknown(g, x) by {
            if f.pending.contains(x) {
                let k = choose|k: int| 0 <= k < f.pending.len() && f.pending[k] == x;
                assert(g.pending[k] == x);
            }
        }
        assert forall|x: Seq<char>| fknown(g, x) implies fknown(f, x) || x == u by {
            if g.pending.contains(x) {
                let k = choose|k: int| 0 <= k < g.pending.len() && g.pending[k] == x;
                if k < f.pending.len() {
                    assert(f.pending[k] == x);
                }
            }
        }
    }
}

/// Offering a link sequence keeps everything known, makes every
/// in-scope link known, and adds nothing but in-scope links.
proof fn lemma_offer_links_known(
    f: FrontierView,
    links: Seq<(Seq<char>, Seq<char>)>,
    origin: Seq<char>,
    allow: bool,
)
    ensures
        forall|x: Seq<char>|
            fknown(f, x) ==> fknown(offer_links_spec(f, links, origin, allow), x),
        forall|i: int|
            0 <= i < links.len() && in_scope_spec((#[trigger] links[i]).1, origin, allow)
                ==> fknown(offer_links_spec(f, links, origin, allow), links[i].0),
        forall|x: Seq<char>|
            fknown(offer_links_spec(f, links, origin, allow), x) ==> fknown(f, x) || exists|i: int|
                0 <= i < links.len() && (#[trigger] links[i]).0 == x && in_scope_spec(
                    links[i].1,
                    origin,
                    allow,
                ),
    decreases links.len(),
{
    if links.len() > 0 {
        let rest = links.drop_last();
        let g = offer_links_spec(f, rest, origin, allow);
        let whole = offer_links_spec(f, links, origin, allow);
        let l = links.last();
        lemma_offer_links_known(f, rest, origin, allow);
        assert(forall|i: int| 0 <= i < rest.len() ==> rest[i] == links[i]);
        if in_scope_spec(l.1, origin, allow) {
            lemma_offer_spec_known(g, l.0);
            assert(links[links.len() - 1] == l);
        }
        assert forall|i: int|
            0 <= i < links.len() && in_scope_spec((#[trigger] links[i]).1, origin, allow)
            implies fknown(whole, links[i].0) by {
            if i < links.len() - 1 {
                assert(fknown(g, links[i].0));
            }
        }
        assert forall|x: Seq<char>| fknown(whole, x) implies fknown(f, x) || exists|i: int|
            0 <= i < links.len() && (#[trigger] links[i]).0 == x && in_scope_spec(
                links[i].1,
                origin,
                allow,
            ) by {
            if !fknown(f, x) {
                if fknown(g, x) {
                    let i = choose|i: int|
                        0 <= i < rest.len() && (#[trigger] rest[i]).0 == x && in_scope_spec(
                            rest[i].1,
                            origin,
                            allow,
                        );
                    assert(links[i].0 == x && in_scope_spec(links[i].1, origin, allow));
                } else {
                    assert(x == l.0);
                    assert(links[links.len() - 1].0 == x);
                }
            }
        }
    }
}

/// Recording addresses changes what is known to nothing.
proof fn lemma_record_emails_known(f: FrontierView, es: Seq<Seq<char>>)
    ensures
        forall|x: Seq<char>| fknown(record_emails_spec(f, es), x) == fknown(f, x),
{
    lemma_record_emails_frontier(f, es);
}

/// Offering a link sequence preserves frontier well-formedness.
proof fn lemma_offer_links_wf(
    f: FrontierView,
    links: Seq<(Seq<char>, Seq<char>)>,
    origin: Seq<char>,
    allow: bool,
)
    requires
        f.wf(),
    ensures
        offer_links_spec(f, links, origin, allow).wf(),
    decreases links.len(),
{
    if links.len() > 0 {
        let g = offer_links_spec(f, links.drop_last(), origin, allow);
        lemma_offer_links_wf(f, links.drop_last(), origin, allow);
        let l = links.last();
        if in_scope_spec(l.1, origin, allow) {
            assert(offer_links_spec(f, links, origin, allow) == g.offer_spec(l.0));
            assert(frontier_step(g, g.offer_spec(l.0)));
            lemma_step_preserves(g, g.offer_spec(l.0));
        }
    }
}

/// Recording an address sequence preserves frontier well-formedness.
proof fn lemma_record_emails_wf(f: FrontierView, es: Seq<Seq<char>>)
    requires
        f.wf(),
    ensures
        record_emails_spec(f, es).wf(),
    decreases es.len(),
{
    if es.len() > 0 {
        let g = record_emails_spec(f, es.drop_last());
        lemma_record_emails_wf(f, es.drop_last());
        assert(record_emails_spec(f, es) == g.record_spec(es.last()));
        assert(frontier_step(g, g.record_spec(es.last())));
        lemma_step_preserves(g, g.record_spec(es.last()));
    }
}

/// A freshly seeded engine satisfies the crawl invariant for every
/// link graph: exactly the seed is known.
pub proof fn lemma_seeded_inv(
    e: EngineView,
    graph: Map<Seq<char>, Seq<(Seq<char>, Seq<char>)>>,
    origin: Seq<char>,
    allow: bool,
    seed: Seq<char>,
)
    requires
        e.wf(),
        e.frontier.pending == seq![seed],
        e.frontier.visited.len() == 0,
        e.in_flight.len() == 0,
    ensures
        crawl_inv(e, graph, origin, allow, seed),
{
    assert(e.frontier.pending[0] == seed);
    assert forall|x: Seq<char>| known(e, x) implies x == seed by {
        let k = choose|k: int| 0 <= k < e.frontier.pending.len() && e.frontier.pending[k] == x;
    }
}

/// Handing out a fetch preserves the crawl invariant: the claimed URL
/// moves from pending to visited (so what is known does not change)
/// and enters the in-flight set.
pub proof fn lemma_claim_preserves_inv(
    e: EngineView,
    e2: EngineView,
    u: Seq<char>,
    graph: Map<Seq<char>, Seq<(Seq<char>, Seq<char>)>>,
    origin: Seq<char>,
    allow: bool,
    seed: Seq<char>,
)
    requires
        crawl_inv(e, graph, origin, allow, seed),
        claims(e.frontier, e2.frontier, u),
        e2.in_flight == e.in_flight.push(u),
        e2.failed == e.failed,
    ensures
        crawl_inv(e2, graph, origin, allow, seed),
{
    let n = e.frontier.pending.len() as int;
    assert(frontier_step(e.frontier, e2.frontier));
    lemma_step_preserves(e.frontier, e2.frontier);
    assert(!e.frontier.visited.contains(u)) by {
        assert(e.frontier.pending[n - 1] == u);
    }
    assert forall|x: Seq<char>| fknown(e.frontier, x) implies fknown(e2.frontier, x) by {
        if e.frontier.pending.contains(x) {
            let k = choose|k: int| 0 <= k < e.frontier.pending.len() && e.frontier.pending[k] == x;
            if k < n - 1 {
                assert(e2.frontier.pending[k] == x);
            } else {
                assert(e2.frontier.visited[e.frontier.visited.len() as int] == x);
            }
        } else {
            let k = choose|k: int| 0 <= k < e.frontier.visited.len() && e.frontier.visited[k] == x;
            assert(e2.frontier.visited[k] == x);
        }
    }
    assert forall|x: Seq<char>| fknown(e2.frontier, x) implies fknown(e.frontier, x) by {
        if e2.frontier.pending.contains(x) {
            let k = choose|k: int| 0 <= k < e2.frontier.pending.len() && e2.frontier.pending[k] == x;
            assert(e.frontier.pending[k] == x);
        } else {
            let k = choose|k: int| 0 <= k < e2.frontier.visited.len() && e2.frontier.visited[k] == x;
            if k < e.frontier.visited.len() {
                assert(e.frontier.visited[k] == x);
            } else {
                assert(x == u);
                assert(e.frontier.pending[n - 1] == u);
            }
        }
    }
    // the in-flight set stays duplicate-free and inside visited
    assert(!e.in_flight.contains(u)) by {
        if e.in_flight.contains(u) {
            let k = choose|k: int| 0 <= k < e.in_flight.len() && e.in_flight[k] == u;
            assert(e.frontier.visited.contains(u));
        }
    }
    assert forall|i: int, j: int| 0 <= i < j < e2.in_flight.len() implies e2.in_flight[i]
        != e2.in_flight[j] by {
        if j == e.in_flight.len() {
            assert(e2.in_flight[j] == u);
            assert(e.in_flight.contains(e.in_flight[i])) by {
                assert(e.in_flight[i] == e.in_flight[i]);
            }
        }
    }
    assert forall|i: int| 0 <= i < e2.in_flight.len() implies e2.frontier.visited.contains(
        #[trigger] e2.in_flight[i],
    ) by {
        if i < e.in_flight.len() {
            assert(e.frontier.visited.contains(e.in_flight[i]));
            assert(fknown(e.frontier, e.in_flight[i]));
            assert(fknown(e2.frontier, e.in_flight[i]));
            assert(!e2.frontier.pending.contains(e.in_flight[i])) by {
                if e2.frontier.pending.contains(e.in_flight[i]) {
                    let k = choose|k: int|
                        0 <= k < e2.frontier.pending.len() && e2.frontier.pending[k]
                            == e.in_flight[i];
                    assert(e.frontier.pending[k] == e.in_flight[i]);
                    assert(!e.frontier.visited.contains(e.frontier.pending[k]));
                }
            }
        } else {
            assert(e2.in_flight[i] == u);
            assert(e2.frontier.visited[e.frontier.visited.len() as int] == u);
        }
    }
    // pages whose worker is done stay covered
    assert(e2.in_flight[e.in_flight.len() as int] == u);
    assert forall|v: Seq<char>|
        e2.frontier.visited.contains(v) && !(#[trigger] e2.in_flight.contains(v))
        implies page_covered(e2, graph, origin, allow, v) by {
        assert(v != u);
        assert(e.frontier.visited.contains(v)) by {
            let k = choose|k: int| 0 <= k < e2.frontier.visited.len() && e2.frontier.visited[k] == v;
            assert(k < e.frontier.visited.len());
            assert(e.frontier.visited[k] == v);
        }
        assert(!e.in_flight.contains(v)) by {
            if e.in_flight.contains(v) {
                let k = choose|k: int| 0 <= k < e.in_flight.len() && e.in_flight[k] == v;
                assert(e2.in_flight[k] == v);
            }
        }
        assert(page_covered(e, graph, origin, allow, v));
    }
}

/// Folding a completed page back in preserves the crawl invariant,
/// provided what the page yielded is exactly what the link graph says
/// its page holds: the page's in-scope links become known (they are
/// links of a visited page, so they stay inside every crawl-closed
/// set), and the page leaves the in-flight set covered.
pub proof fn lemma_complete_preserves_inv(
    e: EngineView,
    e2: EngineView,
    u: Seq<char>,
    emails: Seq<Seq<char>>,
    graph: Map<Seq<char>, Seq<(Seq<char>, Seq<char>)>>,
    origin: Seq<char>,
    allow: bool,
    seed: Seq<char>,
)
    requires
        crawl_inv(e, graph, origin, allow, seed),
        e.in_flight.contains(u),
        complete_transition(e, e2, u, graph[u], emails, origin, allow),
    ensures
        crawl_inv(e2, graph, origin, allow, seed),
{
    let links = graph[u];
    let mid = offer_links_spec(e.frontier, links, origin, allow);
    lemma_offer_links_wf(e.frontier, links, origin, allow);
    lemma_record_emails_wf(mid, emails);
    lemma_offer_links_known(e.frontier, links, origin, allow);
    lemma_record_emails_known(mid, emails);
    lemma_offer_links_visited(e.frontier, links, origin, allow);
    lemma_record_emails_frontier(mid, emails);
    assert(e2.frontier.visited == e.frontier.visited);
    assert(e.frontier.visited.contains(u)) by {
        let k = choose|k: int| 0 <= k < e.in_flight.len() && e.in_flight[k] == u;
        assert(e.frontier.visited.contains(e.in_flight[k]));
    }

    // the in-flight set after removal: one occurrence of u gone
    e.in_flight.index_of_first_ensures(u);
    let fi = e.in_flight.index_of_first(u).unwrap();
    e.in_flight.remove_ensures(fi);
    assert(e2.in_flight == e.in_flight.remove(fi));
    assert(e2.in_flight.len() == e.in_flight.len() - 1);
    assert forall|a: int| 0 <= a < e2.in_flight.len() implies e2.in_flight[a] == (if a < fi {
        e.in_flight[a]
    } else {
        e.in_flight[a + 1]
    }) by {}
    assert forall|a: int, b: int| 0 <= a < b < e2.in_flight.len() implies e2.in_flight[a]
        != e2.in_flight[b] by {}
    assert forall|a: int| 0 <= a < e2.in_flight.len() implies e2.frontier.visited.contains(
        #[trigger] e2.in_flight[a],
    ) by {
        if a < fi {
            assert(e.frontier.visited.contains(e.in_flight[a]));
        } else {
            assert(e.frontier.visited.contains(e.in_flight[a + 1]));
        }
    }
    assert(!e2.in_flight.contains(u)) by {
        if e2.in_flight.contains(u) {
            let a = choose|a: int| 0 <= a < e2.in_flight.len() && e2.in_flight[a] == u;
            if a < fi {
                assert(e.in_flight[a] == u && e.in_flight[fi] == u);
            } else {
                assert(e.in_flight[a + 1] == u && e.in_flight[fi] == u);
            }
        }
    }

    // every visited page with no worker on it stays covered
    assert forall|v: Seq<char>|
        e2.frontier.visited.contains(v) && !(#[trigger] e2.in_flight.contains(v))
        implies page_covered(e2, graph, origin, allow, v) by {
        if v == u {
            assert forall|i: int|
                0 <= i < graph[u].len() && in_scope_spec(
                    (#[trigger] graph[u][i]).1,
                    origin,
                    allow,
                ) implies known(e2, graph[u][i].0) by {
                assert(fknown(mid, links[i].0));
            }
        } else {
            assert(!e.in_flight.contains(v)) by {
                if e.in_flight.contains(v) {
                    let k = choose|k: int| 0 <= k < e.in_flight.len() && e.in_flight[k] == v;
                    assert(k != fi);
                    if k < fi {
                        assert(e2.in_flight[k] == v);
                    } else {
                        assert(e2.in_flight[k - 1] == v);
                    }
                }
            }
            assert(page_covered(e, graph, origin, allow, v));
            assert forall|i: int|
                0 <= i < graph[v].len() && in_scope_spec(
                    (#[trigger] graph[v][i]).1,
                    origin,
                    allow,
                ) implies known(e2, graph[v][i].0) by {
                assert(known(e, graph[v][i].0));
                assert(fknown(mid, graph[v][i].0));
            }
        }
    }

    // nothing known escapes any crawl-closed set
    assert forall|cs: Set<Seq<char>>, x: Seq<char>|
        #![trigger closed_set(graph, origin, allow, seed, cs), cs.contains(x)]
        closed_set(graph, origin, allow, seed, cs) && known(e2, x) implies cs.contains(x) by {
        assert(fknown(mid, x));
        if !fknown(e.frontier, x) {
            let i = choose|i: int|
                0 <= i < links.len() && (#[trigger] links[i]).0 == x && in_scope_spec(
                    links[i].1,
                    origin,
                    allow,
                );
            assert(known(e, u));
            assert(cs.contains(u));
            assert(cs.contains(graph[u][i].0));
        }
    }
}

/// A failed fetch preserves the crawl invariant, provided the link
/// graph records that this page yielded nothing to the crawl: the
/// frontier is untouched and the page leaves the in-flight set with
/// nothing left to cover.
pub proof fn lemma_failed_preserves_inv(
    e: EngineView,
    e2: EngineView,
    u: Seq<char>,
    graph: Map<Seq<char>, Seq<(Seq<char>, Seq<char>)>>,
    origin: Seq<char>,
    allow: bool,
    seed: Seq<char>,
)
    requires
        crawl_inv(e, graph, origin, allow, seed),
        e.in_flight.contains(u),
        graph[u].len() == 0,
        e2.frontier == e.frontier,
        e2.in_flight == e.in_flight.remove_value(u),
    ensures
        crawl_inv(e2, graph, origin, allow, seed),
{
    e.in_flight.index_of_first_ensures(u);
    let fi = e.in_flight.index_of_first(u).unwrap();
    e.in_flight.remove_ensures(fi);
    assert(e2.in_flight == e.in_flight.remove(fi));
    assert forall|a: int| 0 <= a < e2.in_flight.len() implies e2.in_flight[a] == (if a < fi {
        e.in_flight[a]
    } else {
        e.in_flight[a + 1]
    }) by {}
    assert forall|a: int, b: int| 0 <= a < b < e2.in_flight.len() implies e2.in_flight[a]
        != e2.in_flight[b] by {}
    assert forall|a: int| 0 <= a < e2.in_flight.len() implies e2.frontier.visited.contains(
        #[trigger] e2.in_flight[a],
    ) by {
        if a < fi {
            assert(e.frontier.visited.contains(e.in_flight[a]));
        } else {
            assert(e.frontier.visited.contains(e.in_flight[a + 1]));
        }
    }
    assert forall|v: Seq<char>|
        e2.frontier.visited.contains(v) && !(#[trigger] e2.in_flight.contains(v))
        implies page_covered(e2, graph, origin, allow, v) by {
        if v != u {
            assert(!e.in_flight.contains(v)) by {
                if e.in_flight.contains(v) {
                    let k = choose|k: int| 0 <= k < e.in_flight.len() && e.in_flight[k] == v;
                    assert(k != fi);
                    if k < fi {
                        assert(e2.in_flight[k] == v);
                    } else {
                        assert(e2.in_flight[k - 1] == v);
                    }
                }
            }
            assert(page_covered(e, graph, origin, allow, v));
        }
    }
}

/// When the crawl is done — nothing pending, nobody in flight — the
/// visited set is itself crawl-closed and lies inside every
/// crawl-closed set: it is exactly the part of the site reachable from
/// the seed under the scope rule. A graph with cycles changes nothing
/// here; each reachable page was claimed, and claimed only once.
pub proof fn lemma_done_visits_reachable(
    e: EngineView,
    graph: Map<Seq<char>, Seq<(Seq<char>, Seq<char>)>>,
    origin: Seq<char>,
    allow: bool,
    seed: Seq<char>,
)
    requires
        crawl_inv(e, graph, origin, allow, seed),
        e.frontier.pending.len() == 0,
        e.in_flight.len() == 0,
    ensures
        closed_set(graph, origin, allow, seed, e.frontier.visited.to_set()),
        forall|cs: Set<Seq<char>>|
            closed_set(graph, origin, allow, seed, cs) ==> e.frontier.visited.to_set().subset_of(
                cs,
            ),
        e.frontier.visited.len() == e.frontier.visited.to_set().len(),
{
    let vs = e.frontier.visited.to_set();
    assert(e.frontier.visited.no_duplicates()) by {
        assert forall|i: int, j: int|
            0 <= i < e.frontier.visited.len() && 0 <= j < e.frontier.visited.len() && i != j
            implies e.frontier.visited[i] != e.frontier.visited[j] by {
            if i < j {
            } else {
                assert(j < i);
            }
        }
    }
    e.frontier.visited.unique_seq_to_set();
    assert(known(e, seed));
    assert(vs.contains(seed));
    assert forall|u: Seq<char>, i: int|
        #![trigger vs.contains(u), graph[u][i]]
        vs.contains(u) && 0 <= i < graph[u].len() && in_scope_spec(graph[u][i].1, origin, allow)
        implies vs.contains(graph[u][i].0) by {
        assert(e.frontier.visited.contains(u));
        assert(!e.in_flight.contains(u));
        assert(page_covered(e, graph, origin, allow, u));
        assert(known(e, graph[u][i].0));
        assert(e.frontier.visited.contains(graph[u][i].0));
    }
    assert forall|cs: Set<Seq<char>>|
        closed_set(graph, origin, allow, seed, cs) implies vs.subset_of(cs) by {
        assert forall|x: Seq<char>| vs.contains(x) implies cs.contains(x) by {
            assert(known(e, x));
        }
    }
}

/// The crawl never visits more pages than any finite crawl-closed set
/// holds: with N pages reachable from the seed, at most N URLs are
/// ever claimed, so a crawl of a finite site ends.
pub proof fn lemma_visits_bounded(
    e: EngineView,
    graph: Map<Seq<char>, Seq<(Seq<char>, Seq<char>)>>,
    origin: Seq<char>,
    allow: bool,
    seed: Seq<char>,
    cs: Set<Seq<char>>,
)
    requires
        crawl_inv(e, graph, origin, allow, seed),
        closed_set(graph, origin, allow, seed, cs),
        cs.finite(),
    ensures
        e.frontier.visited.len() <= cs.len(),
{
    let visited = e.frontier.visited;
    assert(visited.no_duplicates()) by {
        assert forall|i: int, j: int|
            0 <= i < visited.len() && 0 <= j < visited.len() && i != j implies visited[i]
            != visited[j] by {
            if i < j {
            } else {
                assert(j < i);
            }
        }
    }
    visited.unique_seq_to_set();
    assert forall|x: Seq<char>| visited.to_set().contains(x) implies cs.contains(x) by {
        assert(known(e, x));
    }
    lemma_len_subset(visited.to_set(), cs);
}

} // verus!
