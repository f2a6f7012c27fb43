use vstd::prelude::*;

verus! {

/// The views of a sequence of strings, element by element.
pub open spec fn seq_views(v: Seq<String>) -> Seq<Seq<char>> {
    v.map_values(|s: String| s@)
}

/// No two entries hold the same characters.
pub open spec fn distinct(s: Seq<Seq<char>>) -> bool {
    forall|i: int, j: int| 0 <= i < j < s.len() ==> s[i] != s[j]
}

/// The mathematical content of a `Frontier`: the URLs still to visit,
/// the URLs already claimed for fetching, and the mail addresses seen.
pub struct FrontierView {
    pub pending: Seq<Seq<char>>,
    pub visited: Seq<Seq<char>>,
    pub emails: Seq<Seq<char>>,
}

impl FrontierView {
    /// A URL is known to the frontier if it is pending or visited.
    pub open spec fn contains_url(self, u: Seq<char>) -> bool {
        self.pending.contains(u) || self.visited.contains(u)
    }

    /// Well-formedness: no duplicates anywhere, and no URL both
    /// pending and visited.
    pub open spec fn wf(self) -> bool {
        &&& distinct(self.pending)
        &&& distinct(self.visited)
        &&& distinct(self.emails)
        &&& forall|i: int|
            0 <= i < self.pending.len() ==> !self.visited.contains(#[trigger] self.pending[i])
    }

    /// What `offer` does: enqueue the URL unless it is already known.
    pub open spec fn offer_spec(self, u: Seq<char>) -> FrontierView {
        if self.contains_url(u) {
            self
        } else {
            FrontierView { pending: self.pending.push(u), ..self }
        }
    }

    /// What a successful `try_claim_next` does: move the last pending
    /// URL into `visited`.
    pub open spec fn claim_spec(self) -> FrontierView
        recommends
            self.pending.len() > 0,
    {
        FrontierView {
            pending: self.pending.drop_last(),
            visited: self.visited.push(self.pending.last()),
            emails: self.emails,
        }
    }

    /// What `record_email` does: keep the address unless already seen.
    pub open spec fn record_spec(self, a: Seq<char>) -> FrontierView {
        if self.emails.contains(a) {
            self
        } else {
            FrontierView { emails: self.emails.push(a), ..self }
        }
    }
}

/// One frontier operation, as a relation between the state before and after.
pub open spec fn frontier_step(f: FrontierView, g: FrontierView) -> bool {
    ||| exists|u: Seq<char>| g == f.offer_spec(u)
    ||| exists|a: Seq<char>| g == f.record_spec(a)
    ||| (f.pending.len() > 0 && g == f.claim_spec())
    ||| g == f
}

/// The step from `f` to `g` is a claim that returned the URL `u`.
pub open spec fn claims(f: FrontierView, g: FrontierView, u: Seq<char>) -> bool {
    f.pending.len() > 0 && u == f.pending.last() && g == f.claim_spec()
}

/// A run of the frontier: it starts well-formed and every pair of
/// neighbouring states is related by one operation.
pub open spec fn frontier_trace(tr: Seq<FrontierView>) -> bool {
    &&& tr.len() > 0
    &&& tr[0].wf()
    &&& forall|k: int| 0 <= k < tr.len() - 1 ==> frontier_step(#[trigger] tr[k], tr[k + 1])
}

/// Every frontier operation keeps the frontier well-formed, and never
/// removes a URL from `visited`.
pub proof fn lemma_step_preserves(f: FrontierView, g: FrontierView)
    requires
        f.wf(),
        frontier_step(f, g),
    ensures
        g.wf(),
        forall|u: Seq<char>| f.visited.contains(u) ==> g.visited.contains(u),
{
    if exists|u: Seq<char>| g == f.offer_spec(u) {
        let u = choose|u: Seq<char>| g == f.offer_spec(u);
        if !f.contains_url(u) {
            assert(f.pending.push(u)[f.pending.len() as int] == u);
            assert forall|i: int, j: int| 0 <= i < j < g.pending.len() implies g.pending[i]
                != g.pending[j] by {
                if j < f.pending.len() {
                } else {
                    assert(g.pending[j] == u);
                    assert(f.pending.contains(f.pending[i])) by {
                        assert(f.pending[i] == f.pending[i]);
                    }
                }
            }
            assert forall|i: int| 0 <= i < g.pending.len() implies !g.visited.contains(
                #[trigger] g.pending[i],
            ) by {
                if i < f.pending.len() {
                } else {
                    assert(g.pending[i] == u);
                }
            }
        }
    } else if exists|a: Seq<char>| g == f.record_spec(a) {
        let a = choose|a: Seq<char>| g == f.record_spec(a);
        if !f.emails.contains(a) {
            assert forall|i: int, j: int| 0 <= i < j < g.emails.len() implies g.emails[i]
                != g.emails[j] by {
                if j < f.emails.len() {
                } else {
                    assert(g.emails[j] == a);
                    assert(f.emails.contains(f.emails[i])) by {
                        assert(f.emails[i] == f.emails[i]);
                    }
                }
            }
        }
    } else if f.pending.len() > 0 && g == f.claim_spec() {
        let u = f.pending.last();
        let n = f.pending.len() as int;
        assert(!f.visited.contains(u));
        assert forall|i: int, j: int| 0 <= i < j < g.visited.len() implies g.visited[i]
            != g.visited[j] by {
            if j < f.visited.len() {
            } else {
                assert(g.visited[j] == u);
                assert(f.visited.contains(f.visited[i])) by {
                    assert(f.visited[i] == f.visited[i]);
                }
            }
        }
        assert forall|i: int| 0 <= i < g.pending.len() implies !g.visited.contains(
            #[trigger] g.pending[i],
        ) by {
            assert(g.pending[i] == f.pending[i]);
            assert(!f.visited.contains(f.pending[i]));
            if g.visited.contains(f.pending[i]) {
                let k = choose|k: int| 0 <= k < g.visited.len() && g.visited[k] == f.pending[i];
                assert(k == f.visited.len());
                assert(f.pending[i] == u);
                assert(f.pending[n - 1] == u);
            }
        }
        assert(g.visited[f.visited.len() as int] == u);
        assert forall|x: Seq<char>| f.visited.contains(x) implies g.visited.contains(x) by {
            let k = choose|k: int| 0 <= k < f.visited.len() && f.visited[k] == x;
            assert(g.visited[k] == x);
        }
    }
}

/// Along any frontier run, every state is well-formed.
pub proof fn lemma_trace_wf(tr: Seq<FrontierView>, k: int)
    requires
        frontier_trace(tr),
        0 <= k < tr.len(),
    ensures
        tr[k].wf(),
    decreases k,
{
    if k > 0 {
        lemma_trace_wf(tr, k - 1);
        lemma_step_preserves(tr[k - 1], tr[k]);
    }
}

/// Along any frontier run, `visited` only ever grows.
pub proof fn lemma_visited_monotone(tr: Seq<FrontierView>, i: int, j: int, u: Seq<char>)
    requires
        frontier_trace(tr),
        0 <= i <= j < tr.len(),
        tr[i].visited.contains(u),
    ensures
        tr[j].visited.contains(u),
    decreases j - i,
{
    if i < j {
        lemma_trace_wf(tr, j - 1);
        lemma_visited_monotone(tr, i, j - 1, u);
        lemma_step_preserves(tr[j - 1], tr[j]);
    }
}

/// No URL is ever claimed twice: in any run of frontier operations, if
/// one step claims the URL `u`, no later step claims `u` again — the
/// claim moves `u` into `visited`, `visited` never shrinks, and a
/// well-formed frontier never holds a visited URL as pending.
pub proof fn lemma_claim_at_most_once(tr: Seq<FrontierView>, i: int, j: int, u: Seq<char>)
    requires
        frontier_trace(tr),
        0 <= i < j,
        j + 1 < tr.len(),
        claims(tr[i], tr[i + 1], u),
    ensures
        !claims(tr[j], tr[j + 1], u),
{
    assert(tr[i + 1].visited == tr[i].visited.push(u));
    assert(tr[i + 1].visited[tr[i].visited.len() as int] == u);
    lemma_visited_monotone(tr, i + 1, j, u);
    lemma_trace_wf(tr, j);
    if claims(tr[j], tr[j + 1], u) {
        let n = tr[j].pending.len() as int;
        assert(tr[j].pending[n - 1] == u);
        assert(!tr[j].visited.contains(tr[j].pending[n - 1]));
    }
}

/// Offering the same URL twice leaves the frontier exactly as offering
/// it once: the second offer finds the URL already known.
pub proof fn lemma_offer_idempotent(f: FrontierView, u: Seq<char>)
    ensures
        f.offer_spec(u).offer_spec(u) == f.offer_spec(u),
{
    if !f.contains_url(u) {
        assert(f.pending.push(u)[f.pending.len() as int] == u);
    }
}

/// The shared store of URLs pending or already visited, plus the mail
/// addresses discovered so far. `try_claim_next` is the single point
/// that decides which worker fetches a URL; everything a page yields
/// comes back in through `offer` and `record_email`.
pub struct Frontier {
    pending: Vec<String>,
    visited: Vec<String>,
    emails: Vec<String>,
}

impl View for Frontier {
    type V = FrontierView;

    closed spec fn view(&self) -> FrontierView {
        FrontierView {
            pending: seq_views(self.pending@),
            visited: seq_views(self.visited@),
            emails: seq_views(self.emails@),
        }
    }
}

fn vec_contains_string(v: &Vec<String>, s: &String) -> (r: bool)
    ensures
        r == seq_views(v@).contains(s@),
{
    let n = v.len();
    let mut i: usize = 0;
    while i < n
        invariant
            n == v@.len(),
            i <= n,
            forall|j: int| 0 <= j < i ==> seq_views(v@)[j] != s@,
        decreases n - i,
    {
        proof {
            assert(seq_views(v@)[i as int] == v@[i as int]@);
        }
        if v[i] == *s {
            return true;
        }
        i += 1;
    }
    false
}

impl Frontier {
    /// An empty frontier: nothing pending, nothing visited, no mail.
    pub fn new() -> (r: Frontier)
        ensures
            r@.pending.len() == 0,
            r@.visited.len() == 0,
            r@.emails.len() == 0,
            r@.wf(),
    {
        let r = Frontier { pending: Vec::new(), visited: Vec::new(), emails: Vec::new() };
        proof {
            assert(r@.pending =~= Seq::<Seq<char>>::empty());
            assert(r@.visited =~= Seq::<Seq<char>>::empty());
            assert(r@.emails =~= Seq::<Seq<char>>::empty());
        }
        r
    }

    /// Enqueue a URL unless it was ever offered or visited before:
    /// offering is idempotent and never resurrects a visited URL.
    pub fn offer(&mut self, url: String)
        requires
            old(self).wf(),
        ensures
            final(self).wf(),
            final(self)@ == old(self)@.offer_spec(url@),
    {
        let known = vec_contains_string(&self.pending, &url) || vec_contains_string(
            &self.visited,
            &url,
        );
        if !known {
            let ghost pre = self@;
            self.pending.push(url);
            proof {
                assert(self@.pending =~= pre.pending.push(url@));
                assert(self@ == pre.offer_spec(url@));
                lemma_step_preserves(pre, self@);
            }
        }
    }

    /// Atomically take one pending URL and mark it visited; `None`
    /// exactly when nothing is pending. The returned URL was pending
    /// before the call and can never be returned again.
    pub fn try_claim_next(&mut self) -> (r: Option<String>)
        requires
            old(self).wf(),
        ensures
            final(self).wf(),
            match r {
                None => final(self)@ == old(self)@ && old(self)@.pending.len() == 0,
                Some(u) => claims(old(self)@, final(self)@, u@),
            },
    {
        let ghost pre = self@;
        match self.pending.pop() {
            None => {
                proof {
                    assert(pre.pending.len() == 0);
                }
                None
            },
            Some(u) => {
                let claimed = u.clone();
                self.visited.push(u);
                proof {
                    assert(self@.pending =~= pre.pending.drop_last());
                    assert(self@.visited =~= pre.visited.push(claimed@));
                    assert(self@ == pre.claim_spec());
                    lemma_step_preserves(pre, self@);
                }
                Some(claimed)
            },
        }
    }

    /// Record a discovered mail address, deduplicated by exact value.
    pub fn record_email(&mut self, addr: String)
        requires
            old(self).wf(),
        ensures
            final(self).wf(),
            final(self)@ == old(self)@.record_spec(addr@),
    {
        let known = vec_contains_string(&self.emails, &addr);
        if !known {
            let ghost pre = self@;
            self.emails.push(addr);
            proof {
                assert(self@.emails =~= pre.emails.push(addr@));
                assert(self@ == pre.record_spec(addr@));
                lemma_step_preserves(pre, self@);
            }
        }
    }

    /// Termination hint: true exactly when nothing is pending. True
    /// draining also needs every worker idle; the engine checks that.
    pub fn is_drained(&self) -> (r: bool)
        ensures
            r == (self@.pending.len() == 0),
    {
        self.pending.len() == 0
    }

    /// The URLs claimed so far, in claim order.
    pub fn visited_urls(&self) -> (r: &Vec<String>)
        ensures
            seq_views(r@) == self@.visited,
    {
        &self.visited
    }

    /// The mail addresses recorded so far, in discovery order.
    pub fn emails(&self) -> (r: &Vec<String>)
        ensures
            seq_views(r@) == self@.emails,
    {
        &self.emails
    }

    /// Well-formedness of the executable frontier.
    pub open spec fn wf(&self) -> bool {
        self@.wf()
    }
}

} // verus!
