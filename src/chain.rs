use rand::Rng;
use vstd::prelude::*;

verus! {

/// A window of the two most recent tokens.
pub type State = (u32, u32);

/// Upper bound on the tokens of one generated sequence; a model whose walk
/// can cycle would otherwise never stop.
pub const MAX_STEPS: usize = 1000000;

/// One transition of the model: `count` times, the window `from` was
/// followed by the token `to`.
#[derive(Clone, Copy)]
pub struct Edge {
    pub from: State,
    pub to: u32,
    pub count: u64,
}

/// The sum of `ws`.
pub open spec fn sum(ws: Seq<u64>) -> nat
    decreases ws.len(),
{
    if ws.len() == 0 {
        0
    } else {
        sum(ws.drop_last()) + ws.last() as nat
    }
}

/// The inclusive prefix sums of `ws`: entry `i` is `ws[0] + ... + ws[i]`.
pub open spec fn prefix_sums(ws: Seq<u64>) -> Seq<nat> {
    Seq::new(ws.len(), |i: int| sum(ws.take(i + 1)))
}

/// The total count of all edges.
pub open spec fn total(edges: Seq<Edge>) -> nat
    decreases edges.len(),
{
    if edges.len() == 0 {
        0
    } else {
        total(edges.drop_last()) + edges.last().count as nat
    }
}

/// How often `s` was followed by `t`.
pub open spec fn weight(edges: Seq<Edge>, s: State, t: u32) -> nat
    decreases edges.len(),
{
    if edges.len() == 0 {
        0
    } else {
        weight(edges.drop_last(), s, t) + if edges.last().from == s && edges.last().to == t {
            edges.last().count as nat
        } else {
            0
        }
    }
}

/// The tokens that followed `s`, in the order of the edges.
pub open spec fn succ_tokens(edges: Seq<Edge>, s: State) -> Seq<u32>
    decreases edges.len(),
{
    if edges.len() == 0 {
        Seq::empty()
    } else if edges.last().from == s {
        succ_tokens(edges.drop_last(), s).push(edges.last().to)
    } else {
        succ_tokens(edges.drop_last(), s)
    }
}

/// The counts of the tokens that followed `s`, in the order of the edges.
pub open spec fn succ_counts(edges: Seq<Edge>, s: State) -> Seq<u64>
    decreases edges.len(),
{
    if edges.len() == 0 {
        Seq::empty()
    } else if edges.last().from == s {
        succ_counts(edges.drop_last(), s).push(edges.last().count)
    } else {
        succ_counts(edges.drop_last(), s)
    }
}

/// Some edge leaves the window `s`: the model stores `s`.
pub open spec fn has_state(edges: Seq<Edge>, s: State) -> bool {
    exists|j: int| 0 <= j < edges.len() && edges[j].from == s
}

/// No two edges share both window and successor, and every count is at least 1.
pub open spec fn edges_wf(edges: Seq<Edge>) -> bool {
    &&& forall|i: int, j: int|
        0 <= i < j < edges.len() ==> !(edges[i].from == edges[j].from && edges[i].to
            == edges[j].to)
    &&& forall|i: int| 0 <= i < edges.len() ==> edges[i].count >= 1
}

/// The window that follows `e`, taken when `e.to` is generated.
pub open spec fn after(e: Edge) -> State {
    (e.from.1, e.to)
}

/// Every edge that does not end a sequence leads to a stored window.
pub open spec fn closed(edges: Seq<Edge>, end: u32) -> bool {
    forall|i: int| 0 <= i < edges.len() && edges[i].to != end ==> has_state(edges, after(edges[i]))
}

/// A training sequence padded with two `begin` tokens and one `end` token.
pub open spec fn padded(run: Seq<u32>, begin: u32, end: u32) -> Seq<u32> {
    seq![begin, begin] + run + seq![end]
}

/// The number of positions `i < k` of `x` at which the window `s` is followed by `t`.
pub open spec fn occ_upto(x: Seq<u32>, k: int, s: State, t: u32) -> nat
    decreases k,
{
    if k <= 0 {
        0
    } else {
        occ_upto(x, k - 1, s, t) + if x[k - 1] == s.0 && x[k] == s.1 && x[k + 1] == t {
            1nat
        } else {
            0nat
        }
    }
}

/// The number of times the window `s` is followed by `t` over all padded
/// training sequences.
pub open spec fn occurrences(data: Seq<Seq<u32>>, begin: u32, end: u32, s: State, t: u32) -> nat
    decreases data.len(),
{
    if data.len() == 0 {
        0
    } else {
        occurrences(data.drop_last(), begin, end, s, t) + occ_upto(
            padded(data.last(), begin, end),
            data.last().len() + 1 as int,
            s,
            t,
        )
    }
}

/// The number of windows over all padded training sequences.
pub open spec fn transitions(data: Seq<Seq<u32>>) -> nat
    decreases data.len(),
{
    if data.len() == 0 {
        0
    } else {
        transitions(data.drop_last()) + data.last().len() + 1
    }
}

/// The window before the `k`-th token of a walk from `start` that produced `ws`.
pub open spec fn window(start: State, ws: Seq<u32>, k: int) -> State {
    if k == 0 {
        start
    } else if k == 1 {
        (start.1, ws[0])
    } else {
        (ws[k - 2], ws[k - 1])
    }
}

/// Each token of `ws` followed, in the model, the window before it.
pub open spec fn is_walk(edges: Seq<Edge>, start: State, ws: Seq<u32>) -> bool {
    forall|k: int| 0 <= k < ws.len() ==> weight(edges, #[trigger] window(start, ws, k), ws[k]) > 0
}

/// A Markov model of order two over `u32` tokens, with the distribution of
/// the all-`begin` window cached.
pub struct Chain {
    token_begin: u32,
    token_end: u32,
    edges: Vec<Edge>,
    begin_choices: Vec<u32>,
    begin_weights: Vec<u64>,
}

/// Relies on rand::rng and Rng::random_range: a value drawn uniformly from `0..bound`.
#[verifier::external_body]
fn random_below(bound: u64) -> (r: u64)
    requires
        bound > 0,
    ensures
        r < bound,
{
    rand::rng().random_range(0..bound)
}

proof fn lemma_sum_take_mono(ws: Seq<u64>, i: int, j: int)
    requires
        0 <= i <= j <= ws.len(),
    ensures
        sum(ws.take(i)) <= sum(ws.take(j)),
    decreases j - i,
{
    if i < j {
        assert(ws.take(j).drop_last() =~= ws.take(j - 1));
        lemma_sum_take_mono(ws, i, j - 1);
    }
}

/// Prefix sums never decrease, and the draws that fall on entry `i` are
/// exactly `ws[i]` many: the window of entry `i` has width `ws[i]`.
pub proof fn lemma_prefix_sums(ws: Seq<u64>)
    ensures
        forall|i: int, j: int|
            0 <= i <= j < ws.len() ==> prefix_sums(ws)[i] <= prefix_sums(ws)[j],
        ws.len() > 0 ==> prefix_sums(ws)[0] == ws[0],
        forall|i: int|
            0 < i < ws.len() ==> prefix_sums(ws)[i] == prefix_sums(ws)[i - 1] + ws[i],
        ws.len() > 0 ==> prefix_sums(ws)[ws.len() - 1] == sum(ws),
{
    assert forall|i: int, j: int| 0 <= i <= j < ws.len() implies prefix_sums(ws)[i]
        <= prefix_sums(ws)[j] by {
        lemma_sum_take_mono(ws, i + 1, j + 1);
    }
    assert forall|i: int| 0 < i < ws.len() implies prefix_sums(ws)[i] == prefix_sums(ws)[i
        - 1] + ws[i] by {
        assert(ws.take(i + 1).drop_last() =~= ws.take(i));
    }
    if ws.len() > 0 {
        assert(ws.take(1).drop_last() =~= ws.take(0));
        assert(sum(ws.take(0)) == 0);
        assert(ws.take(1).last() == ws[0]);
        assert(ws.take(ws.len() as int) =~= ws);
    }
}

/// The draw `d` falls on entry `i` of the cumulative weights `cum`.
pub open spec fn in_bucket(cum: Seq<u64>, d: u64, i: int) -> bool {
    &&& 0 <= i < cum.len()
    &&& (i == 0 || cum[i - 1] <= d)
    &&& d < cum[i]
}

proof fn lemma_weight_absent(edges: Seq<Edge>, s: State, t: u32)
    requires
        forall|i: int| 0 <= i < edges.len() ==> !(edges[i].from == s && edges[i].to == t),
    ensures
        weight(edges, s, t) == 0,
    decreases edges.len(),
{
    if edges.len() > 0 {
        lemma_weight_absent(edges.drop_last(), s, t);
    }
}

proof fn lemma_count_le_total(edges: Seq<Edge>, k: int)
    requires
        0 <= k < edges.len(),
    ensures
        edges[k].count <= total(edges),
    decreases edges.len(),
{
    if k < edges.len() - 1 {
        lemma_count_le_total(edges.drop_last(), k);
    }
}

proof fn lemma_bump(edges: Seq<Edge>, k: int, e: Edge)
    requires
        0 <= k < edges.len(),
        e.from == edges[k].from,
        e.to == edges[k].to,
        e.count == edges[k].count + 1,
    ensures
        total(edges.update(k, e)) == total(edges) + 1,
        forall|s: State, t: u32|
            #[trigger] weight(edges.update(k, e), s, t) == weight(edges, s, t) + if e.from == s
                && e.to == t {
                1nat
            } else {
                0nat
            },
    decreases edges.len(),
{
    let u = edges.update(k, e);
    if k == edges.len() - 1 {
        assert(u.drop_last() =~= edges.drop_last());
    } else {
        assert(u.drop_last() =~= edges.drop_last().update(k, e));
        lemma_bump(edges.drop_last(), k, e);
    }
    assert forall|s: State, t: u32|
        #[trigger] weight(u, s, t) == weight(edges, s, t) + if e.from == s && e.to == t {
            1nat
        } else {
            0nat
        } by {
        if k == edges.len() - 1 {
            assert(u.drop_last() =~= edges.drop_last());
        } else {
            assert(u.drop_last() =~= edges.drop_last().update(k, e));
            assert(weight(u.drop_last(), s, t) == weight(edges.drop_last(), s, t) + if e.from
                == s && e.to == t {
                1nat
            } else {
                0nat
            });
        }
    }
}

proof fn lemma_weight_present(edges: Seq<Edge>, s: State, t: u32)
    requires
        weight(edges, s, t) > 0,
    ensures
        exists|i: int| 0 <= i < edges.len() && edges[i].from == s && edges[i].to == t,
{
    if !exists|i: int| 0 <= i < edges.len() && edges[i].from == s && edges[i].to == t {
        lemma_weight_absent(edges, s, t);
    }
}

/// A window is stored exactly when some token followed it.
proof fn lemma_has_state_weight(edges: Seq<Edge>, s: State)
    requires
        edges_wf(edges),
    ensures
        has_state(edges, s) <==> exists|t: u32| weight(edges, s, t) > 0,
{
    lemma_succ_positive(edges, s);
    if has_state(edges, s) {
        assert(succ_counts(edges, s)[0] >= 1);
        assert(weight(edges, s, succ_tokens(edges, s)[0]) > 0);
    }
    if exists|t: u32| weight(edges, s, t) > 0 {
        let t = choose|t: u32| weight(edges, s, t) > 0;
        if !has_state(edges, s) {
            assert forall|i: int| 0 <= i < edges.len() implies !(edges[i].from == s
                && edges[i].to == t) by {
                if edges[i].from == s {
                    assert(has_state(edges, s));
                }
            }
            lemma_weight_absent(edges, s, t);
        }
    }
}

proof fn lemma_succ_sum_le_total(edges: Seq<Edge>, s: State)
    ensures
        sum(succ_counts(edges, s)) <= total(edges),
        succ_tokens(edges, s).len() == succ_counts(edges, s).len(),
    decreases edges.len(),
{
    if edges.len() > 0 {
        lemma_succ_sum_le_total(edges.drop_last(), s);
        if edges.last().from == s {
            assert(succ_counts(edges, s).drop_last() =~= succ_counts(edges.drop_last(), s));
        }
    }
}

proof fn lemma_succ_positive(edges: Seq<Edge>, s: State)
    requires
        edges_wf(edges),
    ensures
        succ_tokens(edges, s).len() == succ_counts(edges, s).len(),
        forall|i: int|
            0 <= i < succ_counts(edges, s).len() ==> succ_counts(edges, s)[i] >= 1
                && weight(edges, s, succ_tokens(edges, s)[i]) >= 1,
        has_state(edges, s) <==> succ_tokens(edges, s).len() > 0,
    decreases edges.len(),
{
    if edges.len() > 0 {
        let d = edges.drop_last();
        assert(edges_wf(d)) by {
            assert forall|i: int| 0 <= i < d.len() implies d[i].count >= 1 by {
                assert(d[i] == edges[i]);
            }
        }
        lemma_succ_positive(d, s);
        assert forall|i: int| 0 <= i < succ_counts(edges, s).len() implies succ_counts(
            edges,
            s,
        )[i] >= 1 && weight(edges, s, succ_tokens(edges, s)[i]) >= 1 by {
            if i < succ_counts(d, s).len() {
                assert(succ_counts(edges, s)[i] == succ_counts(d, s)[i]);
                assert(succ_tokens(edges, s)[i] == succ_tokens(d, s)[i]);
            }
        }
        if has_state(d, s) {
            let j = choose|j: int| 0 <= j < d.len() && d[j].from == s;
            assert(edges[j].from == s);
        }
        if has_state(edges, s) && edges.last().from != s {
            let j = choose|j: int| 0 <= j < edges.len() && edges[j].from == s;
            assert(d[j].from == s);
        }
        if edges.last().from == s {
            assert(edges[edges.len() - 1].from == s);
        }
    }
}

proof fn lemma_transitions_take(d: Seq<Seq<u32>>, j: int)
    requires
        0 <= j <= d.len(),
    ensures
        transitions(d.take(j)) <= transitions(d),
    decreases d.len() - j,
{
    if j < d.len() {
        lemma_transitions_take(d, j + 1);
        assert(d.take(j + 1).drop_last() =~= d.take(j));
    } else {
        assert(d.take(j) =~= d);
    }
}

/// The training sequences held by `data`.
pub open spec fn runs(data: Seq<Vec<u32>>) -> Seq<Seq<u32>> {
    data.map_values(|r: Vec<u32>| r@)
}

/// `cum` holds the inclusive prefix sums of `ws`.
pub open spec fn is_cumulative(cum: Seq<u64>, ws: Seq<u64>) -> bool {
    &&& cum.len() == ws.len()
    &&& forall|i: int| 0 <= i < ws.len() ==> cum[i] == prefix_sums(ws)[i]
}

/// The element at `i + off` of the padded `run`.
fn padded_at(run: &Vec<u32>, begin: u32, end: u32, i: usize, off: usize) -> (r: u32)
    requires
        off <= 2,
        i <= run@.len(),
    ensures
        r == padded(run@, begin, end)[i + off],
{
    let ghost x = padded(run@, begin, end);
    assert(x.len() == run@.len() + 3);
    if i < 2 - off {
        begin
    } else if i - (2 - off) < run.len() {
        assert(x[i + off] == run@[i + off - 2]);
        run[i - (2 - off)]
    } else {
        end
    }
}

/// Records one more occurrence of `t` after the window `s`.
fn add_transition(edges: &mut Vec<Edge>, s: State, t: u32)
    requires
        edges_wf(old(edges)@),
        total(old(edges)@) < u64::MAX,
    ensures
        edges_wf(final(edges)@),
        total(final(edges)@) == total(old(edges)@) + 1,
        forall|s2: State, t2: u32|
            #[trigger] weight(final(edges)@, s2, t2) == weight(old(edges)@, s2, t2) + if s2 == s
                && t2 == t {
                1nat
            } else {
                0nat
            },
        final(edges)@.len() >= old(edges)@.len(),
        forall|i: int|
            0 <= i < old(edges)@.len() ==> final(edges)@[i].from == old(edges)@[i].from
                && final(edges)@[i].to == old(edges)@[i].to,
        forall|i: int|
            old(edges)@.len() <= i < final(edges)@.len() ==> final(edges)@[i].from == s
                && final(edges)@[i].to == t,
        has_state(final(edges)@, s),
{
    let mut k: usize = 0;
    while k < edges.len()
        invariant
            0 <= k <= edges@.len(),
            edges@ == old(edges)@,
            edges_wf(edges@),
            total(edges@) < u64::MAX,
            forall|j: int| 0 <= j < k ==> !(edges@[j].from == s && edges@[j].to == t),
        decreases edges@.len() - k,
    {
        let e = edges[k];
        if e.from.0 == s.0 && e.from.1 == s.1 && e.to == t {
            proof {
                lemma_count_le_total(edges@, k as int);
            }
            let bumped = Edge { from: e.from, to: e.to, count: e.count + 1 };
            proof {
                lemma_bump(edges@, k as int, bumped);
            }
            edges.set(k, bumped);
            assert(edges@[k as int].from == s);
            assert(edges@ == old(edges)@.update(k as int, bumped));
            assert(edges_wf(edges@)) by {
                assert forall|i: int, j: int| 0 <= i < j < edges@.len() implies !(
                edges@[i].from == edges@[j].from && edges@[i].to == edges@[j].to) by {
                    assert(old(edges)@[i].from == edges@[i].from && old(edges)@[i].to
                        == edges@[i].to);
                    assert(old(edges)@[j].from == edges@[j].from && old(edges)@[j].to
                        == edges@[j].to);
                }
            }
            return;
        }
        k = k + 1;
    }
    proof {
        lemma_weight_absent(edges@, s, t);
    }
    edges.push(Edge { from: s, to: t, count: 1 });
    assert(edges@.drop_last() =~= old(edges)@);
    assert(edges@[old(edges)@.len() as int].from == s);
    assert forall|s2: State, t2: u32|
        #[trigger] weight(edges@, s2, t2) == weight(old(edges)@, s2, t2) + if s2 == s && t2
            == t {
            1nat
        } else {
            0nat
        } by {
        if s2 == s && t2 == t {
            lemma_weight_absent(old(edges)@, s2, t2);
        }
    }
}

impl Chain {
    /// Turns weights into their inclusive prefix sums.
    fn accumulate(ns: &Vec<u64>) -> (r: Vec<u64>)
        requires
            sum(ns@) <= u64::MAX,
        ensures
            r@.len() == ns@.len(),
            forall|i: int| 0 <= i < ns@.len() ==> r@[i] == prefix_sums(ns@)[i],
    {
        let mut numbers: Vec<u64> = Vec::new();
        let mut running: u64 = 0;
        let mut i: usize = 0;
        while i < ns.len()
            invariant
                0 <= i <= ns@.len(),
                sum(ns@) <= u64::MAX,
                running == sum(ns@.take(i as int)),
                numbers@.len() == i,
                forall|k: int| 0 <= k < i ==> numbers@[k] == prefix_sums(ns@)[k],
            decreases ns@.len() - i,
        {
            proof {
                assert(ns@.take(i + 1).drop_last() =~= ns@.take(i as int));
                lemma_sum_take_mono(ns@, i + 1, ns@.len() as int);
                assert(ns@.take(ns@.len() as int) =~= ns@);
            }
            running = running + ns[i];
            numbers.push(running);
            i = i + 1;
        }
        numbers
    }

    /// The number of entries of the sorted `slice` that are at most `x`.
    fn bisect_right(slice: &Vec<u64>, x: u64) -> (r: usize)
        requires
            forall|i: int, j: int| 0 <= i <= j < slice@.len() ==> slice@[i] <= slice@[j],
        ensures
            r <= slice@.len(),
            forall|i: int| 0 <= i < r ==> slice@[i] <= x,
            forall|i: int| r <= i < slice@.len() ==> slice@[i] > x,
    {
        let mut lo: usize = 0;
        let mut hi: usize = slice.len();
        while lo < hi
            invariant
                0 <= lo <= hi <= slice@.len(),
                forall|i: int, j: int| 0 <= i <= j < slice@.len() ==> slice@[i] <= slice@[j],
                forall|i: int| 0 <= i < lo ==> slice@[i] <= x,
                forall|i: int| hi <= i < slice@.len() ==> slice@[i] > x,
            decreases hi - lo,
        {
            let mid = lo + (hi - lo) / 2;
            if slice[mid] <= x {
                lo = mid + 1;
            } else {
                hi = mid;
            }
        }
        lo
    }

    /// Picks the candidate on whose bucket of the cumulative weights `cum`
    /// the draw falls.
    pub fn pick(choices: &Vec<u32>, cum: &Vec<u64>, draw: u64) -> (r: u32)
        requires
            choices@.len() == cum@.len(),
            cum@.len() > 0,
            forall|i: int, j: int| 0 <= i <= j < cum@.len() ==> cum@[i] <= cum@[j],
            draw < cum@[cum@.len() - 1],
        ensures
            exists|i: int| in_bucket(cum@, draw, i) && r == choices@[i],
    {
        let idx = Self::bisect_right(cum, draw);
        assert(in_bucket(cum@, draw, idx as int));
        choices[idx]
    }
}

impl Chain {
    /// The edges of the model, in the order they were first seen.
    pub closed spec fn edges(&self) -> Seq<Edge> {
        self.edges@
    }

    /// The token that pads the start of every training sequence.
    pub closed spec fn begin(&self) -> u32 {
        self.token_begin
    }

    /// The token that ends every training sequence.
    pub closed spec fn end(&self) -> u32 {
        self.token_end
    }

    /// The initial window, two `begin` tokens.
    pub open spec fn start(&self) -> State {
        (self.begin(), self.begin())
    }

    /// Well-formed: the edges are unique with positive counts, their total
    /// fits in `u64`, every edge that does not end a sequence leads to a
    /// stored window, and the cache holds the initial window's distribution.
    pub closed spec fn wf(&self) -> bool {
        &&& edges_wf(self.edges@)
        &&& total(self.edges@) <= u64::MAX
        &&& closed(self.edges@, self.token_end)
        &&& self.begin_choices@ == succ_tokens(self.edges@, self.start())
        &&& is_cumulative(self.begin_weights@, succ_counts(self.edges@, self.start()))
    }

    /// Creates an empty chain.
    pub fn default(begin: u32, end: u32) -> (r: Self)
        ensures
            r.wf(),
            r.begin() == begin,
            r.end() == end,
            r.edges() == Seq::<Edge>::empty(),
    {
        let r = Chain {
            token_begin: begin,
            token_end: end,
            edges: Vec::new(),
            begin_choices: Vec::new(),
            begin_weights: Vec::new(),
        };
        assert(r.begin_choices@ =~= succ_tokens(r.edges@, r.start()));
        r
    }

    /// The candidates that followed `s` and their cumulative weights.
    fn compile_next(edges: &Vec<Edge>, s: State) -> (r: (Vec<u32>, Vec<u64>))
        requires
            total(edges@) <= u64::MAX,
        ensures
            r.0@ == succ_tokens(edges@, s),
            is_cumulative(r.1@, succ_counts(edges@, s)),
    {
        let mut words: Vec<u32> = Vec::new();
        let mut weights: Vec<u64> = Vec::new();
        let mut j: usize = 0;
        while j < edges.len()
            invariant
                0 <= j <= edges@.len(),
                words@ == succ_tokens(edges@.take(j as int), s),
                weights@ == succ_counts(edges@.take(j as int), s),
            decreases edges@.len() - j,
        {
            assert(edges@.take(j + 1).drop_last() =~= edges@.take(j as int));
            let e = edges[j];
            if e.from.0 == s.0 && e.from.1 == s.1 {
                words.push(e.to);
                weights.push(e.count);
            }
            j = j + 1;
        }
        assert(edges@.take(edges@.len() as int) =~= edges@);
        proof {
            lemma_succ_sum_le_total(edges@, s);
        }
        let cum = Self::accumulate(&weights);
        (words, cum)
    }

    /// Counts, over the padded training sequences, how often each window is
    /// followed by each token.
    fn build(&self, data: &Vec<Vec<u32>>) -> (r: Vec<Edge>)
        requires
            transitions(runs(data@)) <= u64::MAX,
        ensures
            edges_wf(r@),
            total(r@) == transitions(runs(data@)),
            closed(r@, self.token_end),
            forall|s: State, t: u32|
                #[trigger] weight(r@, s, t) == occurrences(
                    runs(data@),
                    self.token_begin,
                    self.token_end,
                    s,
                    t,
                ),
    {
        let b = self.token_begin;
        let e = self.token_end;
        let ghost d = runs(data@);
        let mut edges: Vec<Edge> = Vec::new();
        let mut j: usize = 0;
        while j < data.len()
            invariant
                0 <= j <= data@.len(),
                d == runs(data@),
                b == self.token_begin,
                e == self.token_end,
                transitions(d) <= u64::MAX,
                edges_wf(edges@),
                total(edges@) == transitions(d.take(j as int)),
                forall|s: State, t: u32|
                    #[trigger] weight(edges@, s, t) == occurrences(d.take(j as int), b, e, s, t),
                closed(edges@, e),
            decreases data@.len() - j,
        {
            let run = &data[j];
            let ghost x = padded(run@, b, e);
            proof {
                assert(d.take(j + 1).drop_last() =~= d.take(j as int));
                assert(d.take(j + 1).last() == run@);
                lemma_transitions_take(d, j + 1);
            }
            let mut i: u64 = 0;
            while i <= run.len() as u64
                invariant
                    0 <= i <= run@.len() + 1,
                    x == padded(run@, b, e),
                    run@ == d[j as int],
                    transitions(d.take(j + 1)) <= u64::MAX,
                    transitions(d.take(j + 1)) == transitions(d.take(j as int)) + run@.len() + 1,
                    edges_wf(edges@),
                    total(edges@) == transitions(d.take(j as int)) + i,
                    forall|s: State, t: u32|
                        #[trigger] weight(edges@, s, t) == occurrences(d.take(j as int), b, e, s, t)
                            + occ_upto(x, i as int, s, t),
                    forall|q: int|
                        0 <= q < edges@.len() && edges@[q].to != e ==> has_state(
                            edges@,
                            after(edges@[q]),
                        ) || after(edges@[q]) == (x[i as int], x[i + 1]),
                decreases run@.len() + 1 - i,
            {
                let p0 = padded_at(run, b, e, i as usize, 0);
                let p1 = padded_at(run, b, e, i as usize, 1);
                let p2 = padded_at(run, b, e, i as usize, 2);
                let ghost before = edges@;
                add_transition(&mut edges, (p0, p1), p2);
                proof {
                    assert forall|s: State, t: u32|
                        #[trigger] weight(edges@, s, t) == occurrences(
                            d.take(j as int),
                            b,
                            e,
                            s,
                            t,
                        ) + occ_upto(x, i + 1, s, t) by {
                        assert(occ_upto(x, i + 1, s, t) == occ_upto(x, i as int, s, t) + if x[i as int]
                            == s.0 && x[i + 1] == s.1 && x[i + 2] == t {
                            1nat
                        } else {
                            0nat
                        });
                    }
                    assert forall|q: int|
                        0 <= q < edges@.len() && edges@[q].to != e implies has_state(
                            edges@,
                            after(edges@[q]),
                        ) || after(edges@[q]) == (x[i + 1], x[i + 2]) by {
                        if q < before.len() {
                            assert(after(edges@[q]) == after(before[q]));
                            if has_state(before, after(before[q])) {
                                let w = choose|w: int|
                                    0 <= w < before.len() && before[w].from == after(before[q]);
                                assert(edges@[w].from == before[w].from);
                            }
                        }
                    }
                }
                i = i + 1;
            }
            proof {
                assert(x[run@.len() + 2int] == e);
            }
            j = j + 1;
        }
        assert(d.take(data@.len() as int) =~= d);
        edges
    }

    /// Fills the cache with the distribution of the initial window.
    fn compute(&mut self)
        requires
            total(old(self).edges@) <= u64::MAX,
        ensures
            final(self).edges@ == old(self).edges@,
            final(self).token_begin == old(self).token_begin,
            final(self).token_end == old(self).token_end,
            succ_tokens(old(self).edges@, old(self).start()).len() > 0 ==> {
                &&& final(self).begin_choices@ == succ_tokens(
                    final(self).edges@,
                    final(self).start(),
                )
                &&& is_cumulative(
                    final(self).begin_weights@,
                    succ_counts(final(self).edges@, final(self).start()),
                )
            },
            succ_tokens(old(self).edges@, old(self).start()).len() == 0 ==> {
                &&& final(self).begin_choices@ == old(self).begin_choices@
                &&& final(self).begin_weights@ == old(self).begin_weights@
            },
    {
        let begin_state = self.begin_state();
        let (choices, cum) = Self::compile_next(&self.edges, begin_state);
        if choices.len() > 0 {
            self.begin_choices = choices;
            self.begin_weights = cum;
        }
    }

    /// The initial window.
    fn begin_state(&self) -> (r: State)
        ensures
            r == self.start(),
    {
        (self.token_begin, self.token_begin)
    }

    /// Builds the model of the training sequences `data`, padded with `begin`
    /// and ended by `end`.
    pub fn new(data: &Vec<Vec<u32>>, begin: u32, end: u32) -> (r: Self)
        requires
            transitions(runs(data@)) <= u64::MAX,
        ensures
            r.wf(),
            r.begin() == begin,
            r.end() == end,
            forall|s: State, t: u32|
                #[trigger] weight(r.edges(), s, t) == occurrences(runs(data@), begin, end, s, t),
            forall|s: State|
                #[trigger] has_state(r.edges(), s) <==> exists|t: u32| weight(r.edges(), s, t) > 0,
            edges_wf(r.edges()),
    {
        let mut chain = Self::default(begin, end);
        assert(chain.begin_choices@.len() == 0 && chain.begin_weights@.len() == 0);
        chain.edges = chain.build(data);
        proof {
            lemma_succ_sum_le_total(chain.edges@, chain.start());
        }
        chain.compute();
        proof {
            if succ_tokens(chain.edges@, chain.start()).len() == 0 {
                assert(chain.begin_choices@ =~= succ_tokens(chain.edges@, chain.start()));
                assert(chain.begin_weights@.len() == succ_counts(chain.edges@, chain.start()).len());
            }
            assert forall|s: State| #[trigger] has_state(chain.edges@, s) <==> exists|t: u32|
                weight(chain.edges@, s, t) > 0 by {
                lemma_has_state_weight(chain.edges@, s);
            }
        }
        chain
    }
}

impl Chain {
    /// The candidates that followed `state` and their cumulative weights,
    /// from the cache for the initial window.
    fn distribution(&self, state: &State) -> (r: (Vec<u32>, Vec<u64>))
        requires
            self.wf(),
        ensures
            r.0@ == succ_tokens(self.edges(), *state),
            is_cumulative(r.1@, succ_counts(self.edges(), *state)),
    {
        if state.0 == self.token_begin && state.1 == self.token_begin {
            let choices = self.begin_choices.clone();
            let weights = self.begin_weights.clone();
            assert(choices@ =~= self.begin_choices@);
            assert(weights@ =~= self.begin_weights@);
            (choices, weights)
        } else {
            Self::compile_next(&self.edges, *state)
        }
    }

    /// Draws a candidate with probability proportional to its weight.
    fn sample(choices: &Vec<u32>, cum: &Vec<u64>, Ghost(ws): Ghost<Seq<u64>>) -> (r: u32)
        requires
            choices@.len() == ws.len(),
            ws.len() > 0,
            is_cumulative(cum@, ws),
            forall|i: int| 0 <= i < ws.len() ==> ws[i] >= 1,
        ensures
            exists|i: int| 0 <= i < choices@.len() && r == choices@[i],
            exists|d: u64, i: int|
                d < cum@[cum@.len() - 1] && in_bucket(cum@, d, i) && r == choices@[i],
    {
        proof {
            lemma_prefix_sums(ws);
        }
        let total = Self::total_weight(cum);
        let draw = random_below(total);
        let r = Self::pick(choices, cum, draw);
        r
    }

    /// The total weight of a distribution: its last cumulative weight.
    fn total_weight(cum: &Vec<u64>) -> (b: u64)
        requires
            cum@.len() > 0,
        ensures
            b == cum@[cum@.len() - 1],
    {
        cum[cum.len() - 1]
    }

    /// Whether the model stores the initial window.
    pub fn has_start(&self) -> (r: bool)
        requires
            self.wf(),
        ensures
            r == has_state(self.edges(), self.start()),
    {
        proof {
            lemma_succ_positive(self.edges(), self.start());
        }
        self.begin_choices.len() > 0
    }

    /// The walk `ws` from `start` stopped for a reason: it is `MAX_STEPS`
    /// long, or `end` follows its last window.
    pub open spec fn is_complete(&self, start: State, ws: Seq<u32>) -> bool {
        ws.len() < MAX_STEPS ==> weight(
            self.edges(),
            window(start, ws, ws.len() as int),
            self.end(),
        ) > 0
    }

    /// Draws the token that follows `state`, each successor with probability
    /// proportional to how often it followed `state` in training.
    pub fn next(&self, state: &State) -> (r: u32)
        requires
            self.wf(),
            has_state(self.edges(), *state),
        ensures
            weight(self.edges(), *state, r) > 0,
    {
        let (choices, cum) = self.distribution(state);
        proof {
            lemma_succ_positive(self.edges(), *state);
        }
        let r = Self::sample(&choices, &cum, Ghost(succ_counts(self.edges(), *state)));
        proof {
            let i = choose|i: int| 0 <= i < choices@.len() && r == choices@[i];
            assert(succ_counts(self.edges(), *state)[i] >= 1);
        }
        r
    }

    /// The window a walk starts from: `init`, or else the initial window.
    pub open spec fn origin(&self, init: Option<State>) -> State {
        match init {
            Some(s) => s,
            None => self.start(),
        }
    }

    /// Walks the model from `init_state` (the initial window when `None`)
    /// until `end` is drawn, a window without successors is reached, or
    /// `MAX_STEPS` tokens were produced; `end` itself is not returned.
    pub fn generate(&self, init_state: Option<State>) -> (r: Vec<u32>)
        requires
            self.wf(),
            has_state(self.edges(), self.origin(init_state)),
        ensures
            is_walk(
                self.edges(),
                self.origin(init_state),
                r@,
            ),
            forall|k: int| 0 <= k < r@.len() ==> r@[k] != self.end(),
            r@.len() <= MAX_STEPS,
            self.is_complete(self.origin(init_state), r@),
    {
        let ghost start = self.origin(init_state);
        let mut state = match init_state {
            Some(s) => s,
            None => self.begin_state(),
        };
        let mut result: Vec<u32> = Vec::new();
        while result.len() < MAX_STEPS
            invariant
                self.wf(),
                start == self.origin(init_state),
                result@.len() <= MAX_STEPS,
                state == window(start, result@, result@.len() as int),
                has_state(self.edges(), state),
                is_walk(self.edges(), start, result@),
                forall|k: int| 0 <= k < result@.len() ==> result@[k] != self.end(),
            decreases MAX_STEPS - result@.len(),
        {
            let (choices, cum) = self.distribution(&state);
            proof {
                lemma_succ_positive(self.edges(), state);
            }
            if choices.len() == 0 {
                return result;
            }
            let next_word = Self::sample(&choices, &cum, Ghost(succ_counts(self.edges(), state)));
            proof {
                let i = choose|i: int| 0 <= i < choices@.len() && next_word == choices@[i];
                assert(succ_counts(self.edges(), state)[i] >= 1);
            }
            if next_word == self.token_end {
                return result;
            }
            let ghost prev = result@;
            result.push(next_word);
            proof {
                assert forall|k: int| 0 <= k < result@.len() implies weight(
                    self.edges(),
                    #[trigger] window(start, result@, k),
                    result@[k],
                ) > 0 by {
                    if k < prev.len() {
                        assert(window(start, result@, k) == window(start, prev, k));
                        assert(prev[k] == result@[k]);
                    }
                }
            }
            proof {
                lemma_weight_present(self.edges(), state, next_word);
                let q = choose|q: int|
                    0 <= q < self.edges@.len() && self.edges@[q].from == state
                        && self.edges@[q].to == next_word;
                assert(has_state(self.edges@, after(self.edges@[q])));
            }
            state = (state.1, next_word);
        }
        result
    }

    /// Every stored window that contains `start`, each once, in the order in
    /// which the model first saw them.
    pub fn find_init_states(&self, start: u32) -> (r: Option<Vec<State>>)
        ensures
            r is Some,
            r matches Some(v) ==> {
                &&& forall|i: int, j: int| 0 <= i < j < v@.len() ==> v@[i] != v@[j]
                &&& forall|s: State|
                    v@.contains(s) <==> has_state(self.edges(), s) && (s.0 == start || s.1
                        == start)
            },
    {
        let mut found: Vec<State> = Vec::new();
        let mut j: usize = 0;
        while j < self.edges.len()
            invariant
                0 <= j <= self.edges@.len(),
                forall|a: int, c: int| 0 <= a < c < found@.len() ==> found@[a] != found@[c],
                forall|s: State|
                    found@.contains(s) <==> (exists|q: int|
                        0 <= q < j && #[trigger] self.edges@[q].from == s) && (s.0 == start || s.1
                        == start),
            decreases self.edges@.len() - j,
        {
            let s = self.edges[j].from;
            let ghost prev = found@;
            let mut seen = false;
            if s.0 == start || s.1 == start {
                let mut k: usize = 0;
                while k < found.len()
                    invariant
                        0 <= k <= found@.len(),
                        found@ == prev,
                        seen <==> exists|a: int| 0 <= a < k && found@[a] == s,
                    decreases found@.len() - k,
                {
                    if found[k].0 == s.0 && found[k].1 == s.1 {
                        seen = true;
                    }
                    k = k + 1;
                }
                if !seen {
                    found.push(s);
                }
            }
            proof {
                assert(self.edges@[j as int].from == s);
                assert forall|s2: State|
                    found@.contains(s2) <==> (exists|q: int|
                        0 <= q < j + 1 && #[trigger] self.edges@[q].from == s2) && (s2.0 == start
                        || s2.1 == start) by {
                    if found@.contains(s2) {
                        let a = choose|a: int| 0 <= a < found@.len() && found@[a] == s2;
                        if a < prev.len() {
                            assert(prev.contains(s2));
                        }
                    }
                    if (exists|q: int| 0 <= q < j + 1 && #[trigger] self.edges@[q].from == s2)
                        && (s2.0 == start || s2.1 == start) {
                        if s2 != s {
                            let q = choose|q: int|
                                0 <= q < j + 1 && #[trigger] self.edges@[q].from == s2;
                            assert(q < j);
                            assert(prev.contains(s2));
                            let a = choose|a: int| 0 <= a < prev.len() && prev[a] == s2;
                            assert(found@[a] == s2);
                        } else if seen {
                            let a = choose|a: int| 0 <= a < prev.len() && prev[a] == s2;
                            assert(found@[a] == s2);
                        } else {
                            assert(found@[found@.len() - 1] == s2);
                        }
                    }
                }
            }
            j = j + 1;
        }
        Some(found)
    }
}

/// Every window stored in a well-formed model has at least one successor,
/// and every successor has a positive count.
pub proof fn lemma_states_have_successors(c: &Chain, s: State)
    requires
        c.wf(),
        has_state(c.edges(), s),
    ensures
        succ_tokens(c.edges(), s).len() > 0,
        succ_tokens(c.edges(), s).len() == succ_counts(c.edges(), s).len(),
        forall|i: int|
            0 <= i < succ_counts(c.edges(), s).len() ==> succ_counts(c.edges(), s)[i] >= 1,
{
    lemma_succ_positive(c.edges(), s);
}

proof fn lemma_occ_upto_source(x: Seq<u32>, run: Seq<u32>, b: u32, e: u32, k: int, s: State, t: u32)
    requires
        x == padded(run, b, e),
        0 <= k <= run.len() + 1,
        occ_upto(x, k, s, t) > 0,
        t != e,
    ensures
        run.contains(t),
    decreases k,
{
    if k > 0 {
        if occ_upto(x, k - 1, s, t) > 0 {
            lemma_occ_upto_source(x, run, b, e, k - 1, s, t);
        } else {
            assert(x[k + 1] == t);
            if k + 1 < run.len() + 2 {
                assert(x[k + 1] == run[k - 1]);
            } else {
                assert(x[k + 1] == e);
            }
        }
    }
}

/// A token other than `end` that follows some window in the padded training
/// sequences occurs in one of them.
pub proof fn lemma_occurrences_source(data: Seq<Seq<u32>>, b: u32, e: u32, s: State, t: u32)
    requires
        occurrences(data, b, e, s, t) > 0,
        t != e,
    ensures
        exists|j: int| 0 <= j < data.len() && #[trigger] data[j].contains(t),
    decreases data.len(),
{
    if data.len() > 0 {
        let d = data.drop_last();
        if occurrences(d, b, e, s, t) > 0 {
            lemma_occurrences_source(d, b, e, s, t);
            let j = choose|j: int| 0 <= j < d.len() && #[trigger] d[j].contains(t);
            assert(data[j] == d[j]);
        } else {
            lemma_occ_upto_source(
                padded(data.last(), b, e),
                data.last(),
                b,
                e,
                data.last().len() + 1 as int,
                s,
                t,
            );
            assert(data[data.len() - 1].contains(t));
        }
    }
}

/// The token `t` occurs in one of the sequences `data`.
pub open spec fn in_runs(data: Seq<Seq<u32>>, t: u32) -> bool {
    exists|j: int| 0 <= j < data.len() && #[trigger] data[j].contains(t)
}

/// A walk through a model built from training sequences that hold neither
/// sentinel, and that does not produce `end` (as `generate` ensures), never
/// produces either sentinel: every token it produces occurs in the training
/// sequences.
pub proof fn lemma_walk_avoids_sentinels(
    c: &Chain,
    data: Seq<Seq<u32>>,
    init: Option<State>,
    r: Seq<u32>,
)
    requires
        forall|s: State, t: u32|
            #[trigger] weight(c.edges(), s, t) == occurrences(data, c.begin(), c.end(), s, t),
        forall|j: int|
            0 <= j < data.len() ==> !(#[trigger] data[j]).contains(c.begin()) && !data[j].contains(
                c.end(),
            ),
        is_walk(c.edges(), c.origin(init), r),
        forall|k: int| 0 <= k < r.len() ==> r[k] != c.end(),
    ensures
        forall|k: int| 0 <= k < r.len() ==> r[k] != c.begin() && r[k] != c.end(),
        forall|k: int| 0 <= k < r.len() ==> in_runs(data, #[trigger] r[k]),
{
    assert forall|k: int| 0 <= k < r.len() implies in_runs(data, #[trigger] r[k]) by {
        let w = window(c.origin(init), r, k);
        assert(weight(c.edges(), w, r[k]) > 0);
        lemma_occurrences_source(data, c.begin(), c.end(), w, r[k]);
    }
    assert forall|k: int| 0 <= k < r.len() implies r[k] != c.begin() && r[k] != c.end() by {
        assert(in_runs(data, r[k]));
        let j = choose|j: int| 0 <= j < data.len() && #[trigger] data[j].contains(r[k]);
    }
}

} // verus!
