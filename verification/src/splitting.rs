//! Splitting the automaton on a state variable keeps the verdict of the
//! property-driven check: a product state of the split automaton stands for
//! the product state of the unsplit automaton at the state it copies.
use vstd::prelude::*;
use crate::automata::{edge_set, split_edge, split_edges, BuchiAutomata};
use crate::bdd::{Bdd, BddManager};
use crate::fsm::FsmBdd;
use crate::trans::bm_width;
use crate::fsm::image_step;
use crate::product::{
    accepting_pairs, advance, back_edges, back_iter, back_reach, back_step, fair_pairs, fair_round,
    initial_pairs, lemma_prod_reach_closed, no_fair_accepting, prod_iter, prod_reach, prod_step,
    project, propagate, retreat,
};
use crate::trans::conj;
use crate::valuation::{complement, post_set, pre_set, valuations, var_set};

verus! {

/// The valuations on the side `b` of variable `v`.
pub open spec fn side(w: nat, v: nat, b: bool) -> Set<Seq<bool>> {
    if b {
        var_set(w, v)
    } else {
        complement(w, var_set(w, v))
    }
}

/// `fwd2` is `fwd` split on variable `v`: its edges are the copies of the
/// edges of `fwd`, and its states the states of `fwd` and their copies.
pub open spec fn split_of(
    w: nat,
    v: nat,
    fwd: Seq<Seq<(usize, Set<Seq<bool>>)>>,
    fwd2: Seq<Seq<(usize, Set<Seq<bool>>)>>,
) -> bool {
    &&& fwd2.len() <= 2 * fwd.len()
    &&& 2 * fwd.len() <= usize::MAX
    &&& v < w
    &&& edge_set(fwd2) == split_edges(w, fwd.len() as int, v, edge_set(fwd))
    &&& forall|q: int, k: int| 0 <= q < fwd.len() && 0 <= k < fwd[q].len() ==> (#[trigger] fwd[q][k]).0 < fwd.len()
    &&& forall|q: int, k: int| 0 <= q < fwd2.len() && 0 <= k < fwd2[q].len() ==> (#[trigger] fwd2[q][k]).0 < fwd2.len()
}

/// The state of the unsplit automaton that state `q` of the split one
/// copies.
pub open spec fn orig(n: int, q: int) -> int {
    if q >= n {
        q - n
    } else {
        q
    }
}

/// An edge of the split automaton is a copy of an edge of the unsplit one.
proof fn lemma_split_project(
    w: nat,
    v: nat,
    fwd: Seq<Seq<(usize, Set<Seq<bool>>)>>,
    fwd2: Seq<Seq<(usize, Set<Seq<bool>>)>>,
    q2: int,
    k: int,
) -> (r: (int, bool))
    requires
        split_of(w, v, fwd, fwd2),
        0 <= q2 < fwd2.len(),
        0 <= k < fwd2[q2].len(),
    ensures
        0 <= r.0 < fwd[orig(fwd.len() as int, q2)].len(),
        0 <= orig(fwd.len() as int, q2) < fwd.len(),
        orig(fwd.len() as int, fwd2[q2][k].0 as int) == fwd[orig(fwd.len() as int, q2)][r.0].0 as int,
        fwd2[q2][k].0 as int == fwd[orig(fwd.len() as int, q2)][r.0].0 as int + (if r.1 {
            fwd.len() as int
        } else {
            0
        }),
        fwd2[q2][k].1 == fwd[orig(fwd.len() as int, q2)][r.0].1.intersect(side(w, v, r.1)),
{
    let n = fwd.len() as int;
    let es = edge_set(fwd);
    let e = (q2, fwd2[q2][k].0 as int, fwd2[q2][k].1);
    assert(fwd2[e.0][k] == (e.1 as usize, e.2));
    assert(edge_set(fwd2).contains(e));
    let (f, t, l, b1, b2) = choose|f: int, t: int, l: Set<Seq<bool>>, b1: bool, b2: bool|
        #![trigger es.contains((f, t, l)), split_edge(w, n, v, f, t, l, b1, b2)]
        es.contains((f, t, l)) && e == split_edge(w, n, v, f, t, l, b1, b2);
    let k0 = choose|k0: int| 0 <= f < fwd.len() && 0 <= k0 < fwd[f].len() && #[trigger] fwd[f][k0] == (t as usize, l) && 0 <= t <= usize::MAX;
    assert(fwd[f][k0].0 < fwd.len());
    assert(orig(n, q2) == f);
    (k0, b2)
}

/// Each copy of an edge of the unsplit automaton is an edge of the split
/// one.
proof fn lemma_split_lift(
    w: nat,
    v: nat,
    fwd: Seq<Seq<(usize, Set<Seq<bool>>)>>,
    fwd2: Seq<Seq<(usize, Set<Seq<bool>>)>>,
    f: int,
    k0: int,
    b1: bool,
    b2: bool,
) -> (k: int)
    requires
        split_of(w, v, fwd, fwd2),
        0 <= f < fwd.len(),
        0 <= k0 < fwd[f].len(),
    ensures
        0 <= f + (if b1 { fwd.len() as int } else { 0 }) < fwd2.len(),
        0 <= k < fwd2[f + (if b1 { fwd.len() as int } else { 0 })].len(),
        fwd2[f + (if b1 { fwd.len() as int } else { 0 })][k].0 as int == fwd[f][k0].0 as int + (if b2 {
            fwd.len() as int
        } else {
            0
        }),
        fwd2[f + (if b1 { fwd.len() as int } else { 0 })][k].1 == fwd[f][k0].1.intersect(side(w, v, b2)),
{
    let n = fwd.len() as int;
    let es = edge_set(fwd);
    let t = fwd[f][k0].0 as int;
    let l = fwd[f][k0].1;
    assert(fwd[f][k0].0 < fwd.len());
    let e0 = (f, t, l);
    assert(0 <= e0.0 < fwd.len() && 0 <= k0 < fwd[e0.0].len() && fwd[e0.0][k0] == (e0.1 as usize, e0.2) && 0 <= e0.1 <= usize::MAX);
    assert(es.contains(e0));
    let e = split_edge(w, n, v, f, t, l, b1, b2);
    assert(split_edges(w, n, v, es).contains(e));
    assert(edge_set(fwd2).contains(e));
    let k = choose|k: int|
        0 <= e.0 < fwd2.len() && 0 <= k < fwd2[e.0].len() && #[trigger] fwd2[e.0][k] == (e.1 as usize, e.2) && 0 <= e.1
            <= usize::MAX;
    k
}

/// The initial states of the split automaton: those of the unsplit one and
/// their copies.
pub open spec fn split_states(n: nat, s: Seq<usize>) -> Seq<usize> {
    s + s.map_values(|a: usize| (a + n) as usize)
}

proof fn lemma_split_states(n: nat, s: Seq<usize>, q2: int)
    requires
        2 * n <= usize::MAX,
        forall|j: int| 0 <= j < s.len() ==> #[trigger] s[j] < n,
        0 <= q2,
    ensures
        split_states(n, s).contains(q2 as usize) && q2 <= usize::MAX ==> 0 <= orig(n as int, q2) < n && s.contains(
            orig(n as int, q2) as usize,
        ),
        forall|q: int| 0 <= q < n && s.contains(q as usize) ==> #[trigger] split_states(n, s).contains(q as usize)
            && split_states(n, s).contains((q + n) as usize),
{
    let ss = split_states(n, s);
    if ss.contains(q2 as usize) && q2 <= usize::MAX {
        let j = choose|j: int| 0 <= j < ss.len() && ss[j] == q2 as usize;
        if j < s.len() {
            assert(ss[j] == s[j]);
        } else {
            let i = j - s.len();
            assert(ss[j] == (s[i] + n) as usize);
            assert(s[i] < n);
            assert(s[i] as int == q2 - n);
        }
    }
    assert forall|q: int| 0 <= q < n && s.contains(q as usize) implies #[trigger] ss.contains(q as usize) && ss.contains(
        (q + n) as usize,
    ) by {
        let i = choose|i: int| 0 <= i < s.len() && s[i] == q as usize;
        assert(ss[i] == s[i]);
        assert(ss[s.len() + i] == (s[i] + n) as usize);
    }
}

/// The valuations of product states that the product reaches have `w`
/// variables.
proof fn lemma_iter_lengths(
    w: nat,
    fwd: Seq<Seq<(usize, Set<Seq<bool>>)>>,
    inv: Set<Seq<bool>>,
    ts: Seq<Set<Seq<bool>>>,
    s: Set<(int, Seq<bool>)>,
    m: nat,
    q: int,
    x: Seq<bool>,
)
    requires
        forall|q: int, x: Seq<bool>| #[trigger] s.contains((q, x)) ==> x.len() == w,
        prod_iter(w, fwd, inv, ts, s, m).contains((q, x)),
    ensures
        x.len() == w,
{
    if m > 0 {
        let prev = prod_iter(w, fwd, inv, ts, s, (m - 1) as nat);
        let y = choose|y: Seq<bool>|
            propagate(fwd, prev).contains((q, y)) && #[trigger] image_step(w, true, set![y], inv, ts, valuations(w)).contains(x);
    }
}

/// What the split product reaches stands for what the unsplit one reaches.
proof fn lemma_project_iter(
    w: nat,
    v: nat,
    fwd: Seq<Seq<(usize, Set<Seq<bool>>)>>,
    fwd2: Seq<Seq<(usize, Set<Seq<bool>>)>>,
    inv: Set<Seq<bool>>,
    ts: Seq<Set<Seq<bool>>>,
    init: Set<Seq<bool>>,
    init_states: Seq<usize>,
    m: nat,
    q2: int,
    x: Seq<bool>,
)
    requires
        split_of(w, v, fwd, fwd2),
        forall|j: int| 0 <= j < init_states.len() ==> #[trigger] init_states[j] < fwd.len(),
        prod_iter(
            w,
            fwd2,
            inv,
            ts,
            initial_pairs(fwd2.len(), split_states(fwd.len(), init_states), init),
            m,
        ).contains((q2, x)),
    ensures
        0 <= q2 < fwd2.len(),
        prod_iter(w, fwd, inv, ts, initial_pairs(fwd.len(), init_states, init), m).contains(
            (orig(fwd.len() as int, q2), x),
        ),
    decreases m,
{
    let n = fwd.len();
    let p0 = initial_pairs(n, init_states, init);
    let p2 = initial_pairs(fwd2.len(), split_states(n, init_states), init);
    if m == 0 {
        lemma_split_states(n, init_states, q2);
        assert(p0.contains((orig(n as int, q2), x)));
    } else {
        let prev2 = prod_iter(w, fwd2, inv, ts, p2, (m - 1) as nat);
        let prev = prod_iter(w, fwd, inv, ts, p0, (m - 1) as nat);
        let y = choose|y: Seq<bool>|
            propagate(fwd2, prev2).contains((q2, y)) && #[trigger] image_step(w, true, set![y], inv, ts, valuations(w)).contains(x);
        let (f2, k) = choose|f2: int, k: int|
            0 <= f2 < fwd2.len() && 0 <= k < fwd2[f2].len() && #[trigger] fwd2[f2][k].0 == q2 && fwd2[f2][k].1.contains(y)
                && prev2.contains((f2, y));
        lemma_project_iter(w, v, fwd, fwd2, inv, ts, init, init_states, (m - 1) as nat, f2, y);
        let (k0, b) = lemma_split_project(w, v, fwd, fwd2, f2, k);
        let f = orig(n as int, f2);
        assert(fwd[f][k0].1.contains(y));
        let p = (orig(n as int, q2), x);
        assert(propagate(fwd, prev).contains((p.0, y)) && image_step(w, true, set![y], inv, ts, valuations(w)).contains(p.1));
        assert(advance(w, inv, ts, propagate(fwd, prev)).contains(p));
    }
}

/// What the unsplit product reaches, at a state with an edge or after a
/// step, the split product reaches at a copy of that state.
proof fn lemma_lift_iter(
    w: nat,
    v: nat,
    fwd: Seq<Seq<(usize, Set<Seq<bool>>)>>,
    fwd2: Seq<Seq<(usize, Set<Seq<bool>>)>>,
    inv: Set<Seq<bool>>,
    ts: Seq<Set<Seq<bool>>>,
    init: Set<Seq<bool>>,
    init_states: Seq<usize>,
    m: nat,
    q: int,
    x: Seq<bool>,
) -> (b: bool)
    requires
        split_of(w, v, fwd, fwd2),
        init.subset_of(valuations(w)),
        forall|j: int| 0 <= j < init_states.len() ==> #[trigger] init_states[j] < fwd.len(),
        prod_iter(w, fwd, inv, ts, initial_pairs(fwd.len(), init_states, init), m).contains((q, x)),
        m >= 1 || fwd[q].len() > 0,
    ensures
        0 <= q + (if b { fwd.len() as int } else { 0 }) < fwd2.len(),
        prod_iter(
            w,
            fwd2,
            inv,
            ts,
            initial_pairs(fwd2.len(), split_states(fwd.len(), init_states), init),
            m,
        ).contains((q + (if b { fwd.len() as int } else { 0 }), x)),
    decreases m,
{
    let n = fwd.len();
    let p0 = initial_pairs(n, init_states, init);
    let p2 = initial_pairs(fwd2.len(), split_states(n, init_states), init);
    if m == 0 {
        let k = lemma_split_lift(w, v, fwd, fwd2, q, 0, false, false);
        lemma_split_states(n, init_states, q);
        assert(p2.contains((q, x)));
        false
    } else {
        let prev2 = prod_iter(w, fwd2, inv, ts, p2, (m - 1) as nat);
        let prev = prod_iter(w, fwd, inv, ts, p0, (m - 1) as nat);
        let y = choose|y: Seq<bool>|
            propagate(fwd, prev).contains((q, y)) && #[trigger] image_step(w, true, set![y], inv, ts, valuations(w)).contains(x);
        let (f, k0) = choose|f: int, k0: int|
            0 <= f < fwd.len() && 0 <= k0 < fwd[f].len() && #[trigger] fwd[f][k0].0 == q && fwd[f][k0].1.contains(y)
                && prev.contains((f, y));
        assert(forall|q: int, x: Seq<bool>| #[trigger] p0.contains((q, x)) ==> x.len() == w);
        lemma_iter_lengths(w, fwd, inv, ts, p0, (m - 1) as nat, f, y);
        let b1 = lemma_lift_iter(w, v, fwd, fwd2, inv, ts, init, init_states, (m - 1) as nat, f, y);
        let b2 = var_set(w, v).contains(y);
        let k = lemma_split_lift(w, v, fwd, fwd2, f, k0, b1, b2);
        let f2 = f + (if b1 { n as int } else { 0 });
        assert(fwd2[f2][k].1.contains(y));
        let q2 = q + (if b2 { n as int } else { 0 });
        assert(fwd2[f2][k].0 < fwd2.len());
        let p = (q2, x);
        assert(propagate(fwd2, prev2).contains((p.0, y)) && image_step(w, true, set![y], inv, ts, valuations(w)).contains(p.1));
        assert(advance(w, inv, ts, propagate(fwd2, prev2)).contains(p));
        b2
    }
}

/// What the split product reaches stands for what the unsplit one reaches.
proof fn lemma_project_reach(
    w: nat,
    v: nat,
    fwd: Seq<Seq<(usize, Set<Seq<bool>>)>>,
    fwd2: Seq<Seq<(usize, Set<Seq<bool>>)>>,
    inv: Set<Seq<bool>>,
    ts: Seq<Set<Seq<bool>>>,
    init: Set<Seq<bool>>,
    init_states: Seq<usize>,
    q2: int,
    x: Seq<bool>,
)
    requires
        split_of(w, v, fwd, fwd2),
        forall|j: int| 0 <= j < init_states.len() ==> #[trigger] init_states[j] < fwd.len(),
        prod_reach(w, fwd2, inv, ts, initial_pairs(fwd2.len(), split_states(fwd.len(), init_states), init)).contains(
            (q2, x),
        ),
    ensures
        0 <= q2 < fwd2.len(),
        prod_reach(w, fwd, inv, ts, initial_pairs(fwd.len(), init_states, init)).contains(
            (orig(fwd.len() as int, q2), x),
        ),
{
    let p2 = initial_pairs(fwd2.len(), split_states(fwd.len(), init_states), init);
    let m = choose|m: nat| #[trigger] prod_iter(w, fwd2, inv, ts, p2, m).contains((q2, x));
    lemma_project_iter(w, v, fwd, fwd2, inv, ts, init, init_states, m, q2, x);
    let p0 = initial_pairs(fwd.len(), init_states, init);
    assert(prod_iter(w, fwd, inv, ts, p0, m).contains((orig(fwd.len() as int, q2), x)));
}

/// What the unsplit product reaches at a state with an edge, the split
/// product reaches at a copy of that state.
proof fn lemma_lift_reach(
    w: nat,
    v: nat,
    fwd: Seq<Seq<(usize, Set<Seq<bool>>)>>,
    fwd2: Seq<Seq<(usize, Set<Seq<bool>>)>>,
    inv: Set<Seq<bool>>,
    ts: Seq<Set<Seq<bool>>>,
    init: Set<Seq<bool>>,
    init_states: Seq<usize>,
    q: int,
    x: Seq<bool>,
) -> (b: bool)
    requires
        split_of(w, v, fwd, fwd2),
        init.subset_of(valuations(w)),
        forall|j: int| 0 <= j < init_states.len() ==> #[trigger] init_states[j] < fwd.len(),
        prod_reach(w, fwd, inv, ts, initial_pairs(fwd.len(), init_states, init)).contains((q, x)),
        0 <= q < fwd.len(),
        fwd[q].len() > 0,
    ensures
        0 <= q + (if b { fwd.len() as int } else { 0 }) < fwd2.len(),
        prod_reach(w, fwd2, inv, ts, initial_pairs(fwd2.len(), split_states(fwd.len(), init_states), init)).contains(
            (q + (if b { fwd.len() as int } else { 0 }), x),
        ),
{
    let p0 = initial_pairs(fwd.len(), init_states, init);
    let m = choose|m: nat| #[trigger] prod_iter(w, fwd, inv, ts, p0, m).contains((q, x));
    let b = lemma_lift_iter(w, v, fwd, fwd2, inv, ts, init, init_states, m, q, x);
    let p2 = initial_pairs(fwd2.len(), split_states(fwd.len(), init_states), init);
    assert(prod_iter(w, fwd2, inv, ts, p2, m).contains((q + (if b { fwd.len() as int } else { 0 }), x)));
    b
}

/// The product states of the unsplit automaton that product states of the
/// split one stand for.
pub open spec fn merged(n: int, s: Set<(int, Seq<bool>)>) -> Set<(int, Seq<bool>)> {
    Set::new(|p: (int, Seq<bool>)| exists|q2: int| #[trigger] s.contains((q2, p.1)) && p.0 == orig(n, q2))
}

/// The reached product states of the split automaton that stand for
/// product states of `s`.
pub open spec fn copies(
    n: int,
    n2: int,
    r2: Set<(int, Seq<bool>)>,
    s: Set<(int, Seq<bool>)>,
) -> Set<(int, Seq<bool>)> {
    Set::new(|p: (int, Seq<bool>)| 0 <= p.0 < n2 && r2.contains(p) && s.contains((orig(n, p.0), p.1)))
}

/// The backward search of the split product stands for that of the
/// unsplit one.
proof fn lemma_project_back(
    w: nat,
    v: nat,
    fwd: Seq<Seq<(usize, Set<Seq<bool>>)>>,
    fwd2: Seq<Seq<(usize, Set<Seq<bool>>)>>,
    inv: Set<Seq<bool>>,
    ts: Seq<Set<Seq<bool>>>,
    init: Set<Seq<bool>>,
    init_states: Seq<usize>,
    s2: Set<(int, Seq<bool>)>,
    m: nat,
    q2: int,
    x: Seq<bool>,
)
    requires
        split_of(w, v, fwd, fwd2),
        forall|j: int| 0 <= j < init_states.len() ==> #[trigger] init_states[j] < fwd.len(),
        ({
            let r2 = prod_reach(w, fwd2, inv, ts, initial_pairs(fwd2.len(), split_states(fwd.len(), init_states), init));
            back_iter(w, fwd2, project(r2, fwd2.len()), inv, ts, s2, m).contains((q2, x))
        }),
    ensures
        ({
            let r = prod_reach(w, fwd, inv, ts, initial_pairs(fwd.len(), init_states, init));
            back_iter(w, fwd, project(r, fwd.len()), inv, ts, merged(fwd.len() as int, s2), m).contains(
                (orig(fwd.len() as int, q2), x),
            )
        }),
    decreases m,
{
    let n = fwd.len();
    let r = prod_reach(w, fwd, inv, ts, initial_pairs(n, init_states, init));
    let r2 = prod_reach(w, fwd2, inv, ts, initial_pairs(fwd2.len(), split_states(n, init_states), init));
    let c = project(r, n);
    let c2 = project(r2, fwd2.len());
    let ms = merged(n as int, s2);
    if m == 0 {
        assert(back_iter(w, fwd2, c2, inv, ts, s2, 0) == s2);
        let p = (orig(n as int, q2), x);
        assert(s2.contains((q2, p.1)) && p.0 == orig(n as int, q2));
        assert(ms.contains(p));
    } else {
        let prev2 = back_iter(w, fwd2, c2, inv, ts, s2, (m - 1) as nat);
        let prev = back_iter(w, fwd, c, inv, ts, ms, (m - 1) as nat);
        let rt2 = retreat(w, inv, ts, prev2);
        let k = choose|k: int|
            0 <= q2 < fwd2.len() && 0 <= k < fwd2[q2].len() && #[trigger] fwd2[q2][k].1.contains(x) && c2[q2].contains(x)
                && rt2.contains((fwd2[q2][k].0 as int, x));
        let t2 = fwd2[q2][k].0 as int;
        let y = choose|y: Seq<bool>|
            prev2.contains((t2, y)) && #[trigger] image_step(w, false, set![y], inv, ts, valuations(w)).contains(x);
        lemma_project_back(w, v, fwd, fwd2, inv, ts, init, init_states, s2, (m - 1) as nat, t2, y);
        let (k0, b) = lemma_split_project(w, v, fwd, fwd2, q2, k);
        let q = orig(n as int, q2);
        assert(r2.contains((q2, x)));
        lemma_project_reach(w, v, fwd, fwd2, inv, ts, init, init_states, q2, x);
        assert(c[q].contains(x));
        assert(fwd[q][k0].1.contains(x));
        let rt = retreat(w, inv, ts, prev);
        let p = (orig(n as int, t2), x);
        assert(prev.contains((p.0, y)) && image_step(w, false, set![y], inv, ts, valuations(w)).contains(p.1));
        assert(rt.contains(p));
        let p2 = (q, x);
        assert(0 <= p2.0 < fwd.len() && 0 <= k0 < fwd[p2.0].len() && fwd[p2.0][k0].1.contains(p2.1) && c[p2.0].contains(p2.1)
            && rt.contains((fwd[p2.0][k0].0 as int, p2.1)));
        assert(back_edges(fwd, c, rt).contains(p2));
    }
}

/// The backward search of the unsplit product is followed by that of the
/// split one from any reached copy.
proof fn lemma_lift_back(
    w: nat,
    v: nat,
    fwd: Seq<Seq<(usize, Set<Seq<bool>>)>>,
    fwd2: Seq<Seq<(usize, Set<Seq<bool>>)>>,
    inv: Set<Seq<bool>>,
    ts: Seq<Set<Seq<bool>>>,
    init: Set<Seq<bool>>,
    init_states: Seq<usize>,
    s: Set<(int, Seq<bool>)>,
    m: nat,
    q2: int,
    x: Seq<bool>,
)
    requires
        split_of(w, v, fwd, fwd2),
        inv.subset_of(valuations(w)),
        ts.len() > 0,
        forall|j: int| 0 <= j < init_states.len() ==> #[trigger] init_states[j] < fwd.len(),
        0 <= q2 < fwd2.len(),
        prod_reach(w, fwd2, inv, ts, initial_pairs(fwd2.len(), split_states(fwd.len(), init_states), init)).contains(
            (q2, x),
        ),
        ({
            let r = prod_reach(w, fwd, inv, ts, initial_pairs(fwd.len(), init_states, init));
            back_iter(w, fwd, project(r, fwd.len()), inv, ts, s, m).contains((orig(fwd.len() as int, q2), x))
        }),
    ensures
        ({
            let r2 = prod_reach(w, fwd2, inv, ts, initial_pairs(fwd2.len(), split_states(fwd.len(), init_states), init));
            back_iter(
                w,
                fwd2,
                project(r2, fwd2.len()),
                inv,
                ts,
                copies(fwd.len() as int, fwd2.len() as int, r2, s),
                m,
            ).contains((q2, x))
        }),
    decreases m,
{
    let n = fwd.len();
    let r = prod_reach(w, fwd, inv, ts, initial_pairs(n, init_states, init));
    let r2 = prod_reach(w, fwd2, inv, ts, initial_pairs(fwd2.len(), split_states(n, init_states), init));
    let c = project(r, n);
    let c2 = project(r2, fwd2.len());
    let cs = copies(n as int, fwd2.len() as int, r2, s);
    let q = orig(n as int, q2);
    if m == 0 {
        assert(back_iter(w, fwd, c, inv, ts, s, 0) == s);
        assert(cs.contains((q2, x)));
    } else {
        let prev = back_iter(w, fwd, c, inv, ts, s, (m - 1) as nat);
        let prev2 = back_iter(w, fwd2, c2, inv, ts, cs, (m - 1) as nat);
        let rt = retreat(w, inv, ts, prev);
        let k0 = choose|k0: int|
            0 <= q < fwd.len() && 0 <= k0 < fwd[q].len() && #[trigger] fwd[q][k0].1.contains(x) && c[q].contains(x)
                && rt.contains((fwd[q][k0].0 as int, x));
        let t = fwd[q][k0].0 as int;
        let z = choose|z: Seq<bool>|
            prev.contains((t, z)) && #[trigger] image_step(w, false, set![z], inv, ts, valuations(w)).contains(x);
        let z1 = choose|z1: Seq<bool>| set![z].intersect(inv).contains(z1) && conj(w, ts).contains(#[trigger] crate::valuation::join(x, z1));
        assert(z1 == z);
        let b1 = q2 >= n;
        let b2 = var_set(w, v).contains(x);
        let k = lemma_split_lift(w, v, fwd, fwd2, q, k0, b1, b2);
        assert(q + (if b1 { n as int } else { 0 }) == q2);
        let t2 = t + (if b2 { n as int } else { 0 });
        assert(fwd2[q2][k].0 < fwd2.len());
        assert(fwd2[q2][k].1.contains(x));
        // the machine steps from `x` to `z` forwards too
        assert(set![x].intersect(inv).contains(x));
        assert(post_set(w, set![x].intersect(inv), conj(w, ts)).contains(z));
        assert(image_step(w, true, set![x], inv, ts, valuations(w)).contains(z));
        let pt = (t2, z);
        assert(propagate(fwd2, r2).contains((pt.0, x)) && image_step(w, true, set![x], inv, ts, valuations(w)).contains(pt.1));
        assert(prod_step(w, fwd2, inv, ts, r2).contains(pt));
        lemma_prod_reach_closed(w, fwd2, inv, ts, initial_pairs(fwd2.len(), split_states(n, init_states), init));
        assert(r2.contains(pt));
        assert(orig(n as int, t2) == t);
        lemma_lift_back(w, v, fwd, fwd2, inv, ts, init, init_states, s, (m - 1) as nat, t2, z);
        let rt2 = retreat(w, inv, ts, prev2);
        let p = (t2, x);
        assert(prev2.contains((p.0, z)) && image_step(w, false, set![z], inv, ts, valuations(w)).contains(p.1));
        assert(rt2.contains(p));
        assert(c2[q2].contains(x));
        let p2 = (q2, x);
        assert(0 <= p2.0 < fwd2.len() && 0 <= k < fwd2[p2.0].len() && fwd2[p2.0][k].1.contains(p2.1) && c2[p2.0].contains(p2.1)
            && rt2.contains((fwd2[p2.0][k].0 as int, p2.1)));
        assert(back_edges(fwd2, c2, rt2).contains(p2));
    }
}

/// A fair reachable accepting state of the split product gives one of the
/// unsplit product.
#[verifier::spinoff_prover]
proof fn lemma_split_fair_merges(
    w: nat,
    v: nat,
    fwd: Seq<Seq<(usize, Set<Seq<bool>>)>>,
    fwd2: Seq<Seq<(usize, Set<Seq<bool>>)>>,
    inv: Set<Seq<bool>>,
    ts: Seq<Set<Seq<bool>>>,
    init: Set<Seq<bool>>,
    init_states: Seq<usize>,
    acc: Seq<usize>,
)
    requires
        split_of(w, v, fwd, fwd2),
        init.subset_of(valuations(w)),
        inv.subset_of(valuations(w)),
        ts.len() > 0,
        forall|j: int| 0 <= j < init_states.len() ==> #[trigger] init_states[j] < fwd.len(),
        forall|j: int| 0 <= j < acc.len() ==> #[trigger] acc[j] < fwd.len(),
        !no_fair_accepting(w, fwd2, inv, ts, init, split_states(fwd.len(), init_states), split_states(fwd.len(), acc)),
    ensures
        !no_fair_accepting(w, fwd, inv, ts, init, init_states, acc),
{
    let n = fwd.len();
    let n2 = fwd2.len();
    let acc2 = split_states(n, acc);
    let p0 = initial_pairs(n, init_states, init);
    let p2 = initial_pairs(n2, split_states(n, init_states), init);
    let r = prod_reach(w, fwd, inv, ts, p0);
    let r2 = prod_reach(w, fwd2, inv, ts, p2);
    let c = project(r, n);
    let c2 = project(r2, n2);
    let a0 = accepting_pairs(acc, c);
    let a02 = accepting_pairs(acc2, c2);
    let f = fair_pairs(w, fwd, c, inv, ts, a0);
    let f2 = fair_pairs(w, fwd2, c2, inv, ts, a02);
    let (k2, x) = choose|k: int, x: Seq<bool>|
        0 <= k < acc2.len() && !!(r2.contains((acc2[k] as int, x)) && #[trigger] f2.contains((acc2[k] as int, x)));
    let q2 = acc2[k2] as int;
    let y2 = choose|y: Set<(int, Seq<bool>)>|
        y.subset_of(a02) && y.subset_of(#[trigger] fair_round(w, fwd2, c2, inv, ts, y)) && y.contains((q2, x));
    let y = merged(n as int, y2);
    assert forall|p: (int, Seq<bool>)| y.contains(p) implies a0.contains(p) && fair_round(w, fwd, c, inv, ts, y).contains(p) by {
        let qq = choose|qq: int| #[trigger] y2.contains((qq, p.1)) && p.0 == orig(n as int, qq);
        assert(a02.contains((qq, p.1)));
        assert(r2.contains((qq, p.1)));
        lemma_project_reach(w, v, fwd, fwd2, inv, ts, init, init_states, qq, p.1);
        lemma_split_states(n, acc, qq);
        assert(fair_round(w, fwd2, c2, inv, ts, y2).contains((qq, p.1)));
        let m = choose|m: nat| m >= 1 && #[trigger] back_iter(w, fwd2, c2, inv, ts, y2, m).contains((qq, p.1));
        lemma_project_back(w, v, fwd, fwd2, inv, ts, init, init_states, y2, m, qq, p.1);
        assert(back_iter(w, fwd, c, inv, ts, y, m).contains(p));
    }
    let q = orig(n as int, q2);
    let p = (q, x);
    assert(y2.contains((q2, p.1)) && p.0 == orig(n as int, q2));
    assert(y.contains(p));
    assert(f.contains(p));
    assert(r.contains(p));
    lemma_split_states(n, acc, q2);
    let j = choose|j: int| 0 <= j < acc.len() && acc[j] == q as usize;
    assert(acc[j] as int == q);
    assert(r.contains((acc[j] as int, x)) && f.contains((acc[j] as int, x)));
}

/// A fair reachable accepting state of the unsplit product gives one of
/// the split product.
#[verifier::spinoff_prover]
proof fn lemma_fair_splits(
    w: nat,
    v: nat,
    fwd: Seq<Seq<(usize, Set<Seq<bool>>)>>,
    fwd2: Seq<Seq<(usize, Set<Seq<bool>>)>>,
    inv: Set<Seq<bool>>,
    ts: Seq<Set<Seq<bool>>>,
    init: Set<Seq<bool>>,
    init_states: Seq<usize>,
    acc: Seq<usize>,
)
    requires
        split_of(w, v, fwd, fwd2),
        init.subset_of(valuations(w)),
        inv.subset_of(valuations(w)),
        ts.len() > 0,
        forall|j: int| 0 <= j < init_states.len() ==> #[trigger] init_states[j] < fwd.len(),
        forall|j: int| 0 <= j < acc.len() ==> #[trigger] acc[j] < fwd.len(),
        !no_fair_accepting(w, fwd, inv, ts, init, init_states, acc),
    ensures
        !no_fair_accepting(w, fwd2, inv, ts, init, split_states(fwd.len(), init_states), split_states(fwd.len(), acc)),
{
    let n = fwd.len();
    let n2 = fwd2.len();
    let acc2 = split_states(n, acc);
    let p0 = initial_pairs(n, init_states, init);
    let p2 = initial_pairs(n2, split_states(n, init_states), init);
    let r = prod_reach(w, fwd, inv, ts, p0);
    let r2 = prod_reach(w, fwd2, inv, ts, p2);
    let c = project(r, n);
    let c2 = project(r2, n2);
    let a0 = accepting_pairs(acc, c);
    let a02 = accepting_pairs(acc2, c2);
    let f = fair_pairs(w, fwd, c, inv, ts, a0);
    let f2 = fair_pairs(w, fwd2, c2, inv, ts, a02);
    let (k, x) = choose|k: int, x: Seq<bool>|
        0 <= k < acc.len() && !!(r.contains((acc[k] as int, x)) && #[trigger] f.contains((acc[k] as int, x)));
    let q = acc[k] as int;
    let y = choose|y: Set<(int, Seq<bool>)>|
        y.subset_of(a0) && y.subset_of(#[trigger] fair_round(w, fwd, c, inv, ts, y)) && y.contains((q, x));
    let y2 = copies(n as int, n2 as int, r2, y);
    assert forall|p: (int, Seq<bool>)| y2.contains(p) implies a02.contains(p) && fair_round(w, fwd2, c2, inv, ts, y2).contains(p) by {
        let qo = orig(n as int, p.0);
        assert(a0.contains((qo, p.1)));
        lemma_split_states(n, acc, qo);
        assert(acc.contains(qo as usize));
        assert(0 <= qo < n);
        assert(acc2.contains(qo as usize) && acc2.contains((qo + n) as usize));
        if p.0 >= n {
            assert(p.0 == qo + n);
        }
        assert(acc2.contains(p.0 as usize));
        assert(fair_round(w, fwd, c, inv, ts, y).contains((qo, p.1)));
        let m = choose|m: nat| m >= 1 && #[trigger] back_iter(w, fwd, c, inv, ts, y, m).contains((qo, p.1));
        lemma_lift_back(w, v, fwd, fwd2, inv, ts, init, init_states, y, m, p.0, p.1);
    }
    assert(fair_round(w, fwd, c, inv, ts, y).contains((q, x)));
    let m = choose|m: nat| m >= 1 && #[trigger] back_iter(w, fwd, c, inv, ts, y, m).contains((q, x));
    let prev = back_iter(w, fwd, c, inv, ts, y, (m - 1) as nat);
    let rt = retreat(w, inv, ts, prev);
    let k0 = choose|k0: int|
        0 <= q < fwd.len() && 0 <= k0 < fwd[q].len() && #[trigger] fwd[q][k0].1.contains(x) && c[q].contains(x)
            && rt.contains((fwd[q][k0].0 as int, x));
    let b = lemma_lift_reach(w, v, fwd, fwd2, inv, ts, init, init_states, q, x);
    let q2 = q + (if b { n as int } else { 0 });
    assert(orig(n as int, q2) == q);
    assert(y2.contains((q2, x)));
    assert(f2.contains((q2, x)));
    lemma_split_states(n, acc, q);
    let j = if b { acc.len() + k } else { k };
    assert(acc2[j] as int == q2);
    assert(r2.contains((acc2[j] as int, x)) && f2.contains((acc2[j] as int, x)));
}

/// Let `fwd2` hold the edges of `fwd` split on variable `v`, and let the
/// initial and accepting states be doubled as `split_states` does. Then no
/// reachable accepting product state over `fwd2` is fair exactly when no
/// reachable accepting product state over `fwd` is.
pub proof fn lemma_split_verdict(
    w: nat,
    v: nat,
    fwd: Seq<Seq<(usize, Set<Seq<bool>>)>>,
    fwd2: Seq<Seq<(usize, Set<Seq<bool>>)>>,
    inv: Set<Seq<bool>>,
    ts: Seq<Set<Seq<bool>>>,
    init: Set<Seq<bool>>,
    init_states: Seq<usize>,
    acc: Seq<usize>,
)
    requires
        split_of(w, v, fwd, fwd2),
        init.subset_of(valuations(w)),
        inv.subset_of(valuations(w)),
        ts.len() > 0,
        forall|j: int| 0 <= j < init_states.len() ==> #[trigger] init_states[j] < fwd.len(),
        forall|j: int| 0 <= j < acc.len() ==> #[trigger] acc[j] < fwd.len(),
    ensures
        no_fair_accepting(w, fwd2, inv, ts, init, split_states(fwd.len(), init_states), split_states(fwd.len(), acc)) == no_fair_accepting(w, fwd, inv, ts, init, init_states, acc),
{
    if !no_fair_accepting(w, fwd2, inv, ts, init, split_states(fwd.len(), init_states), split_states(fwd.len(), acc)) {
        lemma_split_fair_merges(w, v, fwd, fwd2, inv, ts, init, init_states, acc);
    }
    if !no_fair_accepting(w, fwd, inv, ts, init, init_states, acc) {
        lemma_fair_splits(w, v, fwd, fwd2, inv, ts, init, init_states, acc);
    }
}

/// Splitting keeps the verdict of `product::check`: if `split` is what
/// `BuchiAutomata::partition` makes of `a` on state variable `var` (its
/// edges split on BDD variable `2 var`, its initial and accepting states
/// those of `a` and their copies), and the machine has a transition
/// relation, then no reachable accepting product state of `split` with
/// `fsm` is fair exactly when none of `a` with `fsm` is.
pub proof fn lemma_partition_keeps_verdict<BM: BddManager>(
    a: &BuchiAutomata<BM>,
    split: &BuchiAutomata<BM>,
    fsm: &FsmBdd<BM>,
    var: nat,
)
    requires
        split.wf(),
        2 * var < bm_width::<BM>(),
        2 * a.forward@.len() <= usize::MAX,
        split.forward@.len() <= 2 * a.forward@.len(),
        edge_set(split.fwd()) == split_edges(bm_width::<BM>(), a.forward@.len() as int, 2 * var, edge_set(a.fwd())),
        split.init_states@ == split_states(a.forward@.len(), a.init_states@),
        split.accepting_states@ == split_states(a.forward@.len(), a.accepting_states@),
        forall|q: int, k: int|
            0 <= q < a.forward@.len() && 0 <= k < a.fwd()[q].len() ==> (#[trigger] a.fwd()[q][k]).0 < a.forward@.len(),
        forall|j: int| 0 <= j < a.init_states@.len() ==> #[trigger] a.init_states@[j] < a.forward@.len(),
        forall|j: int| 0 <= j < a.accepting_states@.len() ==> #[trigger] a.accepting_states@[j] < a.forward@.len(),
        fsm.parts().len() > 0,
    ensures
        no_fair_accepting(
            bm_width::<BM>(),
            split.fwd(),
            fsm.inv(),
            fsm.parts(),
            fsm.init.denote(),
            split.init_states@,
            split.accepting_states@,
        ) == no_fair_accepting(
            bm_width::<BM>(),
            a.fwd(),
            fsm.inv(),
            fsm.parts(),
            fsm.init.denote(),
            a.init_states@,
            a.accepting_states@,
        ),
{
    let w = bm_width::<BM>();
    fsm.invariants.lemma_wf();
    fsm.init.lemma_wf();
    assert(a.fwd().len() == a.forward@.len());
    assert(split.fwd().len() == split.forward@.len());
    assert forall|q: int, k: int| 0 <= q < split.fwd().len() && 0 <= k < split.fwd()[q].len() implies (
    #[trigger] split.fwd()[q][k]).0 < split.fwd().len() by {
        let (t, l) = split.fwd()[q][k];
        assert(t < split.bwd().len());
    }
    assert(split_of(w, 2 * var, a.fwd(), split.fwd()));
    lemma_split_verdict(
        w,
        2 * var,
        a.fwd(),
        split.fwd(),
        fsm.inv(),
        fsm.parts(),
        fsm.init.denote(),
        a.init_states@,
        a.accepting_states@,
    );
}

} // verus!
