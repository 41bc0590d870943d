//! Property-driven checking: the product of a Büchi automaton, held
//! explicitly, with a state machine over BDDs. A product state pairs an
//! automaton state with a valuation; the vector of BDDs indexed by
//! automaton state holds a set of product states.
use vstd::prelude::*;
use crate::automata::{adjacency, BuchiAutomata};
use crate::bdd::{Bdd, BddManager};
use crate::fsm::{image_step, lemma_step_mono, lemma_step_witness, FsmBdd};
use crate::trans::{bm_width, denotes};
use crate::valuation::{lemma_independent_ops, parity_vars, state_set, valuations};

verus! {

/// The product states that a vector of sets holds.
pub open spec fn pairs(v: Seq<Set<Seq<bool>>>) -> Set<(int, Seq<bool>)> {
    Set::new(|p: (int, Seq<bool>)| 0 <= p.0 < v.len() && v[p.0].contains(p.1))
}

/// The automaton moves: from `(q, x)` along an edge `q -> t` whose label
/// holds at `x` to `(t, x)`.
pub open spec fn propagate(
    fwd: Seq<Seq<(usize, Set<Seq<bool>>)>>,
    s: Set<(int, Seq<bool>)>,
) -> Set<(int, Seq<bool>)> {
    Set::new(
        |p: (int, Seq<bool>)|
            exists|q: int, k: int|
                0 <= q < fwd.len() && 0 <= k < fwd[q].len() && #[trigger] fwd[q][k].0 == p.0
                    && fwd[q][k].1.contains(p.1) && s.contains((q, p.1)),
    )
}

/// The machine moves: from `(q, x)` to `(q, y)` for each successor `y` of
/// `x` within the invariants.
pub open spec fn advance(
    w: nat,
    inv: Set<Seq<bool>>,
    ts: Seq<Set<Seq<bool>>>,
    s: Set<(int, Seq<bool>)>,
) -> Set<(int, Seq<bool>)> {
    Set::new(
        |p: (int, Seq<bool>)|
            exists|x: Seq<bool>|
                s.contains((p.0, x)) && #[trigger] image_step(
                    w,
                    true,
                    set![x],
                    inv,
                    ts,
                    valuations(w),
                ).contains(p.1),
    )
}

/// A product step: the automaton reads the current valuation, then the
/// machine moves.
pub open spec fn prod_step(
    w: nat,
    fwd: Seq<Seq<(usize, Set<Seq<bool>>)>>,
    inv: Set<Seq<bool>>,
    ts: Seq<Set<Seq<bool>>>,
    s: Set<(int, Seq<bool>)>,
) -> Set<(int, Seq<bool>)> {
    advance(w, inv, ts, propagate(fwd, s))
}

/// The product states `n` steps after `s`.
pub open spec fn prod_iter(
    w: nat,
    fwd: Seq<Seq<(usize, Set<Seq<bool>>)>>,
    inv: Set<Seq<bool>>,
    ts: Seq<Set<Seq<bool>>>,
    s: Set<(int, Seq<bool>)>,
    n: nat,
) -> Set<(int, Seq<bool>)>
    decreases n,
{
    if n == 0 {
        s
    } else {
        prod_step(w, fwd, inv, ts, prod_iter(w, fwd, inv, ts, s, (n - 1) as nat))
    }
}

/// The product states reached from `s` in zero or more steps.
pub open spec fn prod_reach(
    w: nat,
    fwd: Seq<Seq<(usize, Set<Seq<bool>>)>>,
    inv: Set<Seq<bool>>,
    ts: Seq<Set<Seq<bool>>>,
    s: Set<(int, Seq<bool>)>,
) -> Set<(int, Seq<bool>)> {
    Set::new(
        |p: (int, Seq<bool>)| exists|n: nat| #[trigger] prod_iter(w, fwd, inv, ts, s, n).contains(p),
    )
}

proof fn lemma_propagate_mono(
    fwd: Seq<Seq<(usize, Set<Seq<bool>>)>>,
    a: Set<(int, Seq<bool>)>,
    b: Set<(int, Seq<bool>)>,
)
    requires
        a.subset_of(b),
    ensures
        propagate(fwd, a).subset_of(propagate(fwd, b)),
{
    assert forall|p: (int, Seq<bool>)| propagate(fwd, a).contains(p) implies propagate(fwd, b).contains(p) by {
        let (q, k) = choose|q: int, k: int|
            0 <= q < fwd.len() && 0 <= k < fwd[q].len() && #[trigger] fwd[q][k].0 == p.0
                && fwd[q][k].1.contains(p.1) && a.contains((q, p.1));
    }
}

proof fn lemma_propagate_union(
    fwd: Seq<Seq<(usize, Set<Seq<bool>>)>>,
    a: Set<(int, Seq<bool>)>,
    b: Set<(int, Seq<bool>)>,
)
    ensures
        propagate(fwd, a.union(b)) == propagate(fwd, a).union(propagate(fwd, b)),
{
    lemma_propagate_mono(fwd, a, a.union(b));
    lemma_propagate_mono(fwd, b, a.union(b));
    assert forall|p: (int, Seq<bool>)| propagate(fwd, a.union(b)).contains(p) implies propagate(
        fwd,
        a,
    ).union(propagate(fwd, b)).contains(p) by {
        let (q, k) = choose|q: int, k: int|
            0 <= q < fwd.len() && 0 <= k < fwd[q].len() && #[trigger] fwd[q][k].0 == p.0
                && fwd[q][k].1.contains(p.1) && a.union(b).contains((q, p.1));
    }
    assert(propagate(fwd, a.union(b)) =~= propagate(fwd, a).union(propagate(fwd, b)));
}

proof fn lemma_advance_mono(
    w: nat,
    inv: Set<Seq<bool>>,
    ts: Seq<Set<Seq<bool>>>,
    a: Set<(int, Seq<bool>)>,
    b: Set<(int, Seq<bool>)>,
)
    requires
        a.subset_of(b),
    ensures
        advance(w, inv, ts, a).subset_of(advance(w, inv, ts, b)),
{
    assert forall|p: (int, Seq<bool>)| advance(w, inv, ts, a).contains(p) implies advance(w, inv, ts, b).contains(p) by {
        let x = choose|x: Seq<bool>|
            a.contains((p.0, x)) && #[trigger] image_step(w, true, set![x], inv, ts, valuations(w)).contains(p.1);
    }
}

proof fn lemma_advance_union(
    w: nat,
    inv: Set<Seq<bool>>,
    ts: Seq<Set<Seq<bool>>>,
    a: Set<(int, Seq<bool>)>,
    b: Set<(int, Seq<bool>)>,
)
    ensures
        advance(w, inv, ts, a.union(b)) == advance(w, inv, ts, a).union(advance(w, inv, ts, b)),
{
    lemma_advance_mono(w, inv, ts, a, a.union(b));
    lemma_advance_mono(w, inv, ts, b, a.union(b));
    assert forall|p: (int, Seq<bool>)| advance(w, inv, ts, a.union(b)).contains(p) implies advance(
        w,
        inv,
        ts,
        a,
    ).union(advance(w, inv, ts, b)).contains(p) by {
        let x = choose|x: Seq<bool>|
            a.union(b).contains((p.0, x)) && #[trigger] image_step(w, true, set![x], inv, ts, valuations(w)).contains(
                p.1,
            );
    }
    assert(advance(w, inv, ts, a.union(b)) =~= advance(w, inv, ts, a).union(advance(w, inv, ts, b)));
}

/// The successors of the set at one automaton state are the pairs that
/// `advance` gives there.
proof fn lemma_advance_at(
    w: nat,
    inv: Set<Seq<bool>>,
    ts: Seq<Set<Seq<bool>>>,
    v: Seq<Set<Seq<bool>>>,
    q: int,
    y: Seq<bool>,
)
    requires
        0 <= q < v.len(),
    ensures
        advance(w, inv, ts, pairs(v)).contains((q, y)) == image_step(w, true, v[q], inv, ts, valuations(w)).contains(y),
{
    if advance(w, inv, ts, pairs(v)).contains((q, y)) {
        let x = choose|x: Seq<bool>|
            pairs(v).contains((q, x)) && #[trigger] image_step(w, true, set![x], inv, ts, valuations(w)).contains(y);
        assert(v[q].contains(x));
        assert(set![x].subset_of(v[q]));
        lemma_step_mono(w, true, set![x], v[q], inv, ts, valuations(w));
    }
    if image_step(w, true, v[q], inv, ts, valuations(w)).contains(y) {
        let x = lemma_step_witness(w, true, v[q], inv, ts, valuations(w), y);
        let p = (q, y);
        assert(pairs(v).contains((p.0, x)));
        assert(image_step(w, true, set![x], inv, ts, valuations(w)).contains(p.1));
        assert(advance(w, inv, ts, pairs(v)).contains(p));
    }
}

/// What the product reaches is closed under the product step.
pub(crate) proof fn lemma_prod_reach_closed(
    w: nat,
    fwd: Seq<Seq<(usize, Set<Seq<bool>>)>>,
    inv: Set<Seq<bool>>,
    ts: Seq<Set<Seq<bool>>>,
    s: Set<(int, Seq<bool>)>,
)
    ensures
        s.subset_of(prod_reach(w, fwd, inv, ts, s)),
        prod_step(w, fwd, inv, ts, prod_reach(w, fwd, inv, ts, s)).subset_of(prod_reach(w, fwd, inv, ts, s)),
{
    let r = prod_reach(w, fwd, inv, ts, s);
    assert forall|p: (int, Seq<bool>)| s.contains(p) implies r.contains(p) by {
        assert(prod_iter(w, fwd, inv, ts, s, 0).contains(p));
    }
    assert forall|p: (int, Seq<bool>)| prod_step(w, fwd, inv, ts, r).contains(p) implies r.contains(p) by {
        let x = choose|x: Seq<bool>|
            propagate(fwd, r).contains((p.0, x)) && #[trigger] image_step(w, true, set![x], inv, ts, valuations(w)).contains(p.1);
        let (q, k) = choose|q: int, k: int|
            0 <= q < fwd.len() && 0 <= k < fwd[q].len() && #[trigger] fwd[q][k].0 == p.0
                && fwd[q][k].1.contains(x) && r.contains((q, x));
        let n = choose|n: nat| #[trigger] prod_iter(w, fwd, inv, ts, s, n).contains((q, x));
        let it = prod_iter(w, fwd, inv, ts, s, n);
        assert(propagate(fwd, it).contains((p.0, x)));
        assert(prod_iter(w, fwd, inv, ts, s, n + 1).contains(p));
    }
}

/// A set that holds `s` and is closed under the product step holds all
/// that the product reaches from `s`.
proof fn lemma_prod_reach_least(
    w: nat,
    fwd: Seq<Seq<(usize, Set<Seq<bool>>)>>,
    inv: Set<Seq<bool>>,
    ts: Seq<Set<Seq<bool>>>,
    s: Set<(int, Seq<bool>)>,
    x: Set<(int, Seq<bool>)>,
)
    requires
        s.subset_of(x),
        prod_step(w, fwd, inv, ts, x).subset_of(x),
    ensures
        prod_reach(w, fwd, inv, ts, s).subset_of(x),
{
    assert forall|p: (int, Seq<bool>)| prod_reach(w, fwd, inv, ts, s).contains(p) implies x.contains(p) by {
        let n = choose|n: nat| #[trigger] prod_iter(w, fwd, inv, ts, s, n).contains(p);
        lemma_prod_iter_within(w, fwd, inv, ts, s, x, n);
    }
}

proof fn lemma_prod_iter_within(
    w: nat,
    fwd: Seq<Seq<(usize, Set<Seq<bool>>)>>,
    inv: Set<Seq<bool>>,
    ts: Seq<Set<Seq<bool>>>,
    s: Set<(int, Seq<bool>)>,
    x: Set<(int, Seq<bool>)>,
    n: nat,
)
    requires
        s.subset_of(x),
        prod_step(w, fwd, inv, ts, x).subset_of(x),
    ensures
        prod_iter(w, fwd, inv, ts, s, n).subset_of(x),
    decreases n,
{
    if n > 0 {
        let prev = prod_iter(w, fwd, inv, ts, s, (n - 1) as nat);
        lemma_prod_iter_within(w, fwd, inv, ts, s, x, (n - 1) as nat);
        lemma_propagate_mono(fwd, prev, x);
        lemma_advance_mono(w, inv, ts, propagate(fwd, prev), propagate(fwd, x));
    }
}

/// The edges of an automaton state, each taken by the states of `data` at
/// its target that satisfy the label and `constraint`, and not yet in
/// `reach`; and `reach` with them added.
pub fn propagate_value<B: Bdd>(
    forward: &Vec<(usize, B)>,
    reach: B,
    data: &Vec<B>,
    constraint: &B,
) -> (r: (B, B))
    requires
        forall|k: int| 0 <= k < forward@.len() ==> (#[trigger] forward@[k]).0 < data@.len(),
    ensures
        r.1.denote() == edges_taken(forward@, denotes(data@), constraint.denote()).difference(reach.denote()),
        r.0.denote() == reach.denote().union(r.1.denote()),
{
    let ghost c = constraint.denote();
    let ghost r0 = reach.denote();
    let ghost ds = denotes(data@);
    let mut reach = reach;
    let mut new_frontier = constraint.and(&constraint.not());
    let mut k: usize = 0;
    proof {
        assert(new_frontier.denote() =~= Set::<Seq<bool>>::empty());
        assert(edges_taken(forward@.take(0), ds, c) =~= Set::<Seq<bool>>::empty());
    }
    while k < forward.len()
        invariant
            forall|k: int| 0 <= k < forward@.len() ==> (#[trigger] forward@[k]).0 < data@.len(),
            ds == denotes(data@),
            c == constraint.denote(),
            k <= forward@.len(),
            new_frontier.denote() == edges_taken(forward@.take(k as int), ds, c).difference(r0),
            reach.denote() == r0.union(new_frontier.denote()),
        decreases forward@.len() - k,
    {
        let (from, label) = (forward[k].0, &forward[k].1);
        proof {
            data@[from as int].lemma_wf();
        }
        let update = data[from].and(label).and(constraint);
        let not_reach = reach.not();
        let update = update.and(&not_reach);
        new_frontier = new_frontier.or(&update);
        reach = reach.or(&update);
        proof {
            assert(forward@.take(k + 1).drop_last() =~= forward@.take(k as int));
            assert(forward@.take(k + 1).last() == forward@[k as int]);
            assert(ds[from as int] == data@[from as int].denote());
            assert(new_frontier.denote() =~= edges_taken(forward@.take(k + 1), ds, c).difference(r0));
            assert(reach.denote() =~= r0.union(new_frontier.denote()));
        }
        k = k + 1;
    }
    assert(forward@.take(k as int) =~= forward@);
    (reach, new_frontier)
}

/// The states that the edges `es` let through: for each edge, the states of
/// `data` at its target that satisfy its label and `c`.
pub open spec fn edges_taken<B: Bdd>(
    es: Seq<(usize, B)>,
    data: Seq<Set<Seq<bool>>>,
    c: Set<Seq<bool>>,
) -> Set<Seq<bool>>
    decreases es.len(),
{
    if es.len() == 0 {
        Set::empty()
    } else {
        edges_taken(es.drop_last(), data, c).union(
            data[es.last().0 as int].intersect(es.last().1.denote()).intersect(c),
        )
    }
}

/// The states at automaton state `q` that the edges so far let through: the
/// edges out of the states below `i`, and the first `k` edges out of `i`.
pub open spec fn prop_at(
    fwd: Seq<Seq<(usize, Set<Seq<bool>>)>>,
    fr: Seq<Set<Seq<bool>>>,
    i: int,
    k: int,
    q: int,
) -> Set<Seq<bool>> {
    Set::new(
        |x: Seq<bool>|
            exists|a: int, b: int|
                0 <= a < fwd.len() && 0 <= b < fwd[a].len() && (a < i || (a == i && b < k))
                    && #[trigger] fwd[a][b].0 == q && fwd[a][b].1.contains(x) && fr[a].contains(x),
    )
}

/// All product states with automaton state below `n`.
pub open spec fn pair_universe(n: int, w: nat) -> Set<(int, Seq<bool>)> {
    Set::new(|p: (int, Seq<bool>)| 0 <= p.0 < n && p.1.len() == w)
}

proof fn lemma_pair_universe_finite(n: int, w: nat)
    requires
        n >= 0,
    ensures
        pair_universe(n, w).finite(),
    decreases n,
{
    if n == 0 {
        assert(pair_universe(0, w) =~= Set::<(int, Seq<bool>)>::empty());
    } else {
        lemma_pair_universe_finite(n - 1, w);
        crate::valuation::lemma_valuations_finite(w);
        let m = valuations(w).map(|x: Seq<bool>| (n - 1, x));
        valuations(w).lemma_map_finite(|x: Seq<bool>| (n - 1, x));
        assert forall|p: (int, Seq<bool>)| pair_universe(n, w).contains(p) implies pair_universe(n - 1, w).union(m).contains(p) by {
            if p.0 == n - 1 {
                assert(valuations(w).contains(p.1));
                assert(m.contains((n - 1, p.1)));
            }
        }
        assert(pair_universe(n, w).subset_of(pair_universe(n - 1, w).union(m)));
        vstd::set_lib::lemma_set_subset_finite(pair_universe(n - 1, w).union(m), pair_universe(n, w));
    }
}

/// What a round of the forward search keeps true.
pub open spec fn post_inv(
    w: nat,
    fwd: Seq<Seq<(usize, Set<Seq<bool>>)>>,
    inv: Set<Seq<bool>>,
    ts: Seq<Set<Seq<bool>>>,
    from: Set<(int, Seq<bool>)>,
    rch: Set<(int, Seq<bool>)>,
    fr: Set<(int, Seq<bool>)>,
    tr: Set<(int, Seq<bool>)>,
) -> bool {
    let r = prod_reach(w, fwd, inv, ts, from);
    &&& rch.subset_of(r)
    &&& fr.subset_of(r)
    &&& tr.subset_of(propagate(fwd, r))
    &&& from.subset_of(rch)
    &&& advance(w, inv, ts, tr).subset_of(rch)
    &&& propagate(fwd, rch).subset_of(tr.union(propagate(fwd, fr)))
}

proof fn lemma_post_round(
    w: nat,
    fwd: Seq<Seq<(usize, Set<Seq<bool>>)>>,
    inv: Set<Seq<bool>>,
    ts: Seq<Set<Seq<bool>>>,
    from: Set<(int, Seq<bool>)>,
    rch: Set<(int, Seq<bool>)>,
    fr: Set<(int, Seq<bool>)>,
    tr: Set<(int, Seq<bool>)>,
)
    requires
        post_inv(w, fwd, inv, ts, from, rch, fr, tr),
    ensures
        ({
            let t = propagate(fwd, fr).difference(tr);
            let fr2 = advance(w, inv, ts, t);
            post_inv(w, fwd, inv, ts, from, rch.union(fr2), fr2, tr.union(t))
        }),
{
    let r = prod_reach(w, fwd, inv, ts, from);
    let t = propagate(fwd, fr).difference(tr);
    let fr2 = advance(w, inv, ts, t);
    lemma_prod_reach_closed(w, fwd, inv, ts, from);
    lemma_propagate_mono(fwd, fr, r);
    lemma_advance_mono(w, inv, ts, t, propagate(fwd, r));
    lemma_advance_union(w, inv, ts, tr, t);
    lemma_propagate_union(fwd, rch, fr2);
}

proof fn lemma_post_done(
    w: nat,
    fwd: Seq<Seq<(usize, Set<Seq<bool>>)>>,
    inv: Set<Seq<bool>>,
    ts: Seq<Set<Seq<bool>>>,
    from: Set<(int, Seq<bool>)>,
    rch: Set<(int, Seq<bool>)>,
    fr: Set<(int, Seq<bool>)>,
    tr: Set<(int, Seq<bool>)>,
)
    requires
        post_inv(w, fwd, inv, ts, from, rch, fr, tr),
        propagate(fwd, fr).subset_of(tr),
    ensures
        rch == prod_reach(w, fwd, inv, ts, from),
{
    lemma_advance_mono(w, inv, ts, propagate(fwd, rch), tr);
    lemma_prod_reach_least(w, fwd, inv, ts, from, rch);
    assert(rch =~= prod_reach(w, fwd, inv, ts, from));
}

/// Every label of the automaton and every set of `v` is a set of states.
pub open spec fn all_states(w: nat, v: Seq<Set<Seq<bool>>>) -> bool {
    forall|q: int| 0 <= q < v.len() ==> state_set(w, #[trigger] v[q])
}

/// Every label of the automaton is a set of states.
pub open spec fn labels_states(w: nat, fwd: Seq<Seq<(usize, Set<Seq<bool>>)>>) -> bool {
    forall|q: int, k: int| 0 <= q < fwd.len() && 0 <= k < fwd[q].len() ==> state_set(w, #[trigger] fwd[q][k].1)
}

/// Whether the image contracts of `fsm` apply to the sets of `v` and the
/// labels of `a`.
pub open spec fn product_applies<BM: BddManager>(
    a: &BuchiAutomata<BM>,
    fsm: &FsmBdd<BM>,
    v: Seq<Set<Seq<bool>>>,
) -> bool {
    fsm.parts().len() == 0 || (state_set(bm_width::<BM>(), fsm.inv()) && all_states(bm_width::<BM>(), v)
        && labels_states(bm_width::<BM>(), a.fwd()))
}

/// `n` BDDs of the empty set.
fn empty_sets<BM: BddManager>(manager: &BM, n: usize) -> (r: Vec<BM::Bdd>)
    ensures
        r@.len() == n,
        forall|q: int| 0 <= q < n ==> (#[trigger] r@[q]).denote() == Set::<Seq<bool>>::empty(),
{
    let mut r: Vec<BM::Bdd> = Vec::new();
    let mut i: usize = 0;
    while i < n
        invariant
            i <= n,
            r@.len() == i,
            forall|q: int| 0 <= q < i ==> (#[trigger] r@[q]).denote() == Set::<Seq<bool>>::empty(),
        decreases n - i,
    {
        r.push(manager.constant(false));
        i = i + 1;
    }
    r
}

/// Whether every BDD of `v` is the empty set.
fn all_empty<B: Bdd>(v: &Vec<B>) -> (r: bool)
    ensures
        r == forall|q: int| 0 <= q < v@.len() ==> (#[trigger] v@[q]).denote() == Set::<Seq<bool>>::empty(),
{
    let mut i: usize = 0;
    while i < v.len()
        invariant
            i <= v@.len(),
            forall|q: int| 0 <= q < i ==> (#[trigger] v@[q]).denote() == Set::<Seq<bool>>::empty(),
        decreases v@.len() - i,
    {
        if !v[i].is_constant(false) {
            return false;
        }
        i = i + 1;
    }
    true
}

proof fn lemma_prop_at_start(fwd: Seq<Seq<(usize, Set<Seq<bool>>)>>, fr: Seq<Set<Seq<bool>>>, q: int)
    ensures
        prop_at(fwd, fr, 0, 0, q) == Set::<Seq<bool>>::empty(),
{
    assert(prop_at(fwd, fr, 0, 0, q) =~= Set::<Seq<bool>>::empty());
}

proof fn lemma_prop_at_step(
    fwd: Seq<Seq<(usize, Set<Seq<bool>>)>>,
    fr: Seq<Set<Seq<bool>>>,
    i: int,
    k: int,
    q: int,
)
    requires
        0 <= i < fwd.len(),
        0 <= k < fwd[i].len(),
    ensures
        prop_at(fwd, fr, i, k + 1, q) == (if fwd[i][k].0 == q {
            prop_at(fwd, fr, i, k, q).union(fr[i].intersect(fwd[i][k].1))
        } else {
            prop_at(fwd, fr, i, k, q)
        }),
{
    let lhs = prop_at(fwd, fr, i, k + 1, q);
    let rhs = if fwd[i][k].0 == q {
        prop_at(fwd, fr, i, k, q).union(fr[i].intersect(fwd[i][k].1))
    } else {
        prop_at(fwd, fr, i, k, q)
    };
    assert forall|x: Seq<bool>| lhs.contains(x) implies rhs.contains(x) by {
        let (a, b) = choose|a: int, b: int|
            0 <= a < fwd.len() && 0 <= b < fwd[a].len() && (a < i || (a == i && b < k + 1))
                && #[trigger] fwd[a][b].0 == q && fwd[a][b].1.contains(x) && fr[a].contains(x);
        if !(a == i && b == k) {
            assert(prop_at(fwd, fr, i, k, q).contains(x));
        }
    }
    assert forall|x: Seq<bool>| rhs.contains(x) implies lhs.contains(x) by {
        if prop_at(fwd, fr, i, k, q).contains(x) {
            let (a, b) = choose|a: int, b: int|
                0 <= a < fwd.len() && 0 <= b < fwd[a].len() && (a < i || (a == i && b < k))
                    && #[trigger] fwd[a][b].0 == q && fwd[a][b].1.contains(x) && fr[a].contains(x);
        } else {
            assert(fwd[i][k].0 == q);
        }
    }
    assert(lhs =~= rhs);
}

proof fn lemma_prop_at_next(fwd: Seq<Seq<(usize, Set<Seq<bool>>)>>, fr: Seq<Set<Seq<bool>>>, i: int, q: int)
    requires
        0 <= i < fwd.len(),
    ensures
        prop_at(fwd, fr, i, fwd[i].len() as int, q) == prop_at(fwd, fr, i + 1, 0, q),
{
    assert(prop_at(fwd, fr, i, fwd[i].len() as int, q) =~= prop_at(fwd, fr, i + 1, 0, q));
}

/// After all edges, `prop_at` is the automaton move of the pairs of `fr`.
proof fn lemma_prop_at_all(fwd: Seq<Seq<(usize, Set<Seq<bool>>)>>, fr: Seq<Set<Seq<bool>>>, q: int, x: Seq<bool>)
    requires
        fr.len() == fwd.len(),
    ensures
        prop_at(fwd, fr, fwd.len() as int, 0, q).contains(x) == propagate(fwd, pairs(fr)).contains((q, x)),
{
    if prop_at(fwd, fr, fwd.len() as int, 0, q).contains(x) {
        let (a, b) = choose|a: int, b: int|
            0 <= a < fwd.len() && 0 <= b < fwd[a].len() && (a < fwd.len() || (a == fwd.len() && b < 0))
                && #[trigger] fwd[a][b].0 == q && fwd[a][b].1.contains(x) && fr[a].contains(x);
        let p = (q, x);
        assert(pairs(fr).contains((a, p.1)));
        assert(fwd[a][b].0 == p.0);
        assert(propagate(fwd, pairs(fr)).contains(p));
    }
    if propagate(fwd, pairs(fr)).contains((q, x)) {
        let p = (q, x);
        let (a, b) = choose|a: int, b: int|
            0 <= a < fwd.len() && 0 <= b < fwd[a].len() && #[trigger] fwd[a][b].0 == p.0
                && fwd[a][b].1.contains(p.1) && pairs(fr).contains((a, p.1));
        assert(fwd[a][b].0 == q);
    }
}

/// A propagation round: the states each automaton state gets along the
/// edges from `frontier` and did not get before, which `tmp_reach` then
/// records.
fn propagate_round<BM: BddManager>(
    a: &BuchiAutomata<BM>,
    frontier: &Vec<BM::Bdd>,
    tmp_reach: &mut Vec<BM::Bdd>,
) -> (tmp: Vec<BM::Bdd>)
    requires
        a.wf(),
        frontier@.len() == a.forward@.len(),
        old(tmp_reach)@.len() == a.forward@.len(),
    ensures
        tmp@.len() == a.forward@.len(),
        final(tmp_reach)@.len() == a.forward@.len(),
        forall|q: int|
            0 <= q < a.forward@.len() ==> (#[trigger] tmp@[q]).denote() == prop_at(
                a.fwd(),
                denotes(frontier@),
                a.forward@.len() as int,
                0,
                q,
            ).difference(old(tmp_reach)@[q].denote()),
        forall|q: int|
            0 <= q < a.forward@.len() ==> (#[trigger] final(tmp_reach)@[q]).denote() == old(
                tmp_reach,
            )@[q].denote().union(tmp@[q].denote()),
        forall|q: int|
            0 <= q < a.forward@.len() && state_set(bm_width::<BM>(), old(tmp_reach)@[q].denote())
                && all_states(bm_width::<BM>(), denotes(frontier@)) && labels_states(bm_width::<BM>(), a.fwd())
                ==> state_set(bm_width::<BM>(), (#[trigger] tmp@[q]).denote()),
{
    let ghost w = bm_width::<BM>();
    let ghost fwd = a.fwd();
    let ghost fr = denotes(frontier@);
    let ghost tr0 = denotes(tmp_reach@);
    let n = a.forward.len();
    let mut tmp = empty_sets(&a.manager, n);
    let mut i: usize = 0;
    proof {
        assert forall|q: int| 0 <= q < n implies (#[trigger] tmp@[q]).denote() == prop_at(fwd, fr, 0, 0, q).difference(tr0[q]) by {
            lemma_prop_at_start(fwd, fr, q);
            assert(tmp@[q].denote() =~= prop_at(fwd, fr, 0, 0, q).difference(tr0[q]));
        }
        assert forall|q: int| 0 <= q < n implies (#[trigger] tmp_reach@[q]).denote() == tr0[q].union(tmp@[q].denote()) by {
            assert(tr0[q].union(tmp@[q].denote()) =~= tr0[q]);
        }
    }
    while i < n
        invariant
            a.wf(),
            w == bm_width::<BM>(),
            fwd == a.fwd(),
            fr == denotes(frontier@),
            n == a.forward@.len(),
            frontier@.len() == n,
            tr0.len() == n,
            i <= n,
            tmp@.len() == n,
            tmp_reach@.len() == n,
            forall|q: int| 0 <= q < n ==> (#[trigger] tmp@[q]).denote() == prop_at(fwd, fr, i as int, 0, q).difference(tr0[q]),
            forall|q: int| 0 <= q < n ==> (#[trigger] tmp_reach@[q]).denote() == tr0[q].union(tmp@[q].denote()),
            forall|q: int|
                0 <= q < n && state_set(w, tr0[q]) && all_states(w, fr) && labels_states(w, fwd)
                    ==> state_set(w, (#[trigger] tmp@[q]).denote()),
            tr0 == denotes(old(tmp_reach)@),
        decreases n - i,
    {
        let mut k: usize = 0;
        while k < a.forward[i].len()
            invariant
                a.wf(),
                w == bm_width::<BM>(),
                fwd == a.fwd(),
                fr == denotes(frontier@),
                n == a.forward@.len(),
                frontier@.len() == n,
                tr0.len() == n,
                i < n,
                k <= fwd[i as int].len(),
                tmp@.len() == n,
                tmp_reach@.len() == n,
                forall|q: int| 0 <= q < n ==> (#[trigger] tmp@[q]).denote() == prop_at(fwd, fr, i as int, k as int, q).difference(tr0[q]),
                forall|q: int| 0 <= q < n ==> (#[trigger] tmp_reach@[q]).denote() == tr0[q].union(tmp@[q].denote()),
                forall|q: int|
                    0 <= q < n && state_set(w, tr0[q]) && all_states(w, fr) && labels_states(w, fwd)
                        ==> state_set(w, (#[trigger] tmp@[q]).denote()),
                tr0 == denotes(old(tmp_reach)@),
            decreases fwd[i as int].len() - k,
        {
            let next = a.forward[i][k].0;
            proof {
                assert(fwd[i as int][k as int] == (next, a.forward@[i as int]@[k as int].1.denote()));
                let (t, l) = fwd[i as int][k as int];
                assert(t < fwd.len());
                frontier@[i as int].lemma_wf();
            }
            let not_seen = tmp_reach[next].not();
            let update = frontier[i].and(&a.forward[i][k].1).and(&not_seen);
            let t2 = tmp[next].or(&update);
            let r2 = tmp_reach[next].or(&update);
            let ghost tmp_before = tmp@;
            let ghost tr_before = tmp_reach@;
            tmp.set(next, t2);
            tmp_reach.set(next, r2);
            proof {
                assert forall|q: int| 0 <= q < n implies (#[trigger] tmp@[q]).denote() == prop_at(fwd, fr, i as int, k + 1, q).difference(tr0[q]) by {
                    lemma_prop_at_step(fwd, fr, i as int, k as int, q);
                    if q == next {
                        assert(fr[i as int] == frontier@[i as int].denote());
                        assert(tmp@[q].denote() =~= prop_at(fwd, fr, i as int, k + 1, q).difference(tr0[q]));
                    } else {
                        assert(tmp@[q] == tmp_before[q]);
                    }
                }
                assert forall|q: int| 0 <= q < n implies (#[trigger] tmp_reach@[q]).denote() == tr0[q].union(tmp@[q].denote()) by {
                    if q == next {
                        assert(tmp_reach@[q].denote() =~= tr0[q].union(tmp@[q].denote()));
                    } else {
                        assert(tmp_reach@[q] == tr_before[q]);
                        assert(tmp@[q] == tmp_before[q]);
                    }
                }
                assert forall|q: int|
                    0 <= q < n && state_set(w, tr0[q]) && all_states(w, fr) && labels_states(w, fwd)
                        implies state_set(w, (#[trigger] tmp@[q]).denote()) by {
                    if q == next {
                        assert(state_set(w, fr[i as int]));
                        assert(state_set(w, fwd[i as int][k as int].1));
                        lemma_independent_ops(w, fr[i as int], fwd[i as int][k as int].1, parity_vars(w, 1));
                        lemma_independent_ops(w, tr0[q], tmp_before[q].denote(), parity_vars(w, 1));
                        lemma_independent_ops(w, valuations(w), tr_before[q].denote(), parity_vars(w, 1));
                        lemma_independent_ops(w, fr[i as int].intersect(fwd[i as int][k as int].1), not_seen.denote(), parity_vars(w, 1));
                        lemma_independent_ops(w, tmp_before[q].denote(), update.denote(), parity_vars(w, 1));
                    } else {
                        assert(tmp@[q] == tmp_before[q]);
                    }
                }
            }
            k = k + 1;
        }
        proof {
            assert forall|q: int| 0 <= q < n implies (#[trigger] tmp@[q]).denote() == prop_at(fwd, fr, i + 1, 0, q).difference(tr0[q]) by {
                lemma_prop_at_next(fwd, fr, i as int, q);
            }
        }
        i = i + 1;
    }
    tmp
}

/// The successors within the invariants, as `FsmBdd::post_image` gives
/// them, are an image step without constraint.
proof fn lemma_post_is_step(w: nat, s: Set<Seq<bool>>, inv: Set<Seq<bool>>, ts: Seq<Set<Seq<bool>>>)
    ensures
        crate::trans::post_of(w, s.intersect(inv), ts).intersect(inv) == image_step(w, true, s, inv, ts, valuations(w)),
{
    crate::fsm::lemma_step_valuations(w, true, s, inv, ts, valuations(w));
    assert(crate::trans::post_of(w, s.intersect(inv), ts).intersect(inv).subset_of(valuations(w))) by {
        assert forall|x: Seq<bool>| #[trigger] crate::trans::post_of(w, s.intersect(inv), ts).intersect(inv).contains(x) implies valuations(w).contains(x) by {
            assert(image_step(w, true, s, inv, ts, valuations(w)).contains(x) || !image_step(w, true, s, inv, ts, valuations(w)).contains(x));
        }
    }
    assert(crate::trans::post_of(w, s.intersect(inv), ts).intersect(inv) =~= image_step(w, true, s, inv, ts, valuations(w)));
}

/// The targets of the edges of a well-formed automaton are states.
proof fn lemma_targets<BM: BddManager>(a: &BuchiAutomata<BM>)
    requires
        a.wf(),
    ensures
        forall|q: int, k: int|
            0 <= q < a.fwd().len() && 0 <= k < a.fwd()[q].len() ==> (#[trigger] a.fwd()[q][k]).0 < a.fwd().len(),
{
}

/// The pairs propagated in a round are the new automaton moves from the
/// frontier.
proof fn lemma_round_pairs(
    fwd: Seq<Seq<(usize, Set<Seq<bool>>)>>,
    fr: Seq<Set<Seq<bool>>>,
    tr0: Seq<Set<Seq<bool>>>,
    tmp: Seq<Set<Seq<bool>>>,
    tr1: Seq<Set<Seq<bool>>>,
)
    requires
        fr.len() == fwd.len(),
        tr0.len() == fwd.len(),
        tmp.len() == fwd.len(),
        tr1.len() == fwd.len(),
        forall|q: int, k: int| 0 <= q < fwd.len() && 0 <= k < fwd[q].len() ==> (#[trigger] fwd[q][k]).0 < fwd.len(),
        forall|q: int| 0 <= q < fwd.len() ==> #[trigger] tmp[q] == prop_at(fwd, fr, fwd.len() as int, 0, q).difference(tr0[q]),
        forall|q: int| 0 <= q < fwd.len() ==> #[trigger] tr1[q] == tr0[q].union(tmp[q]),
    ensures
        pairs(tmp) == propagate(fwd, pairs(fr)).difference(pairs(tr0)),
        pairs(tr1) == pairs(tr0).union(pairs(tmp)),
{
    assert forall|p: (int, Seq<bool>)| pairs(tmp).contains(p) == propagate(fwd, pairs(fr)).difference(pairs(tr0)).contains(p) by {
        if 0 <= p.0 < fwd.len() {
            lemma_prop_at_all(fwd, fr, p.0, p.1);
            assert(tmp[p.0] == prop_at(fwd, fr, fwd.len() as int, 0, p.0).difference(tr0[p.0]));
        } else if propagate(fwd, pairs(fr)).contains(p) {
            let (a, b) = choose|a: int, b: int|
                0 <= a < fwd.len() && 0 <= b < fwd[a].len() && #[trigger] fwd[a][b].0 == p.0
                    && fwd[a][b].1.contains(p.1) && pairs(fr).contains((a, p.1));
        }
    }
    assert(pairs(tmp) =~= propagate(fwd, pairs(fr)).difference(pairs(tr0)));
    assert forall|p: (int, Seq<bool>)| pairs(tr1).contains(p) == pairs(tr0).union(pairs(tmp)).contains(p) by {
        if 0 <= p.0 < fwd.len() {
            assert(tr1[p.0] == tr0[p.0].union(tmp[p.0]));
        }
    }
    assert(pairs(tr1) =~= pairs(tr0).union(pairs(tmp)));
}

/// The product states that the product reaches from the states `from`,
/// searched forwards: each round moves the automaton along its edges from
/// the newly reached states, keeps the moves not made before, and lets the
/// machine step from them.
pub fn post_reachable<BM: BddManager>(
    a: &BuchiAutomata<BM>,
    fsm: &FsmBdd<BM>,
    from: &Vec<BM::Bdd>,
) -> (r: Vec<BM::Bdd>)
    requires
        product_applies(a, fsm, denotes(from@)),
        a.wf(),
        fsm.trans.wf(),
        from@.len() == a.forward@.len(),
    ensures
        r@.len() == from@.len(),
        pairs(denotes(r@)) == prod_reach(
            bm_width::<BM>(),
            a.fwd(),
            fsm.inv(),
            fsm.parts(),
            pairs(denotes(from@)),
        ),
        fsm.parts().len() > 0 ==> all_states(
            bm_width::<BM>(),
            denotes(r@),
        ),
{
    let ghost w = bm_width::<BM>();
    let ghost fwd = a.fwd();
    let ghost inv = fsm.inv();
    let ghost ts = fsm.parts();
    let ghost p0 = pairs(denotes(from@));
    let ghost applies = product_applies(a, fsm, denotes(from@));
    let ghost sets = applies && ts.len() > 0;
    let n = from.len();
    let mut frontier = crate::trans::duplicate_all(from);
    let mut reach = crate::trans::duplicate_all(from);
    let mut tmp_reach = empty_sets(&a.manager, n);
    proof {
        lemma_targets(a);
        lemma_pair_universe_finite(n as int, w);
        assert(pairs(denotes(tmp_reach@)) =~= Set::<(int, Seq<bool>)>::empty());
        lemma_prod_reach_closed(w, fwd, inv, ts, p0);
        assert(advance(w, inv, ts, Set::<(int, Seq<bool>)>::empty()) =~= Set::<(int, Seq<bool>)>::empty());
        if sets {
            assert forall|q: int| 0 <= q < n implies state_set(w, #[trigger] denotes(tmp_reach@)[q]) by {
                lemma_independent_ops(w, valuations(w), valuations(w), parity_vars(w, 1));
            }
        }
    }
    loop
        invariant
            a.wf(),
            fsm.trans.wf(),
            w == bm_width::<BM>(),
            fwd == a.fwd(),
            inv == fsm.inv(),
            ts == fsm.parts(),
            n == from@.len(),
            n == a.forward@.len(),
            p0 == pairs(denotes(from@)),
            applies == product_applies(a, fsm, denotes(from@)),
            applies,
            sets == (applies && ts.len() > 0),
            forall|q: int, k: int| 0 <= q < fwd.len() && 0 <= k < fwd[q].len() ==> (#[trigger] fwd[q][k]).0 < fwd.len(),
            frontier@.len() == n,
            reach@.len() == n,
            tmp_reach@.len() == n,
            pair_universe(n as int, w).finite(),
            pairs(denotes(tmp_reach@)).subset_of(pair_universe(n as int, w)),
            applies ==> post_inv(
                w,
                fwd,
                inv,
                ts,
                p0,
                pairs(denotes(reach@)),
                pairs(denotes(frontier@)),
                pairs(denotes(tmp_reach@)),
            ),
            sets ==> all_states(w, denotes(reach@)) && all_states(w, denotes(frontier@))
                && all_states(w, denotes(tmp_reach@)) && state_set(w, inv) && labels_states(w, fwd),
        decreases pair_universe(n as int, w).len() - pairs(denotes(tmp_reach@)).len(),
    {
        let ghost tr0 = denotes(tmp_reach@);
        let ghost fr = denotes(frontier@);
        let tmp = propagate_round(a, &frontier, &mut tmp_reach);
        proof {
            lemma_round_pairs(fwd, fr, tr0, denotes(tmp@), denotes(tmp_reach@));
        }
        if all_empty(&tmp) {
            proof {
                if applies {
                    assert(pairs(denotes(tmp@)) =~= Set::<(int, Seq<bool>)>::empty());
                    assert forall|p: (int, Seq<bool>)| propagate(fwd, pairs(fr)).contains(p) implies pairs(tr0).contains(p) by {
                        assert(!pairs(denotes(tmp@)).contains(p));
                    }
                    lemma_post_done(w, fwd, inv, ts, p0, pairs(denotes(reach@)), pairs(fr), pairs(tr0));
                }
            }
            return reach;
        }
        let ghost rch0 = denotes(reach@);
        proof {
            if ts.len() > 0 {
                assert forall|q: int| 0 <= q < n implies state_set(w, #[trigger] tmp@[q].denote()) by {
                    assert(state_set(w, tr0[q]));
                    assert(all_states(w, fr));
                }
            }
        }
        let mut i: usize = 0;
        while i < n
            invariant
                fsm.trans.wf(),
                w == bm_width::<BM>(),
                inv == fsm.inv(),
                ts == fsm.parts(),
                ts.len() == 0 || (state_set(w, inv) && forall|q: int| 0 <= q < n ==> state_set(w, #[trigger] tmp@[q].denote())),
                i <= n,
                tmp@.len() == n,
                frontier@.len() == n,
                reach@.len() == n,
                rch0.len() == n,
                forall|q: int| 0 <= q < i ==> (#[trigger] frontier@[q]).denote() == image_step(w, true, tmp@[q].denote(), inv, ts, valuations(w))
                    || !(ts.len() == 0 || (state_set(w, tmp@[q].denote()) && state_set(w, inv))),
                forall|q: int| 0 <= q < i ==> (#[trigger] reach@[q]).denote() == rch0[q].union(frontier@[q].denote()),
                forall|q: int| i <= q < n ==> (#[trigger] reach@[q]).denote() == rch0[q],
                forall|q: int| 0 <= q < i && ts.len() > 0 && state_set(w, inv) && state_set(w, tmp@[q].denote()) ==> state_set(w, (#[trigger] frontier@[q]).denote()),
            decreases n - i,
        {
            let image = fsm.post_image(&tmp[i]);
            let r2 = reach[i].or(&image);
            let ghost fb = frontier@;
            let ghost rb = reach@;
            proof {
                lemma_post_is_step(w, tmp@[i as int].denote(), inv, ts);
                if ts.len() > 0 && state_set(w, inv) && state_set(w, tmp@[i as int].denote()) {
                    tmp@[i as int].lemma_wf();
                    crate::fsm::lemma_step_state(w, true, tmp@[i as int].denote(), inv, ts, valuations(w));
                    lemma_independent_ops(w, valuations(w), valuations(w), parity_vars(w, 1));
                }
            }
            reach.set(i, r2);
            frontier.set(i, image);
            proof {
                assert forall|q: int| 0 <= q < i + 1 implies (#[trigger] reach@[q]).denote() == rch0[q].union(frontier@[q].denote()) by {
                    if q < i {
                        assert(reach@[q] == rb[q]);
                        assert(frontier@[q] == fb[q]);
                    }
                }
            }
            i = i + 1;
        }
        proof {
            let t = pairs(denotes(tmp@));
            if applies {
                assert forall|p: (int, Seq<bool>)| pairs(denotes(frontier@)).contains(p) == advance(w, inv, ts, t).contains(p) by {
                    if 0 <= p.0 < n {
                        lemma_advance_at(w, inv, ts, denotes(tmp@), p.0, p.1);
                        if sets {
                            assert(state_set(w, tr0[p.0]));
                            assert(state_set(w, denotes(tmp@)[p.0]));
                        }
                    } else if advance(w, inv, ts, t).contains(p) {
                        let x = choose|x: Seq<bool>| t.contains((p.0, x)) && #[trigger] image_step(w, true, set![x], inv, ts, valuations(w)).contains(p.1);
                    }
                }
                assert(pairs(denotes(frontier@)) =~= advance(w, inv, ts, t));
                assert forall|p: (int, Seq<bool>)| pairs(denotes(reach@)).contains(p) == pairs(rch0).union(pairs(denotes(frontier@))).contains(p) by {
                    if 0 <= p.0 < n {
                        assert(reach@[p.0].denote() == rch0[p.0].union(frontier@[p.0].denote()));
                    }
                }
                assert(pairs(denotes(reach@)) =~= pairs(rch0).union(pairs(denotes(frontier@))));
                lemma_post_round(w, fwd, inv, ts, p0, pairs(rch0), pairs(fr), pairs(tr0));
            }
            if sets {
                assert forall|q: int| 0 <= q < n implies state_set(w, #[trigger] denotes(frontier@)[q]) by {
                    assert(state_set(w, tr0[q]));
                    assert(state_set(w, denotes(tmp@)[q]));
                }
                assert forall|q: int| 0 <= q < n implies state_set(w, #[trigger] denotes(reach@)[q]) by {
                    assert(state_set(w, rch0[q]));
                    assert(state_set(w, denotes(frontier@)[q]));
                    lemma_independent_ops(w, rch0[q], denotes(frontier@)[q], parity_vars(w, 1));
                }
                assert forall|q: int| 0 <= q < n implies state_set(w, #[trigger] denotes(tmp_reach@)[q]) by {
                    assert(state_set(w, tr0[q]));
                    assert(state_set(w, denotes(tmp@)[q]));
                    lemma_independent_ops(w, tr0[q], denotes(tmp@)[q], parity_vars(w, 1));
                }
            }
            // the recorded moves grew
            let tmpp = pairs(denotes(tmp@));
            assert(tmpp != Set::<(int, Seq<bool>)>::empty()) by {
                let q = choose|q: int| 0 <= q < n && (#[trigger] tmp@[q]).denote() != Set::<Seq<bool>>::empty();
                let x = tmp@[q].denote().choose();
                if !tmp@[q].denote().contains(x) {
                    assert(tmp@[q].denote() =~= Set::<Seq<bool>>::empty());
                }
                assert(tmpp.contains((q, x)));
            }
            assert(pairs(denotes(tmp_reach@)).subset_of(pair_universe(n as int, w))) by {
                assert forall|p: (int, Seq<bool>)| pairs(denotes(tmp_reach@)).contains(p) implies pair_universe(n as int, w).contains(p) by {
                    tmp_reach@[p.0].lemma_wf();
                }
            }
            let p = tmpp.choose();
            assert(tmpp.contains(p)) by {
                if !tmpp.contains(p) {
                    assert(tmpp =~= Set::<(int, Seq<bool>)>::empty());
                }
            }
            assert(!pairs(tr0).contains(p));
            vstd::set_lib::lemma_set_subset_finite(pair_universe(n as int, w), pairs(denotes(tmp_reach@)));
            vstd::set_lib::lemma_set_subset_finite(pair_universe(n as int, w), pairs(tr0));
            vstd::set_lib::lemma_len_subset(pairs(tr0).insert(p), pairs(denotes(tmp_reach@)));
            vstd::set_lib::lemma_len_subset(pairs(denotes(tmp_reach@)), pair_universe(n as int, w));
        }
    }
}

/// The machine moves backwards: from `(q, y)` to `(q, x)` for each
/// predecessor `x` of `y` within the invariants.
pub open spec fn retreat(
    w: nat,
    inv: Set<Seq<bool>>,
    ts: Seq<Set<Seq<bool>>>,
    s: Set<(int, Seq<bool>)>,
) -> Set<(int, Seq<bool>)> {
    Set::new(
        |p: (int, Seq<bool>)|
            exists|y: Seq<bool>|
                s.contains((p.0, y)) && #[trigger] image_step(
                    w,
                    false,
                    set![y],
                    inv,
                    ts,
                    valuations(w),
                ).contains(p.1),
    )
}

/// The automaton moves backwards within the constraint: from `(t, x)` to
/// `(q, x)` along an edge `q -> t` whose label holds at `x`, where `x` is in
/// the constraint of `q`.
pub open spec fn back_edges(
    fwd: Seq<Seq<(usize, Set<Seq<bool>>)>>,
    c: Seq<Set<Seq<bool>>>,
    s: Set<(int, Seq<bool>)>,
) -> Set<(int, Seq<bool>)> {
    Set::new(
        |p: (int, Seq<bool>)|
            exists|k: int|
                0 <= p.0 < fwd.len() && 0 <= k < fwd[p.0].len() && #[trigger] fwd[p.0][k].1.contains(p.1)
                    && c[p.0].contains(p.1) && s.contains((fwd[p.0][k].0 as int, p.1)),
    )
}

/// A backward product step within the constraint.
pub open spec fn back_step(
    w: nat,
    fwd: Seq<Seq<(usize, Set<Seq<bool>>)>>,
    c: Seq<Set<Seq<bool>>>,
    inv: Set<Seq<bool>>,
    ts: Seq<Set<Seq<bool>>>,
    s: Set<(int, Seq<bool>)>,
) -> Set<(int, Seq<bool>)> {
    back_edges(fwd, c, retreat(w, inv, ts, s))
}

/// The product states `n` backward steps before `s`.
pub open spec fn back_iter(
    w: nat,
    fwd: Seq<Seq<(usize, Set<Seq<bool>>)>>,
    c: Seq<Set<Seq<bool>>>,
    inv: Set<Seq<bool>>,
    ts: Seq<Set<Seq<bool>>>,
    s: Set<(int, Seq<bool>)>,
    n: nat,
) -> Set<(int, Seq<bool>)>
    decreases n,
{
    if n == 0 {
        s
    } else {
        back_step(w, fwd, c, inv, ts, back_iter(w, fwd, c, inv, ts, s, (n - 1) as nat))
    }
}

/// The product states within the constraint from which `s` is reached in
/// one or more steps through states within the constraint.
pub open spec fn back_reach(
    w: nat,
    fwd: Seq<Seq<(usize, Set<Seq<bool>>)>>,
    c: Seq<Set<Seq<bool>>>,
    inv: Set<Seq<bool>>,
    ts: Seq<Set<Seq<bool>>>,
    s: Set<(int, Seq<bool>)>,
) -> Set<(int, Seq<bool>)> {
    Set::new(
        |p: (int, Seq<bool>)|
            exists|n: nat| n >= 1 && #[trigger] back_iter(w, fwd, c, inv, ts, s, n).contains(p),
    )
}

proof fn lemma_retreat_union(
    w: nat,
    inv: Set<Seq<bool>>,
    ts: Seq<Set<Seq<bool>>>,
    a: Set<(int, Seq<bool>)>,
    b: Set<(int, Seq<bool>)>,
)
    ensures
        retreat(w, inv, ts, a.union(b)) == retreat(w, inv, ts, a).union(retreat(w, inv, ts, b)),
        a.subset_of(b) ==> retreat(w, inv, ts, a).subset_of(retreat(w, inv, ts, b)),
{
    assert forall|p: (int, Seq<bool>)| retreat(w, inv, ts, a.union(b)).contains(p) implies retreat(w, inv, ts, a).union(
        retreat(w, inv, ts, b),
    ).contains(p) by {
        let y = choose|y: Seq<bool>|
            a.union(b).contains((p.0, y)) && #[trigger] image_step(w, false, set![y], inv, ts, valuations(w)).contains(p.1);
    }
    assert forall|p: (int, Seq<bool>)| retreat(w, inv, ts, a).union(retreat(w, inv, ts, b)).contains(p) implies retreat(
        w,
        inv,
        ts,
        a.union(b),
    ).contains(p) by {
        if retreat(w, inv, ts, a).contains(p) {
            let y = choose|y: Seq<bool>|
                a.contains((p.0, y)) && #[trigger] image_step(w, false, set![y], inv, ts, valuations(w)).contains(p.1);
        } else {
            let y = choose|y: Seq<bool>|
                b.contains((p.0, y)) && #[trigger] image_step(w, false, set![y], inv, ts, valuations(w)).contains(p.1);
        }
    }
    assert(retreat(w, inv, ts, a.union(b)) =~= retreat(w, inv, ts, a).union(retreat(w, inv, ts, b)));
    if a.subset_of(b) {
        assert(a.union(b) =~= b);
    }
}

proof fn lemma_back_edges_union(
    fwd: Seq<Seq<(usize, Set<Seq<bool>>)>>,
    c: Seq<Set<Seq<bool>>>,
    a: Set<(int, Seq<bool>)>,
    b: Set<(int, Seq<bool>)>,
)
    ensures
        back_edges(fwd, c, a.union(b)) == back_edges(fwd, c, a).union(back_edges(fwd, c, b)),
        a.subset_of(b) ==> back_edges(fwd, c, a).subset_of(back_edges(fwd, c, b)),
{
    assert forall|p: (int, Seq<bool>)| back_edges(fwd, c, a.union(b)).contains(p) implies back_edges(fwd, c, a).union(
        back_edges(fwd, c, b),
    ).contains(p) by {
        let k = choose|k: int|
            0 <= p.0 < fwd.len() && 0 <= k < fwd[p.0].len() && #[trigger] fwd[p.0][k].1.contains(p.1)
                && c[p.0].contains(p.1) && a.union(b).contains((fwd[p.0][k].0 as int, p.1));
    }
    assert forall|p: (int, Seq<bool>)| back_edges(fwd, c, a).union(back_edges(fwd, c, b)).contains(p) implies back_edges(
        fwd,
        c,
        a.union(b),
    ).contains(p) by {
        if back_edges(fwd, c, a).contains(p) {
            let k = choose|k: int|
                0 <= p.0 < fwd.len() && 0 <= k < fwd[p.0].len() && #[trigger] fwd[p.0][k].1.contains(p.1)
                    && c[p.0].contains(p.1) && a.contains((fwd[p.0][k].0 as int, p.1));
        } else {
            let k = choose|k: int|
                0 <= p.0 < fwd.len() && 0 <= k < fwd[p.0].len() && #[trigger] fwd[p.0][k].1.contains(p.1)
                    && c[p.0].contains(p.1) && b.contains((fwd[p.0][k].0 as int, p.1));
        }
    }
    assert(back_edges(fwd, c, a.union(b)) =~= back_edges(fwd, c, a).union(back_edges(fwd, c, b)));
    if a.subset_of(b) {
        assert(a.union(b) =~= b);
    }
}

proof fn lemma_back_step_union(
    w: nat,
    fwd: Seq<Seq<(usize, Set<Seq<bool>>)>>,
    c: Seq<Set<Seq<bool>>>,
    inv: Set<Seq<bool>>,
    ts: Seq<Set<Seq<bool>>>,
    a: Set<(int, Seq<bool>)>,
    b: Set<(int, Seq<bool>)>,
)
    ensures
        back_step(w, fwd, c, inv, ts, a.union(b)) == back_step(w, fwd, c, inv, ts, a).union(
            back_step(w, fwd, c, inv, ts, b),
        ),
        a.subset_of(b) ==> back_step(w, fwd, c, inv, ts, a).subset_of(back_step(w, fwd, c, inv, ts, b)),
{
    lemma_retreat_union(w, inv, ts, a, b);
    lemma_back_edges_union(fwd, c, retreat(w, inv, ts, a), retreat(w, inv, ts, b));
}

/// What the backward search reaches is closed under the backward step and
/// holds the first step.
proof fn lemma_back_reach_closed(
    w: nat,
    fwd: Seq<Seq<(usize, Set<Seq<bool>>)>>,
    c: Seq<Set<Seq<bool>>>,
    inv: Set<Seq<bool>>,
    ts: Seq<Set<Seq<bool>>>,
    s: Set<(int, Seq<bool>)>,
)
    ensures
        back_step(w, fwd, c, inv, ts, s).subset_of(back_reach(w, fwd, c, inv, ts, s)),
        back_step(w, fwd, c, inv, ts, back_reach(w, fwd, c, inv, ts, s)).subset_of(back_reach(w, fwd, c, inv, ts, s)),
{
    let r = back_reach(w, fwd, c, inv, ts, s);
    assert forall|p: (int, Seq<bool>)| back_step(w, fwd, c, inv, ts, s).contains(p) implies r.contains(p) by {
        assert(back_iter(w, fwd, c, inv, ts, s, 0) == s);
        assert(back_iter(w, fwd, c, inv, ts, s, 1).contains(p));
    }
    assert forall|p: (int, Seq<bool>)| back_step(w, fwd, c, inv, ts, r).contains(p) implies r.contains(p) by {
        let k = choose|k: int|
            0 <= p.0 < fwd.len() && 0 <= k < fwd[p.0].len() && #[trigger] fwd[p.0][k].1.contains(p.1)
                && c[p.0].contains(p.1) && retreat(w, inv, ts, r).contains((fwd[p.0][k].0 as int, p.1));
        let t = fwd[p.0][k].0 as int;
        let y = choose|y: Seq<bool>|
            r.contains((t, y)) && #[trigger] image_step(w, false, set![y], inv, ts, valuations(w)).contains(p.1);
        let n = choose|n: nat| n >= 1 && #[trigger] back_iter(w, fwd, c, inv, ts, s, n).contains((t, y));
        let it = back_iter(w, fwd, c, inv, ts, s, n);
        assert(retreat(w, inv, ts, it).contains((t, p.1)));
        assert(back_edges(fwd, c, retreat(w, inv, ts, it)).contains(p));
        assert(back_iter(w, fwd, c, inv, ts, s, n + 1).contains(p));
    }
}

proof fn lemma_back_iter_within(
    w: nat,
    fwd: Seq<Seq<(usize, Set<Seq<bool>>)>>,
    c: Seq<Set<Seq<bool>>>,
    inv: Set<Seq<bool>>,
    ts: Seq<Set<Seq<bool>>>,
    s: Set<(int, Seq<bool>)>,
    x: Set<(int, Seq<bool>)>,
    n: nat,
)
    requires
        n >= 1,
        back_step(w, fwd, c, inv, ts, s).subset_of(x),
        back_step(w, fwd, c, inv, ts, x).subset_of(x),
    ensures
        back_iter(w, fwd, c, inv, ts, s, n).subset_of(x),
    decreases n,
{
    if n > 1 {
        lemma_back_iter_within(w, fwd, c, inv, ts, s, x, (n - 1) as nat);
        lemma_back_step_union(w, fwd, c, inv, ts, back_iter(w, fwd, c, inv, ts, s, (n - 1) as nat), x);
    } else {
        assert(back_iter(w, fwd, c, inv, ts, s, 0) == s);
    }
}

/// What a round of the backward search keeps true.
pub open spec fn pre_inv(
    w: nat,
    fwd: Seq<Seq<(usize, Set<Seq<bool>>)>>,
    c: Seq<Set<Seq<bool>>>,
    inv: Set<Seq<bool>>,
    ts: Seq<Set<Seq<bool>>>,
    from: Set<(int, Seq<bool>)>,
    rch: Set<(int, Seq<bool>)>,
    fr: Set<(int, Seq<bool>)>,
) -> bool {
    let r = back_reach(w, fwd, c, inv, ts, from);
    &&& rch.subset_of(r)
    &&& fr.subset_of(retreat(w, inv, ts, from.union(r)))
    &&& back_step(w, fwd, c, inv, ts, from).subset_of(rch.union(back_edges(fwd, c, fr)))
    &&& back_step(w, fwd, c, inv, ts, rch).subset_of(rch.union(back_edges(fwd, c, fr)))
}

proof fn lemma_pre_round(
    w: nat,
    fwd: Seq<Seq<(usize, Set<Seq<bool>>)>>,
    c: Seq<Set<Seq<bool>>>,
    inv: Set<Seq<bool>>,
    ts: Seq<Set<Seq<bool>>>,
    from: Set<(int, Seq<bool>)>,
    rch: Set<(int, Seq<bool>)>,
    fr: Set<(int, Seq<bool>)>,
)
    requires
        pre_inv(w, fwd, c, inv, ts, from, rch, fr),
    ensures
        ({
            let t = back_edges(fwd, c, fr).difference(rch);
            pre_inv(w, fwd, c, inv, ts, from, rch.union(t), retreat(w, inv, ts, t))
        }),
{
    let r = back_reach(w, fwd, c, inv, ts, from);
    let t = back_edges(fwd, c, fr).difference(rch);
    lemma_back_reach_closed(w, fwd, c, inv, ts, from);
    lemma_back_edges_union(fwd, c, fr, retreat(w, inv, ts, from.union(r)));
    lemma_back_step_union(w, fwd, c, inv, ts, from, r);
    lemma_retreat_union(w, inv, ts, t, from.union(r));
    lemma_back_step_union(w, fwd, c, inv, ts, rch, t);
}

proof fn lemma_pre_done(
    w: nat,
    fwd: Seq<Seq<(usize, Set<Seq<bool>>)>>,
    c: Seq<Set<Seq<bool>>>,
    inv: Set<Seq<bool>>,
    ts: Seq<Set<Seq<bool>>>,
    from: Set<(int, Seq<bool>)>,
    rch: Set<(int, Seq<bool>)>,
    fr: Set<(int, Seq<bool>)>,
)
    requires
        pre_inv(w, fwd, c, inv, ts, from, rch, fr),
        back_edges(fwd, c, fr).subset_of(rch),
    ensures
        rch == back_reach(w, fwd, c, inv, ts, from),
{
    assert forall|p: (int, Seq<bool>)| back_reach(w, fwd, c, inv, ts, from).contains(p) implies rch.contains(p) by {
        let n = choose|n: nat| n >= 1 && #[trigger] back_iter(w, fwd, c, inv, ts, from, n).contains(p);
        lemma_back_iter_within(w, fwd, c, inv, ts, from, rch, n);
    }
    assert(rch =~= back_reach(w, fwd, c, inv, ts, from));
}

/// A state passes some edge of `es` exactly when `edges_taken` holds it.
proof fn lemma_edges_taken<B: Bdd>(es: Seq<(usize, B)>, data: Seq<Set<Seq<bool>>>, c: Set<Seq<bool>>, x: Seq<bool>)
    ensures
        edges_taken(es, data, c).contains(x) == exists|k: int|
            0 <= k < es.len() && #[trigger] es[k].1.denote().contains(x) && data[es[k].0 as int].contains(x)
                && c.contains(x),
    decreases es.len(),
{
    if es.len() > 0 {
        lemma_edges_taken(es.drop_last(), data, c, x);
        if edges_taken(es, data, c).contains(x) {
            if edges_taken(es.drop_last(), data, c).contains(x) {
                let k = choose|k: int|
                    0 <= k < es.drop_last().len() && #[trigger] es.drop_last()[k].1.denote().contains(x)
                        && data[es.drop_last()[k].0 as int].contains(x) && c.contains(x);
                assert(es[k] == es.drop_last()[k]);
            } else {
                assert(es[es.len() - 1].1.denote().contains(x));
            }
        }
        if exists|k: int|
            0 <= k < es.len() && #[trigger] es[k].1.denote().contains(x) && data[es[k].0 as int].contains(x)
                && c.contains(x) {
            let k = choose|k: int|
                0 <= k < es.len() && #[trigger] es[k].1.denote().contains(x) && data[es[k].0 as int].contains(x)
                    && c.contains(x);
            if k < es.len() - 1 {
                assert(es.drop_last()[k] == es[k]);
                assert(es.drop_last()[k].1.denote().contains(x));
            }
        }
    }
}

/// The states that the edges let through are sets of states when the data,
/// labels and constraint are.
proof fn lemma_edges_taken_state<B: Bdd>(w: nat, es: Seq<(usize, B)>, data: Seq<Set<Seq<bool>>>, c: Set<Seq<bool>>)
    requires
        state_set(w, c),
        forall|k: int| 0 <= k < es.len() ==> state_set(w, #[trigger] es[k].1.denote()),
        forall|k: int| 0 <= k < es.len() ==> state_set(w, data[(#[trigger] es[k]).0 as int]),
    ensures
        state_set(w, edges_taken(es, data, c)),
    decreases es.len(),
{
    if es.len() == 0 {
        lemma_independent_ops(w, valuations(w), valuations(w), parity_vars(w, 1));
    } else {
        let d = es.drop_last();
        assert forall|k: int| 0 <= k < d.len() implies state_set(w, #[trigger] d[k].1.denote()) by {
            assert(d[k] == es[k]);
        }
        assert forall|k: int| 0 <= k < d.len() implies state_set(w, data[(#[trigger] d[k]).0 as int]) by {
            assert(d[k] == es[k]);
        }
        lemma_edges_taken_state(w, d, data, c);
        let l = es.last();
        assert(state_set(w, l.1.denote()));
        assert(state_set(w, data[l.0 as int]));
        lemma_independent_ops(w, data[l.0 as int], l.1.denote(), parity_vars(w, 1));
        lemma_independent_ops(w, data[l.0 as int].intersect(l.1.denote()), c, parity_vars(w, 1));
        lemma_independent_ops(w, edges_taken(d, data, c), data[l.0 as int].intersect(l.1.denote()).intersect(c), parity_vars(w, 1));
    }
}

/// The predecessors of the set at one automaton state are the pairs that
/// `retreat` gives there.
proof fn lemma_retreat_at(
    w: nat,
    inv: Set<Seq<bool>>,
    ts: Seq<Set<Seq<bool>>>,
    v: Seq<Set<Seq<bool>>>,
    q: int,
    y: Seq<bool>,
)
    requires
        0 <= q < v.len(),
    ensures
        retreat(w, inv, ts, pairs(v)).contains((q, y)) == image_step(w, false, v[q], inv, ts, valuations(w)).contains(y),
{
    if retreat(w, inv, ts, pairs(v)).contains((q, y)) {
        let x = choose|x: Seq<bool>|
            pairs(v).contains((q, x)) && #[trigger] image_step(w, false, set![x], inv, ts, valuations(w)).contains(y);
        assert(v[q].contains(x));
        assert(set![x].subset_of(v[q]));
        lemma_step_mono(w, false, set![x], v[q], inv, ts, valuations(w));
    }
    if image_step(w, false, v[q], inv, ts, valuations(w)).contains(y) {
        let x = lemma_step_witness(w, false, v[q], inv, ts, valuations(w), y);
        let p = (q, y);
        assert(pairs(v).contains((p.0, x)));
        assert(image_step(w, false, set![x], inv, ts, valuations(w)).contains(p.1));
        assert(retreat(w, inv, ts, pairs(v)).contains(p));
    }
}

/// The predecessors within the invariants, as `FsmBdd::pre_image` gives
/// them, are a backward image step without constraint.
proof fn lemma_pre_is_step(w: nat, s: Set<Seq<bool>>, inv: Set<Seq<bool>>, ts: Seq<Set<Seq<bool>>>)
    ensures
        crate::trans::pre_of(w, s.intersect(inv), ts).intersect(inv) == image_step(w, false, s, inv, ts, valuations(w)),
        s == Set::<Seq<bool>>::empty() ==> image_step(w, false, s, inv, ts, valuations(w)) == Set::<Seq<bool>>::empty(),
{
    crate::fsm::lemma_step_valuations(w, false, s, inv, ts, valuations(w));
    assert(crate::trans::pre_of(w, s.intersect(inv), ts).intersect(inv) =~= image_step(w, false, s, inv, ts, valuations(w)));
    if s == Set::<Seq<bool>>::empty() {
        assert forall|x: Seq<bool>| !image_step(w, false, s, inv, ts, valuations(w)).contains(x) by {
            if image_step(w, false, s, inv, ts, valuations(w)).contains(x) {
                let y = lemma_step_witness(w, false, s, inv, ts, valuations(w), x);
            }
        }
        assert(image_step(w, false, s, inv, ts, valuations(w)) =~= Set::<Seq<bool>>::empty());
    }
}

/// Whether the image contracts of `fsm` apply to a backward search from
/// `from` within `c`.
pub open spec fn back_applies<BM: BddManager>(
    a: &BuchiAutomata<BM>,
    fsm: &FsmBdd<BM>,
    from: Seq<Set<Seq<bool>>>,
    c: Seq<Set<Seq<bool>>>,
) -> bool {
    fsm.parts().len() == 0 || (state_set(bm_width::<BM>(), fsm.inv()) && all_states(bm_width::<BM>(), from)
        && all_states(bm_width::<BM>(), c) && labels_states(bm_width::<BM>(), a.fwd()))
}

/// One round of the backward search: each automaton state takes, along its
/// edges, the states of the frontier at the targets that satisfy the label
/// and its constraint and are new; the new frontier is their predecessors.
fn pre_iteration<BM: BddManager>(
    a: &BuchiAutomata<BM>,
    fsm: &FsmBdd<BM>,
    frontier: &Vec<BM::Bdd>,
    reach: &Vec<BM::Bdd>,
    constraint: &Vec<BM::Bdd>,
) -> (r: (Vec<BM::Bdd>, Vec<BM::Bdd>))
    requires
        a.wf(),
        fsm.trans.wf(),
        frontier@.len() == a.forward@.len(),
        reach@.len() == a.forward@.len(),
        constraint@.len() == a.forward@.len(),
        fsm.parts().len() == 0 || (state_set(bm_width::<BM>(), fsm.inv()) && all_states(bm_width::<BM>(), denotes(frontier@))
            && all_states(bm_width::<BM>(), denotes(reach@)) && all_states(bm_width::<BM>(), denotes(constraint@))
            && labels_states(bm_width::<BM>(), a.fwd())),
    ensures
        r.0@.len() == a.forward@.len(),
        r.1@.len() == a.forward@.len(),
        forall|q: int|
            0 <= q < a.forward@.len() ==> (#[trigger] r.0@[q]).denote() == reach@[q].denote().union(
                edges_taken(a.forward@[q]@, denotes(frontier@), constraint@[q].denote()).difference(reach@[q].denote()),
            ),
        forall|q: int|
            0 <= q < a.forward@.len() ==> (#[trigger] r.1@[q]).denote() == image_step(
                bm_width::<BM>(),
                false,
                edges_taken(a.forward@[q]@, denotes(frontier@), constraint@[q].denote()).difference(reach@[q].denote()),
                fsm.inv(),
                fsm.parts(),
                valuations(bm_width::<BM>()),
            ) && (fsm.parts().len() > 0 ==> state_set(bm_width::<BM>(), r.1@[q].denote()) && state_set(
                bm_width::<BM>(),
                r.0@[q].denote(),
            )),
        forall|q: int|
            0 <= q < a.forward@.len() && (#[trigger] r.1@[q]).denote() != Set::<Seq<bool>>::empty() ==> edges_taken(
                a.forward@[q]@,
                denotes(frontier@),
                constraint@[q].denote(),
            ).difference(reach@[q].denote()) != Set::<Seq<bool>>::empty(),
{
    let ghost w = bm_width::<BM>();
    let ghost fwd = a.fwd();
    let ghost inv = fsm.inv();
    let ghost ts = fsm.parts();
    let ghost fr = denotes(frontier@);
    let n = a.forward.len();
    let mut new_reach: Vec<BM::Bdd> = Vec::new();
    let mut new_frontier: Vec<BM::Bdd> = Vec::new();
    let mut i: usize = 0;
    while i < n
        invariant
            a.wf(),
            fsm.trans.wf(),
            w == bm_width::<BM>(),
            fwd == a.fwd(),
            inv == fsm.inv(),
            ts == fsm.parts(),
            fr == denotes(frontier@),
            n == a.forward@.len(),
            frontier@.len() == n,
            reach@.len() == n,
            constraint@.len() == n,
            i <= n,
            new_reach@.len() == i,
            new_frontier@.len() == i,
            ts.len() == 0 || (state_set(w, inv) && all_states(w, fr) && all_states(w, denotes(reach@))
                && all_states(w, denotes(constraint@)) && labels_states(w, fwd)),
            forall|q: int|
                0 <= q < i ==> (#[trigger] new_reach@[q]).denote() == reach@[q].denote().union(
                    edges_taken(a.forward@[q]@, fr, constraint@[q].denote()).difference(reach@[q].denote()),
                ),
            forall|q: int|
                0 <= q < i && (ts.len() == 0 || (state_set(w, inv) && all_states(w, fr) && state_set(w, reach@[q].denote())
                    && state_set(w, constraint@[q].denote()) && labels_states(w, fwd)))
                    ==> (#[trigger] new_frontier@[q]).denote() == image_step(
                    w,
                    false,
                    edges_taken(a.forward@[q]@, fr, constraint@[q].denote()).difference(reach@[q].denote()),
                    inv,
                    ts,
                    valuations(w),
                ) && (ts.len() > 0 ==> state_set(w, new_frontier@[q].denote()) && state_set(w, new_reach@[q].denote())),
            forall|q: int|
                0 <= q < i && (#[trigger] new_frontier@[q]).denote() != Set::<Seq<bool>>::empty() ==> edges_taken(
                    a.forward@[q]@,
                    fr,
                    constraint@[q].denote(),
                ).difference(reach@[q].denote()) != Set::<Seq<bool>>::empty(),
        decreases n - i,
    {
        proof {
            crate::automata::lemma_mirrored_targets(a, i as int);
        }
        let (r_i, nf_i) = propagate_value(&a.forward[i], reach[i].duplicate(), frontier, &constraint[i]);
        let ghost t = nf_i.denote();
        proof {
            if ts.len() > 0 {
                assert(state_set(w, denotes(reach@)[i as int]));
                assert(state_set(w, denotes(constraint@)[i as int]));
                assert forall|k: int| 0 <= k < a.forward@[i as int]@.len() implies state_set(w, #[trigger] a.forward@[i as int]@[k].1.denote()) by {
                    assert(fwd[i as int][k] == (a.forward@[i as int]@[k].0, a.forward@[i as int]@[k].1.denote()));
                }
                assert forall|k: int| 0 <= k < a.forward@[i as int]@.len() implies state_set(w, fr[(#[trigger] a.forward@[i as int]@[k]).0 as int]) by {
                    assert(fwd[i as int][k] == (a.forward@[i as int]@[k].0, a.forward@[i as int]@[k].1.denote()));
                }
                lemma_edges_taken_state(w, a.forward@[i as int]@, fr, constraint@[i as int].denote());
                lemma_independent_ops(w, edges_taken(a.forward@[i as int]@, fr, constraint@[i as int].denote()), reach@[i as int].denote(), parity_vars(w, 1));
            }
        }
        let nf = if !nf_i.is_constant(false) {
            fsm.pre_image(&nf_i)
        } else {
            nf_i
        };
        proof {
            lemma_pre_is_step(w, t, inv, ts);
            let cond = ts.len() == 0 || (state_set(w, inv) && all_states(w, fr) && state_set(w, reach@[i as int].denote())
                && state_set(w, constraint@[i as int].denote()) && labels_states(w, fwd));
            if cond && ts.len() > 0 {
                assert forall|k: int| 0 <= k < a.forward@[i as int]@.len() implies state_set(w, #[trigger] a.forward@[i as int]@[k].1.denote()) by {
                    assert(fwd[i as int][k] == (a.forward@[i as int]@[k].0, a.forward@[i as int]@[k].1.denote()));
                }
                assert forall|k: int| 0 <= k < a.forward@[i as int]@.len() implies state_set(w, fr[(#[trigger] a.forward@[i as int]@[k]).0 as int]) by {
                    assert(fwd[i as int][k] == (a.forward@[i as int]@[k].0, a.forward@[i as int]@[k].1.denote()));
                }
                lemma_edges_taken_state(w, a.forward@[i as int]@, fr, constraint@[i as int].denote());
                lemma_independent_ops(w, edges_taken(a.forward@[i as int]@, fr, constraint@[i as int].denote()), reach@[i as int].denote(), parity_vars(w, 1));
                nf_i.lemma_wf();
                crate::fsm::lemma_step_state(w, false, t, inv, ts, valuations(w));
                lemma_independent_ops(w, valuations(w), valuations(w), parity_vars(w, 1));
                lemma_independent_ops(w, reach@[i as int].denote(), t, parity_vars(w, 1));
            }
        }
        new_reach.push(r_i);
        new_frontier.push(nf);
        i = i + 1;
    }
    proof {
        assert forall|q: int| 0 <= q < n implies (ts.len() == 0 || (state_set(w, inv) && all_states(w, fr)
            && state_set(w, #[trigger] reach@[q].denote()) && state_set(w, constraint@[q].denote()) && labels_states(w, fwd))) by {
            if ts.len() > 0 {
                assert(state_set(w, denotes(reach@)[q]));
                assert(state_set(w, denotes(constraint@)[q]));
            }
        }
    }
    (new_reach, new_frontier)
}

/// The states newly taken in a backward round are the new backward automaton
/// moves from the frontier.
proof fn lemma_back_round_pairs<BM: BddManager>(
    a: &BuchiAutomata<BM>,
    fr: Seq<Set<Seq<bool>>>,
    c: Seq<Set<Seq<bool>>>,
    rch: Seq<Set<Seq<bool>>>,
    t: Seq<Set<Seq<bool>>>,
)
    requires
        a.wf(),
        fr.len() == a.forward@.len(),
        c.len() == a.forward@.len(),
        rch.len() == a.forward@.len(),
        t.len() == a.forward@.len(),
        forall|q: int| 0 <= q < a.forward@.len() ==> #[trigger] t[q] == edges_taken(a.forward@[q]@, fr, c[q]).difference(rch[q]),
    ensures
        pairs(t) == back_edges(a.fwd(), c, pairs(fr)).difference(pairs(rch)),
{
    let fwd = a.fwd();
    assert forall|p: (int, Seq<bool>)| pairs(t).contains(p) == back_edges(fwd, c, pairs(fr)).difference(pairs(rch)).contains(p) by {
        if 0 <= p.0 < fwd.len() {
            let q = p.0;
            let x = p.1;
            crate::automata::lemma_mirrored_targets(a, q);
            lemma_edges_taken(a.forward@[q]@, fr, c[q], x);
            if edges_taken(a.forward@[q]@, fr, c[q]).contains(x) {
                let k = choose|k: int|
                    0 <= k < a.forward@[q]@.len() && #[trigger] a.forward@[q]@[k].1.denote().contains(x)
                        && fr[a.forward@[q]@[k].0 as int].contains(x) && c[q].contains(x);
                assert(fwd[q][k] == (a.forward@[q]@[k].0, a.forward@[q]@[k].1.denote()));
                assert(fwd[p.0][k].1.contains(p.1));
                assert(back_edges(fwd, c, pairs(fr)).contains(p));
            }
            if back_edges(fwd, c, pairs(fr)).contains(p) {
                let k = choose|k: int|
                    0 <= p.0 < fwd.len() && 0 <= k < fwd[p.0].len() && #[trigger] fwd[p.0][k].1.contains(p.1)
                        && c[p.0].contains(p.1) && pairs(fr).contains((fwd[p.0][k].0 as int, p.1));
                assert(fwd[q][k] == (a.forward@[q]@[k].0, a.forward@[q]@[k].1.denote()));
                assert(a.forward@[q]@[k].1.denote().contains(x));
            }
            assert(t[q] == edges_taken(a.forward@[q]@, fr, c[q]).difference(rch[q]));
        }
    }
    assert(pairs(t) =~= back_edges(fwd, c, pairs(fr)).difference(pairs(rch)));
}

/// The product states within `constraint` from which the states `from` are
/// reached in one or more steps through states within `constraint`,
/// searched backwards round by round.
pub fn pre_reachable<BM: BddManager>(
    a: &BuchiAutomata<BM>,
    fsm: &FsmBdd<BM>,
    from: &Vec<BM::Bdd>,
    constraint: &Vec<BM::Bdd>,
) -> (r: Vec<BM::Bdd>)
    requires
        back_applies(a, fsm, denotes(from@), denotes(constraint@)),
        a.wf(),
        fsm.trans.wf(),
        from@.len() == a.forward@.len(),
        constraint@.len() == a.forward@.len(),
    ensures
        r@.len() == from@.len(),
        pairs(denotes(r@)) == back_reach(
            bm_width::<BM>(),
            a.fwd(),
            denotes(constraint@),
            fsm.inv(),
            fsm.parts(),
            pairs(denotes(from@)),
        ),
        fsm.parts().len() > 0 ==> all_states(
            bm_width::<BM>(),
            denotes(r@),
        ),
{
    let ghost w = bm_width::<BM>();
    let ghost fwd = a.fwd();
    let ghost inv = fsm.inv();
    let ghost ts = fsm.parts();
    let ghost c = denotes(constraint@);
    let ghost p0 = pairs(denotes(from@));
    let ghost applies = back_applies(a, fsm, denotes(from@), c);
    let ghost sets = applies && ts.len() > 0;
    let n = from.len();
    let mut frontier: Vec<BM::Bdd> = Vec::new();
    let mut i: usize = 0;
    while i < n
        invariant
            fsm.trans.wf(),
            w == bm_width::<BM>(),
            inv == fsm.inv(),
            ts == fsm.parts(),
            n == from@.len(),
            applies == back_applies(a, fsm, denotes(from@), c),
            applies,
            sets == (applies && ts.len() > 0),
            i <= n,
            frontier@.len() == i,
            forall|q: int| 0 <= q < i && applies ==> (#[trigger] frontier@[q]).denote() == image_step(w, false, from@[q].denote(), inv, ts, valuations(w)),
            forall|q: int| 0 <= q < i && sets ==> state_set(w, (#[trigger] frontier@[q]).denote()),
        decreases n - i,
    {
        proof {
            if ts.len() > 0 {
                assert(state_set(w, denotes(from@)[i as int]));
            }
        }
        let image = fsm.pre_image(&from[i]);
        proof {
            lemma_pre_is_step(w, from@[i as int].denote(), inv, ts);
            if sets {
                assert(state_set(w, denotes(from@)[i as int]));
                from@[i as int].lemma_wf();
                crate::fsm::lemma_step_state(w, false, from@[i as int].denote(), inv, ts, valuations(w));
                lemma_independent_ops(w, valuations(w), valuations(w), parity_vars(w, 1));
            }
        }
        frontier.push(image);
        i = i + 1;
    }
    let mut reach = empty_sets(&a.manager, n);
    proof {
        lemma_pair_universe_finite(n as int, w);
        assert(pairs(denotes(reach@)) =~= Set::<(int, Seq<bool>)>::empty());
        if applies {
            assert forall|p: (int, Seq<bool>)| pairs(denotes(frontier@)).contains(p) == retreat(w, inv, ts, p0).contains(p) by {
                if 0 <= p.0 < n {
                    lemma_retreat_at(w, inv, ts, denotes(from@), p.0, p.1);
                } else if retreat(w, inv, ts, p0).contains(p) {
                    let y = choose|y: Seq<bool>| p0.contains((p.0, y)) && #[trigger] image_step(w, false, set![y], inv, ts, valuations(w)).contains(p.1);
                }
            }
            assert(pairs(denotes(frontier@)) =~= retreat(w, inv, ts, p0));
            lemma_retreat_union(w, inv, ts, p0, p0.union(back_reach(w, fwd, c, inv, ts, p0)));
            assert(retreat(w, inv, ts, Set::<(int, Seq<bool>)>::empty()) =~= Set::<(int, Seq<bool>)>::empty());
            assert(back_edges(fwd, c, Set::<(int, Seq<bool>)>::empty()) =~= Set::<(int, Seq<bool>)>::empty());
        }
        if sets {
            assert forall|q: int| 0 <= q < n implies state_set(w, #[trigger] denotes(reach@)[q]) by {
                lemma_independent_ops(w, valuations(w), valuations(w), parity_vars(w, 1));
            }
        }
    }
    loop
        invariant
            a.wf(),
            fsm.trans.wf(),
            w == bm_width::<BM>(),
            fwd == a.fwd(),
            inv == fsm.inv(),
            ts == fsm.parts(),
            c == denotes(constraint@),
            n == from@.len(),
            n == a.forward@.len(),
            constraint@.len() == n,
            p0 == pairs(denotes(from@)),
            applies == back_applies(a, fsm, denotes(from@), c),
            applies,
            sets == (applies && ts.len() > 0),
            frontier@.len() == n,
            reach@.len() == n,
            pair_universe(n as int, w).finite(),
            pairs(denotes(reach@)).subset_of(pair_universe(n as int, w)),
            applies ==> pre_inv(w, fwd, c, inv, ts, p0, pairs(denotes(reach@)), pairs(denotes(frontier@))),
            sets ==> all_states(w, denotes(reach@)) && all_states(w, denotes(frontier@)) && state_set(w, inv)
                && all_states(w, c) && labels_states(w, fwd),
        decreases pair_universe(n as int, w).len() - pairs(denotes(reach@)).len(),
    {
        let ghost rch0 = denotes(reach@);
        let ghost fr0 = denotes(frontier@);
        let (nr, nf) = pre_iteration(a, fsm, &frontier, &reach, constraint);
        let ghost t = Seq::new(n as nat, |q: int| edges_taken(a.forward@[q]@, fr0, c[q]).difference(rch0[q]));
        proof {
            lemma_back_round_pairs(a, fr0, c, rch0, t);
            assert(pairs(denotes(nr@)) =~= pairs(rch0).union(pairs(t))) by {
                assert forall|p: (int, Seq<bool>)| pairs(denotes(nr@)).contains(p) == pairs(rch0).union(pairs(t)).contains(p) by {
                    if 0 <= p.0 < n {
                        assert(nr@[p.0].denote() == rch0[p.0].union(t[p.0]));
                    }
                }
            }
            if applies {
                assert(pairs(denotes(nf@)) =~= retreat(w, inv, ts, pairs(t))) by {
                    assert forall|p: (int, Seq<bool>)| pairs(denotes(nf@)).contains(p) == retreat(w, inv, ts, pairs(t)).contains(p) by {
                        if 0 <= p.0 < n {
                            lemma_retreat_at(w, inv, ts, t, p.0, p.1);
                            if sets {
                                assert(state_set(w, rch0[p.0]));
                                assert(state_set(w, c[p.0]));
                            }
                            assert(nf@[p.0].denote() == image_step(w, false, t[p.0], inv, ts, valuations(w)));
                        } else if retreat(w, inv, ts, pairs(t)).contains(p) {
                            let y = choose|y: Seq<bool>| pairs(t).contains((p.0, y)) && #[trigger] image_step(w, false, set![y], inv, ts, valuations(w)).contains(p.1);
                        }
                    }
                }
                lemma_pre_round(w, fwd, c, inv, ts, p0, pairs(rch0), pairs(fr0));
            }
            if sets {
                assert forall|q: int| 0 <= q < n implies state_set(w, #[trigger] denotes(nr@)[q]) && state_set(w, denotes(nf@)[q]) by {
                    assert(state_set(w, rch0[q]));
                    assert(state_set(w, c[q]));
                    assert(c[q] == constraint@[q].denote());
                    assert(denotes(nf@)[q] == nf@[q].denote());
                    assert(denotes(nr@)[q] == nr@[q].denote());
                }
                assert forall|q: int| 0 <= q < n implies state_set(w, #[trigger] denotes(nf@)[q]) by {
                    assert(state_set(w, denotes(nr@)[q]) && state_set(w, denotes(nf@)[q]));
                }
                assert(all_states(w, denotes(nr@)));
                assert(all_states(w, denotes(nf@)));
            }
            assert(pairs(denotes(nr@)).subset_of(pair_universe(n as int, w))) by {
                assert forall|p: (int, Seq<bool>)| pairs(denotes(nr@)).contains(p) implies pair_universe(n as int, w).contains(p) by {
                    nr@[p.0].lemma_wf();
                }
            }
        }
        reach = nr;
        if all_empty(&nf) {
            proof {
                if applies {
                    assert(pairs(denotes(nf@)) =~= Set::<(int, Seq<bool>)>::empty());
                    assert(back_edges(fwd, c, pairs(denotes(nf@))) =~= Set::<(int, Seq<bool>)>::empty());
                    lemma_pre_done(w, fwd, c, inv, ts, p0, pairs(denotes(reach@)), pairs(denotes(nf@)));
                }
            }
            return reach;
        }
        proof {
            let q = choose|q: int| 0 <= q < n && (#[trigger] nf@[q]).denote() != Set::<Seq<bool>>::empty();
            assert(t[q] != Set::<Seq<bool>>::empty());
            let x = t[q].choose();
            assert(t[q].contains(x)) by {
                if !t[q].contains(x) {
                    assert(t[q] =~= Set::<Seq<bool>>::empty());
                }
            }
            assert(pairs(t).contains((q, x)));
            assert(!pairs(rch0).contains((q, x)));
            vstd::set_lib::lemma_set_subset_finite(pair_universe(n as int, w), pairs(denotes(reach@)));
            vstd::set_lib::lemma_set_subset_finite(pair_universe(n as int, w), pairs(rch0));
            vstd::set_lib::lemma_len_subset(pairs(rch0).insert((q, x)), pairs(denotes(reach@)));
            vstd::set_lib::lemma_len_subset(pairs(denotes(reach@)), pair_universe(n as int, w));
        }
        frontier = nf;
    }
}

/// One round of the fair-state computation: the states of `y` from which
/// `y` is reached again in one or more steps within the constraint.
pub open spec fn fair_round(
    w: nat,
    fwd: Seq<Seq<(usize, Set<Seq<bool>>)>>,
    c: Seq<Set<Seq<bool>>>,
    inv: Set<Seq<bool>>,
    ts: Seq<Set<Seq<bool>>>,
    y: Set<(int, Seq<bool>)>,
) -> Set<(int, Seq<bool>)> {
    y.intersect(back_reach(w, fwd, c, inv, ts, y))
}

/// The fair product states: the union of all sets `y` within `a0` that
/// `fair_round` keeps, that is the greatest such set; from each of its
/// states a path within the constraint visits `a0` infinitely often.
pub open spec fn fair_pairs(
    w: nat,
    fwd: Seq<Seq<(usize, Set<Seq<bool>>)>>,
    c: Seq<Set<Seq<bool>>>,
    inv: Set<Seq<bool>>,
    ts: Seq<Set<Seq<bool>>>,
    a0: Set<(int, Seq<bool>)>,
) -> Set<(int, Seq<bool>)> {
    Set::new(
        |p: (int, Seq<bool>)|
            exists|y: Set<(int, Seq<bool>)>|
                y.subset_of(a0) && y.subset_of(#[trigger] fair_round(w, fwd, c, inv, ts, y)) && y.contains(p),
    )
}

proof fn lemma_back_iter_mono(
    w: nat,
    fwd: Seq<Seq<(usize, Set<Seq<bool>>)>>,
    c: Seq<Set<Seq<bool>>>,
    inv: Set<Seq<bool>>,
    ts: Seq<Set<Seq<bool>>>,
    a: Set<(int, Seq<bool>)>,
    b: Set<(int, Seq<bool>)>,
    n: nat,
)
    requires
        a.subset_of(b),
    ensures
        back_iter(w, fwd, c, inv, ts, a, n).subset_of(back_iter(w, fwd, c, inv, ts, b, n)),
    decreases n,
{
    if n > 0 {
        lemma_back_iter_mono(w, fwd, c, inv, ts, a, b, (n - 1) as nat);
        lemma_back_step_union(
            w,
            fwd,
            c,
            inv,
            ts,
            back_iter(w, fwd, c, inv, ts, a, (n - 1) as nat),
            back_iter(w, fwd, c, inv, ts, b, (n - 1) as nat),
        );
    }
}

proof fn lemma_fair_round_mono(
    w: nat,
    fwd: Seq<Seq<(usize, Set<Seq<bool>>)>>,
    c: Seq<Set<Seq<bool>>>,
    inv: Set<Seq<bool>>,
    ts: Seq<Set<Seq<bool>>>,
    a: Set<(int, Seq<bool>)>,
    b: Set<(int, Seq<bool>)>,
)
    requires
        a.subset_of(b),
    ensures
        fair_round(w, fwd, c, inv, ts, a).subset_of(fair_round(w, fwd, c, inv, ts, b)),
{
    assert forall|p: (int, Seq<bool>)| back_reach(w, fwd, c, inv, ts, a).contains(p) implies back_reach(w, fwd, c, inv, ts, b).contains(p) by {
        let n = choose|n: nat| n >= 1 && #[trigger] back_iter(w, fwd, c, inv, ts, a, n).contains(p);
        lemma_back_iter_mono(w, fwd, c, inv, ts, a, b, n);
    }
}

/// The fair states of the product: within the accepting automaton states,
/// restricted to `init_reach`, the greatest set from each of whose states
/// the set is reached again in one or more steps within `init_reach`.
#[verifier::spinoff_prover]
#[verifier::rlimit(80)]
pub fn fair_states<BM: BddManager>(
    a: &BuchiAutomata<BM>,
    fsm: &FsmBdd<BM>,
    init_reach: &Vec<BM::Bdd>,
) -> (r: Vec<BM::Bdd>)
    requires
        back_applies(a, fsm, denotes(init_reach@), denotes(init_reach@)),
        a.wf(),
        fsm.trans.wf(),
        init_reach@.len() == a.forward@.len(),
        forall|k: int| 0 <= k < a.accepting_states@.len() ==> #[trigger] a.accepting_states@[k] < a.forward@.len(),
    ensures
        r@.len() == init_reach@.len(),
        pairs(denotes(r@)) == fair_pairs(
            bm_width::<BM>(),
            a.fwd(),
            denotes(init_reach@),
            fsm.inv(),
            fsm.parts(),
            accepting_pairs(a.accepting_states@, denotes(init_reach@)),
        ),
{
    let ghost w = bm_width::<BM>();
    let ghost fwd = a.fwd();
    let ghost inv = fsm.inv();
    let ghost ts = fsm.parts();
    let ghost c = denotes(init_reach@);
    let ghost a0 = accepting_pairs(a.accepting_states@, c);
    let ghost applies = back_applies(a, fsm, c, c);
    let ghost sets = applies && ts.len() > 0;
    let n = a.num_state();
    let mut fair = empty_sets(&a.manager, n);
    let mut k: usize = 0;
    while k < a.accepting_states.len()
        invariant
            n == a.forward@.len(),
            init_reach@.len() == n,
            c == denotes(init_reach@),
            forall|k: int| 0 <= k < a.accepting_states@.len() ==> #[trigger] a.accepting_states@[k] < n,
            k <= a.accepting_states@.len(),
            fair@.len() == n,
            forall|q: int| 0 <= q < n ==> (#[trigger] fair@[q]).denote() == (if a.accepting_states@.take(k as int).contains(q as usize) {
                c[q]
            } else {
                Set::<Seq<bool>>::empty()
            }),
        decreases a.accepting_states@.len() - k,
    {
        let acc = a.accepting_states[k];
        let d = init_reach[acc].duplicate();
        let ghost before = fair@;
        fair.set(acc, d);
        proof {
            assert forall|q: int| 0 <= q < n implies (#[trigger] fair@[q]).denote() == (if a.accepting_states@.take(k + 1).contains(q as usize) {
                c[q]
            } else {
                Set::<Seq<bool>>::empty()
            }) by {
                let t0 = a.accepting_states@.take(k as int);
                assert(a.accepting_states@.take(k + 1) =~= t0.push(acc));
                assert(t0.push(acc).contains(q as usize) == (t0.contains(q as usize) || q as usize == acc)) by {
                    if t0.push(acc).contains(q as usize) {
                        let j = choose|j: int| 0 <= j < t0.push(acc).len() && t0.push(acc)[j] == q as usize;
                        if j < t0.len() {
                            assert(t0[j] == q as usize);
                        }
                    }
                    if t0.contains(q as usize) {
                        let j = choose|j: int| 0 <= j < t0.len() && t0[j] == q as usize;
                        assert(t0.push(acc)[j] == q as usize);
                    }
                    if q as usize == acc {
                        assert(t0.push(acc)[t0.len() as int] == acc);
                    }
                }
                if q != acc {
                    assert(fair@[q] == before[q]);
                }
            }
        }
        k = k + 1;
    }
    proof {
        assert(a.accepting_states@.take(k as int) =~= a.accepting_states@);
        assert(pairs(denotes(fair@)) =~= a0) by {
            assert forall|p: (int, Seq<bool>)| pairs(denotes(fair@)).contains(p) == a0.contains(p) by {
                if 0 <= p.0 < n {
                    assert(fair@[p.0].denote() == (if a.accepting_states@.contains(p.0 as usize) { c[p.0] } else { Set::<Seq<bool>>::empty() }));
                }
            }
        }
        lemma_pair_universe_finite(n as int, w);
        assert forall|p: (int, Seq<bool>)| pairs(denotes(fair@)).contains(p) implies pair_universe(n as int, w).contains(p) by {
            fair@[p.0].lemma_wf();
        }
        if sets {
            assert forall|q: int| 0 <= q < n implies state_set(w, #[trigger] denotes(fair@)[q]) by {
                assert(state_set(w, c[q]));
                lemma_independent_ops(w, valuations(w), valuations(w), parity_vars(w, 1));
                assert(fair@[q].denote() == (if a.accepting_states@.contains(q as usize) { c[q] } else { Set::<Seq<bool>>::empty() }));
            }
        }
    }
    loop
        invariant
            a.wf(),
            fsm.trans.wf(),
            w == bm_width::<BM>(),
            fwd == a.fwd(),
            inv == fsm.inv(),
            ts == fsm.parts(),
            n == a.forward@.len(),
            init_reach@.len() == n,
            c == denotes(init_reach@),
            applies == back_applies(a, fsm, c, c),
            applies,
            sets == (applies && ts.len() > 0),
            a0 == accepting_pairs(a.accepting_states@, c),
            fair@.len() == n,
            pair_universe(n as int, w).finite(),
            pairs(denotes(fair@)).subset_of(a0),
            pairs(denotes(fair@)).subset_of(pair_universe(n as int, w)),
            applies ==> forall|y: Set<(int, Seq<bool>)>|
                y.subset_of(a0) && y.subset_of(#[trigger] fair_round(w, fwd, c, inv, ts, y)) ==> y.subset_of(pairs(denotes(fair@))),
            sets ==> all_states(w, denotes(fair@)),
        decreases pairs(denotes(fair@)).len(),
    {
        let backward = pre_reachable(a, fsm, &fair, init_reach);
        let mut new_fair: Vec<BM::Bdd> = Vec::new();
        let mut i: usize = 0;
        while i < n
            invariant
                n == fair@.len(),
                backward@.len() == n,
                i <= n,
                new_fair@.len() == i,
                forall|q: int| 0 <= q < i ==> (#[trigger] new_fair@[q]).denote() == fair@[q].denote().intersect(backward@[q].denote()),
            decreases n - i,
        {
            new_fair.push(fair[i].and(&backward[i]));
            i = i + 1;
        }
        let ghost x = pairs(denotes(fair@));
        proof {
            lemma_pairs_intersect(denotes(fair@), denotes(backward@), denotes(new_fair@));
            if applies {
                if sets {
                    assert(back_applies(a, fsm, denotes(fair@), c));
                }
                assert(pairs(denotes(new_fair@)) == fair_round(w, fwd, c, inv, ts, x));
            }
        }
        if all_equal(&new_fair, &fair) {
            proof {
                assert forall|q: int| 0 <= q < n implies #[trigger] denotes(new_fair@)[q] == denotes(fair@)[q] by {
                    assert(new_fair@[q].denote() == fair@[q].denote());
                }
                lemma_pairs_same(denotes(new_fair@), denotes(fair@));
                if applies {
                    lemma_fair_done(w, fwd, c, inv, ts, a0, x);
                }
            }
            return fair;
        }
        proof {
            let nx = pairs(denotes(new_fair@));
            let q = choose|q: int| 0 <= q < n && (#[trigger] new_fair@[q]).denote() != fair@[q].denote();
            assert(denotes(new_fair@)[q] != denotes(fair@)[q]);
            lemma_pairs_differ(denotes(new_fair@), denotes(fair@));
            vstd::set_lib::lemma_set_subset_finite(pair_universe(n as int, w), x);
            lemma_strict_subset_len(nx, x);
            if applies {
                assert forall|y: Set<(int, Seq<bool>)>|
                    y.subset_of(a0) && y.subset_of(#[trigger] fair_round(w, fwd, c, inv, ts, y)) implies y.subset_of(nx) by {
                    lemma_fair_round_mono(w, fwd, c, inv, ts, y, x);
                }
            }
            if sets {
                assert forall|q: int| 0 <= q < n implies state_set(w, #[trigger] denotes(new_fair@)[q]) by {
                    assert(state_set(w, denotes(fair@)[q]));
                    assert(state_set(w, denotes(backward@)[q]));
                    lemma_independent_ops(w, fair@[q].denote(), backward@[q].denote(), parity_vars(w, 1));
                    assert(new_fair@[q].denote() == fair@[q].denote().intersect(backward@[q].denote()));
                }
            }
        }
        fair = new_fair;
    }
}

/// The product states at the accepting automaton states that `c` holds.
pub open spec fn accepting_pairs(acc: Seq<usize>, c: Seq<Set<Seq<bool>>>) -> Set<(int, Seq<bool>)> {
    Set::new(|p: (int, Seq<bool>)| 0 <= p.0 < c.len() && acc.contains(p.0 as usize) && c[p.0].contains(p.1))
}

/// Whether the BDDs of `a` and `b` are the same functions, one for one.
fn all_equal<B: Bdd>(a: &Vec<B>, b: &Vec<B>) -> (r: bool)
    requires
        a@.len() == b@.len(),
    ensures
        r == forall|q: int| 0 <= q < a@.len() ==> (#[trigger] a@[q]).denote() == b@[q].denote(),
{
    let mut i: usize = 0;
    while i < a.len()
        invariant
            a@.len() == b@.len(),
            i <= a@.len(),
            forall|q: int| 0 <= q < i ==> (#[trigger] a@[q]).denote() == b@[q].denote(),
        decreases a@.len() - i,
    {
        if !a[i].equals(&b[i]) {
            return false;
        }
        i = i + 1;
    }
    true
}

proof fn lemma_pairs_intersect(a: Seq<Set<Seq<bool>>>, b: Seq<Set<Seq<bool>>>, r: Seq<Set<Seq<bool>>>)
    requires
        a.len() == b.len(),
        r.len() == a.len(),
        forall|q: int| 0 <= q < r.len() ==> #[trigger] r[q] == a[q].intersect(b[q]),
    ensures
        pairs(r) == pairs(a).intersect(pairs(b)),
{
    assert forall|p: (int, Seq<bool>)| pairs(r).contains(p) == pairs(a).intersect(pairs(b)).contains(p) by {
        if 0 <= p.0 < r.len() {
            assert(r[p.0] == a[p.0].intersect(b[p.0]));
        }
    }
    assert(pairs(r) =~= pairs(a).intersect(pairs(b)));
}

proof fn lemma_pairs_same(a: Seq<Set<Seq<bool>>>, b: Seq<Set<Seq<bool>>>)
    requires
        a.len() == b.len(),
        forall|q: int| 0 <= q < a.len() ==> #[trigger] a[q] == b[q],
    ensures
        pairs(a) == pairs(b),
{
    assert forall|p: (int, Seq<bool>)| pairs(a).contains(p) == pairs(b).contains(p) by {
        if 0 <= p.0 < a.len() {
            assert(a[p.0] == b[p.0]);
        }
    }
    assert(pairs(a) =~= pairs(b));
}

proof fn lemma_pairs_differ(a: Seq<Set<Seq<bool>>>, b: Seq<Set<Seq<bool>>>)
    requires
        a.len() == b.len(),
        !(forall|q: int| 0 <= q < a.len() ==> #[trigger] a[q] == b[q]),
    ensures
        pairs(a) != pairs(b),
{
    let q = choose|q: int| 0 <= q < a.len() && #[trigger] a[q] != b[q];
    if forall|z: Seq<bool>| a[q].contains(z) == b[q].contains(z) {
        assert(a[q] =~= b[q]);
    }
    let z = choose|z: Seq<bool>| a[q].contains(z) != b[q].contains(z);
    assert(pairs(a).contains((q, z)) != pairs(b).contains((q, z)));
}

proof fn lemma_strict_subset_len<A>(small: Set<A>, big: Set<A>)
    requires
        big.finite(),
        small.subset_of(big),
        small != big,
    ensures
        small.len() < big.len(),
{
    let p = big.difference(small).choose();
    if !big.difference(small).contains(p) {
        assert(big.difference(small) =~= Set::<A>::empty());
        assert forall|p2: A| big.contains(p2) implies small.contains(p2) by {
            assert(!big.difference(small).contains(p2));
        }
        assert(small =~= big);
    }
    vstd::set_lib::lemma_len_subset(small, big.remove(p));
}

proof fn lemma_fair_done(
    w: nat,
    fwd: Seq<Seq<(usize, Set<Seq<bool>>)>>,
    c: Seq<Set<Seq<bool>>>,
    inv: Set<Seq<bool>>,
    ts: Seq<Set<Seq<bool>>>,
    a0: Set<(int, Seq<bool>)>,
    x: Set<(int, Seq<bool>)>,
)
    requires
        x.subset_of(a0),
        x == fair_round(w, fwd, c, inv, ts, x),
        forall|y: Set<(int, Seq<bool>)>|
            y.subset_of(a0) && y.subset_of(#[trigger] fair_round(w, fwd, c, inv, ts, y)) ==> y.subset_of(x),
    ensures
        x == fair_pairs(w, fwd, c, inv, ts, a0),
{
    assert forall|p: (int, Seq<bool>)| x.contains(p) implies fair_pairs(w, fwd, c, inv, ts, a0).contains(p) by {
        assert(x.subset_of(fair_round(w, fwd, c, inv, ts, x)));
    }
    assert forall|p: (int, Seq<bool>)| fair_pairs(w, fwd, c, inv, ts, a0).contains(p) implies x.contains(p) by {
        let y = choose|y: Set<(int, Seq<bool>)>| y.subset_of(a0) && y.subset_of(#[trigger] fair_round(w, fwd, c, inv, ts, y)) && y.contains(p);
    }
    assert(x =~= fair_pairs(w, fwd, c, inv, ts, a0));
}

/// The states of `r` at each of the first `n` automaton states.
pub open spec fn project(r: Set<(int, Seq<bool>)>, n: nat) -> Seq<Set<Seq<bool>>> {
    Seq::new(n, |q: int| Set::new(|x: Seq<bool>| r.contains((q, x))))
}

/// The initial product states: the initial automaton states with the
/// initial states of the machine.
pub open spec fn initial_pairs(n: nat, init_states: Seq<usize>, init: Set<Seq<bool>>) -> Set<(int, Seq<bool>)> {
    Set::new(|p: (int, Seq<bool>)| 0 <= p.0 < n && init_states.contains(p.0 as usize) && init.contains(p.1))
}

/// The verdict of property-driven checking: no accepting product state
/// reached from the initial ones is fair within the reached states.
pub open spec fn no_fair_accepting(
    w: nat,
    fwd: Seq<Seq<(usize, Set<Seq<bool>>)>>,
    inv: Set<Seq<bool>>,
    ts: Seq<Set<Seq<bool>>>,
    init: Set<Seq<bool>>,
    init_states: Seq<usize>,
    acc: Seq<usize>,
) -> bool {
    let n = fwd.len();
    let r = prod_reach(w, fwd, inv, ts, initial_pairs(n, init_states, init));
    let c = project(r, n);
    let f = fair_pairs(w, fwd, c, inv, ts, accepting_pairs(acc, c));
    forall|k: int, x: Seq<bool>|
        0 <= k < acc.len() ==> !(r.contains((acc[k] as int, x)) && #[trigger] f.contains((acc[k] as int, x)))
}

/// The starting vector of the forward search: the initial states of the
/// machine at each initial automaton state, nothing elsewhere.
pub fn initial_reach<BM: BddManager>(a: &BuchiAutomata<BM>, fsm: &FsmBdd<BM>) -> (r: Vec<BM::Bdd>)
    requires
        forall|k: int| 0 <= k < a.init_states@.len() ==> #[trigger] a.init_states@[k] < a.forward@.len(),
    ensures
        r@.len() == a.forward@.len(),
        forall|q: int| 0 <= q < a.forward@.len() ==> (#[trigger] r@[q]).denote() == (if a.init_states@.contains(q as usize) {
            fsm.init.denote()
        } else {
            Set::<Seq<bool>>::empty()
        }),
        pairs(denotes(r@)) == initial_pairs(a.forward@.len(), a.init_states@, fsm.init.denote()),
{
    let n = a.num_state();
    let mut reach = empty_sets(&a.manager, n);
    let mut k: usize = 0;
    while k < a.init_states.len()
        invariant
            n == a.forward@.len(),
            forall|k: int| 0 <= k < a.init_states@.len() ==> #[trigger] a.init_states@[k] < n,
            k <= a.init_states@.len(),
            reach@.len() == n,
            forall|q: int| 0 <= q < n ==> (#[trigger] reach@[q]).denote() == (if a.init_states@.take(k as int).contains(q as usize) {
                fsm.init.denote()
            } else {
                Set::<Seq<bool>>::empty()
            }),
        decreases a.init_states@.len() - k,
    {
        let s = a.init_states[k];
        let u = reach[s].or(&fsm.init);
        let ghost before = reach@;
        reach.set(s, u);
        proof {
            assert forall|q: int| 0 <= q < n implies (#[trigger] reach@[q]).denote() == (if a.init_states@.take(k + 1).contains(q as usize) {
                fsm.init.denote()
            } else {
                Set::<Seq<bool>>::empty()
            }) by {
                let t0 = a.init_states@.take(k as int);
                assert(a.init_states@.take(k + 1) =~= t0.push(s));
                assert(t0.push(s).contains(q as usize) == (t0.contains(q as usize) || q as usize == s)) by {
                    if t0.push(s).contains(q as usize) {
                        let j = choose|j: int| 0 <= j < t0.push(s).len() && t0.push(s)[j] == q as usize;
                        if j < t0.len() {
                            assert(t0[j] == q as usize);
                        }
                    }
                    if t0.contains(q as usize) {
                        let j = choose|j: int| 0 <= j < t0.len() && t0[j] == q as usize;
                        assert(t0.push(s)[j] == q as usize);
                    }
                    if q as usize == s {
                        assert(t0.push(s)[t0.len() as int] == s);
                    }
                }
                if q != s {
                    assert(reach@[q] == before[q]);
                } else {
                    if t0.contains(q as usize) {
                        assert(reach@[q].denote() =~= fsm.init.denote());
                    } else {
                        assert(reach@[q].denote() =~= fsm.init.denote());
                    }
                }
            }
        }
        k = k + 1;
    }
    proof {
        assert(a.init_states@.take(k as int) =~= a.init_states@);
        assert(pairs(denotes(reach@)) =~= initial_pairs(n as nat, a.init_states@, fsm.init.denote())) by {
            assert forall|p: (int, Seq<bool>)| pairs(denotes(reach@)).contains(p) == initial_pairs(n as nat, a.init_states@, fsm.init.denote()).contains(p) by {
                if 0 <= p.0 < n {
                    assert(reach@[p.0].denote() == (if a.init_states@.contains(p.0 as usize) { fsm.init.denote() } else { Set::<Seq<bool>>::empty() }));
                }
            }
        }
    }
    reach
}

/// Whether, at every accepting automaton state, the reached states and the
/// fair states have nothing in common.
pub fn accepting_disjoint<B: Bdd>(acc: &Vec<usize>, reach: &Vec<B>, fair: &Vec<B>) -> (r: bool)
    requires
        reach@.len() == fair@.len(),
        forall|k: int| 0 <= k < acc@.len() ==> #[trigger] acc@[k] < reach@.len(),
    ensures
        r == forall|k: int| 0 <= k < acc@.len() ==> (#[trigger] reach@[acc@[k] as int]).denote().intersect(
            fair@[acc@[k] as int].denote(),
        ) == Set::<Seq<bool>>::empty(),
{
    let mut j: usize = 0;
    while j < acc.len()
        invariant
            reach@.len() == fair@.len(),
            forall|k: int| 0 <= k < acc@.len() ==> #[trigger] acc@[k] < reach@.len(),
            j <= acc@.len(),
            forall|k: int| 0 <= k < j ==> (#[trigger] reach@[acc@[k] as int]).denote().intersect(
                fair@[acc@[k] as int].denote(),
            ) == Set::<Seq<bool>>::empty(),
        decreases acc@.len() - j,
    {
        let q = acc[j];
        let both = reach[q].and(&fair[q]);
        if !both.is_constant(false) {
            assert(reach@[acc@[j as int] as int].denote().intersect(fair@[acc@[j as int] as int].denote()) != Set::<Seq<bool>>::empty());
            return false;
        }
        j = j + 1;
    }
    true
}

/// Whether every BDD of `v` denotes a set of states.
pub fn all_state_sets<B: Bdd>(v: &Vec<B>) -> (r: bool)
    ensures
        r == all_states(B::width(), denotes(v@)),
{
    let mut i: usize = 0;
    while i < v.len()
        invariant
            i <= v@.len(),
            forall|q: int| 0 <= q < i ==> state_set(B::width(), #[trigger] denotes(v@)[q]),
        decreases v@.len() - i,
    {
        if !crate::bdd::is_state_set(&v[i]) {
            assert(!state_set(B::width(), denotes(v@)[i as int]));
            return false;
        }
        i = i + 1;
    }
    true
}

/// Whether every label of `a` denotes a set of states.
pub fn labels_are_states<BM: BddManager>(a: &BuchiAutomata<BM>) -> (r: bool)
    ensures
        r == labels_states(bm_width::<BM>(), a.fwd()),
{
    let ghost w = bm_width::<BM>();
    let mut q: usize = 0;
    while q < a.forward.len()
        invariant
            w == bm_width::<BM>(),
            q <= a.forward@.len(),
            forall|p: int, k: int| 0 <= p < q && 0 <= k < a.fwd()[p].len() ==> state_set(w, #[trigger] a.fwd()[p][k].1),
        decreases a.forward@.len() - q,
    {
        let es = &a.forward[q];
        let mut k: usize = 0;
        while k < es.len()
            invariant
                w == bm_width::<BM>(),
                q < a.forward@.len(),
                es == a.forward@[q as int],
                k <= es@.len(),
                forall|p: int, j: int| 0 <= p < q && 0 <= j < a.fwd()[p].len() ==> state_set(w, #[trigger] a.fwd()[p][j].1),
                forall|j: int| 0 <= j < k ==> state_set(w, #[trigger] a.fwd()[q as int][j].1),
            decreases es@.len() - k,
        {
            assert(a.fwd()[q as int][k as int] == (es@[k as int].0, es@[k as int].1.denote()));
            if !crate::bdd::is_state_set(&es[k].1) {
                proof {
                    assert(a.fwd()[q as int].len() == es@.len());
                    assert(!state_set(w, a.fwd()[q as int][k as int].1));
                }
                return false;
            }
            k = k + 1;
        }
        assert(a.fwd()[q as int].len() == es@.len());
        q = q + 1;
    }
    true
}

/// Whether `check` may be asked about `a` and `fsm`: the relation has no
/// part, or the invariants, the initial states and every label are sets of
/// states.
pub fn check_applies<BM: BddManager>(a: &BuchiAutomata<BM>, fsm: &FsmBdd<BM>) -> (r: bool)
    ensures
        r == (fsm.parts().len() == 0 || (state_set(bm_width::<BM>(), fsm.inv()) && state_set(bm_width::<BM>(), fsm.init.denote())
            && labels_states(bm_width::<BM>(), a.fwd()))),
{
    if fsm.trans.trans.len() == 0 {
        return true;
    }
    crate::bdd::is_state_set(&fsm.invariants) && crate::bdd::is_state_set(&fsm.init) && labels_are_states(a)
}

/// Property-driven checking of the product: the product states reached
/// from the initial ones, then the fair states among them, then whether an
/// accepting automaton state holds a state that is both.
pub fn check<BM: BddManager>(a: &BuchiAutomata<BM>, fsm: &FsmBdd<BM>) -> (r: bool)
    requires
        a.wf(),
        fsm.trans.wf(),
        forall|k: int| 0 <= k < a.init_states@.len() ==> #[trigger] a.init_states@[k] < a.forward@.len(),
        forall|k: int| 0 <= k < a.accepting_states@.len() ==> #[trigger] a.accepting_states@[k] < a.forward@.len(),
        fsm.parts().len() == 0 || (state_set(bm_width::<BM>(), fsm.inv()) && state_set(bm_width::<BM>(), fsm.init.denote())
            && labels_states(bm_width::<BM>(), a.fwd())),
    ensures
        r == no_fair_accepting(
            bm_width::<BM>(),
            a.fwd(),
            fsm.inv(),
            fsm.parts(),
            fsm.init.denote(),
            a.init_states@,
            a.accepting_states@,
        ),
{
    let ghost w = bm_width::<BM>();
    let ghost fwd = a.fwd();
    let ghost inv = fsm.inv();
    let ghost ts = fsm.parts();
    let ghost applies = fsm.parts().len() == 0 || (state_set(w, inv) && state_set(w, fsm.init.denote()) && labels_states(w, fwd));
    let n = a.num_state();
    let reach = initial_reach(a, fsm);
    proof {
        if applies && ts.len() > 0 {
            assert forall|q: int| 0 <= q < n implies state_set(w, #[trigger] denotes(reach@)[q]) by {
                lemma_independent_ops(w, valuations(w), valuations(w), parity_vars(w, 1));
                assert(reach@[q].denote() == (if a.init_states@.contains(q as usize) { fsm.init.denote() } else { Set::<Seq<bool>>::empty() }));
            }
        }
    }
    let reach = post_reachable(a, fsm, &reach);
    let ghost r_set = prod_reach(w, fwd, inv, ts, initial_pairs(n as nat, a.init_states@, fsm.init.denote()));
    let ghost c = project(r_set, n as nat);
    proof {
        if applies {
            assert(denotes(reach@) =~= c) by {
                assert forall|q: int| 0 <= q < n implies #[trigger] denotes(reach@)[q] == c[q] by {
                    assert forall|x: Seq<bool>| denotes(reach@)[q].contains(x) == c[q].contains(x) by {
                        assert(pairs(denotes(reach@)).contains((q, x)) == r_set.contains((q, x)));
                    }
                    assert(denotes(reach@)[q] =~= c[q]);
                }
            }
        }
    }
    let fair = fair_states(a, fsm, &reach);
    let ghost f = fair_pairs(w, fwd, c, inv, ts, accepting_pairs(a.accepting_states@, c));
    proof {
        if applies {
            assert(back_applies(a, fsm, denotes(reach@), denotes(reach@)));
            assert(pairs(denotes(fair@)) == f);
        }
    }
    let disjoint = accepting_disjoint(&a.accepting_states, &reach, &fair);
    proof {
        if applies && !disjoint {
            let k = choose|k: int| 0 <= k < a.accepting_states@.len() && (#[trigger] reach@[a.accepting_states@[k] as int]).denote().intersect(
                fair@[a.accepting_states@[k] as int].denote(),
            ) != Set::<Seq<bool>>::empty();
            let q = a.accepting_states@[k] as int;
            let both = reach@[q].denote().intersect(fair@[q].denote());
            let x = both.choose();
            if !both.contains(x) {
                assert(both =~= Set::<Seq<bool>>::empty());
            }
            assert(pairs(denotes(reach@)).contains((q, x)));
            assert(pairs(denotes(fair@)).contains((q, x)));
            assert(r_set.contains((a.accepting_states@[k] as int, x)));
            assert(f.contains((a.accepting_states@[k] as int, x)));
        }
        if applies && disjoint {
            assert forall|k: int, x: Seq<bool>|
                0 <= k < a.accepting_states@.len() implies !(r_set.contains((a.accepting_states@[k] as int, x)) && #[trigger] f.contains((a.accepting_states@[k] as int, x))) by {
                let q = a.accepting_states@[k] as int;
                assert(reach@[q].denote().intersect(fair@[q].denote()) == Set::<Seq<bool>>::empty());
                if r_set.contains((q, x)) && f.contains((q, x)) {
                    assert(pairs(denotes(reach@)).contains((q, x)));
                    assert(pairs(denotes(fair@)).contains((q, x)));
                    assert(reach@[q].denote().intersect(fair@[q].denote()).contains(x));
                }
            }
        }
    }
    disjoint
}

/// The messages a worker sends along its edges: for each edge whose label
/// meets `data`, the target and the states of `data` on the label, in the
/// order of the edges.
pub open spec fn messages_of<B: Bdd>(es: Seq<(usize, B)>, data: Set<Seq<bool>>) -> Seq<(usize, Set<Seq<bool>>)>
    decreases es.len(),
{
    if es.len() == 0 {
        Seq::empty()
    } else {
        let rest = messages_of(es.drop_last(), data);
        let m = data.intersect(es.last().1.denote());
        if m == Set::<Seq<bool>>::empty() {
            rest
        } else {
            rest.push((es.last().0, m))
        }
    }
}

/// The messages to send along `edges` for the states `data`.
pub fn worker_messages<B: Bdd>(edges: &Vec<(usize, B)>, data: &B) -> (r: Vec<(usize, B)>)
    ensures
        r@.map_values(|m: (usize, B)| (m.0, m.1.denote())) == messages_of(edges@, data.denote()),
{
    let mut r: Vec<(usize, B)> = Vec::new();
    if data.is_constant(false) {
        proof {
            lemma_messages_empty(edges@, data.denote());
        }
        assert(r@.map_values(|m: (usize, B)| (m.0, m.1.denote())) =~= Seq::<(usize, Set<Seq<bool>>)>::empty());
        return r;
    }
    let mut k: usize = 0;
    assert(r@.map_values(|m: (usize, B)| (m.0, m.1.denote())) =~= messages_of(edges@.take(0), data.denote()));
    while k < edges.len()
        invariant
            k <= edges@.len(),
            r@.map_values(|m: (usize, B)| (m.0, m.1.denote())) == messages_of(edges@.take(k as int), data.denote()),
        decreases edges@.len() - k,
    {
        let message = data.and(&edges[k].1);
        let ghost before = r@.map_values(|m: (usize, B)| (m.0, m.1.denote()));
        proof {
            assert(edges@.take(k + 1).drop_last() =~= edges@.take(k as int));
            assert(edges@.take(k + 1).last() == edges@[k as int]);
        }
        if !message.is_constant(false) {
            let target = edges[k].0;
            r.push((target, message));
            assert(r@.map_values(|m: (usize, B)| (m.0, m.1.denote())) =~= before.push((target, data.denote().intersect(edges@[k as int].1.denote()))));
        }
        k = k + 1;
    }
    assert(edges@.take(k as int) =~= edges@);
    r
}

proof fn lemma_messages_empty<B: Bdd>(es: Seq<(usize, B)>, data: Set<Seq<bool>>)
    requires
        data == Set::<Seq<bool>>::empty(),
    ensures
        messages_of(es, data) == Seq::<(usize, Set<Seq<bool>>)>::empty(),
    decreases es.len(),
{
    if es.len() > 0 {
        lemma_messages_empty(es.drop_last(), data);
        assert(data.intersect(es.last().1.denote()) =~= Set::<Seq<bool>>::empty());
    }
}

/// A worker of the forward search receives `update`: its successors that it
/// had not reached are new; they join `reach` and are what it passes on.
pub fn worker_post_update<BM: BddManager>(fsm: &FsmBdd<BM>, reach: BM::Bdd, update: BM::Bdd) -> (r: (BM::Bdd, BM::Bdd))
    requires
        fsm.images_apply(update.denote()),
        fsm.trans.wf(),
    ensures
        r.1.denote() == image_step(
            bm_width::<BM>(),
            true,
            update.denote(),
            fsm.inv(),
            fsm.parts(),
            valuations(bm_width::<BM>()),
        ).difference(reach.denote()),
        r.0.denote() == reach.denote().union(r.1.denote()),
        update.denote() == Set::<Seq<bool>>::empty() ==> r.1.denote() == Set::<Seq<bool>>::empty(),
{
    if update.is_constant(false) {
        proof {
            lemma_post_is_step(bm_width::<BM>(), update.denote(), fsm.inv(), fsm.parts());
            assert forall|x: Seq<bool>| !image_step(bm_width::<BM>(), true, update.denote(), fsm.inv(), fsm.parts(), valuations(bm_width::<BM>())).contains(x) by {
                if image_step(bm_width::<BM>(), true, update.denote(), fsm.inv(), fsm.parts(), valuations(bm_width::<BM>())).contains(x) {
                    let y = lemma_step_witness(bm_width::<BM>(), true, update.denote(), fsm.inv(), fsm.parts(), valuations(bm_width::<BM>()), x);
                }
            }
            assert(update.denote().difference(reach.denote()) =~= Set::<Seq<bool>>::empty());
            assert(reach.denote().union(update.denote()) =~= reach.denote());
            assert(image_step(bm_width::<BM>(), true, update.denote(), fsm.inv(), fsm.parts(), valuations(bm_width::<BM>())).difference(reach.denote()) =~= Set::<Seq<bool>>::empty());
        }
        return (reach, update);
    }
    let image = fsm.post_image(&update);
    let not_reach = reach.not();
    let fresh = image.and(&not_reach);
    let reach2 = reach.or(&fresh);
    proof {
        lemma_post_is_step(bm_width::<BM>(), update.denote(), fsm.inv(), fsm.parts());
        image.lemma_wf();
        reach.lemma_wf();
        assert(reach2.denote() =~= reach.denote().union(fresh.denote()));
    }
    (reach2, fresh)
}

/// A worker of the backward search receives `update`: the states of it
/// within `constraint` that it had not reached are new and join `reach`;
/// their predecessors are what it passes on.
pub fn worker_pre_update<BM: BddManager>(
    fsm: &FsmBdd<BM>,
    reach: BM::Bdd,
    update: BM::Bdd,
    constraint: &BM::Bdd,
) -> (r: (BM::Bdd, BM::Bdd))
    requires
        fsm.images_apply(update.denote().intersect(constraint.denote()).difference(reach.denote())),
        fsm.trans.wf(),
    ensures
        r.0.denote() == reach.denote().union(update.denote().intersect(constraint.denote()).difference(reach.denote())),
        r.1.denote()
            == image_step(
            bm_width::<BM>(),
            false,
            update.denote().intersect(constraint.denote()).difference(reach.denote()),
            fsm.inv(),
            fsm.parts(),
            valuations(bm_width::<BM>()),
        ),
{
    let u = update.and(constraint);
    let not_reach = reach.not();
    let fresh = u.and(&not_reach);
    let reach2 = reach.or(&fresh);
    proof {
        update.lemma_wf();
        assert(fresh.denote() =~= update.denote().intersect(constraint.denote()).difference(reach.denote()));
        lemma_pre_is_step(bm_width::<BM>(), fresh.denote(), fsm.inv(), fsm.parts());
    }
    if fresh.is_constant(false) {
        return (reach2, fresh);
    }
    let pre = fsm.pre_image(&fresh);
    (reach2, pre)
}

} // verus!
