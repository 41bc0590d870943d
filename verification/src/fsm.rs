//! A finite state machine over BDDs: initial states, invariants, a
//! transition relation and justice (fairness) constraints, with the
//! symbolic fixpoint computations over it.
use vstd::prelude::*;
use crate::bdd::{Bdd, BddManager};
use crate::trans::{bm_width, conj, denotes, lemma_conj_valuations, post_of, pre_of, Trans};
use crate::valuation::{
    independent, lemma_images_are_states, lemma_independent_ops, lemma_valuations_finite,
    next_set, parity_vars, post_set, pre_set, prev_set, shift_down, shift_up, state_set,
    valuations, join,
};

verus! {

/// One step of a search from `s`: its successors (`fwd`) or predecessors
/// under the parts `ts`, taken within the invariants `inv` and kept within
/// the constraint `c`.
pub open spec fn image_step(
    w: nat,
    fwd: bool,
    s: Set<Seq<bool>>,
    inv: Set<Seq<bool>>,
    ts: Seq<Set<Seq<bool>>>,
    c: Set<Seq<bool>>,
) -> Set<Seq<bool>> {
    (if fwd {
        post_of(w, s.intersect(inv), ts)
    } else {
        pre_of(w, s.intersect(inv), ts)
    }).intersect(inv).intersect(c)
}

/// The states found `n` steps after `s`.
pub open spec fn iterate(
    w: nat,
    fwd: bool,
    s: Set<Seq<bool>>,
    inv: Set<Seq<bool>>,
    ts: Seq<Set<Seq<bool>>>,
    c: Set<Seq<bool>>,
    n: nat,
) -> Set<Seq<bool>>
    decreases n,
{
    if n == 0 {
        s
    } else {
        image_step(w, fwd, iterate(w, fwd, s, inv, ts, c, (n - 1) as nat), inv, ts, c)
    }
}

/// The states reached from `s` in one or more steps, or in zero or more
/// steps when `from` holds.
pub open spec fn reach_set(
    w: nat,
    fwd: bool,
    from: bool,
    s: Set<Seq<bool>>,
    inv: Set<Seq<bool>>,
    ts: Seq<Set<Seq<bool>>>,
    c: Set<Seq<bool>>,
) -> Set<Seq<bool>> {
    Set::new(
        |x: Seq<bool>|
            exists|n: nat| (n >= 1 || from) && #[trigger] iterate(w, fwd, s, inv, ts, c, n).contains(x),
    )
}

/// For each justice set `j`, the states reached backwards in one or more
/// steps within `c` from the states of `j` in `x`.
pub open spec fn back_sets(
    w: nat,
    x: Set<Seq<bool>>,
    js: Seq<Set<Seq<bool>>>,
    inv: Set<Seq<bool>>,
    ts: Seq<Set<Seq<bool>>>,
    c: Set<Seq<bool>>,
) -> Seq<Set<Seq<bool>>> {
    js.map_values(
        |j: Set<Seq<bool>>|
            reach_set(w, false, false, j.intersect(x).intersect(c).intersect(inv), inv, ts, c),
    )
}

/// One round of the fair-cycle computation on `x`: the states of `x` from
/// which, for every justice set `j`, some state of `j` in `x` is reached
/// backwards in one or more steps within `c`.
pub open spec fn fair_step(
    w: nat,
    x: Set<Seq<bool>>,
    js: Seq<Set<Seq<bool>>>,
    inv: Set<Seq<bool>>,
    ts: Seq<Set<Seq<bool>>>,
    c: Set<Seq<bool>>,
) -> Set<Seq<bool>> {
    x.intersect(conj(w, back_sets(w, x, js, inv, ts, c)))
}

/// An image step distributes over union.
pub proof fn lemma_step_union(
    w: nat,
    fwd: bool,
    a: Set<Seq<bool>>,
    b: Set<Seq<bool>>,
    inv: Set<Seq<bool>>,
    ts: Seq<Set<Seq<bool>>>,
    c: Set<Seq<bool>>,
)
    ensures
        image_step(w, fwd, a.union(b), inv, ts, c) == image_step(w, fwd, a, inv, ts, c).union(
            image_step(w, fwd, b, inv, ts, c),
        ),
{
    let t = conj(w, ts);
    let ab = a.union(b).intersect(inv);
    assert(ab =~= a.intersect(inv).union(b.intersect(inv)));
    if fwd {
        if ts.len() == 0 {
            assert(prev_set(w, ab) =~= prev_set(w, a.intersect(inv)).union(prev_set(w, b.intersect(inv))));
        } else {
            assert forall|x: Seq<bool>| #[trigger] post_set(w, ab, t).contains(x) implies post_set(
                w,
                a.intersect(inv),
                t,
            ).union(post_set(w, b.intersect(inv), t)).contains(x) by {
                let y = choose|y: Seq<bool>| ab.contains(y) && t.contains(join(y, x));
            }
            assert(post_set(w, ab, t) =~= post_set(w, a.intersect(inv), t).union(
                post_set(w, b.intersect(inv), t),
            ));
        }
    } else {
        if ts.len() == 0 {
            assert(next_set(w, ab) =~= next_set(w, a.intersect(inv)).union(next_set(w, b.intersect(inv))));
        } else {
            assert forall|x: Seq<bool>| #[trigger] pre_set(w, ab, t).contains(x) implies pre_set(
                w,
                a.intersect(inv),
                t,
            ).union(pre_set(w, b.intersect(inv), t)).contains(x) by {
                let y = choose|y: Seq<bool>| ab.contains(y) && t.contains(join(x, y));
            }
            assert(pre_set(w, ab, t) =~= pre_set(w, a.intersect(inv), t).union(
                pre_set(w, b.intersect(inv), t),
            ));
        }
    }
    assert(image_step(w, fwd, a.union(b), inv, ts, c) =~= image_step(w, fwd, a, inv, ts, c).union(
        image_step(w, fwd, b, inv, ts, c),
    ));
}

/// An image step is monotone.
pub proof fn lemma_step_mono(
    w: nat,
    fwd: bool,
    a: Set<Seq<bool>>,
    b: Set<Seq<bool>>,
    inv: Set<Seq<bool>>,
    ts: Seq<Set<Seq<bool>>>,
    c: Set<Seq<bool>>,
)
    requires
        a.subset_of(b),
    ensures
        image_step(w, fwd, a, inv, ts, c).subset_of(image_step(w, fwd, b, inv, ts, c)),
{
    lemma_step_union(w, fwd, a, b, inv, ts, c);
    assert(a.union(b) =~= b);
}

/// Each state of an image step comes from one state of the source.
pub proof fn lemma_step_witness(
    w: nat,
    fwd: bool,
    s: Set<Seq<bool>>,
    inv: Set<Seq<bool>>,
    ts: Seq<Set<Seq<bool>>>,
    c: Set<Seq<bool>>,
    x: Seq<bool>,
) -> (y: Seq<bool>)
    requires
        image_step(w, fwd, s, inv, ts, c).contains(x),
    ensures
        s.contains(y),
        image_step(w, fwd, set![y], inv, ts, c).contains(x),
{
    let t = conj(w, ts);
    let si = s.intersect(inv);
    if fwd {
        if ts.len() == 0 {
            let y = shift_down(x);
            assert(set![y].intersect(inv).contains(y));
            y
        } else {
            let y = choose|y: Seq<bool>| si.contains(y) && t.contains(join(y, x));
            assert(set![y].intersect(inv).contains(y));
            assert(post_set(w, set![y].intersect(inv), t).contains(x));
            y
        }
    } else {
        if ts.len() == 0 {
            let y = shift_up(x);
            assert(set![y].intersect(inv).contains(y));
            y
        } else {
            let y = choose|y: Seq<bool>| si.contains(y) && t.contains(join(x, y));
            assert(set![y].intersect(inv).contains(y));
            assert(pre_set(w, set![y].intersect(inv), t).contains(x));
            y
        }
    }
}

/// Iterates of a larger set are larger.
pub proof fn lemma_iterate_mono(
    w: nat,
    fwd: bool,
    a: Set<Seq<bool>>,
    b: Set<Seq<bool>>,
    inv: Set<Seq<bool>>,
    ts: Seq<Set<Seq<bool>>>,
    c: Set<Seq<bool>>,
    n: nat,
)
    requires
        a.subset_of(b),
    ensures
        iterate(w, fwd, a, inv, ts, c, n).subset_of(iterate(w, fwd, b, inv, ts, c, n)),
    decreases n,
{
    if n > 0 {
        lemma_iterate_mono(w, fwd, a, b, inv, ts, c, (n - 1) as nat);
        lemma_step_mono(
            w,
            fwd,
            iterate(w, fwd, a, inv, ts, c, (n - 1) as nat),
            iterate(w, fwd, b, inv, ts, c, (n - 1) as nat),
            inv,
            ts,
            c,
        );
    }
}

/// A set closed under the step that holds the first step from `s` holds
/// every later step.
proof fn lemma_closed_contains_iterates(
    w: nat,
    fwd: bool,
    s: Set<Seq<bool>>,
    r: Set<Seq<bool>>,
    inv: Set<Seq<bool>>,
    ts: Seq<Set<Seq<bool>>>,
    c: Set<Seq<bool>>,
    n: nat,
)
    requires
        n >= 1,
        image_step(w, fwd, s, inv, ts, c).subset_of(r),
        image_step(w, fwd, r, inv, ts, c).subset_of(r),
    ensures
        iterate(w, fwd, s, inv, ts, c, n).subset_of(r),
    decreases n,
{
    if n > 1 {
        lemma_closed_contains_iterates(w, fwd, s, r, inv, ts, c, (n - 1) as nat);
        lemma_step_mono(w, fwd, iterate(w, fwd, s, inv, ts, c, (n - 1) as nat), r, inv, ts, c);
    } else {
        assert(iterate(w, fwd, s, inv, ts, c, 0) == s);
    }
}

/// The states reached from a larger set are more.
pub proof fn lemma_reach_set_mono(
    w: nat,
    fwd: bool,
    from: bool,
    a: Set<Seq<bool>>,
    b: Set<Seq<bool>>,
    inv: Set<Seq<bool>>,
    ts: Seq<Set<Seq<bool>>>,
    c: Set<Seq<bool>>,
)
    requires
        a.subset_of(b),
    ensures
        reach_set(w, fwd, from, a, inv, ts, c).subset_of(reach_set(w, fwd, from, b, inv, ts, c)),
{
    assert forall|x: Seq<bool>| reach_set(w, fwd, from, a, inv, ts, c).contains(x) implies reach_set(
        w,
        fwd,
        from,
        b,
        inv,
        ts,
        c,
    ).contains(x) by {
        let n = choose|n: nat| (n >= 1 || from) && #[trigger] iterate(w, fwd, a, inv, ts, c, n).contains(x);
        lemma_iterate_mono(w, fwd, a, b, inv, ts, c, n);
    }
}

/// Two partitions of one relation give the same iterates.
proof fn lemma_iterate_same_relation(
    w: nat,
    fwd: bool,
    s: Set<Seq<bool>>,
    inv: Set<Seq<bool>>,
    ts1: Seq<Set<Seq<bool>>>,
    ts2: Seq<Set<Seq<bool>>>,
    c: Set<Seq<bool>>,
    n: nat,
)
    requires
        (ts1.len() == 0) == (ts2.len() == 0),
        conj(w, ts1) == conj(w, ts2),
    ensures
        iterate(w, fwd, s, inv, ts1, c, n) == iterate(w, fwd, s, inv, ts2, c, n),
    decreases n,
{
    if n > 0 {
        lemma_iterate_same_relation(w, fwd, s, inv, ts1, ts2, c, (n - 1) as nat);
    }
}

/// A search sees the transition relation only through the conjunction of
/// its parts: two partitions of one relation reach the same states and
/// give the same fair-cycle rounds.
pub proof fn lemma_search_same_relation(
    w: nat,
    inv: Set<Seq<bool>>,
    ts1: Seq<Set<Seq<bool>>>,
    ts2: Seq<Set<Seq<bool>>>,
    c: Set<Seq<bool>>,
    js: Seq<Set<Seq<bool>>>,
)
    requires
        (ts1.len() == 0) == (ts2.len() == 0),
        conj(w, ts1) == conj(w, ts2),
    ensures
        forall|fwd: bool, from: bool, s: Set<Seq<bool>>|
            #[trigger] reach_set(w, fwd, from, s, inv, ts1, c) == reach_set(w, fwd, from, s, inv, ts2, c),
        forall|x: Set<Seq<bool>>|
            #[trigger] fair_step(w, x, js, inv, ts1, c) == fair_step(w, x, js, inv, ts2, c),
{
    assert forall|fwd: bool, from: bool, s: Set<Seq<bool>>|
        #[trigger] reach_set(w, fwd, from, s, inv, ts1, c) == reach_set(w, fwd, from, s, inv, ts2, c) by {
        assert forall|x: Seq<bool>| reach_set(w, fwd, from, s, inv, ts1, c).contains(x) implies reach_set(
            w, fwd, from, s, inv, ts2, c).contains(x) by {
            let n = choose|n: nat| (n >= 1 || from) && #[trigger] iterate(w, fwd, s, inv, ts1, c, n).contains(x);
            lemma_iterate_same_relation(w, fwd, s, inv, ts1, ts2, c, n);
        }
        assert forall|x: Seq<bool>| reach_set(w, fwd, from, s, inv, ts2, c).contains(x) implies reach_set(
            w, fwd, from, s, inv, ts1, c).contains(x) by {
            let n = choose|n: nat| (n >= 1 || from) && #[trigger] iterate(w, fwd, s, inv, ts2, c, n).contains(x);
            lemma_iterate_same_relation(w, fwd, s, inv, ts1, ts2, c, n);
        }
        assert(reach_set(w, fwd, from, s, inv, ts1, c) =~= reach_set(w, fwd, from, s, inv, ts2, c));
    }
    assert forall|x: Set<Seq<bool>>|
        #[trigger] fair_step(w, x, js, inv, ts1, c) == fair_step(w, x, js, inv, ts2, c) by {
        let b1 = back_sets(w, x, js, inv, ts1, c);
        let b2 = back_sets(w, x, js, inv, ts2, c);
        assert forall|k: int| 0 <= k < b1.len() implies #[trigger] b1[k] == b2[k] by {
            let s = js[k].intersect(x).intersect(c).intersect(inv);
            assert(reach_set(w, false, false, s, inv, ts1, c) == reach_set(w, false, false, s, inv, ts2, c));
        }
        assert(b1 =~= b2);
    }
}

/// A finite state machine.
pub struct FsmBdd<BM: BddManager> {
    pub symbols: Vec<(String, usize)>,
    pub manager: BM,
    pub init: BM::Bdd,
    pub invariants: BM::Bdd,
    pub trans: Trans<BM>,
    pub justice: Vec<BM::Bdd>,
}

impl<BM: BddManager> FsmBdd<BM> {
    /// The invariants.
    pub open spec fn inv(&self) -> Set<Seq<bool>> {
        self.invariants.denote()
    }

    /// The parts of the transition relation.
    pub open spec fn parts(&self) -> Seq<Set<Seq<bool>>> {
        self.trans.parts()
    }

    /// The justice sets.
    pub open spec fn justice_sets(&self) -> Seq<Set<Seq<bool>>> {
        denotes(self.justice@)
    }

    /// Whether the image contracts of the relation apply to `s`: the
    /// relation has no part, or `s` and the invariants are sets of states.
    pub open spec fn images_apply(&self, s: Set<Seq<bool>>) -> bool {
        self.parts().len() == 0 || (state_set(bm_width::<BM>(), s) && state_set(
            bm_width::<BM>(),
            self.inv(),
        ))
    }

    /// The predecessors of `state` within the invariants.
    pub fn pre_image(&self, state: &BM::Bdd) -> (r: BM::Bdd)
        requires
            self.images_apply(state.denote()),
            self.trans.wf(),
        ensures
            r.denote() == pre_of(
                bm_width::<BM>(),
                state.denote().intersect(self.inv()),
                self.parts(),
            ).intersect(self.inv()),
    {
        let s = state.and(&self.invariants);
        proof {
            if self.images_apply(state.denote()) && self.parts().len() > 0 {
                state.lemma_wf();
                lemma_independent_ops(
                    bm_width::<BM>(),
                    state.denote(),
                    self.inv(),
                    parity_vars(bm_width::<BM>(), 1),
                );
            }
        }
        let p = self.trans.pre_image(&s);
        p.and(&self.invariants)
    }

    /// The successors of `state` within the invariants.
    pub fn post_image(&self, state: &BM::Bdd) -> (r: BM::Bdd)
        requires
            self.images_apply(state.denote()),
            self.trans.wf(),
        ensures
            r.denote() == post_of(
                bm_width::<BM>(),
                state.denote().intersect(self.inv()),
                self.parts(),
            ).intersect(self.inv()),
    {
        let s = state.and(&self.invariants);
        proof {
            if self.images_apply(state.denote()) && self.parts().len() > 0 {
                lemma_independent_ops(
                    bm_width::<BM>(),
                    state.denote(),
                    self.inv(),
                    parity_vars(bm_width::<BM>(), 1),
                );
            }
        }
        let p = self.trans.post_image(&s);
        p.and(&self.invariants)
    }
}

/// What a breadth-first search keeps true: every state found is reached,
/// every state of the frontier is reached, and the step from what was found
/// and from the start stays within what was found and the step from the
/// frontier.
pub open spec fn search_inv(
    w: nat,
    fwd: bool,
    from: bool,
    f0: Set<Seq<bool>>,
    inv: Set<Seq<bool>>,
    ts: Seq<Set<Seq<bool>>>,
    c: Set<Seq<bool>>,
    reach: Set<Seq<bool>>,
    frontier: Set<Seq<bool>>,
) -> bool {
    &&& reach.subset_of(reach_set(w, fwd, from, f0, inv, ts, c))
    &&& frontier.subset_of(reach_set(w, fwd, true, f0, inv, ts, c))
    &&& image_step(w, fwd, reach, inv, ts, c).subset_of(
        reach.union(image_step(w, fwd, frontier, inv, ts, c)),
    )
    &&& image_step(w, fwd, f0, inv, ts, c).subset_of(
        reach.union(image_step(w, fwd, frontier, inv, ts, c)),
    )
    &&& from ==> f0.subset_of(reach)
}

/// The step from a state reached from `f0` holds states reached in one or
/// more steps.
proof fn lemma_step_of_reached(
    w: nat,
    fwd: bool,
    f0: Set<Seq<bool>>,
    inv: Set<Seq<bool>>,
    ts: Seq<Set<Seq<bool>>>,
    c: Set<Seq<bool>>,
    frontier: Set<Seq<bool>>,
)
    requires
        frontier.subset_of(reach_set(w, fwd, true, f0, inv, ts, c)),
    ensures
        image_step(w, fwd, frontier, inv, ts, c).subset_of(reach_set(w, fwd, false, f0, inv, ts, c)),
{
    assert forall|x: Seq<bool>| image_step(w, fwd, frontier, inv, ts, c).contains(x) implies reach_set(
        w,
        fwd,
        false,
        f0,
        inv,
        ts,
        c,
    ).contains(x) by {
        let y = lemma_step_witness(w, fwd, frontier, inv, ts, c, x);
        assert(reach_set(w, fwd, true, f0, inv, ts, c).contains(y));
        let n = choose|n: nat| (n >= 1 || true) && #[trigger] iterate(w, fwd, f0, inv, ts, c, n).contains(y);
        lemma_step_mono(w, fwd, set![y], iterate(w, fwd, f0, inv, ts, c, n), inv, ts, c);
        assert(iterate(w, fwd, f0, inv, ts, c, n + 1).contains(x));
    }
}

/// The search invariant holds at the start.
proof fn lemma_search_init(
    w: nat,
    fwd: bool,
    from: bool,
    f0: Set<Seq<bool>>,
    inv: Set<Seq<bool>>,
    ts: Seq<Set<Seq<bool>>>,
    c: Set<Seq<bool>>,
    reach: Set<Seq<bool>>,
)
    requires
        reach == (if from {
            f0
        } else {
            Set::<Seq<bool>>::empty()
        }),
    ensures
        search_inv(w, fwd, from, f0, inv, ts, c, reach, f0),
{
    assert forall|x: Seq<bool>| f0.contains(x) implies reach_set(w, fwd, true, f0, inv, ts, c).contains(x) by {
        assert(iterate(w, fwd, f0, inv, ts, c, 0).contains(x));
    }
    if from {
        assert forall|x: Seq<bool>| reach.contains(x) implies reach_set(w, fwd, from, f0, inv, ts, c).contains(x) by {
            assert(iterate(w, fwd, f0, inv, ts, c, 0).contains(x));
        }
    } else {
        lemma_step_mono(w, fwd, reach, f0, inv, ts, c);
    }
}

/// One round of the search keeps its invariant.
proof fn lemma_search_step(
    w: nat,
    fwd: bool,
    from: bool,
    f0: Set<Seq<bool>>,
    inv: Set<Seq<bool>>,
    ts: Seq<Set<Seq<bool>>>,
    c: Set<Seq<bool>>,
    reach: Set<Seq<bool>>,
    frontier: Set<Seq<bool>>,
)
    requires
        search_inv(w, fwd, from, f0, inv, ts, c, reach, frontier),
    ensures
        search_inv(
            w,
            fwd,
            from,
            f0,
            inv,
            ts,
            c,
            reach.union(image_step(w, fwd, frontier, inv, ts, c).difference(reach)),
            image_step(w, fwd, frontier, inv, ts, c).difference(reach),
        ),
{
    let g = image_step(w, fwd, frontier, inv, ts, c);
    let nf = g.difference(reach);
    let reach2 = reach.union(nf);
    lemma_step_of_reached(w, fwd, f0, inv, ts, c, frontier);
    assert forall|x: Seq<bool>| reach_set(w, fwd, false, f0, inv, ts, c).contains(x) implies reach_set(
        w,
        fwd,
        from,
        f0,
        inv,
        ts,
        c,
    ).contains(x) && reach_set(w, fwd, true, f0, inv, ts, c).contains(x) by {
        let n = choose|n: nat| (n >= 1 || false) && #[trigger] iterate(w, fwd, f0, inv, ts, c, n).contains(x);
    }
    lemma_step_union(w, fwd, reach, nf, inv, ts, c);
    assert(reach2.union(image_step(w, fwd, nf, inv, ts, c)) =~= reach.union(g).union(
        image_step(w, fwd, nf, inv, ts, c),
    ));
}

/// When the step from the frontier finds nothing new, what was found is
/// exactly what is reached.
proof fn lemma_search_done(
    w: nat,
    fwd: bool,
    from: bool,
    f0: Set<Seq<bool>>,
    inv: Set<Seq<bool>>,
    ts: Seq<Set<Seq<bool>>>,
    c: Set<Seq<bool>>,
    reach: Set<Seq<bool>>,
    frontier: Set<Seq<bool>>,
)
    requires
        search_inv(w, fwd, from, f0, inv, ts, c, reach, frontier),
        image_step(w, fwd, frontier, inv, ts, c).subset_of(reach),
    ensures
        reach == reach_set(w, fwd, from, f0, inv, ts, c),
{
    assert forall|x: Seq<bool>| reach_set(w, fwd, from, f0, inv, ts, c).contains(x) implies reach.contains(x) by {
        let n = choose|n: nat| (n >= 1 || from) && #[trigger] iterate(w, fwd, f0, inv, ts, c, n).contains(x);
        if n >= 1 {
            lemma_closed_contains_iterates(w, fwd, f0, reach, inv, ts, c, n);
        }
    }
    assert(reach =~= reach_set(w, fwd, from, f0, inv, ts, c));
}

/// An image step of a set of states, within invariants and a constraint
/// that are sets of states, is a set of states.
pub proof fn lemma_step_state(
    w: nat,
    fwd: bool,
    s: Set<Seq<bool>>,
    inv: Set<Seq<bool>>,
    ts: Seq<Set<Seq<bool>>>,
    c: Set<Seq<bool>>,
)
    requires
        ts.len() > 0,
        state_set(w, inv),
        state_set(w, c),
        s.subset_of(valuations(w)),
    ensures
        state_set(w, image_step(w, fwd, s, inv, ts, c)),
{
    let t = conj(w, ts);
    let si = s.intersect(inv);
    lemma_images_are_states(w, si, t);
    let img = if fwd { post_set(w, si, t) } else { pre_set(w, si, t) };
    lemma_independent_ops(w, img, inv, parity_vars(w, 1));
    lemma_independent_ops(w, img.intersect(inv), c, parity_vars(w, 1));
}

/// The step of any set lies within the valuations.
pub proof fn lemma_step_valuations(
    w: nat,
    fwd: bool,
    s: Set<Seq<bool>>,
    inv: Set<Seq<bool>>,
    ts: Seq<Set<Seq<bool>>>,
    c: Set<Seq<bool>>,
)
    ensures
        image_step(w, fwd, s, inv, ts, c).subset_of(valuations(w)),
{
}

impl<BM: BddManager> FsmBdd<BM> {
    /// Whether the search contracts apply: the relation has no part, or the
    /// start, the constraint and the invariants are sets of states.
    pub open spec fn search_applies(&self, s: Set<Seq<bool>>, c: Set<Seq<bool>>) -> bool {
        self.parts().len() == 0 || (state_set(bm_width::<BM>(), s) && state_set(bm_width::<BM>(), c)
            && state_set(bm_width::<BM>(), self.inv()))
    }

    /// The states reached from `state` within `constrain`, forwards or
    /// backwards, in one or more steps, or in zero or more steps when
    /// `contain_from` holds.
    pub fn reachable_with_constrain(
        &self,
        state: &BM::Bdd,
        forward: bool,
        contain_from: bool,
        constrain: &BM::Bdd,
    ) -> (r: BM::Bdd)
        requires
            self.search_applies(state.denote(), constrain.denote()),
            self.trans.wf(),
        ensures
            r.denote() == reach_set(
                bm_width::<BM>(),
                forward,
                contain_from,
                state.denote().intersect(constrain.denote()).intersect(self.inv()),
                self.inv(),
                self.parts(),
                constrain.denote(),
            ),
            self.parts().len() > 0
                ==> state_set(bm_width::<BM>(), r.denote()),
    {
        let ghost w = bm_width::<BM>();
        let ghost inv = self.inv();
        let ghost ts = self.parts();
        let ghost c = constrain.denote();
        let ghost applies = self.search_applies(state.denote(), constrain.denote());
        let ghost sets = applies && ts.len() > 0;
        let sc = state.and(constrain);
        let mut frontier = sc.and(&self.invariants);
        let ghost f0 = frontier.denote();
        let mut reach = if contain_from {
            frontier.duplicate()
        } else {
            self.manager.constant(false)
        };
        proof {
            lemma_search_init(w, forward, contain_from, f0, inv, ts, c, reach.denote());
            lemma_valuations_finite(w);
            frontier.lemma_wf();
            reach.lemma_wf();
            if sets {
                lemma_independent_ops(w, state.denote(), c, parity_vars(w, 1));
                lemma_independent_ops(w, sc.denote(), inv, parity_vars(w, 1));
                lemma_independent_ops(w, f0, f0, parity_vars(w, 1));
            }
        }
        loop
            invariant
                self.trans.wf(),
                w == bm_width::<BM>(),
                inv == self.inv(),
                ts == self.parts(),
                c == constrain.denote(),
                f0 == state.denote().intersect(c).intersect(inv),
                applies == self.search_applies(state.denote(), constrain.denote()),
                applies,
                sets == (applies && ts.len() > 0),
                valuations(w).finite(),
                reach.denote().subset_of(valuations(w)),
                frontier.denote().subset_of(valuations(w)),
                applies ==> search_inv(
                    w,
                    forward,
                    contain_from,
                    f0,
                    inv,
                    ts,
                    c,
                    reach.denote(),
                    frontier.denote(),
                ),
                sets ==> state_set(w, reach.denote()) && state_set(w, frontier.denote())
                    && state_set(w, inv) && state_set(w, c),
            decreases valuations(w).len() - reach.denote().len(),
        {
            let img = if forward {
                self.post_image(&frontier)
            } else {
                self.pre_image(&frontier)
            };
            let step = img.and(constrain);
            let not_reach = reach.not();
            let new_frontier = step.and(&not_reach);
            proof {
                vstd::set_lib::lemma_set_subset_finite(valuations(w), reach.denote());
                if applies {
                    assert(step.denote() == image_step(w, forward, frontier.denote(), inv, ts, c));
                    lemma_step_valuations(w, forward, frontier.denote(), inv, ts, c);
                    assert(new_frontier.denote() =~= step.denote().difference(reach.denote()));
                }
            }
            if new_frontier.is_constant(false) {
                proof {
                    if applies {
                        assert forall|x: Seq<bool>| step.denote().contains(x) implies reach.denote().contains(x) by {
                            assert(!new_frontier.denote().contains(x));
                        }
                        lemma_search_done(
                            w,
                            forward,
                            contain_from,
                            f0,
                            inv,
                            ts,
                            c,
                            reach.denote(),
                            frontier.denote(),
                        );
                    }
                }
                return reach;
            }
            let ghost old_reach = reach.denote();
            proof {
                if applies {
                    lemma_search_step(
                        w,
                        forward,
                        contain_from,
                        f0,
                        inv,
                        ts,
                        c,
                        reach.denote(),
                        frontier.denote(),
                    );
                }
                if sets {
                    lemma_step_state(w, forward, frontier.denote(), inv, ts, c);
                    lemma_independent_ops(w, step.denote(), reach.denote(), parity_vars(w, 1));
                }
                new_frontier.lemma_wf();
            }
            reach = reach.or(&new_frontier);
            proof {
                if sets {
                    lemma_independent_ops(w, old_reach, new_frontier.denote(), parity_vars(w, 1));
                }
                let x = new_frontier.denote().choose();
                assert(new_frontier.denote().contains(x)) by {
                    assert(new_frontier.denote() != Set::<Seq<bool>>::empty());
                    if !new_frontier.denote().contains(x) {
                        assert(new_frontier.denote() =~= Set::<Seq<bool>>::empty());
                    }
                }
                assert(!old_reach.contains(x));
                vstd::set_lib::lemma_set_subset_finite(valuations(w), reach.denote());
                vstd::set_lib::lemma_len_subset(old_reach.insert(x), reach.denote());
                vstd::set_lib::lemma_len_subset(reach.denote(), valuations(w));
            }
            frontier = new_frontier;
        }
    }
}

/// Conjunction is monotone in each set.
proof fn lemma_conj_mono(w: nat, a: Seq<Set<Seq<bool>>>, b: Seq<Set<Seq<bool>>>)
    requires
        a.len() == b.len(),
        forall|k: int| 0 <= k < a.len() ==> (#[trigger] a[k]).subset_of(b[k]),
    ensures
        conj(w, a).subset_of(conj(w, b)),
    decreases a.len(),
{
    if a.len() > 0 {
        lemma_conj_mono(w, a.drop_last(), b.drop_last());
    }
}

/// A round of the fair-cycle computation is monotone.
pub proof fn lemma_fair_step_mono(
    w: nat,
    x: Set<Seq<bool>>,
    y: Set<Seq<bool>>,
    js: Seq<Set<Seq<bool>>>,
    inv: Set<Seq<bool>>,
    ts: Seq<Set<Seq<bool>>>,
    c: Set<Seq<bool>>,
)
    requires
        x.subset_of(y),
    ensures
        fair_step(w, x, js, inv, ts, c).subset_of(fair_step(w, y, js, inv, ts, c)),
{
    let bx = back_sets(w, x, js, inv, ts, c);
    let by = back_sets(w, y, js, inv, ts, c);
    assert forall|k: int| 0 <= k < bx.len() implies (#[trigger] bx[k]).subset_of(by[k]) by {
        let j = js[k];
        lemma_reach_set_mono(
            w,
            false,
            false,
            j.intersect(x).intersect(c).intersect(inv),
            j.intersect(y).intersect(c).intersect(inv),
            inv,
            ts,
            c,
        );
    }
    lemma_conj_mono(w, bx, by);
}

impl<BM: BddManager> FsmBdd<BM> {
    /// The states reached from `state`, forwards or backwards, in one or
    /// more steps, or in zero or more steps when `contain_from` holds.
    pub fn reachable(&self, state: &BM::Bdd, forward: bool, contain_from: bool) -> (r: BM::Bdd)
        requires
            self.search_applies(state.denote(), valuations(bm_width::<BM>())),
            self.trans.wf(),
        ensures
            r.denote()
                == reach_set(
                bm_width::<BM>(),
                forward,
                contain_from,
                state.denote().intersect(self.inv()),
                self.inv(),
                self.parts(),
                valuations(bm_width::<BM>()),
            ),
            self.parts().len()
                > 0 ==> state_set(bm_width::<BM>(), r.denote()),
    {
        let t = self.manager.constant(true);
        proof {
            state.lemma_wf();
            assert(state.denote().intersect(t.denote()) =~= state.denote());
        }
        self.reachable_with_constrain(state, forward, contain_from, &t)
    }

    /// The states reachable from the initial states.
    pub fn reachable_from_init(&self) -> (r: BM::Bdd)
        requires
            self.search_applies(self.init.denote(), valuations(bm_width::<BM>())),
            self.trans.wf(),
        ensures
            r.denote()
                == reach_set(
                bm_width::<BM>(),
                true,
                true,
                self.init.denote().intersect(self.inv()),
                self.inv(),
                self.parts(),
                valuations(bm_width::<BM>()),
            ),
            self.parts().len() > 0 ==> state_set(bm_width::<BM>(), r.denote()),
    {
        self.reachable(&self.init, true, true)
    }

    /// Whether the fair-cycle contracts apply: the relation has no part, or
    /// the constraint, the invariants and the justice sets are sets of
    /// states.
    pub open spec fn fair_applies(&self, c: Set<Seq<bool>>) -> bool {
        self.parts().len() == 0 || (state_set(bm_width::<BM>(), c) && state_set(
            bm_width::<BM>(),
            self.inv(),
        ) && forall|k: int|
            0 <= k < self.justice@.len() ==> state_set(
                bm_width::<BM>(),
                #[trigger] self.justice@[k].denote(),
            ))
    }

    /// The states within `constrain` from which a path within `constrain`
    /// visits every justice set infinitely often: the greatest set `x`
    /// within `constrain` from whose every state each justice set is reached
    /// again, backwards-closed, within `x`.
    pub fn fair_cycle_with_constrain(&self, constrain: &BM::Bdd) -> (r: BM::Bdd)
        requires
            self.fair_applies(constrain.denote()),
            self.trans.wf(),
        ensures
            r.denote().subset_of(constrain.denote()),
            r.denote() == fair_step(
                bm_width::<BM>(),
                r.denote(),
                self.justice_sets(),
                self.inv(),
                self.parts(),
                constrain.denote(),
            ),
            forall|x: Set<Seq<bool>>|
                x.subset_of(constrain.denote()) && x.subset_of(
                    #[trigger] fair_step(
                        bm_width::<BM>(),
                        x,
                        self.justice_sets(),
                        self.inv(),
                        self.parts(),
                        constrain.denote(),
                    ),
                ) ==> x.subset_of(r.denote()),
            self.parts().len() > 0 ==> state_set(
                bm_width::<BM>(),
                r.denote(),
            ),
    {
        let ghost w = bm_width::<BM>();
        let ghost inv = self.inv();
        let ghost ts = self.parts();
        let ghost js = self.justice_sets();
        let ghost c = constrain.denote();
        let ghost applies = self.fair_applies(c);
        let ghost sets = applies && ts.len() > 0;
        let mut res = constrain.duplicate();
        proof {
            lemma_valuations_finite(w);
            res.lemma_wf();
        }
        loop
            invariant
                self.trans.wf(),
                w == bm_width::<BM>(),
                inv == self.inv(),
                ts == self.parts(),
                js == self.justice_sets(),
                c == constrain.denote(),
                applies == self.fair_applies(c),
                applies,
                sets == (applies && ts.len() > 0),
                valuations(w).finite(),
                res.denote().subset_of(c),
                res.denote().subset_of(valuations(w)),
                sets ==> state_set(w, res.denote()),
                applies ==> forall|x: Set<Seq<bool>>|
                    x.subset_of(c) && x.subset_of(#[trigger] fair_step(w, x, js, inv, ts, c))
                        ==> x.subset_of(res.denote()),
            decreases res.denote().len(),
        {
            let mut new = res.duplicate();
            let mut i: usize = 0;
            proof {
                lemma_conj_valuations(w, back_sets(w, res.denote(), js.take(0), inv, ts, c));
                assert(back_sets(w, res.denote(), js.take(0), inv, ts, c) =~= Seq::<Set<Seq<bool>>>::empty());
                assert(res.denote().intersect(valuations(w)) =~= res.denote());
            }
            while i < self.justice.len()
                invariant
                    self.trans.wf(),
                    w == bm_width::<BM>(),
                    inv == self.inv(),
                    ts == self.parts(),
                    js == self.justice_sets(),
                    c == constrain.denote(),
                    applies == self.fair_applies(c),
                    applies,
                    sets == (applies && ts.len() > 0),
                    i <= self.justice@.len(),
                    sets ==> state_set(w, res.denote()),
                    sets ==> state_set(w, new.denote()),
                    applies ==> new.denote() == res.denote().intersect(
                        conj(w, back_sets(w, res.denote(), js.take(i as int), inv, ts, c)),
                    ),
                    new.denote().subset_of(res.denote()),
                decreases self.justice@.len() - i,
            {
                let fair = self.justice[i].and(&res);
                proof {
                    if sets {
                        assert(state_set(w, self.justice@[i as int].denote()));
                        lemma_independent_ops(
                            w,
                            self.justice@[i as int].denote(),
                            res.denote(),
                            parity_vars(w, 1),
                        );
                    }
                }
                let backward = self.reachable_with_constrain(&fair, false, false, constrain);
                let ghost old_new = new.denote();
                new = new.and(&backward);
                proof {
                    if sets {
                        lemma_independent_ops(w, old_new, backward.denote(), parity_vars(w, 1));
                    }
                    if applies {
                        let bs = back_sets(w, res.denote(), js.take(i as int + 1), inv, ts, c);
                        assert(bs.drop_last() =~= back_sets(w, res.denote(), js.take(i as int), inv, ts, c));
                        assert(js[i as int] == self.justice@[i as int].denote());
                        assert(fair.denote().intersect(c).intersect(inv) =~= js[i as int].intersect(
                            res.denote(),
                        ).intersect(c).intersect(inv));
                        assert(bs.last() == backward.denote());
                        assert(new.denote() =~= res.denote().intersect(conj(w, bs)));
                    }
                }
                i = i + 1;
            }
            proof {
                assert(js.take(i as int) =~= js);
            }
            if new.equals(&res) {
                return res;
            }
            proof {
                if sets {
                    lemma_conj_valuations(w, back_sets(w, res.denote(), js, inv, ts, c));
                }
                let x = res.denote().difference(new.denote()).choose();
                assert(res.denote().difference(new.denote()).contains(x)) by {
                    if !res.denote().difference(new.denote()).contains(x) {
                        assert(res.denote().difference(new.denote()) =~= Set::<Seq<bool>>::empty());
                        assert forall|y: Seq<bool>| res.denote().contains(y) implies new.denote().contains(y) by {
                            assert(!res.denote().difference(new.denote()).contains(y));
                        }
                        assert(new.denote() =~= res.denote());
                    }
                }
                vstd::set_lib::lemma_set_subset_finite(valuations(w), res.denote());
                vstd::set_lib::lemma_len_subset(new.denote(), res.denote().remove(x));
                if applies {
                    assert forall|y: Set<Seq<bool>>|
                        y.subset_of(c) && y.subset_of(#[trigger] fair_step(w, y, js, inv, ts, c))
                            implies y.subset_of(new.denote()) by {
                        lemma_fair_step_mono(w, y, res.denote(), js, inv, ts, c);
                    }
                }
                if sets {
                    lemma_independent_ops(w, res.denote(), res.denote(), parity_vars(w, 1));
                }
            }
            res = new;
        }
    }
}

/// The names and indices of symbols, as plain values.
pub open spec fn symbols_view(v: Seq<(String, usize)>) -> Seq<(Seq<char>, usize)> {
    v.map_values(|p: (String, usize)| (p.0@, p.1))
}

/// Copies of the symbols `v`.
pub fn copy_symbols(v: &Vec<(String, usize)>) -> (r: Vec<(String, usize)>)
    ensures
        symbols_view(r@) == symbols_view(v@),
{
    let mut r: Vec<(String, usize)> = Vec::new();
    let mut i: usize = 0;
    while i < v.len()
        invariant
            i <= v.len(),
            r@.len() == i,
            forall|k: int| 0 <= k < i ==> (#[trigger] r@[k]).0@ == v@[k].0@ && r@[k].1 == v@[k].1,
        decreases v.len() - i,
    {
        let name = v[i].0.clone();
        r.push((name, v[i].1));
        i = i + 1;
    }
    assert(symbols_view(r@) =~= symbols_view(v@));
    r
}

impl<BM: BddManager> FsmBdd<BM> {
    /// The fair states: those from which a path visits every justice set
    /// infinitely often.
    pub fn fair_cycle(&self) -> (r: BM::Bdd)
        requires
            self.fair_applies(valuations(bm_width::<BM>())),
            self.trans.wf(),
        ensures
            r.denote() == fair_step(
                bm_width::<BM>(),
                r.denote(),
                self.justice_sets(),
                self.inv(),
                self.parts(),
                valuations(bm_width::<BM>()),
            ),
            forall|x: Set<Seq<bool>>|
                x.subset_of(valuations(bm_width::<BM>())) && x.subset_of(
                    #[trigger] fair_step(
                        bm_width::<BM>(),
                        x,
                        self.justice_sets(),
                        self.inv(),
                        self.parts(),
                        valuations(bm_width::<BM>()),
                    ),
                ) ==> x.subset_of(r.denote()),
    {
        let t = self.manager.constant(true);
        self.fair_cycle_with_constrain(&t)
    }

    /// The synchronous product of two machines over the same manager: the
    /// conjunction of the initial states, invariants and relations, and the
    /// justice sets of both. A symbol of `other` overrides one of `self`
    /// with the same name.
    pub fn product(&self, other: &Self) -> (r: Self)
        requires
            self.manager == other.manager,
            self.trans.manager == other.trans.manager,
        ensures
            r.trans.wf(),
            r.manager == self.manager,
            symbols_view(r.symbols@) == symbols_view(self.symbols@) + symbols_view(other.symbols@),
            r.init.denote() == self.init.denote().intersect(other.init.denote()),
            r.inv() == self.inv().intersect(other.inv()),
            r.trans.relation() == self.trans.relation().intersect(other.trans.relation()),
            r.justice_sets() == self.justice_sets() + other.justice_sets(),
            (r.parts().len() == 0) == (self.parts().len() + other.parts().len() == 0),
    {
        let mut symbols = copy_symbols(&self.symbols);
        let mut rest = copy_symbols(&other.symbols);
        let ghost a = symbols@;
        let ghost b = rest@;
        symbols.append(&mut rest);
        assert(symbols_view(symbols@) =~= symbols_view(a) + symbols_view(b));
        let init = self.init.and(&other.init);
        let invariants = self.invariants.and(&other.invariants);
        let trans = self.trans.product(&other.trans);
        let mut justice = crate::trans::duplicate_all(&self.justice);
        let mut more = crate::trans::duplicate_all(&other.justice);
        let ghost ja = justice@;
        let ghost jb = more@;
        justice.append(&mut more);
        assert(denotes(justice@) =~= denotes(ja) + denotes(jb));
        FsmBdd { symbols, manager: self.manager.duplicate(), init, trans, justice, invariants }
    }

    /// The same machine held by a fresh manager.
    pub fn clone_with_new_manager(&self) -> (r: Self)
        requires
            self.trans.wf(),
        ensures
            r.trans.wf(),
            symbols_view(r.symbols@) == symbols_view(self.symbols@),
            r.init.denote() == self.init.denote(),
            r.inv() == self.inv(),
            r.parts() == self.parts(),
            r.justice_sets() == self.justice_sets(),
    {
        let manager = BM::new();
        let trans = self.trans.clone_with_new_manager(&manager);
        let init = manager.translocate(&self.init);
        let mut justice: Vec<BM::Bdd> = Vec::new();
        let mut i: usize = 0;
        while i < self.justice.len()
            invariant
                i <= self.justice.len(),
                justice@.len() == i,
                forall|k: int| 0 <= k < i ==> #[trigger] justice@[k].denote() == self.justice@[k].denote(),
            decreases self.justice.len() - i,
        {
            justice.push(manager.translocate(&self.justice[i]));
            i = i + 1;
        }
        assert(denotes(justice@) =~= denotes(self.justice@));
        let invariants = manager.translocate(&self.invariants);
        FsmBdd { symbols: copy_symbols(&self.symbols), manager, init, trans, justice, invariants }
    }
}

} // verus!
