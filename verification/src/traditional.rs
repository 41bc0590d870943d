//! The classical check: the synchronous product of the model with the
//! machine of the automaton of the negated property, searched for a
//! reachable fair cycle.
use vstd::prelude::*;
use crate::bdd::{Bdd, BddManager};
use crate::fsm::{fair_step, lemma_search_same_relation, reach_set, FsmBdd};
use crate::trans::{bm_width, conj, lemma_conj_single, lemma_conj_valuations};
use crate::valuation::{lemma_independent_ops, parity_vars, state_set, valuations};

verus! {

/// The transition relation of the product of `a` and `b`, as one part: none
/// when neither machine has a part.
pub open spec fn joint_parts<BM: BddManager>(a: &FsmBdd<BM>, b: &FsmBdd<BM>) -> Seq<Set<Seq<bool>>> {
    if a.parts().len() + b.parts().len() == 0 {
        Seq::empty()
    } else {
        seq![a.trans.relation().intersect(b.trans.relation())]
    }
}

/// The invariants of the product.
pub open spec fn joint_inv<BM: BddManager>(a: &FsmBdd<BM>, b: &FsmBdd<BM>) -> Set<Seq<bool>> {
    a.inv().intersect(b.inv())
}

/// The initial states of the product.
pub open spec fn joint_init<BM: BddManager>(a: &FsmBdd<BM>, b: &FsmBdd<BM>) -> Set<Seq<bool>> {
    a.init.denote().intersect(b.init.denote())
}

/// The justice sets of the product.
pub open spec fn joint_justice<BM: BddManager>(a: &FsmBdd<BM>, b: &FsmBdd<BM>) -> Seq<Set<Seq<bool>>> {
    a.justice_sets() + b.justice_sets()
}

/// The states of the product reachable from its initial states.
pub open spec fn joint_reach<BM: BddManager>(a: &FsmBdd<BM>, b: &FsmBdd<BM>) -> Set<Seq<bool>> {
    reach_set(
        bm_width::<BM>(),
        true,
        true,
        joint_init(a, b).intersect(joint_inv(a, b)),
        joint_inv(a, b),
        joint_parts(a, b),
        valuations(bm_width::<BM>()),
    )
}

/// The product has no part, or the initial states, the invariants and the
/// justice sets of both machines are sets of states.
pub open spec fn joint_applies<BM: BddManager>(a: &FsmBdd<BM>, b: &FsmBdd<BM>) -> bool {
    let w = bm_width::<BM>();
    joint_parts(a, b).len() == 0 || {
        &&& state_set(w, a.init.denote())
        &&& state_set(w, b.init.denote())
        &&& state_set(w, a.inv())
        &&& state_set(w, b.inv())
        &&& forall|k: int| 0 <= k < joint_justice(a, b).len() ==> state_set(w, #[trigger] joint_justice(a, b)[k])
    }
}

/// No reachable state of the product lies on a fair cycle: every set `x`
/// of reachable states from each of whose states every justice set is
/// reached again within the reachable states is empty.
pub open spec fn no_reachable_fair_cycle<BM: BddManager>(a: &FsmBdd<BM>, b: &FsmBdd<BM>) -> bool {
    forall|x: Set<Seq<bool>>|
        x.subset_of(joint_reach(a, b)) && x.subset_of(
            #[trigger] fair_step(bm_width::<BM>(), x, joint_justice(a, b), joint_inv(a, b), joint_parts(a, b), joint_reach(a, b)),
        ) ==> x == Set::<Seq<bool>>::empty()
}

/// Whether `check` may be asked about `fsm` and `automaton`: neither has a
/// part, or their initial states, invariants and justice sets are sets of
/// states.
pub fn check_applies<BM: BddManager>(fsm: &FsmBdd<BM>, automaton: &FsmBdd<BM>) -> (r: bool)
    ensures
        r == joint_applies(fsm, automaton),
{
    if fsm.trans.trans.len() == 0 && automaton.trans.trans.len() == 0 {
        return true;
    }
    let w = crate::bdd::is_state_set(&fsm.init) && crate::bdd::is_state_set(&automaton.init)
        && crate::bdd::is_state_set(&fsm.invariants) && crate::bdd::is_state_set(&automaton.invariants);
    let j1 = crate::product::all_state_sets(&fsm.justice);
    let j2 = crate::product::all_state_sets(&automaton.justice);
    proof {
        let js = joint_justice(fsm, automaton);
        let n1 = fsm.justice_sets().len();
        if j1 && j2 {
            assert forall|k: int| 0 <= k < js.len() implies state_set(bm_width::<BM>(), #[trigger] js[k]) by {
                if k < n1 {
                    assert(js[k] == fsm.justice_sets()[k]);
                } else {
                    assert(js[k] == automaton.justice_sets()[k - n1]);
                }
            }
        } else if !j1 {
            let q = choose|q: int| 0 <= q < n1 && !state_set(bm_width::<BM>(), #[trigger] fsm.justice_sets()[q]);
            assert(js[q] == fsm.justice_sets()[q]);
        } else {
            let q = choose|q: int| 0 <= q < automaton.justice_sets().len() && !state_set(bm_width::<BM>(), #[trigger] automaton.justice_sets()[q]);
            assert(js[n1 + q] == automaton.justice_sets()[q]);
        }
    }
    w && j1 && j2
}

/// Whether no reachable state of the product of `fsm` and `automaton` lies
/// on a fair cycle: every set `x` of reachable states from each of whose
/// states every justice set is reached again within `x` is empty.
pub fn check<BM: BddManager>(fsm: &FsmBdd<BM>, automaton: &FsmBdd<BM>) -> (r: bool)
    requires
        joint_applies(fsm, automaton),
        fsm.trans.wf(),
        automaton.trans.wf(),
        fsm.manager == automaton.manager,
        fsm.trans.manager == automaton.trans.manager,
    ensures
        r == no_reachable_fair_cycle(fsm, automaton),
{
    let ghost w = bm_width::<BM>();
    let product = fsm.product(automaton);
    let ghost ts = product.parts();
    let ghost jts = joint_parts(fsm, automaton);
    proof {
        if ts.len() > 0 {
            lemma_conj_valuations(w, fsm.parts());
            lemma_conj_single(w, fsm.trans.relation().intersect(automaton.trans.relation()));
        }
        lemma_search_same_relation(
            w,
            product.inv(),
            ts,
            jts,
            valuations(w),
            product.justice_sets(),
        );
        if joint_applies(fsm, automaton) && ts.len() > 0 {
            lemma_independent_ops(w, fsm.init.denote(), automaton.init.denote(), parity_vars(w, 1));
            lemma_independent_ops(w, fsm.inv(), automaton.inv(), parity_vars(w, 1));
            assert(state_set(w, valuations(w))) by {
                assert forall|v: nat| parity_vars(w, 1).contains(v) implies !#[trigger] crate::valuation::depends_on(
                    w,
                    valuations(w),
                    v,
                ) by {
                    assert forall|a: Seq<bool>| a.len() == w implies valuations(w).contains(a)
                        == valuations(w).contains(#[trigger] crate::valuation::flip(a, v)) by {}
                }
            }
        }
    }
    let forward = product.reachable_from_init();
    let ghost reach = forward.denote();
    proof {
        if joint_applies(fsm, automaton) {
            assert(product.search_applies(product.init.denote(), valuations(w)));
            assert(reach == joint_reach(fsm, automaton));
            lemma_search_same_relation(w, product.inv(), ts, jts, reach, product.justice_sets());
            if ts.len() > 0 {
                assert forall|k: int| 0 <= k < product.justice@.len() implies state_set(
                    w,
                    #[trigger] product.justice@[k].denote(),
                ) by {
                    assert(product.justice_sets()[k] == product.justice@[k].denote());
                    assert(product.justice_sets() == joint_justice(fsm, automaton));
                    assert(state_set(w, joint_justice(fsm, automaton)[k]));
                }
            }
            assert(product.fair_applies(reach));
        }
    }
    let fair_cycle = product.fair_cycle_with_constrain(&forward);
    let both = fair_cycle.and(&forward);
    let r = both.is_constant(false);
    proof {
        let fair = fair_cycle.denote();
        assert(fair.intersect(reach) =~= fair);
        if joint_applies(fsm, automaton) {
            let js = joint_justice(fsm, automaton);
            let inv = joint_inv(fsm, automaton);
            if r {
                assert forall|x: Set<Seq<bool>>|
                    x.subset_of(reach) && x.subset_of(#[trigger] fair_step(w, x, js, inv, jts, reach))
                        implies x == Set::<Seq<bool>>::empty() by {
                    assert(fair_step(w, x, js, inv, ts, reach) == fair_step(w, x, js, inv, jts, reach));
                    assert(x.subset_of(fair));
                    assert(x =~= Set::<Seq<bool>>::empty());
                }
            } else {
                assert(fair_step(w, fair, js, inv, ts, reach) == fair_step(w, fair, js, inv, jts, reach));
                assert(fair != Set::<Seq<bool>>::empty());
            }
        }
    }
    r
}

} // verus!
