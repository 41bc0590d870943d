//! The two checks agree: the classical search of the product of the model
//! with the encoded automaton, and the property-driven search of the
//! product with the automaton held explicitly, give the same verdict.
//!
//! A product state `(q, x)` of the property-driven search stands for the
//! valuations that encode `q` in the automaton's variables and agree with
//! `x` elsewhere; the model's sets and the labels do not look at the
//! automaton's variables.
use vstd::prelude::*;
use crate::automata::{automaton_rel, bit, bits, edges_rel, enc, enc_union};
use crate::fsm::{back_sets, fair_step, image_step, iterate, lemma_reach_set_mono, reach_set};
use crate::product::{
    accepting_pairs, advance, back_edges, back_iter, back_reach, back_step, fair_pairs, fair_round,
    initial_pairs, no_fair_accepting, prod_iter, prod_reach, prod_step, project, propagate, retreat,
};
use crate::automata::BuchiAutomata;
use crate::bdd::{Bdd, BddManager};
use crate::fsm::FsmBdd;
use crate::traditional::{joint_init, joint_inv, joint_justice, joint_parts, joint_reach, no_reachable_fair_cycle};
use crate::trans::{bm_width, conj, denotes, lemma_conj_single, lemma_conj_valuations};
use crate::valuation::{
    agree_outside, independent, join, lemma_independent_agree, next_set, parity_vars, post_set,
    pre_set, shift_up, state_set, valuations,
};

verus! {

/// The automaton's state variables `2 (base + i)`, `i < num`, and their
/// next-state copies.
pub open spec fn aut_vars(base: nat, num: nat) -> Set<nat> {
    Set::new(|v: nat| 2 * base <= v < 2 * (base + num))
}

/// `x` with the automaton's state variables set to the encoding of `q`.
pub open spec fn recode(x: Seq<bool>, base: nat, num: nat, q: nat) -> Seq<bool> {
    Seq::new(
        x.len(),
        |i: int|
            if 2 * base <= i < 2 * (base + num) && i % 2 == 0 {
                bit(q, ((i - 2 * base) / 2) as nat)
            } else {
                x[i]
            },
    )
}

/// The valuations that the product states `s` stand for: those that encode
/// the automaton state `q < n` and agree with `x` outside the automaton's
/// variables, for a product state `(q, x)` of `s`.
pub open spec fn encode_pairs(
    w: nat,
    base: nat,
    num: nat,
    n: nat,
    s: Set<(int, Seq<bool>)>,
) -> Set<Seq<bool>> {
    Set::new(
        |v: Seq<bool>|
            v.len() == w && exists|q: int, x: Seq<bool>|
                0 <= q < n && #[trigger] s.contains((q, x)) && enc(w, base, num, q as nat).contains(v)
                    && agree_outside(v, x, aut_vars(base, num)),
    )
}

proof fn lemma_recode(w: nat, base: nat, num: nat, q: nat, x: Seq<bool>)
    requires
        x.len() == w,
        2 * (base + num) <= w,
    ensures
        recode(x, base, num, q).len() == w,
        enc(w, base, num, q).contains(recode(x, base, num, q)),
        agree_outside(recode(x, base, num, q), x, aut_vars(base, num)),
        agree_outside(x, recode(x, base, num, q), aut_vars(base, num)),
{
    let y = recode(x, base, num, q);
    assert forall|i: nat| i < num implies y[2 * (base + i) as int] == #[trigger] bit(q, i) by {
        let j = 2 * (base + i) as int;
        assert((j - 2 * base) / 2 == i);
    }
    assert forall|i: int| 0 <= i < y.len() && !aut_vars(base, num).contains(i as nat) implies #[trigger] y[i] == x[i] by {}
    assert forall|i: int| 0 <= i < x.len() && !aut_vars(base, num).contains(i as nat) implies #[trigger] x[i] == y[i] by {}
}

proof fn lemma_bits_zero(x: nat)
    ensures
        (bits(x) == 0) == (x == 0),
{
}

proof fn lemma_bits_mono(x: nat, y: nat)
    requires
        x <= y,
    ensures
        bits(x) <= bits(y),
    decreases y,
{
    if x > 0 {
        lemma_bits_mono(x / 2, y / 2);
    }
}

/// Numbers of at most `num` bits with the same first `num` bits are equal.
proof fn lemma_bits_determine(q1: nat, q2: nat, num: nat)
    requires
        bits(q1) <= num,
        bits(q2) <= num,
        forall|i: nat| i < num ==> bit(q1, i) == bit(q2, i),
    ensures
        q1 == q2,
    decreases num,
{
    if num == 0 {
        lemma_bits_zero(q1);
        lemma_bits_zero(q2);
    } else {
        assert(bit(q1, 0) == bit(q2, 0));
        assert forall|i: nat| i < (num - 1) as nat implies #[trigger] bit(q1 / 2, i) == bit(q2 / 2, i) by {
            assert(bit(q1, i + 1) == bit(q2, i + 1));
        }
        if q1 > 0 {
            assert(bits(q1 / 2) == bits(q1) - 1);
        }
        if q2 > 0 {
            assert(bits(q2 / 2) == bits(q2) - 1);
        }
        lemma_bits_determine(q1 / 2, q2 / 2, (num - 1) as nat);
    }
}

/// Distinct automaton states below `n` have disjoint encodings in
/// `bits(n - 1)` variables.
proof fn lemma_enc_injective(w: nat, base: nat, num: nat, n: nat, q1: nat, q2: nat, v: Seq<bool>)
    requires
        n > 0,
        num == bits((n - 1) as nat),
        q1 < n,
        q2 < n,
        enc(w, base, num, q1).contains(v),
        enc(w, base, num, q2).contains(v),
    ensures
        q1 == q2,
{
    lemma_bits_mono(q1, (n - 1) as nat);
    lemma_bits_mono(q2, (n - 1) as nat);
    assert forall|i: nat| i < num implies bit(q1, i) == bit(q2, i) by {
        assert(v[2 * (base + i) as int] == bit(q1, i));
        assert(v[2 * (base + i) as int] == bit(q2, i));
    }
    lemma_bits_determine(q1, q2, num);
}

/// A valuation is in the union of the encodings of `ids` exactly when it
/// encodes one of them.
proof fn lemma_enc_union_member(w: nat, base: nat, num: nat, ids: Seq<usize>, v: Seq<bool>)
    ensures
        enc_union(w, base, num, ids).contains(v) == exists|j: int|
            0 <= j < ids.len() && #[trigger] enc(w, base, num, ids[j] as nat).contains(v),
    decreases ids.len(),
{
    if ids.len() > 0 {
        let rest = ids.drop_last();
        lemma_enc_union_member(w, base, num, rest, v);
        if enc_union(w, base, num, ids).contains(v) {
            if enc_union(w, base, num, rest).contains(v) {
                let j = choose|j: int| 0 <= j < rest.len() && #[trigger] enc(w, base, num, rest[j] as nat).contains(v);
                assert(ids[j] == rest[j]);
            } else {
                assert(enc(w, base, num, ids[ids.len() - 1] as nat).contains(v));
            }
        }
        if exists|j: int| 0 <= j < ids.len() && #[trigger] enc(w, base, num, ids[j] as nat).contains(v) {
            let j = choose|j: int| 0 <= j < ids.len() && #[trigger] enc(w, base, num, ids[j] as nat).contains(v);
            if j < ids.len() - 1 {
                assert(rest[j] == ids[j]);
            }
        }
    }
}

/// Joining valuations that agree outside the automaton's variables gives
/// valuations that agree there too.
proof fn lemma_join_agree(base: nat, num: nat, x: Seq<bool>, x2: Seq<bool>, y: Seq<bool>, y2: Seq<bool>)
    requires
        agree_outside(x, x2, aut_vars(base, num)),
        agree_outside(y, y2, aut_vars(base, num)),
        x.len() == y.len(),
    ensures
        agree_outside(join(x, y), join(x2, y2), aut_vars(base, num)),
{
    let av = aut_vars(base, num);
    assert forall|i: int| 0 <= i < join(x, y).len() && !av.contains(i as nat) implies #[trigger] join(x, y)[i]
        == join(x2, y2)[i] by {
        if i % 2 == 1 {
            assert(!av.contains((i - 1) as nat));
            assert(y[i - 1] == y2[i - 1]);
        } else {
            assert(x[i] == x2[i]);
        }
    }
}

/// The encoded transitions along edge `e` out of automaton state `q`.
pub open spec fn edge_term(w: nat, base: nat, num: nat, q: nat, e: (usize, Set<Seq<bool>>)) -> Set<Seq<bool>> {
    next_set(w, enc(w, base, num, e.0 as nat)).intersect(e.1).intersect(enc(w, base, num, q))
}

proof fn lemma_edges_rel_intro(w: nat, base: nat, num: nat, q: nat, es: Seq<(usize, Set<Seq<bool>>)>, k: int, v: Seq<bool>)
    requires
        0 <= k < es.len(),
        edge_term(w, base, num, q, es[k]).contains(v),
    ensures
        edges_rel(w, base, num, q, es).contains(v),
    decreases es.len(),
{
    if k < es.len() - 1 {
        lemma_edges_rel_intro(w, base, num, q, es.drop_last(), k, v);
    }
}

proof fn lemma_edges_rel_elim(w: nat, base: nat, num: nat, q: nat, es: Seq<(usize, Set<Seq<bool>>)>, v: Seq<bool>) -> (k: int)
    requires
        edges_rel(w, base, num, q, es).contains(v),
    ensures
        0 <= k < es.len(),
        edge_term(w, base, num, q, es[k]).contains(v),
    decreases es.len(),
{
    let rest = es.drop_last();
    if edges_rel(w, base, num, q, rest).contains(v) {
        let k = lemma_edges_rel_elim(w, base, num, q, rest, v);
        assert(rest[k] == es[k]);
        k
    } else {
        (es.len() - 1) as int
    }
}

proof fn lemma_aut_rel_intro(w: nat, base: nat, num: nat, fwd: Seq<Seq<(usize, Set<Seq<bool>>)>>, q: int, k: int, v: Seq<bool>)
    requires
        0 <= q < fwd.len(),
        0 <= k < fwd[q].len(),
        edge_term(w, base, num, q as nat, fwd[q][k]).contains(v),
    ensures
        automaton_rel(w, base, num, fwd).contains(v),
    decreases fwd.len(),
{
    if q < fwd.len() - 1 {
        lemma_aut_rel_intro(w, base, num, fwd.drop_last(), q, k, v);
    } else {
        lemma_edges_rel_intro(w, base, num, q as nat, fwd[q], k, v);
    }
}

proof fn lemma_aut_rel_elim(w: nat, base: nat, num: nat, fwd: Seq<Seq<(usize, Set<Seq<bool>>)>>, v: Seq<bool>) -> (qk: (int, int))
    requires
        automaton_rel(w, base, num, fwd).contains(v),
    ensures
        0 <= qk.0 < fwd.len(),
        0 <= qk.1 < fwd[qk.0].len(),
        edge_term(w, base, num, qk.0 as nat, fwd[qk.0][qk.1]).contains(v),
    decreases fwd.len(),
{
    let rest = fwd.drop_last();
    if automaton_rel(w, base, num, rest).contains(v) {
        let qk = lemma_aut_rel_elim(w, base, num, rest, v);
        assert(rest[qk.0] == fwd[qk.0]);
        qk
    } else {
        let q = (fwd.len() - 1) as int;
        let k = lemma_edges_rel_elim(w, base, num, q as nat, fwd[q], v);
        (q, k)
    }
}

/// A join encodes the automaton state that its first valuation encodes.
proof fn lemma_enc_join(w: nat, base: nat, num: nat, q: nat, y: Seq<bool>, z: Seq<bool>)
    requires
        y.len() == w,
        2 * (base + num) <= w,
    ensures
        enc(w, base, num, q).contains(join(y, z)) == enc(w, base, num, q).contains(y),
{
    if enc(w, base, num, q).contains(y) {
        assert forall|i: nat| i < num implies join(y, z)[2 * (base + i) as int] == #[trigger] bit(q, i) by {
            assert(y[2 * (base + i) as int] == bit(q, i));
        }
    }
    if enc(w, base, num, q).contains(join(y, z)) {
        assert forall|i: nat| i < num implies y[2 * (base + i) as int] == #[trigger] bit(q, i) by {
            assert(join(y, z)[2 * (base + i) as int] == bit(q, i));
        }
    }
}

/// A join encodes, in its next-state variables, the automaton state that
/// its second valuation encodes.
proof fn lemma_next_enc_join(w: nat, base: nat, num: nat, t: nat, y: Seq<bool>, z: Seq<bool>)
    requires
        y.len() == w,
        z.len() == w,
        2 * (base + num) <= w,
    ensures
        next_set(w, enc(w, base, num, t)).contains(join(y, z)) == enc(w, base, num, t).contains(z),
{
    let a = join(y, z);
    if enc(w, base, num, t).contains(z) {
        assert forall|i: nat| i < num implies shift_up(a)[2 * (base + i) as int] == #[trigger] bit(t, i) by {
            assert(z[2 * (base + i) as int] == bit(t, i));
        }
    }
    if next_set(w, enc(w, base, num, t)).contains(a) {
        assert forall|i: nat| i < num implies z[2 * (base + i) as int] == #[trigger] bit(t, i) by {
            assert(shift_up(a)[2 * (base + i) as int] == bit(t, i));
        }
    }
}

/// A set of states cannot tell a join from its first valuation.
proof fn lemma_state_join(w: nat, s: Set<Seq<bool>>, y: Seq<bool>, z: Seq<bool>)
    requires
        state_set(w, s),
        y.len() == w,
    ensures
        s.contains(join(y, z)) == s.contains(y),
{
    assert(agree_outside(y, join(y, z), parity_vars(w, 1)));
    lemma_independent_agree(w, s, parity_vars(w, 1), y, join(y, z));
}

/// The model's sets and the automaton's labels do not look at the
/// automaton's variables, the labels are sets of states, the model has a
/// transition relation, and the automaton's states fit `num` variables from
/// `base` on.
pub open spec fn separated(
    w: nat,
    base: nat,
    num: nat,
    fwd: Seq<Seq<(usize, Set<Seq<bool>>)>>,
    inv: Set<Seq<bool>>,
    ts: Seq<Set<Seq<bool>>>,
) -> bool {
    let av = aut_vars(base, num);
    &&& 0 < fwd.len() <= usize::MAX
    &&& num == bits((fwd.len() - 1) as nat)
    &&& 2 * (base + num) <= w
    &&& ts.len() > 0
    &&& inv.subset_of(valuations(w))
    &&& independent(w, inv, av)
    &&& independent(w, conj(w, ts), av)
    &&& forall|q: int, k: int|
        0 <= q < fwd.len() && 0 <= k < fwd[q].len() ==> {
            &&& (#[trigger] fwd[q][k]).0 < fwd.len()
            &&& independent(w, fwd[q][k].1, av)
            &&& state_set(w, fwd[q][k].1)
        }
}

/// The relation of the product of the model with the encoded automaton.
pub open spec fn joint_rel(
    w: nat,
    base: nat,
    num: nat,
    fwd: Seq<Seq<(usize, Set<Seq<bool>>)>>,
    ts: Seq<Set<Seq<bool>>>,
) -> Set<Seq<bool>> {
    conj(w, ts).intersect(automaton_rel(w, base, num, fwd))
}

proof fn lemma_joint_rel_single(w: nat, base: nat, num: nat, fwd: Seq<Seq<(usize, Set<Seq<bool>>)>>, ts: Seq<Set<Seq<bool>>>)
    ensures
        conj(w, seq![joint_rel(w, base, num, fwd, ts)]) == joint_rel(w, base, num, fwd, ts),
{
    lemma_conj_valuations(w, ts);
    lemma_conj_single(w, joint_rel(w, base, num, fwd, ts));
}

/// A forward step of the encoded product is the encoding of a step of the
/// explicit product.
proof fn lemma_forward_step(
    w: nat,
    base: nat,
    num: nat,
    fwd: Seq<Seq<(usize, Set<Seq<bool>>)>>,
    inv: Set<Seq<bool>>,
    ts: Seq<Set<Seq<bool>>>,
    s: Set<(int, Seq<bool>)>,
)
    requires
        separated(w, base, num, fwd, inv, ts),
    ensures
        image_step(
            w,
            true,
            encode_pairs(w, base, num, fwd.len(), s),
            inv,
            seq![joint_rel(w, base, num, fwd, ts)],
            valuations(w),
        ) == encode_pairs(w, base, num, fwd.len(), prod_step(w, fwd, inv, ts, s)),
{
    let n = fwd.len();
    let av = aut_vars(base, num);
    let rel = joint_rel(w, base, num, fwd, ts);
    let ps = encode_pairs(w, base, num, n, s);
    let lhs = image_step(w, true, ps, inv, seq![rel], valuations(w));
    let rhs = encode_pairs(w, base, num, n, prod_step(w, fwd, inv, ts, s));
    lemma_joint_rel_single(w, base, num, fwd, ts);
    assert(lhs == post_set(w, ps.intersect(inv), rel).intersect(inv).intersect(valuations(w)));
    assert forall|z: Seq<bool>| lhs.contains(z) implies rhs.contains(z) by {
        let y = choose|y: Seq<bool>| ps.intersect(inv).contains(y) && rel.contains(#[trigger] join(y, z));
        let (q, x) = choose|q: int, x: Seq<bool>|
            0 <= q < n && #[trigger] s.contains((q, x)) && enc(w, base, num, q as nat).contains(y)
                && agree_outside(y, x, av);
        let (q2, k) = lemma_aut_rel_elim(w, base, num, fwd, join(y, z));
        lemma_enc_join(w, base, num, q2 as nat, y, z);
        lemma_enc_injective(w, base, num, n, q as nat, q2 as nat, y);
        let t = fwd[q][k].0;
        let l = fwd[q][k].1;
        lemma_next_enc_join(w, base, num, t as nat, y, z);
        lemma_state_join(w, l, y, z);
        lemma_independent_agree(w, l, av, y, x);
        assert(propagate(fwd, s).contains((t as int, x)));
        lemma_independent_agree(w, inv, av, y, x);
        lemma_join_agree(base, num, y, x, z, z);
        lemma_independent_agree(w, conj(w, ts), av, join(y, z), join(x, z));
        assert(post_set(w, set![x].intersect(inv), conj(w, ts)).contains(z)) by {
            assert(set![x].intersect(inv).contains(x));
        }
        assert(image_step(w, true, set![x], inv, ts, valuations(w)).contains(z));
        let p = (t as int, z);
        assert(propagate(fwd, s).contains((p.0, x)) && image_step(w, true, set![x], inv, ts, valuations(w)).contains(p.1));
        assert(advance(w, inv, ts, propagate(fwd, s)).contains(p));
        assert(agree_outside(z, z, av));
        assert(prod_step(w, fwd, inv, ts, s).contains((t as int, z)));
    }
    assert forall|z: Seq<bool>| rhs.contains(z) implies lhs.contains(z) by {
        let (t, z2) = choose|q: int, x: Seq<bool>|
            0 <= q < n && #[trigger] prod_step(w, fwd, inv, ts, s).contains((q, x)) && enc(w, base, num, q as nat).contains(z)
                && agree_outside(z, x, av);
        let x = choose|x: Seq<bool>|
            propagate(fwd, s).contains((t, x)) && #[trigger] image_step(w, true, set![x], inv, ts, valuations(w)).contains(z2);
        let (q, k) = choose|q: int, k: int|
            0 <= q < fwd.len() && 0 <= k < fwd[q].len() && #[trigger] fwd[q][k].0 == t && fwd[q][k].1.contains(x)
                && s.contains((q, x));
        assert(set![x].intersect(inv).contains(x)) by {
            let x1 = choose|x1: Seq<bool>| set![x].intersect(inv).contains(x1) && conj(w, ts).contains(#[trigger] join(x1, z2));
        }
        let y = recode(x, base, num, q as nat);
        lemma_recode(w, base, num, q as nat, x);
        assert(ps.contains(y));
        lemma_independent_agree(w, inv, av, x, y);
        let x1 = choose|x1: Seq<bool>| set![x].intersect(inv).contains(x1) && conj(w, ts).contains(#[trigger] join(x1, z2));
        assert(x1 == x);
        lemma_join_agree(base, num, x, y, z2, z);
        lemma_independent_agree(w, conj(w, ts), av, join(x, z2), join(y, z));
        let l = fwd[q][k].1;
        lemma_independent_agree(w, l, av, x, y);
        lemma_state_join(w, l, y, z);
        lemma_enc_join(w, base, num, q as nat, y, z);
        lemma_next_enc_join(w, base, num, t as nat, y, z);
        lemma_aut_rel_intro(w, base, num, fwd, q, k, join(y, z));
        assert(rel.contains(join(y, z)));
        lemma_independent_agree(w, inv, av, z2, z);
        assert(ps.intersect(inv).contains(y));
        assert(post_set(w, ps.intersect(inv), rel).contains(z));
    }
    assert(lhs =~= rhs);
}

/// The forward searches of the two products agree round by round, within
/// the invariants.
proof fn lemma_iterate_agree(
    w: nat,
    base: nat,
    num: nat,
    fwd: Seq<Seq<(usize, Set<Seq<bool>>)>>,
    inv: Set<Seq<bool>>,
    ts: Seq<Set<Seq<bool>>>,
    s: Set<(int, Seq<bool>)>,
    k: nat,
)
    requires
        separated(w, base, num, fwd, inv, ts),
    ensures
        iterate(
            w,
            true,
            encode_pairs(w, base, num, fwd.len(), s).intersect(inv),
            inv,
            seq![joint_rel(w, base, num, fwd, ts)],
            valuations(w),
            k,
        ) == encode_pairs(w, base, num, fwd.len(), prod_iter(w, fwd, inv, ts, s, k)).intersect(inv),
    decreases k,
{
    if k > 0 {
        let rel = seq![joint_rel(w, base, num, fwd, ts)];
        let n = fwd.len();
        let prev = prod_iter(w, fwd, inv, ts, s, (k - 1) as nat);
        let ps = encode_pairs(w, base, num, n, prev);
        lemma_iterate_agree(w, base, num, fwd, inv, ts, s, (k - 1) as nat);
        lemma_forward_step(w, base, num, fwd, inv, ts, prev);
        assert(ps.intersect(inv).intersect(inv) =~= ps.intersect(inv));
        assert(image_step(w, true, ps.intersect(inv), inv, rel, valuations(w)) =~= image_step(
            w,
            true,
            ps,
            inv,
            rel,
            valuations(w),
        ));
        let next = encode_pairs(w, base, num, n, prod_step(w, fwd, inv, ts, prev));
        assert(next.intersect(inv) =~= next);
    }
}

/// The encoded initial product states are the initial states of the
/// product with the encoded automaton.
proof fn lemma_initial_agree(
    w: nat,
    base: nat,
    num: nat,
    n: nat,
    init: Set<Seq<bool>>,
    init_states: Seq<usize>,
)
    requires
        0 < n <= usize::MAX,
        num == bits((n - 1) as nat),
        2 * (base + num) <= w,
        init.subset_of(valuations(w)),
        independent(w, init, aut_vars(base, num)),
        forall|j: int| 0 <= j < init_states.len() ==> #[trigger] init_states[j] < n,
    ensures
        encode_pairs(w, base, num, n, initial_pairs(n, init_states, init)) == init.intersect(
            enc_union(w, base, num, init_states),
        ),
{
    let av = aut_vars(base, num);
    let p0 = initial_pairs(n, init_states, init);
    let lhs = encode_pairs(w, base, num, n, p0);
    let rhs = init.intersect(enc_union(w, base, num, init_states));
    assert forall|v: Seq<bool>| lhs.contains(v) implies rhs.contains(v) by {
        let (q, x) = choose|q: int, x: Seq<bool>|
            0 <= q < n && #[trigger] p0.contains((q, x)) && enc(w, base, num, q as nat).contains(v)
                && agree_outside(v, x, av);
        lemma_independent_agree(w, init, av, v, x);
        let j = choose|j: int| 0 <= j < init_states.len() && init_states[j] == q as usize;
        assert(init_states[j] as int == q);
        lemma_enc_union_member(w, base, num, init_states, v);
        assert(enc(w, base, num, init_states[j] as nat).contains(v));
    }
    assert forall|v: Seq<bool>| rhs.contains(v) implies lhs.contains(v) by {
        lemma_enc_union_member(w, base, num, init_states, v);
        let j = choose|j: int| 0 <= j < init_states.len() && #[trigger] enc(w, base, num, init_states[j] as nat).contains(v);
        let q = init_states[j] as int;
        assert(init_states.contains(q as usize));
        assert(p0.contains((q, v)));
        assert(agree_outside(v, v, av));
    }
    assert(lhs =~= rhs);
}

/// The states that the product with the encoded automaton reaches are the
/// encodings of the product states that the explicit product reaches,
/// within the invariants.
pub proof fn lemma_reach_agree(
    w: nat,
    base: nat,
    num: nat,
    fwd: Seq<Seq<(usize, Set<Seq<bool>>)>>,
    inv: Set<Seq<bool>>,
    ts: Seq<Set<Seq<bool>>>,
    init: Set<Seq<bool>>,
    init_states: Seq<usize>,
)
    requires
        separated(w, base, num, fwd, inv, ts),
        init.subset_of(valuations(w)),
        independent(w, init, aut_vars(base, num)),
        forall|j: int| 0 <= j < init_states.len() ==> #[trigger] init_states[j] < fwd.len(),
    ensures
        reach_set(
            w,
            true,
            true,
            init.intersect(enc_union(w, base, num, init_states)).intersect(inv),
            inv,
            seq![joint_rel(w, base, num, fwd, ts)],
            valuations(w),
        ) == encode_pairs(
            w,
            base,
            num,
            fwd.len(),
            prod_reach(w, fwd, inv, ts, initial_pairs(fwd.len(), init_states, init)),
        ).intersect(inv),
{
    let n = fwd.len();
    let av = aut_vars(base, num);
    let rel = seq![joint_rel(w, base, num, fwd, ts)];
    let p0 = initial_pairs(n, init_states, init);
    let s0 = init.intersect(enc_union(w, base, num, init_states)).intersect(inv);
    lemma_initial_agree(w, base, num, n, init, init_states);
    let lhs = reach_set(w, true, true, s0, inv, rel, valuations(w));
    let r = prod_reach(w, fwd, inv, ts, p0);
    let rhs = encode_pairs(w, base, num, n, r).intersect(inv);
    assert forall|v: Seq<bool>| lhs.contains(v) implies rhs.contains(v) by {
        let k = choose|k: nat| (k >= 1 || true) && #[trigger] iterate(w, true, s0, inv, rel, valuations(w), k).contains(v);
        lemma_iterate_agree(w, base, num, fwd, inv, ts, p0, k);
        let (q, x) = choose|q: int, x: Seq<bool>|
            0 <= q < n && #[trigger] prod_iter(w, fwd, inv, ts, p0, k).contains((q, x)) && enc(w, base, num, q as nat).contains(v)
                && agree_outside(v, x, av);
        assert(r.contains((q, x)));
    }
    assert forall|v: Seq<bool>| rhs.contains(v) implies lhs.contains(v) by {
        let (q, x) = choose|q: int, x: Seq<bool>|
            0 <= q < n && #[trigger] r.contains((q, x)) && enc(w, base, num, q as nat).contains(v)
                && agree_outside(v, x, av);
        let k = choose|k: nat| #[trigger] prod_iter(w, fwd, inv, ts, p0, k).contains((q, x));
        lemma_iterate_agree(w, base, num, fwd, inv, ts, p0, k);
        assert(encode_pairs(w, base, num, n, prod_iter(w, fwd, inv, ts, p0, k)).contains(v));
        assert(iterate(w, true, s0, inv, rel, valuations(w), k).contains(v));
    }
    assert(lhs =~= rhs);
}

/// Product states of `s` stay in `s` when their valuation changes in the
/// automaton's variables only.
pub open spec fn cylindric(w: nat, base: nat, num: nat, s: Set<(int, Seq<bool>)>) -> bool {
    forall|q: int, x: Seq<bool>, y: Seq<bool>|
        #![trigger s.contains((q, x)), s.contains((q, y))]
        s.contains((q, x)) && x.len() == w && agree_outside(x, y, aut_vars(base, num)) ==> s.contains((q, y))
}

/// Agreeing outside a set of variables is symmetric.
proof fn lemma_agree_symm(a: Seq<bool>, b: Seq<bool>, vs: Set<nat>)
    requires
        agree_outside(a, b, vs),
    ensures
        agree_outside(b, a, vs),
{
    assert forall|i: int| 0 <= i < b.len() && !vs.contains(i as nat) implies #[trigger] b[i] == a[i] by {
        assert(a[i] == b[i]);
    }
}

/// Agreeing outside a set of variables is transitive.
proof fn lemma_agree_trans(a: Seq<bool>, b: Seq<bool>, c: Seq<bool>, vs: Set<nat>)
    requires
        agree_outside(a, b, vs),
        agree_outside(b, c, vs),
    ensures
        agree_outside(a, c, vs),
{
    assert forall|i: int| 0 <= i < a.len() && !vs.contains(i as nat) implies #[trigger] a[i] == c[i] by {
        assert(a[i] == b[i]);
        assert(b[i] == c[i]);
    }
}

proof fn lemma_prod_step_cylindric(
    w: nat,
    base: nat,
    num: nat,
    fwd: Seq<Seq<(usize, Set<Seq<bool>>)>>,
    inv: Set<Seq<bool>>,
    ts: Seq<Set<Seq<bool>>>,
    s: Set<(int, Seq<bool>)>,
)
    requires
        separated(w, base, num, fwd, inv, ts),
    ensures
        cylindric(w, base, num, prod_step(w, fwd, inv, ts, s)),
{
    let av = aut_vars(base, num);
    let st = prod_step(w, fwd, inv, ts, s);
    assert forall|q: int, z: Seq<bool>, z2: Seq<bool>|
        #![trigger st.contains((q, z)), st.contains((q, z2))]
        st.contains((q, z)) && z.len() == w && agree_outside(z, z2, av) implies st.contains((q, z2)) by {
        let x = choose|x: Seq<bool>|
            propagate(fwd, s).contains((q, x)) && #[trigger] image_step(w, true, set![x], inv, ts, valuations(w)).contains(z);
        let x1 = choose|x1: Seq<bool>| set![x].intersect(inv).contains(x1) && conj(w, ts).contains(#[trigger] join(x1, z));
        assert(x1 == x);
        assert(agree_outside(x, x, av));
        lemma_join_agree(base, num, x, x, z, z2);
        lemma_independent_agree(w, conj(w, ts), av, join(x, z), join(x, z2));
        lemma_independent_agree(w, inv, av, z, z2);
        assert(post_set(w, set![x].intersect(inv), conj(w, ts)).contains(z2));
        assert(image_step(w, true, set![x], inv, ts, valuations(w)).contains(z2));
        let p = (q, z2);
        assert(propagate(fwd, s).contains((p.0, x)) && image_step(w, true, set![x], inv, ts, valuations(w)).contains(p.1));
        assert(advance(w, inv, ts, propagate(fwd, s)).contains(p));
    }
}

proof fn lemma_prod_iter_cylindric(
    w: nat,
    base: nat,
    num: nat,
    fwd: Seq<Seq<(usize, Set<Seq<bool>>)>>,
    inv: Set<Seq<bool>>,
    ts: Seq<Set<Seq<bool>>>,
    s: Set<(int, Seq<bool>)>,
    k: nat,
)
    requires
        separated(w, base, num, fwd, inv, ts),
        cylindric(w, base, num, s),
    ensures
        cylindric(w, base, num, prod_iter(w, fwd, inv, ts, s, k)),
{
    if k > 0 {
        lemma_prod_step_cylindric(w, base, num, fwd, inv, ts, prod_iter(w, fwd, inv, ts, s, (k - 1) as nat));
    }
}

/// The product states that the explicit product reaches from its initial
/// states are closed under changes to the automaton's variables.
proof fn lemma_reach_cylindric(
    w: nat,
    base: nat,
    num: nat,
    fwd: Seq<Seq<(usize, Set<Seq<bool>>)>>,
    inv: Set<Seq<bool>>,
    ts: Seq<Set<Seq<bool>>>,
    init: Set<Seq<bool>>,
    init_states: Seq<usize>,
)
    requires
        separated(w, base, num, fwd, inv, ts),
        independent(w, init, aut_vars(base, num)),
    ensures
        cylindric(w, base, num, prod_reach(w, fwd, inv, ts, initial_pairs(fwd.len(), init_states, init))),
{
    let av = aut_vars(base, num);
    let p0 = initial_pairs(fwd.len(), init_states, init);
    let r = prod_reach(w, fwd, inv, ts, p0);
    assert forall|q: int, x: Seq<bool>, y: Seq<bool>|
        #![trigger p0.contains((q, x)), p0.contains((q, y))]
        p0.contains((q, x)) && x.len() == w && agree_outside(x, y, av) implies p0.contains((q, y)) by {
        lemma_independent_agree(w, init, av, x, y);
    }
    assert forall|q: int, x: Seq<bool>, y: Seq<bool>|
        #![trigger r.contains((q, x)), r.contains((q, y))]
        r.contains((q, x)) && x.len() == w && agree_outside(x, y, av) implies r.contains((q, y)) by {
        let k = choose|k: nat| #[trigger] prod_iter(w, fwd, inv, ts, p0, k).contains((q, x));
        lemma_prod_iter_cylindric(w, base, num, fwd, inv, ts, p0, k);
        assert(prod_iter(w, fwd, inv, ts, p0, k).contains((q, y)));
    }
}

/// A backward step of the explicit product within a cylindric `r` is
/// cylindric.
proof fn lemma_back_step_cylindric(
    w: nat,
    base: nat,
    num: nat,
    fwd: Seq<Seq<(usize, Set<Seq<bool>>)>>,
    inv: Set<Seq<bool>>,
    ts: Seq<Set<Seq<bool>>>,
    r: Set<(int, Seq<bool>)>,
    s: Set<(int, Seq<bool>)>,
)
    requires
        separated(w, base, num, fwd, inv, ts),
        cylindric(w, base, num, r),
    ensures
        cylindric(w, base, num, back_step(w, fwd, project(r, fwd.len()), inv, ts, s)),
{
    let av = aut_vars(base, num);
    let c = project(r, fwd.len());
    let b = back_step(w, fwd, c, inv, ts, s);
    let rt = retreat(w, inv, ts, s);
    assert forall|q: int, x: Seq<bool>, x2: Seq<bool>|
        #![trigger b.contains((q, x)), b.contains((q, x2))]
        b.contains((q, x)) && x.len() == w && agree_outside(x, x2, av) implies b.contains((q, x2)) by {
        let k = choose|k: int|
            0 <= q < fwd.len() && 0 <= k < fwd[q].len() && #[trigger] fwd[q][k].1.contains(x) && c[q].contains(x)
                && rt.contains((fwd[q][k].0 as int, x));
        let t = fwd[q][k].0 as int;
        let y = choose|y: Seq<bool>|
            s.contains((t, y)) && #[trigger] image_step(w, false, set![y], inv, ts, valuations(w)).contains(x);
        let y1 = choose|y1: Seq<bool>| set![y].intersect(inv).contains(y1) && conj(w, ts).contains(#[trigger] join(x, y1));
        assert(y1 == y);
        assert(agree_outside(y, y, av));
        lemma_join_agree(base, num, x, x2, y, y);
        lemma_independent_agree(w, conj(w, ts), av, join(x, y), join(x2, y));
        lemma_independent_agree(w, inv, av, x, x2);
        lemma_independent_agree(w, fwd[q][k].1, av, x, x2);
        assert(r.contains((q, x)));
        assert(r.contains((q, x2)));
        assert(c[q].contains(x2));
        assert(pre_set(w, set![y].intersect(inv), conj(w, ts)).contains(x2));
        assert(image_step(w, false, set![y], inv, ts, valuations(w)).contains(x2));
        let p = (t, x2);
        assert(s.contains((p.0, y)) && image_step(w, false, set![y], inv, ts, valuations(w)).contains(p.1));
        assert(rt.contains((t, x2)));
        assert(fwd[q][k].1.contains(x2));
        let p2 = (q, x2);
        assert(0 <= p2.0 < fwd.len() && 0 <= k < fwd[p2.0].len() && fwd[p2.0][k].1.contains(p2.1) && c[p2.0].contains(p2.1)
            && rt.contains((fwd[p2.0][k].0 as int, p2.1)));
        assert(back_edges(fwd, c, rt).contains(p2));
    }
}

/// A backward step of the encoded product, within the encoding of `r`, is
/// the encoding of a backward step of the explicit product within `r`.
proof fn lemma_backward_step(
    w: nat,
    base: nat,
    num: nat,
    fwd: Seq<Seq<(usize, Set<Seq<bool>>)>>,
    inv: Set<Seq<bool>>,
    ts: Seq<Set<Seq<bool>>>,
    r: Set<(int, Seq<bool>)>,
    s: Set<(int, Seq<bool>)>,
)
    requires
        separated(w, base, num, fwd, inv, ts),
    ensures
        image_step(
            w,
            false,
            encode_pairs(w, base, num, fwd.len(), s),
            inv,
            seq![joint_rel(w, base, num, fwd, ts)],
            encode_pairs(w, base, num, fwd.len(), r).intersect(inv),
        ) == encode_pairs(w, base, num, fwd.len(), back_step(w, fwd, project(r, fwd.len()), inv, ts, s)),
{
    let n = fwd.len();
    let av = aut_vars(base, num);
    let rel = joint_rel(w, base, num, fwd, ts);
    let c = project(r, n);
    let rt = encode_pairs(w, base, num, n, r).intersect(inv);
    let ps = encode_pairs(w, base, num, n, s);
    let lhs = image_step(w, false, ps, inv, seq![rel], rt);
    let b = back_step(w, fwd, c, inv, ts, s);
    let rhs = encode_pairs(w, base, num, n, b);
    let ret = retreat(w, inv, ts, s);
    lemma_joint_rel_single(w, base, num, fwd, ts);
    assert(lhs == pre_set(w, ps.intersect(inv), rel).intersect(inv).intersect(rt));
    assert forall|v: Seq<bool>| lhs.contains(v) implies rhs.contains(v) by {
        let z = choose|z: Seq<bool>| ps.intersect(inv).contains(z) && rel.contains(#[trigger] join(v, z));
        let (t2, y) = choose|q: int, x: Seq<bool>|
            0 <= q < n && #[trigger] s.contains((q, x)) && enc(w, base, num, q as nat).contains(z)
                && agree_outside(z, x, av);
        let (q2, x) = choose|q: int, x: Seq<bool>|
            0 <= q < n && #[trigger] r.contains((q, x)) && enc(w, base, num, q as nat).contains(v)
                && agree_outside(v, x, av);
        let (q, k) = lemma_aut_rel_elim(w, base, num, fwd, join(v, z));
        lemma_enc_join(w, base, num, q as nat, v, z);
        lemma_enc_injective(w, base, num, n, q as nat, q2 as nat, v);
        let t = fwd[q][k].0;
        let l = fwd[q][k].1;
        lemma_next_enc_join(w, base, num, t as nat, v, z);
        lemma_enc_injective(w, base, num, n, t as nat, t2 as nat, z);
        lemma_state_join(w, l, v, z);
        lemma_independent_agree(w, l, av, v, x);
        lemma_independent_agree(w, inv, av, v, x);
        lemma_independent_agree(w, inv, av, z, y);
        lemma_join_agree(base, num, v, x, z, y);
        lemma_independent_agree(w, conj(w, ts), av, join(v, z), join(x, y));
        assert(set![y].intersect(inv).contains(y));
        assert(pre_set(w, set![y].intersect(inv), conj(w, ts)).contains(x));
        assert(image_step(w, false, set![y], inv, ts, valuations(w)).contains(x));
        let p = (t as int, x);
        assert(s.contains((p.0, y)) && image_step(w, false, set![y], inv, ts, valuations(w)).contains(p.1));
        assert(ret.contains(p));
        assert(c[q].contains(x));
        assert(fwd[q][k].1.contains(x));
        assert(b.contains((q, x)));
    }
    assert forall|v: Seq<bool>| rhs.contains(v) implies lhs.contains(v) by {
        let (q, x) = choose|q: int, x: Seq<bool>|
            0 <= q < n && #[trigger] b.contains((q, x)) && enc(w, base, num, q as nat).contains(v)
                && agree_outside(v, x, av);
        let k = choose|k: int|
            0 <= q < fwd.len() && 0 <= k < fwd[q].len() && #[trigger] fwd[q][k].1.contains(x) && c[q].contains(x)
                && ret.contains((fwd[q][k].0 as int, x));
        let t = fwd[q][k].0 as int;
        let l = fwd[q][k].1;
        let y = choose|y: Seq<bool>|
            s.contains((t, y)) && #[trigger] image_step(w, false, set![y], inv, ts, valuations(w)).contains(x);
        let y1 = choose|y1: Seq<bool>| set![y].intersect(inv).contains(y1) && conj(w, ts).contains(#[trigger] join(x, y1));
        assert(y1 == y);
        let z = recode(y, base, num, t as nat);
        lemma_recode(w, base, num, t as nat, y);
        assert(ps.contains(z));
        lemma_independent_agree(w, inv, av, y, z);
        lemma_agree_symm(v, x, av);
        lemma_join_agree(base, num, x, v, y, z);
        lemma_independent_agree(w, conj(w, ts), av, join(x, y), join(v, z));
        lemma_independent_agree(w, l, av, v, x);
        lemma_state_join(w, l, v, z);
        lemma_enc_join(w, base, num, q as nat, v, z);
        lemma_next_enc_join(w, base, num, t as nat, v, z);
        lemma_aut_rel_intro(w, base, num, fwd, q, k, join(v, z));
        assert(rel.contains(join(v, z)));
        lemma_independent_agree(w, inv, av, v, x);
        assert(r.contains((q, x)));
        assert(encode_pairs(w, base, num, n, r).contains(v));
        assert(ps.intersect(inv).contains(z));
        assert(pre_set(w, ps.intersect(inv), rel).contains(v));
    }
    assert(lhs =~= rhs);
}

/// The backward searches of the two products agree round by round.
proof fn lemma_back_iter_agree(
    w: nat,
    base: nat,
    num: nat,
    fwd: Seq<Seq<(usize, Set<Seq<bool>>)>>,
    inv: Set<Seq<bool>>,
    ts: Seq<Set<Seq<bool>>>,
    r: Set<(int, Seq<bool>)>,
    s: Set<(int, Seq<bool>)>,
    s0: Set<Seq<bool>>,
    m: nat,
)
    requires
        separated(w, base, num, fwd, inv, ts),
        s0.intersect(inv) == encode_pairs(w, base, num, fwd.len(), s).intersect(inv),
        m >= 1,
    ensures
        iterate(
            w,
            false,
            s0,
            inv,
            seq![joint_rel(w, base, num, fwd, ts)],
            encode_pairs(w, base, num, fwd.len(), r).intersect(inv),
            m,
        ) == encode_pairs(w, base, num, fwd.len(), back_iter(w, fwd, project(r, fwd.len()), inv, ts, s, m)),
    decreases m,
{
    let n = fwd.len();
    let c = project(r, n);
    let rel = seq![joint_rel(w, base, num, fwd, ts)];
    let rt = encode_pairs(w, base, num, n, r).intersect(inv);
    if m == 1 {
        lemma_backward_step(w, base, num, fwd, inv, ts, r, s);
        assert(back_iter(w, fwd, c, inv, ts, s, 0) == s);
        assert(iterate(w, false, s0, inv, rel, rt, 0) == s0);
        assert(iterate(w, false, s0, inv, rel, rt, 1) == image_step(w, false, s0, inv, rel, rt));
        assert(image_step(w, false, s0, inv, rel, rt) =~= image_step(
            w,
            false,
            encode_pairs(w, base, num, n, s),
            inv,
            rel,
            rt,
        ));
    } else {
        lemma_back_iter_agree(w, base, num, fwd, inv, ts, r, s, s0, (m - 1) as nat);
        lemma_backward_step(w, base, num, fwd, inv, ts, r, back_iter(w, fwd, c, inv, ts, s, (m - 1) as nat));
    }
}

/// The states from which the encoded product reaches `s0` backwards, within
/// the encoding of `r`, are the encodings of the product states from which
/// the explicit product reaches `s` within `r`.
proof fn lemma_back_reach_agree(
    w: nat,
    base: nat,
    num: nat,
    fwd: Seq<Seq<(usize, Set<Seq<bool>>)>>,
    inv: Set<Seq<bool>>,
    ts: Seq<Set<Seq<bool>>>,
    r: Set<(int, Seq<bool>)>,
    s: Set<(int, Seq<bool>)>,
    s0: Set<Seq<bool>>,
)
    requires
        separated(w, base, num, fwd, inv, ts),
        s0.intersect(inv) == encode_pairs(w, base, num, fwd.len(), s).intersect(inv),
    ensures
        reach_set(
            w,
            false,
            false,
            s0,
            inv,
            seq![joint_rel(w, base, num, fwd, ts)],
            encode_pairs(w, base, num, fwd.len(), r).intersect(inv),
        ) == encode_pairs(w, base, num, fwd.len(), back_reach(w, fwd, project(r, fwd.len()), inv, ts, s)),
{
    let n = fwd.len();
    let av = aut_vars(base, num);
    let c = project(r, n);
    let rel = seq![joint_rel(w, base, num, fwd, ts)];
    let rt = encode_pairs(w, base, num, n, r).intersect(inv);
    let lhs = reach_set(w, false, false, s0, inv, rel, rt);
    let br = back_reach(w, fwd, c, inv, ts, s);
    let rhs = encode_pairs(w, base, num, n, br);
    assert forall|v: Seq<bool>| lhs.contains(v) implies rhs.contains(v) by {
        let m = choose|m: nat| (m >= 1 || false) && #[trigger] iterate(w, false, s0, inv, rel, rt, m).contains(v);
        lemma_back_iter_agree(w, base, num, fwd, inv, ts, r, s, s0, m);
        let (q, x) = choose|q: int, x: Seq<bool>|
            0 <= q < n && #[trigger] back_iter(w, fwd, c, inv, ts, s, m).contains((q, x)) && enc(
                w,
                base,
                num,
                q as nat,
            ).contains(v) && agree_outside(v, x, av);
        assert(br.contains((q, x)));
    }
    assert forall|v: Seq<bool>| rhs.contains(v) implies lhs.contains(v) by {
        let (q, x) = choose|q: int, x: Seq<bool>|
            0 <= q < n && #[trigger] br.contains((q, x)) && enc(w, base, num, q as nat).contains(v)
                && agree_outside(v, x, av);
        let m = choose|m: nat| m >= 1 && #[trigger] back_iter(w, fwd, c, inv, ts, s, m).contains((q, x));
        lemma_back_iter_agree(w, base, num, fwd, inv, ts, r, s, s0, m);
        assert(encode_pairs(w, base, num, n, back_iter(w, fwd, c, inv, ts, s, m)).contains(v));
        assert(iterate(w, false, s0, inv, rel, rt, m).contains(v));
    }
    assert(lhs =~= rhs);
}

/// The product states from which the explicit product reaches `s` within a
/// cylindric `r` form a cylindric set, of states within the invariants.
proof fn lemma_back_reach_props(
    w: nat,
    base: nat,
    num: nat,
    fwd: Seq<Seq<(usize, Set<Seq<bool>>)>>,
    inv: Set<Seq<bool>>,
    ts: Seq<Set<Seq<bool>>>,
    r: Set<(int, Seq<bool>)>,
    s: Set<(int, Seq<bool>)>,
)
    requires
        separated(w, base, num, fwd, inv, ts),
        cylindric(w, base, num, r),
    ensures
        cylindric(w, base, num, back_reach(w, fwd, project(r, fwd.len()), inv, ts, s)),
        forall|q: int, x: Seq<bool>|
            #[trigger] back_reach(w, fwd, project(r, fwd.len()), inv, ts, s).contains((q, x)) ==> x.len() == w
                && inv.contains(x),
{
    let av = aut_vars(base, num);
    let c = project(r, fwd.len());
    let br = back_reach(w, fwd, c, inv, ts, s);
    assert forall|q: int, x: Seq<bool>, y: Seq<bool>|
        #![trigger br.contains((q, x)), br.contains((q, y))]
        br.contains((q, x)) && x.len() == w && agree_outside(x, y, av) implies br.contains((q, y)) by {
        let m = choose|m: nat| m >= 1 && #[trigger] back_iter(w, fwd, c, inv, ts, s, m).contains((q, x));
        let prev = back_iter(w, fwd, c, inv, ts, s, (m - 1) as nat);
        lemma_back_step_cylindric(w, base, num, fwd, inv, ts, r, prev);
        assert(back_iter(w, fwd, c, inv, ts, s, m).contains((q, y)));
    }
    assert forall|q: int, x: Seq<bool>| #[trigger] br.contains((q, x)) implies x.len() == w && inv.contains(x) by {
        let m = choose|m: nat| m >= 1 && #[trigger] back_iter(w, fwd, c, inv, ts, s, m).contains((q, x));
        let prev = back_iter(w, fwd, c, inv, ts, s, (m - 1) as nat);
        let rt = retreat(w, inv, ts, prev);
        let k = choose|k: int|
            0 <= q < fwd.len() && 0 <= k < fwd[q].len() && #[trigger] fwd[q][k].1.contains(x) && c[q].contains(x)
                && rt.contains((fwd[q][k].0 as int, x));
        let t = fwd[q][k].0 as int;
        let y = choose|y: Seq<bool>|
            prev.contains((t, y)) && #[trigger] image_step(w, false, set![y], inv, ts, valuations(w)).contains(x);
    }
}

/// The states reached backwards, in one or more steps within `cc`, are
/// within `cc` and the invariants.
proof fn lemma_back_within(
    w: nat,
    s0: Set<Seq<bool>>,
    inv: Set<Seq<bool>>,
    ts: Seq<Set<Seq<bool>>>,
    cc: Set<Seq<bool>>,
    v: Seq<bool>,
)
    requires
        reach_set(w, false, false, s0, inv, ts, cc).contains(v),
    ensures
        cc.contains(v),
        inv.contains(v),
        s0 != Set::<Seq<bool>>::empty(),
{
    let m = choose|m: nat| (m >= 1 || false) && #[trigger] iterate(w, false, s0, inv, ts, cc, m).contains(v);
    assert(iterate(w, false, s0, inv, ts, cc, m) == image_step(
        w,
        false,
        iterate(w, false, s0, inv, ts, cc, (m - 1) as nat),
        inv,
        ts,
        cc,
    ));
    if s0 == Set::<Seq<bool>>::empty() {
        lemma_iterate_empty(w, inv, ts, cc, m);
    }
}

proof fn lemma_iterate_empty(w: nat, inv: Set<Seq<bool>>, ts: Seq<Set<Seq<bool>>>, cc: Set<Seq<bool>>, m: nat)
    ensures
        iterate(w, false, Set::<Seq<bool>>::empty(), inv, ts, cc, m) == Set::<Seq<bool>>::empty(),
    decreases m,
{
    if m > 0 {
        lemma_iterate_empty(w, inv, ts, cc, (m - 1) as nat);
        let e = Set::<Seq<bool>>::empty();
        assert(e.intersect(inv) =~= e);
        if ts.len() > 0 {
            assert(crate::valuation::pre_set(w, e, conj(w, ts)) =~= e);
        } else {
            assert(crate::valuation::next_set(w, e) =~= e);
        }
        assert(image_step(w, false, e, inv, ts, cc) =~= e);
    }
}

/// A fair-cycle round of the encoded product with the single justice set
/// `a`: the states of `x` that reach `a` within `x` backwards.
proof fn lemma_fair_step_single(
    w: nat,
    x: Set<Seq<bool>>,
    a: Set<Seq<bool>>,
    inv: Set<Seq<bool>>,
    ts: Seq<Set<Seq<bool>>>,
    cc: Set<Seq<bool>>,
)
    requires
        cc.subset_of(valuations(w)),
    ensures
        fair_step(w, x, seq![a], inv, ts, cc) == x.intersect(
            reach_set(w, false, false, a.intersect(x).intersect(cc).intersect(inv), inv, ts, cc),
        ),
{
    let br = reach_set(w, false, false, a.intersect(x).intersect(cc).intersect(inv), inv, ts, cc);
    assert(back_sets(w, x, seq![a], inv, ts, cc) =~= seq![br]);
    assert forall|v: Seq<bool>| br.contains(v) implies valuations(w).contains(v) by {
        lemma_back_within(w, a.intersect(x).intersect(cc).intersect(inv), inv, ts, cc, v);
    }
    lemma_conj_single(w, br);
}

/// The accepting product states of `r` that the states of `s0` stand for.
pub open spec fn witness_pairs(
    w: nat,
    base: nat,
    num: nat,
    n: nat,
    acc: Seq<usize>,
    r: Set<(int, Seq<bool>)>,
    s0: Set<Seq<bool>>,
) -> Set<(int, Seq<bool>)> {
    Set::new(
        |p: (int, Seq<bool>)|
            0 <= p.0 < n && acc.contains(p.0 as usize) && r.contains(p) && exists|u: Seq<bool>|
                #[trigger] s0.contains(u) && enc(w, base, num, p.0 as nat).contains(u) && agree_outside(
                    u,
                    p.1,
                    aut_vars(base, num),
                ),
    )
}

/// Each encoded accepting state of `s0` stands for an accepting product
/// state of `r` that it encodes.
#[verifier::spinoff_prover]
proof fn lemma_witness_cover(
    w: nat,
    base: nat,
    num: nat,
    fwd: Seq<Seq<(usize, Set<Seq<bool>>)>>,
    inv: Set<Seq<bool>>,
    ts: Seq<Set<Seq<bool>>>,
    r: Set<(int, Seq<bool>)>,
    acc: Seq<usize>,
    s0: Set<Seq<bool>>,
)
    requires
        separated(w, base, num, fwd, inv, ts),
        forall|j: int| 0 <= j < acc.len() ==> #[trigger] acc[j] < fwd.len(),
        s0.subset_of(enc_union(w, base, num, acc)),
        s0.subset_of(encode_pairs(w, base, num, fwd.len(), r).intersect(inv)),
    ensures
        s0.subset_of(encode_pairs(w, base, num, fwd.len(), witness_pairs(w, base, num, fwd.len(), acc, r, s0)).intersect(inv)),
        forall|u: Seq<bool>|
            s0.contains(u) ==> exists|q: int, x: Seq<bool>|
                #[trigger] witness_pairs(w, base, num, fwd.len(), acc, r, s0).contains((q, x)) && enc(
                    w,
                    base,
                    num,
                    q as nat,
                ).contains(u) && agree_outside(u, x, aut_vars(base, num)),
{
    let n = fwd.len();
    let av = aut_vars(base, num);
    let y = witness_pairs(w, base, num, n, acc, r, s0);
    let ys = encode_pairs(w, base, num, n, y).intersect(inv);
    assert forall|u: Seq<bool>| s0.contains(u) implies ys.contains(u) && exists|q: int, x: Seq<bool>|
        #[trigger] y.contains((q, x)) && enc(w, base, num, q as nat).contains(u) && agree_outside(u, x, av) by {
        lemma_enc_union_member(w, base, num, acc, u);
        let j = choose|j: int| 0 <= j < acc.len() && #[trigger] enc(w, base, num, acc[j] as nat).contains(u);
        let q = acc[j] as int;
        let (q2, x) = choose|q: int, x: Seq<bool>|
            0 <= q < n && #[trigger] r.contains((q, x)) && enc(w, base, num, q as nat).contains(u)
                && agree_outside(u, x, av);
        lemma_enc_injective(w, base, num, n, q as nat, q2 as nat, u);
        assert(acc.contains(q as usize));
        assert(y.contains((q, x)));
    }
}

/// Encoded accepting states that all reach one another backwards stand for
/// accepting product states that do so too.
#[verifier::spinoff_prover]
#[verifier::rlimit(40)]
proof fn lemma_witness_fair(
    w: nat,
    base: nat,
    num: nat,
    fwd: Seq<Seq<(usize, Set<Seq<bool>>)>>,
    inv: Set<Seq<bool>>,
    ts: Seq<Set<Seq<bool>>>,
    r: Set<(int, Seq<bool>)>,
    acc: Seq<usize>,
    s0: Set<Seq<bool>>,
)
    requires
        separated(w, base, num, fwd, inv, ts),
        cylindric(w, base, num, r),
        forall|j: int| 0 <= j < acc.len() ==> #[trigger] acc[j] < fwd.len(),
        s0.subset_of(enc_union(w, base, num, acc)),
        s0.subset_of(encode_pairs(w, base, num, fwd.len(), r).intersect(inv)),
        forall|u: Seq<bool>|
            s0.contains(u) ==> #[trigger] reach_set(
                w,
                false,
                false,
                s0,
                inv,
                seq![joint_rel(w, base, num, fwd, ts)],
                encode_pairs(w, base, num, fwd.len(), r).intersect(inv),
            ).contains(u),
    ensures
        witness_pairs(w, base, num, fwd.len(), acc, r, s0).subset_of(accepting_pairs(acc, project(r, fwd.len()))),
        witness_pairs(w, base, num, fwd.len(), acc, r, s0).subset_of(
            fair_round(
                w,
                fwd,
                project(r, fwd.len()),
                inv,
                ts,
                witness_pairs(w, base, num, fwd.len(), acc, r, s0),
            ),
        ),
{
    let n = fwd.len();
    let av = aut_vars(base, num);
    let rel = seq![joint_rel(w, base, num, fwd, ts)];
    let rt = encode_pairs(w, base, num, n, r).intersect(inv);
    let c = project(r, n);
    let a0 = accepting_pairs(acc, c);
    let br_t = reach_set(w, false, false, s0, inv, rel, rt);
    let y = witness_pairs(w, base, num, n, acc, r, s0);
    let ys = encode_pairs(w, base, num, n, y).intersect(inv);
    lemma_witness_cover(w, base, num, fwd, inv, ts, r, acc, s0);
    lemma_reach_set_mono(w, false, false, s0, ys, inv, rel, rt);
    assert(ys.intersect(inv) =~= encode_pairs(w, base, num, n, y).intersect(inv));
    lemma_back_reach_agree(w, base, num, fwd, inv, ts, r, y, ys);
    lemma_back_reach_props(w, base, num, fwd, inv, ts, r, y);
    let br = back_reach(w, fwd, c, inv, ts, y);
    assert forall|p: (int, Seq<bool>)| y.contains(p) implies a0.contains(p) && fair_round(w, fwd, c, inv, ts, y).contains(p) by {
        let (q, x) = p;
        let u = choose|u: Seq<bool>| #[trigger] s0.contains(u) && enc(w, base, num, q as nat).contains(u) && agree_outside(u, x, av);
        assert(c[q].contains(x));
        assert(br_t.contains(u));
        assert(reach_set(w, false, false, ys, inv, rel, rt).contains(u));
        assert(encode_pairs(w, base, num, n, br).contains(u));
        let (q2, x2) = choose|q2: int, x2: Seq<bool>|
            0 <= q2 < n && #[trigger] br.contains((q2, x2)) && enc(w, base, num, q2 as nat).contains(u)
                && agree_outside(u, x2, av);
        lemma_enc_injective(w, base, num, n, q as nat, q2 as nat, u);
        lemma_agree_symm(u, x2, av);
        lemma_agree_trans(x2, u, x, av);
        assert(br.contains((q, x)));
    }
}

/// A non-empty set of encoded accepting states that all reach one another
/// backwards gives an accepting product state of `r` that is fair.
#[verifier::spinoff_prover]
proof fn lemma_witness_verdict(
    w: nat,
    base: nat,
    num: nat,
    fwd: Seq<Seq<(usize, Set<Seq<bool>>)>>,
    inv: Set<Seq<bool>>,
    ts: Seq<Set<Seq<bool>>>,
    r: Set<(int, Seq<bool>)>,
    acc: Seq<usize>,
    s0: Set<Seq<bool>>,
) -> (jx: (int, Seq<bool>))
    requires
        separated(w, base, num, fwd, inv, ts),
        cylindric(w, base, num, r),
        forall|j: int| 0 <= j < acc.len() ==> #[trigger] acc[j] < fwd.len(),
        s0 != Set::<Seq<bool>>::empty(),
        s0.subset_of(enc_union(w, base, num, acc)),
        s0.subset_of(encode_pairs(w, base, num, fwd.len(), r).intersect(inv)),
        forall|u: Seq<bool>|
            s0.contains(u) ==> #[trigger] reach_set(
                w,
                false,
                false,
                s0,
                inv,
                seq![joint_rel(w, base, num, fwd, ts)],
                encode_pairs(w, base, num, fwd.len(), r).intersect(inv),
            ).contains(u),
    ensures
        0 <= jx.0 < acc.len(),
        r.contains((acc[jx.0] as int, jx.1)),
        fair_pairs(w, fwd, project(r, fwd.len()), inv, ts, accepting_pairs(acc, project(r, fwd.len()))).contains(
            (acc[jx.0] as int, jx.1),
        ),
{
    let n = fwd.len();
    let av = aut_vars(base, num);
    let c = project(r, n);
    let a0 = accepting_pairs(acc, c);
    let y = witness_pairs(w, base, num, n, acc, r, s0);
    lemma_witness_cover(w, base, num, fwd, inv, ts, r, acc, s0);
    lemma_witness_fair(w, base, num, fwd, inv, ts, r, acc, s0);
    let u0 = s0.choose();
    assert(s0.contains(u0)) by {
        if !s0.contains(u0) {
            assert(s0 =~= Set::<Seq<bool>>::empty());
        }
    }
    let (q, x) = choose|q: int, x: Seq<bool>|
        #[trigger] y.contains((q, x)) && enc(w, base, num, q as nat).contains(u0) && agree_outside(u0, x, av);
    assert(y.subset_of(fair_round(w, fwd, c, inv, ts, y)));
    assert(fair_pairs(w, fwd, c, inv, ts, a0).contains((q, x)));
    let j = choose|j: int| 0 <= j < acc.len() && acc[j] == q as usize;
    assert(acc[j] as int == q);
    (j, x)
}

/// The verdict of the classical check on the product of the model with
/// the encoded automaton: no non-empty set of its reachable states, from
/// each of whose states an accepting state of the set is reached again
/// within the reachable states, exists.
pub open spec fn encoded_no_fair_cycle(
    w: nat,
    base: nat,
    num: nat,
    fwd: Seq<Seq<(usize, Set<Seq<bool>>)>>,
    inv: Set<Seq<bool>>,
    ts: Seq<Set<Seq<bool>>>,
    init: Set<Seq<bool>>,
    init_states: Seq<usize>,
    acc: Seq<usize>,
) -> bool {
    let rel = seq![joint_rel(w, base, num, fwd, ts)];
    let rt = reach_set(
        w,
        true,
        true,
        init.intersect(enc_union(w, base, num, init_states)).intersect(inv),
        inv,
        rel,
        valuations(w),
    );
    forall|x: Set<Seq<bool>>|
        x.subset_of(rt) && x.subset_of(#[trigger] fair_step(w, x, seq![enc_union(w, base, num, acc)], inv, rel, rt))
            ==> x == Set::<Seq<bool>>::empty()
}

/// A fair reachable accepting product state of the explicit product gives
/// a non-empty fair set of the encoded product.
#[verifier::spinoff_prover]
#[verifier::rlimit(60)]
proof fn lemma_fair_pairs_give_cycle(
    w: nat,
    base: nat,
    num: nat,
    fwd: Seq<Seq<(usize, Set<Seq<bool>>)>>,
    inv: Set<Seq<bool>>,
    ts: Seq<Set<Seq<bool>>>,
    init: Set<Seq<bool>>,
    init_states: Seq<usize>,
    acc: Seq<usize>,
)
    requires
        separated(w, base, num, fwd, inv, ts),
        init.subset_of(valuations(w)),
        independent(w, init, aut_vars(base, num)),
        forall|j: int| 0 <= j < init_states.len() ==> #[trigger] init_states[j] < fwd.len(),
        forall|j: int| 0 <= j < acc.len() ==> #[trigger] acc[j] < fwd.len(),
        !no_fair_accepting(w, fwd, inv, ts, init, init_states, acc),
    ensures
        !encoded_no_fair_cycle(w, base, num, fwd, inv, ts, init, init_states, acc),
{
    let n = fwd.len();
    let av = aut_vars(base, num);
    let rel = seq![joint_rel(w, base, num, fwd, ts)];
    let a = enc_union(w, base, num, acc);
    let p0 = initial_pairs(n, init_states, init);
    let r = prod_reach(w, fwd, inv, ts, p0);
    let c = project(r, n);
    let a0 = accepting_pairs(acc, c);
    let f = fair_pairs(w, fwd, c, inv, ts, a0);
    let rt = reach_set(w, true, true, init.intersect(enc_union(w, base, num, init_states)).intersect(inv), inv, rel, valuations(w));
    lemma_reach_agree(w, base, num, fwd, inv, ts, init, init_states);
    lemma_reach_cylindric(w, base, num, fwd, inv, ts, init, init_states);
    assert(rt == encode_pairs(w, base, num, n, r).intersect(inv));
    assert(rt.subset_of(valuations(w)));
    let t_ok = forall|x: Set<Seq<bool>>|
        x.subset_of(rt) && x.subset_of(#[trigger] fair_step(w, x, seq![a], inv, rel, rt)) ==> x == Set::<Seq<bool>>::empty();
    let d_ok = no_fair_accepting(w, fwd, inv, ts, init, init_states, acc);
    {
        let (k, x0) = choose|k: int, x: Seq<bool>|
            0 <= k < acc.len() && !!(r.contains((acc[k] as int, x)) && #[trigger] f.contains((acc[k] as int, x)));
        let q0 = acc[k] as int;
        let y = choose|y: Set<(int, Seq<bool>)>|
            y.subset_of(a0) && y.subset_of(#[trigger] fair_round(w, fwd, c, inv, ts, y)) && y.contains((q0, x0));
        let xs = encode_pairs(w, base, num, n, y).intersect(inv);
        let s0 = a.intersect(xs).intersect(rt).intersect(inv);
        lemma_back_reach_props(w, base, num, fwd, inv, ts, r, y);
        assert forall|v: Seq<bool>| xs.contains(v) implies a.contains(v) && rt.contains(v) by {
            let (q, x) = choose|q: int, x: Seq<bool>|
                0 <= q < n && #[trigger] y.contains((q, x)) && enc(w, base, num, q as nat).contains(v)
                    && agree_outside(v, x, av);
            assert(a0.contains((q, x)));
            let j = choose|j: int| 0 <= j < acc.len() && acc[j] == q as usize;
            assert(acc[j] as int == q);
            lemma_enc_union_member(w, base, num, acc, v);
            assert(enc(w, base, num, acc[j] as nat).contains(v));
            assert(r.contains((q, x)));
            assert(encode_pairs(w, base, num, n, r).contains(v));
        }
        assert(s0 =~= xs);
        assert(s0.intersect(inv) =~= encode_pairs(w, base, num, n, y).intersect(inv));
        lemma_back_reach_agree(w, base, num, fwd, inv, ts, r, y, s0);
        lemma_fair_step_single(w, xs, a, inv, rel, rt);
        let br = back_reach(w, fwd, c, inv, ts, y);
        assert forall|v: Seq<bool>| xs.contains(v) implies fair_step(w, xs, seq![a], inv, rel, rt).contains(v) by {
            let (q, x) = choose|q: int, x: Seq<bool>|
                0 <= q < n && #[trigger] y.contains((q, x)) && enc(w, base, num, q as nat).contains(v)
                    && agree_outside(v, x, av);
            assert(fair_round(w, fwd, c, inv, ts, y).contains((q, x)));
            assert(br.contains((q, x)));
            assert(encode_pairs(w, base, num, n, br).contains(v));
        }
        assert(fair_round(w, fwd, c, inv, ts, y).contains((q0, x0)));
        assert(br.contains((q0, x0)));
        let v0 = recode(x0, base, num, q0 as nat);
        lemma_recode(w, base, num, q0 as nat, x0);
        assert(a0.contains((q0, x0)));
        assert(encode_pairs(w, base, num, n, y).contains(v0));
        lemma_independent_agree(w, inv, av, x0, v0);
        assert(xs.contains(v0));
        assert(xs.subset_of(rt) && xs.subset_of(fair_step(w, xs, seq![a], inv, rel, rt)));
        assert(!t_ok);
    }
}

/// A non-empty fair set of the encoded product gives a fair reachable
/// accepting product state of the explicit product.
#[verifier::spinoff_prover]
#[verifier::rlimit(100)]
proof fn lemma_cycle_gives_fair_pairs(
    w: nat,
    base: nat,
    num: nat,
    fwd: Seq<Seq<(usize, Set<Seq<bool>>)>>,
    inv: Set<Seq<bool>>,
    ts: Seq<Set<Seq<bool>>>,
    init: Set<Seq<bool>>,
    init_states: Seq<usize>,
    acc: Seq<usize>,
)
    requires
        separated(w, base, num, fwd, inv, ts),
        init.subset_of(valuations(w)),
        independent(w, init, aut_vars(base, num)),
        forall|j: int| 0 <= j < init_states.len() ==> #[trigger] init_states[j] < fwd.len(),
        forall|j: int| 0 <= j < acc.len() ==> #[trigger] acc[j] < fwd.len(),
        !encoded_no_fair_cycle(w, base, num, fwd, inv, ts, init, init_states, acc),
    ensures
        !no_fair_accepting(w, fwd, inv, ts, init, init_states, acc),
{
    let n = fwd.len();
    let av = aut_vars(base, num);
    let rel = seq![joint_rel(w, base, num, fwd, ts)];
    let a = enc_union(w, base, num, acc);
    let p0 = initial_pairs(n, init_states, init);
    let r = prod_reach(w, fwd, inv, ts, p0);
    let c = project(r, n);
    let a0 = accepting_pairs(acc, c);
    let f = fair_pairs(w, fwd, c, inv, ts, a0);
    let rt = reach_set(w, true, true, init.intersect(enc_union(w, base, num, init_states)).intersect(inv), inv, rel, valuations(w));
    lemma_reach_agree(w, base, num, fwd, inv, ts, init, init_states);
    lemma_reach_cylindric(w, base, num, fwd, inv, ts, init, init_states);
    assert(rt == encode_pairs(w, base, num, n, r).intersect(inv));
    assert(rt.subset_of(valuations(w)));
    let xs = choose|x: Set<Seq<bool>>|
        x.subset_of(rt) && x.subset_of(#[trigger] fair_step(w, x, seq![a], inv, rel, rt)) && x != Set::<Seq<bool>>::empty();
    let s0 = a.intersect(xs).intersect(rt).intersect(inv);
    lemma_fair_step_single(w, xs, a, inv, rel, rt);
    let v = xs.choose();
    assert(xs.contains(v)) by {
        if !xs.contains(v) {
            assert(xs =~= Set::<Seq<bool>>::empty());
        }
    }
    assert(reach_set(w, false, false, s0, inv, rel, rt).contains(v));
    lemma_back_within(w, s0, inv, rel, rt, v);
    assert forall|u: Seq<bool>| s0.contains(u) implies reach_set(w, false, false, s0, inv, rel, rt).contains(u) by {
        assert(xs.contains(u));
        assert(fair_step(w, xs, seq![a], inv, rel, rt).contains(u));
    }
    let (j, x) = lemma_witness_verdict(w, base, num, fwd, inv, ts, r, acc, s0);
    assert(r.contains((acc[j] as int, x)) && f.contains((acc[j] as int, x)));
}

/// The two checks agree, stated over the sets the BDDs denote: no set of
/// reachable states of the product with the encoded automaton, from each of
/// whose states an accepting state of the set is reached again, is
/// non-empty, exactly when no reachable accepting product state of the
/// explicit product is fair.
pub proof fn lemma_verdicts_agree(
    w: nat,
    base: nat,
    num: nat,
    fwd: Seq<Seq<(usize, Set<Seq<bool>>)>>,
    inv: Set<Seq<bool>>,
    ts: Seq<Set<Seq<bool>>>,
    init: Set<Seq<bool>>,
    init_states: Seq<usize>,
    acc: Seq<usize>,
)
    requires
        separated(w, base, num, fwd, inv, ts),
        init.subset_of(valuations(w)),
        independent(w, init, aut_vars(base, num)),
        forall|j: int| 0 <= j < init_states.len() ==> #[trigger] init_states[j] < fwd.len(),
        forall|j: int| 0 <= j < acc.len() ==> #[trigger] acc[j] < fwd.len(),
    ensures
        encoded_no_fair_cycle(w, base, num, fwd, inv, ts, init, init_states, acc) == no_fair_accepting(w, fwd, inv, ts, init, init_states, acc),
{
    if !no_fair_accepting(w, fwd, inv, ts, init, init_states, acc) {
        lemma_fair_pairs_give_cycle(w, base, num, fwd, inv, ts, init, init_states, acc);
    }
    if !encoded_no_fair_cycle(w, base, num, fwd, inv, ts, init, init_states, acc) {
        lemma_cycle_gives_fair_pairs(w, base, num, fwd, inv, ts, init, init_states, acc);
    }
}

/// The two checks agree. Let `aut` be the machine of the automaton `a`,
/// with `num = bits(n - 1)` encoding variables after its `base` symbols,
/// and let the model `fsm` have a transition relation and no justice set of
/// its own, and let its sets and the automaton's labels not look at the
/// encoding variables. Then no reachable state of the product of `fsm` with
/// `aut` lies on a fair cycle (the verdict of `traditional::check`) exactly
/// when no reachable accepting state of the explicit product of `a` with
/// `fsm` is fair (the verdict of `product::check`).
pub proof fn lemma_checks_agree<BM: BddManager>(a: &BuchiAutomata<BM>, fsm: &FsmBdd<BM>, aut: &FsmBdd<BM>)
    requires
        ({
            let w = bm_width::<BM>();
            let base = a.symbols@.len();
            let num = bits((a.forward@.len() - 1) as nat);
            &&& separated(w, base, num, a.fwd(), fsm.inv(), fsm.parts())
            &&& independent(w, fsm.init.denote(), aut_vars(base, num))
            &&& fsm.justice@.len() == 0
            &&& aut.parts().len() > 0
            &&& aut.inv() == valuations(w)
            &&& aut.trans.relation() == automaton_rel(w, base, num, a.fwd())
            &&& aut.init.denote() == enc_union(w, base, num, a.init_states@)
            &&& aut.justice_sets() == seq![enc_union(w, base, num, a.accepting_states@)]
            &&& forall|j: int| 0 <= j < a.init_states@.len() ==> #[trigger] a.init_states@[j] < a.forward@.len()
            &&& forall|j: int| 0 <= j < a.accepting_states@.len() ==> #[trigger] a.accepting_states@[j] < a.forward@.len()
        }),
    ensures
        no_reachable_fair_cycle(fsm, aut) == crate::product::no_fair_accepting(
            bm_width::<BM>(),
            a.fwd(),
            fsm.inv(),
            fsm.parts(),
            fsm.init.denote(),
            a.init_states@,
            a.accepting_states@,
        ),
{
    let w = bm_width::<BM>();
    let base = a.symbols@.len();
    let num = bits((a.forward@.len() - 1) as nat);
    assert(a.fwd().len() == a.forward@.len());
    fsm.invariants.lemma_wf();
    fsm.init.lemma_wf();
    let inv = fsm.inv();
    let ts = fsm.parts();
    assert(joint_parts(fsm, aut) == seq![joint_rel(w, base, num, a.fwd(), ts)]);
    assert(joint_inv(fsm, aut) =~= inv);
    assert(fsm.justice_sets() =~= Seq::<Set<Seq<bool>>>::empty());
    assert(joint_justice(fsm, aut) =~= seq![enc_union(w, base, num, a.accepting_states@)]);
    assert(joint_init(fsm, aut) == fsm.init.denote().intersect(enc_union(w, base, num, a.init_states@)));
    lemma_verdicts_agree(
        w,
        base,
        num,
        a.fwd(),
        inv,
        ts,
        fsm.init.denote(),
        a.init_states@,
        a.accepting_states@,
    );
    let rel = seq![joint_rel(w, base, num, a.fwd(), ts)];
    let acc_set = enc_union(w, base, num, a.accepting_states@);
    let rt = reach_set(
        w,
        true,
        true,
        fsm.init.denote().intersect(enc_union(w, base, num, a.init_states@)).intersect(inv),
        inv,
        rel,
        valuations(w),
    );
    assert(joint_init(fsm, aut).intersect(joint_inv(fsm, aut)) == fsm.init.denote().intersect(
        enc_union(w, base, num, a.init_states@),
    ).intersect(inv));
    assert(joint_reach(fsm, aut) == rt);
    assert forall|x: Set<Seq<bool>>| #[trigger] fair_step(w, x, joint_justice(fsm, aut), joint_inv(fsm, aut), joint_parts(fsm, aut), joint_reach(fsm, aut))
        == fair_step(w, x, seq![acc_set], inv, rel, rt) by {}
    assert(no_reachable_fair_cycle(fsm, aut) == encoded_no_fair_cycle(
        w,
        base,
        num,
        a.fwd(),
        inv,
        ts,
        fsm.init.denote(),
        a.init_states@,
        a.accepting_states@,
    ));
}

} // verus!
