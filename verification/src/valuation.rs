//! Sets of valuations of boolean variables: the meaning of a BDD.
//!
//! A valuation gives a truth value to each of `w` variables. Variables come
//! in pairs: an even variable `2k` is a state variable and the odd variable
//! `2k + 1` is its next-state copy. A *state set* is a set that does not
//! depend on any next-state variable.
use vstd::prelude::*;

verus! {

/// All valuations of `w` variables.
pub open spec fn valuations(w: nat) -> Set<Seq<bool>> {
    Set::new(|a: Seq<bool>| a.len() == w)
}

/// The valuations of `w` variables in which variable `i` holds.
pub open spec fn var_set(w: nat, i: nat) -> Set<Seq<bool>> {
    Set::new(|a: Seq<bool>| a.len() == w && i < w && a[i as int])
}

/// The complement of `s` among the valuations of `w` variables.
pub open spec fn complement(w: nat, s: Set<Seq<bool>>) -> Set<Seq<bool>> {
    valuations(w).difference(s)
}

/// `a` with variable `v` flipped.
pub open spec fn flip(a: Seq<bool>, v: nat) -> Seq<bool> {
    a.update(v as int, !a[v as int])
}

/// Whether membership in `s` changes with variable `v` for some valuation.
pub open spec fn depends_on(w: nat, s: Set<Seq<bool>>, v: nat) -> bool {
    v < w && exists|a: Seq<bool>| a.len() == w && s.contains(a) != s.contains(#[trigger] flip(a, v))
}

/// `s` depends on no variable of `vs`.
pub open spec fn independent(w: nat, s: Set<Seq<bool>>, vs: Set<nat>) -> bool {
    forall|v: nat| vs.contains(v) ==> !#[trigger] depends_on(w, s, v)
}

/// The variables below `w` whose index has parity `p`: the state variables
/// for `p == 0`, the next-state variables for `p == 1`.
pub open spec fn parity_vars(w: nat, p: nat) -> Set<nat> {
    Set::new(|v: nat| v < w && v % 2 == p)
}

/// A set of states: it does not depend on the next-state variables.
pub open spec fn state_set(w: nat, s: Set<Seq<bool>>) -> bool {
    independent(w, s, parity_vars(w, 1))
}

/// `a` with each state variable reading the value of its next-state copy.
pub open spec fn shift_up(a: Seq<bool>) -> Seq<bool> {
    Seq::new(a.len(), |i: int| if i % 2 == 0 && i + 1 < a.len() { a[i + 1] } else { a[i] })
}

/// `a` with each next-state variable reading the value of its state copy.
pub open spec fn shift_down(a: Seq<bool>) -> Seq<bool> {
    Seq::new(a.len(), |i: int| if i % 2 == 1 { a[i - 1] } else { a[i] })
}

/// The transition from the state of `c` to the state of `n`: state variables
/// from `c`, next-state variables from the state variables of `n`.
pub open spec fn join(c: Seq<bool>, n: Seq<bool>) -> Seq<bool> {
    Seq::new(c.len(), |i: int| if i % 2 == 0 { c[i] } else { n[i - 1] })
}

/// `s` with its state variables renamed to their next-state copies.
pub open spec fn next_set(w: nat, s: Set<Seq<bool>>) -> Set<Seq<bool>> {
    Set::new(|a: Seq<bool>| a.len() == w && s.contains(shift_up(a)))
}

/// `s` with its next-state variables renamed to their state copies.
pub open spec fn prev_set(w: nat, s: Set<Seq<bool>>) -> Set<Seq<bool>> {
    Set::new(|a: Seq<bool>| a.len() == w && s.contains(shift_down(a)))
}

/// The successors of the states `s` under the transition relation `t`.
pub open spec fn post_set(w: nat, s: Set<Seq<bool>>, t: Set<Seq<bool>>) -> Set<Seq<bool>> {
    Set::new(
        |x: Seq<bool>|
            x.len() == w && exists|y: Seq<bool>| s.contains(y) && t.contains(#[trigger] join(y, x)),
    )
}

/// The predecessors of the states `s` under the transition relation `t`.
pub open spec fn pre_set(w: nat, s: Set<Seq<bool>>, t: Set<Seq<bool>>) -> Set<Seq<bool>> {
    Set::new(
        |x: Seq<bool>|
            x.len() == w && exists|y: Seq<bool>| s.contains(y) && t.contains(#[trigger] join(x, y)),
    )
}

/// `a` and `b` agree on every variable outside `vs`.
pub open spec fn agree_outside(a: Seq<bool>, b: Seq<bool>, vs: Set<nat>) -> bool {
    a.len() == b.len() && forall|i: int|
        0 <= i < a.len() && !vs.contains(i as nat) ==> #[trigger] a[i] == b[i]
}

/// `s` with the variables `vs` quantified existentially.
pub open spec fn exists_vars(w: nat, s: Set<Seq<bool>>, vs: Set<nat>) -> Set<Seq<bool>> {
    Set::new(
        |x: Seq<bool>|
            x.len() == w && exists|y: Seq<bool>| s.contains(y) && #[trigger] agree_outside(x, y, vs),
    )
}

/// The valuations in which every variable of `vs` holds.
pub open spec fn cube_set(w: nat, vs: Set<nat>) -> Set<Seq<bool>> {
    Set::new(|a: Seq<bool>| a.len() == w && forall|v: nat| vs.contains(v) && v < w ==> a[v as int])
}

/// The numbers held in `s`, as naturals.
pub open spec fn nat_set(s: Seq<usize>) -> Set<nat> {
    Set::new(|v: nat| exists|i: int| 0 <= i < s.len() && s[i] as nat == v)
}

/// The valuations that take the first `k` values from `b` and the rest
/// from `a`.
spec fn mix(a: Seq<bool>, b: Seq<bool>, k: int) -> Seq<bool> {
    Seq::new(a.len(), |i: int| if i < k { b[i] } else { a[i] })
}

proof fn lemma_mix(w: nat, s: Set<Seq<bool>>, vs: Set<nat>, a: Seq<bool>, b: Seq<bool>, k: int)
    requires
        independent(w, s, vs),
        a.len() == w,
        agree_outside(a, b, vs),
        0 <= k <= w,
    ensures
        s.contains(a) == s.contains(mix(a, b, k)),
    decreases k,
{
    if k == 0 {
        assert(mix(a, b, 0) =~= a);
    } else {
        lemma_mix(w, s, vs, a, b, k - 1);
        let p = mix(a, b, k - 1);
        if a[k - 1] == b[k - 1] {
            assert(mix(a, b, k) =~= p);
        } else {
            assert(vs.contains((k - 1) as nat));
            assert(!depends_on(w, s, (k - 1) as nat));
            assert(mix(a, b, k) =~= flip(p, (k - 1) as nat));
            assert(s.contains(p) == s.contains(flip(p, (k - 1) as nat)));
        }
    }
}

/// A set that depends on no variable of `vs` cannot tell apart valuations
/// that differ only there.
pub proof fn lemma_independent_agree(
    w: nat,
    s: Set<Seq<bool>>,
    vs: Set<nat>,
    a: Seq<bool>,
    b: Seq<bool>,
)
    requires
        independent(w, s, vs),
        a.len() == w,
        agree_outside(a, b, vs),
    ensures
        s.contains(a) == s.contains(b),
{
    lemma_mix(w, s, vs, a, b, w as int);
    assert(mix(a, b, w as int) =~= b);
}

/// Membership in a set that depends on none of `vs` is decided outside `vs`.
pub proof fn lemma_agree_independent(w: nat, s: Set<Seq<bool>>, vs: Set<nat>)
    requires
        forall|a: Seq<bool>, b: Seq<bool>|
            a.len() == w && #[trigger] agree_outside(a, b, vs) ==> s.contains(a) == s.contains(b),
    ensures
        independent(w, s, vs),
{
    assert forall|v: nat| vs.contains(v) implies !#[trigger] depends_on(w, s, v) by {
        if v < w {
            assert forall|a: Seq<bool>| a.len() == w implies s.contains(a) == s.contains(
                #[trigger] flip(a, v),
            ) by {
                assert(agree_outside(a, flip(a, v), vs));
            }
        }
    }
}

/// Intersections, unions and differences of sets independent of `vs` are
/// independent of `vs`.
pub proof fn lemma_independent_ops(w: nat, s: Set<Seq<bool>>, t: Set<Seq<bool>>, vs: Set<nat>)
    requires
        independent(w, s, vs),
        independent(w, t, vs),
    ensures
        independent(w, s.intersect(t), vs),
        independent(w, s.union(t), vs),
        independent(w, s.difference(t), vs),
        independent(w, valuations(w), vs),
        independent(w, Set::<Seq<bool>>::empty(), vs),
{
    assert forall|v: nat| vs.contains(v) implies {
        &&& !depends_on(w, s.intersect(t), v)
        &&& !depends_on(w, s.union(t), v)
        &&& !depends_on(w, s.difference(t), v)
        &&& !depends_on(w, valuations(w), v)
        &&& !depends_on(w, Set::<Seq<bool>>::empty(), v)
    } by {
        assert(!depends_on(w, s, v));
        assert(!depends_on(w, t, v));
        if v < w {
            assert forall|a: Seq<bool>| a.len() == w implies {
                &&& s.contains(a) == s.contains(#[trigger] flip(a, v))
                &&& t.contains(a) == t.contains(flip(a, v))
                &&& flip(a, v).len() == w
            } by {}
        }
    }
}

/// Quantifying in two rounds is quantifying over the union.
pub proof fn lemma_exists_vars_compose(w: nat, s: Set<Seq<bool>>, v1: Set<nat>, v2: Set<nat>)
    requires
        s.subset_of(valuations(w)),
    ensures
        exists_vars(w, exists_vars(w, s, v1), v2) == exists_vars(w, s, v1.union(v2)),
{
    let lhs = exists_vars(w, exists_vars(w, s, v1), v2);
    let rhs = exists_vars(w, s, v1.union(v2));
    assert forall|x: Seq<bool>| lhs.contains(x) implies rhs.contains(x) by {
        let z = choose|z: Seq<bool>| exists_vars(w, s, v1).contains(z) && agree_outside(x, z, v2);
        let y = choose|y: Seq<bool>| s.contains(y) && agree_outside(z, y, v1);
        assert(agree_outside(x, y, v1.union(v2)));
    }
    assert forall|x: Seq<bool>| rhs.contains(x) implies lhs.contains(x) by {
        let y = choose|y: Seq<bool>| s.contains(y) && agree_outside(x, y, v1.union(v2));
        let z = Seq::new(w, |i: int| if v2.contains(i as nat) { y[i] } else { x[i] });
        assert(agree_outside(z, y, v1));
        assert(exists_vars(w, s, v1).contains(z));
        assert(agree_outside(x, z, v2));
    }
    assert(lhs =~= rhs);
}

/// Quantifying over no variable changes nothing.
pub proof fn lemma_exists_vars_none(w: nat, s: Set<Seq<bool>>)
    requires
        s.subset_of(valuations(w)),
    ensures
        exists_vars(w, s, Set::empty()) == s,
{
    let e = exists_vars(w, s, Set::empty());
    assert forall|x: Seq<bool>| e.contains(x) implies s.contains(x) by {
        let y = choose|y: Seq<bool>| s.contains(y) && agree_outside(x, y, Set::empty());
        assert(x =~= y);
    }
    assert forall|x: Seq<bool>| s.contains(x) implies e.contains(x) by {
        assert(agree_outside(x, x, Set::empty()));
    }
    assert(e =~= s);
}

/// A factor that does not mention the quantified variables can be taken out
/// of the quantifier.
pub proof fn lemma_exists_vars_factor(
    w: nat,
    a: Set<Seq<bool>>,
    b: Set<Seq<bool>>,
    vs: Set<nat>,
)
    requires
        b.subset_of(valuations(w)),
        independent(w, b, vs),
    ensures
        exists_vars(w, a.intersect(b), vs) == exists_vars(w, a, vs).intersect(b),
{
    let lhs = exists_vars(w, a.intersect(b), vs);
    let rhs = exists_vars(w, a, vs).intersect(b);
    assert forall|x: Seq<bool>| lhs.contains(x) implies rhs.contains(x) by {
        let y = choose|y: Seq<bool>| a.intersect(b).contains(y) && agree_outside(x, y, vs);
        lemma_independent_agree(w, b, vs, x, y);
    }
    assert forall|x: Seq<bool>| rhs.contains(x) implies lhs.contains(x) by {
        let y = choose|y: Seq<bool>| a.contains(y) && agree_outside(x, y, vs);
        lemma_independent_agree(w, b, vs, x, y);
        assert(a.intersect(b).contains(y));
    }
    assert(lhs =~= rhs);
}

/// The successors of `s`: conjoin the relation, quantify the state
/// variables, and rename the next-state variables back.
pub proof fn lemma_post_by_quantification(w: nat, s: Set<Seq<bool>>, t: Set<Seq<bool>>)
    requires
        s.subset_of(valuations(w)),
        state_set(w, s),
    ensures
        prev_set(w, exists_vars(w, s.intersect(t), parity_vars(w, 0))) == post_set(w, s, t),
{
    let e = exists_vars(w, s.intersect(t), parity_vars(w, 0));
    let lhs = prev_set(w, e);
    let rhs = post_set(w, s, t);
    assert forall|x: Seq<bool>| lhs.contains(x) implies rhs.contains(x) by {
        let b = choose|b: Seq<bool>|
            s.intersect(t).contains(b) && agree_outside(shift_down(x), b, parity_vars(w, 0));
        assert(join(b, x) =~= b) by {
            assert forall|i: int| 0 <= i < w && i % 2 == 1 implies b[i] == x[i - 1] by {
                assert(!parity_vars(w, 0).contains(i as nat));
                assert(shift_down(x)[i] == b[i]);
            }
        }
        assert(s.contains(b) && t.contains(join(b, x)));
    }
    assert forall|x: Seq<bool>| rhs.contains(x) implies lhs.contains(x) by {
        let y = choose|y: Seq<bool>| s.contains(y) && t.contains(join(y, x));
        let b = join(y, x);
        assert(agree_outside(y, b, parity_vars(w, 1)));
        lemma_independent_agree(w, s, parity_vars(w, 1), y, b);
        assert(agree_outside(shift_down(x), b, parity_vars(w, 0)));
        assert(s.intersect(t).contains(b));
    }
    assert(lhs =~= rhs);
}

/// The predecessors of `s`: rename `s` to next-state variables, conjoin the
/// relation, and quantify the next-state variables.
pub proof fn lemma_pre_by_quantification(w: nat, s: Set<Seq<bool>>, t: Set<Seq<bool>>)
    requires
        s.subset_of(valuations(w)),
        state_set(w, s),
        w % 2 == 0,
    ensures
        exists_vars(w, next_set(w, s).intersect(t), parity_vars(w, 1)) == pre_set(w, s, t),
{
    let lhs = exists_vars(w, next_set(w, s).intersect(t), parity_vars(w, 1));
    let rhs = pre_set(w, s, t);
    assert forall|x: Seq<bool>| lhs.contains(x) implies rhs.contains(x) by {
        let b = choose|b: Seq<bool>|
            next_set(w, s).intersect(t).contains(b) && agree_outside(x, b, parity_vars(w, 1));
        let y = shift_up(b);
        assert(join(x, y) =~= b) by {
            assert forall|i: int| 0 <= i < w && i % 2 == 0 implies x[i] == b[i] by {
                assert(!parity_vars(w, 1).contains(i as nat));
            }
        }
        assert(s.contains(y) && t.contains(join(x, y)));
    }
    assert forall|x: Seq<bool>| rhs.contains(x) implies lhs.contains(x) by {
        let y = choose|y: Seq<bool>| s.contains(y) && t.contains(join(x, y));
        let b = join(x, y);
        assert(agree_outside(y, shift_up(b), parity_vars(w, 1)));
        lemma_independent_agree(w, s, parity_vars(w, 1), y, shift_up(b));
        assert(next_set(w, s).contains(b));
        assert(agree_outside(x, b, parity_vars(w, 1)));
    }
    assert(lhs =~= rhs);
}

/// Successors and predecessors are sets of states.
pub proof fn lemma_images_are_states(w: nat, s: Set<Seq<bool>>, t: Set<Seq<bool>>)
    requires
        s.subset_of(valuations(w)),
    ensures
        state_set(w, post_set(w, s, t)),
        state_set(w, pre_set(w, s, t)),
{
    let p = post_set(w, s, t);
    let q = pre_set(w, s, t);
    assert forall|a: Seq<bool>, b: Seq<bool>|
        a.len() == w && #[trigger] agree_outside(a, b, parity_vars(w, 1)) implies p.contains(a)
        == p.contains(b) && q.contains(a) == q.contains(b) by {
        assert forall|i: int| 0 <= i < w && i % 2 == 0 implies #[trigger] a[i] == b[i] by {
            assert(!parity_vars(w, 1).contains(i as nat));
        }
        assert forall|y: Seq<bool>| y.len() == w implies #[trigger] join(y, a) =~= join(y, b) by {}
        assert forall|y: Seq<bool>| #[trigger] join(a, y) =~= join(b, y) by {}
        if p.contains(a) {
            let y = choose|y: Seq<bool>| s.contains(y) && t.contains(join(y, a));
            assert(join(y, a) =~= join(y, b));
        }
        if p.contains(b) {
            let y = choose|y: Seq<bool>| s.contains(y) && t.contains(join(y, b));
            assert(join(y, a) =~= join(y, b));
        }
        if q.contains(a) {
            let y = choose|y: Seq<bool>| s.contains(y) && t.contains(join(a, y));
            assert(join(a, y) =~= join(b, y));
        }
        if q.contains(b) {
            let y = choose|y: Seq<bool>| s.contains(y) && t.contains(join(b, y));
            assert(join(a, y) =~= join(b, y));
        }
    }
    lemma_agree_independent(w, p, parity_vars(w, 1));
    lemma_agree_independent(w, q, parity_vars(w, 1));
}

/// There are finitely many valuations of `w` variables.
pub proof fn lemma_valuations_finite(w: nat)
    ensures
        valuations(w).finite(),
    decreases w,
{
    if w == 0 {
        assert forall|a: Seq<bool>| valuations(0).contains(a) implies a =~= Seq::<bool>::empty() by {}
        assert(valuations(0) =~= Set::empty().insert(Seq::<bool>::empty()));
    } else {
        let prev = valuations((w - 1) as nat);
        lemma_valuations_finite((w - 1) as nat);
        let t = prev.map(|a: Seq<bool>| a.push(true));
        let f = prev.map(|a: Seq<bool>| a.push(false));
        prev.lemma_map_finite(|a: Seq<bool>| a.push(true));
        prev.lemma_map_finite(|a: Seq<bool>| a.push(false));
        assert forall|a: Seq<bool>| valuations(w).contains(a) implies #[trigger] t.union(
            f,
        ).contains(a) by {
            let p = a.drop_last();
            assert(prev.contains(p));
            if a.last() {
                assert(p.push(true) =~= a);
            } else {
                assert(p.push(false) =~= a);
            }
        }
        assert(valuations(w).subset_of(t.union(f)));
        vstd::set_lib::lemma_set_subset_finite(t.union(f), valuations(w));
    }
}

} // verus!
