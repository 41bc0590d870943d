//! The interface that a BDD package provides to the model checker. Each
//! operation is specified on the set of valuations that a BDD denotes (see
//! `valuation`). A package works over a fixed even number of variables,
//! `width()`, which `num_var` reports.
use vstd::prelude::*;
use crate::valuation::{
    cube_set, depends_on, exists_vars, nat_set, next_set, post_set, pre_set, prev_set, state_set,
    valuations, var_set,
};

verus! {

/// The sets of valuations that BDDs denote. Implementations written outside
/// the verifier name the specification items of [`Bdd`] by these types;
/// those items are never run.
pub type Valuations = Set<Seq<bool>>;

/// The number of variables of a BDD package, in specifications.
pub type VarCount = nat;

/// A binary decision diagram: a boolean function of `width()` variables,
/// denoting the set of valuations on which it holds.
pub trait Bdd: Sized {
    /// The number of variables.
    spec fn width() -> nat;

    /// The valuations on which the function holds.
    spec fn denote(&self) -> Set<Seq<bool>>;

    /// The variables come in state / next-state pairs, and are indexed by
    /// `usize`.
    proof fn lemma_width()
        ensures
            Self::width() % 2 == 0,
            Self::width() <= usize::MAX,
    ;

    /// A BDD denotes valuations of `width()` variables, and the variables
    /// come in state / next-state pairs.
    proof fn lemma_wf(&self)
        ensures
            self.denote().subset_of(valuations(Self::width())),
            Self::width() % 2 == 0,
            Self::width() <= usize::MAX,
    ;

    /// The number of nodes of the BDD of the function `f`, which `size`
    /// reports: a reduced BDD over the fixed order of the variables is
    /// determined by its function.
    spec fn nodes(f: Set<Seq<bool>>) -> nat;

    /// A copy of the same function.
    fn duplicate(&self) -> (r: Self)
        ensures
            r.denote() == self.denote(),
    ;

    /// Conjunction.
    fn and(&self, other: &Self) -> (r: Self)
        ensures
            r.denote() == self.denote().intersect(other.denote()),
    ;

    /// Disjunction.
    fn or(&self, other: &Self) -> (r: Self)
        ensures
            r.denote() == self.denote().union(other.denote()),
    ;

    /// Exclusive or.
    fn xor(&self, other: &Self) -> (r: Self)
        ensures
            r.denote() == self.denote().difference(other.denote()).union(
                other.denote().difference(self.denote()),
            ),
    ;

    /// Negation.
    fn not(&self) -> (r: Self)
        ensures
            r.denote() == valuations(Self::width()).difference(self.denote()),
    ;

    /// Whether two BDDs are the same function.
    fn equals(&self, other: &Self) -> (r: bool)
        ensures
            r == (self.denote() == other.denote()),
    ;

    /// The number of nodes.
    fn size(&self) -> (r: usize)
        ensures
            r == Self::nodes(self.denote()),
    ;

    /// Whether the function is the constant `val`.
    fn is_constant(&self, val: bool) -> (r: bool)
        ensures
            r == (self.denote() == (if val {
                valuations(Self::width())
            } else {
                Set::<Seq<bool>>::empty()
            })),
    ;

    /// `if self then t else e`.
    fn if_then_else(&self, t: &Self, e: &Self) -> (r: Self)
        ensures
            r.denote() == self.denote().intersect(t.denote()).union(
                valuations(Self::width()).difference(self.denote()).intersect(e.denote()),
            ),
    ;

    /// The conjunction with `f`, with the variables `vars` quantified
    /// existentially.
    fn and_abstract(&self, f: &Self, vars: &Vec<usize>) -> (r: Self)
        ensures
            r.denote() == exists_vars(
                Self::width(),
                self.denote().intersect(f.denote()),
                nat_set(vars@),
            ),
    ;

    /// The function with its next-state variables renamed to state variables.
    fn previous_state(&self) -> (r: Self)
        ensures
            r.denote() == prev_set(Self::width(), self.denote()),
    ;

    /// The function with its state variables renamed to next-state variables.
    fn next_state(&self) -> (r: Self)
        ensures
            r.denote() == next_set(Self::width(), self.denote()),
    ;

    /// The predecessors of a set of states under the transition relation
    /// `trans`.
    fn pre_image(&self, trans: &Self) -> (r: Self)
        ensures
            state_set(Self::width(), self.denote()) ==> r.denote() == pre_set(
                Self::width(),
                self.denote(),
                trans.denote(),
            ),
    ;

    /// The successors of a set of states under the transition relation
    /// `trans`.
    fn post_image(&self, trans: &Self) -> (r: Self)
        ensures
            state_set(Self::width(), self.denote()) ==> r.denote() == post_set(
                Self::width(),
                self.denote(),
                trans.denote(),
            ),
    ;

    /// The conjunction of the variables that the function depends on.
    fn support(&self) -> (r: Self)
        ensures
            r.denote() == cube_set(
                Self::width(),
                Set::new(|v: nat| depends_on(Self::width(), self.denote(), v)),
            ),
    ;

    /// The variables that the function depends on, in increasing order.
    fn support_index(&self) -> (r: Vec<usize>)
        ensures
            nat_set(r@) == Set::new(|v: nat| depends_on(Self::width(), self.denote(), v)),
            forall|i: int, j: int| 0 <= i < j < r@.len() ==> r@[i] < r@[j],
    ;
}

/// Whether `b` denotes a set of states: it depends on no next-state
/// variable.
pub fn is_state_set<B: Bdd>(b: &B) -> (r: bool)
    ensures
        r == state_set(B::width(), b.denote()),
{
    let ghost w = B::width();
    let vs = b.support_index();
    let mut i: usize = 0;
    while i < vs.len()
        invariant
            i <= vs@.len(),
            w == B::width(),
            nat_set(vs@) == Set::new(|u: nat| depends_on(w, b.denote(), u)),
            forall|j: int| 0 <= j < i ==> #[trigger] vs@[j] % 2 == 0,
        decreases vs@.len() - i,
    {
        if vs[i] % 2 == 1 {
            proof {
                let v = vs@[i as int] as nat;
                assert(0 <= i < vs@.len() && vs@[i as int] as nat == v);
                assert(nat_set(vs@).contains(v));
                assert(Set::new(|u: nat| depends_on(w, b.denote(), u)).contains(v));
                assert(depends_on(w, b.denote(), v));
                assert(crate::valuation::parity_vars(w, 1).contains(v));
            }
            return false;
        }
        i = i + 1;
    }
    proof {
        assert forall|v: nat| crate::valuation::parity_vars(w, 1).contains(v) implies !#[trigger] depends_on(w, b.denote(), v) by {
            if depends_on(w, b.denote(), v) {
                assert(nat_set(vs@).contains(v));
                let j = choose|j: int| 0 <= j < vs@.len() && vs@[j] as nat == v;
                assert(vs@[j] % 2 == 0);
            }
        }
    }
    true
}

/// The variables below `n` with parity `p`, in increasing order.
pub fn parity_vars_below(n: usize, p: usize) -> (r: Vec<usize>)
    requires
        p < 2,
    ensures
        nat_set(r@) == crate::valuation::parity_vars(n as nat, p as nat),
{
    let mut r: Vec<usize> = Vec::new();
    let mut i: usize = 0;
    while i < n
        invariant
            i <= n,
            p < 2,
            nat_set(r@) == Set::new(|v: nat| v < i && v % 2 == p),
        decreases n - i,
    {
        if i % 2 == p {
            let ghost old_r = r@;
            r.push(i);
            assert(nat_set(r@) =~= Set::new(|v: nat| v < i + 1 && v % 2 == p)) by {
                assert forall|v: nat| nat_set(r@).contains(v) implies v < i + 1 && v % 2 == p by {
                    let j = choose|j: int| 0 <= j < r@.len() && r@[j] as nat == v;
                    if j < old_r.len() {
                        assert(nat_set(old_r).contains(v));
                    }
                }
                assert forall|v: nat| v < i + 1 && v % 2 == p implies nat_set(r@).contains(v) by {
                    if v < i {
                        assert(nat_set(old_r).contains(v));
                        let j = choose|j: int| 0 <= j < old_r.len() && old_r[j] as nat == v;
                        assert(r@[j] as nat == v);
                    } else {
                        assert(r@[old_r.len() as int] as nat == v);
                    }
                }
            }
        } else {
            assert(nat_set(r@) =~= Set::new(|v: nat| v < i + 1 && v % 2 == p));
        }
        i = i + 1;
    }
    assert(nat_set(r@) =~= crate::valuation::parity_vars(n as nat, p as nat));
    r
}

/// A BDD package: it makes the constants and the variables, and moves BDDs
/// between managers.
pub trait BddManager: Sized {
    type Bdd: Bdd;

    fn new() -> Self;

    fn new_with_capacity(capacity: usize) -> Self;

    /// A handle on the same package.
    fn duplicate(&self) -> (r: Self)
        ensures
            r == *self,
    ;

    /// The constant function `val`.
    fn constant(&self, val: bool) -> (r: Self::Bdd)
        ensures
            r.denote() == (if val {
                valuations(<Self::Bdd as Bdd>::width())
            } else {
                Set::<Seq<bool>>::empty()
            }),
    ;

    /// The function that holds where variable `var` does.
    fn ith_var(&self, var: usize) -> (r: Self::Bdd)
        requires
            var < <Self::Bdd as Bdd>::width(),
        ensures
            r.denote() == var_set(<Self::Bdd as Bdd>::width(), var as nat),
    ;

    /// The number of variables.
    fn num_var(&self) -> (r: usize)
        ensures
            r == <Self::Bdd as Bdd>::width(),
    ;

    /// The same function, held by this manager.
    fn translocate(&self, bdd: &Self::Bdd) -> (r: Self::Bdd)
        ensures
            r.denote() == bdd.denote(),
    ;

    /// The state variables.
    fn state_vars(&self) -> (r: Vec<usize>)
        ensures
            nat_set(r@) == crate::valuation::parity_vars(<Self::Bdd as Bdd>::width(), 0),
    {
        let n = self.num_var();
        parity_vars_below(n, 0)
    }

    /// The next-state variables.
    fn next_state_vars(&self) -> (r: Vec<usize>)
        ensures
            nat_set(r@) == crate::valuation::parity_vars(<Self::Bdd as Bdd>::width(), 1),
    {
        let n = self.num_var();
        parity_vars_below(n, 1)
    }
}

} // verus!
