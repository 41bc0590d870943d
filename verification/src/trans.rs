//! A transition relation held as a conjunction of parts, with the schedules
//! for quantifying variables early when computing images.
use vstd::prelude::*;
use crate::bdd::{Bdd, BddManager};
use crate::valuation::{
    agree_outside, depends_on, exists_vars, flip, independent, lemma_exists_vars_compose,
    lemma_exists_vars_factor, lemma_independent_agree, lemma_post_by_quantification, lemma_pre_by_quantification, nat_set, next_set, parity_vars,
    post_set, pre_set, prev_set, state_set, valuations,
};

verus! {

/// How the parts of a transition relation are grouped.
#[derive(Clone, Copy, Debug, PartialEq, Eq, Structural)]
pub enum TransBddMethod {
    Partition,
    Monolithic,
}

/// The number of variables of the BDDs of `BM`.
pub open spec fn bm_width<BM: BddManager>() -> nat {
    <BM::Bdd as Bdd>::width()
}

/// The sets that a sequence of BDDs denotes.
pub open spec fn denotes<B: Bdd>(bs: Seq<B>) -> Seq<Set<Seq<bool>>> {
    bs.map_values(|b: B| b.denote())
}

/// The conjunction of a sequence of sets of valuations of `w` variables.
pub open spec fn conj(w: nat, ts: Seq<Set<Seq<bool>>>) -> Set<Seq<bool>>
    decreases ts.len(),
{
    if ts.len() == 0 {
        valuations(w)
    } else {
        conj(w, ts.drop_last()).intersect(ts.last())
    }
}

/// The variables that the parts after part `j` depend on.
pub open spec fn later_support(w: nat, ts: Seq<Set<Seq<bool>>>, j: int) -> Set<nat> {
    Set::new(|v: nat| exists|k: int| j < k < ts.len() && #[trigger] depends_on(w, ts[k], v))
}

/// `sched` quantifies, after part `j`, the variables of `base` that no later
/// part depends on.
pub open spec fn schedule_ok(
    w: nat,
    ts: Seq<Set<Seq<bool>>>,
    sched: Seq<Vec<usize>>,
    base: Set<nat>,
) -> bool {
    &&& sched.len() == ts.len()
    &&& forall|j: int|
        0 <= j < ts.len() ==> #[trigger] nat_set(sched[j]@) == base.difference(
            later_support(w, ts, j),
        )
}

/// The successors of `s` under the parts `ts`, as the image computation
/// defines them: with no part, the renamed set.
pub open spec fn post_of(w: nat, s: Set<Seq<bool>>, ts: Seq<Set<Seq<bool>>>) -> Set<Seq<bool>> {
    if ts.len() == 0 {
        prev_set(w, s)
    } else {
        post_set(w, s, conj(w, ts))
    }
}

/// The predecessors of `s` under the parts `ts`, as the image computation
/// defines them: with no part, the renamed set.
pub open spec fn pre_of(w: nat, s: Set<Seq<bool>>, ts: Seq<Set<Seq<bool>>>) -> Set<Seq<bool>> {
    if ts.len() == 0 {
        next_set(w, s)
    } else {
        pre_set(w, s, conj(w, ts))
    }
}

/// A transition relation: the conjunction of the parts `trans`.
pub struct Trans<BM: BddManager> {
    pub manager: BM,
    pub trans: Vec<BM::Bdd>,
    pub pre_eliminate: Vec<Vec<usize>>,
    pub post_eliminate: Vec<Vec<usize>>,
}

impl<BM: BddManager> Trans<BM> {
    /// The sets that the parts denote.
    pub open spec fn parts(&self) -> Seq<Set<Seq<bool>>> {
        denotes(self.trans@)
    }

    /// The relation: the conjunction of the parts.
    pub open spec fn relation(&self) -> Set<Seq<bool>> {
        conj(bm_width::<BM>(), self.parts())
    }

    /// The schedules fit the parts.
    pub open spec fn wf(&self) -> bool {
        &&& schedule_ok(
            bm_width::<BM>(),
            self.parts(),
            self.pre_eliminate@,
            parity_vars(bm_width::<BM>(), 1),
        )
        &&& schedule_ok(
            bm_width::<BM>(),
            self.parts(),
            self.post_eliminate@,
            parity_vars(bm_width::<BM>(), 0),
        )
    }
}

/// The conjunction of sets of valuations is a set of valuations.
pub proof fn lemma_conj_valuations(w: nat, ts: Seq<Set<Seq<bool>>>)
    ensures
        conj(w, ts).subset_of(valuations(w)),
    decreases ts.len(),
{
    if ts.len() > 0 {
        lemma_conj_valuations(w, ts.drop_last());
    }
}

/// A conjunction of two sequences is the intersection of their
/// conjunctions.
pub proof fn lemma_conj_append(w: nat, a: Seq<Set<Seq<bool>>>, b: Seq<Set<Seq<bool>>>)
    ensures
        conj(w, a + b) == conj(w, a).intersect(conj(w, b)),
    decreases b.len(),
{
    if b.len() == 0 {
        assert(a + b =~= a);
        lemma_conj_valuations(w, a);
        assert(conj(w, a).intersect(valuations(w)) =~= conj(w, a));
    } else {
        assert((a + b).drop_last() =~= a + b.drop_last());
        lemma_conj_append(w, a, b.drop_last());
        assert(conj(w, a + b) =~= conj(w, a).intersect(conj(w, b)));
    }
}

/// A conjunction of one set of valuations is that set.
pub proof fn lemma_conj_single(w: nat, t: Set<Seq<bool>>)
    requires
        t.subset_of(valuations(w)),
    ensures
        conj(w, seq![t]) == t,
{
    let one = seq![t];
    assert(one.drop_last() =~= Seq::<Set<Seq<bool>>>::empty());
    assert(one.last() == t);
    assert(conj(w, one) == conj(w, one.drop_last()).intersect(one.last()));
    assert(conj(w, one.drop_last()) == valuations(w));
    assert(conj(w, one) =~= t);
}

/// Whether `x` occurs in `v`.
fn vec_contains(v: &Vec<usize>, x: usize) -> (r: bool)
    ensures
        r == v@.contains(x),
{
    let mut i: usize = 0;
    while i < v.len()
        invariant
            i <= v.len(),
            forall|j: int| 0 <= j < i ==> v@[j] != x,
        decreases v.len() - i,
    {
        if v[i] == x {
            return true;
        }
        i = i + 1;
    }
    false
}

/// A copy of `v`.
fn copy_vars(v: &Vec<usize>) -> (r: Vec<usize>)
    ensures
        r@ == v@,
{
    let mut r: Vec<usize> = Vec::new();
    let mut i: usize = 0;
    while i < v.len()
        invariant
            i <= v.len(),
            r@ == v@.take(i as int),
        decreases v.len() - i,
    {
        r.push(v[i]);
        i = i + 1;
        assert(r@ =~= v@.take(i as int));
    }
    assert(v@.take(i as int) =~= v@);
    r
}

/// The elements of `v` that do not occur in `drop`.
fn remove_vars(v: &Vec<usize>, drop: &Vec<usize>) -> (r: Vec<usize>)
    ensures
        nat_set(r@) == nat_set(v@).difference(nat_set(drop@)),
{
    let mut r: Vec<usize> = Vec::new();
    let mut i: usize = 0;
    while i < v.len()
        invariant
            i <= v.len(),
            nat_set(r@) == nat_set(v@.take(i as int)).difference(nat_set(drop@)),
        decreases v.len() - i,
    {
        let x = v[i];
        let ghost old_r = r@;
        if !vec_contains(drop, x) {
            r.push(x);
        }
        proof {
            let t = v@.take(i as int + 1);
            assert(v@.take(i as int) =~= t.drop_last());
            assert forall|n: nat| nat_set(r@).contains(n) == (nat_set(t).difference(
                nat_set(drop@),
            )).contains(n) by {
                if nat_set(r@).contains(n) {
                    let j = choose|j: int| 0 <= j < r@.len() && r@[j] as nat == n;
                    if j < old_r.len() {
                        assert(nat_set(old_r).contains(n));
                        let k = choose|k: int|
                            0 <= k < v@.take(i as int).len() && v@.take(i as int)[k] as nat == n;
                        assert(t[k] as nat == n);
                    } else {
                        assert(t[i as int] as nat == n);
                        if nat_set(drop@).contains(n) {
                            let k = choose|k: int| 0 <= k < drop@.len() && drop@[k] as nat == n;
                            assert(drop@[k] == x);
                        }
                    }
                }
                if (nat_set(t).difference(nat_set(drop@))).contains(n) {
                    let k = choose|k: int| 0 <= k < t.len() && t[k] as nat == n;
                    if k < i {
                        assert(v@.take(i as int)[k] as nat == n);
                        assert(nat_set(old_r).contains(n));
                        let j = choose|j: int| 0 <= j < old_r.len() && old_r[j] as nat == n;
                        assert(r@[j] as nat == n);
                    } else {
                        assert(!drop@.contains(x)) by {
                            if drop@.contains(x) {
                                let m = choose|m: int| 0 <= m < drop@.len() && drop@[m] == x;
                                assert(nat_set(drop@).contains(n));
                            }
                        }
                        assert(r@[old_r.len() as int] as nat == n);
                    }
                }
            }
            assert(nat_set(r@) =~= nat_set(t).difference(nat_set(drop@)));
        }
        i = i + 1;
    }
    assert(v@.take(i as int) =~= v@);
    r
}

/// `later_support` grows by the support of part `j` when `j` is passed.
proof fn lemma_later_support_step(w: nat, ts: Seq<Set<Seq<bool>>>, j: int)
    requires
        0 <= j < ts.len(),
    ensures
        later_support(w, ts, j - 1) == later_support(w, ts, j).union(
            Set::new(|v: nat| depends_on(w, ts[j], v)),
        ),
{
    assert(later_support(w, ts, j - 1) =~= later_support(w, ts, j).union(
        Set::new(|v: nat| depends_on(w, ts[j], v)),
    ));
}

impl<BM: BddManager> Trans<BM> {
    /// For each part, the variables of `vars` that no later part depends on.
    fn build_schedule(trans: &Vec<BM::Bdd>, vars: Vec<usize>) -> (res: Vec<Vec<usize>>)
        ensures
            schedule_ok(bm_width::<BM>(), denotes(trans@), res@, nat_set(vars@)),
    {
        let ghost w = bm_width::<BM>();
        let ghost ts = denotes(trans@);
        let ghost base = nat_set(vars@);
        let n = trans.len();
        let mut cur = vars;
        let mut rev: Vec<Vec<usize>> = Vec::new();
        let mut i = n;
        assert(later_support(w, ts, n - 1) =~= Set::<nat>::empty());
        assert(nat_set(cur@) =~= base.difference(later_support(w, ts, n - 1)));
        while i > 0
            invariant
                n == trans.len(),
                ts == denotes(trans@),
                w == bm_width::<BM>(),
                i <= n,
                rev@.len() == n - i,
                nat_set(cur@) == base.difference(later_support(w, ts, i - 1)),
                forall|k: int|
                    0 <= k < rev@.len() ==> #[trigger] nat_set(rev@[k]@) == base.difference(
                        later_support(w, ts, n - 1 - k),
                    ),
            decreases i,
        {
            let ghost old_rev = rev@;
            rev.push(copy_vars(&cur));
            let sup = trans[i - 1].support_index();
            proof {
                lemma_later_support_step(w, ts, i - 1);
                assert(ts[i - 1] == trans@[i - 1].denote());
            }
            cur = remove_vars(&cur, &sup);
            assert(nat_set(cur@) =~= base.difference(later_support(w, ts, i - 2)));
            assert forall|k: int| 0 <= k < rev@.len() implies #[trigger] nat_set(rev@[k]@)
                == base.difference(later_support(w, ts, n - 1 - k)) by {
                if k < old_rev.len() {
                    assert(rev@[k] == old_rev[k]);
                }
            }
            i = i - 1;
        }
        let mut res: Vec<Vec<usize>> = Vec::new();
        let mut j: usize = 0;
        while j < n
            invariant
                n == trans.len(),
                ts == denotes(trans@),
                w == bm_width::<BM>(),
                rev@.len() == n,
                j <= n,
                res@.len() == j,
                forall|k: int|
                    0 <= k < rev@.len() ==> #[trigger] nat_set(rev@[k]@) == base.difference(
                        later_support(w, ts, n - 1 - k),
                    ),
                forall|k: int|
                    0 <= k < j ==> #[trigger] nat_set(res@[k]@) == base.difference(
                        later_support(w, ts, k),
                    ),
            decreases n - j,
        {
            let ghost old_res = res@;
            res.push(copy_vars(&rev[n - 1 - j]));
            assert(nat_set(rev@[n - 1 - j]@) == base.difference(
                later_support(w, ts, n - 1 - (n - 1 - j)),
            ));
            assert forall|k: int| 0 <= k < j + 1 implies #[trigger] nat_set(res@[k]@)
                == base.difference(later_support(w, ts, k)) by {
                if k < j {
                    assert(res@[k] == old_res[k]);
                }
            }
            j = j + 1;
        }
        res
    }

    /// The relation with the parts `trans`, and its schedules.
    fn build(manager: &BM, trans: Vec<BM::Bdd>) -> (r: Self)
        ensures
            r.wf(),
            r.trans@ == trans@,
            r.manager == *manager,
    {
        let next_vars = manager.next_state_vars();
        let pre_eliminate = Self::build_schedule(&trans, next_vars);
        let state_vars = manager.state_vars();
        let post_eliminate = Self::build_schedule(&trans, state_vars);
        Trans { manager: manager.duplicate(), pre_eliminate, trans, post_eliminate }
    }

    /// The relation as one part: the conjunction of `trans`.
    fn monolithic_new(manager: &BM, trans: Vec<BM::Bdd>) -> (r: Self)
        ensures
            r.wf(),
            r.trans@.len() == 1,
            r.relation() == conj(bm_width::<BM>(), denotes(trans@)),
            r.manager == *manager,
    {
        let ghost w = bm_width::<BM>();
        let mut res = manager.constant(true);
        let mut i: usize = 0;
        while i < trans.len()
            invariant
                w == bm_width::<BM>(),
                i <= trans.len(),
                res.denote() == conj(w, denotes(trans@.take(i as int))),
            decreases trans.len() - i,
        {
            res = res.and(&trans[i]);
            proof {
                assert(denotes(trans@.take(i + 1)).drop_last() =~= denotes(trans@.take(i as int)));
            }
            i = i + 1;
        }
        assert(trans@.take(i as int) =~= trans@);
        let ghost rel = res.denote();
        let r = Self::build(manager, vec![res]);
        proof {
            lemma_conj_valuations(w, denotes(trans@));
            assert(denotes(r.trans@) =~= seq![rel]);
            lemma_conj_single(w, rel);
        }
        r
    }
}

/// The variables that the first `i` steps of a schedule have quantified.
pub open spec fn done_vars(w: nat, ts: Seq<Set<Seq<bool>>>, base: Set<nat>, i: int) -> Set<nat> {
    if i == 0 {
        Set::empty()
    } else {
        base.difference(later_support(w, ts, i - 1))
    }
}

/// One step of an image computation by a schedule: conjoin part `i` and
/// quantify what no later part needs. After `i` steps the result is the
/// conjunction with the first `i` parts, quantified over what the first `i`
/// steps quantified.
proof fn lemma_schedule_step(
    w: nat,
    ts: Seq<Set<Seq<bool>>>,
    base: Set<nat>,
    a: Set<Seq<bool>>,
    i: int,
)
    requires
        0 <= i < ts.len(),
        a.subset_of(valuations(w)),
        ts[i].subset_of(valuations(w)),
    ensures
        exists_vars(
            w,
            exists_vars(w, a.intersect(conj(w, ts.take(i))), done_vars(w, ts, base, i)).intersect(
                ts[i],
            ),
            base.difference(later_support(w, ts, i)),
        ) == exists_vars(w, a.intersect(conj(w, ts.take(i + 1))), done_vars(w, ts, base, i + 1)),
{
    let x = a.intersect(conj(w, ts.take(i)));
    let u = done_vars(w, ts, base, i);
    let v = base.difference(later_support(w, ts, i));
    assert forall|n: nat| u.contains(n) implies !#[trigger] depends_on(w, ts[i], n) by {
        if depends_on(w, ts[i], n) {
            assert(later_support(w, ts, i - 1).contains(n));
        }
    }
    lemma_exists_vars_factor(w, x, ts[i], u);
    assert(x.intersect(ts[i]) =~= a.intersect(conj(w, ts.take(i + 1)))) by {
        assert(ts.take(i + 1).drop_last() =~= ts.take(i));
    }
    lemma_exists_vars_compose(w, x.intersect(ts[i]), u, v);
    assert(u.union(v) =~= done_vars(w, ts, base, i + 1)) by {
        assert forall|n: nat| later_support(w, ts, i).contains(n) implies later_support(
            w,
            ts,
            i - 1,
        ).contains(n) by {
            let k = choose|k: int| i < k < ts.len() && #[trigger] depends_on(w, ts[k], n);
        }
    }
}

/// Every part of a relation denotes valuations of the package's width.
proof fn lemma_parts_valuations<B: Bdd>(bs: Seq<B>)
    ensures
        forall|i: int| 0 <= i < bs.len() ==> #[trigger] denotes(bs)[i].subset_of(valuations(B::width())),
{
    assert forall|i: int| 0 <= i < bs.len() implies #[trigger] denotes(bs)[i].subset_of(
        valuations(B::width()),
    ) by {
        bs[i].lemma_wf();
    }
}

impl<BM: BddManager> Trans<BM> {
    /// The predecessors of `state`.
    pub fn pre_image(&self, state: &BM::Bdd) -> (r: BM::Bdd)
        requires
            (self.trans@.len() == 0 || state_set(bm_width::<BM>(), state.denote())),
            self.wf(),
        ensures
            r.denote()
                == pre_of(bm_width::<BM>(), state.denote(), self.parts()),
    {
        let ghost w = bm_width::<BM>();
        let ghost ts = self.parts();
        let ghost base = parity_vars(w, 1);
        proof {
            state.lemma_wf();
            lemma_parts_valuations(self.trans@);
        }
        if self.trans.len() == 1 {
            let r = state.pre_image(&self.trans[0]);
            proof {
                lemma_conj_single(w, ts[0]);
                assert(ts =~= seq![ts[0]]);
            }
            r
        } else {
            let mut res = state.next_state();
            let ghost a = res.denote();
            proof {
                assert(conj(w, ts.take(0)) == valuations(w)) by {
                    assert(ts.take(0) =~= Seq::<Set<Seq<bool>>>::empty());
                }
                assert(a.intersect(valuations(w)) =~= a);
                crate::valuation::lemma_exists_vars_none(w, a);
            }
            let n = self.pre_eliminate.len();
            let mut i: usize = 0;
            while i < n
                invariant
                    self.wf(),
                    w == bm_width::<BM>(),
                    ts == self.parts(),
                    base == parity_vars(w, 1),
                    n == ts.len(),
                    a.subset_of(valuations(w)),
                    forall|k: int| 0 <= k < ts.len() ==> #[trigger] ts[k].subset_of(valuations(w)),
                    i <= n,
                    res.denote() == exists_vars(
                        w,
                        a.intersect(conj(w, ts.take(i as int))),
                        done_vars(w, ts, base, i as int),
                    ),
                decreases n - i,
            {
                proof {
                    lemma_schedule_step(w, ts, base, a, i as int);
                    assert(nat_set(self.pre_eliminate@[i as int]@) == base.difference(
                        later_support(w, ts, i as int),
                    ));
                }
                res = res.and_abstract(&self.trans[i], &self.pre_eliminate[i]);
                i = i + 1;
            }
            proof {
                assert(ts.take(n as int) =~= ts);
                if n > 0 {
                    assert(later_support(w, ts, n - 1) =~= Set::<nat>::empty());
                    assert(done_vars(w, ts, base, n as int) =~= base);
                    if state_set(w, state.denote()) {
                        lemma_pre_by_quantification(w, state.denote(), conj(w, ts));
                    }
                } else {
                    assert(a.intersect(conj(w, ts.take(0))) =~= a);
                }
            }
            res
        }
    }

    /// The successors of `state`.
    pub fn post_image(&self, state: &BM::Bdd) -> (r: BM::Bdd)
        requires
            (self.trans@.len() == 0 || state_set(bm_width::<BM>(), state.denote())),
            self.wf(),
        ensures
            r.denote()
                == post_of(bm_width::<BM>(), state.denote(), self.parts()),
    {
        let ghost w = bm_width::<BM>();
        let ghost ts = self.parts();
        let ghost base = parity_vars(w, 0);
        proof {
            state.lemma_wf();
            lemma_parts_valuations(self.trans@);
        }
        if self.trans.len() == 1 {
            let r = state.post_image(&self.trans[0]);
            proof {
                lemma_conj_single(w, ts[0]);
                assert(ts =~= seq![ts[0]]);
            }
            r
        } else {
            let mut res = state.duplicate();
            let ghost a = res.denote();
            proof {
                assert(conj(w, ts.take(0)) == valuations(w)) by {
                    assert(ts.take(0) =~= Seq::<Set<Seq<bool>>>::empty());
                }
                assert(a.intersect(valuations(w)) =~= a);
                crate::valuation::lemma_exists_vars_none(w, a);
            }
            let n = self.post_eliminate.len();
            let mut i: usize = 0;
            while i < n
                invariant
                    self.wf(),
                    w == bm_width::<BM>(),
                    ts == self.parts(),
                    base == parity_vars(w, 0),
                    n == ts.len(),
                    a.subset_of(valuations(w)),
                    forall|k: int| 0 <= k < ts.len() ==> #[trigger] ts[k].subset_of(valuations(w)),
                    i <= n,
                    res.denote() == exists_vars(
                        w,
                        a.intersect(conj(w, ts.take(i as int))),
                        done_vars(w, ts, base, i as int),
                    ),
                decreases n - i,
            {
                proof {
                    lemma_schedule_step(w, ts, base, a, i as int);
                    assert(nat_set(self.post_eliminate@[i as int]@) == base.difference(
                        later_support(w, ts, i as int),
                    ));
                }
                res = res.and_abstract(&self.trans[i], &self.post_eliminate[i]);
                i = i + 1;
            }
            let r = res.previous_state();
            proof {
                assert(ts.take(n as int) =~= ts);
                if n > 0 {
                    assert(later_support(w, ts, n - 1) =~= Set::<nat>::empty());
                    assert(done_vars(w, ts, base, n as int) =~= base);
                    if state_set(w, state.denote()) {
                        lemma_post_by_quantification(w, state.denote(), conj(w, ts));
                    }
                } else {
                    assert(a.intersect(conj(w, ts.take(0))) =~= a);
                    assert(res.denote() =~= a);
                }
            }
            r
        }
    }
}

/// Each set of a conjunction contains it.
pub proof fn lemma_conj_subset(w: nat, ts: Seq<Set<Seq<bool>>>)
    ensures
        forall|k: int| 0 <= k < ts.len() ==> conj(w, ts).subset_of(#[trigger] ts[k]),
    decreases ts.len(),
{
    if ts.len() > 0 {
        lemma_conj_subset(w, ts.drop_last());
        assert forall|k: int| 0 <= k < ts.len() implies conj(w, ts).subset_of(#[trigger] ts[k]) by {
            if k < ts.len() - 1 {
                assert(ts.drop_last()[k] == ts[k]);
            }
        }
    }
}

/// Copies of the BDDs `bs`.
pub fn duplicate_all<B: Bdd>(bs: &Vec<B>) -> (r: Vec<B>)
    ensures
        denotes(r@) == denotes(bs@),
{
    let mut r: Vec<B> = Vec::new();
    let mut i: usize = 0;
    while i < bs.len()
        invariant
            i <= bs.len(),
            r@.len() == i,
            forall|k: int| 0 <= k < i ==> #[trigger] r@[k].denote() == bs@[k].denote(),
        decreases bs.len() - i,
    {
        r.push(bs[i].duplicate());
        i = i + 1;
    }
    assert(denotes(r@) =~= denotes(bs@));
    r
}

/// Whether some BDD of `bs` is the same function as `b`.
fn contains_bdd<B: Bdd>(bs: &Vec<B>, b: &B) -> (r: bool)
    ensures
        r == exists|k: int| 0 <= k < bs@.len() && #[trigger] bs@[k].denote() == b.denote(),
{
    let mut i: usize = 0;
    while i < bs.len()
        invariant
            i <= bs.len(),
            forall|k: int| 0 <= k < i ==> #[trigger] bs@[k].denote() != b.denote(),
        decreases bs.len() - i,
    {
        if bs[i].equals(b) {
            return true;
        }
        i = i + 1;
    }
    false
}

/// The sets of `s` without repetitions, first occurrences kept in order.
pub open spec fn distinct_sets(s: Seq<Set<Seq<bool>>>) -> Seq<Set<Seq<bool>>>
    decreases s.len(),
{
    if s.len() == 0 {
        Seq::empty()
    } else {
        let r = distinct_sets(s.drop_last());
        if r.contains(s.last()) {
            r
        } else {
            r.push(s.last())
        }
    }
}

/// A sequence without its repetitions holds each set once.
proof fn lemma_distinct_sets_no_duplicates(s: Seq<Set<Seq<bool>>>)
    ensures
        distinct_sets(s).no_duplicates(),
    decreases s.len(),
{
    if s.len() > 0 {
        lemma_distinct_sets_no_duplicates(s.drop_last());
        let r = distinct_sets(s.drop_last());
        if !r.contains(s.last()) {
            let r2 = r.push(s.last());
            assert forall|i: int, j: int| 0 <= i < r2.len() && 0 <= j < r2.len() && i != j implies r2[i] != r2[j] by {
                if i < r.len() && j < r.len() {
                } else if i < r.len() {
                    assert(r.contains(r2[i]));
                } else {
                    assert(r.contains(r2[j]));
                }
            }
        }
    }
}

/// The parts `trans` without repetitions of the same function, first
/// occurrences kept in order.
fn dedup_parts<B: Bdd>(trans: Vec<B>) -> (r: Vec<B>)
    ensures
        conj(B::width(), denotes(r@)) == conj(B::width(), denotes(trans@)),
        denotes(r@) == distinct_sets(denotes(trans@)),
        r@.len() <= trans@.len(),
{
    let ghost w = B::width();
    let mut r: Vec<B> = Vec::new();
    let mut i: usize = 0;
    while i < trans.len()
        invariant
            w == B::width(),
            i <= trans.len(),
            conj(w, denotes(r@)) == conj(w, denotes(trans@.take(i as int))),
            denotes(r@) == distinct_sets(denotes(trans@.take(i as int))),
            r@.len() <= i,
        decreases trans.len() - i,
    {
        let ghost old_r = r@;
        assert(denotes(trans@.take(i + 1)).drop_last() =~= denotes(trans@.take(i as int)));
        assert(denotes(trans@.take(i + 1)).last() == trans@[i as int].denote());
        if !contains_bdd(&r, &trans[i]) {
            proof {
                if denotes(old_r).contains(trans@[i as int].denote()) {
                    let k = choose|k: int| 0 <= k < denotes(old_r).len() && denotes(old_r)[k] == trans@[i as int].denote();
                    assert(old_r[k].denote() == trans@[i as int].denote());
                }
            }
            r.push(trans[i].duplicate());
            assert(denotes(r@).drop_last() =~= denotes(old_r));
            assert(denotes(r@) =~= denotes(old_r).push(trans@[i as int].denote()));
        } else {
            proof {
                let k = choose|k: int| 0 <= k < r@.len() && #[trigger] r@[k].denote() == trans@[i as int].denote();
                assert(denotes(old_r)[k] == trans@[i as int].denote());
                assert(denotes(old_r).contains(trans@[i as int].denote()));
                lemma_conj_subset(w, denotes(r@));
                assert(denotes(r@)[k] == r@[k].denote());
                assert(conj(w, denotes(r@)).intersect(trans@[i as int].denote()) =~= conj(w, denotes(r@)));
            }
        }
        i = i + 1;
    }
    assert(trans@.take(i as int) =~= trans@);
    r
}

impl<BM: BddManager> Trans<BM> {
    /// The synchronous product: the conjunction of the two relations.
    pub fn product(&self, other: &Self) -> (r: Self)
        requires
            self.manager == other.manager,
        ensures
            r.wf(),
            r.manager == self.manager,
            r.relation() == self.relation().intersect(other.relation()),
            r.trans@.len() == (if self.trans@.len() == 1 && other.trans@.len() == 1 {
                1
            } else {
                self.trans@.len() + other.trans@.len()
            }),
    {
        let ghost w = bm_width::<BM>();
        let trans = if self.trans.len() == 1 && other.trans.len() == 1 {
            let t = self.trans[0].and(&other.trans[0]);
            proof {
                self.trans@[0].lemma_wf();
                other.trans@[0].lemma_wf();
                lemma_conj_single(w, self.parts()[0]);
                lemma_conj_single(w, other.parts()[0]);
                assert(self.parts() =~= seq![self.parts()[0]]);
                assert(other.parts() =~= seq![other.parts()[0]]);
                t.lemma_wf();
                lemma_conj_single(w, t.denote());
            }
            let v = vec![t];
            proof {
                assert(denotes(v@) =~= seq![t.denote()]);
                assert(conj(w, denotes(v@)) == self.relation().intersect(other.relation()));
            }
            v
        } else {
            let mut trans = duplicate_all(&self.trans);
            let mut rest = duplicate_all(&other.trans);
            trans.append(&mut rest);
            proof {
                assert(denotes(trans@) =~= self.parts() + other.parts());
                lemma_conj_append(w, self.parts(), other.parts());
                assert(conj(w, denotes(trans@)) == self.relation().intersect(other.relation()));
            }
            trans
        };
        assert(conj(w, denotes(trans@)) == self.relation().intersect(other.relation()));
        Self::build(&self.manager, trans)
    }

    /// The same relation, its parts held by `manager`.
    pub fn clone_with_new_manager(&self, manager: &BM) -> (r: Self)
        requires
            self.wf(),
        ensures
            r.wf(),
            r.parts() == self.parts(),
            r.manager == *manager,
    {
        let mut trans: Vec<BM::Bdd> = Vec::new();
        let mut i: usize = 0;
        while i < self.trans.len()
            invariant
                i <= self.trans.len(),
                trans@.len() == i,
                forall|k: int| 0 <= k < i ==> #[trigger] trans@[k].denote() == self.trans@[k].denote(),
            decreases self.trans.len() - i,
        {
            trans.push(manager.translocate(&self.trans[i]));
            i = i + 1;
        }
        assert(denotes(trans@) =~= denotes(self.trans@));
        let pre_eliminate = copy_schedule(&self.pre_eliminate);
        let post_eliminate = copy_schedule(&self.post_eliminate);
        Trans { manager: manager.duplicate(), trans, pre_eliminate, post_eliminate }
    }
}

/// A copy of a schedule.
fn copy_schedule(s: &Vec<Vec<usize>>) -> (r: Vec<Vec<usize>>)
    ensures
        r@.len() == s@.len(),
        forall|j: int| 0 <= j < s@.len() ==> #[trigger] r@[j]@ == s@[j]@,
{
    let mut r: Vec<Vec<usize>> = Vec::new();
    let mut i: usize = 0;
    while i < s.len()
        invariant
            i <= s.len(),
            r@.len() == i,
            forall|j: int| 0 <= j < i ==> #[trigger] r@[j]@ == s@[j]@,
        decreases s.len() - i,
    {
        r.push(copy_vars(&s[i]));
        i = i + 1;
    }
    r
}

/// The conjunction of the sets `ts[k]` whose flag `fl[k]` is set.
pub open spec fn live_conj(w: nat, ts: Seq<Set<Seq<bool>>>, fl: Seq<bool>) -> Set<Seq<bool>>
    decreases ts.len(),
{
    if ts.len() == 0 || fl.len() == 0 {
        valuations(w)
    } else {
        live_conj(w, ts.drop_last(), fl.drop_last()).intersect(
            if fl.last() {
                ts.last()
            } else {
                valuations(w)
            },
        )
    }
}

/// The number of set flags.
pub open spec fn count_true(fl: Seq<bool>) -> nat
    decreases fl.len(),
{
    if fl.len() == 0 {
        0
    } else {
        count_true(fl.drop_last()) + if fl.last() {
            1nat
        } else {
            0nat
        }
    }
}

proof fn lemma_live_conj_valuations(w: nat, ts: Seq<Set<Seq<bool>>>, fl: Seq<bool>)
    ensures
        live_conj(w, ts, fl).subset_of(valuations(w)),
    decreases ts.len(),
{
    if ts.len() > 0 && fl.len() > 0 {
        lemma_live_conj_valuations(w, ts.drop_last(), fl.drop_last());
    }
}

/// Setting flag `x` adds `ts[x]` to the conjunction; clearing it removes it.
proof fn lemma_live_conj_update(w: nat, ts: Seq<Set<Seq<bool>>>, fl: Seq<bool>, x: int)
    requires
        ts.len() == fl.len(),
        0 <= x < ts.len(),
    ensures
        live_conj(w, ts, fl.update(x, true)) == live_conj(w, ts, fl.update(x, false)).intersect(ts[x]),
        count_true(fl.update(x, true)) == count_true(fl.update(x, false)) + 1,
    decreases ts.len(),
{
    let n = ts.len();
    if x == n - 1 {
        assert(fl.update(x, true).drop_last() =~= fl.drop_last());
        assert(fl.update(x, false).drop_last() =~= fl.drop_last());
        lemma_live_conj_valuations(w, ts.drop_last(), fl.drop_last());
        assert(live_conj(w, ts, fl.update(x, true)) =~= live_conj(w, ts, fl.update(x, false)).intersect(
            ts[x],
        ));
    } else {
        lemma_live_conj_update(w, ts.drop_last(), fl.drop_last(), x);
        assert(fl.update(x, true).drop_last() =~= fl.drop_last().update(x, true));
        assert(fl.update(x, false).drop_last() =~= fl.drop_last().update(x, false));
        assert(live_conj(w, ts, fl.update(x, true)) =~= live_conj(w, ts, fl.update(x, false)).intersect(
            ts[x],
        ));
    }
}

/// Appending a set with its flag.
proof fn lemma_live_conj_push(w: nat, ts: Seq<Set<Seq<bool>>>, fl: Seq<bool>, t: Set<Seq<bool>>, b: bool)
    requires
        ts.len() == fl.len(),
    ensures
        live_conj(w, ts.push(t), fl.push(b)) == live_conj(w, ts, fl).intersect(
            if b {
                t
            } else {
                valuations(w)
            },
        ),
        count_true(fl.push(b)) == count_true(fl) + if b {
            1nat
        } else {
            0nat
        },
{
    assert(ts.push(t).drop_last() =~= ts);
    assert(fl.push(b).drop_last() =~= fl);
}

/// With no flag set, the conjunction is everything.
proof fn lemma_live_conj_none(w: nat, ts: Seq<Set<Seq<bool>>>, fl: Seq<bool>)
    requires
        ts.len() == fl.len(),
        forall|k: int| 0 <= k < fl.len() ==> !#[trigger] fl[k],
    ensures
        live_conj(w, ts, fl) == valuations(w),
        count_true(fl) == 0,
    decreases ts.len(),
{
    if ts.len() > 0 {
        lemma_live_conj_none(w, ts.drop_last(), fl.drop_last());
        assert(!fl[fl.len() - 1]);
    }
}

/// The variables that `s` depends on.
pub open spec fn support(w: nat, s: Set<Seq<bool>>) -> Set<nat> {
    Set::new(|v: nat| depends_on(w, s, v))
}

proof fn lemma_nat_set_push(s: Seq<usize>, x: usize)
    ensures
        nat_set(s.push(x)) == nat_set(s).insert(x as nat),
{
    assert forall|v: nat| nat_set(s.push(x)).contains(v) implies nat_set(s).insert(x as nat).contains(v) by {
        let i = choose|i: int| 0 <= i < s.push(x).len() && s.push(x)[i] as nat == v;
        if i < s.len() {
            assert(s[i] as nat == v);
        }
    }
    assert forall|v: nat| nat_set(s).insert(x as nat).contains(v) implies nat_set(s.push(x)).contains(v) by {
        if v == x as nat {
            assert(s.push(x)[s.len() as int] as nat == v);
        } else {
            let i = choose|i: int| 0 <= i < s.len() && s[i] as nat == v;
            assert(s.push(x)[i] as nat == v);
        }
    }
    assert(nat_set(s.push(x)) =~= nat_set(s).insert(x as nat));
}

proof fn lemma_nat_set_contains(s: Seq<usize>, x: usize)
    ensures
        nat_set(s).contains(x as nat) == s.contains(x),
{
    if s.contains(x) {
        let i = choose|i: int| 0 <= i < s.len() && s[i] == x;
        assert(s[i] as nat == x as nat);
    }
}

/// A sequence without repeats holds as many numbers as it is long.
proof fn lemma_nat_set_len(s: Seq<usize>)
    requires
        s.no_duplicates(),
    ensures
        nat_set(s).finite(),
        nat_set(s).len() == s.len(),
    decreases s.len(),
{
    if s.len() == 0 {
        assert(nat_set(s) =~= Set::<nat>::empty());
    } else {
        let t = s.drop_last();
        assert(t.no_duplicates()) by {
            assert forall|i: int, j: int| 0 <= i < t.len() && 0 <= j < t.len() && i != j implies t[i] != t[j] by {
                assert(t[i] == s[i] && t[j] == s[j]);
            }
        }
        lemma_nat_set_len(t);
        assert(t.push(s.last()) =~= s);
        lemma_nat_set_push(t, s.last());
        lemma_nat_set_contains(t, s.last());
        assert(!t.contains(s.last())) by {
            if t.contains(s.last()) {
                let i = choose|i: int| 0 <= i < t.len() && t[i] == s.last();
                assert(s[i] == s[s.len() - 1]);
            }
        }
    }
}

/// The number of variables that both `a` and `b` depend on, and the number
/// that either depends on.
fn compute_affinity<B: Bdd>(a: &B, b: &B) -> (r: (usize, usize))
    ensures
        r.0 == support(B::width(), a.denote()).intersect(support(B::width(), b.denote())).len(),
        r.1 == support(B::width(), a.denote()).union(support(B::width(), b.denote())).len(),
{
    let sa = a.support_index();
    let sb = b.support_index();
    let ghost na = nat_set(sa@);
    let ghost nb = nat_set(sb@);
    let mut union: Vec<usize> = Vec::new();
    let mut inter: usize = 0;
    let mut i: usize = 0;
    proof {
        assert(nat_set(union@) =~= Set::<nat>::empty());
        assert(nat_set(sa@.take(0)) =~= Set::<nat>::empty());
        assert(nat_set(union@).intersect(nb) =~= Set::<nat>::empty());
    }
    while i < sa.len()
        invariant
            i <= sa.len(),
            na == nat_set(sa@),
            nb == nat_set(sb@),
            union@.no_duplicates(),
            nat_set(union@) == nat_set(sa@.take(i as int)),
            inter == nat_set(union@).intersect(nb).len(),
            inter <= union@.len(),
        decreases sa.len() - i,
    {
        let ghost u0 = union@;
        let x = sa[i];
        proof {
            assert(sa@.take(i + 1) =~= sa@.take(i as int).push(x));
            lemma_nat_set_push(sa@.take(i as int), x);
            lemma_nat_set_len(u0);
            lemma_nat_set_contains(u0, x);
            lemma_nat_set_contains(sb@, x);
        }
        if !vec_contains(&union, x) {
            union.push(x);
            proof {
                lemma_nat_set_push(u0, x);
                assert(union@.no_duplicates()) by {
                    assert forall|p: int, q: int| 0 <= p < union@.len() && 0 <= q < union@.len() && p != q
                        implies union@[p] != union@[q] by {
                        if p < u0.len() && q < u0.len() {
                            assert(union@[p] == u0[p] && union@[q] == u0[q]);
                        } else if p < u0.len() {
                            assert(u0.contains(union@[p]));
                        } else {
                            assert(u0.contains(union@[q]));
                        }
                    }
                }
            }
            let len = union.len();
            if vec_contains(&sb, x) {
                proof {
                    assert(nat_set(union@).intersect(nb) =~= nat_set(u0).intersect(nb).insert(x as nat));
                }
                assert(inter < len);
                inter = inter + 1;
            } else {
                proof {
                    assert(nat_set(union@).intersect(nb) =~= nat_set(u0).intersect(nb));
                }
            }
        }
        i = i + 1;
    }
    proof {
        assert(sa@.take(i as int) =~= sa@);
        assert(nat_set(sb@.take(0)) =~= Set::<nat>::empty());
        assert(na.union(nat_set(sb@.take(0))) =~= na);
    }
    let mut j: usize = 0;
    while j < sb.len()
        invariant
            j <= sb.len(),
            na == nat_set(sa@),
            nb == nat_set(sb@),
            union@.no_duplicates(),
            nat_set(union@) == na.union(nat_set(sb@.take(j as int))),
            inter == na.intersect(nb).len(),
        decreases sb.len() - j,
    {
        let ghost u0 = union@;
        let x = sb[j];
        proof {
            assert(sb@.take(j + 1) =~= sb@.take(j as int).push(x));
            lemma_nat_set_push(sb@.take(j as int), x);
            lemma_nat_set_contains(u0, x);
            assert(na.union(nat_set(sb@.take(j + 1))) =~= na.union(nat_set(sb@.take(j as int))).insert(x as nat));
        }
        if !vec_contains(&union, x) {
            union.push(x);
            proof {
                lemma_nat_set_push(u0, x);
                assert(union@.no_duplicates()) by {
                    assert forall|p: int, q: int| 0 <= p < union@.len() && 0 <= q < union@.len() && p != q
                        implies union@[p] != union@[q] by {
                        if p < u0.len() && q < u0.len() {
                            assert(union@[p] == u0[p] && union@[q] == u0[q]);
                        } else if p < u0.len() {
                            assert(u0.contains(union@[p]));
                        } else {
                            assert(u0.contains(union@[q]));
                        }
                    }
                }
            }
        } else {
            proof {
                assert(nat_set(u0).insert(x as nat) =~= nat_set(u0));
            }
        }
        j = j + 1;
    }
    proof {
        assert(sb@.take(j as int) =~= sb@);
        lemma_nat_set_len(union@);
    }
    (inter, union.len())
}

/// Whether the entry `a` comes out of the queue before `b`: the greater
/// affinity `a.0 / a.1` first (the two ratios compared by cross
/// multiplication), then the greater first index, then the greater second
/// index.
pub open spec fn entry_before(a: (usize, usize, usize, usize), b: (usize, usize, usize, usize)) -> bool {
    let l = a.0 * b.1;
    let r = b.0 * a.1;
    if l != r {
        l > r
    } else if a.2 != b.2 {
        a.2 > b.2
    } else {
        a.3 > b.3
    }
}

proof fn lemma_ratio_trans(a0: int, a1: int, b0: int, b1: int, c0: int, c1: int)
    requires
        a1 > 0,
        b1 > 0,
        c1 > 0,
        a0 * b1 >= b0 * a1,
        b0 * c1 >= c0 * b1,
    ensures
        a0 * c1 >= c0 * a1,
        a0 * c1 == c0 * a1 ==> a0 * b1 == b0 * a1 && b0 * c1 == c0 * b1,
{
    assert(a0 * b1 * c1 >= b0 * a1 * c1) by (nonlinear_arith)
        requires a0 * b1 >= b0 * a1, c1 > 0;
    assert(b0 * c1 * a1 >= c0 * b1 * a1) by (nonlinear_arith)
        requires b0 * c1 >= c0 * b1, a1 > 0;
    assert(b0 * a1 * c1 == b0 * c1 * a1) by (nonlinear_arith);
    assert(a0 * b1 * c1 == b1 * (a0 * c1) && c0 * b1 * a1 == b1 * (c0 * a1)) by (nonlinear_arith);
    assert(a0 * c1 >= c0 * a1) by (nonlinear_arith)
        requires b1 * (a0 * c1) >= b1 * (c0 * a1), b1 > 0;
    if a0 * c1 == c0 * a1 {
        assert(a0 * b1 * c1 == b0 * a1 * c1);
        assert(a0 * b1 == b0 * a1) by (nonlinear_arith)
            requires a0 * b1 * c1 == b0 * a1 * c1, c1 > 0;
        assert(b0 * c1 * a1 == c0 * b1 * a1);
        assert(b0 * c1 == c0 * b1) by (nonlinear_arith)
            requires b0 * c1 * a1 == c0 * b1 * a1, a1 > 0;
    }
}

/// Coming out first is transitive among entries with a positive union.
proof fn lemma_entry_before_trans(
    a: (usize, usize, usize, usize),
    b: (usize, usize, usize, usize),
    c: (usize, usize, usize, usize),
)
    requires
        a.1 > 0,
        b.1 > 0,
        c.1 > 0,
        entry_before(a, b),
        entry_before(b, c),
    ensures
        entry_before(a, c),
{
    lemma_ratio_trans(a.0 as int, a.1 as int, b.0 as int, b.1 as int, c.0 as int, c.1 as int);
}

/// Whether the entry `a` comes out of the queue before `b`.
fn entry_greater(a: (usize, usize, usize, usize), b: (usize, usize, usize, usize)) -> (r: bool)
    ensures
        r == entry_before(a, b),
{
    let (ai, au, ax, ay) = a;
    let (bi, bu, bx, by) = b;
    assert((ai as u128) * (bu as u128) <= 0xffff_ffff_ffff_ffff_ffff_ffff_ffff_ffffu128) by (nonlinear_arith)
        requires ai <= usize::MAX, bu <= usize::MAX, usize::MAX <= 0xffff_ffff_ffff_ffffu64;
    assert((bi as u128) * (au as u128) <= 0xffff_ffff_ffff_ffff_ffff_ffff_ffff_ffffu128) by (nonlinear_arith)
        requires bi <= usize::MAX, au <= usize::MAX, usize::MAX <= 0xffff_ffff_ffff_ffffu64;
    let l = (ai as u128) * (bu as u128);
    let r = (bi as u128) * (au as u128);
    if l != r {
        l > r
    } else if ax != bx {
        ax > bx
    } else {
        ay > by
    }
}

/// The position of the entry that comes out of the queue first: no entry
/// comes out before it.
fn queue_top(q: &Vec<(usize, usize, usize, usize)>) -> (r: usize)
    requires
        q@.len() > 0,
        forall|k: int| 0 <= k < q@.len() ==> (#[trigger] q@[k]).1 > 0,
    ensures
        r < q@.len(),
        forall|k: int| 0 <= k < q@.len() ==> !entry_before(#[trigger] q@[k], q@[r as int]),
{
    let mut best: usize = 0;
    let mut i: usize = 1;
    while i < q.len()
        invariant
            best < i <= q@.len(),
            forall|k: int| 0 <= k < q@.len() ==> (#[trigger] q@[k]).1 > 0,
            forall|k: int| 0 <= k < i ==> !entry_before(#[trigger] q@[k], q@[best as int]),
        decreases q@.len() - i,
    {
        if entry_greater(q[i], q[best]) {
            proof {
                assert forall|k: int| 0 <= k < i + 1 implies !entry_before(#[trigger] q@[k], q@[i as int]) by {
                    if k < i && entry_before(q@[k], q@[i as int]) {
                        lemma_entry_before_trans(q@[k], q@[i as int], q@[best as int]);
                    }
                }
            }
            best = i;
        }
        i = i + 1;
    }
    best
}

/// What a step of the grouping keeps true: the parts set aside and the live
/// parts conjoin to the relation, the flags match the parts, and every entry
/// names two parts, the first below the second.
pub open spec fn grouping_inv<B: Bdd>(
    c0: Set<Seq<bool>>,
    res: Seq<B>,
    parts: Seq<B>,
    live: Seq<bool>,
    queue: Seq<(usize, usize, usize, usize)>,
) -> bool {
    &&& parts.len() == live.len()
    &&& conj(B::width(), denotes(res)).intersect(live_conj(B::width(), denotes(parts), live)) == c0
    &&& forall|k: int| 0 <= k < queue.len() ==> entry_ok(B::width(), denotes(parts), #[trigger] queue[k])
}

/// An entry of the queue names two parts, the first below the second, has a
/// positive union, and one of its parts is not every valuation.
pub open spec fn entry_ok(w: nat, ps: Seq<Set<Seq<bool>>>, e: (usize, usize, usize, usize)) -> bool {
    &&& e.2 < e.3 < ps.len()
    &&& e.1 > 0
    &&& (ps[e.2 as int] != valuations(w) || ps[e.3 as int] != valuations(w))
}

/// The variables below `w`.
proof fn lemma_vars_below_finite(w: nat)
    ensures
        Set::new(|v: nat| v < w).finite(),
    decreases w,
{
    if w == 0 {
        assert(Set::new(|v: nat| v < w) =~= Set::<nat>::empty());
    } else {
        lemma_vars_below_finite((w - 1) as nat);
        assert(Set::new(|v: nat| v < w) =~= Set::new(|v: nat| v < (w - 1) as nat).insert((w - 1) as nat));
    }
}

proof fn lemma_support_finite(w: nat, s: Set<Seq<bool>>)
    ensures
        support(w, s).finite(),
{
    lemma_vars_below_finite(w);
    vstd::set_lib::lemma_set_subset_finite(Set::new(|v: nat| v < w), support(w, s));
}

/// Every valuation: a set that depends on no variable.
proof fn lemma_support_valuations(w: nat)
    ensures
        support(w, valuations(w)) == Set::<nat>::empty(),
{
    assert forall|v: nat| !support(w, valuations(w)).contains(v) by {
        if depends_on(w, valuations(w), v) {
            let a = choose|a: Seq<bool>| a.len() == w && valuations(w).contains(a) != valuations(w).contains(
                #[trigger] flip(a, v),
            );
            assert(flip(a, v).len() == w);
        }
    }
    assert(support(w, valuations(w)) =~= Set::<nat>::empty());
}

/// A set of valuations that depends on no variable and holds somewhere holds
/// everywhere.
proof fn lemma_no_support_full(w: nat, s: Set<Seq<bool>>, c: Seq<bool>)
    requires
        s.subset_of(valuations(w)),
        s.contains(c),
        support(w, s) == Set::<nat>::empty(),
    ensures
        s == valuations(w),
{
    assert(independent(w, s, Set::<nat>::full())) by {
        assert forall|v: nat| Set::<nat>::full().contains(v) implies !#[trigger] depends_on(w, s, v) by {
            assert(!support(w, s).contains(v));
        }
    }
    assert forall|b: Seq<bool>| valuations(w).contains(b) implies s.contains(b) by {
        assert(agree_outside(c, b, Set::<nat>::full()));
        lemma_independent_agree(w, s, Set::<nat>::full(), c, b);
    }
    assert(s =~= valuations(w));
}

/// A union of supports of size zero: neither set depends on a variable.
proof fn lemma_empty_union(w: nat, s: Set<Seq<bool>>, t: Set<Seq<bool>>)
    requires
        support(w, s).union(support(w, t)).len() == 0,
    ensures
        support(w, s) == Set::<nat>::empty(),
        support(w, t) == Set::<nat>::empty(),
{
    lemma_support_finite(w, s);
    lemma_support_finite(w, t);
    vstd::set_lib::lemma_set_empty_equivalency_len(support(w, s).union(support(w, t)));
    assert forall|v: nat| !support(w, s).contains(v) && !support(w, t).contains(v) by {
        assert(!support(w, s).union(support(w, t)).contains(v));
    }
    assert(support(w, s) =~= Set::<nat>::empty());
    assert(support(w, t) =~= Set::<nat>::empty());
}


proof fn lemma_conj_push(w: nat, ts: Seq<Set<Seq<bool>>>, t: Set<Seq<bool>>)
    ensures
        conj(w, ts.push(t)) == conj(w, ts).intersect(t),
{
    assert(ts.push(t).drop_last() =~= ts);
}

/// The valuations of `w` variables that lie in every input `ins[j]` with
/// `j` in `g`: the conjunction of a group of inputs.
pub open spec fn group_conj(w: nat, ins: Seq<Set<Seq<bool>>>, g: Set<int>) -> Set<Seq<bool>> {
    Set::new(|a: Seq<bool>| a.len() == w && forall|j: int| #[trigger] g.contains(j) ==> ins[j].contains(a))
}

/// `g` splits the indices of `ins` into non-empty groups, one for each set
/// of `outs`, and each set of `outs` is the conjunction of its group.
pub open spec fn grouped(w: nat, ins: Seq<Set<Seq<bool>>>, outs: Seq<Set<Seq<bool>>>, g: Seq<Set<int>>) -> bool {
    &&& g.len() == outs.len()
    &&& forall|k: int| 0 <= k < g.len() ==> #[trigger] g[k] != Set::<int>::empty() && outs[k] == group_conj(w, ins, g[k])
    &&& forall|k: int, j: int| 0 <= k < g.len() && #[trigger] g[k].contains(j) ==> 0 <= j < ins.len()
    &&& forall|k1: int, k2: int, j: int|
        0 <= k1 < g.len() && 0 <= k2 < g.len() && #[trigger] g[k1].contains(j) && #[trigger] g[k2].contains(j) ==> k1 == k2
    &&& forall|j: int| 0 <= j < ins.len() ==> #[trigger] in_some_group(g, j)
}

/// Some group of `g` holds `j`.
pub open spec fn in_some_group(g: Seq<Set<int>>, j: int) -> bool {
    exists|k: int| 0 <= k < g.len() && #[trigger] g[k].contains(j)
}

/// Two disjoint non-empty groups of the `n` inputs.
pub open spec fn groups_apart(n: int, g1: Set<int>, g2: Set<int>) -> bool {
    &&& g1 != Set::<int>::empty()
    &&& g2 != Set::<int>::empty()
    &&& g1.disjoint(g2)
    &&& forall|j: int| #[trigger] g1.contains(j) ==> 0 <= j < n
    &&& forall|j: int| #[trigger] g2.contains(j) ==> 0 <= j < n
}

/// Two disjoint non-empty groups of the inputs conjoin to sets that depend
/// on no variable.
pub open spec fn constant_groups(w: nat, ins: Seq<Set<Seq<bool>>>) -> bool {
    exists|g1: Set<int>, g2: Set<int>|
        groups_apart(ins.len() as int, g1, g2) && support(w, #[trigger] group_conj(w, ins, g1)) == Set::<nat>::empty()
            && support(w, #[trigger] group_conj(w, ins, g2)) == Set::<nat>::empty()
}

/// Where input `j` stands: set aside in part `o` of the result (`o >= 0`),
/// or in the live part `-o - 1`.
pub open spec fn own_ok(rg: Seq<Set<int>>, gr: Seq<Set<int>>, live: Seq<bool>, o: int, j: int) -> bool {
    if o >= 0 {
        o < rg.len() && rg[o].contains(j)
    } else {
        -o - 1 < gr.len() && live[-o - 1] && gr[-o - 1].contains(j)
    }
}

/// The groups of the grouping so far: the first `m` inputs have been taken;
/// `rg` gives the group of each part set aside (`res`), `gr` that of each
/// part (`ps`), and `own` for each input taken the one part set aside or
/// live part whose group holds it.
pub open spec fn owned(
    w: nat,
    ins: Seq<Set<Seq<bool>>>,
    m: int,
    res: Seq<Set<Seq<bool>>>,
    rg: Seq<Set<int>>,
    ps: Seq<Set<Seq<bool>>>,
    gr: Seq<Set<int>>,
    live: Seq<bool>,
    own: Seq<int>,
) -> bool {
    &&& rg.len() == res.len()
    &&& gr.len() == ps.len()
    &&& live.len() == ps.len()
    &&& own.len() == m
    &&& m <= ins.len()
    &&& forall|k: int| 0 <= k < res.len() ==> #[trigger] res[k] == group_conj(w, ins, rg[k]) && rg[k] != Set::<int>::empty()
    &&& forall|k: int| 0 <= k < ps.len() ==> #[trigger] ps[k] == group_conj(w, ins, gr[k]) && gr[k] != Set::<int>::empty()
    &&& forall|k: int, j: int| 0 <= k < rg.len() && #[trigger] rg[k].contains(j) ==> 0 <= j < m && own[j] == k
    &&& forall|k: int, j: int|
        0 <= k < gr.len() && #[trigger] gr[k].contains(j) ==> 0 <= j < m && (live[k] ==> own[j] == -k - 1)
    &&& forall|j: int| 0 <= j < m ==> #[trigger] own_ok(rg, gr, live, own[j], j)
}

/// `own` with the inputs of `g` moved to `c`.
pub open spec fn relabel(own: Seq<int>, g: Set<int>, c: int) -> Seq<int> {
    Seq::new(own.len(), |j: int| if g.contains(j) { c } else { own[j] })
}

proof fn lemma_group_single(w: nat, ins: Seq<Set<Seq<bool>>>, i: int)
    requires
        0 <= i < ins.len(),
        ins[i].subset_of(valuations(w)),
    ensures
        group_conj(w, ins, Set::<int>::empty().insert(i)) == ins[i],
        Set::<int>::empty().insert(i) != Set::<int>::empty(),
{
    let g = Set::<int>::empty().insert(i);
    assert(g.contains(i));
    assert forall|v: Seq<bool>| ins[i].contains(v) implies group_conj(w, ins, g).contains(v) by {
        assert(valuations(w).contains(v));
        assert forall|j: int| #[trigger] g.contains(j) implies ins[j].contains(v) by {
            assert(j == i);
        }
    }
    assert forall|v: Seq<bool>| group_conj(w, ins, g).contains(v) implies ins[i].contains(v) by {
        assert(g.contains(i));
    }
    assert(group_conj(w, ins, g) =~= ins[i]);
}

proof fn lemma_group_union(w: nat, ins: Seq<Set<Seq<bool>>>, a: Set<int>, b: Set<int>)
    ensures
        group_conj(w, ins, a.union(b)) == group_conj(w, ins, a).intersect(group_conj(w, ins, b)),
{
    assert forall|v: Seq<bool>| group_conj(w, ins, a).intersect(group_conj(w, ins, b)).contains(v) implies group_conj(w, ins, a.union(b)).contains(v) by {
        assert forall|j: int| #[trigger] a.union(b).contains(j) implies ins[j].contains(v) by {
            if a.contains(j) {
            } else {
                assert(b.contains(j));
            }
        }
    }
    assert forall|v: Seq<bool>| group_conj(w, ins, a.union(b)).contains(v) implies group_conj(w, ins, a).intersect(group_conj(w, ins, b)).contains(v) by {
        assert forall|j: int| #[trigger] a.contains(j) implies ins[j].contains(v) by {
            assert(a.union(b).contains(j));
        }
        assert forall|j: int| #[trigger] b.contains(j) implies ins[j].contains(v) by {
            assert(a.union(b).contains(j));
        }
    }
    assert(group_conj(w, ins, a.union(b)) =~= group_conj(w, ins, a).intersect(group_conj(w, ins, b)));
}

/// Taking input `m`: set aside (`big`) or as a new live part.
proof fn lemma_owned_take(
    w: nat,
    ins: Seq<Set<Seq<bool>>>,
    m: int,
    res: Seq<Set<Seq<bool>>>,
    rg: Seq<Set<int>>,
    ps: Seq<Set<Seq<bool>>>,
    gr: Seq<Set<int>>,
    live: Seq<bool>,
    own: Seq<int>,
    big: bool,
)
    requires
        owned(w, ins, m, res, rg, ps, gr, live, own),
        m < ins.len(),
        ins[m].subset_of(valuations(w)),
    ensures
        big ==> owned(w, ins, m + 1, res.push(ins[m]), rg.push(Set::<int>::empty().insert(m)), ps.push(ins[m]),
            gr.push(Set::<int>::empty().insert(m)), live.push(false), own.push(res.len() as int)),
        !big ==> owned(w, ins, m + 1, res, rg, ps.push(ins[m]), gr.push(Set::<int>::empty().insert(m)), live.push(true),
            own.push(-(ps.len() as int) - 1)),
{
    lemma_group_single(w, ins, m);
    let g = Set::<int>::empty().insert(m);
    if big {
        let res2 = res.push(ins[m]);
        let rg2 = rg.push(g);
        let ps2 = ps.push(ins[m]);
        let gr2 = gr.push(g);
        let l2 = live.push(false);
        let o2 = own.push(res.len() as int);
        assert forall|k: int| 0 <= k < res2.len() implies #[trigger] res2[k] == group_conj(w, ins, rg2[k]) && rg2[k] != Set::<int>::empty() by {
            if k < res.len() { assert(res[k] == group_conj(w, ins, rg[k])); }
        }
        assert forall|k: int| 0 <= k < ps2.len() implies #[trigger] ps2[k] == group_conj(w, ins, gr2[k]) && gr2[k] != Set::<int>::empty() by {
            if k < ps.len() { assert(ps[k] == group_conj(w, ins, gr[k])); }
        }
        assert forall|k: int, j: int| 0 <= k < rg2.len() && #[trigger] rg2[k].contains(j) implies 0 <= j < m + 1 && o2[j] == k by {
            if k < rg.len() { assert(rg[k].contains(j)); }
        }
        assert forall|k: int, j: int| 0 <= k < gr2.len() && #[trigger] gr2[k].contains(j) implies 0 <= j < m + 1 && (l2[k] ==> o2[j] == -k - 1) by {
            if k < gr.len() { assert(gr[k].contains(j)); }
        }
        assert forall|j: int| 0 <= j < m + 1 implies #[trigger] own_ok(rg2, gr2, l2, o2[j], j) by {
            if j < m {
                assert(own_ok(rg, gr, live, own[j], j));
            }
        }
    } else {
        let ps2 = ps.push(ins[m]);
        let gr2 = gr.push(g);
        let l2 = live.push(true);
        let o2 = own.push(-(ps.len() as int) - 1);
        assert forall|k: int| 0 <= k < ps2.len() implies #[trigger] ps2[k] == group_conj(w, ins, gr2[k]) && gr2[k] != Set::<int>::empty() by {
            if k < ps.len() { assert(ps[k] == group_conj(w, ins, gr[k])); }
        }
        assert forall|k: int, j: int| 0 <= k < rg.len() && #[trigger] rg[k].contains(j) implies 0 <= j < m + 1 && o2[j] == k by {
        }
        assert forall|k: int, j: int| 0 <= k < gr2.len() && #[trigger] gr2[k].contains(j) implies 0 <= j < m + 1 && (l2[k] ==> o2[j] == -k - 1) by {
            if k < gr.len() { assert(gr[k].contains(j)); }
        }
        assert forall|j: int| 0 <= j < m + 1 implies #[trigger] own_ok(rg, gr2, l2, o2[j], j) by {
            if j < m {
                assert(own_ok(rg, gr, live, own[j], j));
            }
        }
    }
}

/// Two live parts have disjoint groups.
proof fn lemma_owned_apart(
    w: nat,
    ins: Seq<Set<Seq<bool>>>,
    m: int,
    res: Seq<Set<Seq<bool>>>,
    rg: Seq<Set<int>>,
    ps: Seq<Set<Seq<bool>>>,
    gr: Seq<Set<int>>,
    live: Seq<bool>,
    own: Seq<int>,
    k1: int,
    k2: int,
)
    requires
        owned(w, ins, m, res, rg, ps, gr, live, own),
        0 <= k1 < ps.len(),
        0 <= k2 < ps.len(),
        k1 != k2,
        live[k1],
        live[k2],
    ensures
        groups_apart(ins.len() as int, gr[k1], gr[k2]),
        ps[k1] == group_conj(w, ins, gr[k1]),
        ps[k2] == group_conj(w, ins, gr[k2]),
{
    assert(ps[k1] == group_conj(w, ins, gr[k1]));
    assert(ps[k2] == group_conj(w, ins, gr[k2]));
    assert forall|j: int| gr[k1].contains(j) implies !gr[k2].contains(j) by {
        assert(gr[k1].contains(j));
    }
    assert forall|j: int| #[trigger] gr[k1].contains(j) implies 0 <= j < ins.len() by {}
    assert forall|j: int| #[trigger] gr[k2].contains(j) implies 0 <= j < ins.len() by {}
}

/// Merging the live parts `x` and `y` into `t`, which is set aside.
#[verifier::spinoff_prover]
#[verifier::rlimit(60)]
proof fn lemma_owned_merge_aside(
    w: nat,
    ins: Seq<Set<Seq<bool>>>,
    m: int,
    res: Seq<Set<Seq<bool>>>,
    rg: Seq<Set<int>>,
    ps: Seq<Set<Seq<bool>>>,
    gr: Seq<Set<int>>,
    live: Seq<bool>,
    own: Seq<int>,
    x: int,
    y: int,
    t: Set<Seq<bool>>,
)
    requires
        owned(w, ins, m, res, rg, ps, gr, live, own),
        0 <= x < ps.len(),
        0 <= y < ps.len(),
        x != y,
        live[x],
        live[y],
        t == ps[x].intersect(ps[y]),
    ensures
        group_conj(w, ins, gr[x].union(gr[y])) == t,
        owned(w, ins, m, res.push(t), rg.push(gr[x].union(gr[y])), ps, gr,
            live.update(x, false).update(y, false), relabel(own, gr[x].union(gr[y]), res.len() as int)),
{
    let g = gr[x].union(gr[y]);
    assert(ps[x] == group_conj(w, ins, gr[x]));
    assert(ps[y] == group_conj(w, ins, gr[y]));
    lemma_group_union(w, ins, gr[x], gr[y]);
    assert(g != Set::<int>::empty()) by {
        if g == Set::<int>::empty() {
            assert(gr[x] =~= Set::<int>::empty());
        }
    }
    let l1 = live.update(x, false).update(y, false);
    let c = res.len() as int;
    let o2 = relabel(own, g, c);
    let res2 = res.push(t);
    let rg2 = rg.push(g);
    let ps2 = ps;
    let gr2 = gr;
    let l2 = l1;
    assert forall|j: int| #[trigger] g.contains(j) implies 0 <= j < m && (own[j] == -x - 1 || own[j] == -y - 1) by {
        if gr[x].contains(j) {
        } else {
            assert(gr[y].contains(j));
        }
    }
    assert forall|k: int| 0 <= k < res2.len() implies #[trigger] res2[k] == group_conj(w, ins, rg2[k]) && rg2[k] != Set::<int>::empty() by {
        if k < res.len() { assert(res[k] == group_conj(w, ins, rg[k])); }
    }
    assert forall|k: int| 0 <= k < ps2.len() implies #[trigger] ps2[k] == group_conj(w, ins, gr2[k]) && gr2[k] != Set::<int>::empty() by {
        if k < ps.len() { assert(ps[k] == group_conj(w, ins, gr[k])); }
    }
    assert forall|k: int, j: int| 0 <= k < rg2.len() && #[trigger] rg2[k].contains(j) implies 0 <= j < m && o2[j] == k by {
        if k < rg.len() {
            assert(rg[k].contains(j));
            if g.contains(j) {
                assert(own[j] == k);
            }
        } else {
            assert(g.contains(j));
        }
    }
    assert forall|k: int, j: int| 0 <= k < gr2.len() && #[trigger] gr2[k].contains(j) implies 0 <= j < m && (l2[k] ==> o2[j] == -k - 1) by {
        if k < gr.len() {
            assert(gr[k].contains(j));
            if l2[k] {
                assert(k != x && k != y);
                assert(own[j] == -k - 1);
                if g.contains(j) {
                    assert(own[j] == -x - 1 || own[j] == -y - 1);
                }
            }
        } else {
            assert(g.contains(j));
        }
    }
    assert forall|j: int| 0 <= j < m implies #[trigger] own_ok(rg2, gr2, l2, o2[j], j) by {
        if g.contains(j) {
            assert(o2[j] == c);
        } else {
            assert(o2[j] == own[j]);
            assert(own_ok(rg, gr, live, own[j], j));
            if own[j] < 0 {
                let k = -own[j] - 1;
                assert(gr[k].contains(j));
                assert(k != x && k != y);
            }
        }
    }
    assert(owned(w, ins, m, res2, rg2, ps2, gr2, l2, o2));
}

/// Merging the live parts `x` and `y` into `t`, a new live part.
#[verifier::spinoff_prover]
#[verifier::rlimit(60)]
proof fn lemma_owned_merge_live(
    w: nat,
    ins: Seq<Set<Seq<bool>>>,
    m: int,
    res: Seq<Set<Seq<bool>>>,
    rg: Seq<Set<int>>,
    ps: Seq<Set<Seq<bool>>>,
    gr: Seq<Set<int>>,
    live: Seq<bool>,
    own: Seq<int>,
    x: int,
    y: int,
    t: Set<Seq<bool>>,
)
    requires
        owned(w, ins, m, res, rg, ps, gr, live, own),
        0 <= x < ps.len(),
        0 <= y < ps.len(),
        x != y,
        live[x],
        live[y],
        t == ps[x].intersect(ps[y]),
    ensures
        group_conj(w, ins, gr[x].union(gr[y])) == t,
        owned(w, ins, m, res, rg, ps.push(t), gr.push(gr[x].union(gr[y])),
            live.update(x, false).update(y, false).push(true), relabel(own, gr[x].union(gr[y]), -(ps.len() as int) - 1)),
{
    let g = gr[x].union(gr[y]);
    assert(ps[x] == group_conj(w, ins, gr[x]));
    assert(ps[y] == group_conj(w, ins, gr[y]));
    lemma_group_union(w, ins, gr[x], gr[y]);
    assert(g != Set::<int>::empty()) by {
        if g == Set::<int>::empty() {
            assert(gr[x] =~= Set::<int>::empty());
        }
    }
    let l1 = live.update(x, false).update(y, false);
    let c = -(ps.len() as int) - 1;
    let o2 = relabel(own, g, c);
    let res2 = res;
    let rg2 = rg;
    let ps2 = ps.push(t);
    let gr2 = gr.push(g);
    let l2 = l1.push(true);
    assert forall|j: int| #[trigger] g.contains(j) implies 0 <= j < m && (own[j] == -x - 1 || own[j] == -y - 1) by {
        if gr[x].contains(j) {
        } else {
            assert(gr[y].contains(j));
        }
    }
    assert forall|k: int| 0 <= k < res2.len() implies #[trigger] res2[k] == group_conj(w, ins, rg2[k]) && rg2[k] != Set::<int>::empty() by {
        if k < res.len() { assert(res[k] == group_conj(w, ins, rg[k])); }
    }
    assert forall|k: int| 0 <= k < ps2.len() implies #[trigger] ps2[k] == group_conj(w, ins, gr2[k]) && gr2[k] != Set::<int>::empty() by {
        if k < ps.len() { assert(ps[k] == group_conj(w, ins, gr[k])); }
    }
    assert forall|k: int, j: int| 0 <= k < rg2.len() && #[trigger] rg2[k].contains(j) implies 0 <= j < m && o2[j] == k by {
        if k < rg.len() {
            assert(rg[k].contains(j));
            if g.contains(j) {
                assert(own[j] == k);
            }
        } else {
            assert(g.contains(j));
        }
    }
    assert forall|k: int, j: int| 0 <= k < gr2.len() && #[trigger] gr2[k].contains(j) implies 0 <= j < m && (l2[k] ==> o2[j] == -k - 1) by {
        if k < gr.len() {
            assert(gr[k].contains(j));
            if l2[k] {
                assert(k != x && k != y);
                assert(own[j] == -k - 1);
                if g.contains(j) {
                    assert(own[j] == -x - 1 || own[j] == -y - 1);
                }
            }
        } else {
            assert(g.contains(j));
        }
    }
    assert forall|j: int| 0 <= j < m implies #[trigger] own_ok(rg2, gr2, l2, o2[j], j) by {
        if g.contains(j) {
            assert(o2[j] == c);
        } else {
            assert(o2[j] == own[j]);
            assert(own_ok(rg, gr, live, own[j], j));
            if own[j] < 0 {
                let k = -own[j] - 1;
                assert(gr[k].contains(j));
                assert(k != x && k != y);
            }
        }
    }
    assert(owned(w, ins, m, res2, rg2, ps2, gr2, l2, o2));
}

/// Setting the live part `k` aside.
proof fn lemma_owned_settle(
    w: nat,
    ins: Seq<Set<Seq<bool>>>,
    m: int,
    res: Seq<Set<Seq<bool>>>,
    rg: Seq<Set<int>>,
    ps: Seq<Set<Seq<bool>>>,
    gr: Seq<Set<int>>,
    live: Seq<bool>,
    own: Seq<int>,
    k: int,
)
    requires
        owned(w, ins, m, res, rg, ps, gr, live, own),
        0 <= k < ps.len(),
        live[k],
    ensures
        owned(w, ins, m, res.push(ps[k]), rg.push(gr[k]), ps, gr, live.update(k, false), relabel(own, gr[k], res.len() as int)),
{
    let g = gr[k];
    let res2 = res.push(ps[k]);
    let rg2 = rg.push(g);
    let l2 = live.update(k, false);
    let o2 = relabel(own, g, res.len() as int);
    assert(ps[k] == group_conj(w, ins, gr[k]));
    assert forall|q: int| 0 <= q < res2.len() implies #[trigger] res2[q] == group_conj(w, ins, rg2[q]) && rg2[q] != Set::<int>::empty() by {
        if q < res.len() { assert(res[q] == group_conj(w, ins, rg[q])); }
    }
    assert forall|q: int, j: int| 0 <= q < rg2.len() && #[trigger] rg2[q].contains(j) implies 0 <= j < m && o2[j] == q by {
        if q < rg.len() {
            assert(rg[q].contains(j));
            if g.contains(j) {
                assert(own[j] == -k - 1);
            }
        }
    }
    assert forall|q: int, j: int| 0 <= q < gr.len() && #[trigger] gr[q].contains(j) implies 0 <= j < m && (l2[q] ==> o2[j] == -q - 1) by {
        assert(gr[q].contains(j));
        if l2[q] && g.contains(j) {
            assert(own[j] == -k - 1);
        }
    }
    assert forall|j: int| 0 <= j < m implies #[trigger] own_ok(rg2, gr, l2, o2[j], j) by {
        if !g.contains(j) {
            assert(own_ok(rg, gr, live, own[j], j));
            if own[j] < 0 {
                assert(gr[-own[j] - 1].contains(j));
            }
        }
    }
}

/// With every input taken and no part live, the groups set aside split the
/// inputs.
proof fn lemma_owned_final(
    w: nat,
    ins: Seq<Set<Seq<bool>>>,
    res: Seq<Set<Seq<bool>>>,
    rg: Seq<Set<int>>,
    ps: Seq<Set<Seq<bool>>>,
    gr: Seq<Set<int>>,
    live: Seq<bool>,
    own: Seq<int>,
)
    requires
        owned(w, ins, ins.len() as int, res, rg, ps, gr, live, own),
        forall|k: int| 0 <= k < live.len() ==> !#[trigger] live[k],
    ensures
        grouped(w, ins, res, rg),
{
    assert forall|k: int| 0 <= k < rg.len() implies #[trigger] rg[k] != Set::<int>::empty() && res[k] == group_conj(w, ins, rg[k]) by {
        assert(res[k] == group_conj(w, ins, rg[k]));
    }
    assert forall|k1: int, k2: int, j: int|
        0 <= k1 < rg.len() && 0 <= k2 < rg.len() && #[trigger] rg[k1].contains(j) && #[trigger] rg[k2].contains(j) implies k1 == k2 by {
    }
    assert forall|j: int| 0 <= j < ins.len() implies #[trigger] in_some_group(rg, j) by {
        assert(own_ok(rg, gr, live, own[j], j));
        if own[j] < 0 {
            assert(live[-own[j] - 1]);
        }
        assert(rg[own[j]].contains(j));
    }
}

/// Two disjoint groups whose conjunctions depend on no variable.
proof fn lemma_constant_groups(w: nat, ins: Seq<Set<Seq<bool>>>, g1: Set<int>, g2: Set<int>)
    requires
        groups_apart(ins.len() as int, g1, g2),
        support(w, group_conj(w, ins, g1)) == Set::<nat>::empty(),
        support(w, group_conj(w, ins, g2)) == Set::<nat>::empty(),
    ensures
        constant_groups(w, ins),
{
}

/// The queue holds an entry for the parts `x` and `y`.
pub open spec fn pair_queued(q: Seq<(usize, usize, usize, usize)>, x: int, y: int) -> bool {
    exists|e: int| 0 <= e < q.len() && #[trigger] q[e].2 == x && q[e].3 == y
}

proof fn lemma_pair_queued_push(q: Seq<(usize, usize, usize, usize)>, n: (usize, usize, usize, usize))
    ensures
        forall|x: int, y: int| pair_queued(q, x, y) ==> #[trigger] pair_queued(q.push(n), x, y),
        pair_queued(q.push(n), n.2 as int, n.3 as int),
{
    assert forall|x: int, y: int| pair_queued(q, x, y) implies #[trigger] pair_queued(q.push(n), x, y) by {
        let e = choose|e: int| 0 <= e < q.len() && #[trigger] q[e].2 == x && q[e].3 == y;
        assert(q.push(n)[e] == q[e]);
    }
    assert(q.push(n)[q.len() as int] == n);
}

proof fn lemma_pair_queued_remove(q: Seq<(usize, usize, usize, usize)>, top: int, x: int, y: int)
    requires
        0 <= top < q.len(),
        pair_queued(q, x, y),
        !(q[top].2 == x && q[top].3 == y),
    ensures
        pair_queued(q.update(top, q.last()).drop_last(), x, y),
{
    let q2 = q.update(top, q.last()).drop_last();
    let e = choose|e: int| 0 <= e < q.len() && #[trigger] q[e].2 == x && q[e].3 == y;
    if e == q.len() - 1 {
        assert(q2[top] == q[e]);
    } else {
        assert(q2[e] == q[e]);
    }
}

/// With no two flags set, at most one is.
proof fn lemma_count_at_most_one(fl: Seq<bool>)
    requires
        forall|x: int, y: int| 0 <= x < y < fl.len() ==> !(#[trigger] fl[x] && #[trigger] fl[y]),
    ensures
        count_true(fl) <= 1,
    decreases fl.len(),
{
    if fl.len() > 0 {
        let t = fl.drop_last();
        assert forall|x: int, y: int| 0 <= x < y < t.len() implies !(#[trigger] t[x] && #[trigger] t[y]) by {
            assert(t[x] == fl[x] && t[y] == fl[y]);
        }
        lemma_count_at_most_one(t);
        if fl.last() && count_true(t) > 0 {
            lemma_count_positive(t);
            let x = choose|x: int| 0 <= x < t.len() && t[x];
            assert(fl[x] && fl[fl.len() - 1]);
        }
    }
}

/// Some flag is set where the count is positive.
proof fn lemma_count_positive(fl: Seq<bool>)
    requires
        count_true(fl) > 0,
    ensures
        exists|x: int| 0 <= x < fl.len() && fl[x],
    decreases fl.len(),
{
    if fl.len() > 0 && !fl.last() {
        lemma_count_positive(fl.drop_last());
        let x = choose|x: int| 0 <= x < fl.drop_last().len() && fl.drop_last()[x];
        assert(fl[x]);
    }
}

/// Entries that fit a sequence of parts still fit it with one more part.
proof fn lemma_entries_push(
    w: nat,
    ps: Seq<Set<Seq<bool>>>,
    t: Set<Seq<bool>>,
    q: Seq<(usize, usize, usize, usize)>,
)
    requires
        forall|k: int| 0 <= k < q.len() ==> entry_ok(w, ps, #[trigger] q[k]),
    ensures
        forall|k: int| 0 <= k < q.len() ==> entry_ok(w, ps.push(t), #[trigger] q[k]),
{
    assert forall|k: int| 0 <= k < q.len() implies entry_ok(w, ps.push(t), #[trigger] q[k]) by {
        assert(entry_ok(w, ps, q[k]));
        assert(ps.push(t)[q[k].2 as int] == ps[q[k].2 as int]);
        assert(ps.push(t)[q[k].3 as int] == ps[q[k].3 as int]);
    }
}

/// A member of a set that is not empty.
proof fn lemma_some_member(s: Set<Seq<bool>>) -> (c: Seq<bool>)
    requires
        s != Set::<Seq<bool>>::empty(),
    ensures
        s.contains(c),
{
    if !(exists|c: Seq<bool>| s.contains(c)) {
        assert(s =~= Set::<Seq<bool>>::empty());
    }
    choose|c: Seq<bool>| s.contains(c)
}

/// Where the grouping stands: taking input `i`; pairing input `i` with the
/// parts below `k`; taking the first entry of the queue; pairing the new
/// conjunction `xy` with the parts below `k`; setting part `k` aside where it
/// is live; done; or stopped where two parts without variables were paired.
pub enum GroupPc {
    Take(nat),
    PairInput(nat, nat),
    Pop,
    PairMerged(nat, Set<Seq<bool>>),
    Settle(nat),
    Done,
    Failed,
}

/// A state of the grouping: where it stands, the parts with the flags of
/// the live ones, the parts set aside, and the queue of entries
/// `(shared, either, first part, second part)`.
pub struct Grouping {
    pub pc: GroupPc,
    pub parts: Seq<Set<Seq<bool>>>,
    pub live: Seq<bool>,
    pub res: Seq<Set<Seq<bool>>>,
    pub queue: Seq<(usize, usize, usize, usize)>,
}

/// The grouping before any input is taken.
pub open spec fn group_start() -> Grouping {
    Grouping { pc: GroupPc::Take(0), parts: Seq::empty(), live: Seq::empty(), res: Seq::empty(), queue: Seq::empty() }
}

/// The number of variables that both `a` and `b` depend on, and the number
/// that either depends on.
pub open spec fn affinity(w: nat, a: Set<Seq<bool>>, b: Set<Seq<bool>>) -> (nat, nat) {
    (support(w, a).intersect(support(w, b)).len(), support(w, a).union(support(w, b)).len())
}

/// No entry of the queue comes out before entry `r`.
pub open spec fn is_top(q: Seq<(usize, usize, usize, usize)>, r: int) -> bool {
    0 <= r < q.len() && forall|k: int| 0 <= k < q.len() ==> !entry_before(#[trigger] q[k], q[r])
}

/// The position of the entry that comes out of the queue first.
pub open spec fn top_index(q: Seq<(usize, usize, usize, usize)>) -> int {
    choose|r: int| #[trigger] is_top(q, r)
}

/// `g` at `pc`.
pub open spec fn moved(g: Grouping, pc: GroupPc) -> Grouping {
    Grouping { pc, parts: g.parts, live: g.live, res: g.res, queue: g.queue }
}

/// Pairing `a`, which will be part `idx`, with part `k` where it is live: the
/// grouping stops where neither depends on a variable, else queues the
/// entry, and goes on at `next`.
pub open spec fn pair_with(w: nat, g: Grouping, a: Set<Seq<bool>>, k: nat, idx: nat, next: GroupPc) -> Grouping {
    if g.live[k as int] {
        let (i, u) = affinity(w, a, g.parts[k as int]);
        if u == 0 {
            moved(g, GroupPc::Failed)
        } else {
            Grouping {
                pc: next,
                parts: g.parts,
                live: g.live,
                res: g.res,
                queue: g.queue.push((i as usize, u as usize, k as usize, idx as usize)),
            }
        }
    } else {
        moved(g, next)
    }
}

/// One step of the grouping of the inputs `ins` (threshold 1000 nodes).
pub open spec fn group_step<B: Bdd>(ins: Seq<Set<Seq<bool>>>, g: Grouping) -> Grouping {
    let w = B::width();
    match g.pc {
        GroupPc::Take(i) => if i < ins.len() {
            if B::nodes(ins[i as int]) > 1000 {
                Grouping {
                    pc: GroupPc::Take(i + 1),
                    parts: g.parts.push(ins[i as int]),
                    live: g.live.push(false),
                    res: g.res.push(ins[i as int]),
                    queue: g.queue,
                }
            } else {
                moved(g, GroupPc::PairInput(i, 0))
            }
        } else {
            moved(g, GroupPc::Pop)
        },
        GroupPc::PairInput(i, k) => if k < i {
            pair_with(w, g, ins[i as int], k, i, GroupPc::PairInput(i, k + 1))
        } else {
            Grouping {
                pc: GroupPc::Take(i + 1),
                parts: g.parts.push(ins[i as int]),
                live: g.live.push(true),
                res: g.res,
                queue: g.queue,
            }
        },
        GroupPc::Pop => if g.queue.len() == 0 {
            moved(g, GroupPc::Settle(0))
        } else {
            let t = top_index(g.queue);
            let e = g.queue[t];
            let q = g.queue.update(t, g.queue.last()).drop_last();
            let x = e.2 as int;
            let y = e.3 as int;
            if g.live[x] && g.live[y] {
                let xy = g.parts[x].intersect(g.parts[y]);
                let l = g.live.update(x, false).update(y, false);
                if B::nodes(xy) > 1000 {
                    Grouping { pc: GroupPc::Pop, parts: g.parts, live: l, res: g.res.push(xy), queue: q }
                } else {
                    Grouping { pc: GroupPc::PairMerged(0, xy), parts: g.parts, live: l, res: g.res, queue: q }
                }
            } else {
                Grouping { pc: GroupPc::Pop, parts: g.parts, live: g.live, res: g.res, queue: q }
            }
        },
        GroupPc::PairMerged(k, xy) => if k < g.parts.len() {
            pair_with(w, g, xy, k, g.parts.len(), GroupPc::PairMerged(k + 1, xy))
        } else {
            Grouping {
                pc: GroupPc::Pop,
                parts: g.parts.push(xy),
                live: g.live.push(true),
                res: g.res,
                queue: g.queue,
            }
        },
        GroupPc::Settle(k) => if k < g.parts.len() {
            if g.live[k as int] {
                Grouping {
                    pc: GroupPc::Settle(k + 1),
                    parts: g.parts,
                    live: g.live.update(k as int, false),
                    res: g.res.push(g.parts[k as int]),
                    queue: g.queue,
                }
            } else {
                moved(g, GroupPc::Settle(k + 1))
            }
        } else {
            moved(g, GroupPc::Done)
        },
        GroupPc::Done => g,
        GroupPc::Failed => g,
    }
}

/// The grouping of `ins` after `k` steps.
pub open spec fn group_run<B: Bdd>(ins: Seq<Set<Seq<bool>>>, k: nat) -> Grouping
    decreases k,
{
    if k == 0 {
        group_start()
    } else {
        group_step::<B>(ins, group_run::<B>(ins, (k - 1) as nat))
    }
}

/// Once the grouping is done or stopped, it stays so.
proof fn lemma_group_run_stays<B: Bdd>(ins: Seq<Set<Seq<bool>>>, k: nat, j: nat)
    requires
        group_run::<B>(ins, k).pc == GroupPc::Done || group_run::<B>(ins, k).pc == GroupPc::Failed,
    ensures
        group_run::<B>(ins, k + j) == group_run::<B>(ins, k),
    decreases j,
{
    if j > 0 {
        lemma_group_run_stays::<B>(ins, k, (j - 1) as nat);
        assert(group_run::<B>(ins, k + j) == group_step::<B>(ins, group_run::<B>(ins, (k + j - 1) as nat)));
    }
}

/// The grouping of `ins` ends in one way only: it is never both done and
/// stopped.
pub proof fn lemma_group_run_ends_once<B: Bdd>(ins: Seq<Set<Seq<bool>>>, k1: nat, k2: nat)
    requires
        group_run::<B>(ins, k1).pc == GroupPc::Done,
    ensures
        group_run::<B>(ins, k2).pc != GroupPc::Failed,
{
    if k2 >= k1 {
        lemma_group_run_stays::<B>(ins, k1, (k2 - k1) as nat);
    } else if group_run::<B>(ins, k2).pc == GroupPc::Failed {
        lemma_group_run_stays::<B>(ins, k2, (k1 - k2) as nat);
    }
}

/// `g` stands at `pc` with these parts, flags, parts set aside and queue.
pub open spec fn at(
    g: Grouping,
    pc: GroupPc,
    parts: Seq<Set<Seq<bool>>>,
    live: Seq<bool>,
    res: Seq<Set<Seq<bool>>>,
    queue: Seq<(usize, usize, usize, usize)>,
) -> bool {
    g.pc == pc && g.parts == parts && g.live == live && g.res == res && g.queue == queue
}

/// No two entries of the queue name the same two parts.
pub open spec fn pairs_distinct(q: Seq<(usize, usize, usize, usize)>) -> bool {
    forall|a: int, b: int| 0 <= a < b < q.len() ==> !(#[trigger] q[a].2 == #[trigger] q[b].2 && q[a].3 == q[b].3)
}

/// Of two entries naming different parts, one comes out before the other.
proof fn lemma_entry_total(a: (usize, usize, usize, usize), b: (usize, usize, usize, usize))
    requires
        !(a.2 == b.2 && a.3 == b.3),
    ensures
        entry_before(a, b) || entry_before(b, a),
{
}

/// With no two entries naming the same parts, the entry that no other comes
/// out before is the one `top_index` picks.
proof fn lemma_top_unique(q: Seq<(usize, usize, usize, usize)>, r: int)
    requires
        pairs_distinct(q),
        0 <= r < q.len(),
        forall|k: int| 0 <= k < q.len() ==> !entry_before(#[trigger] q[k], q[r]),
    ensures
        top_index(q) == r,
{
    assert(is_top(q, r));
    let t = top_index(q);
    assert(is_top(q, t));
    if t != r {
        if t < r {
            assert(!(q[t].2 == q[r].2 && q[t].3 == q[r].3));
        } else {
            assert(!(q[r].2 == q[t].2 && q[r].3 == q[t].3));
        }
        lemma_entry_total(q[t], q[r]);
    }
}

/// Removing an entry keeps the entries apart.
proof fn lemma_pairs_distinct_remove(q: Seq<(usize, usize, usize, usize)>, t: int)
    requires
        pairs_distinct(q),
        0 <= t < q.len(),
    ensures
        pairs_distinct(q.update(t, q.last()).drop_last()),
{
    let q2 = q.update(t, q.last()).drop_last();
    assert forall|a: int, b: int| 0 <= a < b < q2.len() implies !(#[trigger] q2[a].2 == #[trigger] q2[b].2 && q2[a].3 == q2[b].3) by {
        let ia = if a == t { q.len() - 1 } else { a };
        let ib = if b == t { q.len() - 1 } else { b };
        assert(q2[a] == q[ia] && q2[b] == q[ib]);
        if ia < ib {
            assert(!(q[ia].2 == q[ib].2 && q[ia].3 == q[ib].3));
        } else {
            assert(!(q[ib].2 == q[ia].2 && q[ib].3 == q[ia].3));
        }
    }
}

/// Queueing an entry for a part that no entry yet names with the same
/// first part keeps the entries apart.
proof fn lemma_pairs_distinct_push(q: Seq<(usize, usize, usize, usize)>, n: (usize, usize, usize, usize))
    requires
        pairs_distinct(q),
        forall|e: int| 0 <= e < q.len() ==> !(#[trigger] q[e].2 == n.2 && q[e].3 == n.3),
    ensures
        pairs_distinct(q.push(n)),
{
    let q2 = q.push(n);
    assert forall|a: int, b: int| 0 <= a < b < q2.len() implies !(#[trigger] q2[a].2 == #[trigger] q2[b].2 && q2[a].3 == q2[b].3) by {
        assert(q2[a] == q[a]);
        if b < q.len() {
            assert(q2[b] == q[b]);
        }
    }
}

impl<BM: BddManager> Trans<BM> {
    /// The relation with its small parts grouped as [`group_run`] describes:
    /// the pair of small parts whose supports overlap most (the most
    /// variables in common over the variables of either) is conjoined first,
    /// a part larger than the size threshold is set aside, and so on until no
    /// pair is left; the result holds the parts that the grouping yields.
    /// `None` exactly where the grouping pairs two parts without variables
    /// (their overlap is undefined): then two disjoint groups of `trans`
    /// conjoin to sets that depend on no variable, which only happens where
    /// the parts conjoin to nothing or two of them are the same function.
    /// Each part of the result is the conjunction of its own group of
    /// `trans`, the groups splitting `trans`, and at most one part of the
    /// result has no more nodes than the threshold.
    fn partition_new(manager: &BM, trans: Vec<BM::Bdd>) -> (r: Option<Self>)
        requires
            trans@.len() <= 100,
        ensures
            match r {
                Some(t) => t.wf() && t.relation() == conj(bm_width::<BM>(), denotes(trans@))
                    && t.manager == *manager && (exists|g: Seq<Set<int>>|
                    #[trigger] grouped(bm_width::<BM>(), denotes(trans@), denotes(t.trans@), g)) && (forall|k1: int, k2: int|
                    0 <= k1 < k2 < t.trans@.len() ==> <BM::Bdd as Bdd>::nodes((#[trigger] t.trans@[k1]).denote()) > 1000
                        || <BM::Bdd as Bdd>::nodes((#[trigger] t.trans@[k2]).denote()) > 1000) && (exists|k: nat|
                    #[trigger] group_run::<BM::Bdd>(denotes(trans@), k).pc == GroupPc::Done && group_run::<BM::Bdd>(
                    denotes(trans@),
                    k,
                ).res == denotes(t.trans@)),
                None => (exists|k: nat| (#[trigger] group_run::<BM::Bdd>(denotes(trans@), k)).pc == GroupPc::Failed)
                    && constant_groups(bm_width::<BM>(), denotes(trans@)) && (conj(
                    bm_width::<BM>(),
                    denotes(trans@),
                ) == Set::<Seq<bool>>::empty() || !denotes(trans@).no_duplicates()),
            },
    {
        let ghost w = bm_width::<BM>();
        let ghost c0 = conj(w, denotes(trans@));
        let ghost vw = valuations(w);
        let ghost ins = denotes(trans@);
        let ghost mut rg: Seq<Set<int>> = Seq::empty();
        let ghost mut gr: Seq<Set<int>> = Seq::empty();
        let ghost mut own: Seq<int> = Seq::empty();
        let ghost mut c: nat = 0;
        let threshold: usize = 1000;
        let n = trans.len();
        let mut parts: Vec<BM::Bdd> = Vec::new();
        let mut live: Vec<bool> = Vec::new();
        let mut res: Vec<BM::Bdd> = Vec::new();
        let mut queue: Vec<(usize, usize, usize, usize)> = Vec::new();
        let mut i: usize = 0;
        proof {
            assert(denotes(res@) =~= Seq::<Set<Seq<bool>>>::empty());
            assert(denotes(trans@.take(0)) =~= Seq::<Set<Seq<bool>>>::empty());
            assert(live_conj(w, denotes(parts@), live@) == valuations(w));
            assert(valuations(w).intersect(valuations(w)) =~= valuations(w));
            assert(owned(w, ins, 0, denotes(res@), rg, denotes(parts@), gr, live@, own));
            assert(denotes(parts@) =~= Seq::<Set<Seq<bool>>>::empty());
            assert(at(group_run::<BM::Bdd>(ins, c), GroupPc::Take(0), denotes(parts@), live@, denotes(res@), queue@));
        }
        while i < n
            invariant
                n == trans@.len(),
                w == bm_width::<BM>(),
                c0 == conj(w, denotes(trans@)),
                vw == valuations(w),
                i <= n,
                parts@.len() == i,
                forall|k: int| 0 <= k < i ==> (#[trigger] parts@[k]).denote() == trans@[k].denote(),
                grouping_inv(conj(w, denotes(trans@.take(i as int))), res@, parts@, live@, queue@),
                ins == denotes(trans@),
                owned(w, ins, i as int, denotes(res@), rg, denotes(parts@), gr, live@, own),
                forall|k: int| 0 <= k < res@.len() ==> <BM::Bdd as Bdd>::nodes((#[trigger] res@[k]).denote()) > 1000,
                threshold == 1000,
                forall|x: int, y: int|
                    #![trigger live@[x], live@[y]]
                    0 <= x < y < parts@.len() && live@[x] && live@[y] ==> pair_queued(queue@, x, y),
                at(group_run::<BM::Bdd>(ins, c), GroupPc::Take(i as nat), denotes(parts@), live@, denotes(res@), queue@),
                pairs_distinct(queue@),
            decreases n - i,
        {
            let ghost ts = denotes(trans@.take(i + 1));
            proof {
                assert(ts.drop_last() =~= denotes(trans@.take(i as int)));
                assert(ts.last() == trans@[i as int].denote());
            }
            let ghost old_res = res@;
            let ghost old_parts = parts@;
            let ghost old_live = live@;
            let ghost pd = denotes(old_parts).push(trans@[i as int].denote());
            let ghost gi = Set::<int>::empty().insert(i as int);
            proof {
                lemma_entries_push(w, denotes(old_parts), trans@[i as int].denote(), queue@);
                trans@[i as int].lemma_wf();
                assert(ins[i as int] == trans@[i as int].denote());
                lemma_owned_take(w, ins, i as int, denotes(old_res), rg, denotes(old_parts), gr, old_live, own, true);
                lemma_owned_take(w, ins, i as int, denotes(old_res), rg, denotes(old_parts), gr, old_live, own, false);
            }
            if trans[i].size() > threshold {
                res.push(trans[i].duplicate());
                parts.push(trans[i].duplicate());
                live.push(false);
                proof {
                    lemma_conj_push(w, denotes(old_res), trans@[i as int].denote());
                    assert(denotes(res@) =~= denotes(old_res).push(trans@[i as int].denote()));
                    assert(denotes(parts@) =~= pd);
                    lemma_live_conj_push(w, denotes(old_parts), old_live, trans@[i as int].denote(), false);
                    lemma_live_conj_valuations(w, denotes(old_parts), old_live);
                    assert(conj(w, denotes(res@)).intersect(live_conj(w, denotes(parts@), live@))
                        =~= conj(w, ts));
                    rg = rg.push(gi);
                    gr = gr.push(gi);
                    own = own.push(old_res.len() as int);
                    assert forall|x: int, y: int|
                        #![trigger live@[x], live@[y]]
                        0 <= x < y < parts@.len() && live@[x] && live@[y] implies pair_queued(queue@, x, y) by {
                        assert(live@[x] == old_live[x] && live@[y] == old_live[y]);
                    }
                    assert forall|k: int| 0 <= k < res@.len() implies <BM::Bdd as Bdd>::nodes((#[trigger] res@[k]).denote()) > 1000 by {
                        if k < old_res.len() {
                            assert(res@[k] == old_res[k]);
                        }
                    }
                    assert(group_run::<BM::Bdd>(ins, (c + 1) as nat) == group_step::<BM::Bdd>(ins, group_run::<BM::Bdd>(ins, c)));
                    c = c + 1;
                }
            } else {
                proof {
                    assert(group_run::<BM::Bdd>(ins, (c + 1) as nat) == group_step::<BM::Bdd>(ins, group_run::<BM::Bdd>(ins, c)));
                    c = c + 1;
                    assert forall|e: int| 0 <= e < queue@.len() implies (#[trigger] queue@[e]).3 < i by {
                        assert(entry_ok(w, denotes(parts@), queue@[e]));
                    }
                }
                let mut k: usize = 0;
                while k < i
                    invariant
                        i < n,
                        n == trans@.len(),
                        w == bm_width::<BM>(),
                        c0 == conj(w, denotes(trans@)),
                        vw == valuations(w),
                        k <= i,
                        parts@.len() == i,
                        live@.len() == i,
                        parts@ == old_parts,
                        pd == denotes(old_parts).push(trans@[i as int].denote()),
                        forall|j: int| 0 <= j < i ==> (#[trigger] parts@[j]).denote() == trans@[j].denote(),
                        forall|e: int| 0 <= e < queue@.len() ==> entry_ok(w, pd, #[trigger] queue@[e]),
                        ins == denotes(trans@),
                        gi == Set::<int>::empty().insert(i as int),
                        owned(w, ins, i + 1, denotes(res@), rg, pd, gr.push(gi), live@.push(true), own.push(-(i as int) - 1)),
                        forall|x: int, y: int|
                            #![trigger live@[x], live@[y]]
                            0 <= x < y < i && live@[x] && live@[y] ==> pair_queued(queue@, x, y),
                        forall|x: int| 0 <= x < k && live@[x] ==> #[trigger] pair_queued(queue@, x, i as int),
                        threshold == 1000,
                        at(group_run::<BM::Bdd>(ins, c), GroupPc::PairInput(i as nat, k as nat), denotes(parts@), live@, denotes(res@), queue@),
                        pairs_distinct(queue@),
                        forall|e: int| 0 <= e < queue@.len() && (#[trigger] queue@[e]).3 == i ==> queue@[e].2 < k,
                    decreases i - k,
                {
                    if live[k] {
                        let (inter, union) = compute_affinity(&trans[i], &parts[k]);
                        if union == 0 {
                            proof {
                                lemma_empty_union(w, trans@[i as int].denote(), parts@[k as int].denote());
                                lemma_owned_apart(w, ins, i + 1, denotes(res@), rg, pd, gr.push(gi), live@.push(true),
                                    own.push(-(i as int) - 1), k as int, i as int);
                                assert(pd[k as int] == parts@[k as int].denote());
                                assert(pd[i as int] == trans@[i as int].denote());
                                lemma_constant_groups(w, ins, gr.push(gi)[k as int], gi);
                                if c0 != Set::<Seq<bool>>::empty() && denotes(trans@).no_duplicates() {
                                    let c = lemma_some_member(c0);
                                    lemma_conj_subset(w, denotes(trans@));
                                    assert(c0.subset_of(denotes(trans@)[i as int]));
                                    assert(c0.subset_of(denotes(trans@)[k as int]));
                                    trans@[i as int].lemma_wf();
                                    trans@[k as int].lemma_wf();
                                    lemma_no_support_full(w, trans@[i as int].denote(), c);
                                    lemma_no_support_full(w, trans@[k as int].denote(), c);
                                    assert(denotes(trans@)[i as int] == denotes(trans@)[k as int]);
                                }
                                assert(denotes(parts@)[k as int] == parts@[k as int].denote());
                                assert(group_run::<BM::Bdd>(ins, (c + 1) as nat) == group_step::<BM::Bdd>(ins, group_run::<BM::Bdd>(ins, c)));
                                assert(group_run::<BM::Bdd>(ins, (c + 1) as nat).pc == GroupPc::Failed);
                            }
                            return None;
                        }
                        proof {
                            if trans@[i as int].denote() == vw && parts@[k as int].denote() == vw {
                                lemma_support_valuations(w);
                                assert(support(w, vw).union(support(w, vw)) =~= Set::<nat>::empty());
                            }
                            assert(pd[k as int] == parts@[k as int].denote());
                            assert(pd[i as int] == trans@[i as int].denote());
                        }
                        let ghost q0 = queue@;
                        queue.push((inter, union, k, i));
                        proof {
                            lemma_pair_queued_push(q0, (inter, union, k, i));
                            lemma_pairs_distinct_push(q0, (inter, union, k, i));
                            assert(denotes(parts@)[k as int] == parts@[k as int].denote());
                            assert(group_run::<BM::Bdd>(ins, (c + 1) as nat) == group_step::<BM::Bdd>(ins, group_run::<BM::Bdd>(ins, c)));
                            c = c + 1;
                        }
                    } else {
                        proof {
                            assert(group_run::<BM::Bdd>(ins, (c + 1) as nat) == group_step::<BM::Bdd>(ins, group_run::<BM::Bdd>(ins, c)));
                            c = c + 1;
                        }
                    }
                    k = k + 1;
                }
                parts.push(trans[i].duplicate());
                live.push(true);
                proof {
                    assert(denotes(parts@) =~= pd);
                    lemma_live_conj_push(w, denotes(old_parts), old_live, trans@[i as int].denote(), true);
                    assert(conj(w, denotes(res@)).intersect(live_conj(w, denotes(parts@), live@))
                        =~= conj(w, ts));
                    gr = gr.push(gi);
                    own = own.push(-(i as int) - 1);
                    assert(group_run::<BM::Bdd>(ins, (c + 1) as nat) == group_step::<BM::Bdd>(ins, group_run::<BM::Bdd>(ins, c)));
                    c = c + 1;
                    assert forall|x: int, y: int|
                        #![trigger live@[x], live@[y]]
                        0 <= x < y < parts@.len() && live@[x] && live@[y] implies pair_queued(queue@, x, y) by {
                        assert(live@[x] == old_live[x]);
                        if y < i {
                            assert(live@[y] == old_live[y]);
                        } else {
                            assert(pair_queued(queue@, x, i as int));
                        }
                    }
                }
            }
            i = i + 1;
        }
        proof {
            assert(group_run::<BM::Bdd>(ins, (c + 1) as nat) == group_step::<BM::Bdd>(ins, group_run::<BM::Bdd>(ins, c)));
            c = c + 1;
            assert(trans@.take(n as int) =~= trans@);
            assert forall|k: int| 0 <= k < parts@.len() implies c0.subset_of((#[trigger] parts@[k]).denote()) by {
                lemma_conj_subset(w, denotes(trans@));
                assert(c0.subset_of(denotes(trans@)[k]));
            }
        }
        while queue.len() > 0
            invariant
                w == bm_width::<BM>(),
                n == trans@.len(),
                c0 == conj(w, denotes(trans@)),
                vw == valuations(w),
                n <= parts@.len(),
                forall|k: int| 0 <= k < n ==> (#[trigger] parts@[k]).denote() == trans@[k].denote(),
                forall|k: int| 0 <= k < parts@.len() ==> c0.subset_of((#[trigger] parts@[k]).denote()),
                forall|k: int| n <= k < parts@.len() ==> (#[trigger] parts@[k]).denote() != vw,
                grouping_inv(c0, res@, parts@, live@, queue@),
                ins == denotes(trans@),
                owned(w, ins, n as int, denotes(res@), rg, denotes(parts@), gr, live@, own),
                forall|k: int| 0 <= k < res@.len() ==> <BM::Bdd as Bdd>::nodes((#[trigger] res@[k]).denote()) > 1000,
                threshold == 1000,
                forall|x: int, y: int|
                    #![trigger live@[x], live@[y]]
                    0 <= x < y < parts@.len() && live@[x] && live@[y] ==> pair_queued(queue@, x, y),
                at(group_run::<BM::Bdd>(ins, c), GroupPc::Pop, denotes(parts@), live@, denotes(res@), queue@),
                pairs_distinct(queue@),
            decreases count_true(live@), queue@.len(),
        {
            proof {
                assert forall|k: int| 0 <= k < queue@.len() implies (#[trigger] queue@[k]).1 > 0 by {
                    assert(entry_ok(w, denotes(parts@), queue@[k]));
                }
            }
            let top = queue_top(&queue);
            let ghost q0 = queue@;
            proof {
                lemma_top_unique(q0, top as int);
                lemma_pairs_distinct_remove(q0, top as int);
            }
            let (_, _, x, y) = queue.swap_remove(top);
            let ghost lv0 = live@;
            proof {
                assert forall|p: int, q: int|
                    0 <= p < q < parts@.len() && lv0[p] && lv0[q] && !(p == x && q == y) implies #[trigger] pair_queued(queue@, p, q) by {
                    assert(pair_queued(q0, p, q));
                    lemma_pair_queued_remove(q0, top as int, p, q);
                }
            }
            proof {
                assert(entry_ok(w, denotes(parts@), q0[top as int]));
                assert forall|k: int| 0 <= k < queue@.len() implies entry_ok(w, denotes(parts@), #[trigger] queue@[k]) by {
                    if k == top {
                        assert(entry_ok(w, denotes(parts@), q0[q0.len() - 1]));
                    } else {
                        assert(entry_ok(w, denotes(parts@), q0[k]));
                    }
                }
            }
            if live[x] && live[y] {
                let ghost p0 = denotes(parts@);
                let ghost l0 = live@;
                let ghost gxy = gr[x as int].union(gr[y as int]);
                let xy = parts[x].and(&parts[y]);
                live.set(x, false);
                live.set(y, false);
                proof {
                    lemma_live_conj_update(w, p0, l0.update(y as int, false), x as int);
                    assert(l0.update(y as int, false).update(x as int, true) =~= l0.update(y as int, false));
                    assert(l0.update(y as int, false).update(x as int, false) =~= live@);
                    lemma_live_conj_update(w, p0, l0, y as int);
                    assert(l0.update(y as int, true) =~= l0);
                    assert(p0[x as int] == parts@[x as int].denote());
                    assert(live_conj(w, p0, l0) =~= live_conj(w, p0, live@).intersect(xy.denote()));
                    parts@[x as int].lemma_wf();
                    parts@[y as int].lemma_wf();
                    assert(p0[y as int] == parts@[y as int].denote());
                    if xy.denote() == vw {
                        assert(parts@[x as int].denote() =~= vw);
                        assert(parts@[y as int].denote() =~= vw);
                    }
                    assert(c0.subset_of(parts@[x as int].denote()));
                    assert(c0.subset_of(parts@[y as int].denote()));
                }
                proof {
                    assert(p0[x as int] == parts@[x as int].denote());
                    assert(p0[y as int] == parts@[y as int].denote());
                    assert(x != y);
                }
                if xy.size() > threshold {
                    let ghost r0 = res@;
                    res.push(xy);
                    proof {
                        assert forall|k: int| 0 <= k < res@.len() implies <BM::Bdd as Bdd>::nodes((#[trigger] res@[k]).denote()) > 1000 by {
                            if k < r0.len() {
                                assert(res@[k] == r0[k]);
                            }
                        }
                        assert forall|p: int, q: int|
                            #![trigger live@[p], live@[q]]
                            0 <= p < q < parts@.len() && live@[p] && live@[q] implies pair_queued(queue@, p, q) by {
                            assert(pair_queued(queue@, p, q));
                        }
                        lemma_owned_merge_aside(w, ins, n as int, denotes(r0), rg, p0, gr, l0, own, x as int, y as int, xy.denote());
                        assert(denotes(res@) =~= denotes(r0).push(xy.denote()));
                        rg = rg.push(gxy);
                        own = relabel(own, gxy, r0.len() as int);
                        lemma_conj_push(w, denotes(r0), xy.denote());
                        assert(denotes(res@) =~= denotes(r0).push(xy.denote()));
                        assert(conj(w, denotes(res@)).intersect(live_conj(w, p0, live@)) =~= c0);
                        assert(group_run::<BM::Bdd>(ins, (c + 1) as nat) == group_step::<BM::Bdd>(ins, group_run::<BM::Bdd>(ins, c)));
                        c = c + 1;
                    }
                } else {
                    let xy_index = parts.len();
                    let ghost pd = p0.push(xy.denote());
                    let ghost own2 = relabel(own, gxy, -(xy_index as int) - 1);
                    proof {
                        lemma_entries_push(w, p0, xy.denote(), queue@);
                        lemma_owned_merge_live(w, ins, n as int, denotes(res@), rg, p0, gr, l0, own, x as int, y as int, xy.denote());
                        assert(group_run::<BM::Bdd>(ins, (c + 1) as nat) == group_step::<BM::Bdd>(ins, group_run::<BM::Bdd>(ins, c)));
                        c = c + 1;
                        assert forall|e: int| 0 <= e < queue@.len() implies (#[trigger] queue@[e]).3 < xy_index by {
                            assert(entry_ok(w, p0, queue@[e]));
                        }
                    }
                    proof {
                        assert forall|p: int, q: int|
                            #![trigger live@[p], live@[q]]
                            0 <= p < q < xy_index && live@[p] && live@[q] implies pair_queued(queue@, p, q) by {
                            assert(pair_queued(queue@, p, q));
                        }
                    }
                    let mut k: usize = 0;
                    while k < xy_index
                        invariant
                            xy_index == parts@.len(),
                            k <= xy_index,
                            live@.len() == xy_index,
                            w == bm_width::<BM>(),
                            c0 == conj(w, denotes(trans@)),
                            vw == valuations(w),
                            c0.subset_of(xy.denote()),
                            xy.denote() != vw,
                            xy.denote().subset_of(vw),
                            pd == denotes(parts@).push(xy.denote()),
                            forall|e: int| 0 <= e < queue@.len() ==> entry_ok(w, pd, #[trigger] queue@[e]),
                            ins == denotes(trans@),
                            xy_index as int == gr.len(),
                            owned(w, ins, n as int, denotes(res@), rg, pd, gr.push(gxy), live@.push(true), own2),
                            forall|p: int, q: int|
                                #![trigger live@[p], live@[q]]
                                0 <= p < q < xy_index && live@[p] && live@[q] ==> pair_queued(queue@, p, q),
                            forall|p: int| 0 <= p < k && live@[p] ==> #[trigger] pair_queued(queue@, p, xy_index as int),
                            at(group_run::<BM::Bdd>(ins, c), GroupPc::PairMerged(k as nat, xy.denote()), denotes(parts@), live@, denotes(res@), queue@),
                            pairs_distinct(queue@),
                            forall|e: int| 0 <= e < queue@.len() && (#[trigger] queue@[e]).3 == xy_index ==> queue@[e].2 < k,
                        decreases xy_index - k,
                    {
                        if live[k] {
                            let (inter, union) = compute_affinity(&xy, &parts[k]);
                            if union == 0 {
                                proof {
                                    lemma_empty_union(w, xy.denote(), parts@[k as int].denote());
                                    lemma_owned_apart(w, ins, n as int, denotes(res@), rg, pd, gr.push(gxy), live@.push(true),
                                        own2, k as int, xy_index as int);
                                    assert(pd[k as int] == parts@[k as int].denote());
                                    assert(pd[xy_index as int] == xy.denote());
                                    lemma_constant_groups(w, ins, gr.push(gxy)[k as int], gxy);
                                    if c0 != Set::<Seq<bool>>::empty() {
                                        let m = lemma_some_member(c0);
                                        lemma_no_support_full(w, xy.denote(), m);
                                    }
                                    assert(denotes(parts@)[k as int] == parts@[k as int].denote());
                                    assert(group_run::<BM::Bdd>(ins, (c + 1) as nat) == group_step::<BM::Bdd>(ins, group_run::<BM::Bdd>(ins, c)));
                                    assert(group_run::<BM::Bdd>(ins, (c + 1) as nat).pc == GroupPc::Failed);
                                }
                                return None;
                            }
                            proof {
                                assert(pd[xy_index as int] == xy.denote());
                            }
                            let ghost q1 = queue@;
                            queue.push((inter, union, k, xy_index));
                            proof {
                                lemma_pair_queued_push(q1, (inter, union, k, xy_index));
                                lemma_pairs_distinct_push(q1, (inter, union, k, xy_index));
                                assert(denotes(parts@)[k as int] == parts@[k as int].denote());
                                assert(group_run::<BM::Bdd>(ins, (c + 1) as nat) == group_step::<BM::Bdd>(ins, group_run::<BM::Bdd>(ins, c)));
                                c = c + 1;
                            }
                        } else {
                            proof {
                                assert(group_run::<BM::Bdd>(ins, (c + 1) as nat) == group_step::<BM::Bdd>(ins, group_run::<BM::Bdd>(ins, c)));
                                c = c + 1;
                            }
                        }
                        k = k + 1;
                    }
                    let ghost l1 = live@;
                    parts.push(xy);
                    live.push(true);
                    proof {
                        assert(denotes(parts@) =~= p0.push(xy.denote()));
                        lemma_live_conj_push(w, p0, l1, xy.denote(), true);
                        gr = gr.push(gxy);
                        own = own2;
                        assert(group_run::<BM::Bdd>(ins, (c + 1) as nat) == group_step::<BM::Bdd>(ins, group_run::<BM::Bdd>(ins, c)));
                        c = c + 1;
                        assert forall|p: int, q: int|
                            #![trigger live@[p], live@[q]]
                            0 <= p < q < parts@.len() && live@[p] && live@[q] implies pair_queued(queue@, p, q) by {
                            assert(live@[p] == l1[p]);
                            if q < xy_index {
                                assert(live@[q] == l1[q]);
                            } else {
                                assert(pair_queued(queue@, p, xy_index as int));
                            }
                        }
                    }
                }
            } else {
                proof {
                    assert(group_run::<BM::Bdd>(ins, (c + 1) as nat) == group_step::<BM::Bdd>(ins, group_run::<BM::Bdd>(ins, c)));
                    c = c + 1;
                }
            }
        }
        let ghost r3 = res@.len();
        proof {
            assert forall|x: int, y: int| 0 <= x < y < live@.len() implies !(#[trigger] live@[x] && #[trigger] live@[y]) by {
                if live@[x] && live@[y] {
                    assert(pair_queued(queue@, x, y));
                }
            }
            lemma_count_at_most_one(live@);
            assert(group_run::<BM::Bdd>(ins, (c + 1) as nat) == group_step::<BM::Bdd>(ins, group_run::<BM::Bdd>(ins, c)));
            c = c + 1;
        }
        let mut k: usize = 0;
        while k < parts.len()
            invariant
                w == bm_width::<BM>(),
                k <= parts@.len(),
                grouping_inv(c0, res@, parts@, live@, queue@),
                forall|e: int| 0 <= e < k ==> !#[trigger] live@[e],
                ins == denotes(trans@),
                owned(w, ins, n as int, denotes(res@), rg, denotes(parts@), gr, live@, own),
                r3 <= res@.len(),
                res@.len() - r3 + count_true(live@) <= 1,
                forall|j: int| 0 <= j < r3 ==> <BM::Bdd as Bdd>::nodes((#[trigger] res@[j]).denote()) > 1000,
                at(group_run::<BM::Bdd>(ins, c), GroupPc::Settle(k as nat), denotes(parts@), live@, denotes(res@), queue@),
            decreases parts@.len() - k,
        {
            if live[k] {
                let ghost r0 = res@;
                let ghost l0 = live@;
                res.push(parts[k].duplicate());
                live.set(k, false);
                proof {
                    lemma_live_conj_update(w, denotes(parts@), l0, k as int);
                    assert(l0.update(k as int, true) =~= l0);
                    lemma_conj_push(w, denotes(r0), parts@[k as int].denote());
                    assert(denotes(res@) =~= denotes(r0).push(parts@[k as int].denote()));
                    assert(conj(w, denotes(res@)).intersect(live_conj(w, denotes(parts@), live@)) =~= c0);
                    lemma_owned_settle(w, ins, n as int, denotes(r0), rg, denotes(parts@), gr, l0, own, k as int);
                    rg = rg.push(gr[k as int]);
                    own = relabel(own, gr[k as int], r0.len() as int);
                    assert forall|j: int| 0 <= j < r3 implies <BM::Bdd as Bdd>::nodes((#[trigger] res@[j]).denote()) > 1000 by {
                        assert(res@[j] == r0[j]);
                    }
                    assert(denotes(parts@)[k as int] == parts@[k as int].denote());
                    assert(group_run::<BM::Bdd>(ins, (c + 1) as nat) == group_step::<BM::Bdd>(ins, group_run::<BM::Bdd>(ins, c)));
                    c = c + 1;
                }
            } else {
                proof {
                    assert(group_run::<BM::Bdd>(ins, (c + 1) as nat) == group_step::<BM::Bdd>(ins, group_run::<BM::Bdd>(ins, c)));
                    c = c + 1;
                }
            }
            k = k + 1;
        }
        proof {
            lemma_live_conj_none(w, denotes(parts@), live@);
            lemma_conj_valuations(w, denotes(res@));
            assert(conj(w, denotes(res@)).intersect(valuations(w)) =~= conj(w, denotes(res@)));
            lemma_owned_final(w, ins, denotes(res@), rg, denotes(parts@), gr, live@, own);
            assert(group_run::<BM::Bdd>(ins, (c + 1) as nat) == group_step::<BM::Bdd>(ins, group_run::<BM::Bdd>(ins, c)));
            c = c + 1;
        }
        let ghost rs = res@;
        let t = Self::build(manager, res);
        proof {
            assert(denotes(t.trans@) == denotes(rs));
            assert(grouped(w, ins, denotes(t.trans@), rg));
            assert forall|k1: int, k2: int|
                0 <= k1 < k2 < t.trans@.len() implies <BM::Bdd as Bdd>::nodes((#[trigger] t.trans@[k1]).denote()) > 1000
                    || <BM::Bdd as Bdd>::nodes((#[trigger] t.trans@[k2]).denote()) > 1000 by {
                assert(t.trans@[k1] == rs[k1]);
                assert(k1 < r3);
            }
            assert(group_run::<BM::Bdd>(ins, c).pc == GroupPc::Done);
            assert(group_run::<BM::Bdd>(ins, c).res == denotes(t.trans@));
        }
        Some(t)
    }

    /// The relation that conjoins `trans`, repeated functions counted once,
    /// grouped as `method` says: as one part (`Monolithic`), or by
    /// `partition_new` (`Partition`) over the distinct functions: the parts
    /// that the grouping [`group_run`] yields, each the conjunction of its own
    /// group of the distinct functions, at most one with no more than 1000
    /// nodes. `None` where that grouping pairs two parts without variables,
    /// which only happens where the relation is empty.
    pub fn new(manager: &BM, trans: Vec<BM::Bdd>, method: TransBddMethod) -> (r: Option<Self>)
        requires
            method == TransBddMethod::Partition ==> distinct_sets(denotes(trans@)).len() <= 100,
        ensures
            match r {
                Some(t) => t.wf() && t.relation() == conj(bm_width::<BM>(), denotes(trans@))
                    && t.manager == *manager && (method == TransBddMethod::Monolithic
                    ==> t.trans@.len() == 1) && (method == TransBddMethod::Partition ==> exists|g: Seq<Set<int>>|
                    #[trigger] grouped(bm_width::<BM>(), distinct_sets(denotes(trans@)), denotes(t.trans@), g))
                    && (method == TransBddMethod::Partition ==> forall|k1: int, k2: int|
                    0 <= k1 < k2 < t.trans@.len() ==> <BM::Bdd as Bdd>::nodes((#[trigger] t.trans@[k1]).denote()) > 1000
                        || <BM::Bdd as Bdd>::nodes((#[trigger] t.trans@[k2]).denote()) > 1000)
                    && (method == TransBddMethod::Partition ==> exists|k: nat|
                    #[trigger] group_run::<BM::Bdd>(distinct_sets(denotes(trans@)), k).pc == GroupPc::Done
                        && group_run::<BM::Bdd>(distinct_sets(denotes(trans@)), k).res == denotes(t.trans@)),
                None => method == TransBddMethod::Partition && conj(bm_width::<BM>(), denotes(trans@))
                    == Set::<Seq<bool>>::empty() && exists|k: nat|
                    (#[trigger] group_run::<BM::Bdd>(distinct_sets(denotes(trans@)), k)).pc == GroupPc::Failed,
            },
    {
        let ghost orig = denotes(trans@);
        let trans = dedup_parts(trans);
        proof {
            lemma_distinct_sets_no_duplicates(orig);
        }
        match method {
            TransBddMethod::Partition => Self::partition_new(manager, trans),
            TransBddMethod::Monolithic => Some(Self::monolithic_new(manager, trans)),
        }
    }
}

} // verus!
