//! Building the LTL formula that the model checker translates to an
//! automaton.
use crate::ast::{copy_expr, Expr, Infix, Prefix, SpecExpr};
use crate::defines::acyclic;
use crate::expand::{
    all_cases_nonempty, defines_after, defines_cases_nonempty, expand_all, flattenable, reach_all,
};
use crate::flatten::{case_free, cases_nonempty, flat_case};
use crate::propositional::prop_top;
use crate::smv::{Smv, SpecSmv};
use vstd::prelude::*;

verus! {

/// `e` with each `next` turned into the LTL next-time operator.
pub open spec fn to_ltl(e: SpecExpr) -> SpecExpr
    decreases e,
{
    match e {
        SpecExpr::Prefix(p, s) => if p == Prefix::Next {
            SpecExpr::Prefix(Prefix::LtlNext, Box::new(to_ltl(*s)))
        } else {
            SpecExpr::Prefix(p, Box::new(to_ltl(*s)))
        },
        SpecExpr::Infix(op, l, r) => SpecExpr::Infix(op, Box::new(to_ltl(*l)), Box::new(to_ltl(*r))),
        _ => e,
    }
}

/// `e` holds no `next` operator.
pub open spec fn next_free(e: SpecExpr) -> bool
    decreases e,
{
    match e {
        SpecExpr::Prefix(p, s) => p != Prefix::Next && next_free(*s),
        SpecExpr::Infix(_, l, r) => next_free(*l) && next_free(*r),
        SpecExpr::Case(_) => false,
        _ => true,
    }
}

/// The formula that [`ltl_to_automata_preprocess`] gives.
pub open spec fn preprocess(d: Map<Seq<char>, SpecExpr>, e: SpecExpr) -> SpecExpr {
    to_ltl(flat_case(prop_top(d, e)))
}

/// A formula without `case` becomes one without `next` and without `case`.
pub proof fn lemma_to_ltl_next_free(e: SpecExpr)
    requires
        case_free(e),
    ensures
        next_free(to_ltl(e)),
        case_free(to_ltl(e)),
    decreases e,
{
    match e {
        SpecExpr::Prefix(p, s) => lemma_to_ltl_next_free(*s),
        SpecExpr::Infix(op, l, r) => {
            lemma_to_ltl_next_free(*l);
            lemma_to_ltl_next_free(*r);
        },
        _ => {},
    }
}

fn trans_expr_to_ltl_rec(expr: &Expr) -> (r: Expr)
    requires
        case_free(expr@),
    ensures
        r@ == to_ltl(expr@),
    decreases expr,
{
    match expr {
        Expr::PrefixExpr(prefix, sub) => match prefix {
            Prefix::Next => Expr::PrefixExpr(Prefix::LtlNext, Box::new(trans_expr_to_ltl_rec(sub))),
            _ => Expr::PrefixExpr(*prefix, Box::new(trans_expr_to_ltl_rec(sub))),
        },
        Expr::Ident(_) => copy_expr(expr),
        Expr::LitExpr(_) => copy_expr(expr),
        Expr::InfixExpr(infix, left, right) => Expr::InfixExpr(
            *infix,
            Box::new(trans_expr_to_ltl_rec(left)),
            Box::new(trans_expr_to_ltl_rec(right)),
        ),
        Expr::CaseExpr(_) => {
            assert(false);
            copy_expr(expr)
        },
    }
}

/// Turns each `next` of an expression without `case` into the LTL next-time
/// operator.
pub fn trans_expr_to_ltl(expr: &Expr) -> (r: Expr)
    requires
        case_free(expr@),
    ensures
        r@ == to_ltl(expr@),
        next_free(r@),
        case_free(r@),
{
    proof {
        lemma_to_ltl_next_free(expr@);
    }
    trans_expr_to_ltl_rec(expr)
}

/// Prepares an LTL formula over the model for translation: the defines it
/// needs are inlined, `case`s are rewritten, and `next` becomes the LTL
/// next-time operator.
pub fn ltl_to_automata_preprocess(smv: &Smv, ltl: Expr) -> (r: Expr)
    requires
        acyclic(smv@.defines),
        cases_nonempty(prop_top(smv@.defines, ltl@)),
    ensures
        r@ == preprocess(smv@.defines, ltl@),
        next_free(r@),
        case_free(r@),
{
    let ltl = smv.flatten_to_propositional_define(&ltl);
    let ltl = smv.flatten_case(ltl);
    trans_expr_to_ltl(&ltl)
}

pub open spec fn globally(e: SpecExpr) -> SpecExpr {
    SpecExpr::Prefix(Prefix::LtlGlobally, Box::new(e))
}

pub open spec fn finally(e: SpecExpr) -> SpecExpr {
    SpecExpr::Prefix(Prefix::LtlFinally, Box::new(e))
}

pub open spec fn and(a: SpecExpr, b: SpecExpr) -> SpecExpr {
    SpecExpr::Infix(Infix::And, Box::new(a), Box::new(b))
}

/// `true & G t1 & G t2 & ...` over the transition constraints that `xs` picks.
pub open spec fn trans_conj(ts: Seq<SpecExpr>, xs: Seq<usize>) -> SpecExpr
    decreases xs.len(),
{
    if xs.len() == 0 {
        SpecExpr::Lit(true)
    } else {
        and(trans_conj(ts, xs.subrange(0, xs.len() - 1)), globally(ts[xs[xs.len() - 1] as int]))
    }
}

/// `true & G F f1 & G F f2 & ...` over the fairness constraints.
pub open spec fn fairness_conj(fs: Seq<SpecExpr>) -> SpecExpr
    decreases fs.len(),
{
    if fs.len() == 0 {
        SpecExpr::Lit(true)
    } else {
        and(fairness_conj(fs.subrange(0, fs.len() - 1)), globally(finally(fs[fs.len() - 1])))
    }
}

/// The negation of "the chosen transition constraints always hold and the
/// fairness constraints hold infinitely often imply the first LTL
/// specification".
pub open spec fn ltl_formula(m: SpecSmv, xs: Seq<usize>) -> SpecExpr {
    SpecExpr::Prefix(
        Prefix::Not,
        Box::new(
            SpecExpr::Infix(
                Infix::Imply,
                Box::new(and(trans_conj(m.trans, xs), fairness_conj(m.fairness))),
                Box::new(m.ltlspecs[0]),
            ),
        ),
    )
}

/// The model whose lists [`Smv::flatten_defines`] expands.
pub open spec fn flatten_model(m: SpecSmv) -> SpecSmv {
    SpecSmv {
        defines: defines_after(
            m.defines,
            reach_all(m.defines, m.inits).union(reach_all(m.defines, m.trans)).union(
                reach_all(m.defines, m.invariants),
            ).union(reach_all(m.defines, m.fairness)).union(reach_all(m.defines, m.ltlspecs)),
        ),
        vars: m.vars,
        inits: expand_all(m.defines, m.inits),
        trans: expand_all(m.defines, m.trans),
        invariants: expand_all(m.defines, m.invariants),
        fairness: expand_all(m.defines, m.fairness),
        ltlspecs: expand_all(m.defines, m.ltlspecs),
    }
}

/// The model that [`get_ltl`] builds the formula over.
pub open spec fn ltl_model(m: SpecSmv, flatten: bool) -> SpecSmv {
    if flatten {
        flatten_model(m)
    } else {
        m
    }
}

/// The formula that [`get_ltl`] gives.
pub open spec fn get_ltl_spec(m: SpecSmv, xs: Seq<usize>, flatten: bool) -> SpecExpr {
    preprocess(ltl_model(m, flatten).defines, ltl_formula(ltl_model(m, flatten), xs))
}

/// The LTL formula whose automaton, in product with the model, has an
/// accepting run exactly when the first specification fails: see
/// [`get_ltl_spec`].
pub fn get_ltl(smv: &Smv, extend_trans: &[usize], flatten: bool) -> (r: Expr)
    requires
        smv@.ltlspecs.len() > 0,
        forall|i: int| 0 <= i < extend_trans@.len() ==> #[trigger] extend_trans@[i] < smv@.trans.len(),
        flatten ==> flattenable(smv@),
        !flatten ==> acyclic(smv@.defines),
        cases_nonempty(prop_top(ltl_model(smv@, flatten).defines, ltl_formula(ltl_model(smv@, flatten), extend_trans@))),
    ensures
        r@ == get_ltl_spec(smv@, extend_trans@, flatten),
        next_free(r@),
        case_free(r@),
{
    let smv = if flatten {
        let f = smv.flatten_defines();
        assert(f@ == flatten_model(smv@));
        f
    } else {
        smv.duplicate()
    };
    let ghost m = smv@;
    let mut trans_ltl = Expr::LitExpr(true);
    let mut i: usize = 0;
    assert(extend_trans@.subrange(0, 0) =~= Seq::<usize>::empty());
    while i < extend_trans.len()
        invariant
            i <= extend_trans@.len(),
            m == smv@,
            m.trans.len() == smv.trans@.len(),
            forall|j: int| 0 <= j < extend_trans@.len() ==> #[trigger] extend_trans@[j] < m.trans.len(),
            trans_ltl@ == trans_conj(m.trans, extend_trans@.subrange(0, i as int)),
        decreases extend_trans@.len() - i,
    {
        let x = extend_trans[i];
        let t = copy_expr(&smv.trans[x]);
        trans_ltl = core::ops::BitAnd::bitand(
            trans_ltl,
            Expr::PrefixExpr(Prefix::LtlGlobally, Box::new(t)),
        );
        assert(extend_trans@.subrange(0, i as int + 1).subrange(0, i as int) =~= extend_trans@.subrange(0, i as int));
        i = i + 1;
    }
    assert(extend_trans@.subrange(0, extend_trans@.len() as int) =~= extend_trans@);
    let mut fairness = Expr::LitExpr(true);
    let mut k: usize = 0;
    assert(m.fairness.subrange(0, 0) =~= Seq::<SpecExpr>::empty());
    while k < smv.fairness.len()
        invariant
            k <= smv.fairness@.len(),
            m == smv@,
            fairness@ == fairness_conj(m.fairness.subrange(0, k as int)),
        decreases smv.fairness@.len() - k,
    {
        let f = Expr::PrefixExpr(Prefix::LtlFinally, Box::new(copy_expr(&smv.fairness[k])));
        assert(f@ == finally(smv.fairness@[k as int]@));
        let fair = Expr::PrefixExpr(Prefix::LtlGlobally, Box::new(f));
        assert(fair@ == globally(finally(smv.fairness@[k as int]@)));
        assert(m.fairness[k as int] == smv.fairness@[k as int]@);

        fairness = core::ops::BitAnd::bitand(fairness, fair);
        proof {
            let s1 = m.fairness.subrange(0, k as int + 1);
            assert(s1.subrange(0, k as int) =~= m.fairness.subrange(0, k as int));
            assert(s1[k as int] == m.fairness[k as int]);
            assert(fairness_conj(s1) == and(fairness_conj(m.fairness.subrange(0, k as int)), globally(finally(m.fairness[k as int]))));
        }
        k = k + 1;
    }
    assert(m.fairness.subrange(0, m.fairness.len() as int) =~= m.fairness);
    let ltl = copy_expr(&smv.ltlspecs[0]);
    let ltl = core::ops::Not::not(
        Expr::InfixExpr(
            Infix::Imply,
            Box::new(core::ops::BitAnd::bitand(trans_ltl, fairness)),
            Box::new(ltl),
        ),
    );
    ltl_to_automata_preprocess(&smv, ltl)
}

} // verus!
