//! Rewriting `case` expressions into boolean connectives.
use crate::ast::{
    branch_views, copy_expr, lemma_view_branches, view_branches, Expr, Infix, Prefix, SpecExpr,
};
use crate::smv::Smv;
use crate::smvbdd::{expr_sem, lemma_flat_case_keeps_meaning};
use vstd::prelude::*;

verus! {

/// Every `case` in `e` has at least one branch.
pub open spec fn cases_nonempty(e: SpecExpr) -> bool
    decreases e, 0nat,
{
    match e {
        SpecExpr::Ident(_) => true,
        SpecExpr::Lit(_) => true,
        SpecExpr::Prefix(_, s) => cases_nonempty(*s),
        SpecExpr::Infix(_, l, r) => cases_nonempty(*l) && cases_nonempty(*r),
        SpecExpr::Case(bs) => bs.len() > 0 && branches_nonempty(bs, bs.len()),
    }
}

/// The first `k` branches satisfy [`cases_nonempty`].
pub open spec fn branches_nonempty(bs: Seq<(SpecExpr, SpecExpr)>, k: nat) -> bool
    decreases bs, k,
{
    if k == 0 || k > bs.len() {
        true
    } else {
        branches_nonempty(bs, (k - 1) as nat) && cases_nonempty(bs[k - 1].0) && cases_nonempty(
            bs[k - 1].1,
        )
    }
}

/// `e` holds no `case`.
pub open spec fn case_free(e: SpecExpr) -> bool
    decreases e,
{
    match e {
        SpecExpr::Ident(_) => true,
        SpecExpr::Lit(_) => true,
        SpecExpr::Prefix(_, s) => case_free(*s),
        SpecExpr::Infix(_, l, r) => case_free(*l) && case_free(*r),
        SpecExpr::Case(_) => false,
    }
}

/// `if c then t else f`, written with `&`, `|` and `!`.
pub open spec fn ite(c: SpecExpr, t: SpecExpr, f: SpecExpr) -> SpecExpr {
    SpecExpr::Infix(
        Infix::Or,
        Box::new(SpecExpr::Infix(Infix::And, Box::new(c), Box::new(t))),
        Box::new(
            SpecExpr::Infix(
                Infix::And,
                Box::new(SpecExpr::Prefix(Prefix::Not, Box::new(c))),
                Box::new(f),
            ),
        ),
    )
}

/// `e` with each `case` rewritten: the branches from the last one back are
/// folded into `if cond then value else rest`, starting from the value of the
/// last branch (whose condition is not consulted).
pub open spec fn flat_case(e: SpecExpr) -> SpecExpr
    decreases e, 0nat,
{
    match e {
        SpecExpr::Ident(_) => e,
        SpecExpr::Lit(_) => e,
        SpecExpr::Prefix(op, s) => SpecExpr::Prefix(op, Box::new(flat_case(*s))),
        SpecExpr::Infix(op, l, r) => SpecExpr::Infix(
            op,
            Box::new(flat_case(*l)),
            Box::new(flat_case(*r)),
        ),
        SpecExpr::Case(bs) => if bs.len() == 0 {
            e
        } else {
            case_chain(bs, 0)
        },
    }
}

/// The rewritten form of branches `i..` of a nonempty `case`.
pub open spec fn case_chain(bs: Seq<(SpecExpr, SpecExpr)>, i: nat) -> SpecExpr
    decreases bs, bs.len() - i,
{
    if i + 1 >= bs.len() {
        if bs.len() == 0 {
            SpecExpr::Lit(false)
        } else {
            flat_case(bs[bs.len() - 1].1)
        }
    } else {
        ite(flat_case(bs[i as int].0), flat_case(bs[i as int].1), case_chain(bs, i + 1))
    }
}

/// Rewriting `case` expressions leaves none, when every `case` has a branch.
pub proof fn lemma_flat_case_case_free(e: SpecExpr)
    requires
        cases_nonempty(e),
    ensures
        case_free(flat_case(e)),
    decreases e, 0nat,
{
    match e {
        SpecExpr::Ident(_) => {},
        SpecExpr::Lit(_) => {},
        SpecExpr::Prefix(op, s) => {
            lemma_flat_case_case_free(*s);
        },
        SpecExpr::Infix(op, l, r) => {
            lemma_flat_case_case_free(*l);
            lemma_flat_case_case_free(*r);
        },
        SpecExpr::Case(bs) => {
            assert(branches_nonempty(bs, bs.len()));
            lemma_branches_nonempty_all(bs, bs.len());
            lemma_case_chain_case_free(bs, 0);
        },
    }
}

pub proof fn lemma_branches_nonempty_all(bs: Seq<(SpecExpr, SpecExpr)>, k: nat)
    requires
        branches_nonempty(bs, k),
        k <= bs.len(),
    ensures
        forall|i: int|
            #![trigger bs[i]] 0 <= i < k ==> cases_nonempty(bs[i].0) && cases_nonempty(bs[i].1),
    decreases k,
{
    if k > 0 {
        lemma_branches_nonempty_all(bs, (k - 1) as nat);
    }
}

proof fn lemma_case_chain_case_free(bs: Seq<(SpecExpr, SpecExpr)>, i: nat)
    requires
        bs.len() > 0,
        forall|j: int|
            #![trigger bs[j]] 0 <= j < bs.len() ==> cases_nonempty(bs[j].0) && cases_nonempty(bs[j].1),
    ensures
        case_free(case_chain(bs, i)),
    decreases bs, bs.len() - i,
{
    if i + 1 >= bs.len() {
        assert(cases_nonempty(bs[bs.len() - 1].1));
        lemma_flat_case_case_free(bs[bs.len() - 1].1);
    } else {
        assert(cases_nonempty(bs[i as int].0));
        lemma_flat_case_case_free(bs[i as int].0);
        lemma_flat_case_case_free(bs[i as int].1);
        lemma_case_chain_case_free(bs, i + 1);
        let c = flat_case(bs[i as int].0);
        let t = flat_case(bs[i as int].1);
        let f = case_chain(bs, i + 1);
        assert(case_free(SpecExpr::Prefix(Prefix::Not, Box::new(c))));
        assert(case_free(SpecExpr::Infix(Infix::And, Box::new(c), Box::new(t))));
        assert(case_free(
            SpecExpr::Infix(
                Infix::And,
                Box::new(SpecExpr::Prefix(Prefix::Not, Box::new(c))),
                Box::new(f),
            ),
        ));
        assert(case_free(ite(c, t, f)));
    }
}

fn flatten_case_rec(e: Expr) -> (r: Expr)
    requires
        cases_nonempty(e@),
    ensures
        r@ == flat_case(e@),
    decreases e,
{
    match e {
        Expr::Ident(_) => e,
        Expr::LitExpr(_) => e,
        Expr::PrefixExpr(op, sub) => Expr::PrefixExpr(op, Box::new(flatten_case_rec(*sub))),
        Expr::InfixExpr(op, l, r) => Expr::InfixExpr(
            op,
            Box::new(flatten_case_rec(*l)),
            Box::new(flatten_case_rec(*r)),
        ),
        Expr::CaseExpr(c) => {
            let ghost orig = c.branchs@;
            let ghost vb = view_branches(orig);
            proof {
                lemma_view_branches(orig);
                assert(branches_nonempty(vb, vb.len()));
                lemma_branches_nonempty_all(vb, vb.len());
            }
            let mut bs = c.branchs;
            let n = bs.len();
            let last = bs.pop().unwrap();
            proof {
                assert(decreases_to!(orig => orig[n - 1]));
                assert(vb[n - 1].1 == last.1@);
            }
            let mut ans = flatten_case_rec(last.1);
            let mut i = n - 1;
            while i > 0
                invariant
                    0 < n == orig.len() == vb.len(),
                    i < n,
                    bs@ == orig.subrange(0, i as int),
                    vb == branch_views(orig),
                    forall|j: int|
                        #![trigger vb[j]]
                        0 <= j < vb.len() ==> cases_nonempty(vb[j].0) && cases_nonempty(vb[j].1),
                    ans@ == case_chain(vb, i as nat),
                    forall|j: int| 0 <= j < n ==> decreases_to!(e => #[trigger] orig[j]),
                decreases i,
            {
                i = i - 1;
                let b = bs.pop().unwrap();
                proof {
                    assert(b == orig[i as int]);
                    assert(vb[i as int] == (b.0@, b.1@));
                    assert(decreases_to!(e => orig[i as int]));
                }
                let cond = flatten_case_rec(b.0);
                let cond2 = copy_expr(&cond);
                let res = flatten_case_rec(b.1);
                let left = core::ops::BitAnd::bitand(cond, res);
                let right = core::ops::BitAnd::bitand(core::ops::Not::not(cond2), ans);
                ans = core::ops::BitOr::bitor(left, right);
                assert(bs@ =~= orig.subrange(0, i as int));
            }
            ans
        },
    }
}

impl Smv {
    /// Rewrites each `case` in `expr` into `&`, `|` and `!` (see [`flat_case`]);
    /// the result means what `expr` means.
    pub fn flatten_case(&self, expr: Expr) -> (r: Expr)
        requires
            cases_nonempty(expr@),
        ensures
            r@ == flat_case(expr@),
            case_free(r@),
            forall|w: nat, sym: Seq<(Seq<char>, usize)>, d: Map<Seq<char>, SpecExpr>, rank: spec_fn(Seq<char>) -> nat, b: nat|
                #[trigger] expr_sem(w, sym, d, rank, b, r@) == expr_sem(w, sym, d, rank, b, expr@),
    {
        proof {
            lemma_flat_case_case_free(expr@);
            assert forall|w: nat, sym: Seq<(Seq<char>, usize)>, d: Map<Seq<char>, SpecExpr>, rank: spec_fn(Seq<char>) -> nat, b: nat|
                #[trigger] expr_sem(w, sym, d, rank, b, flat_case(expr@)) == expr_sem(w, sym, d, rank, b, expr@) by {
                lemma_flat_case_keeps_meaning(w, sym, d, rank, b, expr@);
            }
        }
        flatten_case_rec(expr)
    }
}

} // verus!
