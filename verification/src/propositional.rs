//! Inlining the defines that an LTL formula needs expanded.
use crate::ast::{
    branch_views, copy_expr, lemma_view_branches, view_branches, CaseExpr, Expr, Infix, Prefix,
    SpecExpr,
};
use crate::defines::{acyclic, bounded, branches_mention, define_rank, lemma_branch_mentions, mentions, ranked};
use crate::expand::{lemma_bounded_branch, lemma_bounded_sub};
use crate::smv::Smv;
use vstd::prelude::*;

verus! {

/// The operators that, with no rewritten operand, leave the whole unrewritten.
pub open spec fn is_boolean_connective(op: Infix) -> bool {
    op == Infix::And || op == Infix::Or || op == Infix::Iff || op == Infix::Imply
}

/// The rewriting of `e` that replaces a define by the rewriting of its
/// expression, or `None` where `e` is left as it is: an identifier that is not a
/// define, or a literal, is left; a negation, or one of `&`, `|`, `<->`, `->`,
/// is left when its operands are; other operators are rebuilt with their
/// rewritten operands (an operand left as it is stays); a `case` is left when
/// all its conditions and values are.
pub open spec fn prop_rec(
    d: Map<Seq<char>, SpecExpr>,
    rank: spec_fn(Seq<char>) -> nat,
    b: nat,
    e: SpecExpr,
) -> Option<SpecExpr>
    decreases b, e, 0nat,
{
    match e {
        SpecExpr::Ident(x) => if d.contains_key(x) && rank(x) < b {
            prop_rec(d, rank, rank(x), d[x])
        } else {
            None
        },
        SpecExpr::Lit(_) => None,
        SpecExpr::Prefix(p, s) => match prop_rec(d, rank, b, *s) {
            Some(s2) => Some(SpecExpr::Prefix(p, Box::new(s2))),
            None => if p == Prefix::Not {
                None
            } else {
                Some(SpecExpr::Prefix(p, s))
            },
        },
        SpecExpr::Infix(op, l, r) => match (prop_rec(d, rank, b, *l), prop_rec(d, rank, b, *r)) {
            (None, None) => if is_boolean_connective(op) {
                None
            } else {
                Some(SpecExpr::Infix(op, l, r))
            },
            (None, Some(r2)) => Some(SpecExpr::Infix(op, l, Box::new(r2))),
            (Some(l2), None) => Some(SpecExpr::Infix(op, Box::new(l2), r)),
            (Some(l2), Some(r2)) => Some(SpecExpr::Infix(op, Box::new(l2), Box::new(r2))),
        },
        SpecExpr::Case(bs) => {
            let (update, res) = prop_branches(d, rank, b, bs, bs.len());
            if update {
                Some(SpecExpr::Case(res))
            } else {
                None
            }
        },
    }
}

/// The rewriting of `e`, or `e` itself where it is left.
pub open spec fn or_self(o: Option<SpecExpr>, e: SpecExpr) -> SpecExpr {
    match o {
        Some(x) => x,
        None => e,
    }
}

/// The first `k` branches, each condition and value rewritten or left, and
/// whether one of them was rewritten.
pub open spec fn prop_branches(
    d: Map<Seq<char>, SpecExpr>,
    rank: spec_fn(Seq<char>) -> nat,
    b: nat,
    bs: Seq<(SpecExpr, SpecExpr)>,
    k: nat,
) -> (bool, Seq<(SpecExpr, SpecExpr)>)
    decreases b, bs, k,
{
    if k == 0 || k > bs.len() {
        (false, Seq::empty())
    } else {
        let (u, res) = prop_branches(d, rank, b, bs, (k - 1) as nat);
        let c = prop_rec(d, rank, b, bs[k - 1].0);
        let v = prop_rec(d, rank, b, bs[k - 1].1);
        (
            u || c is Some || v is Some,
            res.push((or_self(c, bs[k - 1].0), or_self(v, bs[k - 1].1))),
        )
    }
}

/// [`prop_rec`] over all defines of `d`, with `e` where it is left.
pub open spec fn prop_top(d: Map<Seq<char>, SpecExpr>, e: SpecExpr) -> SpecExpr {
    or_self(prop_rec(d, define_rank(d), d.dom().len(), e), e)
}

/// One rewriting at bound `b`: the rewriting of `e`, or `e` where it is left.
pub open spec fn prop_step(
    d: Map<Seq<char>, SpecExpr>,
    rank: spec_fn(Seq<char>) -> nat,
    b: nat,
    e: SpecExpr,
) -> SpecExpr {
    or_self(prop_rec(d, rank, b, e), e)
}

/// The branches that `prop_branches` gives: each condition and value taken
/// one rewriting step; none rewritten where the flag is clear.
proof fn lemma_prop_branches_parts(
    d: Map<Seq<char>, SpecExpr>,
    rank: spec_fn(Seq<char>) -> nat,
    b: nat,
    bs: Seq<(SpecExpr, SpecExpr)>,
    k: nat,
)
    requires
        k <= bs.len(),
    ensures
        prop_branches(d, rank, b, bs, k).1.len() == k,
        forall|j: int| 0 <= j < k ==> #[trigger] prop_branches(d, rank, b, bs, k).1[j] == (
            prop_step(d, rank, b, bs[j].0),
            prop_step(d, rank, b, bs[j].1),
        ),
        !prop_branches(d, rank, b, bs, k).0 ==> forall|j: int|
            0 <= j < k ==> prop_rec(d, rank, b, #[trigger] bs[j].0) is None && prop_rec(d, rank, b, bs[j].1) is None,
    decreases k,
{
    if k > 0 {
        lemma_prop_branches_parts(d, rank, b, bs, (k - 1) as nat);
        let prev = prop_branches(d, rank, b, bs, (k - 1) as nat);
        let cur = prop_branches(d, rank, b, bs, k);
        assert forall|j: int| 0 <= j < k implies #[trigger] cur.1[j] == (
            prop_step(d, rank, b, bs[j].0),
            prop_step(d, rank, b, bs[j].1),
        ) by {
            if j < k - 1 {
                assert(cur.1[j] == prev.1[j]);
            }
        }
        if !cur.0 {
            assert forall|j: int| 0 <= j < k implies prop_rec(d, rank, b, #[trigger] bs[j].0) is None && prop_rec(d, rank, b, bs[j].1) is None by {
                if j < k - 1 {
                    assert(!prev.0);
                }
            }
        }
    }
}

/// Rewriting again at a bound `b2 >= b` leaves a rewritten expression as it
/// is.
proof fn lemma_prop_step_fixed(
    d: Map<Seq<char>, SpecExpr>,
    rank: spec_fn(Seq<char>) -> nat,
    b: nat,
    b2: nat,
    e: SpecExpr,
)
    requires
        ranked(d, rank),
        bounded(d, rank, b, e),
        b <= b2,
    ensures
        prop_step(d, rank, b2, prop_step(d, rank, b, e)) == prop_step(d, rank, b, e),
    decreases b, e, 0nat,
{
    match e {
        SpecExpr::Ident(x) => {
            if d.contains_key(x) {
                assert(mentions(e, x));
                assert(bounded(d, rank, rank(x), d[x]));
                lemma_prop_step_fixed(d, rank, rank(x), b2, d[x]);
            }
        },
        SpecExpr::Lit(_) => {},
        SpecExpr::Prefix(p, s) => {
            lemma_bounded_sub(d, rank, b, e, *s);
            lemma_prop_step_fixed(d, rank, b, b2, *s);
        },
        SpecExpr::Infix(op, l, r) => {
            lemma_bounded_sub(d, rank, b, e, *l);
            lemma_bounded_sub(d, rank, b, e, *r);
            lemma_prop_step_fixed(d, rank, b, b2, *l);
            lemma_prop_step_fixed(d, rank, b, b2, *r);
        },
        SpecExpr::Case(bs) => {
            let n = bs.len();
            lemma_prop_branches_parts(d, rank, b, bs, n);
            let (u, res) = prop_branches(d, rank, b, bs, n);
            assert forall|j: int| 0 <= j < n implies prop_step(d, rank, b2, #[trigger] res[j].0) == res[j].0
                && prop_step(d, rank, b2, res[j].1) == res[j].1 by {
                assert(decreases_to!(bs => bs[j]));
                lemma_bounded_branch(d, rank, b, bs, j);
                lemma_prop_step_fixed(d, rank, b, b2, bs[j].0);
                lemma_prop_step_fixed(d, rank, b, b2, bs[j].1);
                assert(res[j] == (prop_step(d, rank, b, bs[j].0), prop_step(d, rank, b, bs[j].1)));
            }
            lemma_prop_branches_parts(d, rank, b2, res, n);
            assert(prop_branches(d, rank, b2, res, n).1 =~= res) by {
                assert forall|j: int| 0 <= j < n implies #[trigger] prop_branches(d, rank, b2, res, n).1[j] == res[j] by {
                    assert(prop_step(d, rank, b2, res[j].0) == res[j].0);
                }
            }
            if !u && n > 0 {
                assert(res =~= bs) by {
                    assert forall|j: int| 0 <= j < n implies #[trigger] res[j] == bs[j] by {
                        assert(prop_rec(d, rank, b, bs[j].0) is None);
                        assert(res[j] == (prop_step(d, rank, b, bs[j].0), prop_step(d, rank, b, bs[j].1)));
                    }
                }
            }
        },
    }
}

/// Rewriting twice is rewriting once: `flatten_to_propositional_define` is
/// idempotent.
pub proof fn lemma_prop_top_idempotent(d: Map<Seq<char>, SpecExpr>, e: SpecExpr)
    requires
        acyclic(d),
    ensures
        prop_top(d, prop_top(d, e)) == prop_top(d, e),
{
    let rank = define_rank(d);
    assert(ranked(d, rank));
    assert(bounded(d, rank, d.dom().len(), e));
    lemma_prop_step_fixed(d, rank, d.dom().len(), d.dom().len(), e);
}

/// A `case` that mentions `y` has a condition or value that does.
proof fn lemma_branches_mention_some(bs: Seq<(SpecExpr, SpecExpr)>, k: nat, y: Seq<char>) -> (j: int)
    requires
        branches_mention(bs, k, y),
    ensures
        0 <= j < k,
        j < bs.len(),
        mentions(bs[j].0, y) || mentions(bs[j].1, y),
    decreases k,
{
    if branches_mention(bs, (k - 1) as nat, y) {
        lemma_branches_mention_some(bs, (k - 1) as nat, y)
    } else {
        k - 1
    }
}

/// An expression that the rewriting leaves names only defines whose bodies
/// it leaves too.
proof fn lemma_prop_none_settled(
    d: Map<Seq<char>, SpecExpr>,
    rank: spec_fn(Seq<char>) -> nat,
    b: nat,
    e: SpecExpr,
)
    requires
        ranked(d, rank),
        bounded(d, rank, b, e),
        prop_rec(d, rank, b, e) is None,
    ensures
        forall|y: Seq<char>| #[trigger] mentions(e, y) && d.contains_key(y) ==> prop_rec(d, rank, rank(y), d[y]) is None,
    decreases e,
{
    match e {
        SpecExpr::Ident(x) => {
            assert forall|y: Seq<char>| #[trigger] mentions(e, y) && d.contains_key(y) implies prop_rec(d, rank, rank(y), d[y]) is None by {
                assert(y == x);
                assert(mentions(e, x));
                assert(rank(x) < b);
                assert(prop_rec(d, rank, b, e) == prop_rec(d, rank, rank(x), d[x]));
            }
        },
        SpecExpr::Lit(_) => {},
        SpecExpr::Prefix(p, s) => {
            lemma_bounded_sub(d, rank, b, e, *s);
            lemma_prop_none_settled(d, rank, b, *s);
            assert forall|y: Seq<char>| #[trigger] mentions(e, y) && d.contains_key(y) implies prop_rec(d, rank, rank(y), d[y]) is None by {
                assert(mentions(e, y) == mentions(*s, y));
            }
        },
        SpecExpr::Infix(op, l, r) => {
            lemma_bounded_sub(d, rank, b, e, *l);
            lemma_bounded_sub(d, rank, b, e, *r);
            lemma_prop_none_settled(d, rank, b, *l);
            lemma_prop_none_settled(d, rank, b, *r);
            assert forall|y: Seq<char>| #[trigger] mentions(e, y) && d.contains_key(y) implies prop_rec(d, rank, rank(y), d[y]) is None by {
                assert(mentions(e, y) == (mentions(*l, y) || mentions(*r, y)));
            }
        },
        SpecExpr::Case(bs) => {
            lemma_prop_branches_parts(d, rank, b, bs, bs.len());
            assert forall|y: Seq<char>| #[trigger] mentions(e, y) && d.contains_key(y) implies prop_rec(d, rank, rank(y), d[y]) is None by {
                let j = lemma_branches_mention_some(bs, bs.len(), y);
                assert(decreases_to!(bs => bs[j]));
                lemma_bounded_branch(d, rank, b, bs, j);
                if mentions(bs[j].0, y) {
                    lemma_prop_none_settled(d, rank, b, bs[j].0);
                } else {
                    lemma_prop_none_settled(d, rank, b, bs[j].1);
                }
            }
        },
    }
}

/// The rewriting of an expression names only defines whose bodies the
/// rewriting leaves.
proof fn lemma_prop_some_settled(
    d: Map<Seq<char>, SpecExpr>,
    rank: spec_fn(Seq<char>) -> nat,
    b: nat,
    e: SpecExpr,
)
    requires
        ranked(d, rank),
        bounded(d, rank, b, e),
    ensures
        forall|y: Seq<char>| #[trigger] mentions(prop_step(d, rank, b, e), y) && d.contains_key(y) ==> prop_rec(
            d,
            rank,
            rank(y),
            d[y],
        ) is None,
    decreases b, e, 0nat,
{
    if prop_rec(d, rank, b, e) is None {
        lemma_prop_none_settled(d, rank, b, e);
    } else {
        match e {
            SpecExpr::Ident(x) => {
                assert(mentions(e, x));
                lemma_prop_some_settled(d, rank, rank(x), d[x]);
                assert(prop_step(d, rank, b, e) == prop_step(d, rank, rank(x), d[x]));
            },
            SpecExpr::Lit(_) => {},
            SpecExpr::Prefix(p, s) => {
                lemma_bounded_sub(d, rank, b, e, *s);
                lemma_prop_some_settled(d, rank, b, *s);
                assert forall|y: Seq<char>| #[trigger] mentions(prop_step(d, rank, b, e), y) && d.contains_key(y) implies prop_rec(d, rank, rank(y), d[y]) is None by {
                    assert(mentions(prop_step(d, rank, b, e), y) == mentions(prop_step(d, rank, b, *s), y));
                }
            },
            SpecExpr::Infix(op, l, r) => {
                lemma_bounded_sub(d, rank, b, e, *l);
                lemma_bounded_sub(d, rank, b, e, *r);
                lemma_prop_some_settled(d, rank, b, *l);
                lemma_prop_some_settled(d, rank, b, *r);
                assert forall|y: Seq<char>| #[trigger] mentions(prop_step(d, rank, b, e), y) && d.contains_key(y) implies prop_rec(d, rank, rank(y), d[y]) is None by {
                    assert(mentions(prop_step(d, rank, b, e), y) == (mentions(prop_step(d, rank, b, *l), y) || mentions(prop_step(d, rank, b, *r), y)));
                }
            },
            SpecExpr::Case(bs) => {
                let n = bs.len();
                lemma_prop_branches_parts(d, rank, b, bs, n);
                let res = prop_branches(d, rank, b, bs, n).1;
                assert forall|y: Seq<char>| #[trigger] mentions(prop_step(d, rank, b, e), y) && d.contains_key(y) implies prop_rec(d, rank, rank(y), d[y]) is None by {
                    assert(prop_step(d, rank, b, e) == SpecExpr::Case(res));
                    let j = lemma_branches_mention_some(res, res.len(), y);
                    assert(decreases_to!(bs => bs[j]));
                    lemma_bounded_branch(d, rank, b, bs, j);
                    assert(res[j] == (prop_step(d, rank, b, bs[j].0), prop_step(d, rank, b, bs[j].1)));
                    lemma_prop_some_settled(d, rank, b, bs[j].0);
                    lemma_prop_some_settled(d, rank, b, bs[j].1);
                }
            },
        }
    }
}

/// After the rewriting, every define that the result still names has a body
/// that the rewriting leaves as it is (see [`prop_rec`]).
pub proof fn lemma_prop_top_settled(d: Map<Seq<char>, SpecExpr>, e: SpecExpr)
    requires
        acyclic(d),
    ensures
        forall|y: Seq<char>| #[trigger] mentions(prop_top(d, e), y) && d.contains_key(y) ==> prop_rec(
            d,
            define_rank(d),
            define_rank(d)(y),
            d[y],
        ) is None,
{
    let rank = define_rank(d);
    assert(ranked(d, rank));
    assert(bounded(d, rank, d.dom().len(), e));
    lemma_prop_some_settled(d, rank, d.dom().len(), e);
}

pub open spec fn opt_view(r: Option<Expr>) -> Option<SpecExpr> {
    match r {
        Some(x) => Some(x@),
        None => None,
    }
}

impl Smv {
    fn flatten_to_propositional_define_rec(
        &self,
        expr: &Expr,
        Ghost(rank): Ghost<spec_fn(Seq<char>) -> nat>,
        Ghost(b): Ghost<nat>,
    ) -> (r: Option<Expr>)
        requires
            ranked(self@.defines, rank),
            bounded(self@.defines, rank, b, expr@),
        ensures
            opt_view(r) == prop_rec(self@.defines, rank, b, expr@),
        decreases b, expr,
    {
        let ghost d = self@.defines;
        match expr {
            Expr::Ident(ident) => {
                match self.get_define(ident) {
                    Some(define) => {
                        assert(mentions(expr@, ident@));
                        self.flatten_to_propositional_define_rec(
                            &define.expr,
                            Ghost(rank),
                            Ghost(rank(ident@)),
                        )
                    },
                    None => None,
                }
            },
            Expr::LitExpr(_) => None,
            Expr::PrefixExpr(prefix, sub_expr) => {
                assert(expr@ == SpecExpr::Prefix(*prefix, Box::new(sub_expr@)));
                proof {
                    lemma_bounded_sub(d, rank, b, expr@, sub_expr@);
                }
                let sub = match self.flatten_to_propositional_define_rec(
                    sub_expr,
                    Ghost(rank),
                    Ghost(b),
                ) {
                    Some(sub) => sub,
                    None => {
                        if let Prefix::Not = *prefix {
                            return None;
                        }
                        copy_expr(sub_expr)
                    },
                };
                Some(Expr::PrefixExpr(*prefix, Box::new(sub)))
            },
            Expr::InfixExpr(infix, left, right) => {
                assert(expr@ == SpecExpr::Infix(*infix, Box::new(left@), Box::new(right@)));
                proof {
                    lemma_bounded_sub(d, rank, b, expr@, left@);
                    lemma_bounded_sub(d, rank, b, expr@, right@);
                }
                let left_flatten = self.flatten_to_propositional_define_rec(
                    left,
                    Ghost(rank),
                    Ghost(b),
                );
                let right_flatten = self.flatten_to_propositional_define_rec(
                    right,
                    Ghost(rank),
                    Ghost(b),
                );
                let (l, r) = match (left_flatten, right_flatten) {
                    (None, None) => {
                        match infix {
                            Infix::And | Infix::Or | Infix::Iff | Infix::Imply => {
                                return None;
                            },
                            _ => {},
                        }
                        (copy_expr(left), copy_expr(right))
                    },
                    (None, Some(r)) => (copy_expr(left), r),
                    (Some(l), None) => (l, copy_expr(right)),
                    (Some(l), Some(r)) => (l, r),
                };
                Some(Expr::InfixExpr(*infix, Box::new(l), Box::new(r)))
            },
            Expr::CaseExpr(case_expr) => {
                let ghost bs0 = case_expr.branchs@;
                let ghost vb = view_branches(bs0);
                proof {
                    lemma_view_branches(bs0);
                    assert(expr@ == SpecExpr::Case(vb));
                }
                let mut update = false;
                let mut res: Vec<(Expr, Expr)> = Vec::new();
                let mut i: usize = 0;
                let n = case_expr.branchs.len();
                assert(branch_views(res@) =~= Seq::<(SpecExpr, SpecExpr)>::empty());
                while i < n
                    invariant
                        i <= n == bs0.len() == vb.len(),
                        bs0 == case_expr.branchs@,
                        vb == branch_views(bs0),
                        expr@ == SpecExpr::Case(vb),
                        ranked(d, rank),
                        d == self@.defines,
                        bounded(d, rank, b, expr@),
                        forall|j: int| 0 <= j < n ==> decreases_to!(expr => #[trigger] bs0[j]),
                        (update, branch_views(res@)) == prop_branches(d, rank, b, vb, i as nat),
                    decreases n - i,
                {
                    let condition = &case_expr.branchs[i].0;
                    let branch = &case_expr.branchs[i].1;
                    proof {
                        assert(decreases_to!(expr => bs0[i as int]));
                        assert(vb[i as int] == (condition@, branch@));
                        lemma_bounded_branch(d, rank, b, vb, i as int);
                    }
                    let c = match self.flatten_to_propositional_define_rec(
                        condition,
                        Ghost(rank),
                        Ghost(b),
                    ) {
                        Some(c) => {
                            update = true;
                            c
                        },
                        None => copy_expr(condition),
                    };
                    let v = match self.flatten_to_propositional_define_rec(
                        branch,
                        Ghost(rank),
                        Ghost(b),
                    ) {
                        Some(v) => {
                            update = true;
                            v
                        },
                        None => copy_expr(branch),
                    };
                    let ghost before = branch_views(res@);
                    let ghost pair = (c@, v@);
                    res.push((c, v));
                    assert(branch_views(res@) =~= before.push(pair));
                    i = i + 1;
                }
                if !update {
                    return None;
                }
                proof {
                    lemma_view_branches(res@);
                }
                Some(Expr::CaseExpr(CaseExpr { branchs: res }))
            },
        }
    }

    /// The rewriting of `expr` that [`prop_top`] describes.
    pub fn flatten_to_propositional_define(&self, expr: &Expr) -> (r: Expr)
        requires
            acyclic(self@.defines),
        ensures
            r@ == prop_top(self@.defines, expr@),
    {
        let ghost d = self@.defines;
        let ghost rank = define_rank(d);
        proof {
            assert(ranked(d, rank));
        }
        match self.flatten_to_propositional_define_rec(
            expr,
            Ghost(rank),
            Ghost(d.dom().len()),
        ) {
            Some(res) => res,
            None => copy_expr(expr),
        }
    }
}

} // verus!
