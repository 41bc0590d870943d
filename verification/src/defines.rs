//! Identifiers that expressions mention, and well-founded defines.
use crate::ast::SpecExpr;
use vstd::prelude::*;

verus! {

/// `e` mentions the identifier `x`.
pub open spec fn mentions(e: SpecExpr, x: Seq<char>) -> bool
    decreases e, 0nat,
{
    match e {
        SpecExpr::Ident(y) => y == x,
        SpecExpr::Lit(_) => false,
        SpecExpr::Prefix(_, s) => mentions(*s, x),
        SpecExpr::Infix(_, l, r) => mentions(*l, x) || mentions(*r, x),
        SpecExpr::Case(bs) => branches_mention(bs, bs.len(), x),
    }
}

/// One of the first `k` branches mentions `x`.
pub open spec fn branches_mention(bs: Seq<(SpecExpr, SpecExpr)>, k: nat, x: Seq<char>) -> bool
    decreases bs, k,
{
    if k == 0 || k > bs.len() {
        false
    } else {
        branches_mention(bs, (k - 1) as nat, x) || mentions(bs[k - 1].0, x) || mentions(
            bs[k - 1].1,
            x,
        )
    }
}

/// A branch that mentions `x` makes the `case` mention it.
pub proof fn lemma_branch_mentions(bs: Seq<(SpecExpr, SpecExpr)>, k: nat, i: int, x: Seq<char>)
    requires
        0 <= i < k <= bs.len(),
        mentions(bs[i].0, x) || mentions(bs[i].1, x),
    ensures
        branches_mention(bs, k, x),
    decreases k,
{
    if i < k - 1 {
        lemma_branch_mentions(bs, (k - 1) as nat, i, x);
    }
}

/// `rank` orders the defines of `d`: each define's expression mentions only
/// defines of lower rank, and every rank is below the number of defines.
pub open spec fn ranked(d: Map<Seq<char>, SpecExpr>, rank: spec_fn(Seq<char>) -> nat) -> bool {
    &&& d.dom().finite()
    &&& forall|k: Seq<char>| #[trigger]
        d.contains_key(k) ==> rank(k) < d.dom().len() && forall|y: Seq<char>|
            d.contains_key(y) && mentions(d[k], y) ==> rank(y) < rank(k)
}

/// No define depends on itself, directly or through other defines.
pub open spec fn acyclic(d: Map<Seq<char>, SpecExpr>) -> bool {
    exists|rank: spec_fn(Seq<char>) -> nat| ranked(d, rank)
}

/// A ranking of the defines of `d`, where one exists.
pub open spec fn define_rank(d: Map<Seq<char>, SpecExpr>) -> spec_fn(Seq<char>) -> nat {
    choose|rank: spec_fn(Seq<char>) -> nat| ranked(d, rank)
}

/// Every define that `e` mentions has rank below `b`.
pub open spec fn bounded(
    d: Map<Seq<char>, SpecExpr>,
    rank: spec_fn(Seq<char>) -> nat,
    b: nat,
    e: SpecExpr,
) -> bool {
    forall|y: Seq<char>| d.contains_key(y) && #[trigger] mentions(e, y) ==> rank(y) < b
}

} // verus!
