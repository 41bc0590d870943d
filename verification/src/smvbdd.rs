//! The BDDs of an SMV model: each expression becomes the set of valuations
//! on which it holds, variable `i` of the model standing for BDD variable
//! `2 i` and its next-state copy for `2 i + 1`.
use vstd::prelude::*;
use crate::ast::{lemma_view_branches, view_branches, Expr, Infix, Prefix, SpecExpr};
use crate::bdd::{Bdd, BddManager};
use crate::defines::{acyclic, define_rank, ranked};
use crate::flatten::{case_chain, flat_case};
use crate::fsm::{symbols_view, FsmBdd};
use crate::smv::{find_define, Define, Smv, SpecSmv};
use crate::trans::{bm_width, conj, denotes, Trans, TransBddMethod};
use crate::valuation::{complement, next_set, valuations, var_set};

verus! {

/// The index that the last entry for `x` gives it.
pub open spec fn lookup(sym: Seq<(Seq<char>, usize)>, x: Seq<char>) -> Option<usize>
    decreases sym.len(),
{
    if sym.len() == 0 {
        None
    } else if sym.last().0 == x {
        Some(sym.last().1)
    } else {
        lookup(sym.drop_last(), x)
    }
}

/// `if c then t else e` on sets of valuations of `w` variables.
pub open spec fn ite(
    w: nat,
    c: Set<Seq<bool>>,
    t: Set<Seq<bool>>,
    e: Set<Seq<bool>>,
) -> Set<Seq<bool>> {
    c.intersect(t).union(complement(w, c).intersect(e))
}

/// The valuations in exactly one of `a` and `b`.
pub open spec fn sym_diff(a: Set<Seq<bool>>, b: Set<Seq<bool>>) -> Set<Seq<bool>> {
    a.difference(b).union(b.difference(a))
}

/// The valuations on which `e` holds. A define stands for its expression
/// (`rank` orders the defines, and `b` bounds the ranks `e` may use); another
/// identifier stands for the variable that `sym` gives it; `next` renames to
/// next-state variables; a `case` takes the value of the first branch whose
/// condition holds, the last branch taken without looking at its condition.
pub open spec fn expr_sem(
    w: nat,
    sym: Seq<(Seq<char>, usize)>,
    d: Map<Seq<char>, SpecExpr>,
    rank: spec_fn(Seq<char>) -> nat,
    b: nat,
    e: SpecExpr,
) -> Set<Seq<bool>>
    decreases b, e, 0nat,
{
    match e {
        SpecExpr::Ident(x) => if d.contains_key(x) {
            if rank(x) < b {
                expr_sem(w, sym, d, rank, rank(x), d[x])
            } else {
                Set::empty()
            }
        } else {
            match lookup(sym, x) {
                Some(i) => var_set(w, i as nat),
                None => Set::empty(),
            }
        },
        SpecExpr::Lit(v) => if v {
            valuations(w)
        } else {
            Set::empty()
        },
        SpecExpr::Prefix(p, s) => {
            let a = expr_sem(w, sym, d, rank, b, *s);
            match p {
                Prefix::Not => complement(w, a),
                Prefix::Next => next_set(w, a),
                _ => Set::empty(),
            }
        },
        SpecExpr::Infix(op, l, r) => {
            let a = expr_sem(w, sym, d, rank, b, *l);
            let c = expr_sem(w, sym, d, rank, b, *r);
            match op {
                Infix::And => a.intersect(c),
                Infix::Or => a.union(c),
                Infix::Xor => sym_diff(a, c),
                Infix::Imply => complement(w, a).union(c),
                Infix::Iff => complement(w, sym_diff(a, c)),
                _ => Set::empty(),
            }
        },
        SpecExpr::Case(bs) => case_sem(w, sym, d, rank, b, bs, 0),
    }
}

/// The value of the branches of a `case` from branch `k` on.
pub open spec fn case_sem(
    w: nat,
    sym: Seq<(Seq<char>, usize)>,
    d: Map<Seq<char>, SpecExpr>,
    rank: spec_fn(Seq<char>) -> nat,
    b: nat,
    bs: Seq<(SpecExpr, SpecExpr)>,
    k: nat,
) -> Set<Seq<bool>>
    decreases b, bs, bs.len() - k,
{
    if k + 1 >= bs.len() {
        if k < bs.len() {
            expr_sem(w, sym, d, rank, b, bs[k as int].1)
        } else {
            Set::empty()
        }
    } else {
        ite(
            w,
            expr_sem(w, sym, d, rank, b, bs[k as int].0),
            expr_sem(w, sym, d, rank, b, bs[k as int].1),
            case_sem(w, sym, d, rank, b, bs, k + 1),
        )
    }
}

/// Whether `e` can be made a BDD: it uses only negation, `next`, `&`, `|`,
/// `xor`, `->` and `<->`, its `case`s have branches, each define it uses has
/// rank below `b` and can be made a BDD, and each other identifier is a
/// symbol whose variable is below `w`.
pub open spec fn ready(
    w: nat,
    sym: Seq<(Seq<char>, usize)>,
    d: Map<Seq<char>, SpecExpr>,
    rank: spec_fn(Seq<char>) -> nat,
    b: nat,
    e: SpecExpr,
) -> bool
    decreases b, e, 0nat,
{
    match e {
        SpecExpr::Ident(x) => if d.contains_key(x) {
            rank(x) < b && ready(w, sym, d, rank, rank(x), d[x])
        } else {
            match lookup(sym, x) {
                Some(i) => i < w,
                None => false,
            }
        },
        SpecExpr::Lit(_) => true,
        SpecExpr::Prefix(p, s) => (p == Prefix::Not || p == Prefix::Next) && ready(
            w,
            sym,
            d,
            rank,
            b,
            *s,
        ),
        SpecExpr::Infix(op, l, r) => (op == Infix::And || op == Infix::Or || op == Infix::Xor || op
            == Infix::Imply || op == Infix::Iff) && ready(w, sym, d, rank, b, *l) && ready(
            w,
            sym,
            d,
            rank,
            b,
            *r,
        ),
        SpecExpr::Case(bs) => bs.len() > 0 && cases_ready(w, sym, d, rank, b, bs, 0),
    }
}

/// Whether the branches from `k` on can be made BDDs (the condition of the
/// last branch is not needed).
pub open spec fn cases_ready(
    w: nat,
    sym: Seq<(Seq<char>, usize)>,
    d: Map<Seq<char>, SpecExpr>,
    rank: spec_fn(Seq<char>) -> nat,
    b: nat,
    bs: Seq<(SpecExpr, SpecExpr)>,
    k: nat,
) -> bool
    decreases b, bs, bs.len() - k,
{
    if k + 1 >= bs.len() {
        k < bs.len() ==> ready(w, sym, d, rank, b, bs[k as int].1)
    } else {
        ready(w, sym, d, rank, b, bs[k as int].0) && ready(w, sym, d, rank, b, bs[k as int].1)
            && cases_ready(w, sym, d, rank, b, bs, k + 1)
    }
}

/// The meaning of `e` over all defines of `d`.
pub open spec fn top_sem(
    w: nat,
    sym: Seq<(Seq<char>, usize)>,
    d: Map<Seq<char>, SpecExpr>,
    e: SpecExpr,
) -> Set<Seq<bool>> {
    expr_sem(w, sym, d, define_rank(d), d.dom().len(), e)
}

/// `e` can be made a BDD over all defines of `d`.
pub open spec fn top_ready(
    w: nat,
    sym: Seq<(Seq<char>, usize)>,
    d: Map<Seq<char>, SpecExpr>,
    e: SpecExpr,
) -> bool {
    ready(w, sym, d, define_rank(d), d.dom().len(), e)
}

/// The meanings of the expressions `es`.
pub open spec fn sems(
    w: nat,
    sym: Seq<(Seq<char>, usize)>,
    d: Map<Seq<char>, SpecExpr>,
    es: Seq<SpecExpr>,
) -> Seq<Set<Seq<bool>>> {
    es.map_values(|e: SpecExpr| top_sem(w, sym, d, e))
}

/// Every entry of the cache is a define with the BDD of its meaning.
pub open spec fn cache_ok<B: Bdd>(
    sym: Seq<(Seq<char>, usize)>,
    d: Map<Seq<char>, SpecExpr>,
    rank: spec_fn(Seq<char>) -> nat,
    cache: Seq<(String, B)>,
) -> bool {
    forall|k: int|
        0 <= k < cache.len() ==> d.contains_key((#[trigger] cache[k]).0@) && cache[k].1.denote()
            == expr_sem(B::width(), sym, d, rank, rank(cache[k].0@), d[cache[k].0@])
}

/// `new` keeps the entries of `old` and may add more after them.
pub open spec fn cache_extends<B>(old: Seq<(String, B)>, new: Seq<(String, B)>) -> bool {
    old.len() <= new.len() && forall|k: int| 0 <= k < old.len() ==> #[trigger] new[k] == old[k]
}

/// Each connective holds on a valuation as its truth table says: `!e` where
/// `e` fails, `l & r` where both hold, `l | r` where either holds, `l xor r`
/// where exactly one holds, `l -> r` where `l` fails or `r` holds, and
/// `l <-> r` where the two agree; `TRUE` holds on every valuation and `FALSE`
/// on none.
pub proof fn lemma_connective_truth_tables(
    w: nat,
    sym: Seq<(Seq<char>, usize)>,
    d: Map<Seq<char>, SpecExpr>,
    rank: spec_fn(Seq<char>) -> nat,
    b: nat,
    l: SpecExpr,
    r: SpecExpr,
    v: Seq<bool>,
)
    requires
        v.len() == w,
    ensures
        ({
            let sl = expr_sem(w, sym, d, rank, b, l).contains(v);
            let sr = expr_sem(w, sym, d, rank, b, r).contains(v);
            let holds = |e: SpecExpr| expr_sem(w, sym, d, rank, b, e).contains(v);
            &&& holds(SpecExpr::Prefix(Prefix::Not, Box::new(l))) == !sl
            &&& holds(SpecExpr::Infix(Infix::And, Box::new(l), Box::new(r))) == (sl && sr)
            &&& holds(SpecExpr::Infix(Infix::Or, Box::new(l), Box::new(r))) == (sl || sr)
            &&& holds(SpecExpr::Infix(Infix::Xor, Box::new(l), Box::new(r))) == (sl != sr)
            &&& holds(SpecExpr::Infix(Infix::Imply, Box::new(l), Box::new(r))) == (sl ==> sr)
            &&& holds(SpecExpr::Infix(Infix::Iff, Box::new(l), Box::new(r))) == (sl == sr)
            &&& holds(SpecExpr::Lit(true))
            &&& !holds(SpecExpr::Lit(false))
        }),
{
}

/// A `case` takes the value of the first branch whose condition holds: on a
/// valuation where the condition of branch `i` holds (or `i` is the last
/// branch) and no earlier condition holds, the `case` holds exactly where the
/// value of branch `i` does.
pub proof fn lemma_case_first_branch_wins(
    w: nat,
    sym: Seq<(Seq<char>, usize)>,
    d: Map<Seq<char>, SpecExpr>,
    rank: spec_fn(Seq<char>) -> nat,
    b: nat,
    bs: Seq<(SpecExpr, SpecExpr)>,
    i: int,
    v: Seq<bool>,
)
    requires
        v.len() == w,
        0 <= i < bs.len(),
        i + 1 < bs.len() ==> expr_sem(w, sym, d, rank, b, bs[i].0).contains(v),
        forall|j: int| 0 <= j < i ==> !#[trigger] expr_sem(w, sym, d, rank, b, bs[j].0).contains(v),
    ensures
        expr_sem(w, sym, d, rank, b, SpecExpr::Case(bs)).contains(v) == expr_sem(
            w,
            sym,
            d,
            rank,
            b,
            bs[i].1,
        ).contains(v),
{
    lemma_case_sem_pick(w, sym, d, rank, b, bs, 0, i, v);
}

proof fn lemma_case_sem_pick(
    w: nat,
    sym: Seq<(Seq<char>, usize)>,
    d: Map<Seq<char>, SpecExpr>,
    rank: spec_fn(Seq<char>) -> nat,
    b: nat,
    bs: Seq<(SpecExpr, SpecExpr)>,
    k: nat,
    i: int,
    v: Seq<bool>,
)
    requires
        v.len() == w,
        k <= i < bs.len(),
        i + 1 < bs.len() ==> expr_sem(w, sym, d, rank, b, bs[i].0).contains(v),
        forall|j: int| k <= j < i ==> !#[trigger] expr_sem(w, sym, d, rank, b, bs[j].0).contains(v),
    ensures
        case_sem(w, sym, d, rank, b, bs, k).contains(v) == expr_sem(w, sym, d, rank, b, bs[i].1).contains(v),
    decreases i - k,
{
    if k + 1 < bs.len() && k < i {
        assert(!expr_sem(w, sym, d, rank, b, bs[k as int].0).contains(v));
        lemma_case_sem_pick(w, sym, d, rank, b, bs, k + 1, i, v);
    }
}

/// Rewriting the `case`s of an expression into `&`, `|` and `!` keeps its
/// meaning: the rewritten expression holds on exactly the valuations on which
/// the expression does.
pub proof fn lemma_flat_case_keeps_meaning(
    w: nat,
    sym: Seq<(Seq<char>, usize)>,
    d: Map<Seq<char>, SpecExpr>,
    rank: spec_fn(Seq<char>) -> nat,
    b: nat,
    e: SpecExpr,
)
    ensures
        expr_sem(w, sym, d, rank, b, flat_case(e)) == expr_sem(w, sym, d, rank, b, e),
    decreases e, 0nat,
{
    match e {
        SpecExpr::Ident(_) => {},
        SpecExpr::Lit(_) => {},
        SpecExpr::Prefix(op, s) => {
            lemma_flat_case_keeps_meaning(w, sym, d, rank, b, *s);
        },
        SpecExpr::Infix(op, l, r) => {
            lemma_flat_case_keeps_meaning(w, sym, d, rank, b, *l);
            lemma_flat_case_keeps_meaning(w, sym, d, rank, b, *r);
        },
        SpecExpr::Case(bs) => {
            if bs.len() > 0 {
                lemma_case_chain_meaning(w, sym, d, rank, b, bs, 0);
            }
        },
    }
}

proof fn lemma_case_chain_meaning(
    w: nat,
    sym: Seq<(Seq<char>, usize)>,
    d: Map<Seq<char>, SpecExpr>,
    rank: spec_fn(Seq<char>) -> nat,
    b: nat,
    bs: Seq<(SpecExpr, SpecExpr)>,
    i: nat,
)
    requires
        i < bs.len(),
    ensures
        expr_sem(w, sym, d, rank, b, case_chain(bs, i)) == case_sem(w, sym, d, rank, b, bs, i),
    decreases bs, bs.len() - i,
{
    if i + 1 >= bs.len() {
        lemma_flat_case_keeps_meaning(w, sym, d, rank, b, bs[bs.len() - 1].1);
    } else {
        lemma_flat_case_keeps_meaning(w, sym, d, rank, b, bs[i as int].0);
        lemma_flat_case_keeps_meaning(w, sym, d, rank, b, bs[i as int].1);
        lemma_case_chain_meaning(w, sym, d, rank, b, bs, i + 1);
        let c = expr_sem(w, sym, d, rank, b, bs[i as int].0);
        let t = expr_sem(w, sym, d, rank, b, bs[i as int].1);
        let f = case_sem(w, sym, d, rank, b, bs, i + 1);
        let fc = flat_case(bs[i as int].0);
        let ft = flat_case(bs[i as int].1);
        let fr = case_chain(bs, i + 1);
        assert(expr_sem(w, sym, d, rank, b, SpecExpr::Prefix(Prefix::Not, Box::new(fc))) == complement(w, c));
        assert(expr_sem(w, sym, d, rank, b, SpecExpr::Infix(Infix::And, Box::new(fc), Box::new(ft))) == c.intersect(t));
        assert(expr_sem(
            w,
            sym,
            d,
            rank,
            b,
            SpecExpr::Infix(
                Infix::And,
                Box::new(SpecExpr::Prefix(Prefix::Not, Box::new(fc))),
                Box::new(fr),
            ),
        ) == complement(w, c).intersect(f));
        assert(expr_sem(w, sym, d, rank, b, crate::flatten::ite(fc, ft, fr)) == ite(w, c, t, f));
    }
}

/// The cache has an entry for `k`.
pub open spec fn has_entry<B>(cache: Seq<(String, B)>, k: Seq<char>) -> bool {
    exists|i: int| 0 <= i < cache.len() && (#[trigger] cache[i]).0@ == k
}

/// The index of the last entry for `name`.
pub fn find_symbol(symbols: &Vec<(String, usize)>, name: &String) -> (r: Option<usize>)
    ensures
        r == lookup(symbols_view(symbols@), name@),
{
    let ghost sv = symbols_view(symbols@);
    let mut i = symbols.len();
    assert(sv.take(i as int) =~= sv);
    while i > 0
        invariant
            i <= symbols@.len(),
            sv == symbols_view(symbols@),
            lookup(sv, name@) == lookup(sv.take(i as int), name@),
        decreases i,
    {
        assert(sv.take(i as int).drop_last() =~= sv.take(i - 1));
        if symbols[i - 1].0 == *name {
            return Some(symbols[i - 1].1);
        }
        i = i - 1;
    }
    None
}

/// The position of some cached BDD for `name`.
fn find_cached<B: Bdd>(cache: &Vec<(String, B)>, name: &String) -> (r: Option<usize>)
    ensures
        match r {
            Some(i) => i < cache@.len() && cache@[i as int].0@ == name@,
            None => forall|k: int| 0 <= k < cache@.len() ==> (#[trigger] cache@[k]).0@ != name@,
        },
{
    let mut i: usize = 0;
    while i < cache.len()
        invariant
            i <= cache@.len(),
            forall|k: int| 0 <= k < i ==> (#[trigger] cache@[k]).0@ != name@,
        decreases cache@.len() - i,
    {
        if cache[i].0 == *name {
            return Some(i);
        }
        i = i + 1;
    }
    None
}

/// The BDD of `expr`, using and filling the cache of define BDDs.
fn expr_to_bdd_rec<BM: BddManager>(
    manager: &BM,
    symbols: &Vec<(String, usize)>,
    defines: &Vec<Define>,
    defines_cache: &mut Vec<(String, BM::Bdd)>,
    expr: &Expr,
    Ghost(rank): Ghost<spec_fn(Seq<char>) -> nat>,
    Ghost(b): Ghost<nat>,
) -> (r: BM::Bdd)
    requires
        ranked(crate::smv::defines_map(defines@), rank),
        ready(
            bm_width::<BM>(),
            symbols_view(symbols@),
            crate::smv::defines_map(defines@),
            rank,
            b,
            expr@,
        ),
        cache_ok(symbols_view(symbols@), crate::smv::defines_map(defines@), rank, old(defines_cache)@),
    ensures
        r.denote() == expr_sem(
            bm_width::<BM>(),
            symbols_view(symbols@),
            crate::smv::defines_map(defines@),
            rank,
            b,
            expr@,
        ),
        cache_ok(symbols_view(symbols@), crate::smv::defines_map(defines@), rank, final(defines_cache)@),
        cache_extends(old(defines_cache)@, final(defines_cache)@),
    decreases b, expr,
{
    let ghost w = bm_width::<BM>();
    let ghost sym = symbols_view(symbols@);
    let ghost d = crate::smv::defines_map(defines@);
    match expr {
        Expr::Ident(ident) => {
            match find_define(defines, ident) {
                Some(i) => {
                    proof {
                        crate::smv::lemma_defines_map_last(defines@, i as int, ident@);
                    }
                    match find_cached(defines_cache, ident) {
                        Some(k) => {
                            assert(defines_cache@[k as int].0@ == ident@);
                            defines_cache[k].1.duplicate()
                        },
                        None => {
                            let bdd = expr_to_bdd_rec(
                                manager,
                                symbols,
                                defines,
                                defines_cache,
                                &defines[i].expr,
                                Ghost(rank),
                                Ghost(rank(ident@)),
                            );
                            let ghost before = defines_cache@;
                            defines_cache.push((ident.clone(), bdd.duplicate()));
                            assert forall|k: int| 0 <= k < defines_cache@.len() implies d.contains_key(
                                (#[trigger] defines_cache@[k]).0@,
                            ) && defines_cache@[k].1.denote() == expr_sem(
                                w,
                                sym,
                                d,
                                rank,
                                rank(defines_cache@[k].0@),
                                d[defines_cache@[k].0@],
                            ) by {
                                if k < before.len() {
                                    assert(defines_cache@[k] == before[k]);
                                }
                            }
                            bdd
                        },
                    }
                },
                None => {
                    proof {
                        crate::smv::lemma_defines_map_absent(defines@, ident@);
                    }
                    let v = find_symbol(symbols, ident);
                    match v {
                        Some(v) => manager.ith_var(v),
                        None => {
                            assert(false);
                            manager.constant(false)
                        },
                    }
                },
            }
        },
        Expr::LitExpr(lit) => manager.constant(*lit),
        Expr::PrefixExpr(op, sub_expr) => {
            assert(expr@ == SpecExpr::Prefix(*op, Box::new(sub_expr@)));
            let expr_bdd = expr_to_bdd_rec(
                manager,
                symbols,
                defines,
                defines_cache,
                sub_expr,
                Ghost(rank),
                Ghost(b),
            );
            match op {
                Prefix::Not => expr_bdd.not(),
                Prefix::Next => expr_bdd.next_state(),
                _ => {
                    assert(false);
                    expr_bdd
                },
            }
        },
        Expr::InfixExpr(op, left, right) => {
            assert(expr@ == SpecExpr::Infix(*op, Box::new(left@), Box::new(right@)));
            let left_bdd = expr_to_bdd_rec(
                manager,
                symbols,
                defines,
                defines_cache,
                left,
                Ghost(rank),
                Ghost(b),
            );
            let right_bdd = expr_to_bdd_rec(
                manager,
                symbols,
                defines,
                defines_cache,
                right,
                Ghost(rank),
                Ghost(b),
            );
            match op {
                Infix::And => left_bdd.and(&right_bdd),
                Infix::Or => left_bdd.or(&right_bdd),
                Infix::Xor => left_bdd.xor(&right_bdd),
                Infix::Imply => left_bdd.not().or(&right_bdd),
                Infix::Iff => left_bdd.xor(&right_bdd).not(),
                _ => {
                    assert(false);
                    left_bdd
                },
            }
        },
        Expr::CaseExpr(case_expr) => {
            let ghost bs0 = case_expr.branchs@;
            let ghost vb = view_branches(bs0);
            proof {
                lemma_view_branches(bs0);
                assert(expr@ == SpecExpr::Case(vb));
            }
            let n = case_expr.branchs.len();
            assert(decreases_to!(expr => bs0[n - 1]));
            proof {
                lemma_cases_ready_from(w, sym, d, rank, b, vb, 0, (n - 1) as nat);
                assert(vb == crate::ast::branch_views(bs0));
                assert(vb[n - 1] == (bs0[n - 1].0@, bs0[n - 1].1@));
            }
            let mut ans = expr_to_bdd_rec(
                manager,
                symbols,
                defines,
                defines_cache,
                &case_expr.branchs[n - 1].1,
                Ghost(rank),
                Ghost(b),
            );
            let ghost orig = defines_cache@;
            let mut i = n - 1;
            while i > 0
                invariant
                    0 < n == bs0.len() == vb.len(),
                    i < n,
                    bs0 == case_expr.branchs@,
                    vb == view_branches(bs0),
                    vb == crate::ast::branch_views(bs0),
                    expr@ == SpecExpr::Case(vb),
                    w == bm_width::<BM>(),
                    sym == symbols_view(symbols@),
                    d == crate::smv::defines_map(defines@),
                    ranked(d, rank),
                    ready(w, sym, d, rank, b, expr@),
                    cases_ready(w, sym, d, rank, b, vb, i as nat),
                    forall|j: int| 0 <= j < n ==> decreases_to!(expr => #[trigger] bs0[j]),
                    cache_ok(sym, d, rank, defines_cache@),
                    cache_extends(old(defines_cache)@, defines_cache@),
                    ans.denote() == case_sem(w, sym, d, rank, b, vb, i as nat),
                decreases i,
            {
                proof {
                    lemma_cases_ready_from(w, sym, d, rank, b, vb, 0, (i - 1) as nat);
                    assert(decreases_to!(expr => bs0[i - 1]));
                    assert(vb[i - 1] == (bs0[i - 1].0@, bs0[i - 1].1@));
                }
                let cond = expr_to_bdd_rec(
                    manager,
                    symbols,
                    defines,
                    defines_cache,
                    &case_expr.branchs[i - 1].0,
                    Ghost(rank),
                    Ghost(b),
                );
                let res = expr_to_bdd_rec(
                    manager,
                    symbols,
                    defines,
                    defines_cache,
                    &case_expr.branchs[i - 1].1,
                    Ghost(rank),
                    Ghost(b),
                );
                ans = cond.if_then_else(&res, &ans);
                i = i - 1;
            }
            ans
        },
    }
}

/// The branches from `k` on are ready where those from an earlier `j` are.
proof fn lemma_cases_ready_from(
    w: nat,
    sym: Seq<(Seq<char>, usize)>,
    d: Map<Seq<char>, SpecExpr>,
    rank: spec_fn(Seq<char>) -> nat,
    b: nat,
    bs: Seq<(SpecExpr, SpecExpr)>,
    j: nat,
    k: nat,
)
    requires
        j <= k < bs.len(),
        cases_ready(w, sym, d, rank, b, bs, j),
    ensures
        cases_ready(w, sym, d, rank, b, bs, k),
        ready(w, sym, d, rank, b, bs[k as int].1),
        k + 1 < bs.len() ==> ready(w, sym, d, rank, b, bs[k as int].0),
    decreases k - j,
{
    if j < k {
        lemma_cases_ready_from(w, sym, d, rank, b, bs, j + 1, k);
    }
}

/// The BDD of `expr` over all defines, using and filling the cache of
/// define BDDs.
pub fn expr_to_bdd<BM: BddManager>(
    manager: &BM,
    symbols: &Vec<(String, usize)>,
    defines: &Vec<Define>,
    defines_cache: &mut Vec<(String, BM::Bdd)>,
    expr: &Expr,
) -> (r: BM::Bdd)
    requires
        acyclic(crate::smv::defines_map(defines@)),
        top_ready(bm_width::<BM>(), symbols_view(symbols@), crate::smv::defines_map(defines@), expr@),
        cache_ok(
            symbols_view(symbols@),
            crate::smv::defines_map(defines@),
            define_rank(crate::smv::defines_map(defines@)),
            old(defines_cache)@,
        ),
    ensures
        r.denote() == top_sem(
            bm_width::<BM>(),
            symbols_view(symbols@),
            crate::smv::defines_map(defines@),
            expr@,
        ),
        cache_ok(
            symbols_view(symbols@),
            crate::smv::defines_map(defines@),
            define_rank(crate::smv::defines_map(defines@)),
            final(defines_cache)@,
        ),
        cache_extends(old(defines_cache)@, final(defines_cache)@),
{
    let ghost d = crate::smv::defines_map(defines@);
    proof {
        assert(ranked(d, define_rank(d)));
    }
    expr_to_bdd_rec(
        manager,
        symbols,
        defines,
        defines_cache,
        expr,
        Ghost(define_rank(d)),
        Ghost(d.dom().len()),
    )
}

/// Variable `i` of a model stands for BDD variable `2 i`.
pub open spec fn var_symbols(vars: Seq<Seq<char>>) -> Seq<(Seq<char>, usize)> {
    Seq::new(vars.len(), |i: int| (vars[i], (2 * i) as usize))
}

/// Whether the BDDs of a model can be built with `w` variables: its defines
/// do not depend on themselves, its variables have distinct names and their
/// pairs fit in `w` variables, and each define, initial condition,
/// invariant, transition and fairness constraint can be made a BDD.
pub open spec fn smv_ready(m: SpecSmv, w: nat) -> bool {
    let sym = var_symbols(m.vars);
    let d = m.defines;
    &&& acyclic(d)
    &&& 2 * m.vars.len() <= w
    &&& forall|i: int, j: int| 0 <= i < j < m.vars.len() ==> m.vars[i] != m.vars[j]
    &&& forall|k: Seq<char>| #[trigger]
        d.contains_key(k) ==> ready(w, sym, d, define_rank(d), define_rank(d)(k), d[k])
    &&& forall|i: int| 0 <= i < m.inits.len() ==> top_ready(w, sym, d, #[trigger] m.inits[i])
    &&& forall|i: int| 0 <= i < m.trans.len() ==> top_ready(w, sym, d, #[trigger] m.trans[i])
    &&& forall|i: int|
        0 <= i < m.invariants.len() ==> top_ready(w, sym, d, #[trigger] m.invariants[i])
    &&& forall|i: int| 0 <= i < m.fairness.len() ==> top_ready(w, sym, d, #[trigger] m.fairness[i])
}

/// The BDDs of an SMV model.
pub struct SmvBdd<BM: BddManager> {
    pub manager: BM,
    pub symbols: Vec<(String, usize)>,
    pub defines: Vec<(String, BM::Bdd)>,
    pub trans: Vec<BM::Bdd>,
    pub init: BM::Bdd,
    pub invariants: BM::Bdd,
    pub justice: Vec<BM::Bdd>,
}

/// The lookup of a name among distinct names finds its position.
proof fn lemma_lookup_distinct(vars: Seq<Seq<char>>, i: int)
    requires
        0 <= i < vars.len(),
        forall|a: int, b: int| 0 <= a < b < vars.len() ==> vars[a] != vars[b],
        2 * vars.len() <= usize::MAX,
    ensures
        lookup(var_symbols(vars), vars[i]) == Some((2 * i) as usize),
    decreases vars.len(),
{
    let sym = var_symbols(vars);
    if i < vars.len() - 1 {
        let v0 = vars.drop_last();
        lemma_lookup_distinct(v0, i);
        assert(sym.drop_last() =~= var_symbols(v0));
    }
}

/// The conjunction of the BDDs of `es`.
fn conj_exprs<BM: BddManager>(
    manager: &BM,
    symbols: &Vec<(String, usize)>,
    defines: &Vec<Define>,
    cache: &mut Vec<(String, BM::Bdd)>,
    es: &Vec<Expr>,
) -> (r: BM::Bdd)
    requires
        acyclic(crate::smv::defines_map(defines@)),
        forall|i: int|
            0 <= i < es@.len() ==> top_ready(
                bm_width::<BM>(),
                symbols_view(symbols@),
                crate::smv::defines_map(defines@),
                (#[trigger] es@[i])@,
            ),
        cache_ok(
            symbols_view(symbols@),
            crate::smv::defines_map(defines@),
            define_rank(crate::smv::defines_map(defines@)),
            old(cache)@,
        ),
    ensures
        r.denote() == conj(
            bm_width::<BM>(),
            sems(
                bm_width::<BM>(),
                symbols_view(symbols@),
                crate::smv::defines_map(defines@),
                crate::ast::views(es@),
            ),
        ),
        cache_ok(
            symbols_view(symbols@),
            crate::smv::defines_map(defines@),
            define_rank(crate::smv::defines_map(defines@)),
            final(cache)@,
        ),
        cache_extends(old(cache)@, final(cache)@),
{
    let ghost w = bm_width::<BM>();
    let ghost sym = symbols_view(symbols@);
    let ghost d = crate::smv::defines_map(defines@);
    let ghost all = sems(w, sym, d, crate::ast::views(es@));
    let ghost orig = cache@;
    let mut res = manager.constant(true);
    let mut i: usize = 0;
    while i < es.len()
        invariant
            w == bm_width::<BM>(),
            sym == symbols_view(symbols@),
            d == crate::smv::defines_map(defines@),
            all == sems(w, sym, d, crate::ast::views(es@)),
            all.len() == es@.len(),
            acyclic(d),
            forall|j: int| 0 <= j < es@.len() ==> top_ready(w, sym, d, (#[trigger] es@[j])@),
            cache_ok(sym, d, define_rank(d), cache@),
            cache_extends(orig, cache@),
            i <= es@.len(),
            res.denote() == conj(w, all.take(i as int)),
        decreases es@.len() - i,
    {
        let e = expr_to_bdd(manager, symbols, defines, cache, &es[i]);
        res = res.and(&e);
        proof {
            assert(all.take(i + 1).drop_last() =~= all.take(i as int));
            assert(all[i as int] == top_sem(w, sym, d, es@[i as int]@));
        }
        i = i + 1;
    }
    assert(all.take(i as int) =~= all);
    res
}

/// The BDDs of `es`.
fn exprs_to_bdds<BM: BddManager>(
    manager: &BM,
    symbols: &Vec<(String, usize)>,
    defines: &Vec<Define>,
    cache: &mut Vec<(String, BM::Bdd)>,
    es: &Vec<Expr>,
) -> (r: Vec<BM::Bdd>)
    requires
        acyclic(crate::smv::defines_map(defines@)),
        forall|i: int|
            0 <= i < es@.len() ==> top_ready(
                bm_width::<BM>(),
                symbols_view(symbols@),
                crate::smv::defines_map(defines@),
                (#[trigger] es@[i])@,
            ),
        cache_ok(
            symbols_view(symbols@),
            crate::smv::defines_map(defines@),
            define_rank(crate::smv::defines_map(defines@)),
            old(cache)@,
        ),
    ensures
        denotes(r@) == sems(
            bm_width::<BM>(),
            symbols_view(symbols@),
            crate::smv::defines_map(defines@),
            crate::ast::views(es@),
        ),
        cache_ok(
            symbols_view(symbols@),
            crate::smv::defines_map(defines@),
            define_rank(crate::smv::defines_map(defines@)),
            final(cache)@,
        ),
        cache_extends(old(cache)@, final(cache)@),
{
    let ghost w = bm_width::<BM>();
    let ghost sym = symbols_view(symbols@);
    let ghost d = crate::smv::defines_map(defines@);
    let ghost all = sems(w, sym, d, crate::ast::views(es@));
    let ghost orig = cache@;
    let mut res: Vec<BM::Bdd> = Vec::new();
    let mut i: usize = 0;
    while i < es.len()
        invariant
            w == bm_width::<BM>(),
            sym == symbols_view(symbols@),
            d == crate::smv::defines_map(defines@),
            all == sems(w, sym, d, crate::ast::views(es@)),
            all.len() == es@.len(),
            acyclic(d),
            forall|j: int| 0 <= j < es@.len() ==> top_ready(w, sym, d, (#[trigger] es@[j])@),
            cache_ok(sym, d, define_rank(d), cache@),
            cache_extends(orig, cache@),
            i <= es@.len(),
            res@.len() == i,
            forall|j: int| 0 <= j < i ==> #[trigger] res@[j].denote() == all[j],
        decreases es@.len() - i,
    {
        let e = expr_to_bdd(manager, symbols, defines, cache, &es[i]);
        res.push(e);
        i = i + 1;
    }
    assert(denotes(res@) =~= all);
    res
}

impl<BM: BddManager> SmvBdd<BM> {
    /// The BDDs of the model `smv`: the symbols of its variables, the BDD of
    /// each define, the conjunction of the invariants and of the initial
    /// conditions, and the BDD of each transition and fairness constraint.
    pub fn new(manager: &BM, smv: &Smv) -> (r: Self)
        requires
            smv_ready(smv@, bm_width::<BM>()),
        ensures
            r.manager == *manager,
            symbols_view(r.symbols@) == var_symbols(smv@.vars),
            cache_ok(
                var_symbols(smv@.vars),
                smv@.defines,
                define_rank(smv@.defines),
                r.defines@,
            ),
            forall|k: Seq<char>|
                #[trigger] smv@.defines.contains_key(k) ==> has_entry(r.defines@, k),
            r.invariants.denote() == conj(
                bm_width::<BM>(),
                sems(bm_width::<BM>(), var_symbols(smv@.vars), smv@.defines, smv@.invariants),
            ),
            denotes(r.trans@) == sems(
                bm_width::<BM>(),
                var_symbols(smv@.vars),
                smv@.defines,
                smv@.trans,
            ),
            r.init.denote() == conj(
                bm_width::<BM>(),
                sems(bm_width::<BM>(), var_symbols(smv@.vars), smv@.defines, smv@.inits),
            ),
            denotes(r.justice@) == sems(
                bm_width::<BM>(),
                var_symbols(smv@.vars),
                smv@.defines,
                smv@.fairness,
            ),
    {
        let ghost w = bm_width::<BM>();
        let ghost m = smv@;
        let ghost d = m.defines;
        let ghost rank = define_rank(d);
        let mut symbols: Vec<(String, usize)> = Vec::new();
        let n = smv.vars.len();
        proof {
            <BM::Bdd as Bdd>::lemma_width();
        }
        let mut i: usize = 0;
        while i < n
            invariant
                n == smv.vars@.len(),
                m == smv@,
                w == bm_width::<BM>(),
                2 * n <= w,
                w <= usize::MAX,
                i <= n,
                symbols_view(symbols@) == var_symbols(m.vars.take(i as int)),
            decreases n - i,
        {
            let current = i * 2;
            let next = current + 1;
            let name = smv.vars[i].ident.clone();
            let ghost before = symbols@;
            symbols.push((name, current));
            manager.ith_var(next);
            proof {
                assert(m.vars[i as int] == smv.vars@[i as int].ident@);
                assert(symbols_view(symbols@) =~= symbols_view(before).push((name@, current)));
                assert(var_symbols(m.vars.take(i + 1)) =~= var_symbols(m.vars.take(i as int)).push(
                    (m.vars[i as int], current),
                ));
            }
            i = i + 1;
        }
        assert(m.vars.take(n as int) =~= m.vars);
        let ghost sym = symbols_view(symbols@);
        assert(ranked(d, rank));
        let mut defines: Vec<(String, BM::Bdd)> = Vec::new();
        let mut j: usize = 0;
        while j < smv.defines.len()
            invariant
                m == smv@,
                d == m.defines,
                d == crate::smv::defines_map(smv.defines@),
                rank == define_rank(d),
                ranked(d, rank),
                w == bm_width::<BM>(),
                sym == symbols_view(symbols@),
                sym == var_symbols(m.vars),
                smv_ready(m, w),
                j <= smv.defines@.len(),
                cache_ok(sym, d, rank, defines@),
                forall|k: int| 0 <= k < j ==> has_entry(defines@, (#[trigger] smv.defines@[k]).ident@),
            decreases smv.defines@.len() - j,
        {
            let name = &smv.defines[j].ident;
            let define = match smv.get_define(name) {
                Some(define) => define,
                None => {
                    proof {
                        crate::smv::lemma_defines_map_last_exists(smv.defines@, j as int);
                    }
                    assert(false);
                    &smv.defines[j]
                },
            };
            let ghost start = defines@;
            let bdd = expr_to_bdd_rec(
                manager,
                &symbols,
                &smv.defines,
                &mut defines,
                &define.expr,
                Ghost(rank),
                Ghost(rank(name@)),
            );
            let ghost before = defines@;
            defines.push((name.clone(), bdd));
            assert forall|k: int| 0 <= k < j + 1 implies has_entry(
                defines@,
                (#[trigger] smv.defines@[k]).ident@,
            ) by {
                if k < j {
                    let i = choose|i: int|
                        0 <= i < start.len() && (#[trigger] start[i]).0@ == smv.defines@[k].ident@;
                    assert(before[i] == start[i]);
                    assert(defines@[i] == before[i]);
                } else {
                    assert(defines@[before.len() as int].0@ == smv.defines@[k].ident@);
                }
            }
            assert forall|k: int| 0 <= k < defines@.len() implies d.contains_key(
                (#[trigger] defines@[k]).0@,
            ) && defines@[k].1.denote() == expr_sem(
                w,
                sym,
                d,
                rank,
                rank(defines@[k].0@),
                d[defines@[k].0@],
            ) by {
                if k < before.len() {
                    assert(defines@[k] == before[k]);
                }
            }
            j = j + 1;
        }
        proof {
            assert forall|k: Seq<char>| #[trigger] d.contains_key(k) implies has_entry(defines@, k) by {
                let p = crate::smv::lemma_defines_map_has_entry(smv.defines@, k);
                assert(has_entry(defines@, smv.defines@[p].ident@));
            }
            assert forall|i: int| 0 <= i < smv.invariants@.len() implies top_ready(w, sym, d, (#[trigger] smv.invariants@[i])@) by {
                assert(m.invariants[i] == smv.invariants@[i]@);
            }
            assert forall|i: int| 0 <= i < smv.trans@.len() implies top_ready(w, sym, d, (#[trigger] smv.trans@[i])@) by {
                assert(m.trans[i] == smv.trans@[i]@);
            }
            assert forall|i: int| 0 <= i < smv.inits@.len() implies top_ready(w, sym, d, (#[trigger] smv.inits@[i])@) by {
                assert(m.inits[i] == smv.inits@[i]@);
            }
            assert forall|i: int| 0 <= i < smv.fairness@.len() implies top_ready(w, sym, d, (#[trigger] smv.fairness@[i])@) by {
                assert(m.fairness[i] == smv.fairness@[i]@);
            }
        }
        let ghost c0 = defines@;
        let invariants = conj_exprs(manager, &symbols, &smv.defines, &mut defines, &smv.invariants);
        let ghost c1 = defines@;
        let trans = exprs_to_bdds(manager, &symbols, &smv.defines, &mut defines, &smv.trans);
        let ghost c2 = defines@;
        let init = conj_exprs(manager, &symbols, &smv.defines, &mut defines, &smv.inits);
        let ghost c3 = defines@;
        let justice = exprs_to_bdds(manager, &symbols, &smv.defines, &mut defines, &smv.fairness);
        proof {
            assert forall|k: Seq<char>| #[trigger] d.contains_key(k) implies has_entry(defines@, k) by {
                assert(has_entry(c0, k));
                let i = choose|i: int| 0 <= i < c0.len() && (#[trigger] c0[i]).0@ == k;
                assert(c1[i] == c0[i]);
                assert(c2[i] == c1[i]);
                assert(c3[i] == c2[i]);
                assert(defines@[i] == c3[i]);
            }
        }
        SmvBdd { defines, manager: manager.duplicate(), symbols, trans, init, invariants, justice }
    }
}

impl<BM: BddManager> SmvBdd<BM> {
    /// The state machine of the model, its transition relation grouped as
    /// `method` says. `None` where the grouping pairs two parts without
    /// variables (see `Trans::new`), which only happens where the relation is
    /// empty.
    pub fn to_fsmbdd(&self, method: TransBddMethod) -> (r: Option<FsmBdd<BM>>)
        requires
            method == TransBddMethod::Partition ==> crate::trans::distinct_sets(denotes(self.trans@)).len() <= 100,
        ensures
            match r {
                Some(f) => {
                    &&& f.trans.wf()
                    &&& f.trans.relation() == conj(bm_width::<BM>(), denotes(self.trans@))
                    &&& f.manager == self.manager
                    &&& f.trans.manager == self.manager
                    &&& symbols_view(f.symbols@) == symbols_view(self.symbols@)
                    &&& f.init.denote() == self.init.denote()
                    &&& f.inv() == self.invariants.denote()
                    &&& f.justice_sets() == denotes(self.justice@)
                    &&& (method == TransBddMethod::Monolithic ==> f.trans.trans@.len() == 1)
                },
                None => method == TransBddMethod::Partition && conj(bm_width::<BM>(), denotes(self.trans@))
                    == Set::<Seq<bool>>::empty() && exists|k: nat|
                    (#[trigger] crate::trans::group_run::<BM::Bdd>(crate::trans::distinct_sets(denotes(self.trans@)), k)).pc
                        == crate::trans::GroupPc::Failed,
            },
    {
        let parts = crate::trans::duplicate_all(&self.trans);
        let trans = match Trans::new(&self.manager, parts, method) {
            Some(t) => t,
            None => {
                return None;
            },
        };
        Some(
            FsmBdd {
                symbols: crate::fsm::copy_symbols(&self.symbols),
                manager: self.manager.duplicate(),
                init: self.init.duplicate(),
                invariants: self.invariants.duplicate(),
                trans,
                justice: crate::trans::duplicate_all(&self.justice),
            },
        )
    }
}

} // verus!
