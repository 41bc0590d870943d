//! Replacing defined identifiers by what they are defined as.
use crate::ast::{
    Infix, Prefix,
    branch_views, copy_expr, lemma_view_branches, view_branches, views, Expr, SpecExpr,
};
use crate::defines::{
    acyclic, bounded, branches_mention, define_rank, lemma_branch_mentions, mentions, ranked,
};
use crate::flatten::{
    case_free,
    branches_nonempty, cases_nonempty, ite, lemma_branches_nonempty_all,
};
use crate::smv::{
    defines_map, find_define, lemma_defines_map_absent, lemma_defines_map_last, Define, Smv, SpecSmv,
};
use vstd::prelude::*;

verus! {

/// `e` with every define of rank below `b` replaced, recursively, by its
/// expression, and each `case` rewritten as [`crate::flatten::flat_case`]
/// does.
pub open spec fn expand(
    d: Map<Seq<char>, SpecExpr>,
    rank: spec_fn(Seq<char>) -> nat,
    b: nat,
    e: SpecExpr,
) -> SpecExpr
    decreases b, e, 0nat,
{
    match e {
        SpecExpr::Ident(x) => if d.contains_key(x) && rank(x) < b {
            expand(d, rank, rank(x), d[x])
        } else {
            e
        },
        SpecExpr::Lit(_) => e,
        SpecExpr::Prefix(op, s) => SpecExpr::Prefix(op, Box::new(expand(d, rank, b, *s))),
        SpecExpr::Infix(op, l, r) => SpecExpr::Infix(
            op,
            Box::new(expand(d, rank, b, *l)),
            Box::new(expand(d, rank, b, *r)),
        ),
        SpecExpr::Case(bs) => if bs.len() == 0 {
            e
        } else {
            expand_chain(d, rank, b, bs, 0)
        },
    }
}

pub open spec fn expand_chain(
    d: Map<Seq<char>, SpecExpr>,
    rank: spec_fn(Seq<char>) -> nat,
    b: nat,
    bs: Seq<(SpecExpr, SpecExpr)>,
    i: nat,
) -> SpecExpr
    decreases b, bs, bs.len() - i,
{
    if i + 1 >= bs.len() {
        if bs.len() == 0 {
            SpecExpr::Lit(false)
        } else {
            expand(d, rank, b, bs[bs.len() - 1].1)
        }
    } else {
        ite(
            expand(d, rank, b, bs[i as int].0),
            expand(d, rank, b, bs[i as int].1),
            expand_chain(d, rank, b, bs, i + 1),
        )
    }
}

/// The defines that expanding `e` (as [`expand`] does) replaces.
pub open spec fn reach(
    d: Map<Seq<char>, SpecExpr>,
    rank: spec_fn(Seq<char>) -> nat,
    b: nat,
    e: SpecExpr,
) -> Set<Seq<char>>
    decreases b, e, 0nat,
{
    match e {
        SpecExpr::Ident(x) => if d.contains_key(x) && rank(x) < b {
            set![x].union(reach(d, rank, rank(x), d[x]))
        } else {
            Set::empty()
        },
        SpecExpr::Lit(_) => Set::empty(),
        SpecExpr::Prefix(op, s) => reach(d, rank, b, *s),
        SpecExpr::Infix(op, l, r) => reach(d, rank, b, *l).union(reach(d, rank, b, *r)),
        SpecExpr::Case(bs) => if bs.len() == 0 {
            Set::empty()
        } else {
            reach_chain(d, rank, b, bs, 0)
        },
    }
}

pub open spec fn reach_chain(
    d: Map<Seq<char>, SpecExpr>,
    rank: spec_fn(Seq<char>) -> nat,
    b: nat,
    bs: Seq<(SpecExpr, SpecExpr)>,
    i: nat,
) -> Set<Seq<char>>
    decreases b, bs, bs.len() - i,
{
    if i + 1 >= bs.len() {
        if bs.len() == 0 {
            Set::empty()
        } else {
            reach(d, rank, b, bs[bs.len() - 1].1)
        }
    } else {
        reach(d, rank, b, bs[i as int].0).union(reach(d, rank, b, bs[i as int].1)).union(
            reach_chain(d, rank, b, bs, i + 1),
        )
    }
}

/// The names that a list of strings holds.
pub open spec fn names(v: Seq<String>) -> Set<Seq<char>> {
    Set::new(|s: Seq<char>| exists|i: int| 0 <= i < v.len() && (#[trigger] v[i])@ == s)
}

/// The state of the defines while they are being expanded: each define in
/// `f` holds its expansion, the others their own expression, and `f`
/// holds every define that the expansion of one of its defines replaces.
pub open spec fn memo_inv(
    m: Map<Seq<char>, SpecExpr>,
    f: Set<Seq<char>>,
    d: Map<Seq<char>, SpecExpr>,
    rank: spec_fn(Seq<char>) -> nat,
) -> bool {
    &&& m.dom() == d.dom()
    &&& forall|k: Seq<char>| #[trigger]
        d.contains_key(k) ==> m[k] == (if f.contains(k) {
            expand(d, rank, rank(k), d[k])
        } else {
            d[k]
        })
    &&& forall|k: Seq<char>| #[trigger]
        f.contains(k) ==> d.contains_key(k) && reach(d, rank, rank(k), d[k]).subset_of(f)
}

/// Every define holds an expression whose `case`s have branches.
pub open spec fn defines_cases_nonempty(d: Map<Seq<char>, SpecExpr>) -> bool {
    forall|k: Seq<char>| #[trigger] d.contains_key(k) ==> cases_nonempty(d[k])
}

fn contains_name(v: &Vec<String>, s: &String) -> (r: bool)
    ensures
        r == names(v@).contains(s@),
{
    let mut i: usize = 0;
    while i < v.len()
        invariant
            i <= v@.len(),
            forall|k: int| 0 <= k < i ==> v@[k]@ != s@,
        decreases v@.len() - i,
    {
        if v[i] == *s {
            assert(names(v@).contains(s@));
            return true;
        }
        i = i + 1;
    }
    false
}

proof fn lemma_names_push(v: Seq<String>, s: String)
    ensures
        names(v.push(s)) == names(v).insert(s@),
{
    assert forall|x: Seq<char>| names(v.push(s)).contains(x) <==> names(v).insert(s@).contains(
        x,
    ) by {
        if names(v.push(s)).contains(x) {
            let i = choose|i: int| 0 <= i < v.push(s).len() && (#[trigger] v.push(s)[i])@ == x;
            if i < v.len() {
                assert(v[i]@ == x);
            }
        }
        if names(v).contains(x) {
            let i = choose|i: int| 0 <= i < v.len() && (#[trigger] v[i])@ == x;
            assert(v.push(s)[i]@ == x);
        }
        if x == s@ {
            assert(v.push(s)[v.len() as int]@ == x);
        }
    }
    assert(names(v.push(s)) =~= names(v).insert(s@));
}

proof fn lemma_defines_map_push(ds: Seq<Define>, d: Define)
    ensures
        defines_map(ds.push(d)) == defines_map(ds).insert(d.ident@, d.expr@),
{
    assert(ds.push(d).subrange(0, ds.len() as int) =~= ds);
}

/// The branches of a `case` that every define mentioned is below `b` in.
pub proof fn lemma_bounded_branch(
    d: Map<Seq<char>, SpecExpr>,
    rank: spec_fn(Seq<char>) -> nat,
    b: nat,
    bs: Seq<(SpecExpr, SpecExpr)>,
    i: int,
)
    requires
        bounded(d, rank, b, SpecExpr::Case(bs)),
        0 <= i < bs.len(),
    ensures
        bounded(d, rank, b, bs[i].0),
        bounded(d, rank, b, bs[i].1),
{
    assert forall|y: Seq<char>| d.contains_key(y) && #[trigger] mentions(bs[i].0, y) implies rank(
        y,
    ) < b by {
        lemma_branch_mentions(bs, bs.len(), i, y);
        assert(mentions(SpecExpr::Case(bs), y));
    }
    assert forall|y: Seq<char>| d.contains_key(y) && #[trigger] mentions(bs[i].1, y) implies rank(
        y,
    ) < b by {
        lemma_branch_mentions(bs, bs.len(), i, y);
        assert(mentions(SpecExpr::Case(bs), y));
    }
}

proof fn lemma_memo_insert(
    m: Map<Seq<char>, SpecExpr>,
    f: Set<Seq<char>>,
    d: Map<Seq<char>, SpecExpr>,
    rank: spec_fn(Seq<char>) -> nat,
    x: Seq<char>,
    v: SpecExpr,
)
    requires
        memo_inv(m, f, d, rank),
        d.contains_key(x),
        v == expand(d, rank, rank(x), d[x]),
        reach(d, rank, rank(x), d[x]).subset_of(f),
    ensures
        memo_inv(m.insert(x, v), f.insert(x), d, rank),
{
    let m2 = m.insert(x, v);
    let f2 = f.insert(x);
    assert(m2.dom() =~= d.dom());
    assert forall|k: Seq<char>| #[trigger] d.contains_key(k) implies m2[k] == (if f2.contains(k) {
        expand(d, rank, rank(k), d[k])
    } else {
        d[k]
    }) by {
        if k != x {
            assert(m2[k] == m[k]);
        }
    }
    assert forall|k: Seq<char>| #[trigger] f2.contains(k) implies d.contains_key(k) && reach(
        d,
        rank,
        rank(k),
        d[k],
    ).subset_of(f2) by {
        if k != x {
            assert(f.contains(k));
        }
    }
}

/// A subexpression mentions only what the whole mentions.
pub proof fn lemma_bounded_sub(
    d: Map<Seq<char>, SpecExpr>,
    rank: spec_fn(Seq<char>) -> nat,
    b: nat,
    e: SpecExpr,
    s: SpecExpr,
)
    requires
        bounded(d, rank, b, e),
        forall|y: Seq<char>| #[trigger] mentions(s, y) ==> mentions(e, y),
    ensures
        bounded(d, rank, b, s),
{
}

/// Every identifier that expanding `e` looks up is a define or one of the
/// variables `vs`.
pub open spec fn declared_at(
    d: Map<Seq<char>, SpecExpr>,
    rank: spec_fn(Seq<char>) -> nat,
    b: nat,
    e: SpecExpr,
    vs: Seq<Seq<char>>,
) -> bool {
    forall|x: Seq<char>| #[trigger] visited(d, rank, b, e).contains(x) ==> d.contains_key(x) || vs.contains(x)
}

/// A branch of a `case` is looked up when the `case` is.
proof fn lemma_visited_chain(
    d: Map<Seq<char>, SpecExpr>,
    rank: spec_fn(Seq<char>) -> nat,
    b: nat,
    bs: Seq<(SpecExpr, SpecExpr)>,
    i: nat,
    j: int,
)
    requires
        i <= j < bs.len(),
    ensures
        visited(d, rank, b, bs[j].1).subset_of(visited_chain(d, rank, b, bs, i)),
        j + 1 < bs.len() ==> visited(d, rank, b, bs[j].0).subset_of(visited_chain(d, rank, b, bs, i)),
    decreases j - i,
{
    if i < j {
        lemma_visited_chain(d, rank, b, bs, i + 1, j);
    }
}

fn flatten_expr(
    defines: &mut Vec<Define>,
    expr: Expr,
    flattened: &mut Vec<String>,
    Ghost(d): Ghost<Map<Seq<char>, SpecExpr>>,
    Ghost(rank): Ghost<spec_fn(Seq<char>) -> nat>,
    Ghost(b): Ghost<nat>,
    Ghost(vs): Ghost<Seq<Seq<char>>>,
) -> (r: Expr)
    requires
        ranked(d, rank),
        defines_cases_nonempty(d),
        bounded(d, rank, b, expr@),
        declared_at(d, rank, b, expr@, vs),
        cases_nonempty(expr@),
        memo_inv(defines_map(old(defines)@), names(old(flattened)@), d, rank),
    ensures
        r@ == expand(d, rank, b, expr@),
        memo_inv(defines_map(final(defines)@), names(final(flattened)@), d, rank),
        names(final(flattened)@) == names(old(flattened)@).union(reach(d, rank, b, expr@)),
    decreases b, expr,
{
    let ghost e0 = expr@;
    let ghost f0 = names(flattened@);
    match expr {
        Expr::Ident(name) => {
            assert(e0 == SpecExpr::Ident(name@));
            match find_define(defines, &name) {
                Some(i) => {
                    proof {
                        lemma_defines_map_last(defines@, i as int, name@);
                        assert(d.contains_key(name@));
                        assert(mentions(e0, name@));
                    }
                    if contains_name(flattened, &name) {
                        proof {
                            assert(reach(d, rank, b, e0) =~= set![name@].union(
                                reach(d, rank, rank(name@), d[name@]),
                            ));
                            assert(f0.union(reach(d, rank, b, e0)) =~= f0);
                        }
                        copy_expr(&defines[i].expr)
                    } else {
                        let dexpr = copy_expr(&defines[i].expr);
                        let ghost dx = d[name@];
                        let ghost rx = rank(name@);
                        assert(dexpr@ == dx);
                        proof {
                            assert(rx < b);
                            assert(visited(d, rank, b, e0) == set![name@].union(visited(d, rank, rx, dx)));
                            assert forall|x: Seq<char>| #[trigger] visited(d, rank, rx, dx).contains(x) implies d.contains_key(x) || vs.contains(x) by {
                                assert(visited(d, rank, b, e0).contains(x));
                            }
                        }
                        let flat = flatten_expr(defines, 
                            dexpr,
                            flattened,
                            Ghost(d),
                            Ghost(rank),
                            Ghost(rank(name@)),
                            Ghost(vs),
                        );
                        let kept = copy_expr(&flat);
                        let key = name.clone();
                        let ghost ds1 = defines@;
                        let ghost f1 = names(flattened@);
                        let ghost fl1 = flattened@;
                        defines.push(Define { ident: name, expr: kept });
                        flattened.push(key);
                        proof {
                            lemma_defines_map_push(ds1, Define { ident: key, expr: kept });
                            assert(defines@ == ds1.push(
                                Define { ident: name, expr: kept },
                            ));
                            lemma_defines_map_push(ds1, Define { ident: name, expr: kept });
                            lemma_names_push(fl1, key);
                            lemma_memo_insert(defines_map(ds1), f1, d, rank, name@, flat@);
                            assert(reach(d, rank, b, e0) =~= set![name@].union(
                                reach(d, rank, rx, dx),
                            ));
                            assert(names(flattened@) =~= f0.union(reach(d, rank, b, e0)));
                        }
                        flat
                    }
                },
                None => {
                    proof {
                        lemma_defines_map_absent(defines@, name@);
                        assert(visited(d, rank, b, e0).contains(name@));
                        assert(f0.union(reach(d, rank, b, e0)) =~= f0);
                    }
                    Expr::Ident(name)
                },
            }
        },
        Expr::LitExpr(v) => {
            assert(f0.union(reach(d, rank, b, e0)) =~= f0);
            Expr::LitExpr(v)
        },
        Expr::PrefixExpr(op, sub) => {
            let ghost sv = sub@;
            proof {
                lemma_bounded_sub(d, rank, b, e0, sv);
                assert(visited(d, rank, b, e0) == visited(d, rank, b, sv));
            }
            let r = flatten_expr(defines, *sub, flattened, Ghost(d), Ghost(rank), Ghost(b), Ghost(vs));
            Expr::PrefixExpr(op, Box::new(r))
        },
        Expr::InfixExpr(op, l, r) => {
            let ghost lv = l@;
            let ghost rv = r@;
            proof {
                lemma_bounded_sub(d, rank, b, e0, lv);
                lemma_bounded_sub(d, rank, b, e0, rv);
            }
            proof {
                assert(visited(d, rank, b, e0) == visited(d, rank, b, lv).union(visited(d, rank, b, rv)));
                assert forall|x: Seq<char>| #[trigger] visited(d, rank, b, lv).contains(x) implies d.contains_key(x) || vs.contains(x) by {
                    assert(visited(d, rank, b, e0).contains(x));
                }
                assert forall|x: Seq<char>| #[trigger] visited(d, rank, b, rv).contains(x) implies d.contains_key(x) || vs.contains(x) by {
                    assert(visited(d, rank, b, e0).contains(x));
                }
            }
            let l2 = flatten_expr(defines, *l, flattened, Ghost(d), Ghost(rank), Ghost(b), Ghost(vs));
            let r2 = flatten_expr(defines, *r, flattened, Ghost(d), Ghost(rank), Ghost(b), Ghost(vs));
            assert(names(flattened@) =~= f0.union(reach(d, rank, b, e0)));
            Expr::InfixExpr(op, Box::new(l2), Box::new(r2))
        },
        Expr::CaseExpr(c) => {
            let ghost orig = c.branchs@;
            let ghost vb = view_branches(orig);
            proof {
                lemma_view_branches(orig);
                assert(e0 == SpecExpr::Case(vb));
                assert(branches_nonempty(vb, vb.len()));
                lemma_branches_nonempty_all(vb, vb.len());
            }
            let mut bs = c.branchs;
            let n = bs.len();
            let last = bs.pop().unwrap();
            proof {
                assert(decreases_to!(orig => orig[n - 1]));
                assert(vb[n - 1].1 == last.1@);
                lemma_bounded_branch(d, rank, b, vb, n - 1);
                lemma_visited_chain(d, rank, b, vb, 0, n - 1);
                assert forall|x: Seq<char>| #[trigger] visited(d, rank, b, vb[n - 1].1).contains(x) implies d.contains_key(x) || vs.contains(x) by {
                    assert(visited(d, rank, b, e0).contains(x));
                }
            }
            let mut ans = flatten_expr(defines, last.1, flattened, Ghost(d), Ghost(rank), Ghost(b), Ghost(vs));
            let mut i = n - 1;
            assert(names(flattened@) =~= f0.union(reach_chain(d, rank, b, vb, i as nat)));
            while i > 0
                invariant
                    0 < n == orig.len() == vb.len(),
                    i < n,
                    e0 == SpecExpr::Case(vb),
                    bs@ == orig.subrange(0, i as int),
                    vb == branch_views(orig),
                    forall|j: int|
                        #![trigger vb[j]]
                        0 <= j < vb.len() ==> cases_nonempty(vb[j].0) && cases_nonempty(
                            vb[j].1,
                        ),
                    ans@ == expand_chain(d, rank, b, vb, i as nat),
                    forall|j: int| 0 <= j < n ==> decreases_to!(expr => #[trigger] orig[j]),
                    ranked(d, rank),
                    defines_cases_nonempty(d),
                    bounded(d, rank, b, e0),
                    declared_at(d, rank, b, e0, vs),
                    memo_inv(defines_map(defines@), names(flattened@), d, rank),
                    names(flattened@) == f0.union(reach_chain(d, rank, b, vb, i as nat)),
                decreases i,
            {
                i = i - 1;
                let bi = bs.pop().unwrap();
                proof {
                    assert(bi == orig[i as int]);
                    assert(vb[i as int] == (bi.0@, bi.1@));
                    assert(decreases_to!(expr => orig[i as int]));
                    lemma_bounded_branch(d, rank, b, vb, i as int);
                    lemma_visited_chain(d, rank, b, vb, 0, i as int);
                    assert forall|x: Seq<char>| #[trigger] visited(d, rank, b, vb[i as int].0).contains(x) implies d.contains_key(x) || vs.contains(x) by {
                        assert(visited(d, rank, b, e0).contains(x));
                    }
                    assert forall|x: Seq<char>| #[trigger] visited(d, rank, b, vb[i as int].1).contains(x) implies d.contains_key(x) || vs.contains(x) by {
                        assert(visited(d, rank, b, e0).contains(x));
                    }
                }
                let ghost fb = names(flattened@);
                let cond = flatten_expr(defines, bi.0, flattened, Ghost(d), Ghost(rank), Ghost(b), Ghost(vs));
                let cond2 = copy_expr(&cond);
                let res = flatten_expr(defines, bi.1, flattened, Ghost(d), Ghost(rank), Ghost(b), Ghost(vs));
                let left = core::ops::BitAnd::bitand(cond, res);
                let right = core::ops::BitAnd::bitand(core::ops::Not::not(cond2), ans);
                ans = core::ops::BitOr::bitor(left, right);
                assert(bs@ =~= orig.subrange(0, i as int));
                assert(names(flattened@) =~= f0.union(reach_chain(d, rank, b, vb, i as nat)));
            }
            ans
        },
    }
}

/// The full expansion of `e` over the defines `d` (see [`expand`]).
pub open spec fn expand_top(d: Map<Seq<char>, SpecExpr>, e: SpecExpr) -> SpecExpr {
    expand(d, define_rank(d), d.dom().len(), e)
}

/// The defines that the full expansion of `e` replaces.
pub open spec fn reach_top(d: Map<Seq<char>, SpecExpr>, e: SpecExpr) -> Set<Seq<char>> {
    reach(d, define_rank(d), d.dom().len(), e)
}

/// The defines that the full expansions of the expressions `es` replace.
pub open spec fn reach_all(d: Map<Seq<char>, SpecExpr>, es: Seq<SpecExpr>) -> Set<Seq<char>>
    decreases es.len(),
{
    if es.len() == 0 {
        Set::empty()
    } else {
        reach_all(d, es.subrange(0, es.len() - 1)).union(reach_top(d, es[es.len() - 1]))
    }
}

/// The full expansion of the define `k`.
pub open spec fn expanded_define(d: Map<Seq<char>, SpecExpr>, k: Seq<char>) -> SpecExpr {
    expand(d, define_rank(d), define_rank(d)(k), d[k])
}

/// The defines `d` with those in `r` replaced by their full expansions.
pub open spec fn defines_after(d: Map<Seq<char>, SpecExpr>, r: Set<Seq<char>>) -> Map<
    Seq<char>,
    SpecExpr,
> {
    Map::new(
        |k: Seq<char>| d.contains_key(k),
        |k: Seq<char>|
            if r.contains(k) {
                expanded_define(d, k)
            } else {
                d[k]
            },
    )
}

/// The identifiers that expanding `e` (as [`expand`] does) looks up.
pub open spec fn visited(
    d: Map<Seq<char>, SpecExpr>,
    rank: spec_fn(Seq<char>) -> nat,
    b: nat,
    e: SpecExpr,
) -> Set<Seq<char>>
    decreases b, e, 0nat,
{
    match e {
        SpecExpr::Ident(x) => if d.contains_key(x) && rank(x) < b {
            set![x].union(visited(d, rank, rank(x), d[x]))
        } else {
            set![x]
        },
        SpecExpr::Lit(_) => Set::empty(),
        SpecExpr::Prefix(op, s) => visited(d, rank, b, *s),
        SpecExpr::Infix(op, l, r) => visited(d, rank, b, *l).union(visited(d, rank, b, *r)),
        SpecExpr::Case(bs) => if bs.len() == 0 {
            Set::empty()
        } else {
            visited_chain(d, rank, b, bs, 0)
        },
    }
}

pub open spec fn visited_chain(
    d: Map<Seq<char>, SpecExpr>,
    rank: spec_fn(Seq<char>) -> nat,
    b: nat,
    bs: Seq<(SpecExpr, SpecExpr)>,
    i: nat,
) -> Set<Seq<char>>
    decreases b, bs, bs.len() - i,
{
    if i + 1 >= bs.len() {
        if bs.len() == 0 {
            Set::empty()
        } else {
            visited(d, rank, b, bs[bs.len() - 1].1)
        }
    } else {
        visited(d, rank, b, bs[i as int].0).union(visited(d, rank, b, bs[i as int].1)).union(
            visited_chain(d, rank, b, bs, i + 1),
        )
    }
}

/// Every identifier that the full expansion of an expression of `es` looks up
/// is a define or a variable.
pub open spec fn declared_in(m: SpecSmv, es: Seq<SpecExpr>) -> bool {
    forall|i: int, x: Seq<char>|
        0 <= i < es.len() && #[trigger] visited(
            m.defines,
            define_rank(m.defines),
            m.defines.dom().len(),
            es[i],
        ).contains(x) ==> m.defines.contains_key(x) || m.vars.contains(x)
}

/// Every identifier that expanding the model's expressions looks up is
/// declared.
pub open spec fn declared(m: SpecSmv) -> bool {
    &&& declared_in(m, m.inits)
    &&& declared_in(m, m.trans)
    &&& declared_in(m, m.invariants)
    &&& declared_in(m, m.fairness)
    &&& declared_in(m, m.ltlspecs)
}

/// Every expression of the list has `case`s with branches.
pub open spec fn all_cases_nonempty(es: Seq<SpecExpr>) -> bool {
    forall|i: int| 0 <= i < es.len() ==> cases_nonempty(#[trigger] es[i])
}

/// The defines of the model can be expanded everywhere: they do not depend on
/// themselves, every `case` has a branch, and every identifier is declared.
pub open spec fn flattenable(m: SpecSmv) -> bool {
    &&& acyclic(m.defines)
    &&& defines_cases_nonempty(m.defines)
    &&& all_cases_nonempty(m.inits)
    &&& all_cases_nonempty(m.trans)
    &&& all_cases_nonempty(m.invariants)
    &&& all_cases_nonempty(m.fairness)
    &&& all_cases_nonempty(m.ltlspecs)
    &&& declared(m)
}

/// The full expansions of a list of expressions.
pub open spec fn expand_all(d: Map<Seq<char>, SpecExpr>, es: Seq<SpecExpr>) -> Seq<SpecExpr> {
    es.map_values(|e: SpecExpr| expand_top(d, e))
}

/// Expands every expression of `list` in place, sharing the expanded defines.
fn flatten_list(
    defines: &mut Vec<Define>,
    list: &mut Vec<Expr>,
    flattened: &mut Vec<String>,
    Ghost(d): Ghost<Map<Seq<char>, SpecExpr>>,
    Ghost(vs): Ghost<Seq<Seq<char>>>,
) -> (r: ())
    requires
        acyclic(d),
        forall|j: int| 0 <= j < old(list)@.len() ==> declared_at(d, define_rank(d), d.dom().len(), #[trigger] old(list)@[j]@, vs),
        defines_cases_nonempty(d),
        all_cases_nonempty(views(old(list)@)),
        memo_inv(defines_map(old(defines)@), names(old(flattened)@), d, define_rank(d)),
    ensures
        views(final(list)@) == expand_all(d, views(old(list)@)),
        memo_inv(defines_map(final(defines)@), names(final(flattened)@), d, define_rank(d)),
        names(final(flattened)@) == names(old(flattened)@).union(
            reach_all(d, views(old(list)@)),
        ),
{
    let ghost rank = define_rank(d);
    let ghost n = d.dom().len();
    let ghost orig = views(list@);
    let ghost f0 = names(flattened@);
    proof {
        assert(ranked(d, rank));
        assert(orig.subrange(0, 0) =~= Seq::<SpecExpr>::empty());
        assert(f0.union(reach_all(d, orig.subrange(0, 0))) =~= f0);
    }
    let mut i: usize = 0;
    while i < list.len()
        invariant
            ranked(d, rank),
            rank == define_rank(d),
            n == d.dom().len(),
            defines_cases_nonempty(d),
            i <= list@.len() == orig.len(),
            forall|j: int| 0 <= j < i ==> (#[trigger] list@[j])@ == expand_top(d, orig[j]),
            forall|j: int| i <= j < orig.len() ==> (#[trigger] list@[j])@ == orig[j],
            all_cases_nonempty(orig),
            forall|j: int| 0 <= j < orig.len() ==> declared_at(d, rank, n, #[trigger] orig[j], vs),
            memo_inv(defines_map(defines@), names(flattened@), d, rank),
            names(flattened@) == f0.union(reach_all(d, orig.subrange(0, i as int))),
        decreases orig.len() - i,
    {
        let e = copy_expr(&list[i]);
        proof {
            assert(cases_nonempty(orig[i as int]));
            assert forall|y: Seq<char>| d.contains_key(y) && #[trigger] mentions(e@, y) implies rank(
                y,
            ) < n by {}
        }
        proof {
            assert(declared_at(d, rank, n, orig[i as int], vs));
        }
        let fe = flatten_expr(defines, e, flattened, Ghost(d), Ghost(rank), Ghost(n), Ghost(vs));
        list.set(i, fe);
        proof {
            assert(orig.subrange(0, i as int + 1).subrange(0, i as int) =~= orig.subrange(
                0,
                i as int,
            ));
        }
        i = i + 1;
        assert(names(flattened@) =~= f0.union(reach_all(d, orig.subrange(0, i as int))));
    }
    assert(orig.subrange(0, orig.len() as int) =~= orig);
    assert(views(list@) =~= expand_all(d, orig));
}

impl Smv {
    /// The model with each expression of its lists fully expanded; the
    /// defines that the expansions replace hold their own full expansions.
    pub fn flatten_defines(&self) -> (r: Smv)
        requires
            flattenable(self@),
        ensures
            r@.inits == expand_all(self@.defines, self@.inits),
            r@.trans == expand_all(self@.defines, self@.trans),
            r@.invariants == expand_all(self@.defines, self@.invariants),
            r@.fairness == expand_all(self@.defines, self@.fairness),
            r@.ltlspecs == expand_all(self@.defines, self@.ltlspecs),
            r@.vars == self@.vars,
            r@.defines == defines_after(
                self@.defines,
                reach_all(self@.defines, self@.inits).union(
                    reach_all(self@.defines, self@.trans),
                ).union(reach_all(self@.defines, self@.invariants)).union(
                    reach_all(self@.defines, self@.fairness),
                ).union(reach_all(self@.defines, self@.ltlspecs)),
            ),
            defines_free(self@.defines, r@.inits),
            defines_free(self@.defines, r@.trans),
            defines_free(self@.defines, r@.invariants),
            defines_free(self@.defines, r@.fairness),
            defines_free(self@.defines, r@.ltlspecs),
            all_case_free(r@.inits),
            all_case_free(r@.trans),
            all_case_free(r@.invariants),
            all_case_free(r@.fairness),
            all_case_free(r@.ltlspecs),
            acyclic(r@.defines),
            defines_cases_nonempty(r@.defines),
    {
        let ghost d = self@.defines;
        let mut res = self.duplicate();
        let mut flattened: Vec<String> = Vec::new();
        proof {
            assert(names(flattened@) =~= Set::<Seq<char>>::empty());
            let rank = define_rank(d);
            assert forall|k: Seq<char>| #[trigger] d.contains_key(k) implies defines_map(
                res.defines@,
            )[k] == (if names(flattened@).contains(k) {
                expand(d, rank, rank(k), d[k])
            } else {
                d[k]
            }) by {}
        }
        proof {
            assert forall|j: int| 0 <= j < res.inits@.len() implies declared_at(d, define_rank(d), d.dom().len(), #[trigger] res.inits@[j]@, self@.vars) by {
                assert forall|x: Seq<char>| #[trigger] visited(d, define_rank(d), d.dom().len(), res.inits@[j]@).contains(x) implies d.contains_key(x) || self@.vars.contains(x) by {
                    assert(res.inits@[j]@ == self@.inits[j]);
                }
            }
        }
        flatten_list(&mut res.defines, &mut res.inits, &mut flattened, Ghost(d), Ghost(self@.vars));
        proof {
            assert forall|j: int| 0 <= j < res.trans@.len() implies declared_at(d, define_rank(d), d.dom().len(), #[trigger] res.trans@[j]@, self@.vars) by {
                assert forall|x: Seq<char>| #[trigger] visited(d, define_rank(d), d.dom().len(), res.trans@[j]@).contains(x) implies d.contains_key(x) || self@.vars.contains(x) by {
                    assert(res.trans@[j]@ == self@.trans[j]);
                }
            }
        }
        flatten_list(&mut res.defines, &mut res.trans, &mut flattened, Ghost(d), Ghost(self@.vars));
        proof {
            assert forall|j: int| 0 <= j < res.invariants@.len() implies declared_at(d, define_rank(d), d.dom().len(), #[trigger] res.invariants@[j]@, self@.vars) by {
                assert forall|x: Seq<char>| #[trigger] visited(d, define_rank(d), d.dom().len(), res.invariants@[j]@).contains(x) implies d.contains_key(x) || self@.vars.contains(x) by {
                    assert(res.invariants@[j]@ == self@.invariants[j]);
                }
            }
        }
        flatten_list(&mut res.defines, &mut res.invariants, &mut flattened, Ghost(d), Ghost(self@.vars));
        proof {
            assert forall|j: int| 0 <= j < res.fairness@.len() implies declared_at(d, define_rank(d), d.dom().len(), #[trigger] res.fairness@[j]@, self@.vars) by {
                assert forall|x: Seq<char>| #[trigger] visited(d, define_rank(d), d.dom().len(), res.fairness@[j]@).contains(x) implies d.contains_key(x) || self@.vars.contains(x) by {
                    assert(res.fairness@[j]@ == self@.fairness[j]);
                }
            }
        }
        flatten_list(&mut res.defines, &mut res.fairness, &mut flattened, Ghost(d), Ghost(self@.vars));
        proof {
            assert forall|j: int| 0 <= j < res.ltlspecs@.len() implies declared_at(d, define_rank(d), d.dom().len(), #[trigger] res.ltlspecs@[j]@, self@.vars) by {
                assert forall|x: Seq<char>| #[trigger] visited(d, define_rank(d), d.dom().len(), res.ltlspecs@[j]@).contains(x) implies d.contains_key(x) || self@.vars.contains(x) by {
                    assert(res.ltlspecs@[j]@ == self@.ltlspecs[j]);
                }
            }
        }
        flatten_list(&mut res.defines, &mut res.ltlspecs, &mut flattened, Ghost(d), Ghost(self@.vars));
        proof {
            let f = names(flattened@);
            let m = defines_map(res.defines@);
            assert(m =~= defines_after(d, f));
            lemma_defines_after_ranked(d, f);
            lemma_expand_all_shape(d, self@.inits);
            lemma_expand_all_shape(d, self@.trans);
            lemma_expand_all_shape(d, self@.invariants);
            lemma_expand_all_shape(d, self@.fairness);
            lemma_expand_all_shape(d, self@.ltlspecs);
        }
        res
    }
}

} // verus!

verus! {

/// An expression with no `case` has no empty `case`.
pub proof fn lemma_case_free_nonempty(e: SpecExpr)
    requires
        case_free(e),
    ensures
        cases_nonempty(e),
    decreases e,
{
    match e {
        SpecExpr::Prefix(_, s) => lemma_case_free_nonempty(*s),
        SpecExpr::Infix(_, l, r) => {
            lemma_case_free_nonempty(*l);
            lemma_case_free_nonempty(*r);
        },
        _ => {},
    }
}

/// The expansion of an expression whose `case`s have branches, over defines
/// whose `case`s have branches, holds no `case`; and it mentions no define.
pub proof fn lemma_expand_shape(
    d: Map<Seq<char>, SpecExpr>,
    rank: spec_fn(Seq<char>) -> nat,
    b: nat,
    e: SpecExpr,
)
    requires
        ranked(d, rank),
        defines_cases_nonempty(d),
        bounded(d, rank, b, e),
        cases_nonempty(e),
    ensures
        case_free(expand(d, rank, b, e)),
        forall|y: Seq<char>| #[trigger] mentions(expand(d, rank, b, e), y) ==> !d.contains_key(y),
    decreases b, e, 0nat,
{
    match e {
        SpecExpr::Ident(x) => {
            if d.contains_key(x) {
                assert(mentions(e, x));
                assert(rank(x) < b);
                lemma_expand_shape(d, rank, rank(x), d[x]);
                assert(expand(d, rank, b, e) == expand(d, rank, rank(x), d[x]));
            } else {
                assert(expand(d, rank, b, e) == e);
                assert forall|y: Seq<char>| #[trigger] mentions(expand(d, rank, b, e), y) implies !d.contains_key(y) by {
                    assert(y == x);
                }
            }
        },
        SpecExpr::Lit(_) => {},
        SpecExpr::Prefix(op, s) => {
            lemma_bounded_sub(d, rank, b, e, *s);
            lemma_expand_shape(d, rank, b, *s);
            assert(expand(d, rank, b, e) == SpecExpr::Prefix(op, Box::new(expand(d, rank, b, *s))));
            assert forall|y: Seq<char>| #[trigger] mentions(expand(d, rank, b, e), y) implies !d.contains_key(y) by {
                assert(mentions(expand(d, rank, b, e), y) == mentions(expand(d, rank, b, *s), y));
            }
        },
        SpecExpr::Infix(op, l, r) => {
            lemma_bounded_sub(d, rank, b, e, *l);
            lemma_bounded_sub(d, rank, b, e, *r);
            lemma_expand_shape(d, rank, b, *l);
            lemma_expand_shape(d, rank, b, *r);
            assert(expand(d, rank, b, e) == SpecExpr::Infix(
                op,
                Box::new(expand(d, rank, b, *l)),
                Box::new(expand(d, rank, b, *r)),
            ));
            assert forall|y: Seq<char>| #[trigger] mentions(expand(d, rank, b, e), y) implies !d.contains_key(y) by {
                assert(mentions(expand(d, rank, b, e), y) == (mentions(expand(d, rank, b, *l), y) || mentions(expand(d, rank, b, *r), y)));
            }
        },
        SpecExpr::Case(bs) => {
            assert(branches_nonempty(bs, bs.len()));
            lemma_branches_nonempty_all(bs, bs.len());
            lemma_expand_chain_shape(d, rank, b, bs, 0);
            assert(expand(d, rank, b, e) == expand_chain(d, rank, b, bs, 0));
        },
    }
}

proof fn lemma_expand_chain_shape(
    d: Map<Seq<char>, SpecExpr>,
    rank: spec_fn(Seq<char>) -> nat,
    b: nat,
    bs: Seq<(SpecExpr, SpecExpr)>,
    i: nat,
)
    requires
        ranked(d, rank),
        defines_cases_nonempty(d),
        bounded(d, rank, b, SpecExpr::Case(bs)),
        bs.len() > 0,
        forall|j: int|
            #![trigger bs[j]]
            0 <= j < bs.len() ==> cases_nonempty(bs[j].0) && cases_nonempty(bs[j].1),
    ensures
        case_free(expand_chain(d, rank, b, bs, i)),
        forall|y: Seq<char>|
            #[trigger] mentions(expand_chain(d, rank, b, bs, i), y) ==> !d.contains_key(y),
    decreases b, bs, bs.len() - i,
{
    if i + 1 >= bs.len() {
        let k = bs.len() - 1;
        assert(cases_nonempty(bs[k].1));
        lemma_bounded_branch(d, rank, b, bs, k);
        lemma_expand_shape(d, rank, b, bs[k].1);
    } else {
        assert(cases_nonempty(bs[i as int].0));
        lemma_bounded_branch(d, rank, b, bs, i as int);
        lemma_expand_shape(d, rank, b, bs[i as int].0);
        lemma_expand_shape(d, rank, b, bs[i as int].1);
        lemma_expand_chain_shape(d, rank, b, bs, i + 1);
        let c = expand(d, rank, b, bs[i as int].0);
        let t = expand(d, rank, b, bs[i as int].1);
        let f = expand_chain(d, rank, b, bs, i + 1);
        let nc = SpecExpr::Prefix(Prefix::Not, Box::new(c));
        let ct = SpecExpr::Infix(Infix::And, Box::new(c), Box::new(t));
        let nf = SpecExpr::Infix(Infix::And, Box::new(nc), Box::new(f));
        assert(case_free(nc));
        assert(case_free(ct));
        assert(case_free(nf));
        assert(case_free(ite(c, t, f)));
        assert forall|y: Seq<char>| #[trigger] mentions(ite(c, t, f), y) implies !d.contains_key(
            y,
        ) by {
            assert(mentions(ite(c, t, f), y) == (mentions(ct, y) || mentions(nf, y)));
            assert(mentions(ct, y) == (mentions(c, y) || mentions(t, y)));
            assert(mentions(nf, y) == (mentions(nc, y) || mentions(f, y)));
            assert(mentions(nc, y) == mentions(c, y));
        }
    }
}

} // verus!

verus! {

/// No expression of `es` mentions a define of `d`.
pub open spec fn defines_free(d: Map<Seq<char>, SpecExpr>, es: Seq<SpecExpr>) -> bool {
    forall|i: int, y: Seq<char>|
        0 <= i < es.len() && #[trigger] mentions(es[i], y) ==> !d.contains_key(y)
}

/// No expression of `es` holds a `case`.
pub open spec fn all_case_free(es: Seq<SpecExpr>) -> bool {
    forall|i: int| 0 <= i < es.len() ==> case_free(#[trigger] es[i])
}

/// Full expansion leaves no define and no `case` in a list of expressions.
pub proof fn lemma_expand_all_shape(d: Map<Seq<char>, SpecExpr>, es: Seq<SpecExpr>)
    requires
        acyclic(d),
        defines_cases_nonempty(d),
        all_cases_nonempty(es),
    ensures
        defines_free(d, expand_all(d, es)),
        all_case_free(expand_all(d, es)),
{
    let rank = define_rank(d);
    assert(ranked(d, rank));
    assert forall|i: int| 0 <= i < es.len() implies case_free(#[trigger] expand_all(d, es)[i])
        && forall|y: Seq<char>|
        #[trigger] mentions(expand_all(d, es)[i], y) ==> !d.contains_key(y) by {
        assert(cases_nonempty(es[i]));
        lemma_expand_shape(d, rank, d.dom().len(), es[i]);
    }
}

/// Replacing defines by their full expansions keeps the defines acyclic, with
/// the same ranks.
pub proof fn lemma_defines_after_ranked(d: Map<Seq<char>, SpecExpr>, r: Set<Seq<char>>)
    requires
        acyclic(d),
        defines_cases_nonempty(d),
    ensures
        ranked(defines_after(d, r), define_rank(d)),
        acyclic(defines_after(d, r)),
        defines_cases_nonempty(defines_after(d, r)),
{
    let rank = define_rank(d);
    let d2 = defines_after(d, r);
    assert(ranked(d, rank));
    assert(d2.dom() =~= d.dom());
    assert forall|k: Seq<char>| #[trigger] d2.contains_key(k) implies rank(k) < d2.dom().len()
        && (forall|y: Seq<char>| d2.contains_key(y) && mentions(d2[k], y) ==> rank(y) < rank(k))
        && cases_nonempty(d2[k]) by {
        if r.contains(k) {
            assert(bounded(d, rank, rank(k), d[k]));
            lemma_expand_shape(d, rank, rank(k), d[k]);
            lemma_case_free_nonempty(d2[k]);
        }
    }
    assert(ranked(d2, rank));
}

} // verus!
