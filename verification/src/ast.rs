use vstd::prelude::*;

verus! {

/// Unary operators of SMV and LTL expressions.
#[derive(Eq, PartialEq, Debug, Clone, Copy, Hash, Structural)]
pub enum Prefix {
    Not,
    Next,
    LtlGlobally,
    LtlFinally,
    LtlNext,
    LtlOnce,
}

/// Binary operators of SMV and LTL expressions.
#[derive(Eq, PartialEq, Debug, Clone, Copy, Hash, Structural)]
pub enum Infix {
    And,
    Or,
    Xor,
    Imply,
    Iff,
    LtlUntil,
    LtlRelease,
    LtlSince,
}

/// A `case ... esac` expression: the first branch whose condition holds
/// gives the value.
#[derive(Debug, PartialEq, Hash, Eq)]
pub struct CaseExpr {
    pub branchs: Vec<(Expr, Expr)>,
}

/// An SMV / LTL expression.
#[derive(Debug, PartialEq, Hash, Eq)]
pub enum Expr {
    Ident(String),
    LitExpr(bool),
    PrefixExpr(Prefix, Box<Expr>),
    InfixExpr(Infix, Box<Expr>, Box<Expr>),
    CaseExpr(CaseExpr),
}

/// The mathematical value of an [`Expr`]: identifiers are character sequences.
pub enum SpecExpr {
    Ident(Seq<char>),
    Lit(bool),
    Prefix(Prefix, Box<SpecExpr>),
    Infix(Infix, Box<SpecExpr>, Box<SpecExpr>),
    Case(Seq<(SpecExpr, SpecExpr)>),
}

pub open spec fn view_expr(e: Expr) -> SpecExpr
    decreases e,
{
    match e {
        Expr::Ident(s) => SpecExpr::Ident(s@),
        Expr::LitExpr(b) => SpecExpr::Lit(b),
        Expr::PrefixExpr(op, sub) => SpecExpr::Prefix(op, Box::new(view_expr(*sub))),
        Expr::InfixExpr(op, l, r) => SpecExpr::Infix(
            op,
            Box::new(view_expr(*l)),
            Box::new(view_expr(*r)),
        ),
        Expr::CaseExpr(c) => SpecExpr::Case(view_branches(c.branchs@)),
    }
}

pub open spec fn view_branches(bs: Seq<(Expr, Expr)>) -> Seq<(SpecExpr, SpecExpr)>
    decreases bs,
{
    if bs.len() == 0 {
        Seq::empty()
    } else {
        let last = bs[bs.len() - 1];
        view_branches(bs.subrange(0, bs.len() - 1)).push((view_expr(last.0), view_expr(last.1)))
    }
}

impl View for Expr {
    type V = SpecExpr;

    open spec fn view(&self) -> SpecExpr {
        view_expr(*self)
    }
}

/// The values of a sequence of case branches.
pub open spec fn branch_views(bs: Seq<(Expr, Expr)>) -> Seq<(SpecExpr, SpecExpr)> {
    bs.map_values(|b: (Expr, Expr)| (b.0@, b.1@))
}

pub proof fn lemma_view_branches(bs: Seq<(Expr, Expr)>)
    ensures
        view_branches(bs) == branch_views(bs),
    decreases bs.len(),
{
    if bs.len() > 0 {
        lemma_view_branches(bs.subrange(0, bs.len() - 1));
        assert(view_branches(bs) =~= branch_views(bs));
    } else {
        assert(view_branches(bs) =~= branch_views(bs));
    }
}

/// A copy of `e` with the same value.
pub fn copy_expr(e: &Expr) -> (r: Expr)
    ensures
        r@ == e@,
    decreases e,
{
    match e {
        Expr::Ident(s) => Expr::Ident(s.clone()),
        Expr::LitExpr(b) => Expr::LitExpr(*b),
        Expr::PrefixExpr(op, sub) => Expr::PrefixExpr(*op, Box::new(copy_expr(sub))),
        Expr::InfixExpr(op, l, r) => Expr::InfixExpr(
            *op,
            Box::new(copy_expr(l)),
            Box::new(copy_expr(r)),
        ),
        Expr::CaseExpr(c) => {
            let bs = copy_branches(&c.branchs);
            proof {
                lemma_view_branches(c.branchs@);
                lemma_view_branches(bs@);
            }
            Expr::CaseExpr(CaseExpr { branchs: bs })
        },
    }
}

/// A copy of the branches `bs` with the same values.
pub fn copy_branches(bs: &Vec<(Expr, Expr)>) -> (r: Vec<(Expr, Expr)>)
    ensures
        branch_views(r@) == branch_views(bs@),
    decreases bs,
{
    let mut r: Vec<(Expr, Expr)> = Vec::new();
    let mut i: usize = 0;
    while i < bs.len()
        invariant
            i <= bs.len(),
            r@.len() == i,
            forall|k: int| 0 <= k < i ==> (#[trigger] r@[k]).0@ == bs@[k].0@ && r@[k].1@ == bs@[k].1@,
        decreases bs.len() - i,
    {
        proof {
            assert(decreases_to!(bs => bs@[i as int]));
        }
        let a = copy_expr(&bs[i].0);
        let b = copy_expr(&bs[i].1);
        r.push((a, b));
        i = i + 1;
    }
    assert(branch_views(r@) =~= branch_views(bs@));
    r
}

impl Clone for Expr {
    fn clone(&self) -> (r: Self)
        ensures
            r@ == self@,
    {
        copy_expr(self)
    }
}

impl Clone for CaseExpr {
    fn clone(&self) -> (r: Self)
        ensures
            branch_views(r.branchs@) == branch_views(self.branchs@),
    {
        CaseExpr { branchs: copy_branches(&self.branchs) }
    }
}

/// The values of a sequence of expressions.
pub open spec fn views(s: Seq<Expr>) -> Seq<SpecExpr> {
    s.map_values(|e: Expr| e@)
}

impl core::ops::Not for Expr {
    type Output = Expr;

    fn not(self) -> (r: Expr)
        ensures
            r@ == SpecExpr::Prefix(Prefix::Not, Box::new(self@)),
    {
        Expr::PrefixExpr(Prefix::Not, Box::new(self))
    }
}

impl core::ops::BitAnd for Expr {
    type Output = Expr;

    fn bitand(self, rhs: Expr) -> (r: Expr)
        ensures
            r@ == SpecExpr::Infix(Infix::And, Box::new(self@), Box::new(rhs@)),
    {
        Expr::InfixExpr(Infix::And, Box::new(self), Box::new(rhs))
    }
}

impl core::ops::BitOr for Expr {
    type Output = Expr;

    fn bitor(self, rhs: Expr) -> (r: Expr)
        ensures
            r@ == SpecExpr::Infix(Infix::Or, Box::new(self@), Box::new(rhs@)),
    {
        Expr::InfixExpr(Infix::Or, Box::new(self), Box::new(rhs))
    }
}

impl vstd::std_specs::ops::NotSpecImpl for Expr {
    open spec fn obeys_not_spec() -> bool {
        true
    }

    open spec fn not_req(self) -> bool {
        true
    }

    open spec fn not_spec(self) -> Expr {
        Expr::PrefixExpr(Prefix::Not, Box::new(self))
    }
}

impl vstd::std_specs::ops::BitAndSpecImpl for Expr {
    open spec fn obeys_bitand_spec() -> bool {
        true
    }

    open spec fn bitand_req(self, rhs: Expr) -> bool {
        true
    }

    open spec fn bitand_spec(self, rhs: Expr) -> Expr {
        Expr::InfixExpr(Infix::And, Box::new(self), Box::new(rhs))
    }
}

impl vstd::std_specs::ops::BitOrSpecImpl for Expr {
    open spec fn obeys_bitor_spec() -> bool {
        true
    }

    open spec fn bitor_req(self, rhs: Expr) -> bool {
        true
    }

    open spec fn bitor_spec(self, rhs: Expr) -> Expr {
        Expr::InfixExpr(Infix::Or, Box::new(self), Box::new(rhs))
    }
}

/// Whether two expressions have the same value.
pub fn expr_equals(a: &Expr, b: &Expr) -> (r: bool)
    ensures
        r == (a@ == b@),
    decreases a,
{
    match (a, b) {
        (Expr::Ident(x), Expr::Ident(y)) => {
            assert(a@ == SpecExpr::Ident(x@) && b@ == SpecExpr::Ident(y@));
            *x == *y
        },
        (Expr::LitExpr(x), Expr::LitExpr(y)) => {
            assert(a@ == SpecExpr::Lit(*x) && b@ == SpecExpr::Lit(*y));
            *x == *y
        },
        (Expr::PrefixExpr(o1, x), Expr::PrefixExpr(o2, y)) => {
            let r = *o1 == *o2 && expr_equals(x, y);
            assert(a@ == SpecExpr::Prefix(*o1, Box::new(x@)));
            assert(b@ == SpecExpr::Prefix(*o2, Box::new(y@)));
            r
        },
        (Expr::InfixExpr(o1, l1, r1), Expr::InfixExpr(o2, l2, r2)) => {
            let r = *o1 == *o2 && expr_equals(l1, l2) && expr_equals(r1, r2);
            assert(a@ == SpecExpr::Infix(*o1, Box::new(l1@), Box::new(r1@)));
            assert(b@ == SpecExpr::Infix(*o2, Box::new(l2@), Box::new(r2@)));
            r
        },
        (Expr::CaseExpr(c1), Expr::CaseExpr(c2)) => {
            proof {
                lemma_view_branches(c1.branchs@);
                lemma_view_branches(c2.branchs@);
            }
            let r = branches_equal(&c1.branchs, &c2.branchs);
            assert(a@ == SpecExpr::Case(view_branches(c1.branchs@)));
            assert(b@ == SpecExpr::Case(view_branches(c2.branchs@)));
            proof {
                if r {
                    assert(branch_views(c1.branchs@) =~= branch_views(c2.branchs@));
                    assert(a@ == b@);
                } else if c1.branchs@.len() == c2.branchs@.len() {
                    let k = choose|k: int|
                        0 <= k < c1.branchs@.len() && (c1.branchs@[k].0@ != c2.branchs@[k].0@
                            || c1.branchs@[k].1@ != c2.branchs@[k].1@);
                    assert(branch_views(c1.branchs@)[k] != branch_views(c2.branchs@)[k]);
                    assert(a@ != b@);
                } else {
                    assert(branch_views(c1.branchs@).len() != branch_views(c2.branchs@).len());
                    assert(a@ != b@);
                }
            }
            r
        },
        _ => {
            assert(a@ != b@);
            false
        },
    }
}

fn branches_equal(a: &Vec<(Expr, Expr)>, b: &Vec<(Expr, Expr)>) -> (r: bool)
    ensures
        r == (a@.len() == b@.len() && forall|k: int|
            0 <= k < a@.len() ==> a@[k].0@ == b@[k].0@ && a@[k].1@ == b@[k].1@),
    decreases a,
{
    if a.len() != b.len() {
        return false;
    }
    let mut i: usize = 0;
    while i < a.len()
        invariant
            i <= a@.len() == b@.len(),
            forall|k: int| 0 <= k < i ==> a@[k].0@ == b@[k].0@ && a@[k].1@ == b@[k].1@,
        decreases a@.len() - i,
    {
        proof {
            assert(decreases_to!(a => a@[i as int]));
        }
        if !expr_equals(&a[i].0, &b[i].0) || !expr_equals(&a[i].1, &b[i].1) {
            return false;
        }
        i = i + 1;
    }
    true
}

/// The conjuncts of `e`: the leaves of its top-level tree of `&` operators,
/// from left to right.
pub open spec fn and_parts(e: SpecExpr) -> Seq<SpecExpr>
    decreases e,
{
    match e {
        SpecExpr::Infix(Infix::And, l, r) => and_parts(*l) + and_parts(*r),
        _ => seq![e],
    }
}

impl Expr {
    /// Splits a conjunction into its conjuncts.
    pub fn partition_to_ands(self) -> (r: Vec<Expr>)
        ensures
            views(r@) == and_parts(self@),
        decreases self,
    {
        match self {
            Expr::InfixExpr(Infix::And, left, right) => {
                let mut l = left.partition_to_ands();
                let mut r = right.partition_to_ands();
                let ghost l0 = l@;
                let ghost r0 = r@;
                l.append(&mut r);
                assert(views(l@) =~= views(l0) + views(r0));
                l
            },
            _ => {
                let ghost e = self@;
                let v = vec![self];
                assert(views(v@) =~= seq![e]);
                v
            },
        }
    }
}

} // verus!
