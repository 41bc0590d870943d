//! SMV models.
use crate::ast::{copy_expr, expr_equals, views, Expr, SpecExpr};
use crate::grammar::parse_model;
use crate::lexer::{lex, lex_tokens, LexError};
use crate::parser::{read_tokens, ParseError};
use crate::token::{lexemes, Tokens};
use vstd::prelude::*;

verus! {

/// A `DEFINE`: `ident := expr;`.
#[derive(Debug)]
pub struct Define {
    pub ident: String,
    pub expr: Expr,
}

/// A boolean state variable.
#[derive(Debug)]
pub struct Var {
    pub ident: String,
}

/// An SMV model. In `defines`, a later entry overrides an earlier entry with
/// the same identifier.
#[derive(Debug)]
pub struct Smv {
    pub defines: Vec<Define>,
    pub vars: Vec<Var>,
    pub inits: Vec<Expr>,
    pub trans: Vec<Expr>,
    pub invariants: Vec<Expr>,
    pub fairness: Vec<Expr>,
    pub ltlspecs: Vec<Expr>,
}

/// The mathematical value of a model.
pub struct SpecSmv {
    pub defines: Map<Seq<char>, SpecExpr>,
    pub vars: Seq<Seq<char>>,
    pub inits: Seq<SpecExpr>,
    pub trans: Seq<SpecExpr>,
    pub invariants: Seq<SpecExpr>,
    pub fairness: Seq<SpecExpr>,
    pub ltlspecs: Seq<SpecExpr>,
}

pub open spec fn empty_smv() -> SpecSmv {
    SpecSmv {
        defines: Map::empty(),
        vars: Seq::empty(),
        inits: Seq::empty(),
        trans: Seq::empty(),
        invariants: Seq::empty(),
        fairness: Seq::empty(),
        ltlspecs: Seq::empty(),
    }
}

/// The union of two models: the defines of `b` override those of `a`; the
/// other lists are concatenated.
pub open spec fn smv_add(a: SpecSmv, b: SpecSmv) -> SpecSmv {
    SpecSmv {
        defines: a.defines.union_prefer_right(b.defines),
        vars: a.vars + b.vars,
        inits: a.inits + b.inits,
        trans: a.trans + b.trans,
        invariants: a.invariants + b.invariants,
        fairness: a.fairness + b.fairness,
        ltlspecs: a.ltlspecs + b.ltlspecs,
    }
}

/// The map from identifier to expression that a list of defines gives, a
/// later entry overriding an earlier one.
pub open spec fn defines_map(ds: Seq<Define>) -> Map<Seq<char>, SpecExpr>
    decreases ds.len(),
{
    if ds.len() == 0 {
        Map::empty()
    } else {
        defines_map(ds.subrange(0, ds.len() - 1)).insert(
            ds[ds.len() - 1].ident@,
            ds[ds.len() - 1].expr@,
        )
    }
}

pub open spec fn var_names(vs: Seq<Var>) -> Seq<Seq<char>> {
    vs.map_values(|v: Var| v.ident@)
}

impl View for Smv {
    type V = SpecSmv;

    open spec fn view(&self) -> SpecSmv {
        SpecSmv {
            defines: defines_map(self.defines@),
            vars: var_names(self.vars@),
            inits: views(self.inits@),
            trans: views(self.trans@),
            invariants: views(self.invariants@),
            fairness: views(self.fairness@),
            ltlspecs: views(self.ltlspecs@),
        }
    }
}

/// Appending defines overrides with them in order.
pub proof fn lemma_defines_map_append(a: Seq<Define>, b: Seq<Define>)
    ensures
        defines_map(a + b) == defines_map(a).union_prefer_right(defines_map(b)),
    decreases b.len(),
{
    if b.len() == 0 {
        assert(a + b =~= a);
        assert(defines_map(a).union_prefer_right(defines_map(b)) =~= defines_map(a));
    } else {
        let b0 = b.subrange(0, b.len() - 1);
        lemma_defines_map_append(a, b0);
        assert((a + b).subrange(0, (a + b).len() - 1) =~= a + b0);
        assert(defines_map(a + b) =~= defines_map(a).union_prefer_right(defines_map(b)));
    }
}

/// The last entry with identifier `k` gives its expression.
pub proof fn lemma_defines_map_last(ds: Seq<Define>, i: int, k: Seq<char>)
    requires
        0 <= i < ds.len(),
        ds[i].ident@ == k,
        forall|j: int| i < j < ds.len() ==> (#[trigger] ds[j]).ident@ != k,
    ensures
        defines_map(ds).contains_key(k),
        defines_map(ds)[k] == ds[i].expr@,
    decreases ds.len(),
{
    if i < ds.len() - 1 {
        let d0 = ds.subrange(0, ds.len() - 1);
        assert forall|j: int| i < j < d0.len() implies (#[trigger] d0[j]).ident@ != k by {
            assert(d0[j] == ds[j]);
        }
        assert(d0[i] == ds[i]);
        lemma_defines_map_last(d0, i, k);
        assert(ds[ds.len() - 1].ident@ != k);
    }
}

/// An identifier that no entry has is not defined.
pub proof fn lemma_defines_map_absent(ds: Seq<Define>, k: Seq<char>)
    requires
        forall|j: int| 0 <= j < ds.len() ==> (#[trigger] ds[j]).ident@ != k,
    ensures
        !defines_map(ds).contains_key(k),
    decreases ds.len(),
{
    if ds.len() > 0 {
        let d0 = ds.subrange(0, ds.len() - 1);
        assert forall|j: int| 0 <= j < d0.len() implies (#[trigger] d0[j]).ident@ != k by {
            assert(d0[j] == ds[j]);
        }
        lemma_defines_map_absent(d0, k);
        assert(ds[ds.len() - 1].ident@ != k);
    }
}

/// The identifier of every entry is defined.
pub proof fn lemma_defines_map_last_exists(ds: Seq<Define>, i: int)
    requires
        0 <= i < ds.len(),
    ensures
        defines_map(ds).contains_key(ds[i].ident@),
    decreases ds.len(),
{
    if i < ds.len() - 1 {
        let d0 = ds.subrange(0, ds.len() - 1);
        assert(d0[i] == ds[i]);
        lemma_defines_map_last_exists(d0, i);
    }
}

/// Every defined identifier has an entry.
pub proof fn lemma_defines_map_has_entry(ds: Seq<Define>, k: Seq<char>) -> (i: int)
    requires
        defines_map(ds).contains_key(k),
    ensures
        0 <= i < ds.len(),
        ds[i].ident@ == k,
    decreases ds.len(),
{
    let d0 = ds.subrange(0, ds.len() - 1);
    if ds[ds.len() - 1].ident@ == k {
        ds.len() - 1
    } else {
        let i = lemma_defines_map_has_entry(d0, k);
        assert(d0[i] == ds[i]);
        i
    }
}

/// The position of the entry that gives `name` its definition: the last one
/// with that identifier.
pub fn find_define(ds: &Vec<Define>, name: &String) -> (r: Option<usize>)
    ensures
        match r {
            Some(i) => i < ds@.len() && ds@[i as int].ident@ == name@ && (forall|j: int|
                i < j < ds@.len() ==> ds@[j].ident@ != name@),
            None => forall|j: int| 0 <= j < ds@.len() ==> ds@[j].ident@ != name@,
        },
{
    let mut i = ds.len();
    while i > 0
        invariant
            i <= ds@.len(),
            forall|j: int| i <= j < ds@.len() ==> ds@[j].ident@ != name@,
        decreases i,
    {
        i = i - 1;
        if ds[i].ident == *name {
            return Some(i);
        }
    }
    None
}

impl Define {
    /// A copy with the same identifier and expression.
    pub fn duplicate(&self) -> (r: Define)
        ensures
            r.ident@ == self.ident@,
            r.expr@ == self.expr@,
    {
        Define { ident: self.ident.clone(), expr: copy_expr(&self.expr) }
    }
}

/// A copy of the expressions `es`.
pub fn copy_exprs(es: &Vec<Expr>) -> (r: Vec<Expr>)
    ensures
        views(r@) == views(es@),
{
    let mut r: Vec<Expr> = Vec::new();
    let mut i: usize = 0;
    while i < es.len()
        invariant
            i <= es@.len(),
            views(r@) == views(es@).subrange(0, i as int),
        decreases es@.len() - i,
    {
        let ghost before = views(r@);
        r.push(copy_expr(&es[i]));
        assert(views(r@) =~= before.push(es@[i as int]@));
        i = i + 1;
        assert(views(r@) =~= views(es@).subrange(0, i as int));
    }
    assert(views(es@).subrange(0, es@.len() as int) =~= views(es@));
    r
}

fn copy_defines(ds: &Vec<Define>) -> (r: Vec<Define>)
    ensures
        r@.len() == ds@.len(),
        forall|i: int|
            0 <= i < ds@.len() ==> (#[trigger] r@[i]).ident@ == ds@[i].ident@ && r@[i].expr@
                == ds@[i].expr@,
{
    let mut r: Vec<Define> = Vec::new();
    let mut i: usize = 0;
    while i < ds.len()
        invariant
            i <= ds@.len(),
            r@.len() == i,
            forall|k: int|
                0 <= k < i ==> (#[trigger] r@[k]).ident@ == ds@[k].ident@ && r@[k].expr@
                    == ds@[k].expr@,
        decreases ds@.len() - i,
    {
        r.push(ds[i].duplicate());
        i = i + 1;
    }
    r
}

/// Lists of defines that agree entry by entry give the same map.
pub proof fn lemma_defines_map_same(a: Seq<Define>, b: Seq<Define>)
    requires
        a.len() == b.len(),
        forall|i: int|
            0 <= i < a.len() ==> (#[trigger] a[i]).ident@ == b[i].ident@ && a[i].expr@
                == b[i].expr@,
    ensures
        defines_map(a) == defines_map(b),
    decreases a.len(),
{
    if a.len() > 0 {
        let a0 = a.subrange(0, a.len() - 1);
        let b0 = b.subrange(0, b.len() - 1);
        assert forall|i: int| 0 <= i < a0.len() implies (#[trigger] a0[i]).ident@ == b0[i].ident@
            && a0[i].expr@ == b0[i].expr@ by {
            assert(a0[i] == a[i]);
            assert(b0[i] == b[i]);
        }
        lemma_defines_map_same(a0, b0);
    }
}

fn copy_vars(vs: &Vec<Var>) -> (r: Vec<Var>)
    ensures
        var_names(r@) == var_names(vs@),
{
    let mut r: Vec<Var> = Vec::new();
    let mut i: usize = 0;
    while i < vs.len()
        invariant
            i <= vs@.len(),
            var_names(r@) == var_names(vs@).subrange(0, i as int),
        decreases vs@.len() - i,
    {
        let ghost before = var_names(r@);
        r.push(Var { ident: vs[i].ident.clone() });
        assert(var_names(r@) =~= before.push(vs@[i as int].ident@));
        i = i + 1;
        assert(var_names(r@) =~= var_names(vs@).subrange(0, i as int));
    }
    assert(var_names(vs@).subrange(0, vs@.len() as int) =~= var_names(vs@));
    r
}

impl Smv {
    /// The model with nothing in it.
    pub fn new() -> (r: Smv)
        ensures
            r@ == empty_smv(),
    {
        let r = Smv {
            defines: Vec::new(),
            vars: Vec::new(),
            inits: Vec::new(),
            trans: Vec::new(),
            invariants: Vec::new(),
            fairness: Vec::new(),
            ltlspecs: Vec::new(),
        };
        assert(r@.vars =~= Seq::<Seq<char>>::empty());
        assert(r@.inits =~= Seq::<SpecExpr>::empty());
        assert(r@.trans =~= Seq::<SpecExpr>::empty());
        assert(r@.invariants =~= Seq::<SpecExpr>::empty());
        assert(r@.fairness =~= Seq::<SpecExpr>::empty());
        assert(r@.ltlspecs =~= Seq::<SpecExpr>::empty());
        r
    }

    /// A copy of the model with the same value.
    pub fn duplicate(&self) -> (r: Smv)
        ensures
            r@ == self@,
    {
        let defines = copy_defines(&self.defines);
        proof {
            lemma_defines_map_same(defines@, self.defines@);
        }
        Smv {
            defines,
            vars: copy_vars(&self.vars),
            inits: copy_exprs(&self.inits),
            trans: copy_exprs(&self.trans),
            invariants: copy_exprs(&self.invariants),
            fairness: copy_exprs(&self.fairness),
            ltlspecs: copy_exprs(&self.ltlspecs),
        }
    }

    /// The expression that `name` is defined as, if it is defined.
    pub fn get_define(&self, name: &String) -> (r: Option<&Define>)
        ensures
            match r {
                Some(d) => self@.defines.contains_key(name@) && d.ident@ == name@ && d.expr@
                    == self@.defines[name@],
                None => !self@.defines.contains_key(name@),
            },
    {
        match find_define(&self.defines, name) {
            Some(i) => {
                proof {
                    lemma_defines_map_last(self.defines@, i as int, name@);
                }
                Some(&self.defines[i])
            },
            None => {
                proof {
                    lemma_defines_map_absent(self.defines@, name@);
                }
                None
            },
        }
    }

    /// Adds the contents of `rhs`: its defines override those of `self`, and
    /// its lists follow those of `self`.
    pub fn merge(&mut self, rhs: Smv)
        ensures
            final(self)@ == smv_add(old(self)@, rhs@),
    {
        let mut rhs = rhs;
        let ghost a = self.defines@;
        let ghost b = rhs.defines@;
        let ghost old_view = self@;
        let ghost rhs_view = rhs@;
        self.defines.append(&mut rhs.defines);
        proof {
            lemma_defines_map_append(a, b);
        }
        let ghost vs = var_names(self.vars@);
        let ghost rvs = var_names(rhs.vars@);
        self.vars.append(&mut rhs.vars);
        assert(var_names(self.vars@) =~= vs + rvs);
        let ghost x = views(self.inits@);
        let ghost rx = views(rhs.inits@);
        self.inits.append(&mut rhs.inits);
        assert(views(self.inits@) =~= x + rx);
        let ghost x = views(self.trans@);
        let ghost rx = views(rhs.trans@);
        self.trans.append(&mut rhs.trans);
        assert(views(self.trans@) =~= x + rx);
        let ghost x = views(self.invariants@);
        let ghost rx = views(rhs.invariants@);
        self.invariants.append(&mut rhs.invariants);
        assert(views(self.invariants@) =~= x + rx);
        let ghost x = views(self.fairness@);
        let ghost rx = views(rhs.fairness@);
        self.fairness.append(&mut rhs.fairness);
        assert(views(self.fairness@) =~= x + rx);
        let ghost x = views(self.ltlspecs@);
        let ghost rx = views(rhs.ltlspecs@);
        self.ltlspecs.append(&mut rhs.ltlspecs);
        assert(views(self.ltlspecs@) =~= x + rx);
    }
}

/// The expressions of `s` without repetitions: each first occurrence, in order.
pub open spec fn dedup_exprs(s: Seq<SpecExpr>) -> Seq<SpecExpr>
    decreases s.len(),
{
    if s.len() == 0 {
        Seq::empty()
    } else {
        let d = dedup_exprs(s.subrange(0, s.len() - 1));
        if d.contains(s[s.len() - 1]) {
            d
        } else {
            d.push(s[s.len() - 1])
        }
    }
}

/// The model with repeated transition constraints removed.
pub open spec fn dedup_trans(m: SpecSmv) -> SpecSmv {
    SpecSmv { trans: dedup_exprs(m.trans), ..m }
}

/// The model that SMV source text describes, if it lexes and parses.
pub open spec fn model_of_text(s: Seq<char>) -> Option<SpecSmv> {
    match lex(s) {
        Some(toks) => match parse_model(toks) {
            Some(m) => Some(dedup_trans(m)),
            None => None,
        },
        None => None,
    }
}

fn contains_expr(es: &Vec<Expr>, e: &Expr) -> (r: bool)
    ensures
        r == views(es@).contains(e@),
{
    let mut i: usize = 0;
    while i < es.len()
        invariant
            i <= es@.len(),
            forall|k: int| 0 <= k < i ==> es@[k]@ != e@,
        decreases es@.len() - i,
    {
        if expr_equals(&es[i], e) {
            assert(views(es@)[i as int] == e@);
            return true;
        }
        i = i + 1;
    }
    assert forall|k: int| 0 <= k < views(es@).len() implies views(es@)[k] != e@ by {
        assert(views(es@)[k] == es@[k]@);
    }
    false
}

/// Why SMV text does not give a model.
#[derive(Debug, Clone, Copy, PartialEq, Eq)]
pub enum SmvError {
    Lex(LexError),
    Parse(ParseError),
}

impl Smv {
    /// Removes repeated transition constraints, keeping first occurrences.
    pub fn dedup(&mut self)
        ensures
            final(self)@ == dedup_trans(old(self)@),
    {
        let mut out: Vec<Expr> = Vec::new();
        let mut i: usize = 0;
        assert(views(out@) =~= dedup_exprs(views(self.trans@).subrange(0, 0)));
        while i < self.trans.len()
            invariant
                i <= self.trans@.len(),
                views(out@) == dedup_exprs(views(self.trans@).subrange(0, i as int)),
            decreases self.trans@.len() - i,
        {
            let ghost s = views(self.trans@).subrange(0, i as int + 1);
            assert(s.subrange(0, i as int) =~= views(self.trans@).subrange(0, i as int));
            assert(s[i as int] == self.trans@[i as int]@);
            if !contains_expr(&out, &self.trans[i]) {
                let ghost before = views(out@);
                out.push(copy_expr(&self.trans[i]));
                assert(views(out@) =~= before.push(self.trans@[i as int]@));
            }
            i = i + 1;
        }
        assert(views(self.trans@).subrange(0, self.trans@.len() as int) =~= views(self.trans@));
        self.trans = out;
    }

    /// The model that SMV source text describes (see [`model_of_text`]).
    pub fn parse(input: &str) -> (r: Result<Smv, SmvError>)
        ensures
            match r {
                Ok(m) => model_of_text(input@) == Some(m@),
                Err(SmvError::Lex(_)) => lex(input@) is None,
                Err(SmvError::Parse(_)) => lex(input@) is Some && parse_model(lex(input@).unwrap()) is None,
            },
            r is Err ==> model_of_text(input@) is None,
    {
        let tokens = match lex_tokens(input) {
            Ok(t) => t,
            Err(e) => {
                return Err(SmvError::Lex(e));
            },
        };
        let toks = Tokens::new(tokens.as_slice());
        let mut smv = match read_tokens(toks) {
            Ok(m) => m,
            Err(e) => {
                return Err(SmvError::Parse(e));
            },
        };
        smv.dedup();
        Ok(smv)
    }
}

impl Clone for Define {
    fn clone(&self) -> (r: Self)
        ensures
            r.ident@ == self.ident@,
            r.expr@ == self.expr@,
    {
        self.duplicate()
    }
}

impl Clone for Var {
    fn clone(&self) -> (r: Self)
        ensures
            r.ident@ == self.ident@,
    {
        Var { ident: self.ident.clone() }
    }
}

impl Clone for Smv {
    fn clone(&self) -> (r: Self)
        ensures
            r@ == self@,
    {
        self.duplicate()
    }
}

impl Default for Smv {
    fn default() -> (r: Self)
        ensures
            r@ == empty_smv(),
    {
        Smv::new()
    }
}

impl core::ops::AddAssign for Smv {
    fn add_assign(&mut self, rhs: Smv)
        ensures
            final(self)@ == smv_add(old(self)@, rhs@),
    {
        self.merge(rhs);
    }
}

impl core::ops::Add for Smv {
    type Output = Smv;

    fn add(self, rhs: Smv) -> (r: Smv)
        ensures
            r@ == smv_add(self@, rhs@),
    {
        let mut s = self;
        s.merge(rhs);
        s
    }
}

impl vstd::std_specs::ops::AddSpecImpl for Smv {
    open spec fn obeys_add_spec() -> bool {
        false
    }

    open spec fn add_req(self, rhs: Smv) -> bool {
        true
    }

    open spec fn add_spec(self, rhs: Smv) -> Smv {
        arbitrary()
    }
}

} // verus!
