//! The grammar of SMV models, as functions from a token sequence and a position
//! to what is parsed there and the position after it.
//!
//! Expressions are parsed by precedence climbing over the binary operators;
//! a prefix operator applies to the atom that follows it.
use crate::ast::{Infix, Prefix, SpecExpr};
use crate::smv::{empty_smv, smv_add, SpecSmv};
use crate::token::{Lexeme, Token};
use vstd::prelude::*;

verus! {

/// Binding strength of binary operators, from loosest to tightest.
#[derive(PartialEq, Eq, Debug, Clone, Copy, Structural)]
pub enum Precedence {
    Lowest,
    And,
    Or,
    Xor,
    Imply,
    Iff,
    LtlUntil,
    LtlRelease,
    LtlSince,
}

pub open spec fn prec_rank(p: Precedence) -> nat {
    match p {
        Precedence::Lowest => 0,
        Precedence::And => 1,
        Precedence::Or => 2,
        Precedence::Xor => 3,
        Precedence::Imply => 4,
        Precedence::Iff => 5,
        Precedence::LtlUntil => 6,
        Precedence::LtlRelease => 7,
        Precedence::LtlSince => 8,
    }
}

impl Precedence {
    /// The position of the precedence in the order from loosest to tightest.
    pub fn rank(&self) -> (r: u8)
        ensures
            r == prec_rank(*self),
    {
        match self {
            Precedence::Lowest => 0,
            Precedence::And => 1,
            Precedence::Or => 2,
            Precedence::Xor => 3,
            Precedence::Imply => 4,
            Precedence::Iff => 5,
            Precedence::LtlUntil => 6,
            Precedence::LtlRelease => 7,
            Precedence::LtlSince => 8,
        }
    }
}

/// The token at `p` is the symbol `k`.
pub open spec fn sym_at(t: Seq<Lexeme>, p: int, k: Token) -> bool {
    0 <= p < t.len() && t[p] == Lexeme::Sym(k)
}

/// A name without its leading underscores.
pub open spec fn strip_underscores(n: Seq<char>) -> Seq<char>
    decreases n.len(),
{
    if n.len() > 0 && n[0] == '_' {
        strip_underscores(n.subrange(1, n.len() as int))
    } else {
        n
    }
}

/// The identifier that a name in the source stands for: leading underscores
/// dropped, and each `.` replaced by `_`.
pub open spec fn clean_name(n: Seq<char>) -> Seq<char> {
    strip_underscores(n).map_values(|c: char| if c == '.' { '_' } else { c })
}

/// The binary operator at `p`, with its precedence.
pub open spec fn infix_at(t: Seq<Lexeme>, p: int) -> Option<(Precedence, Infix)> {
    if sym_at(t, p, Token::And) {
        Some((Precedence::And, Infix::And))
    } else if sym_at(t, p, Token::Xor) {
        Some((Precedence::Xor, Infix::Xor))
    } else if sym_at(t, p, Token::Or) {
        Some((Precedence::Or, Infix::Or))
    } else if sym_at(t, p, Token::Imply) {
        Some((Precedence::Imply, Infix::Imply))
    } else if sym_at(t, p, Token::Iff) {
        Some((Precedence::Iff, Infix::Iff))
    } else if sym_at(t, p, Token::LtlUntil) {
        Some((Precedence::LtlUntil, Infix::LtlUntil))
    } else if sym_at(t, p, Token::LtlRelease) {
        Some((Precedence::LtlRelease, Infix::LtlRelease))
    } else if sym_at(t, p, Token::LtlSince) {
        Some((Precedence::LtlSince, Infix::LtlSince))
    } else {
        None
    }
}

/// The prefix operator at `p`.
pub open spec fn prefix_at(t: Seq<Lexeme>, p: int) -> Option<Prefix> {
    if sym_at(t, p, Token::Not) {
        Some(Prefix::Not)
    } else if sym_at(t, p, Token::Next) {
        Some(Prefix::Next)
    } else if sym_at(t, p, Token::LtlGlobally) {
        Some(Prefix::LtlGlobally)
    } else if sym_at(t, p, Token::LtlFinally) {
        Some(Prefix::LtlFinally)
    } else if sym_at(t, p, Token::LtlNext) {
        Some(Prefix::LtlNext)
    } else if sym_at(t, p, Token::LtlOnce) {
        Some(Prefix::LtlOnce)
    } else {
        None
    }
}

/// An atom: a literal, an identifier, a parenthesized expression, a `case`,
/// or a prefix operator applied to an atom.
pub open spec fn parse_atom(t: Seq<Lexeme>, p: int) -> Option<(int, SpecExpr)>
    decreases t.len() - p, 0nat,
{
    if !(0 <= p < t.len()) {
        None
    } else {
        match t[p] {
            Lexeme::Name(n) => Some((p + 1, SpecExpr::Ident(clean_name(n)))),
            Lexeme::Sym(Token::BoolLiteral(b)) => Some((p + 1, SpecExpr::Lit(b))),
            Lexeme::Sym(Token::LParen) => match parse_pratt(t, p + 1, Precedence::Lowest) {
                Some((q, e)) => if sym_at(t, q, Token::RParen) {
                    Some((q + 1, e))
                } else {
                    None
                },
                None => None,
            },
            Lexeme::Sym(Token::Case) => {
                let (q, bs) = parse_branches(t, p + 1);
                if bs.len() >= 1 && sym_at(t, q, Token::Esac) {
                    Some((q + 1, SpecExpr::Case(bs)))
                } else {
                    None
                }
            },
            _ => match prefix_at(t, p) {
                Some(op) => match parse_atom(t, p + 1) {
                    Some((q, e)) => Some((q, SpecExpr::Prefix(op, Box::new(e)))),
                    None => None,
                },
                None => None,
            },
        }
    }
}

/// An atom followed by the binary operators, with their right operands, that
/// bind tighter than `prec`.
pub open spec fn parse_pratt(t: Seq<Lexeme>, p: int, prec: Precedence) -> Option<(int, SpecExpr)>
    decreases t.len() - p, 1nat,
{
    match parse_atom(t, p) {
        Some((q, left)) => if p < q <= t.len() {
            parse_rest(t, q, prec, left)
        } else {
            None
        },
        None => None,
    }
}

/// Extends `left` with the binary operators from `q` on that bind tighter than
/// `prec`; each right operand takes the operators that bind tighter than its
/// own operator.
pub open spec fn parse_rest(t: Seq<Lexeme>, q: int, prec: Precedence, left: SpecExpr) -> Option<
    (int, SpecExpr),
>
    decreases t.len() - q, 2nat,
{
    match infix_at(t, q) {
        Some((peek, op)) => if prec_rank(prec) < prec_rank(peek) {
            match parse_pratt(t, q + 1, peek) {
                Some((r, right)) => if q < r <= t.len() {
                    parse_rest(
                        t,
                        r,
                        prec,
                        SpecExpr::Infix(op, Box::new(left), Box::new(right)),
                    )
                } else {
                    None
                },
                None => None,
            }
        } else {
            Some((q, left))
        },
        None => Some((q, left)),
    }
}

/// An expression.
pub open spec fn parse_expr(t: Seq<Lexeme>, p: int) -> Option<(int, SpecExpr)> {
    parse_pratt(t, p, Precedence::Lowest)
}

/// One branch `cond : value ;` of a `case`.
pub open spec fn parse_branch(t: Seq<Lexeme>, p: int) -> Option<(int, (SpecExpr, SpecExpr))>
    decreases t.len() - p, 2nat,
{
    match parse_pratt(t, p, Precedence::Lowest) {
        Some((q, c)) => if sym_at(t, q, Token::Colon) && p < q {
            match parse_pratt(t, q + 1, Precedence::Lowest) {
                Some((r, v)) => if sym_at(t, r, Token::SemiColon) {
                    Some((r + 1, (c, v)))
                } else {
                    None
                },
                None => None,
            }
        } else {
            None
        },
        None => None,
    }
}

/// As many branches as parse from `p` on.
pub open spec fn parse_branches(t: Seq<Lexeme>, p: int) -> (int, Seq<(SpecExpr, SpecExpr)>)
    decreases t.len() - p, 3nat,
{
    match parse_branch(t, p) {
        Some((q, b)) => if p < q <= t.len() {
            let (r, bs) = parse_branches(t, q);
            (r, seq![b] + bs)
        } else {
            (p, Seq::empty())
        },
        None => (p, Seq::empty()),
    }
}

/// As many expressions as parse from `p` on, one after the other.
pub open spec fn parse_expr_list(t: Seq<Lexeme>, p: int) -> (int, Seq<SpecExpr>)
    decreases t.len() - p,
{
    match parse_expr(t, p) {
        Some((q, e)) => if p < q <= t.len() {
            let (r, es) = parse_expr_list(t, q);
            (r, seq![e] + es)
        } else {
            (p, Seq::empty())
        },
        None => (p, Seq::empty()),
    }
}

/// `name := expr ;`
pub open spec fn parse_define(t: Seq<Lexeme>, p: int) -> Option<(int, (Seq<char>, SpecExpr))> {
    if 0 <= p < t.len() && sym_at(t, p + 1, Token::Becomes) {
        match t[p] {
            Lexeme::Name(n) => match parse_expr(t, p + 2) {
                Some((q, e)) => if sym_at(t, q, Token::SemiColon) {
                    Some((q + 1, (clean_name(n), e)))
                } else {
                    None
                },
                None => None,
            },
            _ => None,
        }
    } else {
        None
    }
}

/// As many defines as parse from `p` on.
pub open spec fn parse_define_list(t: Seq<Lexeme>, p: int) -> (int, Seq<(Seq<char>, SpecExpr)>)
    decreases t.len() - p,
{
    match parse_define(t, p) {
        Some((q, d)) => if p < q <= t.len() {
            let (r, ds) = parse_define_list(t, q);
            (r, seq![d] + ds)
        } else {
            (p, Seq::empty())
        },
        None => (p, Seq::empty()),
    }
}

/// The map that a list of defines gives, a later one overriding an earlier one.
pub open spec fn pairs_map(ds: Seq<(Seq<char>, SpecExpr)>) -> Map<Seq<char>, SpecExpr>
    decreases ds.len(),
{
    if ds.len() == 0 {
        Map::empty()
    } else {
        pairs_map(ds.subrange(0, ds.len() - 1)).insert(ds[ds.len() - 1].0, ds[ds.len() - 1].1)
    }
}

/// `name : boolean ;`
pub open spec fn parse_var(t: Seq<Lexeme>, p: int) -> Option<(int, Seq<char>)> {
    if 0 <= p < t.len() && sym_at(t, p + 1, Token::Colon) && sym_at(t, p + 2, Token::Boolean)
        && sym_at(t, p + 3, Token::SemiColon) {
        match t[p] {
            Lexeme::Name(n) => Some((p + 4, clean_name(n))),
            _ => None,
        }
    } else {
        None
    }
}

/// As many variable declarations as parse from `p` on.
pub open spec fn parse_var_list(t: Seq<Lexeme>, p: int) -> (int, Seq<Seq<char>>)
    decreases t.len() - p,
{
    match parse_var(t, p) {
        Some((q, v)) => if p < q <= t.len() {
            let (r, vs) = parse_var_list(t, q);
            (r, seq![v] + vs)
        } else {
            (p, Seq::empty())
        },
        None => (p, Seq::empty()),
    }
}

pub open spec fn with_inits(es: Seq<SpecExpr>) -> SpecSmv {
    SpecSmv { inits: es, ..empty_smv() }
}

pub open spec fn with_vars(vs: Seq<Seq<char>>) -> SpecSmv {
    SpecSmv { vars: vs, ..empty_smv() }
}

pub open spec fn with_defines(ds: Map<Seq<char>, SpecExpr>) -> SpecSmv {
    SpecSmv { defines: ds, ..empty_smv() }
}

pub open spec fn with_trans(es: Seq<SpecExpr>) -> SpecSmv {
    SpecSmv { trans: es, ..empty_smv() }
}

pub open spec fn with_invariants(es: Seq<SpecExpr>) -> SpecSmv {
    SpecSmv { invariants: es, ..empty_smv() }
}

pub open spec fn with_fairness(es: Seq<SpecExpr>) -> SpecSmv {
    SpecSmv { fairness: es, ..empty_smv() }
}

pub open spec fn with_ltlspecs(es: Seq<SpecExpr>) -> SpecSmv {
    SpecSmv { ltlspecs: es, ..empty_smv() }
}

/// One section of a module: a section keyword and what follows it.
pub open spec fn parse_section(t: Seq<Lexeme>, p: int) -> Option<(int, SpecSmv)> {
    if sym_at(t, p, Token::Init) {
        let (q, es) = parse_expr_list(t, p + 1);
        Some((q, with_inits(es)))
    } else if sym_at(t, p, Token::LatchVar) || sym_at(t, p, Token::InputVar) {
        let (q, vs) = parse_var_list(t, p + 1);
        Some((q, with_vars(vs)))
    } else if sym_at(t, p, Token::Define) {
        let (q, ds) = parse_define_list(t, p + 1);
        Some((q, with_defines(pairs_map(ds))))
    } else if sym_at(t, p, Token::Trans) {
        let (q, es) = parse_expr_list(t, p + 1);
        Some((q, with_trans(es)))
    } else if sym_at(t, p, Token::Invariant) {
        let (q, es) = parse_expr_list(t, p + 1);
        Some((q, with_invariants(es)))
    } else if sym_at(t, p, Token::Fairness) {
        let (q, es) = parse_expr_list(t, p + 1);
        Some((q, with_fairness(es)))
    } else if sym_at(t, p, Token::LtlSpec) {
        let (q, es) = parse_expr_list(t, p + 1);
        Some((q, with_ltlspecs(es)))
    } else {
        None
    }
}

/// The keywords of the sections that hold expression lists, in the order of
/// [`expr_lists`]: `INIT`, `TRANS`, `INVAR`, `FAIRNESS`, `LTLSPEC`.
pub open spec fn list_keywords() -> Seq<Token> {
    seq![Token::Init, Token::Trans, Token::Invariant, Token::Fairness, Token::LtlSpec]
}

/// The expression lists of a model: initial constraints, transition
/// constraints, invariants, fairness constraints and LTL specifications.
pub open spec fn expr_lists(m: SpecSmv) -> Seq<Seq<SpecExpr>> {
    seq![m.inits, m.trans, m.invariants, m.fairness, m.ltlspecs]
}

/// A section that starts with the keyword of an expression list files the
/// expressions that follow it under that list and nowhere else: `INIT` under
/// the initial constraints, `TRANS` under the transition constraints, `INVAR`
/// under the invariants, `FAIRNESS` under the fairness constraints and
/// `LTLSPEC` under the LTL specifications; every other part of the section's
/// model is empty.
pub proof fn lemma_section_files_its_list(t: Seq<Lexeme>, p: int, i: int)
    requires
        0 <= i < 5,
        sym_at(t, p, list_keywords()[i]),
    ensures
        parse_section(t, p) is Some,
        ({
            let (q, es) = parse_expr_list(t, p + 1);
            let (q2, m) = parse_section(t, p).unwrap();
            &&& q2 == q
            &&& forall|j: int|
                0 <= j < 5 ==> #[trigger] expr_lists(m)[j] == if j == i {
                    es
                } else {
                    Seq::<SpecExpr>::empty()
                }
            &&& m.vars.len() == 0
            &&& m.defines.dom().len() == 0
        }),
{
    let (q, es) = parse_expr_list(t, p + 1);
    let m = parse_section(t, p).unwrap().1;
    assert(m.defines == Map::<Seq<char>, SpecExpr>::empty());
}

/// As many sections as parse from `p` on, added in order to `acc`.
pub open spec fn parse_sections(t: Seq<Lexeme>, p: int, acc: SpecSmv) -> (int, SpecSmv)
    decreases t.len() - p,
{
    match parse_section(t, p) {
        Some((q, m)) => if p < q <= t.len() {
            parse_sections(t, q, smv_add(acc, m))
        } else {
            (p, acc)
        },
        None => (p, acc),
    }
}

/// The lexemes start with `MODULE main`.
pub open spec fn main_header(t: Seq<Lexeme>) -> bool {
    sym_at(t, 0, Token::Module) && 1 < t.len() && match t[1] {
        Lexeme::Name(n) => clean_name(n) == "main"@,
        _ => false,
    }
}

/// After `MODULE main`, lexemes are left that no section takes.
pub open spec fn lexemes_left(t: Seq<Lexeme>) -> bool {
    main_header(t) && parse_sections(t, 2, empty_smv()).0 != t.len()
}

/// A whole input: `MODULE main` followed by sections that use up every token.
pub open spec fn parse_model(t: Seq<Lexeme>) -> Option<SpecSmv> {
    if sym_at(t, 0, Token::Module) && 1 < t.len() {
        match t[1] {
            Lexeme::Name(n) => if clean_name(n) == "main"@ {
                let (q, m) = parse_sections(t, 2, empty_smv());
                if q == t.len() {
                    Some(m)
                } else {
                    None
                }
            } else {
                None
            },
            _ => None,
        }
    } else {
        None
    }
}

} // verus!
