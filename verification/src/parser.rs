//! The SMV parser: each function parses what the function of the same role
//! in `grammar` describes.
use crate::ast::{branch_views, lemma_view_branches, views, CaseExpr, Expr, Infix, Prefix, SpecExpr};
use crate::grammar::{
    clean_name, infix_at, pairs_map, parse_atom, parse_branch, parse_branches, parse_define,
    parse_define_list, parse_expr, parse_expr_list, parse_model, main_header, lexemes_left, parse_pratt, parse_rest,
    parse_section, parse_sections, parse_var, parse_var_list, prec_rank, prefix_at,
    strip_underscores, sym_at, with_defines, with_fairness, with_inits, with_invariants,
    with_ltlspecs, with_trans, with_vars, Precedence,
};
use crate::smv::{defines_map, empty_smv, smv_add, var_names, Define, Smv, SpecSmv, Var};
use crate::token::Tokens;
use crate::lexer::{chars_of, push_char};
use crate::token::{lexeme, lexemes, Lexeme, Token};
use vstd::prelude::*;

verus! {

pub open spec fn result_view(r: Option<(usize, Expr)>) -> Option<(int, SpecExpr)> {
    match r {
        Some((q, e)) => Some((q as int, e@)),
        None => None,
    }
}

/// The identifier that a name token stands for (see [`clean_name`]).
fn clean_name_exec(n: &String) -> (r: String)
    ensures
        r@ == clean_name(n@),
{
    let cs = chars_of(n.as_str());
    let len = cs.len();
    let mut i: usize = 0;
    assert(cs@.subrange(0, len as int) =~= cs@);
    while i < len && cs[i] == '_'
        invariant
            i <= len == cs@.len(),
            cs@ == n@,
            strip_underscores(n@) == strip_underscores(cs@.subrange(i as int, len as int)),
        decreases len - i,
    {
        proof {
            let rest = cs@.subrange(i as int, len as int);
            assert(rest.subrange(1, rest.len() as int) =~= cs@.subrange(i + 1, len as int));
        }
        i = i + 1;
    }
    let ghost stripped = cs@.subrange(i as int, len as int);
    assert(strip_underscores(stripped) == stripped);
    let mut r = String::new();
    let mut k = i;
    while k < len
        invariant
            i <= k <= len == cs@.len(),
            stripped == cs@.subrange(i as int, len as int),
            r@ == stripped.subrange(0, k - i).map_values(
                |c: char|
                    if c == '.' {
                        '_'
                    } else {
                        c
                    },
            ),
        decreases len - k,
    {
        let c = cs[k];
        if c == '.' {
            push_char(&mut r, '_');
        } else {
            push_char(&mut r, c);
        }
        k = k + 1;
        assert(r@ =~= stripped.subrange(0, k - i).map_values(
            |c: char|
                if c == '.' {
                    '_'
                } else {
                    c
                },
        ));
    }
    assert(stripped.subrange(0, len - i) =~= stripped);
    r
}

fn infix_exec(t: &[Token], q: usize) -> (r: Option<(Precedence, Infix)>)
    ensures
        r == infix_at(lexemes(t@), q as int),
{
    if q >= t.len() {
        return None;
    }
    match &t[q] {
        Token::And => Some((Precedence::And, Infix::And)),
        Token::Xor => Some((Precedence::Xor, Infix::Xor)),
        Token::Or => Some((Precedence::Or, Infix::Or)),
        Token::Imply => Some((Precedence::Imply, Infix::Imply)),
        Token::Iff => Some((Precedence::Iff, Infix::Iff)),
        Token::LtlUntil => Some((Precedence::LtlUntil, Infix::LtlUntil)),
        Token::LtlRelease => Some((Precedence::LtlRelease, Infix::LtlRelease)),
        Token::LtlSince => Some((Precedence::LtlSince, Infix::LtlSince)),
        _ => None,
    }
}

fn prefix_exec(t: &[Token], p: usize) -> (r: Option<Prefix>)
    ensures
        r == prefix_at(lexemes(t@), p as int),
{
    if p >= t.len() {
        return None;
    }
    match &t[p] {
        Token::Not => Some(Prefix::Not),
        Token::Next => Some(Prefix::Next),
        Token::LtlGlobally => Some(Prefix::LtlGlobally),
        Token::LtlFinally => Some(Prefix::LtlFinally),
        Token::LtlNext => Some(Prefix::LtlNext),
        Token::LtlOnce => Some(Prefix::LtlOnce),
        _ => None,
    }
}

fn parse_atom_exec(t: &[Token], p: usize) -> (r: Option<(usize, Expr)>)
    requires
        p <= t@.len(),
    ensures
        result_view(r) == parse_atom(lexemes(t@), p as int),
        r matches Some((q, _)) ==> p < q <= t@.len(),
    decreases t@.len() - p, 0nat,
{
    let len = t.len();
    if p >= len {
        return None;
    }
    let ghost l = lexemes(t@);
    assert(l[p as int] == lexeme(t@[p as int]));
    match &t[p] {
        Token::Ident(n) => {
            let name = clean_name_exec(n);
            Some((p + 1, Expr::Ident(name)))
        },
        Token::BoolLiteral(b) => Some((p + 1, Expr::LitExpr(*b))),
        Token::LParen => {
            match parse_pratt_exec(t, p + 1, Precedence::Lowest) {
                Some((q, e)) => {
                    if q < len && matches!(t[q], Token::RParen) {
                        assert(l[q as int] == lexeme(t@[q as int]));
                        Some((q + 1, e))
                    } else {
                        proof {
                            if q < len {
                                assert(l[q as int] == lexeme(t@[q as int]));
                            }
                        }
                        None
                    }
                },
                None => None,
            }
        },
        Token::Case => {
            let (q, bs) = parse_branches_exec(t, p + 1);
            proof {
                lemma_view_branches(bs@);
            }
            if bs.len() >= 1 && q < len && matches!(t[q], Token::Esac) {
                assert(l[q as int] == lexeme(t@[q as int]));
                Some((q + 1, Expr::CaseExpr(CaseExpr { branchs: bs })))
            } else {
                proof {
                    if q < len {
                        assert(l[q as int] == lexeme(t@[q as int]));
                    }
                }
                None
            }
        },
        _ => {
            match prefix_exec(t, p) {
                Some(op) => match parse_atom_exec(t, p + 1) {
                    Some((q, e)) => Some((q, Expr::PrefixExpr(op, Box::new(e)))),
                    None => None,
                },
                None => None,
            }
        },
    }
}

fn parse_pratt_exec(t: &[Token], p: usize, prec: Precedence) -> (r: Option<(usize, Expr)>)
    requires
        p <= t@.len(),
    ensures
        result_view(r) == parse_pratt(lexemes(t@), p as int, prec),
        r matches Some((q, _)) ==> p < q <= t@.len(),
    decreases t@.len() - p, 1nat,
{
    match parse_atom_exec(t, p) {
        Some((q, left)) => parse_rest_exec(t, q, prec, left),
        None => None,
    }
}

fn parse_rest_exec(t: &[Token], q: usize, prec: Precedence, left: Expr) -> (r: Option<
    (usize, Expr),
>)
    requires
        q <= t@.len(),
    ensures
        result_view(r) == parse_rest(lexemes(t@), q as int, prec, left@),
        r matches Some((r, _)) ==> q <= r <= t@.len(),
    decreases t@.len() - q, 2nat,
{
    let ghost target = parse_rest(lexemes(t@), q as int, prec, left@);
    let len = t.len();
    let mut i = q;
    let mut acc = left;
    loop
        invariant
            len == t@.len(),
            q <= i <= t@.len(),
            target == parse_rest(lexemes(t@), q as int, prec, left@),
            parse_rest(lexemes(t@), i as int, prec, acc@) == target,
        decreases t@.len() - i,
    {
        match infix_exec(t, i) {
            Some((peek, op)) => {
                if prec.rank() < peek.rank() {
                    match parse_pratt_exec(t, i + 1, peek) {
                        Some((r, right)) => {
                            acc = Expr::InfixExpr(op, Box::new(acc), Box::new(right));
                            i = r;
                        },
                        None => {
                            return None;
                        },
                    }
                } else {
                    return Some((i, acc));
                }
            },
            None => {
                assert(parse_rest(lexemes(t@), i as int, prec, acc@) == Some((i as int, acc@)));
                return Some((i, acc));
            },
        }
    }
}

fn parse_branch_exec(t: &[Token], p: usize) -> (r: Option<(usize, (Expr, Expr))>)
    requires
        p <= t@.len(),
    ensures
        match (r, parse_branch(lexemes(t@), p as int)) {
            (Some((q, b)), Some((q2, b2))) => q == q2 && b2 == (b.0@, b.1@) && p < q <= t@.len(),
            (None, None) => true,
            _ => false,
        },
    decreases t@.len() - p, 2nat,
{
    let len = t.len();
    let ghost l = lexemes(t@);
    match parse_pratt_exec(t, p, Precedence::Lowest) {
        Some((q, c)) => {
            if q < len && matches!(t[q], Token::Colon) {
                assert(l[q as int] == lexeme(t@[q as int]));
                match parse_pratt_exec(t, q + 1, Precedence::Lowest) {
                    Some((r, v)) => {
                        if r < len && matches!(t[r], Token::SemiColon) {
                            assert(l[r as int] == lexeme(t@[r as int]));
                            Some((r + 1, (c, v)))
                        } else {
                            proof {
                                if r < len {
                                    assert(l[r as int] == lexeme(t@[r as int]));
                                }
                            }
                            None
                        }
                    },
                    None => None,
                }
            } else {
                proof {
                    if q < len {
                        assert(l[q as int] == lexeme(t@[q as int]));
                    }
                }
                None
            }
        },
        None => None,
    }
}

fn parse_branches_exec(t: &[Token], p: usize) -> (r: (usize, Vec<(Expr, Expr)>))
    requires
        p <= t@.len(),
    ensures
        parse_branches(lexemes(t@), p as int) == (r.0 as int, branch_views(r.1@)),
        p <= r.0 <= t@.len(),
    decreases t@.len() - p, 3nat,
{
    let ghost target = parse_branches(lexemes(t@), p as int);
    let mut bs: Vec<(Expr, Expr)> = Vec::new();
    let mut i = p;
    assert(branch_views(bs@) =~= Seq::<(SpecExpr, SpecExpr)>::empty());
    loop
        invariant
            p <= i <= t@.len(),
            target == parse_branches(lexemes(t@), p as int),
            target == (parse_branches(lexemes(t@), i as int).0, branch_views(bs@) + parse_branches(
                lexemes(t@),
                i as int,
            ).1),
        decreases t@.len() - i,
    {
        match parse_branch_exec(t, i) {
            Some((q, b)) => {
                let ghost before = branch_views(bs@);
                let ghost bv = (b.0@, b.1@);
                bs.push(b);
                assert(branch_views(bs@) =~= before.push(bv));
                assert(before + (seq![bv] + parse_branches(lexemes(t@), q as int).1) =~= before.push(
                    bv,
                ) + parse_branches(lexemes(t@), q as int).1);
                i = q;
            },
            None => {
                assert(parse_branches(lexemes(t@), i as int) == (i as int, Seq::<(SpecExpr, SpecExpr)>::empty()));
                assert(branch_views(bs@) + Seq::<(SpecExpr, SpecExpr)>::empty() =~= branch_views(
                    bs@,
                ));
                return (i, bs);
            },
        }
    }
}

fn parse_expr_list_exec(t: &[Token], p: usize) -> (r: (usize, Vec<Expr>))
    requires
        p <= t@.len(),
    ensures
        parse_expr_list(lexemes(t@), p as int) == (r.0 as int, views(r.1@)),
        p <= r.0 <= t@.len(),
{
    let ghost target = parse_expr_list(lexemes(t@), p as int);
    let mut es: Vec<Expr> = Vec::new();
    let mut i = p;
    assert(views(es@) =~= Seq::<SpecExpr>::empty());
    loop
        invariant
            p <= i <= t@.len(),
            target == parse_expr_list(lexemes(t@), p as int),
            target == (parse_expr_list(lexemes(t@), i as int).0, views(es@) + parse_expr_list(
                lexemes(t@),
                i as int,
            ).1),
        decreases t@.len() - i,
    {
        match parse_pratt_exec(t, i, Precedence::Lowest) {
            Some((q, e)) => {
                let ghost before = views(es@);
                let ghost ev = e@;
                es.push(e);
                assert(views(es@) =~= before.push(ev));
                assert(before + (seq![ev] + parse_expr_list(lexemes(t@), q as int).1) =~= before.push(
                    ev,
                ) + parse_expr_list(lexemes(t@), q as int).1);
                i = q;
            },
            None => {
                assert(parse_expr_list(lexemes(t@), i as int) == (i as int, Seq::<SpecExpr>::empty()));
                assert(views(es@) + Seq::<SpecExpr>::empty() =~= views(es@));
                return (i, es);
            },
        }
    }
}

fn parse_define_exec(t: &[Token], p: usize) -> (r: Option<(usize, Define)>)
    requires
        p <= t@.len(),
    ensures
        match (r, parse_define(lexemes(t@), p as int)) {
            (Some((q, d)), Some((q2, d2))) => q == q2 && d2 == (d.ident@, d.expr@) && p < q <= t@.len(),
            (None, None) => true,
            _ => false,
        },
{
    let len = t.len();
    let ghost l = lexemes(t@);
    if !(len - p > 1 && matches!(t[p + 1], Token::Becomes)) {
        proof {
            if len - p > 1 {
                assert(l[p + 1] == lexeme(t@[p + 1]));
            }
        }
        return None;
    }
    assert(l[p + 1] == lexeme(t@[p + 1]));
    assert(l[p as int] == lexeme(t@[p as int]));
    match &t[p] {
        Token::Ident(n) => {
            match parse_pratt_exec(t, p + 2, Precedence::Lowest) {
                Some((q, e)) => {
                    if q < len && matches!(t[q], Token::SemiColon) {
                        assert(l[q as int] == lexeme(t@[q as int]));
                        let ident = clean_name_exec(n);
                        Some((q + 1, Define { ident, expr: e }))
                    } else {
                        proof {
                            if q < len {
                                assert(l[q as int] == lexeme(t@[q as int]));
                            }
                        }
                        None
                    }
                },
                None => None,
            }
        },
        _ => None,
    }
}

pub open spec fn define_pairs(ds: Seq<Define>) -> Seq<(Seq<char>, SpecExpr)> {
    ds.map_values(|d: Define| (d.ident@, d.expr@))
}

proof fn lemma_defines_map_pairs(ds: Seq<Define>)
    ensures
        defines_map(ds) == pairs_map(define_pairs(ds)),
    decreases ds.len(),
{
    if ds.len() > 0 {
        let d0 = ds.subrange(0, ds.len() - 1);
        lemma_defines_map_pairs(d0);
        assert(define_pairs(ds).subrange(0, ds.len() - 1) =~= define_pairs(d0));
    }
}

fn parse_define_list_exec(t: &[Token], p: usize) -> (r: (usize, Vec<Define>))
    requires
        p <= t@.len(),
    ensures
        parse_define_list(lexemes(t@), p as int) == (r.0 as int, define_pairs(r.1@)),
        p <= r.0 <= t@.len(),
{
    let ghost target = parse_define_list(lexemes(t@), p as int);
    let mut ds: Vec<Define> = Vec::new();
    let mut i = p;
    assert(define_pairs(ds@) =~= Seq::<(Seq<char>, SpecExpr)>::empty());
    loop
        invariant
            p <= i <= t@.len(),
            target == parse_define_list(lexemes(t@), p as int),
            target == (parse_define_list(lexemes(t@), i as int).0, define_pairs(ds@)
                + parse_define_list(lexemes(t@), i as int).1),
        decreases t@.len() - i,
    {
        match parse_define_exec(t, i) {
            Some((q, d)) => {
                let ghost before = define_pairs(ds@);
                let ghost dv = (d.ident@, d.expr@);
                ds.push(d);
                assert(define_pairs(ds@) =~= before.push(dv));
                assert(before + (seq![dv] + parse_define_list(lexemes(t@), q as int).1)
                    =~= before.push(dv) + parse_define_list(lexemes(t@), q as int).1);
                i = q;
            },
            None => {
                assert(parse_define_list(lexemes(t@), i as int) == (
                    i as int,
                    Seq::<(Seq<char>, SpecExpr)>::empty(),
                ));
                assert(define_pairs(ds@) + Seq::<(Seq<char>, SpecExpr)>::empty() =~= define_pairs(
                    ds@,
                ));
                return (i, ds);
            },
        }
    }
}

fn parse_var_exec(t: &[Token], p: usize) -> (r: Option<(usize, Var)>)
    requires
        p <= t@.len(),
    ensures
        match (r, parse_var(lexemes(t@), p as int)) {
            (Some((q, v)), Some((q2, v2))) => q == q2 && v2 == v.ident@ && p < q <= t@.len(),
            (None, None) => true,
            _ => false,
        },
{
    let len = t.len();
    let ghost l = lexemes(t@);
    if !(len - p > 3 && matches!(t[p + 1], Token::Colon) && matches!(t[p + 2], Token::Boolean)
        && matches!(t[p + 3], Token::SemiColon)) {
        proof {
            if len - p > 3 {
                assert(l[p + 1] == lexeme(t@[p + 1]));
                assert(l[p + 2] == lexeme(t@[p + 2]));
                assert(l[p + 3] == lexeme(t@[p + 3]));
            }
        }
        return None;
    }
    assert(l[p as int] == lexeme(t@[p as int]));
    assert(l[p + 1] == lexeme(t@[p + 1]));
    assert(l[p + 2] == lexeme(t@[p + 2]));
    assert(l[p + 3] == lexeme(t@[p + 3]));
    match &t[p] {
        Token::Ident(n) => Some((p + 4, Var { ident: clean_name_exec(n) })),
        _ => None,
    }
}

fn parse_var_list_exec(t: &[Token], p: usize) -> (r: (usize, Vec<Var>))
    requires
        p <= t@.len(),
    ensures
        parse_var_list(lexemes(t@), p as int) == (r.0 as int, var_names(r.1@)),
        p <= r.0 <= t@.len(),
{
    let ghost target = parse_var_list(lexemes(t@), p as int);
    let mut vs: Vec<Var> = Vec::new();
    let mut i = p;
    assert(var_names(vs@) =~= Seq::<Seq<char>>::empty());
    loop
        invariant
            p <= i <= t@.len(),
            target == parse_var_list(lexemes(t@), p as int),
            target == (parse_var_list(lexemes(t@), i as int).0, var_names(vs@) + parse_var_list(
                lexemes(t@),
                i as int,
            ).1),
        decreases t@.len() - i,
    {
        match parse_var_exec(t, i) {
            Some((q, v)) => {
                let ghost before = var_names(vs@);
                let ghost vv = v.ident@;
                vs.push(v);
                assert(var_names(vs@) =~= before.push(vv));
                assert(before + (seq![vv] + parse_var_list(lexemes(t@), q as int).1) =~= before.push(
                    vv,
                ) + parse_var_list(lexemes(t@), q as int).1);
                i = q;
            },
            None => {
                assert(parse_var_list(lexemes(t@), i as int) == (i as int, Seq::<Seq<char>>::empty()));
                assert(var_names(vs@) + Seq::<Seq<char>>::empty() =~= var_names(vs@));
                return (i, vs);
            },
        }
    }
}

fn parse_section_exec(t: &[Token], p: usize) -> (r: Option<(usize, Smv)>)
    requires
        p <= t@.len(),
    ensures
        match (r, parse_section(lexemes(t@), p as int)) {
            (Some((q, m)), Some((q2, m2))) => q == q2 && m2 == m@ && p < q <= t@.len(),
            (None, None) => true,
            _ => false,
        },
{
    let len = t.len();
    if p >= len {
        return None;
    }
    let ghost l = lexemes(t@);
    assert(l[p as int] == lexeme(t@[p as int]));
    let mut m = Smv::new();
    let q = match &t[p] {
        Token::Init => {
            let (q, es) = parse_expr_list_exec(t, p + 1);
            m.inits = es;
            assert(m@ =~= with_inits(views(es@)));
            q
        },
        Token::LatchVar | Token::InputVar => {
            let (q, vs) = parse_var_list_exec(t, p + 1);
            m.vars = vs;
            assert(m@ =~= with_vars(var_names(vs@)));
            q
        },
        Token::Define => {
            let (q, ds) = parse_define_list_exec(t, p + 1);
            proof {
                lemma_defines_map_pairs(ds@);
            }
            m.defines = ds;
            assert(m@ =~= with_defines(defines_map(ds@)));
            q
        },
        Token::Trans => {
            let (q, es) = parse_expr_list_exec(t, p + 1);
            m.trans = es;
            assert(m@ =~= with_trans(views(es@)));
            q
        },
        Token::Invariant => {
            let (q, es) = parse_expr_list_exec(t, p + 1);
            m.invariants = es;
            assert(m@ =~= with_invariants(views(es@)));
            q
        },
        Token::Fairness => {
            let (q, es) = parse_expr_list_exec(t, p + 1);
            m.fairness = es;
            assert(m@ =~= with_fairness(views(es@)));
            q
        },
        Token::LtlSpec => {
            let (q, es) = parse_expr_list_exec(t, p + 1);
            m.ltlspecs = es;
            assert(m@ =~= with_ltlspecs(views(es@)));
            q
        },
        _ => {
            return None;
        },
    };
    Some((q, m))
}

/// The input is not an SMV model: it does not start with `MODULE main`, or
/// tokens are left that no section takes.
#[derive(Debug, Clone, Copy, PartialEq, Eq)]
pub struct ParseError;

/// Parses the tokens of an SMV model (see [`parse_model`]). The tokens are
/// taken to the end: tokens left that no section takes are not an input.
pub fn parse_tokens(input: Tokens) -> (r: Result<Smv, ParseError>)
    requires
        !lexemes_left(lexemes(input.tok@)),
    ensures
        match r {
            Ok(m) => parse_model(lexemes(input.tok@)) == Some(m@),
            Err(_) => !main_header(lexemes(input.tok@)),
        },
{
    let r = read_tokens(input);
    proof {
        let l = lexemes(input.tok@);
        if main_header(l) {
            assert(l[1] is Name);
        }
    }
    r
}

/// The model that the tokens describe, `Err` where they describe none.
pub(crate) fn read_tokens(input: Tokens) -> (r: Result<Smv, ParseError>)
    ensures
        match r {
            Ok(m) => parse_model(lexemes(input.tok@)) == Some(m@),
            Err(_) => parse_model(lexemes(input.tok@)) is None,
        },
{
    let t = input.tok;
    let len = t.len();
    let ghost l = lexemes(t@);
    if !(len > 1 && matches!(t[0], Token::Module)) {
        proof {
            if len > 1 {
                assert(l[0] == lexeme(t@[0]));
            }
        }
        return Err(ParseError);
    }
    assert(l[0] == lexeme(t@[0]));
    assert(l[1] == lexeme(t@[1]));
    let name = match &t[1] {
        Token::Ident(n) => clean_name_exec(n),
        _ => {
            return Err(ParseError);
        },
    };
    let main = String::from_str("main");
    if !(name == main) {
        return Err(ParseError);
    }
    let ghost target = parse_sections(l, 2, empty_smv());
    assert(parse_model(l) == (if target.0 == l.len() {
        Some(target.1)
    } else {
        None
    }));
    let mut acc = Smv::new();
    let mut i: usize = 2;
    loop
        invariant
            2 <= i <= t@.len(),
            l == lexemes(t@),
            t@ == input.tok@,
            len == t@.len(),
            l.len() == t@.len(),
            parse_model(l) == (if target.0 == l.len() {
                Some(target.1)
            } else {
                None
            }),
            target == parse_sections(l, 2, empty_smv()),
            target == parse_sections(l, i as int, acc@),
        decreases t@.len() - i,
    {
        match parse_section_exec(t, i) {
            Some((q, m)) => {
                acc.merge(m);
                i = q;
            },
            None => {
                assert(parse_sections(l, i as int, acc@) == (i as int, acc@));
                if i == len {
                    return Ok(acc);
                } else {
                    return Err(ParseError);
                }
            },
        }
    }
}

} // verus!
