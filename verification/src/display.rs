//! Textual form of expressions, in the syntax that LTL translators read.
use crate::ast::{branch_views, lemma_view_branches, view_branches, CaseExpr, Expr, Infix, Prefix, SpecExpr};
use crate::grammar::infix_at;
use crate::lexer::{at, ident_end, symbol_at, token_at};
use vstd::prelude::*;

verus! {

pub open spec fn paren(s: Seq<char>) -> Seq<char> {
    "("@ + s + ")"@
}

pub open spec fn prefix_text(p: Prefix) -> Seq<char> {
    match p {
        Prefix::Not => "!"@,
        Prefix::Next => "next"@,
        Prefix::LtlGlobally => "[]"@,
        Prefix::LtlFinally => "<>"@,
        Prefix::LtlNext => "X"@,
        Prefix::LtlOnce => "O"@,
    }
}

pub open spec fn infix_text(i: Infix) -> Seq<char> {
    match i {
        Infix::And => "&&"@,
        Infix::Or => "||"@,
        Infix::Xor => "xor"@,
        Infix::Imply => "->"@,
        Infix::Iff => "<->"@,
        Infix::LtlUntil => "U"@,
        Infix::LtlRelease => "V"@,
        Infix::LtlSince => "S"@,
    }
}

/// The text of each binary operator reads back as that operator: the first
/// token of the text is the operator's own symbol. So distinct operators have
/// distinct texts; in particular `->` is an implication and `<->` an
/// equivalence.
pub proof fn lemma_infix_text_reads_back(op: Infix, other: Infix)
    ensures
        token_at(infix_text(op), 0) is Some,
        ({
            let tok = token_at(infix_text(op), 0).unwrap().0;
            infix_at(seq![tok], 0) is Some && infix_at(seq![tok], 0).unwrap().1 == op
        }),
        op != other ==> infix_text(op) != infix_text(other),
{
    reveal_strlit("&&");
    reveal_strlit("||");
    reveal_strlit("xor");
    reveal_strlit("->");
    reveal_strlit("<->");
    reveal_strlit("U");
    reveal_strlit("V");
    reveal_strlit("S");
    reveal_strlit("&");
    reveal_strlit("|");
    reveal_strlit("?");
    reveal_strlit(":=");
    reveal_strlit("!");
    reveal_strlit(",");
    reveal_strlit(";");
    reveal_strlit(":");
    reveal_strlit("(");
    reveal_strlit(")");
    reveal_strlit("case");
    reveal_strlit("esac");
    reveal_strlit("next");
    reveal_strlit("boolean");
    reveal_strlit("MODULE");
    reveal_strlit("DEFINE");
    reveal_strlit("IVAR");
    reveal_strlit("VAR");
    reveal_strlit("CONSTANTS");
    reveal_strlit("INIT");
    reveal_strlit("INVAR");
    reveal_strlit("TRANS");
    reveal_strlit("FAIRNESS");
    reveal_strlit("LTLSPEC");
    reveal_strlit("TRUE");
    reveal_strlit("FALSE");
    reveal_strlit("F");
    reveal_strlit("G");
    reveal_strlit("X");
    reveal_strlit("O");
    let s = infix_text(op);
    let ws = seq!["&"@, "|"@, "xor"@, "?"@, ":="@, "!"@, "<->"@, "->"@, ","@, ";"@, ":"@, "("@, ")"@];
    assert forall|k: int| 0 <= k < ws.len() && at(s, 0, #[trigger] ws[k]) implies s[0] == ws[k][0] by {
        assert(s.subrange(0, ws[k].len() as int)[0] == s[0]);
    }
    assert(ws[0] == "&"@ && ws[1] == "|"@ && ws[2] == "xor"@ && ws[3] == "?"@ && ws[4] == ":="@ && ws[5] == "!"@);
    assert(ws[6] == "<->"@ && ws[7] == "->"@ && ws[8] == ","@ && ws[9] == ";"@ && ws[10] == ":"@ && ws[11] == "("@ && ws[12] == ")"@);
    match op {
        Infix::And => {
            assert(s.subrange(0, 1) =~= "&"@);
        },
        Infix::Or => {
            assert(s.subrange(0, 1) =~= "|"@);
        },
        Infix::Xor => {
            assert(s.subrange(0, 3) =~= "xor"@);
        },
        Infix::Imply => {
            assert(s.subrange(0, 2) =~= "->"@);
        },
        Infix::Iff => {
            assert(s.subrange(0, 3) =~= "<->"@);
        },
        _ => {
            assert(symbol_at(s, 0) is None);
            assert(ident_end(s, 1) == 1);
            assert(ident_end(s, 0) == 1);
            assert(s.subrange(0, 1) =~= s);
        },
    }
}

/// The text of an expression: operands in parentheses, and a `case` shown as
/// the disjunction, over its branches, of "no earlier condition holds, this
/// condition holds, and this value holds".
pub open spec fn expr_text(e: SpecExpr) -> Seq<char>
    decreases e, 0nat,
{
    match e {
        SpecExpr::Ident(s) => s,
        SpecExpr::Lit(b) => if b {
            "true"@
        } else {
            "false"@
        },
        SpecExpr::Prefix(p, sub) => prefix_text(p) + paren(expr_text(*sub)),
        SpecExpr::Infix(i, l, r) => paren(expr_text(*l)) + infix_text(i) + paren(expr_text(*r)),
        SpecExpr::Case(bs) => case_text(bs, bs.len()),
    }
}

/// Text of "none of the first `k` conditions holds".
pub open spec fn none_before_text(bs: Seq<(SpecExpr, SpecExpr)>, k: nat) -> Seq<char>
    decreases bs, k,
{
    if k == 0 || k > bs.len() {
        "true"@
    } else {
        paren(none_before_text(bs, (k - 1) as nat)) + "&&"@ + paren(
            "!"@ + paren(expr_text(bs[k - 1].0)),
        )
    }
}

/// Text of the disjunction over the first `k` branches.
pub open spec fn case_text(bs: Seq<(SpecExpr, SpecExpr)>, k: nat) -> Seq<char>
    decreases bs, k,
{
    if k == 0 || k > bs.len() {
        "false"@
    } else {
        paren(case_text(bs, (k - 1) as nat)) + "||"@ + paren(
            paren(
                paren(none_before_text(bs, (k - 1) as nat)) + "&&"@ + paren(
                    expr_text(bs[k - 1].0),
                ),
            ) + "&&"@ + paren(expr_text(bs[k - 1].1)),
        )
    }
}

fn push_paren(out: &mut String, s: &String)
    ensures
        final(out)@ == old(out)@ + paren(s@),
{
    out.append("(");
    out.append(s.as_str());
    out.append(")");
}

impl Prefix {
    /// The operator's symbol.
    pub fn to_string(&self) -> (r: String)
        ensures
            r@ == prefix_text(*self),
    {
        let s = match self {
            Prefix::Not => "!",
            Prefix::Next => "next",
            Prefix::LtlGlobally => "[]",
            Prefix::LtlFinally => "<>",
            Prefix::LtlNext => "X",
            Prefix::LtlOnce => "O",
        };
        String::from_str(s)
    }
}

impl Infix {
    /// The operator's symbol.
    pub fn to_string(&self) -> (r: String)
        ensures
            r@ == infix_text(*self),
    {
        let s = match self {
            Infix::And => "&&",
            Infix::Or => "||",
            Infix::Xor => "xor",
            Infix::Imply => "->",
            Infix::Iff => "<->",
            Infix::LtlUntil => "U",
            Infix::LtlRelease => "V",
            Infix::LtlSince => "S",
        };
        String::from_str(s)
    }
}

fn write_expr(e: &Expr, out: &mut String)
    ensures
        final(out)@ == old(out)@ + expr_text(e@),
    decreases e,
{
    match e {
        Expr::Ident(s) => {
            assert(e@ == SpecExpr::Ident(s@));
            out.append(s.as_str());
        },
        Expr::LitExpr(b) => {
            if *b {
                out.append("true");
            } else {
                out.append("false");
            }
        },
        Expr::PrefixExpr(p, sub) => {
            let ps = p.to_string();
            out.append(ps.as_str());
            let mut t = String::new();
            write_expr(sub, &mut t);
            push_paren(out, &t);
        },
        Expr::InfixExpr(i, l, r) => {
            let mut lt = String::new();
            write_expr(l, &mut lt);
            push_paren(out, &lt);
            let is = i.to_string();
            out.append(is.as_str());
            let mut rt = String::new();
            write_expr(r, &mut rt);
            push_paren(out, &rt);
        },
        Expr::CaseExpr(c) => {
            proof {
                lemma_view_branches(c.branchs@);
            }
            write_case(&c.branchs, out);
        },
    }
}

fn write_case(bs: &Vec<(Expr, Expr)>, out: &mut String)
    ensures
        final(out)@ == old(out)@ + case_text(view_branches(bs@), bs@.len()),
    decreases bs,
{
    let ghost vb = view_branches(bs@);
    proof {
        lemma_view_branches(bs@);
    }
    let mut acc = String::from_str("false");
    let mut none = String::from_str("true");
    let mut i: usize = 0;
    while i < bs.len()
        invariant
            i <= bs.len(),
            vb == branch_views(bs@),
            acc@ == case_text(vb, i as nat),
            none@ == none_before_text(vb, i as nat),
        decreases bs.len() - i,
    {
        proof {
            assert(decreases_to!(bs => bs@[i as int]));
        }
        let mut ct = String::new();
        write_expr(&bs[i].0, &mut ct);
        let mut rt = String::new();
        write_expr(&bs[i].1, &mut rt);
        let mut inner = String::new();
        push_paren(&mut inner, &none);
        inner.append("&&");
        push_paren(&mut inner, &ct);
        let mut term = String::new();
        push_paren(&mut term, &inner);
        term.append("&&");
        push_paren(&mut term, &rt);
        let mut next = String::new();
        push_paren(&mut next, &acc);
        next.append("||");
        push_paren(&mut next, &term);
        let mut not_c = String::from_str("!");
        push_paren(&mut not_c, &ct);
        let mut next_none = String::new();
        push_paren(&mut next_none, &none);
        next_none.append("&&");
        push_paren(&mut next_none, &not_c);
        acc = next;
        none = next_none;
        i = i + 1;
    }
    out.append(acc.as_str());
}

impl CaseExpr {
    /// The text of the `case` as a formula (see [`expr_text`]).
    pub fn to_string(&self) -> (r: String)
        ensures
            r@ == case_text(view_branches(self.branchs@), self.branchs@.len()),
    {
        let mut out = String::new();
        write_case(&self.branchs, &mut out);
        out
    }
}

impl Expr {
    /// The text of the expression (see [`expr_text`]).
    pub fn to_string(&self) -> (r: String)
        ensures
            r@ == expr_text(self@),
    {
        let mut out = String::new();
        write_expr(self, &mut out);
        out
    }
}

} // verus!
