use ppsmc::ast::{CaseExpr, Expr, Infix, Prefix};
use ppsmc::command::TransMethod;
use ppsmc::lexer::lex_tokens;
use ppsmc::ltl::{get_ltl, ltl_to_automata_preprocess, trans_expr_to_ltl};
use ppsmc::never::parse_never_claim;
use ppsmc::parser::parse_tokens;
use ppsmc::smv::{Define, Smv, SmvError, Var};
use ppsmc::token::{Token, Tokens};
use ppsmc::trans::TransBddMethod;

fn id(s: &str) -> Expr {
    Expr::Ident(s.to_string())
}

fn lit(b: bool) -> Expr {
    Expr::LitExpr(b)
}

fn pre(p: Prefix, e: Expr) -> Expr {
    Expr::PrefixExpr(p, Box::new(e))
}

fn inf(op: Infix, l: Expr, r: Expr) -> Expr {
    Expr::InfixExpr(op, Box::new(l), Box::new(r))
}

const MODEL: &str = "MODULE main
VAR
  a : boolean;
  b : boolean;
DEFINE
  c := a & b;
  d := next(a);
INIT
  !a
  !b
TRANS
  next(a) <-> b
TRANS
  next(a) <-> b
FAIRNESS
  a
LTLSPEC
  G F c
";

fn model() -> Smv {
    Smv::parse(MODEL).unwrap()
}

#[test]
fn lex_module_header() {
    let toks = lex_tokens("MODULE main\nVAR a : boolean;").unwrap();
    assert_eq!(
        toks,
        vec![
            Token::Module,
            Token::Ident("main".to_string()),
            Token::LatchVar,
            Token::Ident("a".to_string()),
            Token::Colon,
            Token::Boolean,
            Token::SemiColon,
        ]
    );
}

#[test]
fn lex_operators_and_keywords() {
    let toks = lex_tokens("x.y & !z | w xor v -> u <-> t := G F X O U V S case esac next TRUE FALSE 42").unwrap();
    assert_eq!(
        toks,
        vec![
            Token::Ident("x.y".to_string()),
            Token::And,
            Token::Not,
            Token::Ident("z".to_string()),
            Token::Or,
            Token::Ident("w".to_string()),
            Token::Xor,
            Token::Ident("v".to_string()),
            Token::Imply,
            Token::Ident("u".to_string()),
            Token::Iff,
            Token::Ident("t".to_string()),
            Token::Becomes,
            Token::LtlGlobally,
            Token::LtlFinally,
            Token::LtlNext,
            Token::LtlOnce,
            Token::LtlUntil,
            Token::LtlRelease,
            Token::LtlSince,
            Token::Case,
            Token::Esac,
            Token::Next,
            Token::BoolLiteral(true),
            Token::BoolLiteral(false),
            Token::IntLiteral(42),
        ]
    );
}

#[test]
fn lex_skips_comment_lines() {
    let toks = lex_tokens("  -- a comment line\nMODULE main\n-- another\n").unwrap();
    assert_eq!(toks, vec![Token::Module, Token::Ident("main".to_string())]);
}

#[test]
fn lex_rejects_unknown_character() {
    assert!(lex_tokens("a $ b").is_err());
}

#[test]
fn parse_tokens_builds_model() {
    let toks = lex_tokens("MODULE main VAR _x.y : boolean; INIT x_y").unwrap();
    let smv = parse_tokens(Tokens::new(&toks)).unwrap();
    assert_eq!(smv.vars.len(), 1);
    assert_eq!(smv.vars[0].ident, "x_y");
    assert_eq!(smv.inits, vec![id("x_y")]);
}

#[test]
fn parse_rejects_other_module() {
    assert!(matches!(Smv::parse("MODULE other\nVAR a : boolean;\n"), Err(SmvError::Parse(_))));
}

#[test]
fn parse_reports_lexical_errors() {
    assert!(matches!(Smv::parse("MODULE main\nVAR a $ boolean;\n"), Err(SmvError::Lex(_))));
}

#[test]
fn parse_rejects_trailing_tokens() {
    assert!(Smv::parse("MODULE main\nVAR a : boolean;\n;\n").is_err());
}

#[test]
fn parse_model_sections() {
    let smv = model();
    let vars: Vec<String> = smv.vars.iter().map(|v| v.ident.clone()).collect();
    assert_eq!(vars, vec!["a".to_string(), "b".to_string()]);
    assert_eq!(smv.get_define(&"c".to_string()).unwrap().expr, inf(Infix::And, id("a"), id("b")));
    assert_eq!(smv.get_define(&"d".to_string()).unwrap().expr, pre(Prefix::Next, id("a")));
    assert!(smv.get_define(&"a".to_string()).is_none());
    assert_eq!(smv.inits, vec![pre(Prefix::Not, id("a")), pre(Prefix::Not, id("b"))]);
    // the repeated transition constraint is kept once
    assert_eq!(smv.trans, vec![inf(Infix::Iff, pre(Prefix::Next, id("a")), id("b"))]);
    assert_eq!(smv.fairness, vec![id("a")]);
    assert_eq!(smv.ltlspecs, vec![pre(Prefix::LtlGlobally, pre(Prefix::LtlFinally, id("c")))]);
    assert!(smv.invariants.is_empty());
}

#[test]
fn parse_precedence_and_binds_loosest() {
    let smv = Smv::parse("MODULE main\nINIT a & b | c\n").unwrap();
    assert_eq!(smv.inits, vec![inf(Infix::And, id("a"), inf(Infix::Or, id("b"), id("c")))]);
    let smv = Smv::parse("MODULE main\nINIT a | b & c\n").unwrap();
    assert_eq!(smv.inits, vec![inf(Infix::And, inf(Infix::Or, id("a"), id("b")), id("c"))]);
    let smv = Smv::parse("MODULE main\nINIT a -> b -> c\n").unwrap();
    assert_eq!(smv.inits, vec![inf(Infix::Imply, inf(Infix::Imply, id("a"), id("b")), id("c"))]);
}

#[test]
fn parse_case_expression() {
    let smv = Smv::parse("MODULE main\nINIT case a : b; TRUE : c; esac\n").unwrap();
    assert_eq!(
        smv.inits,
        vec![Expr::CaseExpr(CaseExpr { branchs: vec![(id("a"), id("b")), (lit(true), id("c"))] })]
    );
}

#[test]
fn display_expressions() {
    assert_eq!(pre(Prefix::Not, id("a")).to_string(), "!(a)");
    assert_eq!((pre(Prefix::Not, id("a")) & lit(true)).to_string(), "(!(a))&&(true)");
    assert_eq!(inf(Infix::Iff, pre(Prefix::Next, id("a")), id("b")).to_string(), "(next(a))<->(b)");
    assert_eq!(
        pre(Prefix::LtlGlobally, pre(Prefix::LtlFinally, id("p"))).to_string(),
        "[](<>(p))"
    );
    assert_eq!((id("a") | lit(false)).to_string(), "(a)||(false)");
    assert_eq!(inf(Infix::LtlUntil, id("a"), id("b")).to_string(), "(a)U(b)");
    assert_eq!(Prefix::LtlNext.to_string(), "X");
    assert_eq!(Infix::Xor.to_string(), "xor");
}

#[test]
fn display_case_as_formula() {
    let case = CaseExpr { branchs: vec![(id("a"), id("b")), (lit(true), lit(false))] };
    assert_eq!(
        case.to_string(),
        "((false)||(((true)&&(a))&&(b)))||((((true)&&(!(a)))&&(true))&&(false))"
    );
}

#[test]
fn partition_to_ands_splits_conjunctions() {
    let e = (id("a") & id("b")) & (id("c") | id("d"));
    assert_eq!(e.partition_to_ands(), vec![id("a"), id("b"), id("c") | id("d")]);
    assert_eq!(id("a").partition_to_ands(), vec![id("a")]);
}

#[test]
fn flatten_case_rewrites_branches() {
    let smv = model();
    let e = Expr::CaseExpr(CaseExpr { branchs: vec![(id("a"), id("b")), (lit(true), id("c"))] });
    let expected = (id("a") & id("b")) | (pre(Prefix::Not, id("a")) & id("c"));
    assert_eq!(smv.flatten_case(e), expected);
    let nested = pre(
        Prefix::Not,
        Expr::CaseExpr(CaseExpr { branchs: vec![(id("x"), lit(false))] }),
    );
    assert_eq!(smv.flatten_case(nested), pre(Prefix::Not, lit(false)));
}

#[test]
fn flatten_defines_inlines_definitions() {
    let smv = model();
    let flat = smv.flatten_defines();
    assert_eq!(
        flat.ltlspecs,
        vec![pre(Prefix::LtlGlobally, pre(Prefix::LtlFinally, inf(Infix::And, id("a"), id("b"))))]
    );
    assert_eq!(flat.inits, smv.inits);
    assert_eq!(flat.trans, smv.trans);
    assert_eq!(flat.fairness, vec![id("a")]);
}

#[test]
fn flatten_defines_expands_case_in_define() {
    let smv = Smv::parse("MODULE main\nVAR a : boolean;\nDEFINE e := case a : FALSE; TRUE : a; esac;\nINIT e\n").unwrap();
    let flat = smv.flatten_defines();
    let expected = (id("a") & lit(false)) | (pre(Prefix::Not, id("a")) & id("a"));
    assert_eq!(flat.inits, vec![expected]);
}

#[test]
fn flatten_to_propositional_define_keeps_state_formulas() {
    let smv = model();
    // `c` names a formula over state variables only: it stays as it is
    assert_eq!(smv.flatten_to_propositional_define(&id("c")), id("c"));
    // `d` names a formula with `next`: it is inlined
    assert_eq!(smv.flatten_to_propositional_define(&id("d")), pre(Prefix::Next, id("a")));
    assert_eq!(
        smv.flatten_to_propositional_define(&(id("c") & id("d"))),
        id("c") & pre(Prefix::Next, id("a"))
    );
    assert_eq!(smv.flatten_to_propositional_define(&pre(Prefix::Not, id("c"))), pre(Prefix::Not, id("c")));
    assert_eq!(
        smv.flatten_to_propositional_define(&pre(Prefix::LtlFinally, id("a"))),
        pre(Prefix::LtlFinally, id("a"))
    );
    assert_eq!(
        smv.flatten_to_propositional_define(&inf(Infix::LtlUntil, id("a"), id("b"))),
        inf(Infix::LtlUntil, id("a"), id("b"))
    );
}

#[test]
fn trans_expr_to_ltl_turns_next_into_x() {
    let e = pre(Prefix::Next, id("a")) & pre(Prefix::Not, pre(Prefix::Next, id("b")));
    assert_eq!(
        trans_expr_to_ltl(&e),
        pre(Prefix::LtlNext, id("a")) & pre(Prefix::Not, pre(Prefix::LtlNext, id("b")))
    );
    assert_eq!(trans_expr_to_ltl(&id("a")), id("a"));
}

#[test]
fn ltl_preprocess_inlines_and_converts() {
    let smv = model();
    assert_eq!(ltl_to_automata_preprocess(&smv, id("c") & id("d")), id("c") & pre(Prefix::LtlNext, id("a")));
}

#[test]
fn get_ltl_negates_specification_under_fairness() {
    let smv = model();
    let gf = |e: Expr| pre(Prefix::LtlGlobally, pre(Prefix::LtlFinally, e));
    let expected = pre(
        Prefix::Not,
        inf(Infix::Imply, lit(true) & (lit(true) & gf(id("a"))), gf(id("c"))),
    );
    assert_eq!(get_ltl(&smv, &[], false), expected);
}

#[test]
fn get_ltl_assumes_extended_transitions() {
    let smv = model();
    let gf = |e: Expr| pre(Prefix::LtlGlobally, pre(Prefix::LtlFinally, e));
    let trans = pre(Prefix::LtlGlobally, inf(Infix::Iff, pre(Prefix::LtlNext, id("a")), id("b")));
    let expected = pre(
        Prefix::Not,
        inf(Infix::Imply, (lit(true) & trans) & (lit(true) & gf(id("a"))), gf(id("c"))),
    );
    assert_eq!(get_ltl(&smv, &[0], false), expected);
    let flat_expected = pre(
        Prefix::Not,
        inf(
            Infix::Imply,
            lit(true) & (lit(true) & gf(id("a"))),
            gf(inf(Infix::And, id("a"), id("b"))),
        ),
    );
    assert_eq!(get_ltl(&smv, &[], true), flat_expected);
}

#[test]
fn merge_appends_and_overrides_defines() {
    let mut m1 = Smv::new();
    m1.vars.push(Var { ident: "a".to_string() });
    m1.defines.push(Define { ident: "x".to_string(), expr: id("a") });
    m1.trans.push(id("a"));
    let mut m2 = Smv::new();
    m2.vars.push(Var { ident: "b".to_string() });
    m2.defines.push(Define { ident: "x".to_string(), expr: id("b") });
    m2.trans.push(id("b"));
    m2.ltlspecs.push(id("b"));
    let m = m1 + m2;
    let vars: Vec<String> = m.vars.iter().map(|v| v.ident.clone()).collect();
    assert_eq!(vars, vec!["a".to_string(), "b".to_string()]);
    assert_eq!(m.trans, vec![id("a"), id("b")]);
    assert_eq!(m.ltlspecs, vec![id("b")]);
    assert_eq!(m.get_define(&"x".to_string()).unwrap().expr, id("b"));
}

#[test]
fn dedup_keeps_first_occurrences() {
    let mut m = Smv::new();
    m.trans = vec![id("a"), id("b"), id("a"), id("c"), id("b")];
    m.dedup();
    assert_eq!(m.trans, vec![id("a"), id("b"), id("c")]);
}

const CLAIM: &str = "never { /* !(G F a) */
T0_init:
  if
  :: (a) -> goto T0_init
  :: (!a) -> goto accept_S1
  fi;
accept_S1:
  skip
}
";

#[test]
fn never_claim_states_and_edges() {
    let states = parse_never_claim(CLAIM).unwrap();
    assert_eq!(states.len(), 2);
    assert_eq!(states[0].ident, "T0_init");
    assert_eq!(
        states[0].trans,
        vec![
            ("(a)".to_string(), "T0_init".to_string()),
            ("(!a)".to_string(), "accept_S1".to_string()),
        ]
    );
    assert_eq!(states[1].ident, "accept_S1");
    assert_eq!(states[1].trans, vec![("(1)".to_string(), "accept_S1".to_string())]);
}

#[test]
fn never_claim_rejects_garbage() {
    assert!(parse_never_claim("never {\n}\n").is_err());
    assert!(parse_never_claim("no claim here").is_err());
    // the closing line must end the text
    assert!(parse_never_claim("never {\nS:\n  skip\n}\nextra\n").is_err());
}

#[test]
fn trans_method_converts() {
    assert_eq!(TransBddMethod::from(TransMethod::Monolithic), TransBddMethod::Monolithic);
    assert_eq!(TransBddMethod::from(TransMethod::Partition), TransBddMethod::Partition);
}

#[test]
fn parse_tokens_rejects_other_module() {
    let toks = lex_tokens("MODULE other VAR a : boolean;").unwrap();
    assert!(parse_tokens(Tokens::new(&toks)).is_err());
}
