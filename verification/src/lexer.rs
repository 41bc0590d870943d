//! The SMV lexer.
//!
//! The input is a sequence of lines. After the white space around it, a line
//! is either a comment (it starts with `--`) or a sequence of tokens,
//! separated by optional white space, that covers the whole line.
use crate::token::{lexeme, lexemes, Lexeme, Token};
use vstd::prelude::*;

verus! {

pub open spec fn is_space(c: char) -> bool {
    c == ' ' || c == '\t' || c == '\r' || c == '\n'
}

pub open spec fn is_alpha(c: char) -> bool {
    ('a' <= c && c <= 'z') || ('A' <= c && c <= 'Z')
}

pub open spec fn is_digit(c: char) -> bool {
    '0' <= c && c <= '9'
}

pub open spec fn is_ident_char(c: char) -> bool {
    is_alpha(c) || is_digit(c) || c == '_' || c == '.'
}

/// `w` occurs in `s` at position `p`.
pub open spec fn at(s: Seq<char>, p: int, w: Seq<char>) -> bool {
    0 <= p && p + w.len() <= s.len() && s.subrange(p, p + w.len()) == w
}

/// The first position at or after `p`, and before `e`, that holds no white space
/// (or `e`).
pub open spec fn skip_spaces(s: Seq<char>, p: int, e: int) -> int
    decreases e - p,
{
    if 0 <= p < e && p < s.len() && is_space(s[p]) {
        skip_spaces(s, p + 1, e)
    } else {
        p
    }
}

pub proof fn lemma_skip_spaces_bounds(s: Seq<char>, p: int, e: int)
    requires
        p <= e,
    ensures
        p <= skip_spaces(s, p, e) <= e,
    decreases e - p,
{
    if 0 <= p < e && p < s.len() && is_space(s[p]) {
        lemma_skip_spaces_bounds(s, p + 1, e);
    }
}

/// The position of the first line break at or after `p` (or the end).
pub open spec fn line_end(s: Seq<char>, p: int) -> int
    decreases s.len() - p,
{
    if 0 <= p < s.len() && s[p] != '\n' {
        line_end(s, p + 1)
    } else {
        p
    }
}

/// The end of the run of decimal digits that starts at `p`.
pub open spec fn digits_end(s: Seq<char>, p: int) -> int
    decreases s.len() - p,
{
    if 0 <= p < s.len() && is_digit(s[p]) {
        digits_end(s, p + 1)
    } else {
        p
    }
}

/// The end of the run of identifier characters that starts at `p`.
pub open spec fn ident_end(s: Seq<char>, p: int) -> int
    decreases s.len() - p,
{
    if 0 <= p < s.len() && is_ident_char(s[p]) {
        ident_end(s, p + 1)
    } else {
        p
    }
}

/// The number that a sequence of decimal digits writes.
pub open spec fn digits_value(d: Seq<char>) -> int
    decreases d.len(),
{
    if d.len() == 0 {
        0
    } else {
        digits_value(d.subrange(0, d.len() - 1)) * 10 + (d[d.len() - 1] as int - '0' as int)
    }
}

/// The token that a word (a run of identifier characters) stands for.
pub open spec fn keyword(w: Seq<char>) -> Lexeme {
    if w == "case"@ {
        Lexeme::Sym(Token::Case)
    } else if w == "esac"@ {
        Lexeme::Sym(Token::Esac)
    } else if w == "next"@ {
        Lexeme::Sym(Token::Next)
    } else if w == "boolean"@ {
        Lexeme::Sym(Token::Boolean)
    } else if w == "MODULE"@ {
        Lexeme::Sym(Token::Module)
    } else if w == "DEFINE"@ {
        Lexeme::Sym(Token::Define)
    } else if w == "IVAR"@ {
        Lexeme::Sym(Token::InputVar)
    } else if w == "VAR"@ {
        Lexeme::Sym(Token::LatchVar)
    } else if w == "CONSTANTS"@ {
        Lexeme::Sym(Token::Constant)
    } else if w == "INIT"@ {
        Lexeme::Sym(Token::Init)
    } else if w == "INVAR"@ {
        Lexeme::Sym(Token::Invariant)
    } else if w == "TRANS"@ {
        Lexeme::Sym(Token::Trans)
    } else if w == "FAIRNESS"@ {
        Lexeme::Sym(Token::Fairness)
    } else if w == "LTLSPEC"@ {
        Lexeme::Sym(Token::LtlSpec)
    } else if w == "TRUE"@ {
        Lexeme::Sym(Token::BoolLiteral(true))
    } else if w == "FALSE"@ {
        Lexeme::Sym(Token::BoolLiteral(false))
    } else if w == "F"@ {
        Lexeme::Sym(Token::LtlFinally)
    } else if w == "G"@ {
        Lexeme::Sym(Token::LtlGlobally)
    } else if w == "U"@ {
        Lexeme::Sym(Token::LtlUntil)
    } else if w == "V"@ {
        Lexeme::Sym(Token::LtlRelease)
    } else if w == "X"@ {
        Lexeme::Sym(Token::LtlNext)
    } else if w == "O"@ {
        Lexeme::Sym(Token::LtlOnce)
    } else if w == "S"@ {
        Lexeme::Sym(Token::LtlSince)
    } else {
        Lexeme::Name(w)
    }
}

/// The operators and punctuation, in the order in which they are tried.
pub open spec fn symbol_at(s: Seq<char>, p: int) -> Option<(Token, int)> {
    if at(s, p, "&"@) {
        Some((Token::And, p + 1))
    } else if at(s, p, "|"@) {
        Some((Token::Or, p + 1))
    } else if at(s, p, "xor"@) {
        Some((Token::Xor, p + 3))
    } else if at(s, p, "?"@) {
        Some((Token::Conditional, p + 1))
    } else if at(s, p, ":="@) {
        Some((Token::Becomes, p + 2))
    } else if at(s, p, "!"@) {
        Some((Token::Not, p + 1))
    } else if at(s, p, "<->"@) {
        Some((Token::Iff, p + 3))
    } else if at(s, p, "->"@) {
        Some((Token::Imply, p + 2))
    } else if at(s, p, ","@) {
        Some((Token::Comma, p + 1))
    } else if at(s, p, ";"@) {
        Some((Token::SemiColon, p + 1))
    } else if at(s, p, ":"@) {
        Some((Token::Colon, p + 1))
    } else if at(s, p, "("@) {
        Some((Token::LParen, p + 1))
    } else if at(s, p, ")"@) {
        Some((Token::RParen, p + 1))
    } else {
        None
    }
}

/// The token that starts at `p`, and the position after it: an operator or
/// punctuation, else an integer literal that fits in `i64`, else a word.
pub open spec fn token_at(s: Seq<char>, p: int) -> Option<(Lexeme, int)> {
    if !(0 <= p < s.len()) {
        None
    } else if let Some((t, q)) = symbol_at(s, p) {
        Some((Lexeme::Sym(t), q))
    } else if is_digit(s[p]) {
        let e = digits_end(s, p);
        let v = digits_value(s.subrange(p, e));
        if v <= i64::MAX {
            Some((Lexeme::Sym(Token::IntLiteral(v as i64)), e))
        } else {
            None
        }
    } else if is_alpha(s[p]) || s[p] == '_' {
        let e = ident_end(s, p);
        Some((keyword(s.subrange(p, e)), e))
    } else {
        None
    }
}

/// The tokens of the part of a line from `p` (which holds no white space) to
/// its end `e`: they must cover it all.
pub open spec fn lex_line(s: Seq<char>, p: int, e: int) -> Option<Seq<Lexeme>>
    decreases e - p,
{
    if p >= e {
        Some(Seq::empty())
    } else {
        match token_at(s, p) {
            Some((t, q)) => if p < q <= e {
                proof {
                    lemma_skip_spaces_bounds(s, q, e);
                }
                match lex_line(s, skip_spaces(s, q, e), e) {
                    Some(ts) => Some(seq![t] + ts),
                    None => None,
                }
            } else {
                None
            },
            None => None,
        }
    }
}

/// The tokens of `s` from position `i` on, or `None` when a line does not
/// lex completely.
pub open spec fn lex_from(s: Seq<char>, i: int) -> Option<Seq<Lexeme>>
    decreases s.len() - i,
{
    let j = skip_spaces(s, i, s.len() as int);
    if j >= s.len() {
        Some(Seq::empty())
    } else {
        let e = line_end(s, j);
        let line = if at(s, j, "--"@) {
            Some(Seq::empty())
        } else {
            lex_line(s, j, e)
        };
        match line {
            Some(ts) => if i < e <= s.len() {
                match lex_from(s, e) {
                    Some(rest) => Some(ts + rest),
                    None => None,
                }
            } else {
                None
            },
            None => None,
        }
    }
}

/// The tokens of the whole input.
pub open spec fn lex(s: Seq<char>) -> Option<Seq<Lexeme>> {
    lex_from(s, 0)
}

pub open spec fn prepend(a: Seq<Lexeme>, o: Option<Seq<Lexeme>>) -> Option<Seq<Lexeme>> {
    match o {
        Some(r) => Some(a + r),
        None => None,
    }
}

/// The input does not lex: some line holds text that is no token.
#[derive(Debug, Clone, Copy, PartialEq, Eq)]
pub struct LexError;

/// Appends `c` to `s` by `String::push`, which vstd leaves unspecified; the
/// contract claims what its documentation says: the string afterwards is
/// the old one followed by `c`.
#[verifier::external_body]
pub(crate) fn push_char(s: &mut String, c: char)
    ensures
        final(s)@ == old(s)@.push(c),
{
    s.push(c);
}

pub(crate) fn chars_of(input: &str) -> (r: Vec<char>)
    ensures
        r@ == input@,
{
    broadcast use vstd::string::group_string_axioms;

    let mut r: Vec<char> = Vec::new();
    for c in iter: input.chars()
        invariant
            r@ == iter.seq().take(iter.index() as int),
    {
        r.push(c);
    }
    assert(r@ =~= input@);
    r
}

fn is_space_char(c: char) -> (r: bool)
    ensures
        r == is_space(c),
{
    c == ' ' || c == '\t' || c == '\r' || c == '\n'
}

fn is_alpha_char(c: char) -> (r: bool)
    ensures
        r == is_alpha(c),
{
    ('a' <= c && c <= 'z') || ('A' <= c && c <= 'Z')
}

fn is_digit_char(c: char) -> (r: bool)
    ensures
        r == is_digit(c),
{
    '0' <= c && c <= '9'
}

fn skip_spaces_exec(s: &Vec<char>, p: usize, e: usize) -> (r: usize)
    requires
        p <= e <= s@.len(),
    ensures
        r as int == skip_spaces(s@, p as int, e as int),
        p <= r <= e,
        r < e ==> !is_space(s@[r as int]),
{
    let mut i = p;
    while i < e && is_space_char(s[i])
        invariant
            p <= i <= e <= s@.len(),
            skip_spaces(s@, p as int, e as int) == skip_spaces(s@, i as int, e as int),
        decreases e - i,
    {
        i = i + 1;
    }
    i
}

fn line_end_exec(s: &Vec<char>, p: usize) -> (r: usize)
    requires
        p <= s@.len(),
    ensures
        r as int == line_end(s@, p as int),
        p <= r <= s@.len(),
{
    let mut i = p;
    while i < s.len() && s[i] != '\n'
        invariant
            p <= i <= s@.len(),
            line_end(s@, p as int) == line_end(s@, i as int),
        decreases s@.len() - i,
    {
        i = i + 1;
    }
    i
}

fn ident_end_exec(s: &Vec<char>, p: usize) -> (r: usize)
    requires
        p <= s@.len(),
    ensures
        r as int == ident_end(s@, p as int),
        p <= r <= s@.len(),
{
    let mut i = p;
    while i < s.len() && (is_alpha_char(s[i]) || is_digit_char(s[i]) || s[i] == '_' || s[i]
        == '.')
        invariant
            p <= i <= s@.len(),
            ident_end(s@, p as int) == ident_end(s@, i as int),
        decreases s@.len() - i,
    {
        i = i + 1;
    }
    i
}

/// Whether the word `w` occurs in `s` at `p`.
fn at_exec(s: &Vec<char>, p: usize, w: &str) -> (r: bool)
    requires
        p <= s@.len(),
    ensures
        r == at(s@, p as int, w@),
{
    let n = w.unicode_len();
    let len = s.len();
    if n > len - p {
        return false;
    }
    let mut k: usize = 0;
    while k < n
        invariant
            k <= n == w@.len(),
            len == s@.len(),
            p + n <= s@.len(),
            forall|j: int| 0 <= j < k ==> s@[p + j] == w@[j],
        decreases n - k,
    {
        if s[p + k] != w.get_char(k) {
            assert(s@.subrange(p as int, p + n)[k as int] != w@[k as int]);
            return false;
        }
        k = k + 1;
    }
    assert(s@.subrange(p as int, p + n) =~= w@);
    true
}

/// Whether the run `s[p..e]` is exactly the word `w`.
fn word_is(s: &Vec<char>, p: usize, e: usize, w: &str) -> (r: bool)
    requires
        p <= e <= s@.len(),
    ensures
        r == (s@.subrange(p as int, e as int) == w@),
{
    let n = w.unicode_len();
    if e - p != n {
        return false;
    }
    let r = at_exec(s, p, w);
    r
}

fn keyword_exec(s: &Vec<char>, p: usize, e: usize) -> (r: Token)
    requires
        p <= e <= s@.len(),
    ensures
        lexeme(r) == keyword(s@.subrange(p as int, e as int)),
{
    if word_is(s, p, e, "case") {
        Token::Case
    } else if word_is(s, p, e, "esac") {
        Token::Esac
    } else if word_is(s, p, e, "next") {
        Token::Next
    } else if word_is(s, p, e, "boolean") {
        Token::Boolean
    } else if word_is(s, p, e, "MODULE") {
        Token::Module
    } else if word_is(s, p, e, "DEFINE") {
        Token::Define
    } else if word_is(s, p, e, "IVAR") {
        Token::InputVar
    } else if word_is(s, p, e, "VAR") {
        Token::LatchVar
    } else if word_is(s, p, e, "CONSTANTS") {
        Token::Constant
    } else if word_is(s, p, e, "INIT") {
        Token::Init
    } else if word_is(s, p, e, "INVAR") {
        Token::Invariant
    } else if word_is(s, p, e, "TRANS") {
        Token::Trans
    } else if word_is(s, p, e, "FAIRNESS") {
        Token::Fairness
    } else if word_is(s, p, e, "LTLSPEC") {
        Token::LtlSpec
    } else if word_is(s, p, e, "TRUE") {
        Token::BoolLiteral(true)
    } else if word_is(s, p, e, "FALSE") {
        Token::BoolLiteral(false)
    } else if word_is(s, p, e, "F") {
        Token::LtlFinally
    } else if word_is(s, p, e, "G") {
        Token::LtlGlobally
    } else if word_is(s, p, e, "U") {
        Token::LtlUntil
    } else if word_is(s, p, e, "V") {
        Token::LtlRelease
    } else if word_is(s, p, e, "X") {
        Token::LtlNext
    } else if word_is(s, p, e, "O") {
        Token::LtlOnce
    } else if word_is(s, p, e, "S") {
        Token::LtlSince
    } else {
        let mut name = String::new();
        let mut k = p;
        while k < e
            invariant
                p <= k <= e <= s@.len(),
                name@ == s@.subrange(p as int, k as int),
            decreases e - k,
        {
            push_char(&mut name, s[k]);
            k = k + 1;
            assert(name@ =~= s@.subrange(p as int, k as int));
        }
        Token::Ident(name)
    }
}

fn symbol_exec(s: &Vec<char>, p: usize) -> (r: Option<(Token, usize)>)
    requires
        p <= s@.len(),
    ensures
        match (r, symbol_at(s@, p as int)) {
            (Some((t, q)), Some((t2, q2))) => t == t2 && q == q2 && p < q <= s@.len(),
            (None, None) => true,
            _ => false,
        },
{
    let len = s.len();
    proof {
        reveal_strlit("&");
        reveal_strlit("|");
        reveal_strlit("xor");
        reveal_strlit("?");
        reveal_strlit(":=");
        reveal_strlit("!");
        reveal_strlit("<->");
        reveal_strlit("->");
        reveal_strlit(",");
        reveal_strlit(";");
        reveal_strlit(":");
        reveal_strlit("(");
        reveal_strlit(")");
    }
    if at_exec(s, p, "&") {
        Some((Token::And, p + 1))
    } else if at_exec(s, p, "|") {
        Some((Token::Or, p + 1))
    } else if at_exec(s, p, "xor") {
        Some((Token::Xor, p + 3))
    } else if at_exec(s, p, "?") {
        Some((Token::Conditional, p + 1))
    } else if at_exec(s, p, ":=") {
        Some((Token::Becomes, p + 2))
    } else if at_exec(s, p, "!") {
        Some((Token::Not, p + 1))
    } else if at_exec(s, p, "<->") {
        Some((Token::Iff, p + 3))
    } else if at_exec(s, p, "->") {
        Some((Token::Imply, p + 2))
    } else if at_exec(s, p, ",") {
        Some((Token::Comma, p + 1))
    } else if at_exec(s, p, ";") {
        Some((Token::SemiColon, p + 1))
    } else if at_exec(s, p, ":") {
        Some((Token::Colon, p + 1))
    } else if at_exec(s, p, "(") {
        Some((Token::LParen, p + 1))
    } else if at_exec(s, p, ")") {
        Some((Token::RParen, p + 1))
    } else {
        None
    }
}

proof fn lemma_digits_value_step(s: Seq<char>, p: int, k: int)
    requires
        0 <= p <= k < s.len(),
    ensures
        digits_value(s.subrange(p, k + 1)) == digits_value(s.subrange(p, k)) * 10 + (s[k] as int
            - '0' as int),
{
    assert(s.subrange(p, k + 1).subrange(0, k - p) =~= s.subrange(p, k));
}

proof fn lemma_digits_value_nonneg(d: Seq<char>)
    requires
        forall|i: int| 0 <= i < d.len() ==> is_digit(#[trigger] d[i]),
    ensures
        digits_value(d) >= 0,
    decreases d.len(),
{
    if d.len() > 0 {
        let d0 = d.subrange(0, d.len() - 1);
        assert forall|i: int| 0 <= i < d0.len() implies is_digit(#[trigger] d0[i]) by {
            assert(d0[i] == d[i]);
        }
        lemma_digits_value_nonneg(d0);
        assert(is_digit(d[d.len() - 1]));
    }
}

/// The value of a run of digits grows with each digit that follows.
proof fn lemma_digits_value_mono(s: Seq<char>, p: int, k: int, e: int)
    requires
        0 <= p <= k <= e <= s.len(),
        forall|i: int| p <= i < e ==> is_digit(#[trigger] s[i]),
    ensures
        digits_value(s.subrange(p, k)) <= digits_value(s.subrange(p, e)),
    decreases e - k,
{
    if k < e {
        lemma_digits_value_mono(s, p, k + 1, e);
        lemma_digits_value_step(s, p, k);
        let d = s.subrange(p, k);
        assert forall|i: int| 0 <= i < d.len() implies is_digit(#[trigger] d[i]) by {
            assert(d[i] == s[p + i]);
        }
        lemma_digits_value_nonneg(d);
        assert(is_digit(s[k]));
    }
}

proof fn lemma_digits_end(s: Seq<char>, p: int, k: int)
    requires
        0 <= p <= k,
        digits_end(s, p) == digits_end(s, k),
        forall|i: int| p <= i < k ==> is_digit(#[trigger] s[i]),
    ensures
        forall|i: int| p <= i < digits_end(s, p) ==> is_digit(#[trigger] s[i]),
        k <= digits_end(s, p) <= s.len() || (k > s.len() && digits_end(s, p) == k),
    decreases s.len() - k,
{
    if 0 <= k < s.len() && is_digit(s[k]) {
        lemma_digits_end(s, p, k + 1);
    }
}

fn integer_exec(s: &Vec<char>, p: usize) -> (r: Option<(Token, usize)>)
    requires
        p < s@.len(),
        is_digit(s@[p as int]),
    ensures
        ({
            let e = digits_end(s@, p as int);
            let v = digits_value(s@.subrange(p as int, e));
            match r {
                Some((t, q)) => v <= i64::MAX && t == Token::IntLiteral(v as i64) && q == e,
                None => v > i64::MAX,
            }
        }),
{
    let mut k = p;
    let mut v: i128 = 0;
    proof {
        assert(s@.subrange(p as int, p as int) =~= Seq::<char>::empty());
    }
    while k < s.len() && is_digit_char(s[k])
        invariant
            p <= k <= s@.len(),
            digits_end(s@, p as int) == digits_end(s@, k as int),
            forall|i: int| p <= i < k ==> is_digit(#[trigger] s@[i]),
            v == digits_value(s@.subrange(p as int, k as int)),
            0 <= v <= i64::MAX,
        decreases s@.len() - k,
    {
        proof {
            lemma_digits_value_step(s@, p as int, k as int);
        }
        let d = (s[k] as u32 - '0' as u32) as i128;
        assert(v * 10 <= i64::MAX * 10) by (nonlinear_arith)
            requires
                0 <= v <= i64::MAX,
        ;
        let nv = v * 10 + d;
        if nv > i64::MAX as i128 {
            proof {
                lemma_digits_end(s@, p as int, k as int + 1);
                lemma_digits_value_mono(s@, p as int, k as int + 1, digits_end(s@, p as int));
            }
            return None;
        }
        v = nv;
        k = k + 1;
    }
    Some((Token::IntLiteral(v as i64), k))
}

fn token_exec(s: &Vec<char>, p: usize) -> (r: Option<(Token, usize)>)
    requires
        p < s@.len(),
    ensures
        match (r, token_at(s@, p as int)) {
            (Some((t, q)), Some((l, q2))) => lexeme(t) == l && q == q2 && p < q <= s@.len(),
            (None, None) => true,
            _ => false,
        },
{
    let len = s.len();
    match symbol_exec(s, p) {
        Some((t, q)) => {
            return Some((t, q));
        },
        None => {},
    }
    proof {
        assert(symbol_at(s@, p as int) is None);
    }
    let c = s[p];
    if is_digit_char(c) {
        proof {
            lemma_digits_end(s@, p as int, p as int);
            assert(digits_end(s@, p as int) == digits_end(s@, p as int + 1));
            lemma_digits_end(s@, p as int, p as int + 1);
        }
        integer_exec(s, p)
    } else if is_alpha_char(c) || c == '_' {
        let e = ident_end_exec(s, p + 1);
        assert(is_ident_char(s@[p as int]));
        assert(ident_end(s@, p as int) == ident_end(s@, p as int + 1));
        let t = keyword_exec(s, p, e);
        Some((t, e))
    } else {
        None
    }
}

fn lex_line_exec(s: &Vec<char>, p: usize, e: usize, out: &mut Vec<Token>) -> (ok: bool)
    requires
        p <= e <= s@.len(),
    ensures
        match lex_line(s@, p as int, e as int) {
            Some(ts) => ok && lexemes(final(out)@) == lexemes(old(out)@) + ts,
            None => !ok,
        },
{
    let ghost l0 = lexemes(out@);
    let mut i = p;
    assert(lexemes(out@) =~= l0 + Seq::<Lexeme>::empty());
    while i < e
        invariant
            p <= i <= e <= s@.len(),
            prepend(l0, lex_line(s@, p as int, e as int)) == prepend(
                lexemes(out@),
                lex_line(s@, i as int, e as int),
            ),
            lexemes(out@).len() >= l0.len(),
            lexemes(out@).subrange(0, l0.len() as int) == l0,
        decreases e - i,
    {
        match token_exec(s, i) {
            Some((t, q)) => {
                if q > e {
                    return false;
                }
                let ghost before = lexemes(out@);
                out.push(t);
                assert(lexemes(out@) =~= before.push(lexeme(t)));
                let r = skip_spaces_exec(s, q, e);
                proof {
                    let rest = lex_line(s@, r as int, e as int);
                    match rest {
                        Some(x) => {
                            assert(before + (seq![lexeme(t)] + x) =~= before.push(lexeme(t))
                                + x);
                        },
                        None => {},
                    }
                    assert(lexemes(out@).subrange(0, l0.len() as int) =~= before.subrange(
                        0,
                        l0.len() as int,
                    ));
                }
                i = r;
            },
            None => {
                return false;
            },
        }
    }
    proof {
        let x = lexemes(out@).subrange(l0.len() as int, lexemes(out@).len() as int);
        assert(lexemes(out@) =~= l0 + x);
    }
    true
}

/// Splits SMV source text into tokens.
pub fn lex_tokens(input: &str) -> (r: Result<Vec<Token>, LexError>)
    ensures
        match r {
            Ok(v) => lex(input@) == Some(lexemes(v@)),
            Err(_) => lex(input@) is None,
        },
{
    let s = chars_of(input);
    let n = s.len();
    let mut out: Vec<Token> = Vec::new();
    let mut i: usize = 0;
    proof {
        assert(lexemes(out@) =~= Seq::<Lexeme>::empty());
        match lex_from(s@, 0) {
            Some(x) => {
                assert(Seq::<Lexeme>::empty() + x =~= x);
            },
            None => {},
        }
    }
    loop
        invariant
            i <= n == s@.len(),
            s@ == input@,
            lex(input@) == prepend(lexemes(out@), lex_from(s@, i as int)),
        decreases n - i,
    {
        let j = skip_spaces_exec(&s, i, n);
        if j >= n {
            assert(lexemes(out@) + Seq::<Lexeme>::empty() =~= lexemes(out@));
            return Ok(out);
        }
        let e = line_end_exec(&s, j + 1);
        assert(line_end(s@, j as int) == line_end(s@, j as int + 1));
        let ghost before = lexemes(out@);
        let comment = at_exec(&s, j, "--");
        if !comment {
            if !lex_line_exec(&s, j, e, &mut out) {
                return Err(LexError);
            }
        }
        proof {
            let line = if comment {
                Seq::<Lexeme>::empty()
            } else {
                lex_line(s@, j as int, e as int)->0
            };
            assert(lexemes(out@) =~= before + line);
            match lex_from(s@, e as int) {
                Some(x) => {
                    assert(before + (line + x) =~= before + line + x);
                },
                None => {},
            }
        }
        i = e;
    }
}

} // verus!
