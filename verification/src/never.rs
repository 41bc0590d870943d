//! The never claims that LTL-to-Büchi translators print: a header line, then
//! for each state its name followed by `:`, and either `skip` or an `if`
//! line, one `:: condition -> goto target` line per edge and a closing line,
//! and a closing line at the end.
use vstd::prelude::*;
use crate::lexer::{chars_of, push_char};

verus! {

/// `pat` occurs in `s` at `i`.
pub open spec fn matches_at(s: Seq<char>, i: int, pat: Seq<char>) -> bool {
    0 <= i && i + pat.len() <= s.len() && s.subrange(i, i + pat.len()) == pat
}

/// The first position at or after `p` where `pat` occurs.
pub open spec fn find_from(s: Seq<char>, p: int, pat: Seq<char>) -> Option<int>
    decreases s.len() - p,
{
    if p < 0 || p + pat.len() > s.len() {
        None
    } else if matches_at(s, p, pat) {
        Some(p)
    } else if p < s.len() {
        find_from(s, p + 1, pat)
    } else {
        None
    }
}

/// The position after the end of the line that `p` is on.
pub open spec fn skip_line(s: Seq<char>, p: int) -> Option<int> {
    match find_from(s, p, seq!['\n']) {
        Some(i) => Some(i + 1),
        None => None,
    }
}

/// The position after the blanks and tabs at `p`.
pub open spec fn skip_blanks(s: Seq<char>, p: int) -> int
    decreases s.len() - p,
{
    if 0 <= p < s.len() && (s[p] == ' ' || s[p] == '\t') {
        skip_blanks(s, p + 1)
    } else {
        p
    }
}

/// The position after the white space at `p`.
pub open spec fn skip_white(s: Seq<char>, p: int) -> int
    decreases s.len() - p,
{
    if 0 <= p < s.len() && (s[p] == ' ' || s[p] == '\t' || s[p] == '\r' || s[p] == '\n') {
        skip_white(s, p + 1)
    } else {
        p
    }
}

/// An edge line at `p`: `::`, the condition up to ` -> goto `, and the
/// target up to the end of the line; and the position after it.
pub open spec fn edge_at(s: Seq<char>, p: int) -> Option<((Seq<char>, Seq<char>), int)> {
    let q = skip_blanks(s, p);
    if !matches_at(s, q, seq![':', ':']) {
        None
    } else {
        let r = skip_blanks(s, q + 2);
        match find_from(s, r, " -> goto "@) {
            None => None,
            Some(c) => match find_from(s, c + 9, seq!['\n']) {
                None => None,
                Some(e) => Some(((s.subrange(r, c), s.subrange(c + 9, e)), e + 1)),
            },
        }
    }
}

/// The edge lines from `p` on, as many as there are, and the position
/// after them.
pub open spec fn edges_from(s: Seq<char>, p: int) -> (Seq<(Seq<char>, Seq<char>)>, int)
    decreases s.len() - p,
{
    match edge_at(s, p) {
        Some((t, q)) => if p < q <= s.len() {
            let (rest, r) = edges_from(s, q);
            (seq![t] + rest, r)
        } else {
            (Seq::empty(), p)
        },
        None => (Seq::empty(), p),
    }
}

/// A state at `p`: its name up to `:`, the rest of that line, and either
/// `skip` (an edge to itself that always holds) or a line, one or more edge
/// lines and a line; and the position after it.
pub open spec fn state_at(s: Seq<char>, p: int) -> Option<
    ((Seq<char>, Seq<(Seq<char>, Seq<char>)>), int),
> {
    match find_from(s, p, seq![':']) {
        None => None,
        Some(c) => {
            let name = s.subrange(p, c);
            match skip_line(s, c + 1) {
                None => None,
                Some(q) => {
                    let q1 = skip_blanks(s, q);
                    if matches_at(s, q1, "skip"@) {
                        Some(((name, seq![("(1)"@, name)]), skip_white(s, q1 + 4)))
                    } else {
                        match skip_line(s, q) {
                            None => None,
                            Some(q2) => {
                                let (ts, q3) = edges_from(s, q2);
                                if ts.len() == 0 {
                                    None
                                } else {
                                    match skip_line(s, q3) {
                                        None => None,
                                        Some(q4) => Some(((name, ts), q4)),
                                    }
                                }
                            },
                        }
                    }
                },
            }
        },
    }
}

/// The states from `p` on, as many as there are, and the position after
/// them.
pub open spec fn states_from(s: Seq<char>, p: int) -> (
    Seq<(Seq<char>, Seq<(Seq<char>, Seq<char>)>)>,
    int,
)
    decreases s.len() - p,
{
    match state_at(s, p) {
        Some((st, q)) => if p < q <= s.len() {
            let (rest, r) = states_from(s, q);
            (seq![st] + rest, r)
        } else {
            (Seq::empty(), p)
        },
        None => (Seq::empty(), p),
    }
}

/// The states of the never claim `s`: after the header line, one or more
/// states, then a last line that ends the text.
pub open spec fn claim_of(s: Seq<char>) -> Option<Seq<(Seq<char>, Seq<(Seq<char>, Seq<char>)>)>> {
    match skip_line(s, 0) {
        None => None,
        Some(p) => {
            let (sts, q) = states_from(s, p);
            if sts.len() == 0 {
                None
            } else {
                match skip_line(s, q) {
                    Some(r) => if r == s.len() {
                        Some(sts)
                    } else {
                        None
                    },
                    None => None,
                }
            }
        },
    }
}

/// A state of a never claim: its name, and for each edge its condition and
/// target.
pub struct NeverState {
    pub ident: String,
    pub trans: Vec<(String, String)>,
}

/// The names and edges of states.
pub open spec fn never_view(v: Seq<NeverState>) -> Seq<(Seq<char>, Seq<(Seq<char>, Seq<char>)>)> {
    v.map_values(|st: NeverState| (st.ident@, st.trans@.map_values(|e: (String, String)| (e.0@, e.1@))))
}

/// The text is no never claim.
#[derive(Debug, Clone, Copy, PartialEq, Eq)]
pub struct NeverError;

pub(crate) fn matches_at_exec(s: &Vec<char>, i: usize, pat: &Vec<char>) -> (r: bool)
    ensures
        r == matches_at(s@, i as int, pat@),
{
    if i > s.len() || pat.len() > s.len() - i {
        return false;
    }
    let mut k: usize = 0;
    while k < pat.len()
        invariant
            i + pat@.len() <= s@.len(),
            i + pat@.len() <= s.len(),
            k <= pat@.len(),
            forall|j: int| 0 <= j < k ==> s@[i + j] == pat@[j],
        decreases pat@.len() - k,
    {
        if s[i + k] != pat[k] {
            assert(s@.subrange(i as int, i + pat@.len())[k as int] != pat@[k as int]);
            return false;
        }
        k = k + 1;
    }
    assert(s@.subrange(i as int, i + pat@.len()) =~= pat@);
    true
}

fn find_from_exec(s: &Vec<char>, p: usize, pat: &Vec<char>) -> (r: Option<usize>)
    ensures
        match r {
            Some(i) => find_from(s@, p as int, pat@) == Some(i as int) && i + pat@.len() <= s@.len(),
            None => find_from(s@, p as int, pat@) is None,
        },
{
    if pat.len() == 0 {
        if p <= s.len() {
            assert(s@.subrange(p as int, p as int) =~= pat@);
            return Some(p);
        }
        return None;
    }
    let mut i = p;
    while i <= s.len() && pat.len() <= s.len() - i
        invariant
            p <= i,
            pat@.len() > 0,
            find_from(s@, p as int, pat@) == find_from(s@, i as int, pat@),
        decreases s@.len() - i,
    {
        if matches_at_exec(s, i, pat) {
            return Some(i);
        }
        i = i + 1;
    }
    None
}

fn skip_line_exec(s: &Vec<char>, p: usize, nl: &Vec<char>) -> (r: Option<usize>)
    requires
        nl@ == seq!['\n'],
    ensures
        match r {
            Some(i) => skip_line(s@, p as int) == Some(i as int),
            None => skip_line(s@, p as int) is None,
        },
{
    assert(nl@.len() == 1);
    let n = s.len();
    match find_from_exec(s, p, nl) {
        Some(i) => {
            assert(i < n);
            Some(i + 1)
        },
        None => None,
    }
}

fn skip_blanks_exec(s: &Vec<char>, p: usize) -> (r: usize)
    ensures
        r == skip_blanks(s@, p as int),
{
    let mut i = p;
    while i < s.len() && (s[i] == ' ' || s[i] == '\t')
        invariant
            p <= i,
            skip_blanks(s@, p as int) == skip_blanks(s@, i as int),
        decreases s@.len() - i,
    {
        i = i + 1;
    }
    i
}

fn skip_white_exec(s: &Vec<char>, p: usize) -> (r: usize)
    ensures
        r == skip_white(s@, p as int),
{
    let mut i = p;
    while i < s.len() && (s[i] == ' ' || s[i] == '\t' || s[i] == '\r' || s[i] == '\n')
        invariant
            p <= i,
            skip_white(s@, p as int) == skip_white(s@, i as int),
        decreases s@.len() - i,
    {
        i = i + 1;
    }
    i
}

/// The text of `s` from `a` to `b`.
fn substring(s: &Vec<char>, a: usize, b: usize) -> (r: String)
    requires
        a <= b <= s@.len(),
    ensures
        r@ == s@.subrange(a as int, b as int),
{
    let mut r = String::new();
    let mut i = a;
    while i < b
        invariant
            a <= i <= b <= s@.len(),
            r@ == s@.subrange(a as int, i as int),
        decreases b - i,
    {
        push_char(&mut r, s[i]);
        i = i + 1;
        assert(r@ =~= s@.subrange(a as int, i as int));
    }
    r
}

/// The fixed texts of the format, as characters.
struct Patterns {
    colons: Vec<char>,
    goto: Vec<char>,
    newline: Vec<char>,
    colon: Vec<char>,
    skip: Vec<char>,
}

spec fn patterns_ok(p: Patterns) -> bool {
    &&& p.colons@ == seq![':', ':']
    &&& p.goto@ == " -> goto "@
    &&& p.newline@ == seq!['\n']
    &&& p.colon@ == seq![':']
    &&& p.skip@ == "skip"@
}

fn patterns() -> (r: Patterns)
    ensures
        patterns_ok(r),
{
    let mut colons = Vec::new();
    colons.push(':');
    colons.push(':');
    let mut newline = Vec::new();
    newline.push('\n');
    let mut colon = Vec::new();
    colon.push(':');
    let goto = chars_of(" -> goto ");
    let skip = chars_of("skip");
    assert(colons@ =~= seq![':', ':']);
    assert(newline@ =~= seq!['\n']);
    assert(colon@ =~= seq![':']);
    Patterns { colons, goto, newline, colon, skip }
}

fn edge_at_exec(s: &Vec<char>, p: usize, pats: &Patterns) -> (r: Option<((String, String), usize)>)
    requires
        patterns_ok(*pats),
    ensures
        match r {
            Some((e, q)) => edge_at(s@, p as int) == Some(((e.0@, e.1@), q as int)),
            None => edge_at(s@, p as int) is None,
        },
{
    proof {
        reveal_strlit(" -> goto ");
    }
    let n = s.len();
    let q = skip_blanks_exec(s, p);
    if !matches_at_exec(s, q, &pats.colons) {
        return None;
    }
    assert(q + 2 <= n);
    let r = skip_blanks_exec(s, q + 2);
    match find_from_exec(s, r, &pats.goto) {
        None => None,
        Some(c) => {
            assert(c + 9 <= n);
            let d = c + 9;
            match find_from_exec(s, d, &pats.newline) {
                None => None,
                Some(e) => {
                    let n = s.len();
                    assert(r <= c) by {
                        lemma_find_from_ge(s@, r as int, pats.goto@);
                    }
                    assert(d <= e) by {
                        lemma_find_from_ge(s@, d as int, pats.newline@);
                    }
                    assert(e < n);
                    let cond = substring(s, r, c);
                    let dest = substring(s, d, e);
                    Some(((cond, dest), e + 1))
                },
            }
        },
    }
}

/// What `find_from` finds lies at or after where it starts.
proof fn lemma_find_from_ge(s: Seq<char>, p: int, pat: Seq<char>)
    ensures
        match find_from(s, p, pat) {
            Some(i) => p <= i && matches_at(s, i, pat),
            None => true,
        },
    decreases s.len() - p,
{
    if p < 0 || p + pat.len() > s.len() {
    } else if matches_at(s, p, pat) {
    } else if p < s.len() {
        lemma_find_from_ge(s, p + 1, pat);
    }
}

/// The conditions and targets of edges.
spec fn edge_pairs(v: Seq<(String, String)>) -> Seq<(Seq<char>, Seq<char>)> {
    v.map_values(|e: (String, String)| (e.0@, e.1@))
}

fn edges_from_exec(s: &Vec<char>, p: usize, pats: &Patterns) -> (r: (Vec<(String, String)>, usize))
    requires
        patterns_ok(*pats),
    ensures
        edges_from(s@, p as int) == (edge_pairs(r.0@), r.1 as int),
{
    let mut acc: Vec<(String, String)> = Vec::new();
    let mut i = p;
    assert(edge_pairs(acc@) =~= Seq::<(Seq<char>, Seq<char>)>::empty());
    assert(Seq::<(Seq<char>, Seq<char>)>::empty() + edges_from(s@, p as int).0 =~= edges_from(s@, p as int).0);
    loop
        invariant
            patterns_ok(*pats),
            edges_from(s@, p as int) == (edge_pairs(acc@) + edges_from(s@, i as int).0, edges_from(s@, i as int).1),
        decreases s@.len() - i,
    {
        match edge_at_exec(s, i, pats) {
            Some((e, q)) => {
                if i < q && q <= s.len() {
                    let ghost before = edge_pairs(acc@);
                    let ghost pair = (e.0@, e.1@);
                    acc.push(e);
                    assert(edge_pairs(acc@) =~= before.push(pair));
                    assert(before + edges_from(s@, i as int).0 =~= edge_pairs(acc@) + edges_from(s@, q as int).0);
                    i = q;
                } else {
                    assert(edge_pairs(acc@) + edges_from(s@, i as int).0 =~= edge_pairs(acc@));
                    return (acc, i);
                }
            },
            None => {
                assert(edge_pairs(acc@) + edges_from(s@, i as int).0 =~= edge_pairs(acc@));
                return (acc, i);
            },
        }
    }
}

fn state_at_exec(s: &Vec<char>, p: usize, pats: &Patterns) -> (r: Option<(NeverState, usize)>)
    requires
        patterns_ok(*pats),
    ensures
        match r {
            Some((st, q)) => state_at(s@, p as int) == Some(((st.ident@, edge_pairs(st.trans@)), q as int)),
            None => state_at(s@, p as int) is None,
        },
{
    proof {
        reveal_strlit("skip");
    }
    let n = s.len();
    match find_from_exec(s, p, &pats.colon) {
        None => None,
        Some(c) => {
            proof {
                lemma_find_from_ge(s@, p as int, pats.colon@);
            }
            assert(c + 1 <= n);
            let name = substring(s, p, c);
            match skip_line_exec(s, c + 1, &pats.newline) {
                None => None,
                Some(q) => {
                    let q1 = skip_blanks_exec(s, q);
                    if matches_at_exec(s, q1, &pats.skip) {
                        assert(q1 + 4 <= n);
                        let end = skip_white_exec(s, q1 + 4);
                        let mut trans = Vec::new();
                        let one = String::from_str("(1)");
                        let target = substring(s, p, c);
                        trans.push((one, target));
                        assert(edge_pairs(trans@) =~= seq![("(1)"@, name@)]);
                        Some((NeverState { ident: name, trans }, end))
                    } else {
                        match skip_line_exec(s, q, &pats.newline) {
                            None => None,
                            Some(q2) => {
                                let (ts, q3) = edges_from_exec(s, q2, pats);
                                if ts.len() == 0 {
                                    return None;
                                }
                                match skip_line_exec(s, q3, &pats.newline) {
                                    None => None,
                                    Some(q4) => Some((NeverState { ident: name, trans: ts }, q4)),
                                }
                            },
                        }
                    }
                },
            }
        },
    }
}

/// Parses a never claim: its states, each with its edges, where `input` is
/// one (see `claim_of`).
pub fn parse_never_claim(input: &str) -> (r: Result<Vec<NeverState>, NeverError>)
    ensures
        match r {
            Ok(v) => claim_of(input@) == Some(never_view(v@)),
            Err(_) => claim_of(input@) is None,
        },
{
    let s = chars_of(input);
    let pats = patterns();
    let p = match skip_line_exec(&s, 0, &pats.newline) {
        Some(p) => p,
        None => {
            return Err(NeverError);
        },
    };
    let mut acc: Vec<NeverState> = Vec::new();
    let mut i = p;
    assert(never_view(acc@) + states_from(s@, p as int).0 =~= states_from(s@, p as int).0);
    loop
        invariant
            patterns_ok(pats),
            states_from(s@, p as int) == (never_view(acc@) + states_from(s@, i as int).0, states_from(s@, i as int).1),
        ensures
            states_from(s@, p as int) == (never_view(acc@), i as int),
        decreases s@.len() - i,
    {
        match state_at_exec(&s, i, &pats) {
            Some((st, q)) => {
                if i < q && q <= s.len() {
                    let ghost before = never_view(acc@);
                    let ghost item = (st.ident@, edge_pairs(st.trans@));
                    acc.push(st);
                    assert(never_view(acc@) =~= before.push(item));
                    assert(before + states_from(s@, i as int).0 =~= never_view(acc@) + states_from(s@, q as int).0);
                    i = q;
                } else {
                    assert(never_view(acc@) + states_from(s@, i as int).0 =~= never_view(acc@));
                    break;
                }
            },
            None => {
                assert(never_view(acc@) + states_from(s@, i as int).0 =~= never_view(acc@));
                break;
            },
        }
    }
    if acc.len() == 0 {
        return Err(NeverError);
    }
    match skip_line_exec(&s, i, &pats.newline) {
        Some(r) => {
            if r == s.len() {
                Ok(acc)
            } else {
                Err(NeverError)
            }
        },
        None => Err(NeverError),
    }
}

} // verus!
