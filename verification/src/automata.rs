//! Büchi automata whose edges carry BDD labels, and their encoding as state
//! machines over BDDs.
use vstd::prelude::*;
use crate::bdd::{Bdd, BddManager};
use crate::fsm::{symbols_view, FsmBdd};
use crate::trans::{bm_width, conj, denotes, Trans, TransBddMethod};
use crate::valuation::{complement, next_set, valuations, var_set};
use crate::lexer::chars_of;

verus! {

/// The edges of a state, each with its target and the set its label denotes.
pub open spec fn edges_view<B: Bdd>(es: Seq<(usize, B)>) -> Seq<(usize, Set<Seq<bool>>)> {
    es.map_values(|e: (usize, B)| (e.0, e.1.denote()))
}

/// The edge lists of all states.
pub open spec fn adjacency<B: Bdd>(v: Seq<Vec<(usize, B)>>) -> Seq<Seq<(usize, Set<Seq<bool>>)>> {
    v.map_values(|es: Vec<(usize, B)>| edges_view(es@))
}

/// `bwd` lists, for each state, the edges into it: each edge `f -> t` of
/// `fwd` appears as `t <- f` in `bwd` with the same label, and the other way
/// round.
pub open spec fn mirrored(
    fwd: Seq<Seq<(usize, Set<Seq<bool>>)>>,
    bwd: Seq<Seq<(usize, Set<Seq<bool>>)>>,
) -> bool {
    &&& fwd.len() == bwd.len()
    &&& forall|f: int, k: int|
        0 <= f < fwd.len() && 0 <= k < fwd[f].len() ==> {
            let (t, l) = #[trigger] fwd[f][k];
            t < bwd.len() && exists|j: int|
                0 <= j < bwd[t as int].len() && #[trigger] bwd[t as int][j] == (f as usize, l)
        }
    &&& forall|t: int, k: int|
        0 <= t < bwd.len() && 0 <= k < bwd[t].len() ==> {
            let (f, l) = #[trigger] bwd[t][k];
            f < fwd.len() && exists|j: int|
                0 <= j < fwd[f as int].len() && #[trigger] fwd[f as int][j] == (t as usize, l)
        }
}

/// Bit `i` of `id`.
pub open spec fn bit(id: nat, i: nat) -> bool
    decreases i,
{
    if i == 0 {
        id % 2 == 1
    } else {
        bit(id / 2, (i - 1) as nat)
    }
}

/// The number of bits that `x` needs.
pub open spec fn bits(x: nat) -> nat
    decreases x,
{
    if x == 0 {
        0
    } else {
        1 + bits(x / 2)
    }
}

/// The valuations that encode automaton state `id` in the state variables
/// `2 (base + i)`, `i < num`, bit `i` of `id` in variable `2 (base + i)`.
pub open spec fn enc(w: nat, base: nat, num: nat, id: nat) -> Set<Seq<bool>> {
    Set::new(
        |a: Seq<bool>|
            a.len() == w && forall|i: nat| i < num ==> a[2 * (base + i) as int] == #[trigger] bit(id, i),
    )
}

/// The union of the encodings of the states `ids`.
pub open spec fn enc_union(w: nat, base: nat, num: nat, ids: Seq<usize>) -> Set<Seq<bool>>
    decreases ids.len(),
{
    if ids.len() == 0 {
        Set::empty()
    } else {
        enc_union(w, base, num, ids.drop_last()).union(enc(w, base, num, ids.last() as nat))
    }
}

/// The encoded transitions along the edges `es` out of state `q`: the
/// encoding of `q`, the label, and the encoding of the target in next-state
/// variables.
pub open spec fn edges_rel(
    w: nat,
    base: nat,
    num: nat,
    q: nat,
    es: Seq<(usize, Set<Seq<bool>>)>,
) -> Set<Seq<bool>>
    decreases es.len(),
{
    if es.len() == 0 {
        Set::empty()
    } else {
        edges_rel(w, base, num, q, es.drop_last()).union(
            next_set(w, enc(w, base, num, es.last().0 as nat)).intersect(es.last().1).intersect(
                enc(w, base, num, q),
            ),
        )
    }
}

/// The encoded transitions of the automaton with edge lists `fwd`.
pub open spec fn automaton_rel(
    w: nat,
    base: nat,
    num: nat,
    fwd: Seq<Seq<(usize, Set<Seq<bool>>)>>,
) -> Set<Seq<bool>>
    decreases fwd.len(),
{
    if fwd.len() == 0 {
        Set::empty()
    } else {
        automaton_rel(w, base, num, fwd.drop_last()).union(
            edges_rel(w, base, num, (fwd.len() - 1) as nat, fwd.last()),
        )
    }
}

/// The decimal digits of `n`.
pub open spec fn decimal(n: nat) -> Seq<char>
    decreases n,
{
    if n < 10 {
        seq![(48 + n) as char]
    } else {
        decimal(n / 10).push((48 + n % 10) as char)
    }
}

/// The names of the encoding variables `automata0`, `automata1`, ... from
/// `from` up to `to`, with their variables `2 (base + e)`.
pub open spec fn encoding_symbols(base: nat, n: nat) -> Seq<(Seq<char>, usize)> {
    Seq::new(n, |e: int| ("automata"@ + decimal(e as nat), (2 * (base + e)) as usize))
}

/// A Büchi automaton with BDD labels on its edges.
pub struct BuchiAutomata<BM: BddManager> {
    pub manager: BM,
    pub symbols: Vec<(String, usize)>,
    pub forward: Vec<Vec<(usize, BM::Bdd)>>,
    pub backward: Vec<Vec<(usize, BM::Bdd)>>,
    pub accepting_states: Vec<usize>,
    pub init_states: Vec<usize>,
}

impl<BM: BddManager> BuchiAutomata<BM> {
    /// The outgoing edges of each state.
    pub open spec fn fwd(&self) -> Seq<Seq<(usize, Set<Seq<bool>>)>> {
        adjacency(self.forward@)
    }

    /// The incoming edges of each state.
    pub open spec fn bwd(&self) -> Seq<Seq<(usize, Set<Seq<bool>>)>> {
        adjacency(self.backward@)
    }

    /// The incoming edges mirror the outgoing ones.
    pub open spec fn wf(&self) -> bool {
        mirrored(self.fwd(), self.bwd())
    }

    /// An automaton without states.
    fn new(manager: BM) -> (r: Self)
        ensures
            r.wf(),
            r.manager == manager,
            r.forward@.len() == 0,
            r.symbols@.len() == 0,
            r.accepting_states@.len() == 0,
            r.init_states@.len() == 0,
    {
        let r = BuchiAutomata {
            symbols: Vec::new(),
            manager,
            forward: Vec::new(),
            backward: Vec::new(),
            accepting_states: Vec::new(),
            init_states: Vec::new(),
        };
        assert(r.fwd() =~= Seq::<Seq<(usize, Set<Seq<bool>>)>>::empty());
        assert(r.bwd() =~= Seq::<Seq<(usize, Set<Seq<bool>>)>>::empty());
        r
    }

    /// The number of states.
    pub fn num_state(&self) -> (r: usize)
        ensures
            r == self.forward@.len(),
    {
        self.forward.len()
    }

    /// Adds states without edges until state `to` exists.
    #[verifier::spinoff_prover]
    fn extend_to(&mut self, to: usize)
        requires
            old(self).wf(),
        ensures
            final(self).wf(),
            final(self).forward@.len() == (if old(self).forward@.len() <= to {
                to + 1
            } else {
                old(self).forward@.len() as int
            }),
            forall|q: int| 0 <= q < old(self).forward@.len() ==> #[trigger] final(self).fwd()[q] == old(self).fwd()[q],
            forall|q: int| 0 <= q < old(self).forward@.len() ==> #[trigger] final(self).bwd()[q] == old(self).bwd()[q],
            forall|q: int|
                #![trigger final(self).fwd()[q]]
                old(self).forward@.len() <= q < final(self).forward@.len() ==> (final(self).fwd()[q].len() == 0
                    && final(self).bwd()[q].len() == 0),
            final(self).manager == old(self).manager,
            final(self).symbols == old(self).symbols,
            final(self).accepting_states == old(self).accepting_states,
            final(self).init_states == old(self).init_states,
    {
        let ghost f0 = self.fwd();
        let ghost b0 = self.bwd();
        while self.forward.len() <= to
            invariant
                self.forward@.len() == self.backward@.len(),
                f0.len() <= self.forward@.len(),
                f0.len() > to ==> self.forward@.len() == f0.len(),
                f0.len() <= to ==> self.forward@.len() <= to + 1,
                forall|q: int| 0 <= q < f0.len() ==> #[trigger] self.fwd()[q] == f0[q],
                forall|q: int| 0 <= q < f0.len() ==> #[trigger] self.bwd()[q] == b0[q],
                forall|q: int| f0.len() <= q < self.forward@.len() ==> #[trigger] self.fwd()[q].len() == 0 && self.bwd()[q].len() == 0,
                mirrored(f0, b0),
                self.manager == old(self).manager,
                self.symbols == old(self).symbols,
                self.accepting_states == old(self).accepting_states,
                self.init_states == old(self).init_states,
                old(self).fwd() == f0,
            decreases to + 1 - self.forward@.len(),
        {
            let ghost fb = self.forward@;
            let ghost bb = self.backward@;
            let ghost fa = self.fwd();
            let ghost ba = self.bwd();
            self.forward.push(Vec::new());
            self.backward.push(Vec::new());
            proof {
                assert forall|q: int| 0 <= q < f0.len() implies #[trigger] self.fwd()[q] == f0[q] && self.bwd()[q] == b0[q] by {
                    assert(self.forward@[q] == fb[q]);
                    assert(self.backward@[q] == bb[q]);
                    assert(fa[q] == f0[q]);
                    assert(ba[q] == b0[q]);
                }
                assert forall|q: int| 0 <= q < f0.len() implies #[trigger] self.bwd()[q] == b0[q] by {
                    assert(self.backward@[q] == bb[q]);
                    assert(ba[q] == b0[q]);
                }
                assert forall|q: int| f0.len() <= q < self.forward@.len() implies #[trigger] self.fwd()[q].len() == 0 && self.bwd()[q].len() == 0 by {
                    if q < fb.len() {
                        assert(self.forward@[q] == fb[q]);
                        assert(self.backward@[q] == bb[q]);
                        assert(fa[q].len() == 0);
                    }
                }
                assert(self.forward@[fb.len() as int]@ =~= Seq::<(usize, BM::Bdd)>::empty());
                assert(self.backward@[fb.len() as int]@ =~= Seq::<(usize, BM::Bdd)>::empty());
            }
        }
        proof {
            let f = self.fwd();
            let b = self.bwd();
            assert(f0.len() == old(self).forward@.len());
            assert forall|q: int| old(self).forward@.len() <= q < self.forward@.len() implies (#[trigger] self.fwd()[q]).len() == 0
                && self.bwd()[q].len() == 0 by {
                assert(f0.len() <= q);
                assert(self.fwd()[q].len() == 0 && self.bwd()[q].len() == 0);
            }
            assert forall|x: int, k: int| 0 <= x < f.len() && 0 <= k < f[x].len() implies {
                let (t, l) = #[trigger] f[x][k];
                t < b.len() && exists|j: int| 0 <= j < b[t as int].len() && #[trigger] b[t as int][j] == (x as usize, l)
            } by {
                if x >= f0.len() {
                    assert(f[x].len() == 0);
                }
                assert(f[x] == f0[x]);
                let (t, l) = f0[x][k];
                let j = choose|j: int| 0 <= j < b0[t as int].len() && #[trigger] b0[t as int][j] == (x as usize, l);
                assert(b[t as int] == b0[t as int]);
                assert(b[t as int][j] == (x as usize, l));
            }
            assert forall|t: int, k: int| 0 <= t < b.len() && 0 <= k < b[t].len() implies {
                let (x, l) = #[trigger] b[t][k];
                x < f.len() && exists|j: int| 0 <= j < f[x as int].len() && #[trigger] f[x as int][j] == (t as usize, l)
            } by {
                if t >= f0.len() {
                    assert(f[t].len() == 0);
                    assert(b[t].len() == 0);
                }
                assert(b[t] == b0[t]);
                let (x, l) = b0[t][k];
                let j = choose|j: int| 0 <= j < f0[x as int].len() && #[trigger] f0[x as int][j] == (t as usize, l);
                assert(f[x as int] == f0[x as int]);
                assert(f[x as int][j] == (t as usize, l));
            }
        }
    }
}

/// `adj` with empty edge lists added up to `n` states.
pub open spec fn grown(
    adj: Seq<Seq<(usize, Set<Seq<bool>>)>>,
    n: nat,
) -> Seq<Seq<(usize, Set<Seq<bool>>)>> {
    Seq::new(n, |q: int| if q < adj.len() { adj[q] } else { Seq::empty() })
}

/// The number of states once states `from` and `to` exist.
pub open spec fn states_after(n: nat, from: usize, to: usize) -> nat {
    let a = if n <= from { from + 1 } else { n as int };
    (if a <= to { to + 1 } else { a }) as nat
}

/// Adding the edge `from -> to` with label `l` on both sides keeps the
/// incoming edges mirroring the outgoing ones.
proof fn lemma_mirrored_add(
    f: Seq<Seq<(usize, Set<Seq<bool>>)>>,
    b: Seq<Seq<(usize, Set<Seq<bool>>)>>,
    from: usize,
    to: usize,
    l: Set<Seq<bool>>,
)
    requires
        mirrored(f, b),
        from < f.len(),
        to < f.len(),
    ensures
        mirrored(f.update(from as int, f[from as int].push((to, l))), b.update(to as int, b[to as int].push((from, l)))),
{
    let f2 = f.update(from as int, f[from as int].push((to, l)));
    let b2 = b.update(to as int, b[to as int].push((from, l)));
    assert forall|x: int, k: int| 0 <= x < f2.len() && 0 <= k < f2[x].len() implies {
        let (t, lab) = #[trigger] f2[x][k];
        t < b2.len() && exists|j: int| 0 <= j < b2[t as int].len() && #[trigger] b2[t as int][j] == (x as usize, lab)
    } by {
        let (t, lab) = f2[x][k];
        if x == from && k == f[x].len() {
            assert(b2[to as int][b[to as int].len() as int] == (from, l));
        } else {
            assert(f2[x][k] == f[x][k]);
            let j = choose|j: int| 0 <= j < b[t as int].len() && #[trigger] b[t as int][j] == (x as usize, lab);
            assert(b2[t as int][j] == b[t as int][j]);
        }
    }
    assert forall|t: int, k: int| 0 <= t < b2.len() && 0 <= k < b2[t].len() implies {
        let (x, lab) = #[trigger] b2[t][k];
        x < f2.len() && exists|j: int| 0 <= j < f2[x as int].len() && #[trigger] f2[x as int][j] == (t as usize, lab)
    } by {
        let (x, lab) = b2[t][k];
        if t == to && k == b[t].len() {
            assert(f2[from as int][f[from as int].len() as int] == (to, l));
        } else {
            assert(b2[t][k] == b[t][k]);
            let j = choose|j: int| 0 <= j < f[x as int].len() && #[trigger] f[x as int][j] == (t as usize, lab);
            assert(f2[x as int][j] == f[x as int][j]);
        }
    }
}

impl<BM: BddManager> BuchiAutomata<BM> {
    /// Adds the edge `from -> to` with label `label`, adding states up to
    /// both ends.
    pub fn add_edge(&mut self, from: usize, to: usize, label: BM::Bdd)
        requires
            old(self).wf(),
            from < usize::MAX,
            to < usize::MAX,
        ensures
            final(self).wf(),
            final(self).fwd() == ({
                let g = grown(old(self).fwd(), states_after(old(self).forward@.len(), from, to));
                g.update(from as int, g[from as int].push((to, label.denote())))
            }),
            final(self).bwd() == ({
                let g = grown(old(self).bwd(), states_after(old(self).forward@.len(), from, to));
                g.update(to as int, g[to as int].push((from, label.denote())))
            }),
            final(self).manager == old(self).manager,
            final(self).symbols == old(self).symbols,
            final(self).accepting_states == old(self).accepting_states,
            final(self).init_states == old(self).init_states,
    {
        let ghost n = states_after(old(self).forward@.len(), from, to);
        let ghost gf = grown(old(self).fwd(), n);
        let ghost gb = grown(old(self).bwd(), n);
        let ghost n0 = old(self).forward@.len();
        let ghost f0 = old(self).fwd();
        let ghost b0 = old(self).bwd();
        self.extend_to(from);
        let ghost fm = self.fwd();
        let ghost bm = self.bwd();
        let ghost nm = self.forward@.len();
        self.extend_to(to);
        proof {
            assert forall|q: int| 0 <= q < n implies #[trigger] self.fwd()[q] == gf[q] && self.bwd()[q] == gb[q] by {
                if q < nm {
                    assert(self.fwd()[q] == fm[q]);
                    assert(self.bwd()[q] == bm[q]);
                    if q < n0 {
                        assert(fm[q] == f0[q]);
                        assert(bm[q] == b0[q]);
                    } else {
                        assert(fm[q].len() == 0);
                        assert(fm[q] =~= gf[q]);
                        assert(bm[q] =~= gb[q]);
                    }
                } else {
                    assert(self.fwd()[q].len() == 0);
                    assert(self.fwd()[q] =~= gf[q]);
                    assert(self.bwd()[q] =~= gb[q]);
                }
            }
            assert(self.fwd() =~= gf);
            assert(self.wf());
            assert(self.bwd().len() == n);
            assert forall|q: int| 0 <= q < n implies #[trigger] self.bwd()[q] == gb[q] by {
                assert(self.fwd()[q] == gf[q]);
            }
            assert(self.bwd() =~= gb);
        }
        let ghost f1 = self.forward@;
        let ghost b1 = self.backward@;
        let copy = label.duplicate();
        let mut out = Vec::new();
        std::mem::swap(&mut out, &mut self.forward[from]);
        out.push((to, copy));
        std::mem::swap(&mut out, &mut self.forward[from]);
        let mut inc = Vec::new();
        std::mem::swap(&mut inc, &mut self.backward[to]);
        inc.push((from, label));
        std::mem::swap(&mut inc, &mut self.backward[to]);
        proof {
            assert(self.fwd() =~= gf.update(from as int, gf[from as int].push((to, label.denote())))) by {
                assert forall|q: int| 0 <= q < n implies #[trigger] self.fwd()[q] == gf.update(from as int, gf[from as int].push((to, label.denote())))[q] by {
                    if q == from {
                        assert(edges_view(self.forward@[q]@) =~= edges_view(f1[q]@).push((to, label.denote())));
                    } else {
                        assert(self.forward@[q] == f1[q]);
                    }
                }
            }
            assert(self.bwd() =~= gb.update(to as int, gb[to as int].push((from, label.denote())))) by {
                assert forall|q: int| 0 <= q < n implies #[trigger] self.bwd()[q] == gb.update(to as int, gb[to as int].push((from, label.denote())))[q] by {
                    if q == to {
                        assert(edges_view(self.backward@[q]@) =~= edges_view(b1[q]@).push((from, label.denote())));
                    } else {
                        assert(self.backward@[q] == b1[q]);
                    }
                }
            }
            lemma_mirrored_add(gf, gb, from, to, label.denote());
        }
    }

    /// Marks `state` initial.
    pub fn add_init_state(&mut self, state: usize)
        ensures
            final(self).init_states@ == old(self).init_states@.push(state),
            final(self).forward == old(self).forward,
            final(self).backward == old(self).backward,
            final(self).accepting_states == old(self).accepting_states,
            final(self).manager == old(self).manager,
            final(self).symbols == old(self).symbols,
    {
        self.init_states.push(state);
    }

    /// Marks `state` accepting.
    pub fn add_accepting_state(&mut self, state: usize)
        ensures
            final(self).accepting_states@ == old(self).accepting_states@.push(state),
            final(self).forward == old(self).forward,
            final(self).backward == old(self).backward,
            final(self).init_states == old(self).init_states,
            final(self).manager == old(self).manager,
            final(self).symbols == old(self).symbols,
    {
        self.accepting_states.push(state);
    }

    /// The encoding of state `id` in the variables `2 (base + i)`, `i < num`.
    fn automata_state_encode(&self, base: usize, num_encode_var: usize, id: usize) -> (r: BM::Bdd)
        requires
            2 * (base + num_encode_var) <= bm_width::<BM>(),
        ensures
            r.denote() == enc(bm_width::<BM>(), base as nat, num_encode_var as nat, id as nat),
    {
        let ghost w = bm_width::<BM>();
        proof {
            <BM::Bdd as Bdd>::lemma_width();
        }
        let mut res = self.manager.constant(true);
        let mut cur = id;
        let mut i: usize = 0;
        while i < num_encode_var
            invariant
                w == bm_width::<BM>(),
                w <= usize::MAX,
                2 * (base + num_encode_var) <= w,
                i <= num_encode_var,
                forall|k: nat| #[trigger] bit(id as nat, (i + k) as nat) == bit(cur as nat, k),
                res.denote() == Set::new(
                    |a: Seq<bool>|
                        a.len() == w && forall|j: nat| j < i ==> a[2 * (base + j) as int] == #[trigger] bit(id as nat, j),
                ),
            decreases num_encode_var - i,
        {
            let var = self.manager.ith_var((base + i) * 2);
            let ghost before = res.denote();
            if cur % 2 == 0 {
                let nv = var.not();
                res = res.and(&nv);
            } else {
                res = res.and(&var);
            }
            proof {
                assert(bit(id as nat, (i + 0) as nat) == bit(cur as nat, 0));
                assert forall|k: nat| #[trigger] bit(id as nat, (i + 1 + k) as nat) == bit((cur / 2) as nat, k) by {
                    assert(bit(id as nat, (i + (k + 1)) as nat) == bit(cur as nat, k + 1));
                }
                assert(res.denote() =~= Set::new(
                    |a: Seq<bool>|
                        a.len() == w && forall|j: nat| j < i + 1 ==> a[2 * (base + j) as int] == #[trigger] bit(id as nat, j),
                )) by {
                    assert forall|a: Seq<bool>| res.denote().contains(a) implies a.len() == w && forall|j: nat| j < i + 1 ==> a[2 * (base + j) as int] == #[trigger] bit(id as nat, j) by {
                        assert forall|j: nat| j < i + 1 implies a[2 * (base + j) as int] == #[trigger] bit(id as nat, j) by {
                            if j < i {
                                assert(before.contains(a));
                            }
                        }
                    }
                    assert forall|a: Seq<bool>| a.len() == w && (forall|j: nat| j < i + 1 ==> a[2 * (base + j) as int] == #[trigger] bit(id as nat, j)) implies res.denote().contains(a) by {
                        assert(before.contains(a));
                        assert(a[2 * (base + i) as int] == bit(id as nat, i as nat));
                    }
                }
            }
            cur = cur / 2;
            i = i + 1;
        }
        assert(res.denote() =~= enc(w, base as nat, num_encode_var as nat, id as nat));
        res
    }
}

/// Appends the decimal digits of `n` to `s`.
fn push_decimal(s: &mut String, n: usize)
    ensures
        final(s)@ == old(s)@ + decimal(n as nat),
    decreases n,
{
    if n >= 10 {
        push_decimal(s, n / 10);
    }
    let d: u8 = (n % 10) as u8;
    let c = (48u8 + d) as char;
    crate::lexer::push_char(s, c);
    proof {
        if n >= 10 {
            assert(old(s)@ + decimal((n / 10) as nat) + seq![c] =~= old(s)@ + decimal(n as nat));
        } else {
            assert(old(s)@.push(c) =~= old(s)@ + decimal(n as nat));
        }
    }
}

/// The name of encoding variable `e`: `automata` and the decimal digits of
/// `e`.
fn encoding_name(e: usize) -> (r: String)
    ensures
        r@ == "automata"@ + decimal(e as nat),
{
    let mut s = String::from_str("automata");
    push_decimal(&mut s, e);
    s
}

proof fn lemma_bits_le(x: nat)
    ensures
        bits(x) <= x,
    decreases x,
{
    if x > 0 {
        lemma_bits_le(x / 2);
    }
}

/// The number of bits of `x`.
fn bit_length(x: usize) -> (r: usize)
    ensures
        r == bits(x as nat),
{
    let mut n: usize = 0;
    let mut m = x;
    proof {
        lemma_bits_le(x as nat);
    }
    while m > 0
        invariant
            n + bits(m as nat) == bits(x as nat),
            bits(x as nat) <= x,
        decreases m,
    {
        n = n + 1;
        m = m / 2;
    }
    n
}

impl<BM: BddManager> BuchiAutomata<BM> {
    /// The union of the encodings of the states `ids`.
    fn encode_all(&self, base: usize, num: usize, ids: &Vec<usize>) -> (r: BM::Bdd)
        requires
            2 * (base + num) <= bm_width::<BM>(),
        ensures
            r.denote() == enc_union(bm_width::<BM>(), base as nat, num as nat, ids@),
    {
        let ghost w = bm_width::<BM>();
        let mut res = self.manager.constant(false);
        let mut i: usize = 0;
        assert(ids@.take(0) =~= Seq::<usize>::empty());
        while i < ids.len()
            invariant
                w == bm_width::<BM>(),
                2 * (base + num) <= w,
                i <= ids@.len(),
                res.denote() == enc_union(w, base as nat, num as nat, ids@.take(i as int)),
            decreases ids@.len() - i,
        {
            let e = self.automata_state_encode(base, num, ids[i]);
            res = res.or(&e);
            proof {
                assert(ids@.take(i + 1).drop_last() =~= ids@.take(i as int));
            }
            i = i + 1;
        }
        assert(ids@.take(i as int) =~= ids@);
        res
    }

    /// The state machine that runs the automaton: its states encoded in
    /// `bits(num_state - 1)` fresh state variables after the symbols, named
    /// `automata0`, `automata1`, ...; its initial states those of the
    /// initial states; no invariant; one transition relation part, the
    /// encoded edges; and one justice set, the accepting states.
    pub fn to_fsmbdd(&self) -> (r: FsmBdd<BM>)
        requires
            self.forward@.len() > 0,
            2 * (self.symbols@.len() + bits((self.forward@.len() - 1) as nat)) <= bm_width::<BM>(),
        ensures
            ({
                let w = bm_width::<BM>();
                let base = self.symbols@.len();
                let num = bits((self.forward@.len() - 1) as nat);
                &&& r.trans.wf()
                &&& r.trans.trans@.len() == 1
                &&& r.manager == self.manager
                &&& r.trans.manager == self.manager
                &&& symbols_view(r.symbols@) == symbols_view(self.symbols@) + encoding_symbols(base, num)
                &&& r.init.denote() == enc_union(w, base, num, self.init_states@)
                &&& r.inv() == valuations(w)
                &&& r.trans.relation() == automaton_rel(w, base, num, self.fwd())
                &&& r.justice_sets() == seq![enc_union(w, base, num, self.accepting_states@)]
            }),
    {
        let ghost w = bm_width::<BM>();
        let mut symbols = crate::fsm::copy_symbols(&self.symbols);
        let base = symbols.len();
        let num_encode_var = bit_length(self.num_state() - 1);
        proof {
            <BM::Bdd as Bdd>::lemma_width();
            assert(encoding_symbols(base as nat, 0) =~= Seq::<(Seq<char>, usize)>::empty());
            assert(symbols_view(self.symbols@) + encoding_symbols(base as nat, 0) =~= symbols_view(self.symbols@));
        }
        let mut e: usize = 0;
        while e < num_encode_var
            invariant
                w == bm_width::<BM>(),
                w <= usize::MAX,
                base == self.symbols@.len(),
                2 * (base + num_encode_var) <= w,
                e <= num_encode_var,
                symbols_view(symbols@) == symbols_view(self.symbols@) + encoding_symbols(base as nat, e as nat),
            decreases num_encode_var - e,
        {
            self.manager.ith_var((base + e) * 2);
            self.manager.ith_var((base + e) * 2 + 1);
            let name = encoding_name(e);
            let ghost before = symbols@;
            symbols.push((name, (base + e) * 2));
            proof {
                assert(symbols_view(symbols@) =~= symbols_view(before).push((name@, ((base + e) * 2) as usize)));
                assert(encoding_symbols(base as nat, (e + 1) as nat) =~= encoding_symbols(base as nat, e as nat).push(
                    ("automata"@ + decimal(e as nat), (2 * (base + e)) as usize),
                ));
            }
            e = e + 1;
        }
        let init = self.encode_all(base, num_encode_var, &self.init_states);
        let ghost fwd = self.fwd();
        let mut trans = self.manager.constant(false);
        let n = self.num_state();
        let mut state: usize = 0;
        assert(fwd.take(0) =~= Seq::<Seq<(usize, Set<Seq<bool>>)>>::empty());
        while state < n
            invariant
                w == bm_width::<BM>(),
                n == self.forward@.len(),
                fwd == self.fwd(),
                2 * (base + num_encode_var) <= w,
                state <= n,
                trans.denote() == automaton_rel(w, base as nat, num_encode_var as nat, fwd.take(state as int)),
            decreases n - state,
        {
            let ghost start = trans.denote();
            let ghost es = fwd[state as int];
            let mut k: usize = 0;
            assert(es.take(0) =~= Seq::<(usize, Set<Seq<bool>>)>::empty());
            assert(start.union(Set::<Seq<bool>>::empty()) =~= start);
            while k < self.forward[state].len()
                invariant
                    w == bm_width::<BM>(),
                    n == self.forward@.len(),
                    state < n,
                    fwd == self.fwd(),
                    es == fwd[state as int],
                    es == edges_view(self.forward@[state as int]@),
                    2 * (base + num_encode_var) <= w,
                    k <= self.forward@[state as int]@.len(),
                    trans.denote() == start.union(
                        edges_rel(w, base as nat, num_encode_var as nat, state as nat, es.take(k as int)),
                    ),
                decreases self.forward@[state as int]@.len() - k,
            {
                let next = self.automata_state_encode(base, num_encode_var, self.forward[state][k].0);
                let next = next.next_state();
                let st = self.automata_state_encode(base, num_encode_var, state);
                let step = next.and(&self.forward[state][k].1).and(&st);
                let ghost before = trans.denote();
                trans = trans.or(&step);
                proof {
                    assert(es.take(k + 1).drop_last() =~= es.take(k as int));
                    assert(es[k as int] == (self.forward@[state as int]@[k as int].0, self.forward@[state as int]@[k as int].1.denote()));
                    assert(trans.denote() =~= start.union(
                        edges_rel(w, base as nat, num_encode_var as nat, state as nat, es.take(k + 1)),
                    ));
                }
                k = k + 1;
            }
            proof {
                assert(es.take(k as int) =~= es);
                assert(fwd.take(state + 1).drop_last() =~= fwd.take(state as int));
                assert(fwd.take(state + 1).last() == es);
            }
            state = state + 1;
        }
        assert(fwd.take(n as int) =~= fwd);
        let ghost rel = trans.denote();
        proof {
            trans.lemma_wf();
            crate::trans::lemma_conj_single(w, rel);
        }
        let parts = vec![trans];
        assert(denotes(parts@) =~= seq![rel]);
        let t = Trans::new(&self.manager, parts, TransBddMethod::Monolithic).unwrap();
        let fair = self.encode_all(base, num_encode_var, &self.accepting_states);
        let ghost fair_set = fair.denote();
        let justice = vec![fair];
        let invariants = self.manager.constant(true);
        assert(denotes(justice@) =~= seq![fair_set]);
        FsmBdd { symbols, manager: self.manager.duplicate(), init, invariants, trans: t, justice }
    }
}

/// The edges of `fwd` as (source, target, label) triples.
pub open spec fn edge_set(fwd: Seq<Seq<(usize, Set<Seq<bool>>)>>) -> Set<(int, int, Set<Seq<bool>>)> {
    Set::new(
        |e: (int, int, Set<Seq<bool>>)|
            exists|k: int|
                0 <= e.0 < fwd.len() && 0 <= k < fwd[e.0].len() && #[trigger] fwd[e.0][k] == (
                    e.1 as usize,
                    e.2,
                ) && 0 <= e.1 <= usize::MAX,
    )
}

/// The edges of `fwd` out of the states below `i`, and the first `k` edges
/// out of state `i`.
pub open spec fn edge_prefix(
    fwd: Seq<Seq<(usize, Set<Seq<bool>>)>>,
    i: int,
    k: int,
) -> Set<(int, int, Set<Seq<bool>>)> {
    edge_set(fwd).filter(
        |e: (int, int, Set<Seq<bool>>)|
            e.0 < i || (e.0 == i && exists|j: int|
                0 <= j < k && #[trigger] fwd[i][j] == (e.1 as usize, e.2)),
    )
}

/// The edge list `es` split on variable `v`: each edge to `t` with label `l`
/// becomes, in order, an edge to `t` where `v` does not hold and one to the
/// copy `t + n` where it does.
pub open spec fn split_list(
    w: nat,
    n: int,
    v: nat,
    es: Seq<(usize, Set<Seq<bool>>)>,
) -> Seq<(usize, Set<Seq<bool>>)>
    decreases es.len(),
{
    if es.len() == 0 {
        Seq::empty()
    } else {
        split_list(w, n, v, es.drop_last()).push(
            (es.last().0, es.last().1.intersect(complement(w, var_set(w, v)))),
        ).push(((es.last().0 + n) as usize, es.last().1.intersect(var_set(w, v))))
    }
}

/// The edges out of state `q`; none past the last state.
pub open spec fn edges_at(g: Seq<Seq<(usize, Set<Seq<bool>>)>>, q: int) -> Seq<(usize, Set<Seq<bool>>)> {
    if 0 <= q < g.len() {
        g[q]
    } else {
        Seq::empty()
    }
}

/// After `add_edge`, the list of `from` has the new edge last, and the other
/// lists are as before.
proof fn lemma_add_edge_lists(
    before: Seq<Seq<(usize, Set<Seq<bool>>)>>,
    from: usize,
    to: usize,
    l: Set<Seq<bool>>,
    after: Seq<Seq<(usize, Set<Seq<bool>>)>>,
)
    requires
        after == ({
            let g = grown(before, states_after(before.len(), from, to));
            g.update(from as int, g[from as int].push((to, l)))
        }),
    ensures
        forall|q: int| #[trigger] edges_at(after, q) == if q == from as int {
            edges_at(before, q).push((to, l))
        } else {
            edges_at(before, q)
        },
        after.len() == states_after(before.len(), from, to),
{
    let g = grown(before, states_after(before.len(), from, to));
    assert forall|q: int| #[trigger] edges_at(after, q) == if q == from as int {
        edges_at(before, q).push((to, l))
    } else {
        edges_at(before, q)
    } by {
        if 0 <= q < g.len() {
            assert(g[q] == edges_at(before, q));
        }
    }
}

/// Four added edges extend the split lists of state `i` and its copy by the
/// split of edge `k`.
proof fn lemma_split_lists_step(
    w: nat,
    n: int,
    v: nat,
    f0: Seq<Seq<(usize, Set<Seq<bool>>)>>,
    i: int,
    k: int,
    s0: Seq<Seq<(usize, Set<Seq<bool>>)>>,
    s1: Seq<Seq<(usize, Set<Seq<bool>>)>>,
    s2: Seq<Seq<(usize, Set<Seq<bool>>)>>,
    s3: Seq<Seq<(usize, Set<Seq<bool>>)>>,
    s4: Seq<Seq<(usize, Set<Seq<bool>>)>>,
    next: usize,
    next_n: usize,
    l: Set<Seq<bool>>,
    l0: Set<Seq<bool>>,
    l2: Set<Seq<bool>>,
)
    requires
        0 <= i < n,
        n == f0.len(),
        0 <= k < f0[i].len(),
        f0[i][k] == (next, l),
        next_n == next + n,
        l0 == l.intersect(complement(w, var_set(w, v))),
        l2 == l.intersect(var_set(w, v)),
        forall|q: int| #[trigger] edges_at(s1, q) == if q == i { edges_at(s0, q).push((next, l0)) } else { edges_at(s0, q) },
        forall|q: int| #[trigger] edges_at(s2, q) == if q == i + n { edges_at(s1, q).push((next, l0)) } else { edges_at(s1, q) },
        forall|q: int| #[trigger] edges_at(s3, q) == if q == i { edges_at(s2, q).push((next_n, l2)) } else { edges_at(s2, q) },
        forall|q: int| #[trigger] edges_at(s4, q) == if q == i + n { edges_at(s3, q).push((next_n, l2)) } else { edges_at(s3, q) },
        forall|q: int| 0 <= q < n ==> #[trigger] edges_at(s0, q) == (if q < i {
            split_list(w, n, v, f0[q])
        } else if q == i {
            split_list(w, n, v, f0[q].take(k))
        } else {
            Seq::<(usize, Set<Seq<bool>>)>::empty()
        }) && edges_at(s0, q + n) == (if q < i {
            split_list(w, n, v, f0[q])
        } else if q == i {
            split_list(w, n, v, f0[q].take(k))
        } else {
            Seq::<(usize, Set<Seq<bool>>)>::empty()
        }),
    ensures
        forall|q: int| 0 <= q < n ==> #[trigger] edges_at(s4, q) == (if q < i {
            split_list(w, n, v, f0[q])
        } else if q == i {
            split_list(w, n, v, f0[q].take(k + 1))
        } else {
            Seq::<(usize, Set<Seq<bool>>)>::empty()
        }) && edges_at(s4, q + n) == (if q < i {
            split_list(w, n, v, f0[q])
        } else if q == i {
            split_list(w, n, v, f0[q].take(k + 1))
        } else {
            Seq::<(usize, Set<Seq<bool>>)>::empty()
        }),
{
    let fi = f0[i];
    assert(fi.take(k + 1).drop_last() =~= fi.take(k));
    assert(fi.take(k + 1).last() == (next, l));
    assert(split_list(w, n, v, fi.take(k + 1)) == split_list(w, n, v, fi.take(k)).push((next, l0)).push((next_n, l2)));
    assert forall|q: int| 0 <= q < n implies #[trigger] edges_at(s4, q) == (if q < i {
        split_list(w, n, v, f0[q])
    } else if q == i {
        split_list(w, n, v, f0[q].take(k + 1))
    } else {
        Seq::<(usize, Set<Seq<bool>>)>::empty()
    }) && edges_at(s4, q + n) == (if q < i {
        split_list(w, n, v, f0[q])
    } else if q == i {
        split_list(w, n, v, f0[q].take(k + 1))
    } else {
        Seq::<(usize, Set<Seq<bool>>)>::empty()
    }) by {
        assert(edges_at(s0, q) == edges_at(s0, q));
        assert(edges_at(s1, q) == edges_at(s1, q));
        assert(edges_at(s2, q) == edges_at(s2, q));
        assert(edges_at(s3, q) == edges_at(s3, q));
        assert(edges_at(s1, q + n) == edges_at(s1, q + n));
        assert(edges_at(s2, q + n) == edges_at(s2, q + n));
        assert(edges_at(s3, q + n) == edges_at(s3, q + n));
    }
}

/// Each edge `f -> t` of `es` split on variable `v`: from `f` or its copy
/// `f + n`, to `t` where `v` does not hold and to the copy `t + n` where it
/// does.
pub open spec fn split_edges(
    w: nat,
    n: int,
    v: nat,
    es: Set<(int, int, Set<Seq<bool>>)>,
) -> Set<(int, int, Set<Seq<bool>>)> {
    Set::new(
        |e: (int, int, Set<Seq<bool>>)|
            exists|f: int, t: int, l: Set<Seq<bool>>, b1: bool, b2: bool|
                #![trigger es.contains((f, t, l)), split_edge(w, n, v, f, t, l, b1, b2)]
                es.contains((f, t, l)) && e == split_edge(w, n, v, f, t, l, b1, b2),
    )
}

/// The copy of edge `f -> t` with label `l`: from the copy of `f` when `b1`,
/// to the copy of `t` where `v` holds when `b2`, else to `t` where it does
/// not.
pub open spec fn split_edge(
    w: nat,
    n: int,
    v: nat,
    f: int,
    t: int,
    l: Set<Seq<bool>>,
    b1: bool,
    b2: bool,
) -> (int, int, Set<Seq<bool>>) {
    (
        f + if b1 {
            n
        } else {
            0
        },
        t + if b2 {
            n
        } else {
            0
        },
        l.intersect(
            if b2 {
                var_set(w, v)
            } else {
                complement(w, var_set(w, v))
            },
        ),
    )
}

/// Adding an edge adds its triple.
proof fn lemma_edge_set_add(
    g: Seq<Seq<(usize, Set<Seq<bool>>)>>,
    from: usize,
    to: usize,
    l: Set<Seq<bool>>,
)
    requires
        from < g.len(),
    ensures
        edge_set(g.update(from as int, g[from as int].push((to, l)))) == edge_set(g).insert(
            (from as int, to as int, l),
        ),
{
    let g2 = g.update(from as int, g[from as int].push((to, l)));
    assert forall|e: (int, int, Set<Seq<bool>>)| edge_set(g2).contains(e) implies edge_set(g).insert(
        (from as int, to as int, l),
    ).contains(e) by {
        let k = choose|k: int|
            0 <= e.0 < g2.len() && 0 <= k < g2[e.0].len() && #[trigger] g2[e.0][k] == (e.1 as usize, e.2)
                && 0 <= e.1 <= usize::MAX;
        if e.0 == from && k == g[from as int].len() {
        } else {
            assert(g[e.0][k] == g2[e.0][k]);
        }
    }
    assert forall|e: (int, int, Set<Seq<bool>>)| edge_set(g).insert((from as int, to as int, l)).contains(
        e,
    ) implies edge_set(g2).contains(e) by {
        if e == (from as int, to as int, l) {
            assert(g2[from as int][g[from as int].len() as int] == (to, l));
        } else {
            let k = choose|k: int|
                0 <= e.0 < g.len() && 0 <= k < g[e.0].len() && #[trigger] g[e.0][k] == (e.1 as usize, e.2)
                    && 0 <= e.1 <= usize::MAX;
            assert(g2[e.0][k] == g[e.0][k]);
        }
    }
    assert(edge_set(g2) =~= edge_set(g).insert((from as int, to as int, l)));
}

/// Adding empty edge lists adds no triple.
proof fn lemma_edge_set_grown(g: Seq<Seq<(usize, Set<Seq<bool>>)>>, n: nat)
    requires
        g.len() <= n,
    ensures
        edge_set(grown(g, n)) == edge_set(g),
{
    let g2 = grown(g, n);
    assert forall|e: (int, int, Set<Seq<bool>>)| edge_set(g2).contains(e) implies edge_set(g).contains(e) by {
        let k = choose|k: int|
            0 <= e.0 < g2.len() && 0 <= k < g2[e.0].len() && #[trigger] g2[e.0][k] == (e.1 as usize, e.2)
                && 0 <= e.1 <= usize::MAX;
        assert(g[e.0][k] == g2[e.0][k]);
    }
    assert forall|e: (int, int, Set<Seq<bool>>)| edge_set(g).contains(e) implies edge_set(g2).contains(e) by {
        let k = choose|k: int|
            0 <= e.0 < g.len() && 0 <= k < g[e.0].len() && #[trigger] g[e.0][k] == (e.1 as usize, e.2)
                && 0 <= e.1 <= usize::MAX;
        assert(g2[e.0][k] == g[e.0][k]);
    }
    assert(edge_set(g2) =~= edge_set(g));
}

impl<BM: BddManager> BuchiAutomata<BM> {
    /// The automaton that also tracks state variable `var`: each state `q`
    /// gets a copy `q + n`, and each edge `f -> t` becomes edges from `f`
    /// and from `f + n` to `t` where `var` does not hold and to `t + n`
    /// where it does; the copies of accepting and initial states are
    /// accepting and initial.
    #[verifier::spinoff_prover]
    #[verifier::rlimit(50)]
    pub fn partition(self, var: usize) -> (r: Self)
        requires
            self.wf(),
            2 * var < bm_width::<BM>(),
            2 * self.forward@.len() < usize::MAX,
            forall|k: int, j: int|
                0 <= k < self.forward@.len() && 0 <= j < self.fwd()[k].len() ==> (#[trigger] self.fwd()[k][j]).0
                    < self.forward@.len(),
            forall|k: int|
                0 <= k < self.accepting_states@.len() ==> #[trigger] self.accepting_states@[k] + self.forward@.len()
                    <= usize::MAX,
            forall|k: int|
                0 <= k < self.init_states@.len() ==> #[trigger] self.init_states@[k] + self.forward@.len()
                    <= usize::MAX,
        ensures
            ({
                let n = self.forward@.len() as int;
                &&& r.wf()
                &&& r.forward@.len() <= 2 * n
                &&& edge_set(r.fwd()) == split_edges(bm_width::<BM>(), n, (2 * var) as nat, edge_set(self.fwd()))
                &&& r.accepting_states@ == self.accepting_states@ + self.accepting_states@.map_values(
                    |a: usize| (a + n) as usize,
                )
                &&& r.init_states@ == self.init_states@ + self.init_states@.map_values(
                    |a: usize| (a + n) as usize,
                )
                &&& r.manager == self.manager
                &&& r.symbols == self.symbols
            }),
            forall|q: int| 0 <= q < self.forward@.len() ==> #[trigger] edges_at(r.fwd(), q) == split_list(
                bm_width::<BM>(),
                self.forward@.len() as int,
                (2 * var) as nat,
                self.fwd()[q],
            ),
            forall|q: int| 0 <= q < self.forward@.len() ==> #[trigger] edges_at(r.fwd(), q + self.forward@.len()) == split_list(
                bm_width::<BM>(),
                self.forward@.len() as int,
                (2 * var) as nat,
                self.fwd()[q],
            ),
    {
        let ghost w = bm_width::<BM>();
        let ghost f0 = self.fwd();
        let ghost acc0 = self.accepting_states@;
        let ghost ini0 = self.init_states@;
        let ghost m0 = self.manager;
        let ghost sym0 = self.symbols;
        let mut a = self;
        proof {
            <BM::Bdd as Bdd>::lemma_width();
        }
        let v = var * 2;
        let n = a.num_state();
        let mut accepts = shifted(&a.accepting_states, n);
        let ghost accepts_v = accepts@;
        a.accepting_states.append(&mut accepts);
        let mut inits = shifted(&a.init_states, n);
        let ghost inits_v = inits@;
        a.init_states.append(&mut inits);
        a.backward.clear();
        let mut forward: Vec<Vec<(usize, BM::Bdd)>> = Vec::new();
        std::mem::swap(&mut forward, &mut a.forward);
        proof {
            assert(a.fwd() =~= Seq::<Seq<(usize, Set<Seq<bool>>)>>::empty());
            assert(a.bwd() =~= Seq::<Seq<(usize, Set<Seq<bool>>)>>::empty());
            assert(adjacency(forward@) == f0);
            assert(edge_set(a.fwd()) =~= Set::<(int, int, Set<Seq<bool>>)>::empty());
            assert(edge_prefix(f0, 0, 0) =~= Set::<(int, int, Set<Seq<bool>>)>::empty());
            assert(split_edges(w, n as int, v as nat, Set::<(int, int, Set<Seq<bool>>)>::empty()) =~= Set::<(int, int, Set<Seq<bool>>)>::empty());
        }
        let mut i: usize = 0;
        while i < n
            invariant
                w == bm_width::<BM>(),
                v < w,
                n == forward@.len(),
                f0 == adjacency(forward@),
                2 * n < usize::MAX,
                forall|k: int, j: int| 0 <= k < n && 0 <= j < f0[k].len() ==> (#[trigger] f0[k][j]).0 < n,
                i <= n,
                a.wf(),
                a.forward@.len() <= 2 * n,
                edge_set(a.fwd()) == split_edges(w, n as int, v as nat, edge_prefix(f0, i as int, 0)),
                forall|q: int| 0 <= q < n ==> #[trigger] edges_at(a.fwd(), q) == (if q < i {
                    split_list(w, n as int, v as nat, f0[q])
                } else {
                    Seq::<(usize, Set<Seq<bool>>)>::empty()
                }) && edges_at(a.fwd(), q + n) == (if q < i {
                    split_list(w, n as int, v as nat, f0[q])
                } else {
                    Seq::<(usize, Set<Seq<bool>>)>::empty()
                }),
                a.accepting_states@ == acc0 + accepts_v,
                a.init_states@ == ini0 + inits_v,
                a.manager == m0,
                a.symbols == sym0,
            decreases n - i,
        {
            let mut k: usize = 0;
            while k < forward[i].len()
                invariant
                    w == bm_width::<BM>(),
                    v < w,
                    n == forward@.len(),
                    f0 == adjacency(forward@),
                    2 * n < usize::MAX,
                    forall|k: int, j: int| 0 <= k < n && 0 <= j < f0[k].len() ==> (#[trigger] f0[k][j]).0 < n,
                    i < n,
                    k <= forward@[i as int]@.len(),
                    a.wf(),
                    a.forward@.len() <= 2 * n,
                    edge_set(a.fwd()) == split_edges(w, n as int, v as nat, edge_prefix(f0, i as int, k as int)),
                    f0[i as int].len() == forward@[i as int]@.len(),
                    forall|q: int| 0 <= q < n ==> #[trigger] edges_at(a.fwd(), q) == (if q < i {
                        split_list(w, n as int, v as nat, f0[q])
                    } else if q == i {
                        split_list(w, n as int, v as nat, f0[q].take(k as int))
                    } else {
                        Seq::<(usize, Set<Seq<bool>>)>::empty()
                    }) && edges_at(a.fwd(), q + n) == (if q < i {
                        split_list(w, n as int, v as nat, f0[q])
                    } else if q == i {
                        split_list(w, n as int, v as nat, f0[q].take(k as int))
                    } else {
                        Seq::<(usize, Set<Seq<bool>>)>::empty()
                    }),
                    a.accepting_states@ == acc0 + accepts_v,
                    a.init_states@ == ini0 + inits_v,
                    a.manager == m0,
                    a.symbols == sym0,
                decreases forward@[i as int]@.len() - k,
            {
                let next = forward[i][k].0;
                let bdd = &forward[i][k].1;
                let ghost l = bdd.denote();
                proof {
                    assert(f0[i as int][k as int] == (next, l));
                    assert(next < n);
                    lemma_prefix_step(f0, i as int, k as int);
                    lemma_split_insert(w, n as int, v as nat, edge_prefix(f0, i as int, k as int), (i as int, next as int, l));
                }
                let var_bdd = a.manager.ith_var(v);
                let not_var = var_bdd.not();
                let e0 = bdd.and(&not_var);
                let e1 = bdd.and(&not_var);
                let e2 = bdd.and(&var_bdd);
                let e3 = bdd.and(&var_bdd);
                let i_n = i + n;
                let next_n = next + n;
                let ghost s0 = a.fwd();
                a.add_edge(i, next, e0);
                proof {
                    lemma_add_edge_set(s0, a.forward@.len(), i, next, e0.denote(), a.fwd());
                    lemma_add_edge_lists(s0, i, next, e0.denote(), a.fwd());
                }
                let ghost s1 = a.fwd();
                a.add_edge(i_n, next, e1);
                proof {
                    lemma_add_edge_set(s1, a.forward@.len(), i_n, next, e1.denote(), a.fwd());
                    lemma_add_edge_lists(s1, i_n, next, e1.denote(), a.fwd());
                }
                let ghost s2 = a.fwd();
                a.add_edge(i, next_n, e2);
                proof {
                    lemma_add_edge_set(s2, a.forward@.len(), i, next_n, e2.denote(), a.fwd());
                    lemma_add_edge_lists(s2, i, next_n, e2.denote(), a.fwd());
                }
                let ghost s3 = a.fwd();
                a.add_edge(i_n, next_n, e3);
                proof {
                    lemma_add_edge_set(s3, a.forward@.len(), i_n, next_n, e3.denote(), a.fwd());
                    lemma_add_edge_lists(s3, i_n, next_n, e3.denote(), a.fwd());
                    assert(e1.denote() == e0.denote());
                    assert(e3.denote() == e2.denote());
                    lemma_split_lists_step(w, n as int, v as nat, f0, i as int, k as int, s0, s1, s2, s3, a.fwd(), next, next_n, l, e0.denote(), e2.denote());
                    let x = (i as int, next as int, l);
                    assert(edge_set(a.fwd()) =~= split_edges(w, n as int, v as nat, edge_prefix(f0, i as int, k + 1))) by {
                        assert(split_edge(w, n as int, v as nat, i as int, next as int, l, false, false) == (i as int, next as int, e0.denote()));
                        assert(split_edge(w, n as int, v as nat, i as int, next as int, l, true, false) == ((i + n) as int, next as int, e1.denote()));
                        assert(split_edge(w, n as int, v as nat, i as int, next as int, l, false, true) == (i as int, (next + n) as int, e2.denote()));
                        assert(split_edge(w, n as int, v as nat, i as int, next as int, l, true, true) == ((i + n) as int, (next + n) as int, e3.denote()));
                    }
                }
                k = k + 1;
            }
            proof {
                lemma_prefix_next(f0, i as int);
                assert(f0[i as int].take(f0[i as int].len() as int) =~= f0[i as int]);
            }
            i = i + 1;
        }
        proof {
            lemma_prefix_all(f0);
            assert forall|q: int| 0 <= q < n implies #[trigger] edges_at(a.fwd(), q + n) == split_list(w, n as int, v as nat, f0[q]) by {
                assert(edges_at(a.fwd(), q) == edges_at(a.fwd(), q));
            }
            assert(v as nat == (2 * var) as nat);
        }
        a
    }
}

/// Each element of `v` plus `n`.
fn shifted(v: &Vec<usize>, n: usize) -> (r: Vec<usize>)
    requires
        forall|k: int| 0 <= k < v@.len() ==> #[trigger] v@[k] + n <= usize::MAX,
    ensures
        r@ == v@.map_values(|a: usize| (a + n) as usize),
{
    let mut r: Vec<usize> = Vec::new();
    let mut i: usize = 0;
    while i < v.len()
        invariant
            i <= v@.len(),
            forall|k: int| 0 <= k < v@.len() ==> #[trigger] v@[k] + n <= usize::MAX,
            r@ == v@.take(i as int).map_values(|a: usize| (a + n) as usize),
        decreases v@.len() - i,
    {
        r.push(v[i] + n);
        i = i + 1;
        assert(r@ =~= v@.take(i as int).map_values(|a: usize| (a + n) as usize));
    }
    assert(v@.take(i as int) =~= v@);
    r
}

/// After `add_edge`, the triples are those before and the new one.
proof fn lemma_add_edge_set(
    before: Seq<Seq<(usize, Set<Seq<bool>>)>>,
    len: nat,
    from: usize,
    to: usize,
    l: Set<Seq<bool>>,
    after: Seq<Seq<(usize, Set<Seq<bool>>)>>,
)
    requires
        after == ({
            let g = grown(before, states_after(before.len(), from, to));
            g.update(from as int, g[from as int].push((to, l)))
        }),
    ensures
        edge_set(after) == edge_set(before).insert((from as int, to as int, l)),
{
    let g = grown(before, states_after(before.len(), from, to));
    lemma_edge_set_grown(before, states_after(before.len(), from, to));
    lemma_edge_set_add(g, from, to, l);
}

/// The prefix grows by edge `k` of state `i`.
proof fn lemma_prefix_step(fwd: Seq<Seq<(usize, Set<Seq<bool>>)>>, i: int, k: int)
    requires
        0 <= i < fwd.len(),
        0 <= k < fwd[i].len(),
    ensures
        edge_prefix(fwd, i, k + 1) == edge_prefix(fwd, i, k).insert((i, fwd[i][k].0 as int, fwd[i][k].1)),
{
    let x = (i, fwd[i][k].0 as int, fwd[i][k].1);
    assert(edge_set(fwd).contains(x)) by {
        assert(fwd[x.0][k] == (x.1 as usize, x.2));
    }
    assert forall|e: (int, int, Set<Seq<bool>>)| edge_prefix(fwd, i, k + 1).contains(e) implies edge_prefix(fwd, i, k).insert(x).contains(e) by {
        if e.0 == i {
            let j = choose|j: int| 0 <= j < k + 1 && #[trigger] fwd[i][j] == (e.1 as usize, e.2);
            if j == k {
                let kk = choose|kk: int| 0 <= e.0 < fwd.len() && 0 <= kk < fwd[e.0].len() && #[trigger] fwd[e.0][kk] == (e.1 as usize, e.2) && 0 <= e.1 <= usize::MAX;
                assert(e == x);
            }
        }
    }
    assert forall|e: (int, int, Set<Seq<bool>>)| edge_prefix(fwd, i, k).insert(x).contains(e) implies edge_prefix(fwd, i, k + 1).contains(e) by {
        if e == x {
            assert(fwd[i][k] == (e.1 as usize, e.2));
        } else if e.0 == i {
            let j = choose|j: int| 0 <= j < k && #[trigger] fwd[i][j] == (e.1 as usize, e.2);
        }
    }
    assert(edge_prefix(fwd, i, k + 1) =~= edge_prefix(fwd, i, k).insert(x));
}

/// All edges of state `i` taken is no edge of state `i + 1` taken.
proof fn lemma_prefix_next(fwd: Seq<Seq<(usize, Set<Seq<bool>>)>>, i: int)
    requires
        0 <= i < fwd.len(),
    ensures
        edge_prefix(fwd, i, fwd[i].len() as int) == edge_prefix(fwd, i + 1, 0),
{
    assert forall|e: (int, int, Set<Seq<bool>>)| edge_prefix(fwd, i + 1, 0).contains(e) implies edge_prefix(fwd, i, fwd[i].len() as int).contains(e) by {
        if e.0 == i {
            let kk = choose|kk: int| 0 <= e.0 < fwd.len() && 0 <= kk < fwd[e.0].len() && #[trigger] fwd[e.0][kk] == (e.1 as usize, e.2) && 0 <= e.1 <= usize::MAX;
            assert(fwd[i][kk] == (e.1 as usize, e.2));
        }
    }
    assert(edge_prefix(fwd, i, fwd[i].len() as int) =~= edge_prefix(fwd, i + 1, 0));
}

/// The prefix past the last state is every edge.
proof fn lemma_prefix_all(fwd: Seq<Seq<(usize, Set<Seq<bool>>)>>)
    ensures
        edge_prefix(fwd, fwd.len() as int, 0) == edge_set(fwd),
{
    assert(edge_prefix(fwd, fwd.len() as int, 0) =~= edge_set(fwd));
}

/// Splitting one more edge adds its four copies.
proof fn lemma_split_insert(
    w: nat,
    n: int,
    v: nat,
    es: Set<(int, int, Set<Seq<bool>>)>,
    x: (int, int, Set<Seq<bool>>),
)
    ensures
        split_edges(w, n, v, es.insert(x)) == split_edges(w, n, v, es).insert(
            split_edge(w, n, v, x.0, x.1, x.2, false, false),
        ).insert(split_edge(w, n, v, x.0, x.1, x.2, true, false)).insert(
            split_edge(w, n, v, x.0, x.1, x.2, false, true),
        ).insert(split_edge(w, n, v, x.0, x.1, x.2, true, true)),
{
    let lhs = split_edges(w, n, v, es.insert(x));
    let rhs = split_edges(w, n, v, es).insert(
        split_edge(w, n, v, x.0, x.1, x.2, false, false),
    ).insert(split_edge(w, n, v, x.0, x.1, x.2, true, false)).insert(
        split_edge(w, n, v, x.0, x.1, x.2, false, true),
    ).insert(split_edge(w, n, v, x.0, x.1, x.2, true, true));
    assert forall|e: (int, int, Set<Seq<bool>>)| lhs.contains(e) implies rhs.contains(e) by {
        let (f, t, l, b1, b2) = choose|f: int, t: int, l: Set<Seq<bool>>, b1: bool, b2: bool|
            #![trigger es.insert(x).contains((f, t, l)), split_edge(w, n, v, f, t, l, b1, b2)]
            es.insert(x).contains((f, t, l)) && e == split_edge(w, n, v, f, t, l, b1, b2);
        if (f, t, l) != x {
            assert(es.contains((f, t, l)));
        }
    }
    assert forall|e: (int, int, Set<Seq<bool>>)| rhs.contains(e) implies lhs.contains(e) by {
        if split_edges(w, n, v, es).contains(e) {
            let (f, t, l, b1, b2) = choose|f: int, t: int, l: Set<Seq<bool>>, b1: bool, b2: bool|
                #![trigger es.contains((f, t, l)), split_edge(w, n, v, f, t, l, b1, b2)]
                es.contains((f, t, l)) && e == split_edge(w, n, v, f, t, l, b1, b2);
            assert(es.insert(x).contains((f, t, l)));
        } else {
            assert(es.insert(x).contains((x.0, x.1, x.2)));
        }
    }
    assert(lhs =~= rhs);
}


/// The texts of strings.
pub open spec fn string_views(v: Seq<String>) -> Seq<Seq<char>> {
    v.map_values(|s: String| s@)
}

/// The names in the order the automaton meets them: each state's name, then
/// the targets of its edges.
pub open spec fn met_names(sts: Seq<(Seq<char>, Seq<(Seq<char>, Seq<char>)>)>) -> Seq<Seq<char>>
    decreases sts.len(),
{
    if sts.len() == 0 {
        Seq::empty()
    } else {
        met_names(sts.drop_last()).push(sts.last().0) + sts.last().1.map_values(
            |e: (Seq<char>, Seq<char>)| e.1,
        )
    }
}

/// The names met up to edge `j` of state `i`.
pub open spec fn met_upto(
    sts: Seq<(Seq<char>, Seq<(Seq<char>, Seq<char>)>)>,
    i: int,
    j: int,
) -> Seq<Seq<char>> {
    met_names(sts.take(i)).push(sts[i].0) + sts[i].1.take(j).map_values(
        |e: (Seq<char>, Seq<char>)| e.1,
    )
}

/// The distinct names of `ns`, in the order they first occur.
pub open spec fn first_seen(ns: Seq<Seq<char>>) -> Seq<Seq<char>>
    decreases ns.len(),
{
    if ns.len() == 0 {
        Seq::empty()
    } else {
        let f = first_seen(ns.drop_last());
        if f.contains(ns.last()) {
            f
        } else {
            f.push(ns.last())
        }
    }
}

/// A state named `accept_...` is accepting.
pub open spec fn is_accepting_name(n: Seq<char>) -> bool {
    crate::never::matches_at(n, 0, "accept_"@)
}

/// A state named `..._init` is initial.
pub open spec fn is_init_name(n: Seq<char>) -> bool {
    n.len() >= 5 && crate::never::matches_at(n, n.len() - 5, "_init"@)
}

/// The test for accepting state names.
pub open spec fn accepting_pred() -> spec_fn(Seq<char>) -> bool {
    |n: Seq<char>| is_accepting_name(n)
}

/// The test for initial state names.
pub open spec fn init_pred() -> spec_fn(Seq<char>) -> bool {
    |n: Seq<char>| is_init_name(n)
}

/// The names of the states whose names satisfy `p`, in order.
pub open spec fn names_where(
    sts: Seq<(Seq<char>, Seq<(Seq<char>, Seq<char>)>)>,
    p: spec_fn(Seq<char>) -> bool,
) -> Seq<Seq<char>>
    decreases sts.len(),
{
    if sts.len() == 0 {
        Seq::empty()
    } else {
        let r = names_where(sts.drop_last(), p);
        if p(sts.last().0) {
            r.push(sts.last().0)
        } else {
            r
        }
    }
}

/// The names listed by [`names_where`] are those of the states whose names pass
/// the test.
proof fn lemma_names_where_members(
    sts: Seq<(Seq<char>, Seq<(Seq<char>, Seq<char>)>)>,
    p: spec_fn(Seq<char>) -> bool,
    n: Seq<char>,
)
    ensures
        names_where(sts, p).contains(n) <==> p(n) && exists|k: int| 0 <= k < sts.len() && (#[trigger] sts[k]).0 == n,
    decreases sts.len(),
{
    if sts.len() > 0 {
        lemma_names_where_members(sts.drop_last(), p, n);
        let r = names_where(sts.drop_last(), p);
        if exists|k: int| 0 <= k < sts.len() && (#[trigger] sts[k]).0 == n {
            let k = choose|k: int| 0 <= k < sts.len() && (#[trigger] sts[k]).0 == n;
            if k < sts.len() - 1 {
                assert(sts.drop_last()[k] == sts[k]);
            }
            if p(n) {
                if sts.last().0 == n {
                    assert(r.push(n)[r.len() as int] == n);
                } else {
                    assert(sts.drop_last()[k] == sts[k]);
                }
            }
        }
        if names_where(sts, p).contains(n) {
            if !r.contains(n) {
                assert(sts[sts.len() - 1].0 == n);
            } else {
                let k = choose|k: int| 0 <= k < sts.drop_last().len() && (#[trigger] sts.drop_last()[k]).0 == n;
                assert(sts[k] == sts.drop_last()[k]);
            }
        }
        if p(n) && r.contains(n) {
            let i = choose|i: int| 0 <= i < r.len() && r[i] == n;
            assert(names_where(sts, p)[i] == n);
        }
    }
}

/// Which claim states are initial and which accepting are two separate
/// questions about the name: a state is initial exactly when its name ends in
/// `_init`, and accepting exactly when its name starts with `accept_`, so
/// that `accept_init` is both.
pub proof fn lemma_claim_state_roles(sts: Seq<(Seq<char>, Seq<(Seq<char>, Seq<char>)>)>, k: int)
    requires
        0 <= k < sts.len(),
    ensures
        ({
            let n = sts[k].0;
            &&& names_where(sts, init_pred()).contains(n) <==> (n.len() >= 5 && n.subrange(
                n.len() - 5,
                n.len() as int,
            ) == "_init"@)
            &&& names_where(sts, accepting_pred()).contains(n) <==> (n.len() >= 7 && n.subrange(
                0,
                7,
            ) == "accept_"@)
        }),
{
    reveal_strlit("_init");
    reveal_strlit("accept_");
    let n = sts[k].0;
    lemma_names_where_members(sts, init_pred(), n);
    lemma_names_where_members(sts, accepting_pred(), n);
}

/// The label of edge `j` of state `i`: everything for the condition `(1)`,
/// else the given label.
pub open spec fn claim_label(
    w: nat,
    sts: Seq<(Seq<char>, Seq<(Seq<char>, Seq<char>)>)>,
    labels: Seq<Seq<Set<Seq<bool>>>>,
    i: int,
    j: int,
) -> Set<Seq<bool>> {
    if sts[i].1[j].0 == "(1)"@ {
        valuations(w)
    } else {
        labels[i][j]
    }
}

/// The edges of the claim, up to edge `j` of state `i`, as triples over
/// the positions of the names in `names`.
pub open spec fn claim_edges(
    w: nat,
    sts: Seq<(Seq<char>, Seq<(Seq<char>, Seq<char>)>)>,
    labels: Seq<Seq<Set<Seq<bool>>>>,
    names: Seq<Seq<char>>,
    i: int,
    j: int,
) -> Set<(int, int, Set<Seq<bool>>)> {
    Set::new(
        |e: (int, int, Set<Seq<bool>>)|
            exists|a: int, b: int|
                #![trigger claim_label(w, sts, labels, a, b)]
                0 <= a < sts.len() && 0 <= b < sts[a].1.len() && (a < i || (a == i && b < j))
                    && 0 <= e.0 < names.len() && 0 <= e.1 < names.len() && names[e.0] == sts[a].0
                    && names[e.1] == sts[a].1[b].1 && e.2 == claim_label(w, sts, labels, a, b),
    )
}

proof fn lemma_first_seen_props(ns: Seq<Seq<char>>)
    ensures
        first_seen(ns).no_duplicates(),
        forall|x: Seq<char>| ns.contains(x) <==> #[trigger] first_seen(ns).contains(x),
    decreases ns.len(),
{
    if ns.len() > 0 {
        let d = ns.drop_last();
        let last = ns.last();
        lemma_first_seen_props(d);
        assert(ns =~= d.push(last));
        let f = first_seen(d);
        assert forall|x: Seq<char>| ns.contains(x) <==> (d.contains(x) || x == last) by {
            if ns.contains(x) {
                let k = choose|k: int| 0 <= k < ns.len() && ns[k] == x;
                if k < ns.len() - 1 {
                    assert(d[k] == x);
                }
            }
            if d.contains(x) {
                let k = choose|k: int| 0 <= k < d.len() && d[k] == x;
                assert(ns[k] == x);
            }
            if x == last {
                assert(ns[ns.len() - 1] == x);
            }
        }
        if !f.contains(last) {
            assert forall|x: Seq<char>| f.push(last).contains(x) <==> (f.contains(x) || x == last) by {
                if f.push(last).contains(x) {
                    let k = choose|k: int| 0 <= k < f.push(last).len() && f.push(last)[k] == x;
                    if k < f.len() {
                        assert(f[k] == x);
                    }
                }
                if f.contains(x) {
                    let k = choose|k: int| 0 <= k < f.len() && f[k] == x;
                    assert(f.push(last)[k] == x);
                }
                if x == last {
                    assert(f.push(last)[f.len() as int] == x);
                }
            }
        }
        assert(first_seen(ns) == (if f.contains(last) { f } else { f.push(last) }));
        assert forall|x: Seq<char>| ns.contains(x) <==> #[trigger] first_seen(ns).contains(x) by {
            assert(d.contains(x) <==> f.contains(x));
        }
    }
}

/// Meeting more names keeps the earlier first occurrences in front.
proof fn lemma_first_seen_prefix(ns: Seq<Seq<char>>, more: Seq<Seq<char>>)
    ensures
        first_seen(ns).len() <= first_seen(ns + more).len(),
        first_seen(ns) == first_seen(ns + more).take(first_seen(ns).len() as int),
    decreases more.len(),
{
    if more.len() == 0 {
        assert(ns + more =~= ns);
        assert(first_seen(ns).take(first_seen(ns).len() as int) =~= first_seen(ns));
    } else {
        lemma_first_seen_prefix(ns, more.drop_last());
        assert((ns + more).drop_last() =~= ns + more.drop_last());
        let f = first_seen(ns + more.drop_last());
        assert(first_seen(ns) =~= first_seen(ns + more).take(first_seen(ns).len() as int)) by {
            assert forall|k: int| 0 <= k < first_seen(ns).len() implies first_seen(ns + more)[k] == first_seen(ns)[k] by {
                assert(f[k] == first_seen(ns)[k]);
            }
        }
    }
}

impl<BM: BddManager> BuchiAutomata<BM> {
    /// The number of the state named `ident`, numbering a name met for the
    /// first time with the next number and adding that state.
    fn state_ident_get_id(&mut self, map: &mut Vec<String>, ident: &String) -> (r: usize)
        requires
            old(self).wf(),
            old(self).forward@.len() == old(map)@.len(),
            old(map)@.len() < usize::MAX,
        ensures
            final(self).wf(),
            final(self).forward@.len() == final(map)@.len(),
            string_views(final(map)@) == ({
                let m = string_views(old(map)@);
                if m.contains(ident@) {
                    m
                } else {
                    m.push(ident@)
                }
            }),
            r < final(map)@.len(),
            final(map)@[r as int]@ == ident@,
            forall|q: int| 0 <= q < old(self).forward@.len() ==> #[trigger] final(self).fwd()[q] == old(self).fwd()[q],
            forall|q: int| 0 <= q < old(self).forward@.len() ==> #[trigger] final(self).bwd()[q] == old(self).bwd()[q],
            forall|q: int|
                #![trigger final(self).fwd()[q]]
                old(self).forward@.len() <= q < final(self).forward@.len() ==> (final(self).fwd()[q].len() == 0
                    && final(self).bwd()[q].len() == 0),
            final(self).manager == old(self).manager,
            final(self).symbols == old(self).symbols,
            final(self).accepting_states == old(self).accepting_states,
            final(self).init_states == old(self).init_states,
    {
        let mut k: usize = 0;
        while k < map.len()
            invariant
                k <= map@.len(),
                forall|j: int| 0 <= j < k ==> (#[trigger] map@[j])@ != ident@,
                *old(self) == *self,
                *old(map) == *map,
                self.wf(),
                self.forward@.len() == map@.len(),
            decreases map@.len() - k,
        {
            if map[k] == *ident {
                proof {
                    let m = string_views(map@);
                    assert(m[k as int] == ident@);
                    assert(self.wf());
                    assert(self.forward@.len() == map@.len());
                }
                return k;
            }
            k = k + 1;
        }
        let id = self.num_state();
        let ghost m0 = string_views(map@);
        proof {
            assert(!m0.contains(ident@)) by {
                if m0.contains(ident@) {
                    let j = choose|j: int| 0 <= j < m0.len() && m0[j] == ident@;
                    assert(map@[j]@ == ident@);
                }
            }
        }
        map.push(ident.clone());
        assert(string_views(map@) =~= m0.push(ident@));
        self.extend_to(id);
        id
    }
}

/// The labels given for the edges of each state.
pub open spec fn label_sets<B: Bdd>(labels: Seq<Vec<B>>) -> Seq<Seq<Set<Seq<bool>>>> {
    labels.map_values(|v: Vec<B>| denotes(v@))
}

/// The names met up to edge `j` of state `i` come first among all names met.
proof fn lemma_met_prefix(sts: Seq<(Seq<char>, Seq<(Seq<char>, Seq<char>)>)>, i: int, j: int)
    requires
        0 <= i < sts.len(),
        0 <= j <= sts[i].1.len(),
    ensures
        met_upto(sts, i, j).len() <= met_names(sts).len(),
        met_upto(sts, i, j) == met_names(sts).take(met_upto(sts, i, j).len() as int),
    decreases sts.len(),
{
    if i == sts.len() - 1 {
        assert(sts.take(i) =~= sts.drop_last());
        let dests = sts[i].1.map_values(|e: (Seq<char>, Seq<char>)| e.1);
        assert(sts[i].1.take(j).map_values(|e: (Seq<char>, Seq<char>)| e.1) =~= dests.take(j));
        assert(met_upto(sts, i, j) =~= met_names(sts).take(met_upto(sts, i, j).len() as int));
    } else {
        lemma_met_prefix(sts.drop_last(), i, j);
        assert(sts.drop_last().take(i) =~= sts.take(i));
        assert(met_upto(sts.drop_last(), i, j) == met_upto(sts, i, j));
        assert(met_names(sts).take(met_names(sts.drop_last()).len() as int) =~= met_names(sts.drop_last()));
        assert(met_upto(sts, i, j) =~= met_names(sts).take(met_upto(sts, i, j).len() as int));
    }
}

proof fn lemma_first_seen_len(ns: Seq<Seq<char>>)
    ensures
        first_seen(ns).len() <= ns.len(),
    decreases ns.len(),
{
    if ns.len() > 0 {
        lemma_first_seen_len(ns.drop_last());
    }
}

/// The state numbering so far is a prefix of the final one.
proof fn lemma_numbering_prefix(sts: Seq<(Seq<char>, Seq<(Seq<char>, Seq<char>)>)>, i: int, j: int)
    requires
        0 <= i < sts.len(),
        0 <= j <= sts[i].1.len(),
    ensures
        first_seen(met_upto(sts, i, j)).len() <= first_seen(met_names(sts)).len(),
        first_seen(met_upto(sts, i, j)) == first_seen(met_names(sts)).take(
            first_seen(met_upto(sts, i, j)).len() as int,
        ),
        first_seen(met_upto(sts, i, j)).len() <= met_names(sts).len(),
{
    lemma_met_prefix(sts, i, j);
    let m = met_names(sts);
    let u = met_upto(sts, i, j);
    let more = m.skip(u.len() as int);
    assert(u + more =~= m);
    lemma_first_seen_prefix(u, more);
    lemma_first_seen_len(m);
}

/// Adding states without edges adds no edge.
proof fn lemma_edge_set_extend(
    before: Seq<Seq<(usize, Set<Seq<bool>>)>>,
    after: Seq<Seq<(usize, Set<Seq<bool>>)>>,
)
    requires
        before.len() <= after.len(),
        forall|q: int| 0 <= q < before.len() ==> #[trigger] after[q] == before[q],
        forall|q: int| before.len() <= q < after.len() ==> (#[trigger] after[q]).len() == 0,
    ensures
        edge_set(after) == edge_set(before),
{
    assert forall|e: (int, int, Set<Seq<bool>>)| edge_set(after).contains(e) implies edge_set(before).contains(e) by {
        let k = choose|k: int|
            0 <= e.0 < after.len() && 0 <= k < after[e.0].len() && #[trigger] after[e.0][k] == (e.1 as usize, e.2)
                && 0 <= e.1 <= usize::MAX;
        if e.0 >= before.len() {
            assert(after[e.0].len() == 0);
        }
        assert(before[e.0][k] == after[e.0][k]);
    }
    assert forall|e: (int, int, Set<Seq<bool>>)| edge_set(before).contains(e) implies edge_set(after).contains(e) by {
        let k = choose|k: int|
            0 <= e.0 < before.len() && 0 <= k < before[e.0].len() && #[trigger] before[e.0][k] == (e.1 as usize, e.2)
                && 0 <= e.1 <= usize::MAX;
        assert(after[e.0][k] == before[e.0][k]);
    }
    assert(edge_set(after) =~= edge_set(before));
}

/// Whether `cs` starts with `pre`.
fn starts_with(cs: &Vec<char>, pre: &Vec<char>) -> (r: bool)
    ensures
        r == crate::never::matches_at(cs@, 0, pre@),
{
    crate::never::matches_at_exec(cs, 0, pre)
}

/// The position of the name `x` in `names`.
pub open spec fn name_pos(names: Seq<Seq<char>>, x: Seq<char>) -> int {
    choose|k: int| 0 <= k < names.len() && #[trigger] names[k] == x
}

/// The first `j` edges of claim state `a`, each as the position of its
/// target in `names` and its label.
pub open spec fn claim_list(
    w: nat,
    sts: Seq<(Seq<char>, Seq<(Seq<char>, Seq<char>)>)>,
    labels: Seq<Seq<Set<Seq<bool>>>>,
    names: Seq<Seq<char>>,
    a: int,
    j: nat,
) -> Seq<(usize, Set<Seq<bool>>)> {
    Seq::new(j, |b: int| (name_pos(names, sts[a].1[b].1) as usize, claim_label(w, sts, labels, a, b)))
}

/// The edges out of the state named `x`: the edge lists of the claim states
/// below `i` that bear that name, in order.
pub open spec fn claim_out(
    w: nat,
    sts: Seq<(Seq<char>, Seq<(Seq<char>, Seq<char>)>)>,
    labels: Seq<Seq<Set<Seq<bool>>>>,
    names: Seq<Seq<char>>,
    x: Seq<char>,
    i: nat,
) -> Seq<(usize, Set<Seq<bool>>)>
    decreases i,
{
    if i == 0 {
        Seq::empty()
    } else {
        claim_out(w, sts, labels, names, x, (i - 1) as nat) + if sts[i - 1].0 == x {
            claim_list(w, sts, labels, names, i - 1, sts[i - 1].1.len())
        } else {
            Seq::empty()
        }
    }
}

/// The edges among the first `j` of claim state `a` that lead to the state
/// named `y`, each as the position of `a`'s name in `names` and its label.
pub open spec fn claim_in_state(
    w: nat,
    sts: Seq<(Seq<char>, Seq<(Seq<char>, Seq<char>)>)>,
    labels: Seq<Seq<Set<Seq<bool>>>>,
    names: Seq<Seq<char>>,
    y: Seq<char>,
    a: int,
    j: nat,
) -> Seq<(usize, Set<Seq<bool>>)>
    decreases j,
{
    if j == 0 {
        Seq::empty()
    } else {
        claim_in_state(w, sts, labels, names, y, a, (j - 1) as nat) + if sts[a].1[j - 1].1 == y {
            seq![(name_pos(names, sts[a].0) as usize, claim_label(w, sts, labels, a, j - 1))]
        } else {
            Seq::empty()
        }
    }
}

/// The edges into the state named `y` from the claim states below `i`, in
/// the order of the claim.
pub open spec fn claim_in(
    w: nat,
    sts: Seq<(Seq<char>, Seq<(Seq<char>, Seq<char>)>)>,
    labels: Seq<Seq<Set<Seq<bool>>>>,
    names: Seq<Seq<char>>,
    y: Seq<char>,
    i: nat,
) -> Seq<(usize, Set<Seq<bool>>)>
    decreases i,
{
    if i == 0 {
        Seq::empty()
    } else {
        claim_in(w, sts, labels, names, y, (i - 1) as nat) + claim_in_state(
            w,
            sts,
            labels,
            names,
            y,
            i - 1,
            sts[i - 1].1.len(),
        )
    }
}

/// In a sequence without repeats, the position of an element is where it
/// stands.
proof fn lemma_name_pos(names: Seq<Seq<char>>, k: int)
    requires
        names.no_duplicates(),
        0 <= k < names.len(),
    ensures
        name_pos(names, names[k]) == k,
{
    let p = name_pos(names, names[k]);
    assert(names[k] == names[k]);
    assert(0 <= p < names.len() && names[p] == names[k]);
}

/// Adding states with no edges leaves every edge list as it was.
proof fn lemma_edges_at_extend(before: Seq<Seq<(usize, Set<Seq<bool>>)>>, after: Seq<Seq<(usize, Set<Seq<bool>>)>>)
    requires
        before.len() <= after.len(),
        forall|q: int| 0 <= q < before.len() ==> #[trigger] after[q] == before[q],
        forall|q: int| before.len() <= q < after.len() ==> (#[trigger] after[q]).len() == 0,
    ensures
        forall|q: int| #[trigger] edges_at(after, q) == edges_at(before, q),
{
    assert forall|q: int| #[trigger] edges_at(after, q) == edges_at(before, q) by {
        if before.len() <= q < after.len() {
            assert(after[q] =~= Seq::<(usize, Set<Seq<bool>>)>::empty());
        }
    }
}

impl<BM: BddManager> BuchiAutomata<BM> {
    /// The automaton of the never claim `states`: its states numbered in
    /// the order their names are first met (each state's name, then the
    /// targets of its edges), an edge for each edge of the claim, labelled by
    /// `labels` (everything for the condition `(1)`), the states named
    /// `accept_...` accepting and those named `..._init` initial, the two
    /// tests made separately.
    #[verifier::spinoff_prover]
    #[verifier::rlimit(100)]
    pub fn from_claim(manager: BM, states: &Vec<crate::never::NeverState>, labels: &Vec<Vec<BM::Bdd>>) -> (r: Self)
        requires
            labels@.len() == states@.len(),
            forall|i: int| 0 <= i < states@.len() ==> (#[trigger] labels@[i])@.len() == states@[i].trans@.len(),
            met_names(crate::never::never_view(states@)).len() < usize::MAX,
        ensures
            ({
                let sts = crate::never::never_view(states@);
                let names = first_seen(met_names(sts));
                let acc = names_where(sts, accepting_pred());
                let ini = names_where(sts, init_pred());
                &&& r.wf()
                &&& r.manager == manager
                &&& r.symbols@.len() == 0
                &&& r.forward@.len() == names.len()
                &&& edge_set(r.fwd()) == claim_edges(bm_width::<BM>(), sts, label_sets(labels@), names, sts.len() as int, 0)
                &&& r.accepting_states@.len() == acc.len()
                &&& forall|k: int| 0 <= k < acc.len() ==> (#[trigger] r.accepting_states@[k]) < names.len() && names[r.accepting_states@[k] as int] == acc[k]
                &&& r.init_states@.len() == ini.len()
                &&& forall|k: int| 0 <= k < ini.len() ==> (#[trigger] r.init_states@[k]) < names.len() && names[r.init_states@[k] as int] == ini[k]
                &&& forall|k: int| #![trigger sts[k]] 0 <= k < sts.len() ==> ((exists|j: int| 0 <= j < r.init_states@.len() && names[#[trigger] r.init_states@[j] as int] == sts[k].0)
                    <==> (sts[k].0.len() >= 5 && sts[k].0.subrange(sts[k].0.len() - 5, sts[k].0.len() as int) == "_init"@))
                &&& forall|k: int| #![trigger sts[k]] 0 <= k < sts.len() ==> ((exists|j: int| 0 <= j < r.accepting_states@.len() && names[#[trigger] r.accepting_states@[j] as int] == sts[k].0)
                    <==> (sts[k].0.len() >= 7 && sts[k].0.subrange(0, 7) == "accept_"@))
            }),
            forall|q: int| 0 <= q < r.forward@.len() ==> #[trigger] r.fwd()[q] == claim_out(
                bm_width::<BM>(),
                crate::never::never_view(states@),
                label_sets(labels@),
                first_seen(met_names(crate::never::never_view(states@))),
                first_seen(met_names(crate::never::never_view(states@)))[q],
                states@.len(),
            ),
            forall|q: int| 0 <= q < r.forward@.len() ==> #[trigger] r.bwd()[q] == claim_in(
                bm_width::<BM>(),
                crate::never::never_view(states@),
                label_sets(labels@),
                first_seen(met_names(crate::never::never_view(states@))),
                first_seen(met_names(crate::never::never_view(states@)))[q],
                states@.len(),
            ),
    {
        let ghost w = bm_width::<BM>();
        let ghost sts = crate::never::never_view(states@);
        let ghost all = first_seen(met_names(sts));
        let ghost ls = label_sets(labels@);
        proof {
            lemma_first_seen_props(met_names(sts));
            lemma_first_seen_len(met_names(sts));
            reveal_strlit("accept_");
            reveal_strlit("_init");
        }
        let accept = chars_of("accept_");
        let init_suffix = chars_of("_init");
        let one = String::from_str("(1)");
        let mut ret = Self::new(manager);
        let mut names: Vec<String> = Vec::new();
        let mut i: usize = 0;
        proof {
            assert(sts.take(0) =~= Seq::<(Seq<char>, Seq<(Seq<char>, Seq<char>)>)>::empty());
            assert(string_views(names@) =~= first_seen(met_names(sts.take(0))));
            assert(edge_set(ret.fwd()) =~= claim_edges(w, sts, ls, all, 0, 0));
            assert forall|q: int| #![trigger edges_at(ret.fwd(), q)] #![trigger edges_at(ret.bwd(), q)] 0 <= q < all.len() implies edges_at(ret.fwd(), q) == claim_out(w, sts, ls, all, all[q], 0)
                && edges_at(ret.bwd(), q) == claim_in(w, sts, ls, all, all[q], 0) by {
            }
        }
        while i < states.len()
            invariant
                w == bm_width::<BM>(),
                sts == crate::never::never_view(states@),
                all == first_seen(met_names(sts)),
                all.no_duplicates(),
                ls == label_sets(labels@),
                labels@.len() == states@.len(),
                forall|i: int| 0 <= i < states@.len() ==> (#[trigger] labels@[i])@.len() == states@[i].trans@.len(),
                met_names(sts).len() < usize::MAX,
                all.len() <= met_names(sts).len(),
                accept@ == "accept_"@,
                init_suffix@ == "_init"@,
                one@ == "(1)"@,
                i <= states@.len(),
                ret.wf(),
                ret.manager == manager,
                ret.symbols@.len() == 0,
                ret.forward@.len() == names@.len(),
                string_views(names@) == first_seen(met_names(sts.take(i as int))),
                names@.len() <= all.len(),
                string_views(names@) == all.take(names@.len() as int),
                edge_set(ret.fwd()) == claim_edges(w, sts, ls, all, i as int, 0),
                ret.accepting_states@.len() == names_where(sts.take(i as int), accepting_pred()).len(),
                forall|k: int| 0 <= k < ret.accepting_states@.len() ==> (#[trigger] ret.accepting_states@[k]) < all.len() && all[ret.accepting_states@[k] as int] == names_where(sts.take(i as int), accepting_pred())[k],
                ret.init_states@.len() == names_where(sts.take(i as int), init_pred()).len(),
                forall|k: int| 0 <= k < ret.init_states@.len() ==> (#[trigger] ret.init_states@[k]) < all.len() && all[ret.init_states@[k] as int] == names_where(sts.take(i as int), init_pred())[k],
                forall|q: int| #![trigger edges_at(ret.fwd(), q)] #![trigger edges_at(ret.bwd(), q)] 0 <= q < all.len() ==> edges_at(ret.fwd(), q) == claim_out(w, sts, ls, all, all[q], i as nat)
                    && edges_at(ret.bwd(), q) == claim_in(w, sts, ls, all, all[q], i as nat),
            decreases states@.len() - i,
        {
            let st = &states[i];
            proof {
                lemma_numbering_prefix(sts, i as int, 0);
                assert(sts[i as int].1.take(0).map_values(|e: (Seq<char>, Seq<char>)| e.1) =~= Seq::<Seq<char>>::empty());
                assert(met_upto(sts, i as int, 0) =~= met_names(sts.take(i as int)).push(st.ident@));
                assert(met_upto(sts, i as int, 0).drop_last() =~= met_names(sts.take(i as int)));
                assert(met_upto(sts, i as int, 0).last() == st.ident@);
                lemma_first_seen_len(met_upto(sts, i as int, 0));
            }
            let ghost fa = ret.fwd();
            let ghost ba = ret.bwd();
            let sid = ret.state_ident_get_id(&mut names, &st.ident);
            proof {
                lemma_edge_set_extend(fa, ret.fwd());
                lemma_edges_at_extend(fa, ret.fwd());
                assert(ba.len() == fa.len());
                assert(ret.bwd().len() == ret.fwd().len());
                assert forall|q: int| ba.len() <= q < ret.bwd().len() implies (#[trigger] ret.bwd()[q]).len() == 0 by {
                    assert(ret.fwd()[q].len() == 0);
                }
                lemma_edges_at_extend(ba, ret.bwd());
                assert(string_views(names@) == first_seen(met_upto(sts, i as int, 0)));
                assert(all[sid as int] == st.ident@) by {
                    assert(string_views(names@)[sid as int] == st.ident@);
                }
                assert(sts.take(i + 1).drop_last() =~= sts.take(i as int));
                assert(sts.take(i + 1).last() == sts[i as int]);
                assert(sts[i as int].0 == st.ident@);
            }
            let cs = chars_of(st.ident.as_str());
            let ghost acc0 = ret.accepting_states@;
            let ghost nwa = names_where(sts.take(i as int), accepting_pred());
            let ghost nwi = names_where(sts.take(i as int), init_pred());
            proof {
                assert(cs@ == st.ident@);
                assert(names_where(sts.take(i + 1), accepting_pred()) == (if accepting_pred()(st.ident@) { nwa.push(st.ident@) } else { nwa }));
                assert(names_where(sts.take(i + 1), init_pred()) == (if init_pred()(st.ident@) { nwi.push(st.ident@) } else { nwi }));
            }
            let is_acc = starts_with(&cs, &accept);
            if is_acc {
                ret.add_accepting_state(sid);
            }
            proof {
                assert(is_acc == accepting_pred()(st.ident@));
                assert forall|k: int| 0 <= k < ret.accepting_states@.len() implies (#[trigger] ret.accepting_states@[k]) < all.len() && all[ret.accepting_states@[k] as int] == names_where(sts.take(i + 1), accepting_pred())[k] by {
                    if k < acc0.len() {
                        assert(ret.accepting_states@[k] == acc0[k]);
                    } else {
                        assert(ret.accepting_states@[k] == sid);
                    }
                }
            }
            let ghost ini0 = ret.init_states@;
            let is_ini = cs.len() >= 5 && crate::never::matches_at_exec(&cs, cs.len() - 5, &init_suffix);
            if is_ini {
                ret.add_init_state(sid);
            }
            proof {
                assert(is_ini == init_pred()(st.ident@));
                assert forall|k: int| 0 <= k < ret.init_states@.len() implies (#[trigger] ret.init_states@[k]) < all.len() && all[ret.init_states@[k] as int] == names_where(sts.take(i + 1), init_pred())[k] by {
                    if k < ini0.len() {
                        assert(ret.init_states@[k] == ini0[k]);
                    } else {
                        assert(ret.init_states@[k] == sid);
                    }
                }
                assert(claim_edges(w, sts, ls, all, i as int, 0) =~= claim_edges(w, sts, ls, all, i as int, 0));
                assert forall|q: int| #![trigger edges_at(ret.fwd(), q)] #![trigger edges_at(ret.bwd(), q)] 0 <= q < all.len() implies edges_at(ret.fwd(), q) == claim_out(w, sts, ls, all, all[q], i as nat) + (if sts[i as int].0 == all[q] {
                        claim_list(w, sts, ls, all, i as int, 0)
                    } else {
                        Seq::<(usize, Set<Seq<bool>>)>::empty()
                    }) && edges_at(ret.bwd(), q) == claim_in(w, sts, ls, all, all[q], i as nat) + claim_in_state(w, sts, ls, all, all[q], i as int, 0) by {
                    assert(edges_at(ret.fwd(), q) == edges_at(fa, q));
                    assert(edges_at(ret.bwd(), q) == edges_at(ba, q));
                    assert(edges_at(fa, q) == claim_out(w, sts, ls, all, all[q], i as nat));
                    assert(edges_at(ba, q) == claim_in(w, sts, ls, all, all[q], i as nat));
                    assert(claim_in_state(w, sts, ls, all, all[q], i as int, 0) =~= Seq::<(usize, Set<Seq<bool>>)>::empty());
                    assert(claim_list(w, sts, ls, all, i as int, 0) =~= Seq::<(usize, Set<Seq<bool>>)>::empty());
                    assert(claim_out(w, sts, ls, all, all[q], i as nat) + Seq::<(usize, Set<Seq<bool>>)>::empty() =~= claim_out(w, sts, ls, all, all[q], i as nat));
                    assert(claim_in(w, sts, ls, all, all[q], i as nat) + Seq::<(usize, Set<Seq<bool>>)>::empty() =~= claim_in(w, sts, ls, all, all[q], i as nat));
                }
            }
            let mut j: usize = 0;
            while j < st.trans.len()
                invariant
                    w == bm_width::<BM>(),
                    sts == crate::never::never_view(states@),
                    all == first_seen(met_names(sts)),
                    all.no_duplicates(),
                    ls == label_sets(labels@),
                    labels@.len() == states@.len(),
                    forall|i: int| 0 <= i < states@.len() ==> (#[trigger] labels@[i])@.len() == states@[i].trans@.len(),
                    met_names(sts).len() < usize::MAX,
                    all.len() <= met_names(sts).len(),
                    one@ == "(1)"@,
                    i < states@.len(),
                    st == &states@[i as int],
                    sid < all.len(),
                    all[sid as int] == sts[i as int].0,
                    j <= st.trans@.len(),
                    ret.wf(),
                    ret.manager == manager,
                    ret.symbols@.len() == 0,
                    ret.forward@.len() == names@.len(),
                    sid < names@.len(),
                    string_views(names@) == first_seen(met_upto(sts, i as int, j as int)),
                    names@.len() <= all.len(),
                    string_views(names@) == all.take(names@.len() as int),
                    edge_set(ret.fwd()) == claim_edges(w, sts, ls, all, i as int, j as int),
                    ret.accepting_states@.len() == names_where(sts.take(i + 1), accepting_pred()).len(),
                    forall|k: int| 0 <= k < ret.accepting_states@.len() ==> (#[trigger] ret.accepting_states@[k]) < all.len() && all[ret.accepting_states@[k] as int] == names_where(sts.take(i + 1), accepting_pred())[k],
                    ret.init_states@.len() == names_where(sts.take(i + 1), init_pred()).len(),
                    forall|k: int| 0 <= k < ret.init_states@.len() ==> (#[trigger] ret.init_states@[k]) < all.len() && all[ret.init_states@[k] as int] == names_where(sts.take(i + 1), init_pred())[k],
                    forall|q: int| #![trigger edges_at(ret.fwd(), q)] #![trigger edges_at(ret.bwd(), q)] 0 <= q < all.len() ==> edges_at(ret.fwd(), q) == claim_out(w, sts, ls, all, all[q], i as nat) + (if sts[i as int].0 == all[q] {
                            claim_list(w, sts, ls, all, i as int, j as nat)
                        } else {
                            Seq::<(usize, Set<Seq<bool>>)>::empty()
                        }) && edges_at(ret.bwd(), q) == claim_in(w, sts, ls, all, all[q], i as nat) + claim_in_state(w, sts, ls, all, all[q], i as int, j as nat),
                decreases st.trans@.len() - j,
            {
                let dest = &st.trans[j].1;
                proof {
                    lemma_numbering_prefix(sts, i as int, j as int);
                    lemma_numbering_prefix(sts, i as int, j + 1);
                    lemma_first_seen_len(met_upto(sts, i as int, j as int));
                    assert(sts[i as int].1.take(j + 1).map_values(|e: (Seq<char>, Seq<char>)| e.1) =~= sts[i as int].1.take(j as int).map_values(|e: (Seq<char>, Seq<char>)| e.1).push(dest@));
                    assert(met_upto(sts, i as int, j + 1) =~= met_upto(sts, i as int, j as int).push(dest@));
                    assert(met_upto(sts, i as int, j + 1).drop_last() =~= met_upto(sts, i as int, j as int));
                    assert(met_upto(sts, i as int, j + 1).last() == dest@);
                }
                let ghost fb = ret.fwd();
                let ghost bb = ret.bwd();
                let did = ret.state_ident_get_id(&mut names, dest);
                proof {
                    lemma_edge_set_extend(fb, ret.fwd());
                    lemma_edges_at_extend(fb, ret.fwd());
                    assert(bb.len() == fb.len());
                    assert(ret.bwd().len() == ret.fwd().len());
                    assert forall|q: int| bb.len() <= q < ret.bwd().len() implies (#[trigger] ret.bwd()[q]).len() == 0 by {
                        assert(ret.fwd()[q].len() == 0);
                    }
                    lemma_edges_at_extend(bb, ret.bwd());
                    assert(string_views(names@) == first_seen(met_upto(sts, i as int, j + 1)));
                    assert(all[did as int] == dest@) by {
                        assert(string_views(names@)[did as int] == dest@);
                    }
                }
                let label = if st.trans[j].0 == one {
                    ret.manager.constant(true)
                } else {
                    labels[i][j].duplicate()
                };
                let ghost l = label.denote();
                proof {
                    assert(l == claim_label(w, sts, ls, i as int, j as int));
                }
                let ghost f0 = ret.fwd();
                let ghost b0 = ret.bwd();
                ret.add_edge(sid, did, label);
                proof {
                    lemma_add_edge_set(f0, ret.forward@.len(), sid, did, l, ret.fwd());
                    lemma_add_edge_lists(f0, sid, did, l, ret.fwd());
                    assert(b0.len() == f0.len());
                    assert(states_after(b0.len(), did, sid) == states_after(f0.len(), sid, did));
                    lemma_add_edge_lists(b0, did, sid, l, ret.bwd());
                    lemma_name_pos(all, did as int);
                    lemma_name_pos(all, sid as int);
                    assert(dest@ == sts[i as int].1[j as int].1);
                    assert(claim_list(w, sts, ls, all, i as int, (j + 1) as nat) =~= claim_list(w, sts, ls, all, i as int, j as nat).push((did, l)));
                    assert forall|q: int| #![trigger edges_at(ret.fwd(), q)] #![trigger edges_at(ret.bwd(), q)] 0 <= q < all.len() implies edges_at(ret.fwd(), q) == claim_out(w, sts, ls, all, all[q], i as nat) + (if sts[i as int].0 == all[q] {
                            claim_list(w, sts, ls, all, i as int, (j + 1) as nat)
                        } else {
                            Seq::<(usize, Set<Seq<bool>>)>::empty()
                        }) && edges_at(ret.bwd(), q) == claim_in(w, sts, ls, all, all[q], i as nat) + claim_in_state(w, sts, ls, all, all[q], i as int, (j + 1) as nat) by {
                        assert(edges_at(f0, q) == edges_at(f0, q));
                        assert(edges_at(b0, q) == edges_at(b0, q));
                        if q == sid as int {
                            assert(claim_out(w, sts, ls, all, all[q], i as nat) + claim_list(w, sts, ls, all, i as int, (j + 1) as nat) =~= (claim_out(w, sts, ls, all, all[q], i as nat) + claim_list(w, sts, ls, all, i as int, j as nat)).push((did, l)));
                        } else {
                            assert(all[q] != all[sid as int]);
                        }
                        if q == did as int {
                            assert(claim_in_state(w, sts, ls, all, all[q], i as int, (j + 1) as nat) =~= claim_in_state(w, sts, ls, all, all[q], i as int, j as nat).push((sid, l)));
                            assert(claim_in(w, sts, ls, all, all[q], i as nat) + claim_in_state(w, sts, ls, all, all[q], i as int, (j + 1) as nat) =~= (claim_in(w, sts, ls, all, all[q], i as nat) + claim_in_state(w, sts, ls, all, all[q], i as int, j as nat)).push((sid, l)));
                        } else {
                            assert(all[q] != all[did as int]);
                            assert(claim_in_state(w, sts, ls, all, all[q], i as int, (j + 1) as nat) =~= claim_in_state(w, sts, ls, all, all[q], i as int, j as nat));
                        }
                    }
                    let ce = claim_edges(w, sts, ls, all, i as int, j + 1);
                    let x = (sid as int, did as int, l);
                    assert(ce =~= claim_edges(w, sts, ls, all, i as int, j as int).insert(x)) by {
                        assert forall|e: (int, int, Set<Seq<bool>>)| ce.contains(e) implies claim_edges(w, sts, ls, all, i as int, j as int).insert(x).contains(e) by {
                            let (a, b) = choose|a: int, b: int|
                                #![trigger claim_label(w, sts, ls, a, b)]
                                0 <= a < sts.len() && 0 <= b < sts[a].1.len() && (a < i || (a == i && b < j + 1))
                                    && 0 <= e.0 < all.len() && 0 <= e.1 < all.len() && all[e.0] == sts[a].0
                                    && all[e.1] == sts[a].1[b].1 && e.2 == claim_label(w, sts, ls, a, b);
                            if a == i && b == j {
                                assert(e.0 == sid);
                                assert(e.1 == did);
                            }
                        }
                        assert(ce.contains(x)) by {
                            assert(claim_label(w, sts, ls, i as int, j as int) == l);
                        }
                    }
                }
                j = j + 1;
            }
            proof {
                assert(sts[i as int].1.take(j as int) =~= sts[i as int].1);
                assert(met_upto(sts, i as int, j as int) =~= met_names(sts.take(i + 1)));
                assert(claim_edges(w, sts, ls, all, i as int, j as int) =~= claim_edges(w, sts, ls, all, i + 1, 0));
                assert forall|q: int| #![trigger edges_at(ret.fwd(), q)] #![trigger edges_at(ret.bwd(), q)] 0 <= q < all.len() implies edges_at(ret.fwd(), q) == claim_out(w, sts, ls, all, all[q], (i + 1) as nat)
                    && edges_at(ret.bwd(), q) == claim_in(w, sts, ls, all, all[q], (i + 1) as nat) by {
                    assert(j == sts[i as int].1.len());
                    assert(claim_out(w, sts, ls, all, all[q], (i + 1) as nat) == claim_out(w, sts, ls, all, all[q], i as nat) + (if sts[i as int].0 == all[q] {
                            claim_list(w, sts, ls, all, i as int, sts[i as int].1.len())
                        } else {
                            Seq::<(usize, Set<Seq<bool>>)>::empty()
                        }));
                    assert(claim_in(w, sts, ls, all, all[q], (i + 1) as nat) == claim_in(w, sts, ls, all, all[q], i as nat) + claim_in_state(w, sts, ls, all, all[q], i as int, sts[i as int].1.len()));
                }
            }
            i = i + 1;
        }
        proof {
            assert(sts.take(i as int) =~= sts);
            assert(string_views(names@).len() == names@.len());
            assert(ret.bwd().len() == ret.fwd().len());
            assert forall|q: int| #![trigger ret.fwd()[q]] #![trigger ret.bwd()[q]] 0 <= q < ret.forward@.len() implies ret.fwd()[q] == claim_out(w, sts, ls, all, all[q], states@.len())
                && ret.bwd()[q] == claim_in(w, sts, ls, all, all[q], states@.len()) by {
                assert(edges_at(ret.fwd(), q) == ret.fwd()[q]);
                assert(edges_at(ret.bwd(), q) == ret.bwd()[q]);
            }
            let ini = names_where(sts, init_pred());
            let acc = names_where(sts, accepting_pred());
            assert forall|k: int| #![trigger sts[k]] 0 <= k < sts.len() implies ((exists|j: int| 0 <= j < ret.init_states@.len() && all[#[trigger] ret.init_states@[j] as int] == sts[k].0)
                <==> (sts[k].0.len() >= 5 && sts[k].0.subrange(sts[k].0.len() - 5, sts[k].0.len() as int) == "_init"@)) by {
                lemma_claim_state_roles(sts, k);
                if ini.contains(sts[k].0) {
                    let j = choose|j: int| 0 <= j < ini.len() && ini[j] == sts[k].0;
                    assert(all[ret.init_states@[j] as int] == ini[j]);
                }
                if exists|j: int| 0 <= j < ret.init_states@.len() && all[#[trigger] ret.init_states@[j] as int] == sts[k].0 {
                    let j = choose|j: int| 0 <= j < ret.init_states@.len() && all[#[trigger] ret.init_states@[j] as int] == sts[k].0;
                    assert(ini[j] == sts[k].0);
                }
            }
            assert forall|k: int| #![trigger sts[k]] 0 <= k < sts.len() implies ((exists|j: int| 0 <= j < ret.accepting_states@.len() && all[#[trigger] ret.accepting_states@[j] as int] == sts[k].0)
                <==> (sts[k].0.len() >= 7 && sts[k].0.subrange(0, 7) == "accept_"@)) by {
                lemma_claim_state_roles(sts, k);
                if acc.contains(sts[k].0) {
                    let j = choose|j: int| 0 <= j < acc.len() && acc[j] == sts[k].0;
                    assert(all[ret.accepting_states@[j] as int] == acc[j]);
                }
                if exists|j: int| 0 <= j < ret.accepting_states@.len() && all[#[trigger] ret.accepting_states@[j] as int] == sts[k].0 {
                    let j = choose|j: int| 0 <= j < ret.accepting_states@.len() && all[#[trigger] ret.accepting_states@[j] as int] == sts[k].0;
                    assert(acc[j] == sts[k].0);
                }
            }
        }
        ret
    }
}

/// The edges out of state `q` of a well-formed automaton lead to states.
pub proof fn lemma_mirrored_targets<BM: BddManager>(a: &BuchiAutomata<BM>, q: int)
    requires
        a.wf(),
        0 <= q < a.forward@.len(),
    ensures
        forall|k: int| 0 <= k < a.forward@[q]@.len() ==> (#[trigger] a.forward@[q]@[k]).0 < a.forward@.len(),
{
    assert forall|k: int| 0 <= k < a.forward@[q]@.len() implies (#[trigger] a.forward@[q]@[k]).0 < a.forward@.len() by {
        assert(a.fwd()[q][k] == (a.forward@[q]@[k].0, a.forward@[q]@[k].1.denote()));
    }
}

} // verus!
