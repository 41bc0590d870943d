use ppsmc::async_worker::{AsyncWorker, SyncAction};
use ppsmc::automata::BuchiAutomata;
use ppsmc::bdd::{Bdd, BddManager, Valuations, VarCount};
use ppsmc::fsm::FsmBdd;
use ppsmc::never::parse_never_claim;
use ppsmc::product::{accepting_disjoint, check, fair_states, initial_reach, post_reachable, pre_reachable, propagate_value, worker_messages, worker_post_update, worker_pre_update};
use ppsmc::smv::Smv;
use ppsmc::smvbdd::{expr_to_bdd, SmvBdd};
use ppsmc::trans::{Trans, TransBddMethod};

// A truth-table BDD package over a fixed number of variables: each function
// is the table of its values on all valuations, valuation `a` giving
// variable `i` the value of bit `i` of `a`.
const W: usize = 8;
const N: usize = 1 << W;

#[derive(Debug, PartialEq)]
struct Table {
    v: Vec<bool>,
}

fn bit(a: usize, i: usize) -> bool {
    (a >> i) & 1 == 1
}

fn with_bit(a: usize, i: usize, b: bool) -> usize {
    if b {
        a | (1 << i)
    } else {
        a & !(1 << i)
    }
}

fn shift_up(a: usize) -> usize {
    let mut r = a;
    let mut i = 0;
    while i + 1 < W {
        r = with_bit(r, i, bit(a, i + 1));
        i += 2;
    }
    r
}

fn shift_down(a: usize) -> usize {
    let mut r = a;
    let mut i = 1;
    while i < W {
        r = with_bit(r, i, bit(a, i - 1));
        i += 2;
    }
    r
}

fn join(c: usize, n: usize) -> usize {
    let mut r = 0;
    for i in 0..W {
        let b = if i % 2 == 0 { bit(c, i) } else { bit(n, i - 1) };
        r = with_bit(r, i, b);
    }
    r
}

fn table(f: impl Fn(usize) -> bool) -> Table {
    Table { v: (0..N).map(f).collect() }
}

fn depends(t: &Table, var: usize) -> bool {
    (0..N).any(|a| t.v[a] != t.v[a ^ (1 << var)])
}

// The specification items of the interface (`width`, `denote`,
// `nodes` and the lemmas) serve the verifier alone and are never called
// at run time.
impl Bdd for Table {
    fn width() -> VarCount {
        unreachable!()
    }
    fn denote(&self) -> Valuations {
        unreachable!()
    }
    fn lemma_width() {}
    fn lemma_wf(&self) {}
    fn nodes(_f: Valuations) -> VarCount {
        unreachable!()
    }
    fn duplicate(&self) -> Self {
        Table { v: self.v.clone() }
    }
    fn and(&self, other: &Self) -> Self {
        table(|a| self.v[a] && other.v[a])
    }
    fn or(&self, other: &Self) -> Self {
        table(|a| self.v[a] || other.v[a])
    }
    fn xor(&self, other: &Self) -> Self {
        table(|a| self.v[a] != other.v[a])
    }
    fn not(&self) -> Self {
        table(|a| !self.v[a])
    }
    fn equals(&self, other: &Self) -> bool {
        self.v == other.v
    }
    fn size(&self) -> usize {
        self.v.iter().filter(|b| **b).count()
    }
    fn is_constant(&self, val: bool) -> bool {
        self.v.iter().all(|b| *b == val)
    }
    fn if_then_else(&self, t: &Self, e: &Self) -> Self {
        table(|a| if self.v[a] { t.v[a] } else { e.v[a] })
    }
    fn and_abstract(&self, f: &Self, vars: &Vec<usize>) -> Self {
        let mut mask = 0;
        for v in vars {
            mask |= 1 << *v;
        }
        table(|x| (0..N).any(|y| (x & !mask) == (y & !mask) && self.v[y] && f.v[y]))
    }
    fn previous_state(&self) -> Self {
        table(|a| self.v[shift_down(a)])
    }
    fn next_state(&self) -> Self {
        table(|a| self.v[shift_up(a)])
    }
    fn pre_image(&self, trans: &Self) -> Self {
        table(|x| (0..N).any(|y| self.v[y] && trans.v[join(x, y)]))
    }
    fn post_image(&self, trans: &Self) -> Self {
        table(|x| (0..N).any(|y| self.v[y] && trans.v[join(y, x)]))
    }
    fn support(&self) -> Self {
        let vars = self.support_index();
        table(|a| vars.iter().all(|v| bit(a, *v)))
    }
    fn support_index(&self) -> Vec<usize> {
        (0..W).filter(|v| depends(self, *v)).collect()
    }
}

#[derive(Debug, PartialEq)]
struct Tables;

impl BddManager for Tables {
    type Bdd = Table;
    fn new() -> Self {
        Tables
    }
    fn new_with_capacity(_capacity: usize) -> Self {
        Tables
    }
    fn duplicate(&self) -> Self {
        Tables
    }
    fn constant(&self, val: bool) -> Table {
        table(|_| val)
    }
    fn ith_var(&self, var: usize) -> Table {
        table(|a| bit(a, var))
    }
    fn num_var(&self) -> usize {
        W
    }
    fn translocate(&self, bdd: &Table) -> Table {
        bdd.duplicate()
    }
}

fn var(i: usize) -> Table {
    Tables.ith_var(i)
}

fn tt() -> Table {
    Tables.constant(true)
}

fn ff() -> Table {
    Tables.constant(false)
}

// `a` toggles at every step and `b` keeps its value; both start false.
const TOGGLE: &str = "MODULE main
VAR
  a : boolean;
  b : boolean;
INIT
  !a & !b
TRANS
  next(a) <-> !a
TRANS
  next(b) <-> b
FAIRNESS
  b
";

fn toggle_fsm(method: TransBddMethod) -> FsmBdd<Tables> {
    let smv = Smv::parse(TOGGLE).unwrap();
    let sb = SmvBdd::new(&Tables, &smv);
    sb.to_fsmbdd(method).unwrap()
}

fn claim_automaton(claim: &str, labels: Vec<Vec<Table>>) -> BuchiAutomata<Tables> {
    let states = parse_never_claim(claim).unwrap();
    let mut ba = BuchiAutomata::from_claim(Tables, &states, &labels);
    ba.symbols = vec![("a".to_string(), 0), ("b".to_string(), 2)];
    ba
}

// !(G F a): eventually `a` stays false
const NOT_GF_A: &str = "never {
T0_init:
  if
  :: (1) -> goto T0_init
  :: (!a) -> goto accept_S1
  fi;
accept_S1:
  if
  :: (!a) -> goto accept_S1
  fi;
}
";

// !(G a): eventually `a` is false
const NOT_G_A: &str = "never {
T0_init:
  if
  :: (1) -> goto T0_init
  :: (!a) -> goto accept_all
  fi;
accept_all:
  skip
}
";

fn not_gf_a() -> BuchiAutomata<Tables> {
    claim_automaton(NOT_GF_A, vec![vec![tt(), var(0).not()], vec![var(0).not()]])
}

fn not_g_a() -> BuchiAutomata<Tables> {
    claim_automaton(NOT_G_A, vec![vec![tt(), var(0).not()], vec![tt()]])
}

#[test]
fn bdd_images_of_one_step() {
    // the relation of a step from `a & b` to `!a & !b`
    let a = var(0);
    let ap = var(1);
    let b = var(2);
    let bp = var(3);
    let t = a.and(&b).and(&ap.not()).and(&bp.not());
    for method in [TransBddMethod::Monolithic, TransBddMethod::Partition] {
        let trans = Trans::new(&Tables, vec![t.duplicate()], method).unwrap();
        assert!(trans.post_image(&a.and(&b)).equals(&a.not().and(&b.not())));
        assert!(trans.pre_image(&a.not().and(&b.not())).equals(&a.and(&b)));
        assert!(trans.pre_image(&a.not().and(&b)).is_constant(false));
    }
}

#[test]
fn partitioned_relation_gives_same_images() {
    let a = var(0);
    let ap = var(1);
    let b = var(2);
    let bp = var(3);
    // `a` toggles, `b` is copied into nothing: two parts
    let t1 = ap.xor(&a).not().not();
    let t2 = bp.xor(&b).not();
    let mono = Trans::new(&Tables, vec![t1.duplicate(), t2.duplicate()], TransBddMethod::Monolithic).unwrap();
    let part = Trans::new(&Tables, vec![t1.duplicate(), t2.duplicate()], TransBddMethod::Partition).unwrap();
    assert_eq!(mono.trans.len(), 1);
    let s = a.not().and(&b);
    assert!(mono.post_image(&s).equals(&part.post_image(&s)));
    assert!(mono.post_image(&s).equals(&a.and(&b)));
    assert!(mono.pre_image(&s).equals(&part.pre_image(&s)));
    assert!(mono.pre_image(&s).equals(&a.and(&b)));
}

#[test]
fn smv_model_to_state_machine() {
    let smv = Smv::parse(TOGGLE).unwrap();
    let sb = SmvBdd::new(&Tables, &smv);
    assert_eq!(sb.symbols, vec![("a".to_string(), 0), ("b".to_string(), 2)]);
    assert!(sb.init.equals(&var(0).not().and(&var(2).not())));
    assert_eq!(sb.trans.len(), 2);
    assert!(sb.trans[0].equals(&var(1).xor(&var(0).not()).not()));
    assert!(sb.invariants.is_constant(true));
    assert_eq!(sb.justice.len(), 1);
    assert!(sb.justice[0].equals(&var(2)));
    let fsm = sb.to_fsmbdd(TransBddMethod::Monolithic).unwrap();
    assert_eq!(fsm.trans.trans.len(), 1);
    assert!(fsm.init.equals(&sb.init));
}

#[test]
fn expr_to_bdd_of_next() {
    let smv = Smv::parse(TOGGLE).unwrap();
    let sb = SmvBdd::new(&Tables, &smv);
    let e = smv.trans[1].clone();
    let mut cache = Vec::new();
    let t = expr_to_bdd(&Tables, &sb.symbols, &smv.defines, &mut cache, &e);
    assert!(t.equals(&var(3).xor(&var(2)).not()));
}

#[test]
fn fsm_reachable_states() {
    for method in [TransBddMethod::Monolithic, TransBddMethod::Partition] {
        let fsm = toggle_fsm(method);
        // forwards from the initial states: `b` stays false
        assert!(fsm.reachable_from_init().equals(&var(2).not()));
        // backwards from `a & !b`, in one or more steps
        let target = var(0).and(&var(2).not());
        assert!(fsm.reachable(&target, false, false).equals(&var(2).not()));
        // one step from the initial states
        assert!(fsm.post_image(&fsm.init).equals(&var(0).and(&var(2).not())));
        assert!(fsm.pre_image(&fsm.init).equals(&var(0).and(&var(2).not())));
    }
}

#[test]
fn fsm_reachable_with_constraint() {
    let fsm = toggle_fsm(TransBddMethod::Monolithic);
    // within `!a` nothing is reached in a step from `!a`
    let c = var(0).not();
    assert!(fsm.reachable_with_constrain(&c, true, false, &c).is_constant(false));
    assert!(fsm.reachable_with_constrain(&c, true, true, &c).equals(&c));
}

#[test]
fn fsm_fair_cycle() {
    let fsm = toggle_fsm(TransBddMethod::Monolithic);
    // the fair states visit `b` infinitely often: those where `b` holds
    assert!(fsm.fair_cycle().equals(&var(2)));
    // within the reachable states there is none
    let reach = fsm.reachable_from_init();
    assert!(fsm.fair_cycle_with_constrain(&reach).is_constant(false));
}

#[test]
fn fsm_product_and_clone() {
    let fsm = toggle_fsm(TransBddMethod::Monolithic);
    let other = toggle_fsm(TransBddMethod::Partition);
    let p = fsm.product(&other);
    assert!(p.init.equals(&fsm.init));
    assert_eq!(p.justice.len(), 2);
    assert!(p.reachable_from_init().equals(&var(2).not()));
    let c = fsm.clone_with_new_manager();
    assert!(c.fair_cycle().equals(&var(2)));
    assert_eq!(c.symbols, fsm.symbols);
}

#[test]
fn automaton_from_never_claim() {
    let ba = not_gf_a();
    assert_eq!(ba.num_state(), 2);
    assert_eq!(ba.init_states, vec![0]);
    assert_eq!(ba.accepting_states, vec![1]);
    assert_eq!(ba.forward[0].len(), 2);
    assert_eq!(ba.forward[0][1].0, 1);
    assert!(ba.forward[0][1].1.equals(&var(0).not()));
    assert_eq!(ba.backward[1].len(), 2);
    let ba = not_g_a();
    assert_eq!(ba.forward[1].len(), 1);
    assert_eq!(ba.forward[1][0].0, 1);
    assert!(ba.forward[1][0].1.is_constant(true));
}

#[test]
fn automaton_to_state_machine() {
    let ba = not_gf_a();
    let fsm = ba.to_fsmbdd();
    // one encoding variable after the two symbols: BDD variable 4
    assert_eq!(
        fsm.symbols,
        vec![("a".to_string(), 0), ("b".to_string(), 2), ("automata0".to_string(), 4)]
    );
    assert!(fsm.init.equals(&var(4).not()));
    assert_eq!(fsm.justice.len(), 1);
    assert!(fsm.justice[0].equals(&var(4)));
    assert!(fsm.invariants.is_constant(true));
    // from state 0 with `a`, only state 0 follows
    let from = var(4).not().and(&var(0));
    assert!(fsm.post_image(&from).equals(&var(4).not()));
}

#[test]
fn automaton_partition_tracks_variable() {
    let ba = not_g_a().partition(1);
    assert_eq!(ba.num_state(), 4);
    assert_eq!(ba.init_states, vec![0, 2]);
    assert_eq!(ba.accepting_states, vec![1, 3]);
    // the edge 0 -> 0 under TRUE splits by `b`
    assert_eq!(ba.forward[0].len(), 4);
    assert!(ba.forward[0][0].1.equals(&var(2).not()));
    assert_eq!(ba.forward[0][1].0, 2);
    assert!(ba.forward[0][1].1.equals(&var(2)));
}

#[test]
fn property_driven_check_holds() {
    let fsm = toggle_fsm(TransBddMethod::Monolithic);
    let mut fsm = fsm;
    fsm.justice.clear();
    assert!(check(&not_gf_a(), &fsm));
}

#[test]
fn property_driven_check_fails() {
    let mut fsm = toggle_fsm(TransBddMethod::Monolithic);
    fsm.justice.clear();
    assert!(!check(&not_g_a(), &fsm));
    let split = not_g_a().partition(1);
    assert!(!check(&split, &fsm));
}

#[test]
fn traditional_check_agrees() {
    let mut fsm = toggle_fsm(TransBddMethod::Partition);
    fsm.justice.clear();
    assert!(ppsmc::traditional::check(&fsm, &not_gf_a().to_fsmbdd()));
    assert!(!ppsmc::traditional::check(&fsm, &not_g_a().to_fsmbdd()));
}

#[test]
fn product_reachable_sets() {
    let mut fsm = toggle_fsm(TransBddMethod::Monolithic);
    fsm.justice.clear();
    let ba = not_gf_a();
    let from = vec![fsm.init.duplicate(), ff()];
    let reach = post_reachable(&ba, &fsm, &from);
    // automaton state 0 sees every reachable state; state 1 is entered
    // reading `!a`, and the machine then steps to `a`
    assert!(reach[0].equals(&var(2).not()));
    assert!(reach[1].equals(&var(0).and(&var(2).not())));
    // nothing steps into state 1 with `!a`: the edges into it read `!a`,
    // and the machine then makes `a` true
    let back = pre_reachable(&ba, &fsm, &vec![ff(), var(0).not()], &vec![tt(), tt()]);
    assert_eq!(back.len(), 2);
    assert!(back[0].is_constant(false));
    assert!(back[1].is_constant(false));
    // into state 1 with `a`: from state 0 or 1 with `!a`, and, one step
    // earlier, from state 0 with `a`
    let back = pre_reachable(&ba, &fsm, &vec![ff(), var(0)], &vec![tt(), tt()]);
    assert!(back[0].is_constant(true));
    assert!(back[1].equals(&var(0).not()));
}

#[test]
fn product_fair_states() {
    let mut fsm = toggle_fsm(TransBddMethod::Monolithic);
    fsm.justice.clear();
    let ba = not_g_a();
    let reach = post_reachable(&ba, &fsm, &vec![fsm.init.duplicate(), ff()]);
    assert!(reach[1].equals(&var(2).not()));
    let fair = fair_states(&ba, &fsm, &reach);
    assert_eq!(fair.len(), 2);
    assert!(fair[1].equals(&var(2).not()));
}

#[test]
fn propagate_value_moves_along_edges() {
    let edges = vec![(0, var(0)), (1, tt())];
    let data = vec![var(2), var(2).not()];
    let (reach, fresh) = propagate_value(&edges, ff(), &data, &tt());
    let expected = var(0).and(&var(2)).or(&var(2).not());
    assert!(fresh.equals(&expected));
    assert!(reach.equals(&expected));
    let (reach2, fresh2) = propagate_value(&edges, reach, &data, &var(4));
    assert!(fresh2.is_constant(false));
    assert!(reach2.equals(&expected));
}

#[test]
fn worker_messages_skip_empty() {
    let edges = vec![(3, var(0)), (5, var(0).not()), (7, var(2))];
    let msgs = worker_messages(&edges, &var(0));
    assert_eq!(msgs.len(), 2);
    assert_eq!(msgs[0].0, 3);
    assert!(msgs[0].1.equals(&var(0)));
    assert_eq!(msgs[1].0, 7);
    assert!(msgs[1].1.equals(&var(0).and(&var(2))));
    assert!(worker_messages(&edges, &ff()).is_empty());
}

#[test]
fn worker_updates() {
    let fsm = toggle_fsm(TransBddMethod::Monolithic);
    let init = fsm.init.duplicate();
    let (reach, fresh) = worker_post_update(&fsm, init.duplicate(), init.duplicate());
    assert!(fresh.equals(&var(0).and(&var(2).not())));
    assert!(reach.equals(&var(2).not()));
    let (reach, fresh) = worker_pre_update(&fsm, ff(), var(0), &var(2).not());
    assert!(reach.equals(&var(0).and(&var(2).not())));
    assert!(fresh.equals(&var(0).not().and(&var(2).not())));
}

#[test]
fn async_worker_last_arrival_releases() {
    let mut w = AsyncWorker::new(3);
    assert_eq!(w.sync(), SyncAction::Wait);
    assert_eq!(w.sync(), SyncAction::Wait);
    assert_eq!(w.sync(), SyncAction::NotifyAll);
    assert_eq!(w.remaining, 0);
}

#[test]
fn initial_reach_at_initial_states() {
    let fsm = toggle_fsm(TransBddMethod::Monolithic);
    let ba = not_g_a().partition(1);
    let reach = initial_reach(&ba, &fsm);
    assert_eq!(reach.len(), 4);
    assert!(reach[0].equals(&fsm.init));
    assert!(reach[1].is_constant(false));
    assert!(reach[2].equals(&fsm.init));
    assert!(reach[3].is_constant(false));
}

#[test]
fn accepting_disjoint_finds_overlap() {
    let reach = vec![tt(), var(0), var(2)];
    let fair = vec![tt(), var(0).not(), var(2)];
    assert!(accepting_disjoint(&vec![1], &reach, &fair));
    assert!(!accepting_disjoint(&vec![1, 2], &reach, &fair));
    assert!(!accepting_disjoint(&vec![0], &reach, &fair));
    assert!(accepting_disjoint(&vec![], &reach, &fair));
}

#[test]
fn split_automaton_keeps_verdict() {
    let mut fsm = toggle_fsm(TransBddMethod::Monolithic);
    fsm.justice.clear();
    for var in [0, 1] {
        assert_eq!(check(&not_gf_a().partition(var), &fsm), check(&not_gf_a(), &fsm));
        assert_eq!(check(&not_g_a().partition(var), &fsm), check(&not_g_a(), &fsm));
    }
    assert!(check(&not_gf_a().partition(0).partition(1), &fsm));
}

#[test]
fn both_checks_agree_on_each_property() {
    let mut fsm = toggle_fsm(TransBddMethod::Monolithic);
    fsm.justice.clear();
    for ba in [not_gf_a(), not_g_a(), not_g_a().partition(1)] {
        let classical = ppsmc::traditional::check(&fsm, &ba.to_fsmbdd());
        assert_eq!(classical, check(&ba, &fsm));
    }
}

#[test]
fn state_sets_are_recognised() {
    assert!(ppsmc::bdd::is_state_set(&var(0).and(&var(2))));
    assert!(ppsmc::bdd::is_state_set(&tt()));
    assert!(!ppsmc::bdd::is_state_set(&var(1)));
    assert!(ppsmc::product::all_state_sets(&vec![var(0), var(4).not()]));
    assert!(!ppsmc::product::all_state_sets(&vec![var(0), var(3)]));
}

#[test]
fn check_preconditions_hold_on_built_machines() {
    let mut fsm = toggle_fsm(TransBddMethod::Partition);
    fsm.justice.clear();
    assert!(ppsmc::product::labels_are_states(&not_gf_a()));
    assert!(ppsmc::product::check_applies(&not_gf_a(), &fsm));
    assert!(ppsmc::traditional::check_applies(&fsm, &not_gf_a().to_fsmbdd()));
    let mut odd = toggle_fsm(TransBddMethod::Monolithic);
    odd.init = var(1);
    assert!(!ppsmc::product::check_applies(&not_gf_a(), &odd));
    assert!(!ppsmc::traditional::check_applies(&odd, &not_gf_a().to_fsmbdd()));
}

#[test]
fn partition_groups_parts_and_keeps_relation() {
    let a = var(0);
    let ap = var(1);
    let b = var(2);
    let bp = var(3);
    let t1 = ap.xor(&a).not();
    let t2 = bp.xor(&b).not();
    let t3 = a.or(&b);
    let part = Trans::new(&Tables, vec![t1.duplicate(), t2.duplicate(), t3.duplicate(), t1.duplicate()], TransBddMethod::Partition)
        .unwrap();
    // every part is small, so all are conjoined into one
    assert_eq!(part.trans.len(), 1);
    assert!(part.trans[0].equals(&t1.and(&t2).and(&t3)));
}

#[test]
fn partition_of_unsatisfiable_constants_fails() {
    // two parts without variables, the relation empty
    assert!(Trans::new(&Tables, vec![tt(), ff()], TransBddMethod::Partition).is_none());
    // the monolithic relation is always built
    assert!(Trans::new(&Tables, vec![tt(), ff()], TransBddMethod::Monolithic).is_some());
}

#[test]
fn claim_edge_lists_in_order() {
    let claim = "never {\nT0_init:\n\tif\n\t:: (a) -> goto accept_S1\n\tfi;\naccept_S1:\n\tskip\n}\n";
    let states = parse_never_claim(claim).unwrap();
    let ba = BuchiAutomata::from_claim(Tables, &states, &vec![vec![var(0)], vec![tt()]]);
    assert_eq!(ba.num_state(), 2);
    assert_eq!(ba.init_states, vec![0]);
    assert_eq!(ba.accepting_states, vec![1]);
    assert_eq!(ba.forward[0].len(), 1);
    assert_eq!(ba.forward[0][0].0, 1);
    assert!(ba.forward[0][0].1.equals(&var(0)));
    assert_eq!(ba.forward[1].len(), 1);
    assert_eq!(ba.forward[1][0].0, 1);
    assert!(ba.forward[1][0].1.is_constant(true));
    assert!(ba.backward[0].is_empty());
    assert_eq!(ba.backward[1].len(), 2);
    assert_eq!(ba.backward[1][0].0, 0);
    assert!(ba.backward[1][0].1.equals(&var(0)));
    assert_eq!(ba.backward[1][1].0, 1);
    assert!(ba.backward[1][1].1.is_constant(true));
}

