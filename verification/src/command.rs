//! The options of the model checker.
use vstd::prelude::*;
use crate::trans::TransBddMethod;

verus! {

/// How the transition relation is grouped.
#[derive(Copy, Clone, PartialEq, Eq, PartialOrd, Ord, Debug, Structural)]
pub enum TransMethod {
    Monolithic,
    Partition,
}

/// Which model checking algorithm runs.
#[derive(Copy, Clone, PartialEq, Eq, PartialOrd, Ord, Debug, Structural)]
pub enum Algorithm {
    PropertyDriven,
    Traditional,
}

impl From<TransMethod> for TransBddMethod {
    fn from(m: TransMethod) -> (r: TransBddMethod) {
        match m {
            TransMethod::Monolithic => TransBddMethod::Monolithic,
            TransMethod::Partition => TransBddMethod::Partition,
        }
    }
}

impl vstd::std_specs::convert::FromSpecImpl<TransMethod> for TransBddMethod {
    open spec fn obeys_from_spec() -> bool {
        true
    }

    open spec fn from_spec(m: TransMethod) -> TransBddMethod {
        match m {
            TransMethod::Monolithic => TransBddMethod::Monolithic,
            TransMethod::Partition => TransBddMethod::Partition,
        }
    }
}

/// Property-driven symbolic model checking: the options.
#[derive(Debug, Clone)]
pub struct Args {
    /// The input file.
    pub file: String,
    /// The model checking algorithm.
    pub algorithm: Algorithm,
    /// How the transition relation is grouped.
    pub trans_method: TransMethod,
    /// The number of workers.
    pub parallel: usize,
    /// The transitions that the LTL formula assumes globally.
    pub ltl_extend_trans: Vec<usize>,
    /// The variables that the automaton is split on.
    pub ltl_extend_vars: Vec<usize>,
    /// Whether progress is printed.
    pub verbose: bool,
    /// Whether the fork-join implementation runs.
    pub old_impl: bool,
    /// Whether the automaton comes from the negated specification alone.
    pub generalize_automata: bool,
    /// Whether defines are flattened first.
    pub flatten_define: bool,
}

} // verus!
