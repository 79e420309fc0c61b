use vstd::prelude::*;

use super::dfa::DFA;
use super::dfarulebook::{DFARulebook, dfa_run};
use super::farule::RuleModel;

verus! {

/// The mathematical content of a deterministic automaton design.
pub struct DFADesignModel {
    pub start: u64,
    pub accepts: Set<u64>,
    pub rules: Seq<RuleModel>,
}

/// A compiled deterministic automaton, from which runs are started.
pub struct DFADesign {
    start_state: u64,
    accept_states: Vec<u64>,
    rulebook: DFARulebook,
}

impl View for DFADesign {
    type V = DFADesignModel;

    closed spec fn view(&self) -> DFADesignModel {
        DFADesignModel { start: self.start_state, accepts: self.accept_states@.to_set(), rules: self.rulebook@ }
    }
}

impl DFADesign {
    pub fn new(start_state: u64, accept_states: &Vec<u64>, rulebook: &DFARulebook) -> (r: Self)
        ensures
            r@ == (DFADesignModel { start: start_state, accepts: accept_states@.to_set(), rules: rulebook@ }),
    {
        DFADesign {
            start_state: start_state,
            accept_states: accept_states.clone(),
            rulebook: DFARulebook::new(rulebook.rules()),
        }
    }

    /// A fresh run in the start state.
    pub fn to_dfa(&self) -> (r: DFA)
        ensures
            r@.current == self@.start,
            r@.accepts == self@.accepts,
            r@.rules == self@.rules,
    {
        DFA::new(self.start_state, &self.accept_states, &self.rulebook)
    }

    /// Whether the automaton accepts the whole of `s`; every step of the run
    /// must have a rule.
    pub fn accept(&self, s: &str) -> (r: bool)
        requires
            dfa_run(self@.rules, self@.start, s@) is Some,
        ensures
            r == self@.accepts.contains(dfa_run(self@.rules, self@.start, s@)->0),
    {
        let mut dfa = self.to_dfa();
        dfa.read_string(s);
        dfa.accepting()
    }
}

} // verus!
