use std::collections::HashSet;
use vstd::prelude::*;

use super::farule::{FARule, RuleModel, rules_model};
use super::nfa::{NFA, run, meets};
use super::nfarulebook::{NFARulebook, closure};
use super::states::{set_to_vec, vec_to_set};

verus! {

/// The mathematical content of a compiled automaton: its start state, its
/// accepting states (in the order they are listed) and its rules.
pub struct DesignModel {
    pub start: u64,
    pub accepts: Seq<u64>,
    pub rules: Seq<RuleModel>,
}

/// Whether the automaton `d`, started afresh, accepts the whole of `input`.
pub open spec fn design_accepts(d: DesignModel, input: Seq<char>) -> bool {
    meets(run(d.rules, closure(d.rules, set![d.start]), input), d.accepts.to_set())
}

/// A compiled nondeterministic automaton, from which runs are started.
pub struct NFADesign {
    start_state: u64,
    accept_states: Vec<u64>,
    rulebook: NFARulebook,
}

impl View for NFADesign {
    type V = DesignModel;

    closed spec fn view(&self) -> DesignModel {
        DesignModel { start: self.start_state, accepts: self.accept_states@, rules: self.rulebook@ }
    }
}

impl NFADesign {
    pub fn new(start_state: &u64, accept_states: &HashSet<u64>, rulebook: &NFARulebook) -> (r: Self)
        ensures
            r@.start == *start_state,
            r@.accepts.to_set() == accept_states@,
            r@.rules == rulebook@,
    {
        NFADesign::from_list(start_state, &set_to_vec(accept_states), rulebook)
    }

    /// `new` with the accepting states given as a list, kept in its order.
    pub fn from_list(start_state: &u64, accept_states: &Vec<u64>, rulebook: &NFARulebook) -> (r: Self)
        ensures
            r@ == (DesignModel { start: *start_state, accepts: accept_states@, rules: rulebook@ }),
    {
        NFADesign {
            start_state: *start_state,
            accept_states: accept_states.clone(),
            rulebook: NFARulebook::new(rulebook.rules()),
        }
    }

    /// A fresh run, standing in the closure of the start state.
    pub fn to_nfa(&self) -> (r: NFA)
        ensures
            r.well_formed(),
            r@.current == closure(self@.rules, set![self@.start]),
            r@.accepts == self@.accepts.to_set(),
            r@.rules == self@.rules,
            r@.is_closed(),
    {
        let start = vec![self.start_state];
        assert(start@.to_set() =~= set![self.start_state]) by {
            assert(start@[0] == self.start_state);
        }
        NFA::from_lists(&start, &self.accept_states, &self.rulebook)
    }

    /// Whether the automaton accepts the whole of `s`.
    pub fn accept(&self, s: &str) -> (r: bool)
        ensures
            r == design_accepts(self@, s@),
    {
        let mut nfa = self.to_nfa();
        nfa.read_string(s);
        nfa.accepting()
    }

    pub fn start_state(&self) -> (r: u64)
        ensures
            r == self@.start,
    {
        self.start_state
    }

    pub fn accept_state(&self) -> (r: HashSet<u64>)
        ensures
            r@ == self@.accepts.to_set(),
    {
        vec_to_set(&self.accept_states)
    }

    /// The accepting states in the order they are listed.
    pub fn accept_list(&self) -> (r: Vec<u64>)
        ensures
            r@ == self@.accepts,
    {
        self.accept_states.clone()
    }

    pub fn rules(&self) -> (r: Vec<FARule>)
        ensures
            rules_model(r@) == self@.rules,
    {
        self.rulebook.rules()
    }
}

} // verus!
