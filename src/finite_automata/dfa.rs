use vstd::prelude::*;

use super::dfarulebook::{DFARulebook, dfa_next, dfa_run};
use super::farule::RuleModel;
use super::states::has_state;

verus! {

/// The mathematical content of a deterministic run in progress.
pub struct DFAModel {
    pub current: u64,
    pub accepts: Set<u64>,
    pub rules: Seq<RuleModel>,
}

/// A deterministic automaton in the middle of a run.
pub struct DFA {
    current_state: u64,
    accept_states: Vec<u64>,
    rulebook: DFARulebook,
}

impl View for DFA {
    type V = DFAModel;

    closed spec fn view(&self) -> DFAModel {
        DFAModel { current: self.current_state, accepts: self.accept_states@.to_set(), rules: self.rulebook@ }
    }
}

impl DFA {
    pub fn new(current_state: u64, accept_states: &Vec<u64>, rulebook: &DFARulebook) -> (r: Self)
        ensures
            r@ == (DFAModel { current: current_state, accepts: accept_states@.to_set(), rules: rulebook@ }),
    {
        DFA {
            current_state: current_state,
            accept_states: accept_states.clone(),
            rulebook: DFARulebook::new(rulebook.rules()),
        }
    }

    /// Whether the current state is accepting.
    pub fn accepting(&self) -> (r: bool)
        ensures
            r == self@.accepts.contains(self@.current),
    {
        has_state(&self.accept_states, self.current_state)
    }

    /// Moves along the rule for `character`.
    pub fn read_character(&mut self, character: char)
        requires
            dfa_next(old(self)@.rules, old(self)@.current, character) is Some,
        ensures
            Some(final(self)@.current) == dfa_next(old(self)@.rules, old(self)@.current, character),
            final(self)@.accepts == old(self)@.accepts,
            final(self)@.rules == old(self)@.rules,
    {
        self.current_state = self.rulebook.next_state(&self.current_state, character);
    }

    /// Reads every character of `s` in order.
    pub fn read_string(&mut self, s: &str)
        requires
            dfa_run(old(self)@.rules, old(self)@.current, s@) is Some,
        ensures
            Some(final(self)@.current) == dfa_run(old(self)@.rules, old(self)@.current, s@),
            final(self)@.accepts == old(self)@.accepts,
            final(self)@.rules == old(self)@.rules,
    {
        let ghost start = self@;
        assert(s@.skip(0) =~= s@);
        for c in it: s.chars()
            invariant
                self@.accepts == start.accepts,
                self@.rules == start.rules,
                dfa_run(start.rules, self@.current, s@.skip(it.index() as int)) == dfa_run(start.rules, start.current, s@),
                dfa_run(start.rules, start.current, s@) is Some,
                it.seq() == s@,
        {
            proof {
                let rest = s@.skip(it.index() as int);
                assert(rest[0] == c);
                assert(rest.drop_first() =~= s@.skip(it.index() + 1));
            }
            self.read_character(c);
        }
        assert(s@.skip(s@.len() as int) =~= Seq::<char>::empty());
    }
}

} // verus!
