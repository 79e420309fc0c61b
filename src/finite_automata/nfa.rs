use std::collections::HashSet;
use vstd::prelude::*;

use super::farule::RuleModel;
use super::nfarulebook::{NFARulebook, closure, step, lemma_closure_idempotent};
use super::states::{has_state, set_to_vec};

verus! {

/// The states an automaton occupies after reading `input` from the
/// free-move-closed set `current`.
pub open spec fn run(rules: Seq<RuleModel>, current: Set<u64>, input: Seq<char>) -> Set<u64>
    decreases input.len(),
{
    if input.len() == 0 {
        current
    } else {
        run(rules, closure(rules, step(rules, current, Some(input[0]))), input.drop_first())
    }
}

/// Whether the two sets share a state.
pub open spec fn meets(a: Set<u64>, b: Set<u64>) -> bool {
    exists|x: u64| a.contains(x) && b.contains(x)
}

/// The mathematical content of an automaton run in progress.
pub struct NFAModel {
    pub current: Set<u64>,
    pub accepts: Set<u64>,
    pub rules: Seq<RuleModel>,
}

impl NFAModel {
    /// The current states are closed under free moves.
    pub open spec fn is_closed(self) -> bool {
        closure(self.rules, self.current) == self.current
    }

    pub open spec fn accepting(self) -> bool {
        meets(self.current, self.accepts)
    }
}

/// A nondeterministic automaton in the middle of a run: the set of states
/// it occupies, its accepting states and its rules.
pub struct NFA {
    current_states: Vec<u64>,
    accept_states: Vec<u64>,
    rulebook: NFARulebook,
}

impl View for NFA {
    type V = NFAModel;

    closed spec fn view(&self) -> NFAModel {
        NFAModel {
            current: self.current_states@.to_set(),
            accepts: self.accept_states@.to_set(),
            rules: self.rulebook@,
        }
    }
}

impl NFA {
    /// The current states are listed once each and closed under free moves.
    pub closed spec fn well_formed(&self) -> bool {
        &&& self.current_states@.no_duplicates()
        &&& self@.is_closed()
    }

    /// Starts a run in the closure of `current_states`.
    pub fn new(current_states: &HashSet<u64>, accept_states: &HashSet<u64>, rulebook: &NFARulebook) -> (r: Self)
        ensures
            r.well_formed(),
            r@.current == closure(rulebook@, current_states@),
            r@.accepts == accept_states@,
            r@.rules == rulebook@,
            r@.is_closed(),
    {
        let current = set_to_vec(current_states);
        let accepts = set_to_vec(accept_states);
        NFA::from_lists(&current, &accepts, rulebook)
    }

    /// `new` with the states given as lists.
    pub fn from_lists(current_states: &Vec<u64>, accept_states: &Vec<u64>, rulebook: &NFARulebook) -> (r: Self)
        ensures
            r.well_formed(),
            r@.current == closure(rulebook@, current_states@.to_set()),
            r@.accepts == accept_states@.to_set(),
            r@.rules == rulebook@,
            r@.is_closed(),
    {
        let book = NFARulebook::new(rulebook.rules());
        let current = book.follow_free_moves_of(current_states);
        proof {
            lemma_closure_idempotent(book@, current_states@.to_set());
        }
        NFA { current_states: current, accept_states: accept_states.clone(), rulebook: book }
    }

    /// Whether some current state is accepting.
    pub fn accepting(&self) -> (r: bool)
        ensures
            r == self@.accepting(),
    {
        for k in 0..self.current_states.len()
            invariant
                forall|k2: int|
                    0 <= k2 < k ==> !self.accept_states@.contains(#[trigger] self.current_states@[k2]),
        {
            if has_state(&self.accept_states, self.current_states[k]) {
                assert(self.current_states@.to_set().contains(self.current_states@[k as int]));
                return true;
            }
        }
        false
    }

    /// Moves on `character` and then along free moves.
    pub fn read_character(&mut self, character: char)
        requires
            old(self).well_formed(),
        ensures
            final(self).well_formed(),
            final(self)@.current == closure(old(self)@.rules, step(old(self)@.rules, old(self)@.current, Some(character))),
            final(self)@.accepts == old(self)@.accepts,
            final(self)@.rules == old(self)@.rules,
            final(self)@.is_closed(),
    {
        let moved = self.rulebook.next_states_of(&self.current_states, Some(character));
        let closed = self.rulebook.follow_free_moves_of(&moved);
        proof {
            lemma_closure_idempotent(self.rulebook@, moved@.to_set());
        }
        self.current_states = closed;
    }

    /// Reads every character of `s` in order.
    pub fn read_string(&mut self, s: &str)
        requires
            old(self).well_formed(),
        ensures
            final(self).well_formed(),
            final(self)@.current == run(old(self)@.rules, old(self)@.current, s@),
            final(self)@.accepts == old(self)@.accepts,
            final(self)@.rules == old(self)@.rules,
            final(self)@.is_closed(),
    {
        let ghost start = self@;
        assert(s@.skip(0) =~= s@);
        for c in it: s.chars()
            invariant
                self.well_formed(),
                self@.accepts == start.accepts,
                self@.rules == start.rules,
                run(start.rules, self@.current, s@.skip(it.index() as int)) == run(start.rules, start.current, s@),
                it.seq() == s@,
        {
            proof {
                let rest = s@.skip(it.index() as int);
                assert(rest[0] == c);
                assert(rest.drop_first() =~= s@.skip(it.index() + 1));
            }
            self.read_character(c);
        }
        assert(s@.skip(s@.len() as int) =~= Seq::<char>::empty());
    }
}

} // verus!
