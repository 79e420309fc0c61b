use vstd::prelude::*;

use super::farule::{FARule, RuleModel, rules_model};

verus! {

/// The target of the first rule, from position `from` on, that leaves
/// `state` on `c`.
pub open spec fn first_target(rules: Seq<RuleModel>, state: u64, c: char, from: int) -> Option<u64>
    decreases rules.len() - from,
{
    if from < 0 || from >= rules.len() {
        None
    } else if rules[from].applies(state, Some(c)) {
        Some(rules[from].next_state)
    } else {
        first_target(rules, state, c, from + 1)
    }
}

/// The state a deterministic automaton moves to from `state` on `c`, if any
/// rule applies.
pub open spec fn dfa_next(rules: Seq<RuleModel>, state: u64, c: char) -> Option<u64> {
    first_target(rules, state, c, 0)
}

/// The state reached from `state` by reading `input`, if every step has a
/// rule.
pub open spec fn dfa_run(rules: Seq<RuleModel>, state: u64, input: Seq<char>) -> Option<u64>
    decreases input.len(),
{
    if input.len() == 0 {
        Some(state)
    } else {
        match dfa_next(rules, state, input[0]) {
            Some(t) => dfa_run(rules, t, input.drop_first()),
            None => None,
        }
    }
}

/// A rulebook for a deterministic automaton: at most one rule is meant to
/// leave a state on a symbol.
pub struct DFARulebook {
    rules: Vec<FARule>,
}

impl View for DFARulebook {
    type V = Seq<RuleModel>;

    closed spec fn view(&self) -> Seq<RuleModel> {
        rules_model(self.rules@)
    }
}

impl DFARulebook {
    pub fn new(rules: Vec<FARule>) -> (r: Self)
        ensures
            r@ == rules_model(rules@),
    {
        DFARulebook { rules: rules }
    }

    /// The target of the rule that leaves `state` on `character`.
    pub fn next_state(&self, state: &u64, character: char) -> (r: u64)
        requires
            dfa_next(self@, *state, character) is Some,
        ensures
            dfa_next(self@, *state, character) == Some(r),
    {
        let mut j: usize = 0;
        while j < self.rules.len()
            invariant
                first_target(self@, *state, character, j as int) == dfa_next(self@, *state, character),
                dfa_next(self@, *state, character) is Some,
                self@.len() == self.rules@.len(),
            decreases self.rules@.len() - j,
        {
            assert(self@[j as int] == self.rules@[j as int]@);
            if self.rules[j].applies_to(state, Some(character)) {
                return self.rules[j].follow();
            }
            j = j + 1;
        }
        // No rule applies past the end of the list, which the precondition excludes.
        assert(first_target(self@, *state, character, j as int) is None);
        *state
    }

    /// A copy of the rules.
    pub fn rules(&self) -> (r: Vec<FARule>)
        ensures
            rules_model(r@) == self@,
    {
        let mut out: Vec<FARule> = Vec::new();
        for j in 0..self.rules.len()
            invariant
                out@.len() == j,
                forall|k: int| 0 <= k < j ==> out@[k]@ == self.rules@[k]@,
        {
            out.push(self.rules[j].copied());
        }
        assert(rules_model(out@) =~= rules_model(self.rules@));
        out
    }
}

} // verus!
