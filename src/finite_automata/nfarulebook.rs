use std::collections::HashSet;
use vstd::prelude::*;

use super::farule::{FARule, RuleModel, rules_model};
use super::states::{has_state, insert_state, lemma_unique_len_bound, set_to_vec, vec_to_set};

verus! {

/// The states that some rule of `rules` reaches from a state of `states` on
/// the (optional) symbol `c`.
pub open spec fn step(rules: Seq<RuleModel>, states: Set<u64>, c: Option<char>) -> Set<u64> {
    Set::new(
        |t: u64|
            exists|i: int|
                0 <= i < rules.len() && states.contains(rules[i].state) && rules[i].kind.fires(c)
                    && rules[i].next_state == t,
    )
}

/// The states reached from `states` by at most `n` rounds of free moves.
pub open spec fn free_reach(rules: Seq<RuleModel>, states: Set<u64>, n: nat) -> Set<u64>
    decreases n,
{
    if n == 0 {
        states
    } else {
        let prev = free_reach(rules, states, (n - 1) as nat);
        prev.union(step(rules, prev, None))
    }
}

/// The free-move (epsilon) closure of `states`: every state that some finite
/// run of free moves reaches from it.
pub open spec fn closure(rules: Seq<RuleModel>, states: Set<u64>) -> Set<u64> {
    Set::new(|t: u64| exists|n: nat| #[trigger] free_reach(rules, states, n).contains(t))
}

/// `states` has no free move leading out of it.
pub open spec fn is_closed(rules: Seq<RuleModel>, states: Set<u64>) -> bool {
    forall|i: int|
        0 <= i < rules.len() && #[trigger] states.contains(rules[i].state) && rules[i].kind.fires(None)
            ==> states.contains(rules[i].next_state)
}

/// The target state of every rule, in order.
pub open spec fn targets(rules: Seq<RuleModel>) -> Seq<u64> {
    rules.map_values(|r: RuleModel| r.next_state)
}

/// A free move from a state of the closure stays in the closure.
pub proof fn lemma_closure_step(rules: Seq<RuleModel>, states: Set<u64>, i: int)
    requires
        0 <= i < rules.len(),
        closure(rules, states).contains(rules[i].state),
        rules[i].kind.fires(None),
    ensures
        closure(rules, states).contains(rules[i].next_state),
{
    let n = choose|n: nat| #[trigger] free_reach(rules, states, n).contains(rules[i].state);
    let prev = free_reach(rules, states, n);
    assert(step(rules, prev, None).contains(rules[i].next_state));
    assert(free_reach(rules, states, n + 1).contains(rules[i].next_state));
}

/// The closure is contained in every closed superset.
pub proof fn lemma_closure_least(rules: Seq<RuleModel>, states: Set<u64>, t: Set<u64>)
    requires
        states.subset_of(t),
        is_closed(rules, t),
    ensures
        closure(rules, states).subset_of(t),
{
    assert forall|x: u64| closure(rules, states).contains(x) implies t.contains(x) by {
        let n = choose|n: nat| #[trigger] free_reach(rules, states, n).contains(x);
        lemma_reach_within(rules, states, t, n);
    }
}

proof fn lemma_reach_within(rules: Seq<RuleModel>, states: Set<u64>, t: Set<u64>, n: nat)
    requires
        states.subset_of(t),
        is_closed(rules, t),
    ensures
        free_reach(rules, states, n).subset_of(t),
    decreases n,
{
    if n > 0 {
        lemma_reach_within(rules, states, t, (n - 1) as nat);
        let prev = free_reach(rules, states, (n - 1) as nat);
        assert forall|x: u64| step(rules, prev, None).contains(x) implies t.contains(x) by {
            let i = choose|i: int|
                0 <= i < rules.len() && prev.contains(rules[i].state) && rules[i].kind.fires(None)
                    && rules[i].next_state == x;
            assert(t.contains(rules[i].state));
        }
    }
}

/// The closure contains the set it was taken of.
pub proof fn lemma_closure_extensive(rules: Seq<RuleModel>, states: Set<u64>)
    ensures
        states.subset_of(closure(rules, states)),
{
    assert forall|x: u64| states.contains(x) implies closure(rules, states).contains(x) by {
        assert(free_reach(rules, states, 0).contains(x));
    }
}

/// The closure has no free move leading out of it.
pub proof fn lemma_closure_closed(rules: Seq<RuleModel>, states: Set<u64>)
    ensures
        is_closed(rules, closure(rules, states)),
{
    assert forall|i: int|
        0 <= i < rules.len() && #[trigger] closure(rules, states).contains(rules[i].state)
            && rules[i].kind.fires(None) implies closure(rules, states).contains(rules[i].next_state) by {
        lemma_closure_step(rules, states, i);
    }
}

/// A set with no free move leading out of it is its own closure.
pub proof fn lemma_closed_fixed(rules: Seq<RuleModel>, states: Set<u64>)
    requires
        is_closed(rules, states),
    ensures
        closure(rules, states) == states,
{
    lemma_closure_least(rules, states, states);
    lemma_closure_extensive(rules, states);
    assert(closure(rules, states) =~= states);
}

/// Taking the closure is monotone: a larger set has a larger closure.
pub proof fn lemma_closure_monotone(rules: Seq<RuleModel>, small: Set<u64>, large: Set<u64>)
    requires
        small.subset_of(large),
    ensures
        closure(rules, small).subset_of(closure(rules, large)),
{
    lemma_closure_extensive(rules, large);
    lemma_closure_closed(rules, large);
    lemma_closure_least(rules, small, closure(rules, large));
}

/// Taking the closure twice gives the same set as taking it once.
pub proof fn lemma_closure_idempotent(rules: Seq<RuleModel>, states: Set<u64>)
    ensures
        closure(rules, closure(rules, states)) == closure(rules, states),
{
    lemma_closure_closed(rules, states);
    lemma_closed_fixed(rules, closure(rules, states));
}

/// A rulebook for a nondeterministic automaton: several rules may leave one
/// state on one symbol.
#[derive(Clone)]
pub struct NFARulebook {
    rules: Vec<FARule>,
}

impl View for NFARulebook {
    type V = Seq<RuleModel>;

    closed spec fn view(&self) -> Seq<RuleModel> {
        rules_model(self.rules@)
    }
}

impl NFARulebook {
    pub fn new(rules: Vec<FARule>) -> (r: Self)
        ensures
            r@ == rules_model(rules@),
    {
        NFARulebook { rules: rules }
    }

    /// The states reached from `states` on `character`; with `None`, by one
    /// free move.
    pub fn next_states(&self, states: &HashSet<u64>, character: Option<char>) -> (r: HashSet<u64>)
        ensures
            r@ == step(self@, states@, character),
    {
        let listed = set_to_vec(states);
        vec_to_set(&self.next_states_of(&listed, character))
    }

    /// `next_states` on a list of states.
    pub fn next_states_of(&self, states: &Vec<u64>, character: Option<char>) -> (r: Vec<u64>)
        ensures
            r@.no_duplicates(),
            r@.to_set() == step(self@, states@.to_set(), character),
    {
        let mut next_states: Vec<u64> = Vec::new();
        for j in 0..self.rules.len()
            invariant
                next_states@.no_duplicates(),
                forall|t: u64|
                    next_states@.contains(t) <==> exists|i: int|
                        0 <= i < j && states@.contains(self@[i].state) && self@[i].kind.fires(character)
                            && self@[i].next_state == t,
        {
            let ghost before = next_states@;
            assert(self@[j as int] == self.rules@[j as int]@);
            let rule = &self.rules[j];
            let taken = has_state(states, rule.state) && rule.applies_to(&rule.state, character);
            if taken {
                insert_state(&mut next_states, rule.follow());
            }
            assert forall|t: u64|
                next_states@.contains(t) <==> exists|i: int|
                    0 <= i < j + 1 && states@.contains(self@[i].state) && self@[i].kind.fires(character)
                        && self@[i].next_state == t by {
                if next_states@.contains(t) && !(taken && t == self@[j as int].next_state) {
                    assert(before.contains(t));
                }
            }
        }
        assert(next_states@.to_set() =~= step(self@, states@.to_set(), character));
        next_states
    }

    /// The target states of the rules that leave `state` on `character`.
    pub fn follow_rules_for(&self, state: &u64, character: Option<char>) -> (r: Vec<u64>)
        ensures
            forall|t: u64|
                r@.contains(t) <==> exists|i: int|
                    0 <= i < self@.len() && self@[i].applies(*state, character) && self@[i].next_state == t,
    {
        let mut found: Vec<u64> = Vec::new();
        for j in 0..self.rules.len()
            invariant
                forall|t: u64|
                    found@.contains(t) <==> exists|i: int|
                        0 <= i < j && self@[i].applies(*state, character) && self@[i].next_state == t,
        {
            let ghost before = found@;
            assert(self@[j as int] == self.rules@[j as int]@);
            let fires = self.rules[j].applies_to(state, character);
            if fires {
                found.push(self.rules[j].follow());
            }
            assert forall|t: u64|
                found@.contains(t) <==> exists|i: int|
                    0 <= i < j + 1 && self@[i].applies(*state, character) && self@[i].next_state == t by {
                if before.contains(t) {
                    let k = choose|k: int| 0 <= k < before.len() && before[k] == t;
                    assert(found@[k] == t);
                }
                if fires && t == self@[j as int].next_state {
                    assert(found@[before.len() as int] == t);
                }
                if found@.contains(t) {
                    let k = choose|k: int| 0 <= k < found@.len() && found@[k] == t;
                    if k < before.len() {
                        assert(before[k] == t);
                    }
                }
            }
        }
        found
    }

    /// The free-move closure of `states`.
    pub fn follow_free_moves(&self, states: &HashSet<u64>) -> (r: HashSet<u64>)
        ensures
            r@ == closure(self@, states@),
    {
        let listed = set_to_vec(states);
        vec_to_set(&self.follow_free_moves_of(&listed))
    }

    /// `follow_free_moves` on a list of states.
    pub fn follow_free_moves_of(&self, states: &Vec<u64>) -> (r: Vec<u64>)
        ensures
            r@.no_duplicates(),
            r@.to_set() == closure(self@, states@.to_set()),
    {
        let ghost rules = self@;
        let ghost start = states@.to_set();
        let ghost universe = states@ + targets(rules);
        proof {
            lemma_closure_extensive(rules, start);
        }
        let mut cur: Vec<u64> = Vec::new();
        for k in 0..states.len()
            invariant
                cur@.no_duplicates(),
                forall|x: u64| cur@.contains(x) <==> exists|k2: int| 0 <= k2 < k && states@[k2] == x,
        {
            insert_state(&mut cur, states[k]);
        }
        assert forall|x: u64| cur@.contains(x) implies universe.contains(x) by {
            let k2 = choose|k2: int| 0 <= k2 < states@.len() && states@[k2] == x;
            assert(universe[k2] == x);
        }
        assert forall|x: u64| cur@.contains(x) implies closure(rules, start).contains(x) by {
            let k2 = choose|k2: int| 0 <= k2 < states@.len() && states@[k2] == x;
            assert(start.contains(x));
        }
        let mut i: usize = 0;
        while i < cur.len()
            invariant
                i <= cur@.len(),
                cur@.no_duplicates(),
                forall|x: u64| start.contains(x) ==> cur@.contains(x),
                forall|x: u64| cur@.contains(x) ==> closure(rules, start).contains(x),
                forall|x: u64| cur@.contains(x) ==> universe.contains(x),
                forall|k: int, j: int|
                    0 <= k < i && 0 <= j < rules.len() && #[trigger] rules[j].applies(cur@[k], None)
                        ==> cur@.contains(rules[j].next_state),
                rules == self@,
                universe == states@ + targets(rules),
            decreases universe.len() - i,
        {
            let s = cur[i];
            let ghost before = cur@;
            assert(cur@[i as int] == s);
            assert(cur@.contains(s));
            assert(closure(rules, start).contains(s));
            for j in 0..self.rules.len()
                invariant
                    before.len() <= cur@.len(),
                    forall|k: int| 0 <= k < before.len() ==> cur@[k] == before[k],
                    s == cur@[i as int],
                    i < before.len(),
                    i < cur@.len(),
                    cur@.no_duplicates(),
                    forall|x: u64| before.contains(x) ==> cur@.contains(x),
                    forall|x: u64| cur@.contains(x) ==> closure(rules, start).contains(x),
                    forall|x: u64| cur@.contains(x) ==> universe.contains(x),
                    forall|k: int, j2: int|
                        0 <= k < i && 0 <= j2 < rules.len() && #[trigger] rules[j2].applies(before[k], None)
                            ==> before.contains(rules[j2].next_state),
                    forall|j2: int|
                        0 <= j2 < j && #[trigger] rules[j2].applies(s, None) ==> cur@.contains(rules[j2].next_state),
                    rules == self@,
                    universe == states@ + targets(rules),
                    closure(rules, start).contains(s),
            {
                assert(rules[j as int] == self.rules@[j as int]@);
                if self.rules[j].applies_to(&s, None) {
                    let t = self.rules[j].follow();
                    proof {
                        lemma_closure_step(rules, start, j as int);
                        assert(universe[states@.len() + j] == t);
                    }
                    let ghost mid = cur@;
                    insert_state(&mut cur, t);
                    assert forall|x: u64| before.contains(x) implies cur@.contains(x) by {
                        assert(mid.contains(x));
                    }
                }
            }
            proof {
                lemma_unique_len_bound(cur@, universe);
                assert forall|k: int, j: int|
                    0 <= k < i + 1 && 0 <= j < rules.len() && #[trigger] rules[j].applies(cur@[k], None)
                        implies cur@.contains(rules[j].next_state) by {
                    if k < i {
                        assert(cur@[k] == before[k]);
                        assert(before.contains(rules[j].next_state));
                    }
                }
            }
            i = i + 1;
        }
        proof {
            assert(is_closed(rules, cur@.to_set())) by {
                assert forall|j: int|
                    0 <= j < rules.len() && #[trigger] cur@.to_set().contains(rules[j].state)
                        && rules[j].kind.fires(None) implies cur@.to_set().contains(rules[j].next_state) by {
                    let k = choose|k: int| 0 <= k < cur@.len() && cur@[k] == rules[j].state;
                    assert(rules[j].applies(cur@[k], None));
                }
            }
            lemma_closure_least(rules, start, cur@.to_set());
            assert(cur@.to_set() =~= closure(rules, start));
        }
        cur
    }

    /// A copy of the rules.
    pub fn rules(&self) -> (r: Vec<FARule>)
        ensures
            rules_model(r@) == self@,
    {
        let mut out: Vec<FARule> = Vec::new();
        for j in 0..self.rules.len()
            invariant
                out@.len() == j,
                forall|k: int| 0 <= k < j ==> out@[k]@ == self.rules@[k]@,
        {
            out.push(self.rules[j].copied());
        }
        assert(rules_model(out@) =~= rules_model(self.rules@));
        out
    }
}

} // verus!
