use vstd::prelude::*;

use super::farule::RuleModel;
use super::nfa::{meets, run};
use super::nfadesign::{DesignModel, design_accepts};
use super::nfarulebook::{
    closure, free_reach, is_closed, lemma_closure_closed, lemma_closure_extensive, lemma_closure_least, step,
};

verus! {

/// `f` sends distinct states to distinct states.
pub open spec fn injective(f: spec_fn(u64) -> u64) -> bool {
    forall|x: u64, y: u64| #[trigger] f(x) == #[trigger] f(y) ==> x == y
}

/// The rule with both of its states renamed by `f`.
pub open spec fn rename_rule(r: RuleModel, f: spec_fn(u64) -> u64) -> RuleModel {
    RuleModel { state: f(r.state), kind: r.kind, next_state: f(r.next_state) }
}

pub open spec fn rename_rules(rules: Seq<RuleModel>, f: spec_fn(u64) -> u64) -> Seq<RuleModel> {
    rules.map_values(|r: RuleModel| rename_rule(r, f))
}

/// The automaton with every state renamed by `f`.
pub open spec fn rename_design(d: DesignModel, f: spec_fn(u64) -> u64) -> DesignModel {
    DesignModel { start: f(d.start), accepts: d.accepts.map_values(f), rules: rename_rules(d.rules, f) }
}

/// The two lists hold the same rules, in any order and number.
pub open spec fn same_rules(a: Seq<RuleModel>, b: Seq<RuleModel>) -> bool {
    forall|r: RuleModel| a.contains(r) <==> b.contains(r)
}

proof fn lemma_step_rename(rules: Seq<RuleModel>, states: Set<u64>, c: Option<char>, f: spec_fn(u64) -> u64)
    requires
        injective(f),
    ensures
        step(rename_rules(rules, f), states.map(f), c) == step(rules, states, c).map(f),
{
    let rr = rename_rules(rules, f);
    assert forall|t: u64| step(rr, states.map(f), c).contains(t) implies step(rules, states, c).map(f).contains(t) by {
        let i = choose|i: int|
            0 <= i < rr.len() && states.map(f).contains(rr[i].state) && rr[i].kind.fires(c) && rr[i].next_state == t;
        let x = choose|x: u64| states.contains(x) && f(x) == rr[i].state;
        assert(f(x) == f(rules[i].state));
        assert(step(rules, states, c).contains(rules[i].next_state));
    }
    assert forall|t: u64| step(rules, states, c).map(f).contains(t) implies step(rr, states.map(f), c).contains(t) by {
        let t0 = choose|t0: u64| step(rules, states, c).contains(t0) && f(t0) == t;
        let i = choose|i: int|
            0 <= i < rules.len() && states.contains(rules[i].state) && rules[i].kind.fires(c) && rules[i].next_state == t0;
        assert(rr[i] == rename_rule(rules[i], f));
        assert(states.map(f).contains(f(rules[i].state)));
    }
    assert(step(rr, states.map(f), c) =~= step(rules, states, c).map(f));
}

proof fn lemma_free_reach_rename(rules: Seq<RuleModel>, states: Set<u64>, n: nat, f: spec_fn(u64) -> u64)
    requires
        injective(f),
    ensures
        free_reach(rename_rules(rules, f), states.map(f), n) == free_reach(rules, states, n).map(f),
    decreases n,
{
    if n > 0 {
        let prev = free_reach(rules, states, (n - 1) as nat);
        lemma_free_reach_rename(rules, states, (n - 1) as nat, f);
        lemma_step_rename(rules, prev, None, f);
        let nxt = step(rules, prev, None);
        assert forall|t: u64| prev.union(nxt).map(f).contains(t) implies prev.map(f).union(nxt.map(f)).contains(t) by {
            let x = choose|x: u64| prev.union(nxt).contains(x) && f(x) == t;
            if prev.contains(x) {
                assert(prev.map(f).contains(f(x)));
            } else {
                assert(nxt.map(f).contains(f(x)));
            }
        }
        assert forall|t: u64| prev.map(f).union(nxt.map(f)).contains(t) implies prev.union(nxt).map(f).contains(t) by {
            if prev.map(f).contains(t) {
                let x = choose|x: u64| prev.contains(x) && f(x) == t;
                assert(prev.union(nxt).contains(x));
            } else {
                let x = choose|x: u64| nxt.contains(x) && f(x) == t;
                assert(prev.union(nxt).contains(x));
            }
        }
        assert(prev.union(nxt).map(f) =~= prev.map(f).union(nxt.map(f)));
    }
}

proof fn lemma_closure_rename(rules: Seq<RuleModel>, states: Set<u64>, f: spec_fn(u64) -> u64)
    requires
        injective(f),
    ensures
        closure(rename_rules(rules, f), states.map(f)) == closure(rules, states).map(f),
{
    let rr = rename_rules(rules, f);
    assert forall|t: u64| closure(rr, states.map(f)).contains(t) implies closure(rules, states).map(f).contains(t) by {
        let n = choose|n: nat| #[trigger] free_reach(rr, states.map(f), n).contains(t);
        lemma_free_reach_rename(rules, states, n, f);
        let x = choose|x: u64| free_reach(rules, states, n).contains(x) && f(x) == t;
        assert(closure(rules, states).contains(x));
    }
    assert forall|t: u64| closure(rules, states).map(f).contains(t) implies closure(rr, states.map(f)).contains(t) by {
        let x = choose|x: u64| closure(rules, states).contains(x) && f(x) == t;
        let n = choose|n: nat| #[trigger] free_reach(rules, states, n).contains(x);
        lemma_free_reach_rename(rules, states, n, f);
        assert(free_reach(rr, states.map(f), n).contains(t));
    }
    assert(closure(rr, states.map(f)) =~= closure(rules, states).map(f));
}

proof fn lemma_run_rename(rules: Seq<RuleModel>, current: Set<u64>, input: Seq<char>, f: spec_fn(u64) -> u64)
    requires
        injective(f),
    ensures
        run(rename_rules(rules, f), current.map(f), input) == run(rules, current, input).map(f),
    decreases input.len(),
{
    if input.len() > 0 {
        let moved = step(rules, current, Some(input[0]));
        lemma_step_rename(rules, current, Some(input[0]), f);
        lemma_closure_rename(rules, moved, f);
        lemma_run_rename(rules, closure(rules, moved), input.drop_first(), f);
    }
}

/// Renaming the states one-to-one does not change what an automaton accepts.
pub proof fn lemma_design_accepts_rename(d: DesignModel, input: Seq<char>, f: spec_fn(u64) -> u64)
    requires
        injective(f),
    ensures
        design_accepts(rename_design(d, f), input) == design_accepts(d, input),
{
    let e = rename_design(d, f);
    assert(set![d.start].map(f) =~= set![f(d.start)]) by {
        assert(set![d.start].contains(d.start));
    }
    lemma_closure_rename(d.rules, set![d.start], f);
    let c = closure(d.rules, set![d.start]);
    lemma_run_rename(d.rules, c, input, f);
    let r = run(d.rules, c, input);
    assert(e.accepts.to_set() =~= d.accepts.to_set().map(f)) by {
        assert forall|x: u64| e.accepts.to_set().contains(x) implies d.accepts.to_set().map(f).contains(x) by {
            let k = choose|k: int| 0 <= k < e.accepts.len() && e.accepts[k] == x;
            assert(d.accepts.to_set().contains(d.accepts[k]));
        }
        assert forall|x: u64| d.accepts.to_set().map(f).contains(x) implies e.accepts.to_set().contains(x) by {
            let y = choose|y: u64| d.accepts.to_set().contains(y) && f(y) == x;
            let k = choose|k: int| 0 <= k < d.accepts.len() && d.accepts[k] == y;
            assert(e.accepts[k] == x);
        }
    }
    if meets(r, d.accepts.to_set()) {
        let x = choose|x: u64| r.contains(x) && d.accepts.to_set().contains(x);
        assert(r.map(f).contains(f(x)));
        assert(d.accepts.to_set().map(f).contains(f(x)));
    }
    if meets(r.map(f), d.accepts.to_set().map(f)) {
        let y = choose|y: u64| r.map(f).contains(y) && d.accepts.to_set().map(f).contains(y);
        let x1 = choose|x1: u64| r.contains(x1) && f(x1) == y;
        let x2 = choose|x2: u64| d.accepts.to_set().contains(x2) && f(x2) == y;
        assert(x1 == x2);
    }
}

proof fn lemma_step_same_rules(a: Seq<RuleModel>, b: Seq<RuleModel>, states: Set<u64>, c: Option<char>)
    requires
        same_rules(a, b),
    ensures
        step(a, states, c) == step(b, states, c),
{
    assert forall|t: u64| step(a, states, c).contains(t) implies step(b, states, c).contains(t) by {
        let i = choose|i: int| 0 <= i < a.len() && states.contains(a[i].state) && a[i].kind.fires(c) && a[i].next_state == t;
        assert(a.contains(a[i]));
        let j = choose|j: int| 0 <= j < b.len() && b[j] == a[i];
    }
    assert forall|t: u64| step(b, states, c).contains(t) implies step(a, states, c).contains(t) by {
        let i = choose|i: int| 0 <= i < b.len() && states.contains(b[i].state) && b[i].kind.fires(c) && b[i].next_state == t;
        assert(b.contains(b[i]));
        let j = choose|j: int| 0 <= j < a.len() && a[j] == b[i];
    }
    assert(step(a, states, c) =~= step(b, states, c));
}

proof fn lemma_free_reach_same_rules(a: Seq<RuleModel>, b: Seq<RuleModel>, states: Set<u64>, n: nat)
    requires
        same_rules(a, b),
    ensures
        free_reach(a, states, n) == free_reach(b, states, n),
    decreases n,
{
    if n > 0 {
        lemma_free_reach_same_rules(a, b, states, (n - 1) as nat);
        lemma_step_same_rules(a, b, free_reach(a, states, (n - 1) as nat), None);
    }
}

proof fn lemma_closure_same_rules(a: Seq<RuleModel>, b: Seq<RuleModel>, states: Set<u64>)
    requires
        same_rules(a, b),
    ensures
        closure(a, states) == closure(b, states),
{
    assert forall|t: u64| closure(a, states).contains(t) <==> closure(b, states).contains(t) by {
        if closure(a, states).contains(t) {
            let n = choose|n: nat| #[trigger] free_reach(a, states, n).contains(t);
            lemma_free_reach_same_rules(a, b, states, n);
        }
        if closure(b, states).contains(t) {
            let n = choose|n: nat| #[trigger] free_reach(b, states, n).contains(t);
            lemma_free_reach_same_rules(a, b, states, n);
        }
    }
    assert(closure(a, states) =~= closure(b, states));
}

proof fn lemma_run_same_rules(a: Seq<RuleModel>, b: Seq<RuleModel>, current: Set<u64>, input: Seq<char>)
    requires
        same_rules(a, b),
    ensures
        run(a, current, input) == run(b, current, input),
    decreases input.len(),
{
    if input.len() > 0 {
        lemma_step_same_rules(a, b, current, Some(input[0]));
        lemma_closure_same_rules(a, b, step(a, current, Some(input[0])));
        lemma_run_same_rules(a, b, closure(a, step(a, current, Some(input[0]))), input.drop_first());
    }
}

/// Only the start state, the set of accepting states and the set of rules
/// decide what an automaton accepts.
pub proof fn lemma_design_accepts_same(d: DesignModel, e: DesignModel, input: Seq<char>)
    requires
        d.start == e.start,
        d.accepts.to_set() == e.accepts.to_set(),
        same_rules(d.rules, e.rules),
    ensures
        design_accepts(d, input) == design_accepts(e, input),
{
    lemma_closure_same_rules(d.rules, e.rules, set![d.start]);
    lemma_run_same_rules(d.rules, e.rules, closure(d.rules, set![d.start]), input);
}

/// Outside the states of `avoid`, `a` and `b` have the same rules, and no
/// rule leaving a state outside `avoid` enters it.
pub open spec fn agree_outside(a: Seq<RuleModel>, b: Seq<RuleModel>, avoid: Set<u64>) -> bool {
    &&& forall|r: RuleModel| !avoid.contains(r.state) ==> (a.contains(r) <==> b.contains(r))
    &&& forall|i: int|
        0 <= i < a.len() && !avoid.contains(#[trigger] a[i].state) ==> !avoid.contains(a[i].next_state)
    &&& forall|i: int|
        0 <= i < b.len() && !avoid.contains(#[trigger] b[i].state) ==> !avoid.contains(b[i].next_state)
}

pub open spec fn misses(states: Set<u64>, avoid: Set<u64>) -> bool {
    forall|x: u64| states.contains(x) ==> !avoid.contains(x)
}

proof fn lemma_step_agree(a: Seq<RuleModel>, b: Seq<RuleModel>, avoid: Set<u64>, states: Set<u64>, c: Option<char>)
    requires
        agree_outside(a, b, avoid),
        misses(states, avoid),
    ensures
        step(a, states, c) == step(b, states, c),
        misses(step(a, states, c), avoid),
{
    assert forall|t: u64| step(a, states, c).contains(t) implies step(b, states, c).contains(t) && !avoid.contains(t) by {
        let i = choose|i: int| 0 <= i < a.len() && states.contains(a[i].state) && a[i].kind.fires(c) && a[i].next_state == t;
        assert(a.contains(a[i]));
        let j = choose|j: int| 0 <= j < b.len() && b[j] == a[i];
    }
    assert forall|t: u64| step(b, states, c).contains(t) implies step(a, states, c).contains(t) by {
        let i = choose|i: int| 0 <= i < b.len() && states.contains(b[i].state) && b[i].kind.fires(c) && b[i].next_state == t;
        assert(b.contains(b[i]));
        let j = choose|j: int| 0 <= j < a.len() && a[j] == b[i];
    }
    assert(step(a, states, c) =~= step(b, states, c));
}

proof fn lemma_closure_misses(a: Seq<RuleModel>, b: Seq<RuleModel>, avoid: Set<u64>, states: Set<u64>)
    requires
        agree_outside(a, b, avoid),
        misses(states, avoid),
    ensures
        misses(closure(a, states), avoid),
{
    let outside = Set::new(|x: u64| !avoid.contains(x));
    assert(is_closed(a, outside));
    lemma_closure_least(a, states, outside);
}

pub proof fn lemma_closure_agree(a: Seq<RuleModel>, b: Seq<RuleModel>, avoid: Set<u64>, states: Set<u64>)
    requires
        agree_outside(a, b, avoid),
        misses(states, avoid),
    ensures
        closure(a, states) == closure(b, states),
        misses(closure(a, states), avoid),
{
    lemma_closure_misses(a, b, avoid, states);
    assert(agree_outside(b, a, avoid));
    lemma_closure_misses(b, a, avoid, states);
    let ca = closure(a, states);
    let cb = closure(b, states);
    lemma_closure_closed(a, states);
    lemma_closure_closed(b, states);
    lemma_closure_extensive(a, states);
    lemma_closure_extensive(b, states);
    assert(is_closed(b, ca)) by {
        assert forall|i: int| 0 <= i < b.len() && #[trigger] ca.contains(b[i].state) && b[i].kind.fires(None)
            implies ca.contains(b[i].next_state) by {
            assert(b.contains(b[i]));
            let j = choose|j: int| 0 <= j < a.len() && a[j] == b[i];
        }
    }
    assert(is_closed(a, cb)) by {
        assert forall|i: int| 0 <= i < a.len() && #[trigger] cb.contains(a[i].state) && a[i].kind.fires(None)
            implies cb.contains(a[i].next_state) by {
            assert(a.contains(a[i]));
            let j = choose|j: int| 0 <= j < b.len() && b[j] == a[i];
        }
    }
    lemma_closure_least(b, states, ca);
    lemma_closure_least(a, states, cb);
    assert(ca =~= cb);
}

/// Two rulebooks that agree outside `avoid` run alike from a set that
/// misses it, and never enter it.
pub proof fn lemma_run_agree(a: Seq<RuleModel>, b: Seq<RuleModel>, avoid: Set<u64>, current: Set<u64>, input: Seq<char>)
    requires
        agree_outside(a, b, avoid),
        misses(current, avoid),
    ensures
        run(a, current, input) == run(b, current, input),
        misses(run(a, current, input), avoid),
    decreases input.len(),
{
    if input.len() > 0 {
        lemma_step_agree(a, b, avoid, current, Some(input[0]));
        let moved = step(a, current, Some(input[0]));
        lemma_closure_agree(a, b, avoid, moved);
        lemma_run_agree(a, b, avoid, closure(a, moved), input.drop_first());
    }
}

} // verus!
