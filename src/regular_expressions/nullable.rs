use vstd::prelude::*;

use crate::finite_automata::farule::RuleModel;
use crate::finite_automata::nfa::{meets, run};
use crate::finite_automata::nfadesign::DesignModel;
use crate::finite_automata::nfarulebook::{
    closure, is_closed, lemma_closure_closed, lemma_closure_extensive, lemma_closure_idempotent,
    lemma_closure_least, lemma_closure_monotone, lemma_closure_step, lemma_closed_fixed,
};
use super::regex::Regex;
use super::tonfa::{compile, fits, free_edges, free_rule, regex_matches, state_count};

verus! {

/// Whether the language of `r` holds the empty string.
pub open spec fn nullable(r: Regex) -> bool
    decreases r,
{
    match r {
        Regex::Empty => true,
        Regex::Literal(_) | Regex::CharSet(_, _) | Regex::Any => false,
        Regex::Concatenate(l, r) => nullable(*l) && nullable(*r),
        Regex::Choose(l, r) => nullable(*l) || nullable(*r),
        Regex::Repeat(_) | Regex::Optional(_) => true,
        Regex::Plus(p) => nullable(*p),
    }
}

/// The states `n`, ..., `n + count - 1`.
pub open spec fn region(n: nat, count: nat) -> Set<u64> {
    Set::new(|x: u64| n <= x && x < n + count)
}

/// Every rule of `rules` leaves a state outside `states`.
pub open spec fn no_source_in(rules: Seq<RuleModel>, states: Set<u64>) -> bool {
    forall|i: int| 0 <= i < rules.len() ==> !states.contains(#[trigger] rules[i].state)
}

/// Every rule of `rules` leads into `states`.
pub open spec fn targets_in(rules: Seq<RuleModel>, states: Set<u64>) -> bool {
    forall|i: int| 0 <= i < rules.len() ==> states.contains(#[trigger] rules[i].next_state)
}

proof fn lemma_closed_when_targets_in(rules: Seq<RuleModel>, states: Set<u64>)
    requires
        targets_in(rules, states),
    ensures
        is_closed(rules, states),
{
}

proof fn lemma_closed_union(rules: Seq<RuleModel>, a: Set<u64>, b: Set<u64>)
    requires
        is_closed(rules, a),
        is_closed(rules, b),
    ensures
        is_closed(rules, a.union(b)),
{
}

proof fn lemma_closed_append(a: Seq<RuleModel>, b: Seq<RuleModel>, states: Set<u64>)
    requires
        is_closed(a, states),
        is_closed(b, states),
    ensures
        is_closed(a + b, states),
{
    assert forall|i: int|
        0 <= i < (a + b).len() && #[trigger] states.contains((a + b)[i].state) && (a + b)[i].kind.fires(None)
            implies states.contains((a + b)[i].next_state) by {
        if i < a.len() {
            assert((a + b)[i] == a[i]);
        } else {
            assert((a + b)[i] == b[i - a.len()]);
        }
    }
}

/// Every rule of `small` is also a rule of `large`.
pub open spec fn rules_within(small: Seq<RuleModel>, large: Seq<RuleModel>) -> bool {
    forall|i: int| 0 <= i < small.len() ==> large.contains(#[trigger] small[i])
}

/// More rules give a larger closure.
pub proof fn lemma_closure_more_rules(small: Seq<RuleModel>, large: Seq<RuleModel>, states: Set<u64>)
    requires
        rules_within(small, large),
    ensures
        closure(small, states).subset_of(closure(large, states)),
{
    lemma_closure_extensive(large, states);
    lemma_closure_closed(large, states);
    assert(is_closed(small, closure(large, states))) by {
        assert forall|i: int|
            0 <= i < small.len() && #[trigger] closure(large, states).contains(small[i].state)
                && small[i].kind.fires(None) implies closure(large, states).contains(small[i].next_state) by {
            assert(large.contains(small[i]));
            let j = choose|j: int| 0 <= j < large.len() && large[j] == small[i];
        }
    }
    lemma_closure_least(small, states, closure(large, states));
}

/// A state in a closure brings its own closure along.
proof fn lemma_closure_through(rules: Seq<RuleModel>, states: Set<u64>, x: u64)
    requires
        closure(rules, states).contains(x),
    ensures
        closure(rules, set![x]).subset_of(closure(rules, states)),
{
    lemma_closure_monotone(rules, set![x], closure(rules, states));
    lemma_closure_idempotent(rules, states);
}

/// A free rule of `rules` from a state of the closure leads into it.
pub proof fn lemma_closure_edge(rules: Seq<RuleModel>, states: Set<u64>, from: u64, to: u64)
    requires
        closure(rules, states).contains(from),
        rules.contains(free_rule(from, to)),
    ensures
        closure(rules, states).contains(to),
{
    let j = choose|j: int| 0 <= j < rules.len() && rules[j] == free_rule(from, to);
    lemma_closure_step(rules, states, j);
}

proof fn lemma_free_edges_index(from: Seq<u64>, to: u64)
    ensures
        free_edges(from, to).len() == from.len(),
        forall|i: int| 0 <= i < from.len() ==> #[trigger] free_edges(from, to)[i] == free_rule(from[i], to),
{
}

/// Every rule of `rules` leaves and enters `states`.
pub open spec fn rules_inside(rules: Seq<RuleModel>, states: Set<u64>) -> bool {
    forall|i: int|
        0 <= i < rules.len() ==> states.contains(#[trigger] rules[i].state) && states.contains(
            rules[i].next_state,
        )
}

/// Every member of `s` is in `states`.
pub open spec fn seq_inside(s: Seq<u64>, states: Set<u64>) -> bool {
    forall|x: u64| s.contains(x) ==> states.contains(x)
}

/// The automaton `d` uses only states of `states`.
pub open spec fn design_inside(d: DesignModel, states: Set<u64>) -> bool {
    &&& states.contains(d.start)
    &&& seq_inside(d.accepts, states)
    &&& rules_inside(d.rules, states)
}

proof fn lemma_design_inside_grow(d: DesignModel, small: Set<u64>, large: Set<u64>)
    requires
        design_inside(d, small),
        small.subset_of(large),
    ensures
        design_inside(d, large),
{
}

proof fn lemma_rules_inside_append(a: Seq<RuleModel>, b: Seq<RuleModel>, states: Set<u64>)
    requires
        rules_inside(a, states),
        rules_inside(b, states),
    ensures
        rules_inside(a + b, states),
{
    assert forall|i: int| 0 <= i < (a + b).len() implies states.contains(#[trigger] (a + b)[i].state)
        && states.contains((a + b)[i].next_state) by {
        if i < a.len() {
            assert((a + b)[i] == a[i]);
            assert(states.contains(a[i].state));
        } else {
            assert((a + b)[i] == b[i - a.len()]);
            assert(states.contains(b[i - a.len()].state));
        }
    }
}

proof fn lemma_seq_inside_append(a: Seq<u64>, b: Seq<u64>, states: Set<u64>)
    requires
        seq_inside(a, states),
        seq_inside(b, states),
    ensures
        seq_inside(a + b, states),
{
    assert forall|x: u64| (a + b).contains(x) implies states.contains(x) by {
        let k = choose|k: int| 0 <= k < (a + b).len() && (a + b)[k] == x;
        if k < a.len() {
            assert(a[k] == x);
        } else {
            assert(b[k - a.len()] == x);
        }
    }
}

proof fn lemma_seq_inside_push(a: Seq<u64>, x: u64, states: Set<u64>)
    requires
        seq_inside(a, states),
        states.contains(x),
    ensures
        seq_inside(a.push(x), states),
{
    assert(a.push(x) =~= a + seq![x]);
    lemma_seq_inside_append(a, seq![x], states);
}

proof fn lemma_free_edges_inside(from: Seq<u64>, to: u64, states: Set<u64>)
    requires
        seq_inside(from, states),
        states.contains(to),
    ensures
        rules_inside(free_edges(from, to), states),
{
    assert forall|i: int| 0 <= i < free_edges(from, to).len() implies states.contains(
        #[trigger] free_edges(from, to)[i].state,
    ) && states.contains(free_edges(from, to)[i].next_state) by {
        assert(from.contains(from[i]));
    }
}

proof fn lemma_region_split(n: nat, c1: nat, c2: nat)
    ensures
        region(n, c1).subset_of(region(n, c1 + c2)),
        region(n + c1, c2).subset_of(region(n, c1 + c2)),
{
}

/// The automaton compiled for `r` from `n` on uses only the states it mints.
pub proof fn lemma_compile_region(r: Regex, n: nat)
    requires
        n + state_count(r) <= u64::MAX + 1,
    ensures
        state_count(r) >= 1,
        design_inside(compile(r, n), region(n, state_count(r))),
    decreases r,
{
    let d = compile(r, n);
    let reg = region(n, state_count(r));
    match r {
        Regex::Empty => {
            assert(seq_inside(d.accepts, reg)) by {
                assert(d.accepts =~= seq![n as u64]);
            }
        },
        Regex::Literal(_) | Regex::CharSet(_, _) | Regex::Any => {
            assert(seq_inside(d.accepts, reg)) by {
                assert(d.accepts[0] == (n + 1) as u64);
            }
        },
        Regex::Concatenate(l, rr) => {
            let cl = state_count(*l);
            let cr = state_count(*rr);
            lemma_compile_region(*l, n);
            lemma_compile_region(*rr, n + cl);
            let a = compile(*l, n);
            let b = compile(*rr, n + cl);
            lemma_region_split(n, cl, cr);
            lemma_design_inside_grow(a, region(n, cl), reg);
            lemma_design_inside_grow(b, region(n + cl, cr), reg);
            lemma_free_edges_inside(a.accepts, b.start, reg);
            lemma_rules_inside_append(a.rules, b.rules, reg);
            lemma_rules_inside_append(a.rules + b.rules, free_edges(a.accepts, b.start), reg);
        },
        Regex::Choose(l, rr) => {
            let cl = state_count(*l);
            let cr = state_count(*rr);
            lemma_compile_region(*l, n);
            lemma_compile_region(*rr, n + cl);
            let a = compile(*l, n);
            let b = compile(*rr, n + cl);
            lemma_region_split(n, cl, cr + 1);
            lemma_region_split(n + cl, cr, 1);
            lemma_design_inside_grow(a, region(n, cl), reg);
            lemma_design_inside_grow(b, region(n + cl, cr), reg);
            lemma_seq_inside_append(a.accepts, b.accepts, reg);
            lemma_rules_inside_append(a.rules, b.rules, reg);
            let s = (n + cl + cr) as u64;
            assert(rules_inside(seq![free_rule(s, a.start), free_rule(s, b.start)], reg));
            lemma_rules_inside_append(a.rules + b.rules, seq![free_rule(s, a.start), free_rule(s, b.start)], reg);
        },
        Regex::Repeat(p) => {
            let cp = state_count(*p);
            lemma_compile_region(*p, n);
            let a = compile(*p, n);
            lemma_region_split(n, cp, 1);
            lemma_design_inside_grow(a, region(n, cp), reg);
            let s = (n + cp) as u64;
            lemma_seq_inside_push(a.accepts, s, reg);
            lemma_free_edges_inside(a.accepts.push(s), a.start, reg);
            lemma_rules_inside_append(a.rules, free_edges(a.accepts.push(s), a.start), reg);
        },
        Regex::Plus(p) => {
            let cp = state_count(*p);
            lemma_compile_region(*p, n);
            let a = compile(*p, n);
            lemma_region_split(n, cp, 1);
            lemma_design_inside_grow(a, region(n, cp), reg);
            let s = (n + cp) as u64;
            lemma_free_edges_inside(a.accepts, a.start, reg);
            lemma_rules_inside_append(a.rules, free_edges(a.accepts, a.start), reg);
            assert(rules_inside(seq![free_rule(s, a.start)], reg));
            lemma_rules_inside_append(a.rules + free_edges(a.accepts, a.start), seq![free_rule(s, a.start)], reg);
        },
        Regex::Optional(p) => {
            let cp = state_count(*p);
            lemma_compile_region(*p, n);
            let a = compile(*p, n);
            lemma_region_split(n, cp, 1);
            lemma_design_inside_grow(a, region(n, cp), reg);
            let s = (n + cp) as u64;
            lemma_seq_inside_push(a.accepts, s, reg);
            assert(rules_inside(seq![free_rule(s, a.start)], reg));
            lemma_rules_inside_append(a.rules, seq![free_rule(s, a.start)], reg);
            assert(a.rules.push(free_rule(s, a.start)) =~= a.rules + seq![free_rule(s, a.start)]);
        },
    }
}

/// The two sets share no state.
pub open spec fn apart(a: Set<u64>, b: Set<u64>) -> bool {
    forall|x: u64| !(a.contains(x) && b.contains(x))
}

/// The states that free moves reach from the start state of `d`.
pub open spec fn start_closure(d: DesignModel) -> Set<u64> {
    closure(d.rules, set![d.start])
}

/// Whether free moves alone lead `d` from its start to an accepting state.
pub open spec fn reaches_accept(d: DesignModel) -> bool {
    meets(start_closure(d), d.accepts.to_set())
}

proof fn lemma_start_closure_inside(d: DesignModel, states: Set<u64>)
    requires
        design_inside(d, states),
    ensures
        start_closure(d).subset_of(states),
{
    assert forall|i: int| 0 <= i < d.rules.len() implies states.contains(#[trigger] d.rules[i].next_state) by {
        assert(states.contains(d.rules[i].state));
    }
    lemma_closed_when_targets_in(d.rules, states);
    lemma_closure_least(d.rules, set![d.start], states);
}

/// `d`'s rules, and a free rule from `from` to `to`, all stand in `total`.
proof fn lemma_reach_through(total: Seq<RuleModel>, start: u64, d: DesignModel)
    requires
        closure(total, set![start]).contains(d.start),
        rules_within(d.rules, total),
    ensures
        start_closure(d).subset_of(closure(total, set![start])),
{
    lemma_closure_through(total, set![start], d.start);
    lemma_closure_more_rules(d.rules, total, set![d.start]);
}

proof fn lemma_within_append(a: Seq<RuleModel>, b: Seq<RuleModel>, c: Seq<RuleModel>)
    ensures
        rules_within(a, a + b + c),
        rules_within(b, a + b + c),
        rules_within(c, a + b + c),
{
    let t = a + b + c;
    assert forall|i: int| 0 <= i < a.len() implies t.contains(#[trigger] a[i]) by {
        assert(t[i] == a[i]);
    }
    assert forall|i: int| 0 <= i < b.len() implies t.contains(#[trigger] b[i]) by {
        assert(t[a.len() + i] == b[i]);
    }
    assert forall|i: int| 0 <= i < c.len() implies t.contains(#[trigger] c[i]) by {
        assert(t[a.len() + b.len() + i] == c[i]);
    }
}

pub proof fn lemma_start_in_closure(rules: Seq<RuleModel>, start: u64)
    ensures
        closure(rules, set![start]).contains(start),
{
    lemma_closure_extensive(rules, set![start]);
}

proof fn lemma_concat_case(a: DesignModel, b: DesignModel, ra: Set<u64>, rb: Set<u64>)
    requires
        design_inside(a, ra),
        design_inside(b, rb),
        apart(ra, rb),
    ensures
        reaches_accept(
            DesignModel {
                start: a.start,
                accepts: b.accepts,
                rules: a.rules + b.rules + free_edges(a.accepts, b.start),
            },
        ) == (reaches_accept(a) && reaches_accept(b)),
{
    let edges = free_edges(a.accepts, b.start);
    let total = a.rules + b.rules + edges;
    let d = DesignModel { start: a.start, accepts: b.accepts, rules: total };
    let ct = start_closure(d);
    let ca = start_closure(a);
    let cb = start_closure(b);
    lemma_start_closure_inside(a, ra);
    lemma_start_closure_inside(b, rb);
    lemma_within_append(a.rules, b.rules, edges);
    lemma_free_edges_index(a.accepts, b.start);
    lemma_start_in_closure(total, a.start);
    if reaches_accept(a) && reaches_accept(b) {
        lemma_reach_through(total, a.start, a);
        let x = choose|x: u64| ca.contains(x) && a.accepts.to_set().contains(x);
        let k = choose|k: int| 0 <= k < a.accepts.len() && a.accepts[k] == x;
        assert(edges[k] == free_rule(x, b.start));
        assert(total.contains(free_rule(x, b.start))) by {
            assert(total[a.rules.len() + b.rules.len() + k] == edges[k]);
        }
        lemma_closure_edge(total, set![a.start], x, b.start);
        lemma_reach_through(total, a.start, b);
        let y = choose|y: u64| cb.contains(y) && b.accepts.to_set().contains(y);
        assert(ct.contains(y));
    } else if !reaches_accept(a) {
        lemma_closure_closed(a.rules, set![a.start]);
        assert(no_source_in(b.rules, ca));
        assert(no_source_in(edges, ca)) by {
            assert forall|i: int| 0 <= i < edges.len() implies !ca.contains(#[trigger] edges[i].state) by {
                assert(a.accepts.to_set().contains(a.accepts[i]));
            }
        }
        lemma_closed_append(a.rules, b.rules, ca);
        lemma_closed_append(a.rules + b.rules, edges, ca);
        lemma_closure_extensive(a.rules, set![a.start]);
        lemma_closure_least(total, set![a.start], ca);
        if meets(ct, b.accepts.to_set()) {
            let x = choose|x: u64| ct.contains(x) && b.accepts.to_set().contains(x);
            assert(rb.contains(x));
        }
    } else {
        let t = ca.union(cb);
        lemma_closure_closed(a.rules, set![a.start]);
        lemma_closure_closed(b.rules, set![b.start]);
        assert(no_source_in(a.rules, cb));
        assert(no_source_in(b.rules, ca));
        lemma_closed_union(a.rules, ca, cb);
        lemma_closed_union(b.rules, ca, cb);
        lemma_start_in_closure(b.rules, b.start);
        assert(targets_in(edges, t));
        lemma_closed_when_targets_in(edges, t);
        lemma_closed_append(a.rules, b.rules, t);
        lemma_closed_append(a.rules + b.rules, edges, t);
        lemma_start_in_closure(a.rules, a.start);
        lemma_closure_least(total, set![a.start], t);
        if meets(ct, b.accepts.to_set()) {
            let x = choose|x: u64| ct.contains(x) && b.accepts.to_set().contains(x);
            assert(rb.contains(x));
            assert(cb.contains(x));
        }
    }
}

proof fn lemma_choose_case(a: DesignModel, b: DesignModel, ra: Set<u64>, rb: Set<u64>, s: u64)
    requires
        design_inside(a, ra),
        design_inside(b, rb),
        apart(ra, rb),
        !ra.contains(s),
        !rb.contains(s),
    ensures
        reaches_accept(
            DesignModel {
                start: s,
                accepts: a.accepts + b.accepts,
                rules: a.rules + b.rules + seq![free_rule(s, a.start), free_rule(s, b.start)],
            },
        ) == (reaches_accept(a) || reaches_accept(b)),
{
    let edges = seq![free_rule(s, a.start), free_rule(s, b.start)];
    let total = a.rules + b.rules + edges;
    let acc = a.accepts + b.accepts;
    let d = DesignModel { start: s, accepts: acc, rules: total };
    let ct = start_closure(d);
    let ca = start_closure(a);
    let cb = start_closure(b);
    lemma_start_closure_inside(a, ra);
    lemma_start_closure_inside(b, rb);
    lemma_within_append(a.rules, b.rules, edges);
    lemma_start_in_closure(total, s);
    assert(total.contains(free_rule(s, a.start))) by {
        assert(total[(a.rules.len() + b.rules.len()) as int] == edges[0]);
    }
    assert(total.contains(free_rule(s, b.start))) by {
        assert(total[(a.rules.len() + b.rules.len() + 1) as int] == edges[1]);
    }
    if reaches_accept(a) {
        lemma_closure_edge(total, set![s], s, a.start);
        lemma_reach_through(total, s, a);
        let x = choose|x: u64| ca.contains(x) && a.accepts.to_set().contains(x);
        let k = choose|k: int| 0 <= k < a.accepts.len() && a.accepts[k] == x;
        assert(acc[k] == x);
        assert(acc.to_set().contains(x));
        assert(ct.contains(x));
    } else if reaches_accept(b) {
        lemma_closure_edge(total, set![s], s, b.start);
        lemma_reach_through(total, s, b);
        let x = choose|x: u64| cb.contains(x) && b.accepts.to_set().contains(x);
        let k = choose|k: int| 0 <= k < b.accepts.len() && b.accepts[k] == x;
        assert(acc[a.accepts.len() + k] == x);
        assert(acc.to_set().contains(x));
        assert(ct.contains(x));
    } else {
        let one = set![s];
        let t = one.union(ca).union(cb);
        lemma_closure_closed(a.rules, set![a.start]);
        lemma_closure_closed(b.rules, set![b.start]);
        assert(no_source_in(a.rules, one));
        assert(no_source_in(a.rules, cb));
        assert(no_source_in(b.rules, one));
        assert(no_source_in(b.rules, ca));
        lemma_closed_union(a.rules, one, ca);
        lemma_closed_union(a.rules, one.union(ca), cb);
        lemma_closed_union(b.rules, one, ca);
        lemma_closed_union(b.rules, one.union(ca), cb);
        lemma_start_in_closure(a.rules, a.start);
        lemma_start_in_closure(b.rules, b.start);
        assert(targets_in(edges, t));
        lemma_closed_when_targets_in(edges, t);
        lemma_closed_append(a.rules, b.rules, t);
        lemma_closed_append(a.rules + b.rules, edges, t);
        lemma_closure_least(total, set![s], t);
        if meets(ct, acc.to_set()) {
            let x = choose|x: u64| ct.contains(x) && acc.to_set().contains(x);
            let k = choose|k: int| 0 <= k < acc.len() && acc[k] == x;
            if k < a.accepts.len() {
                assert(a.accepts[k] == x);
                assert(ra.contains(x));
                assert(a.accepts.to_set().contains(x));
            } else {
                assert(b.accepts[k - a.accepts.len()] == x);
                assert(rb.contains(x));
                assert(b.accepts.to_set().contains(x));
            }
        }
    }
}

proof fn lemma_plus_case(a: DesignModel, ra: Set<u64>, s: u64)
    requires
        design_inside(a, ra),
        !ra.contains(s),
    ensures
        reaches_accept(
            DesignModel {
                start: s,
                accepts: a.accepts,
                rules: a.rules + free_edges(a.accepts, a.start) + seq![free_rule(s, a.start)],
            },
        ) == reaches_accept(a),
{
    let edges = free_edges(a.accepts, a.start);
    let last = seq![free_rule(s, a.start)];
    let total = a.rules + edges + last;
    let d = DesignModel { start: s, accepts: a.accepts, rules: total };
    let ct = start_closure(d);
    let ca = start_closure(a);
    lemma_start_closure_inside(a, ra);
    lemma_within_append(a.rules, edges, last);
    lemma_free_edges_index(a.accepts, a.start);
    lemma_start_in_closure(total, s);
    assert(total.contains(free_rule(s, a.start))) by {
        assert(total[(a.rules.len() + edges.len()) as int] == last[0]);
    }
    if reaches_accept(a) {
        lemma_closure_edge(total, set![s], s, a.start);
        lemma_reach_through(total, s, a);
        let x = choose|x: u64| ca.contains(x) && a.accepts.to_set().contains(x);
        assert(ct.contains(x));
    } else {
        let one = set![s];
        let t = one.union(ca);
        lemma_closure_closed(a.rules, set![a.start]);
        assert(no_source_in(a.rules, one));
        lemma_closed_union(a.rules, one, ca);
        assert(no_source_in(edges, t)) by {
            assert forall|i: int| 0 <= i < edges.len() implies !t.contains(#[trigger] edges[i].state) by {
                assert(a.accepts.to_set().contains(a.accepts[i]));
                assert(ra.contains(a.accepts[i]));
            }
        }
        lemma_start_in_closure(a.rules, a.start);
        assert(targets_in(last, t));
        lemma_closed_when_targets_in(last, t);
        lemma_closed_append(a.rules, edges, t);
        lemma_closed_append(a.rules + edges, last, t);
        lemma_closure_least(total, set![s], t);
        if meets(ct, a.accepts.to_set()) {
            let x = choose|x: u64| ct.contains(x) && a.accepts.to_set().contains(x);
            assert(ra.contains(x));
        }
    }
}

/// Free moves lead the automaton compiled for `r` from its start to an accepting
/// state exactly when `r` is nullable.
proof fn lemma_reaches_accept_iff_nullable(r: Regex, n: nat)
    requires
        n + state_count(r) <= u64::MAX + 1,
    ensures
        reaches_accept(compile(r, n)) == nullable(r),
    decreases r,
{
    lemma_compile_region(r, n);
    let d = compile(r, n);
    lemma_start_in_closure(d.rules, d.start);
    match r {
        Regex::Empty => {
            assert(d.accepts.to_set().contains(d.accepts[0]));
        },
        Regex::Literal(_) | Regex::CharSet(_, _) | Regex::Any => {
            lemma_closed_fixed(d.rules, set![d.start]);
            if meets(start_closure(d), d.accepts.to_set()) {
                let x = choose|x: u64| start_closure(d).contains(x) && d.accepts.to_set().contains(x);
                assert(d.accepts =~= seq![(n + 1) as u64]);
            }
        },
        Regex::Concatenate(l, rr) => {
            let cl = state_count(*l);
            let cr = state_count(*rr);
            lemma_reaches_accept_iff_nullable(*l, n);
            lemma_reaches_accept_iff_nullable(*rr, n + cl);
            lemma_compile_region(*l, n);
            lemma_compile_region(*rr, n + cl);
            lemma_concat_case(compile(*l, n), compile(*rr, n + cl), region(n, cl), region(n + cl, cr));
        },
        Regex::Choose(l, rr) => {
            let cl = state_count(*l);
            let cr = state_count(*rr);
            lemma_reaches_accept_iff_nullable(*l, n);
            lemma_reaches_accept_iff_nullable(*rr, n + cl);
            lemma_compile_region(*l, n);
            lemma_compile_region(*rr, n + cl);
            lemma_choose_case(
                compile(*l, n),
                compile(*rr, n + cl),
                region(n, cl),
                region(n + cl, cr),
                (n + cl + cr) as u64,
            );
        },
        Regex::Repeat(_) | Regex::Optional(_) => {
            assert(d.accepts[d.accepts.len() - 1] == d.start);
            assert(d.accepts.to_set().contains(d.start));
        },
        Regex::Plus(p) => {
            let cp = state_count(*p);
            lemma_reaches_accept_iff_nullable(*p, n);
            lemma_compile_region(*p, n);
            lemma_plus_case(compile(*p, n), region(n, cp), (n + cp) as u64);
        },
    }
}

/// An expression matches the empty string exactly when its language holds
/// the empty string.
pub proof fn law_empty_match_iff_nullable(r: Regex)
    requires
        fits(r),
    ensures
        regex_matches(r, Seq::empty()) == nullable(r),
{
    lemma_reaches_accept_iff_nullable(r, 0);
    let d = compile(r, 0);
    assert(run(d.rules, start_closure(d), Seq::empty()) == start_closure(d));
}

} // verus!
