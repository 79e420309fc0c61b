use vstd::prelude::*;

use crate::finite_automata::faruledata::FARuleData;
use crate::finite_automata::farule::{RuleKind, RuleModel};
use crate::finite_automata::nfa::{meets, run};
use crate::finite_automata::nfadesign::{DesignModel, design_accepts};
use crate::finite_automata::nfarulebook::{
    closure, is_closed, lemma_closed_fixed, lemma_closure_extensive, lemma_closure_idempotent,
    lemma_closure_monotone, step,
};
use super::nullable::{lemma_closure_edge, lemma_closure_more_rules, rules_within};
use super::regex::Regex;
use super::tonfa::{compile, fits, free_edges, free_rule, regex_matches};

verus! {

/// Without free rules every set is closed.
proof fn lemma_no_free_rules_closed(rules: Seq<RuleModel>, states: Set<u64>)
    requires
        forall|i: int| 0 <= i < rules.len() ==> !(rules[i].kind is Free),
    ensures
        is_closed(rules, states),
{
}

/// A character set matches a one-character string exactly when its
/// predicate fires on that character.
proof fn lemma_char_set_single(members: Vec<FARuleData>, reverse: bool, c: char)
    ensures
        regex_matches(Regex::CharSet(members, reverse), seq![c])
            == RuleKind::Members(members@, reverse).fires(Some(c)),
{
    let d = compile(Regex::CharSet(members, reverse), 0);
    let input = seq![c];
    lemma_no_free_rules_closed(d.rules, set![0u64]);
    lemma_closed_fixed(d.rules, set![0u64]);
    let after = step(d.rules, set![0u64], Some(c));
    if RuleKind::Members(members@, reverse).fires(Some(c)) {
        assert(after =~= set![1u64]) by {
            assert(d.rules[0].next_state == 1u64);
        }
    } else {
        assert(after =~= Set::<u64>::empty());
    }
    lemma_no_free_rules_closed(d.rules, after);
    lemma_closed_fixed(d.rules, after);
    assert(input.drop_first() =~= Seq::<char>::empty());
    assert(input[0] == c);
    assert(d.start == 0u64);
    assert(run(d.rules, after, input.drop_first()) == after);
    assert(run(d.rules, closure(d.rules, set![0u64]), input) == run(d.rules, closure(d.rules, after), input.drop_first()));
    assert(run(d.rules, closure(d.rules, set![0u64]), input) == after);
    assert(d.accepts.to_set() =~= set![1u64]) by {
        assert(d.accepts[0] == 1u64);
    }
    if RuleKind::Members(members@, reverse).fires(Some(c)) {
        assert(after.contains(1u64));
    }
}

/// A character is matched by exactly one of a character set and its
/// negation.
pub proof fn law_set_negation(members: Vec<FARuleData>, c: char)
    ensures
        regex_matches(Regex::CharSet(members, true), seq![c])
            != regex_matches(Regex::CharSet(members, false), seq![c]),
{
    lemma_char_set_single(members, true, c);
    lemma_char_set_single(members, false, c);
}

/// The star of any expression matches the empty string.
pub proof fn law_repeat_matches_empty(p: Box<Regex>)
    ensures
        regex_matches(Regex::Repeat(p), Seq::empty()),
{
    let d = compile(Regex::Repeat(p), 0);
    lemma_closure_extensive(d.rules, set![d.start]);
    let current = closure(d.rules, set![d.start]);
    assert(current.contains(d.start));
    assert(d.accepts[d.accepts.len() - 1] == d.start);
    assert(d.accepts.to_set().contains(d.start));
    assert(run(d.rules, current, Seq::empty()) == current);
}

/// Reading `a` and then `b` is reading `a + b`.
proof fn lemma_run_append(rules: Seq<RuleModel>, current: Set<u64>, a: Seq<char>, b: Seq<char>)
    ensures
        run(rules, current, a + b) == run(rules, run(rules, current, a), b),
    decreases a.len(),
{
    if a.len() == 0 {
        assert(a + b =~= b);
    } else {
        assert((a + b)[0] == a[0]);
        assert((a + b).drop_first() =~= a.drop_first() + b);
        lemma_run_append(rules, closure(rules, step(rules, current, Some(a[0]))), a.drop_first(), b);
    }
}

/// More rules and more starting states give more states after any input.
proof fn lemma_run_monotone(small: Seq<RuleModel>, large: Seq<RuleModel>, x: Set<u64>, y: Set<u64>, input: Seq<char>)
    requires
        rules_within(small, large),
        x.subset_of(y),
    ensures
        run(small, x, input).subset_of(run(large, y, input)),
    decreases input.len(),
{
    if input.len() > 0 {
        let c = input[0];
        let sx = step(small, x, Some(c));
        let ly = step(large, y, Some(c));
        assert(sx.subset_of(ly)) by {
            assert forall|t: u64| sx.contains(t) implies ly.contains(t) by {
                let i = choose|i: int| 0 <= i < small.len() && x.contains(small[i].state) && small[i].kind.fires(Some(c)) && small[i].next_state == t;
                assert(large.contains(small[i]));
                let j = choose|j: int| 0 <= j < large.len() && large[j] == small[i];
            }
        }
        lemma_closure_more_rules(small, large, sx);
        lemma_closure_monotone(large, sx, ly);
        lemma_run_monotone(small, large, closure(small, sx), closure(large, ly), input.drop_first());
    }
}

/// After any input a run from a closed set stands in a closed set.
proof fn lemma_run_closed(rules: Seq<RuleModel>, current: Set<u64>, input: Seq<char>)
    requires
        closure(rules, current) == current,
    ensures
        closure(rules, run(rules, current, input)) == run(rules, current, input),
    decreases input.len(),
{
    if input.len() > 0 {
        let moved = step(rules, current, Some(input[0]));
        lemma_closure_idempotent(rules, moved);
        lemma_run_closed(rules, closure(rules, moved), input.drop_first());
    }
}

/// Reading the pieces one after another from a closed set that holds the
/// start of the repeated automaton `p`, the star automaton `d` keeps
/// reaching an accepting state and the start of `p`.
proof fn lemma_repeat_pieces(d: DesignModel, p: DesignModel, current: Set<u64>, pieces: Seq<Seq<char>>)
    requires
        rules_within(p.rules, d.rules),
        forall|x: u64| p.accepts.contains(x) ==> d.accepts.contains(x),
        forall|x: u64| d.accepts.contains(x) ==> d.rules.contains(free_rule(x, p.start)),
        closure(d.rules, current) == current,
        current.contains(p.start),
        meets(current, d.accepts.to_set()),
        forall|i: int| 0 <= i < pieces.len() ==> design_accepts(p, #[trigger] pieces[i]),
    ensures
        meets(run(d.rules, current, pieces.flatten()), d.accepts.to_set()),
    decreases pieces.len(),
{
    if pieces.len() > 0 {
        let w = pieces[0];
        let rest = pieces.drop_first();
        assert(pieces.flatten() == w + rest.flatten());
        lemma_run_append(d.rules, current, w, rest.flatten());
        let after = run(d.rules, current, w);
        lemma_run_closed(d.rules, current, w);
        let pstart = closure(p.rules, set![p.start]);
        assert(pstart.subset_of(current)) by {
            lemma_closure_more_rules(p.rules, d.rules, set![p.start]);
            lemma_closure_monotone(d.rules, set![p.start], current);
        }
        lemma_run_monotone(p.rules, d.rules, pstart, current, w);
        assert(design_accepts(p, pieces[0]));
        let a = choose|a: u64| run(p.rules, pstart, w).contains(a) && p.accepts.to_set().contains(a);
        assert(after.contains(a));
        assert(d.accepts.to_set().contains(a));
        lemma_closure_edge(d.rules, after, a, p.start);
        assert forall|i: int| 0 <= i < rest.len() implies design_accepts(p, #[trigger] rest[i]) by {
            assert(rest[i] == pieces[i + 1]);
        }
        lemma_repeat_pieces(d, p, after, rest);
    }
}

/// The star of an expression matches every concatenation of strings that
/// the expression matches.
pub proof fn law_repeat_matches_concatenations(p: Box<Regex>, pieces: Seq<Seq<char>>)
    requires
        fits(Regex::Repeat(p)),
        forall|i: int| 0 <= i < pieces.len() ==> regex_matches(*p, #[trigger] pieces[i]),
    ensures
        regex_matches(Regex::Repeat(p), pieces.flatten()),
{
    let d = compile(Regex::Repeat(p), 0);
    let a = compile(*p, 0);
    let s = d.start;
    let edges = free_edges(d.accepts, a.start);
    assert(d.rules == a.rules + edges);
    assert(rules_within(a.rules, d.rules)) by {
        assert forall|i: int| 0 <= i < a.rules.len() implies d.rules.contains(#[trigger] a.rules[i]) by {
            assert(d.rules[i] == a.rules[i]);
        }
    }
    assert forall|x: u64| a.accepts.contains(x) implies d.accepts.contains(x) by {
        let k = choose|k: int| 0 <= k < a.accepts.len() && a.accepts[k] == x;
        assert(d.accepts[k] == x);
    }
    assert forall|x: u64| d.accepts.contains(x) implies d.rules.contains(free_rule(x, a.start)) by {
        let k = choose|k: int| 0 <= k < d.accepts.len() && d.accepts[k] == x;
        assert(edges[k] == free_rule(x, a.start));
        assert(d.rules[a.rules.len() + k] == edges[k]);
    }
    let start = closure(d.rules, set![s]);
    lemma_closure_idempotent(d.rules, set![s]);
    lemma_closure_extensive(d.rules, set![s]);
    assert(d.accepts[d.accepts.len() - 1] == s);
    assert(d.accepts.contains(s));
    assert(d.accepts.to_set().contains(s));
    lemma_closure_edge(d.rules, set![s], s, a.start);
    lemma_repeat_pieces(d, a, start, pieces);
}

} // verus!
