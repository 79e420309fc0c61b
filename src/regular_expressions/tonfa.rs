use vstd::prelude::*;

use crate::finite_automata::farule::{FARule, RuleKind, RuleModel, rules_model};
use crate::finite_automata::nfadesign::{DesignModel, NFADesign, design_accepts};
use crate::finite_automata::nfarulebook::NFARulebook;
use super::regex::Regex;

verus! {

/// A free move from `from` to `to`.
pub open spec fn free_rule(from: u64, to: u64) -> RuleModel {
    RuleModel { state: from, kind: RuleKind::Free, next_state: to }
}

/// A free move from each of `from`, in order, to `to`.
pub open spec fn free_edges(from: Seq<u64>, to: u64) -> Seq<RuleModel> {
    from.map_values(|a: u64| free_rule(a, to))
}

/// How many fresh states compiling `r` mints.
pub open spec fn state_count(r: Regex) -> nat
    decreases r,
{
    match r {
        Regex::Empty => 1,
        Regex::Literal(_) | Regex::CharSet(_, _) | Regex::Any => 2,
        Regex::Concatenate(l, r) => state_count(*l) + state_count(*r),
        Regex::Choose(l, r) => state_count(*l) + state_count(*r) + 1,
        Regex::Repeat(p) | Regex::Plus(p) | Regex::Optional(p) => state_count(*p) + 1,
    }
}

/// Thompson's construction: the automaton for `r` whose states are minted
/// in order from `next` on. Every construction has one fresh start state;
/// subexpressions are joined by free moves.
pub open spec fn compile(r: Regex, next: nat) -> DesignModel
    decreases r,
{
    match r {
        Regex::Empty => DesignModel { start: next as u64, accepts: seq![next as u64], rules: seq![] },
        Regex::Literal(c) => DesignModel {
            start: next as u64,
            accepts: seq![(next + 1) as u64],
            rules: seq![RuleModel { state: next as u64, kind: RuleKind::Char(c), next_state: (next + 1) as u64 }],
        },
        Regex::CharSet(set, reverse) => DesignModel {
            start: next as u64,
            accepts: seq![(next + 1) as u64],
            rules: seq![RuleModel { state: next as u64, kind: RuleKind::Members(set@, reverse), next_state: (next + 1) as u64 }],
        },
        Regex::Any => DesignModel {
            start: next as u64,
            accepts: seq![(next + 1) as u64],
            rules: seq![RuleModel { state: next as u64, kind: RuleKind::Any, next_state: (next + 1) as u64 }],
        },
        Regex::Concatenate(l, r) => {
            let a = compile(*l, next);
            let b = compile(*r, next + state_count(*l));
            DesignModel { start: a.start, accepts: b.accepts, rules: a.rules + b.rules + free_edges(a.accepts, b.start) }
        },
        Regex::Choose(l, r) => {
            let a = compile(*l, next);
            let b = compile(*r, next + state_count(*l));
            let s = (next + state_count(*l) + state_count(*r)) as u64;
            DesignModel {
                start: s,
                accepts: a.accepts + b.accepts,
                rules: a.rules + b.rules + seq![free_rule(s, a.start), free_rule(s, b.start)],
            }
        },
        Regex::Repeat(p) => {
            let a = compile(*p, next);
            let s = (next + state_count(*p)) as u64;
            let accepts = a.accepts.push(s);
            DesignModel { start: s, accepts, rules: a.rules + free_edges(accepts, a.start) }
        },
        Regex::Plus(p) => {
            let a = compile(*p, next);
            let s = (next + state_count(*p)) as u64;
            DesignModel {
                start: s,
                accepts: a.accepts,
                rules: a.rules + free_edges(a.accepts, a.start) + seq![free_rule(s, a.start)],
            }
        },
        Regex::Optional(p) => {
            let a = compile(*p, next);
            let s = (next + state_count(*p)) as u64;
            DesignModel { start: s, accepts: a.accepts.push(s), rules: a.rules.push(free_rule(s, a.start)) }
        },
    }
}

/// The states minted for `r` fit in `u64`.
pub open spec fn fits(r: Regex) -> bool {
    state_count(r) <= u64::MAX
}

/// Whether `r` matches the whole of `input`: the automaton that the
/// construction builds accepts it.
pub open spec fn regex_matches(r: Regex, input: Seq<char>) -> bool {
    design_accepts(compile(r, 0), input)
}

/// Appends a free move from each of `from` to `to`.
fn add_free_edges(rules: &mut Vec<FARule>, from: &Vec<u64>, to: u64)
    ensures
        rules_model(final(rules)@) == rules_model(old(rules)@) + free_edges(from@, to),
{
    let ghost start = rules_model(rules@);
    for k in 0..from.len()
        invariant
            rules_model(rules@) == start + free_edges(from@.subrange(0, k as int), to),
    {
        let ghost before = rules@;
        rules.push(FARule::new_rulefree(&from[k], &to));
        assert(rules_model(rules@) =~= rules_model(before) + seq![free_rule(from@[k as int], to)]);
        assert(free_edges(from@.subrange(0, k + 1), to) =~= free_edges(from@.subrange(0, k as int), to) + seq![
            free_rule(from@[k as int], to)]);
    }
    assert(from@.subrange(0, from@.len() as int) =~= from@);
}

/// Appends the rules of `more`.
fn append_rules(rules: &mut Vec<FARule>, more: Vec<FARule>)
    ensures
        rules_model(final(rules)@) == rules_model(old(rules)@) + rules_model(more@),
{
    let mut more = more;
    let ghost a = rules@;
    let ghost b = more@;
    rules.append(&mut more);
    assert(rules_model(rules@) =~= rules_model(a) + rules_model(b));
}

impl Regex {
    /// Builds the automaton for `self` with states minted from `*next` on,
    /// and advances `*next` past them.
    fn build(&self, next: &mut u64) -> (r: NFADesign)
        requires
            *old(next) + state_count(*self) <= u64::MAX,
        ensures
            r@ == compile(*self, *old(next) as nat),
            *final(next) == *old(next) + state_count(*self),
        decreases *self,
    {
        match self {
            Regex::Empty => {
                let s = *next;
                *next = s + 1;
                let accepts = vec![s];
                let rules: Vec<FARule> = Vec::new();
                assert(accepts@ =~= seq![s]);
                assert(rules_model(rules@) =~= seq![]);
                NFADesign::from_list(&s, &accepts, &NFARulebook::new(rules))
            },
            Regex::Literal(c) => {
                let s = *next;
                let a = s + 1;
                *next = s + 2;
                let accepts = vec![a];
                let rules = vec![FARule::new_rulechar(&s, *c, &a)];
                assert(accepts@ =~= seq![a]);
                assert(rules_model(rules@) =~= seq![rules@[0]@]);
                NFADesign::from_list(&s, &accepts, &NFARulebook::new(rules))
            },
            Regex::CharSet(set, reverse) => {
                let s = *next;
                let a = s + 1;
                *next = s + 2;
                let accepts = vec![a];
                let rules = vec![FARule::new_ruleset(&s, &a, set, *reverse)];
                assert(accepts@ =~= seq![a]);
                assert(rules_model(rules@) =~= seq![rules@[0]@]);
                NFADesign::from_list(&s, &accepts, &NFARulebook::new(rules))
            },
            Regex::Any => {
                let s = *next;
                let a = s + 1;
                *next = s + 2;
                let accepts = vec![a];
                let rules = vec![FARule::new_ruleany(&s, &a)];
                assert(accepts@ =~= seq![a]);
                assert(rules_model(rules@) =~= seq![rules@[0]@]);
                NFADesign::from_list(&s, &accepts, &NFARulebook::new(rules))
            },
            Regex::Concatenate(l, r) => {
                let first = l.build(next);
                let second = r.build(next);
                let mut rules = first.rules();
                append_rules(&mut rules, second.rules());
                add_free_edges(&mut rules, &first.accept_list(), second.start_state());
                NFADesign::from_list(&first.start_state(), &second.accept_list(), &NFARulebook::new(rules))
            },
            Regex::Choose(l, r) => {
                let first = l.build(next);
                let second = r.build(next);
                let s = *next;
                *next = s + 1;
                let mut accepts = first.accept_list();
                let mut more = second.accept_list();
                let ghost a1 = accepts@;
                let ghost a2 = more@;
                accepts.append(&mut more);
                assert(accepts@ == a1 + a2);
                let mut rules = first.rules();
                append_rules(&mut rules, second.rules());
                let edges = vec![
                    FARule::new_rulefree(&s, &first.start_state()),
                    FARule::new_rulefree(&s, &second.start_state()),
                ];
                assert(rules_model(edges@) =~= seq![edges@[0]@, edges@[1]@]);
                append_rules(&mut rules, edges);
                NFADesign::from_list(&s, &accepts, &NFARulebook::new(rules))
            },
            Regex::Repeat(p) => {
                let inner = p.build(next);
                let s = *next;
                *next = s + 1;
                let mut accepts = inner.accept_list();
                accepts.push(s);
                let mut rules = inner.rules();
                add_free_edges(&mut rules, &accepts, inner.start_state());
                NFADesign::from_list(&s, &accepts, &NFARulebook::new(rules))
            },
            Regex::Plus(p) => {
                let inner = p.build(next);
                let s = *next;
                *next = s + 1;
                let accepts = inner.accept_list();
                let mut rules = inner.rules();
                add_free_edges(&mut rules, &accepts, inner.start_state());
                let edges = vec![FARule::new_rulefree(&s, &inner.start_state())];
                assert(rules_model(edges@) =~= seq![edges@[0]@]);
                append_rules(&mut rules, edges);
                NFADesign::from_list(&s, &accepts, &NFARulebook::new(rules))
            },
            Regex::Optional(p) => {
                let inner = p.build(next);
                let s = *next;
                *next = s + 1;
                let mut accepts = inner.accept_list();
                accepts.push(s);
                let mut rules = inner.rules();
                let edges = vec![FARule::new_rulefree(&s, &inner.start_state())];
                assert(rules_model(edges@) =~= seq![edges@[0]@]);
                let ghost before = rules_model(rules@);
                append_rules(&mut rules, edges);
                assert(rules_model(rules@) =~= before.push(free_rule(s, inner@.start)));
                NFADesign::from_list(&s, &accepts, &NFARulebook::new(rules))
            },
        }
    }

    /// The automaton of Thompson's construction for `self`, its states
    /// numbered from zero.
    pub fn to_nfa_design(&self) -> (r: NFADesign)
        requires
            fits(*self),
        ensures
            r@ == compile(*self, 0),
    {
        let mut next: u64 = 0;
        self.build(&mut next)
    }

    /// Whether `self` matches the whole of `s`.
    pub fn matches(&self, s: &str) -> (r: bool)
        requires
            fits(*self),
        ensures
            r == regex_matches(*self, s@),
    {
        self.to_nfa_design().accept(s)
    }
}

} // verus!
