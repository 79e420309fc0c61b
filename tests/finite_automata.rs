use std::collections::HashSet;

use nfa_regex::finite_automata::dfa::DFA;
use nfa_regex::finite_automata::dfadesign::DFADesign;
use nfa_regex::finite_automata::dfarulebook::DFARulebook;
use nfa_regex::finite_automata::farule::FARule;
use nfa_regex::finite_automata::faruledata::FARuleData;
use nfa_regex::finite_automata::nfa::NFA;
use nfa_regex::finite_automata::nfadesign::NFADesign;
use nfa_regex::finite_automata::nfarulebook::NFARulebook;

fn to_hashset(states: &[u64]) -> HashSet<u64> {
    states.iter().cloned().collect()
}

fn hashset_eq(a: &HashSet<u64>, b: &HashSet<u64>) -> bool {
    a == b
}

fn dfa_rules() -> Vec<FARule> {
    vec![
        FARule::new_rulechar(&1, 'a', &2), FARule::new_rulechar(&1, 'b', &1),
        FARule::new_rulechar(&2, 'a', &2), FARule::new_rulechar(&2, 'b', &3),
        FARule::new_rulechar(&3, 'a', &3), FARule::new_rulechar(&3, 'b', &3),
    ]
}

fn nfa_rules() -> Vec<FARule> {
    vec![
        FARule::new_rulechar(&1, 'a', &1), FARule::new_rulechar(&1, 'b', &1),
        FARule::new_rulechar(&1, 'b', &2), FARule::new_rulechar(&2, 'a', &3),
        FARule::new_rulechar(&2, 'b', &3), FARule::new_rulechar(&3, 'a', &4),
        FARule::new_rulechar(&3, 'b', &4),
    ]
}

#[test]
fn test_dfa_rulebook() {
    let rulebook = DFARulebook::new(dfa_rules());
    assert_eq!(2, rulebook.next_state(&1, 'a'));
    assert_eq!(1, rulebook.next_state(&1, 'b'));
    assert_eq!(3, rulebook.next_state(&2, 'b'));
}

#[test]
fn test_dfa() {
    let rulebook = DFARulebook::new(dfa_rules());
    assert!(DFA::new(1, &vec![1, 3], &rulebook).accepting());
    assert!(!DFA::new(1, &vec![3], &rulebook).accepting());

    let mut dfa = DFA::new(1, &vec![3], &rulebook);
    assert!(!dfa.accepting());
    dfa.read_character('b');
    assert!(!dfa.accepting());
    dfa.read_character('b');

    for _ in 0..3 {
        dfa.read_character('a')
    }

    assert!(!dfa.accepting());
    dfa.read_character('b');
    assert!(dfa.accepting());

    dfa = DFA::new(1, &vec![3], &rulebook);
    assert!(!dfa.accepting());
    dfa.read_string("baaab");
    assert!(dfa.accepting());
}

#[test]
fn test_dfa_design() {
    let rulebook = DFARulebook::new(dfa_rules());
    let dfa_design = DFADesign::new(1, &vec![3], &rulebook);
    assert!(!dfa_design.accept("a"));
    assert!(!dfa_design.accept("baa"));
    assert!(dfa_design.accept("baba"));
}

#[test]
fn test_nfa_rulebook() {
    let rulebook = NFARulebook::new(nfa_rules());
    let result1 = rulebook.next_states(&to_hashset(&[1]), Some('b'));
    let ans1 = to_hashset(&[1, 2]);
    let result2 = rulebook.next_states(&to_hashset(&[1, 2]), Some('a'));
    let ans2 = to_hashset(&[1, 3]);
    let result3 = rulebook.next_states(&to_hashset(&[1, 3]), Some('b'));
    let ans3 = to_hashset(&[1, 2, 4]);
    assert!(hashset_eq(&result1, &ans1));
    assert!(hashset_eq(&result2, &ans2));
    assert!(hashset_eq(&result3, &ans3));
}

#[test]
fn test_nfa() {
    let rulebook = NFARulebook::new(nfa_rules());

    assert!(!NFA::new(&to_hashset(&[1]), &to_hashset(&[4]), &rulebook).accepting());
    assert!(NFA::new(&to_hashset(&[1, 2, 4]), &to_hashset(&[4]), &rulebook).accepting());

    let mut nfa = NFA::new(&to_hashset(&[1]), &to_hashset(&[4]), &rulebook);
    assert!(!nfa.accepting());
    nfa.read_character('b');
    assert!(!nfa.accepting());
    nfa.read_character('a');
    assert!(!nfa.accepting());
    nfa.read_character('b');
    assert!(nfa.accepting());

    nfa = NFA::new(&to_hashset(&[1]), &to_hashset(&[4]), &rulebook);
    assert!(!nfa.accepting());
    nfa.read_string("bbbbb");
    assert!(nfa.accepting());
}

#[test]
fn test_nfadesign() {
    let rulebook = NFARulebook::new(nfa_rules());
    let nfa_design = NFADesign::new(&1, &to_hashset(&[4]), &rulebook);
    assert!(nfa_design.accept("bab"));
    assert!(nfa_design.accept("bbbbb"));
    assert!(!nfa_design.accept("bbabb"));
}

#[test]
fn test_nfa_freemove() {
    let rulebook = NFARulebook::new(vec![
        FARule::new_rulefree(&1, &2), FARule::new_rulefree(&1, &4),
        FARule::new_rulechar(&2, 'a', &3), FARule::new_rulechar(&3, 'a', &2),
        FARule::new_rulechar(&4, 'a', &5), FARule::new_rulechar(&5, 'a', &6),
        FARule::new_rulechar(&6, 'a', &4),
    ]);
    let result1 = rulebook.next_states(&to_hashset(&[1]), None);
    let ans1 = to_hashset(&[2, 4]);
    let result2 = rulebook.follow_free_moves(&to_hashset(&[1]));
    let ans2 = to_hashset(&[1, 2, 4]);
    assert!(hashset_eq(&result1, &ans1));
    assert!(hashset_eq(&result2, &ans2));

    let nfa_design = NFADesign::new(&1, &to_hashset(&[2, 4]), &rulebook);
    assert!(nfa_design.accept("aa"));
    assert!(nfa_design.accept("aaa"));
    assert!(!nfa_design.accept("aaaaa"));
    assert!(nfa_design.accept("aaaaaa"));
}

#[test]
fn test_rule_any() {
    let rulebook = DFARulebook::new(vec![FARule::new_ruleany(&1, &2)]);
    let dfa_design = DFADesign::new(1, &vec![2], &rulebook);
    assert!(dfa_design.accept("a"));
    assert!(dfa_design.accept("z"));
    assert!(dfa_design.accept("猛"));
}

#[test]
fn test_rule_set() {
    let range = vec![FARuleData::range('a', 'z')];
    let rulebook = NFARulebook::new(vec![FARule::new_ruleset(&1, &2, &range, false)]);
    let nfa_design = NFADesign::new(&1, &to_hashset(&[2]), &rulebook);
    assert!(nfa_design.accept("x"));
    assert!(nfa_design.accept("j"));
    assert!(!nfa_design.accept("猛"));
}

#[test]
fn test_rule_set_reverse() {
    let range = vec![FARuleData::range('a', 'z')];
    let rulebook = NFARulebook::new(vec![FARule::new_ruleset(&1, &2, &range, true)]);
    let nfa_design = NFADesign::new(&1, &to_hashset(&[2]), &rulebook);
    assert!(!nfa_design.accept("x"));
    assert!(!nfa_design.accept("j"));
    assert!(nfa_design.accept("猛"));
}

#[test]
fn rule_data_membership() {
    assert!(FARuleData::char('q').applies_to(&'q'));
    assert!(!FARuleData::char('q').applies_to(&'r'));
    assert!(FARuleData::range('a', 'c').applies_to(&'a'));
    assert!(FARuleData::range('a', 'c').applies_to(&'c'));
    assert!(!FARuleData::range('a', 'c').applies_to(&'d'));
}

#[test]
fn rule_applies_only_from_its_state() {
    let rule = FARule::new_rulechar(&1, 'a', &2);
    assert!(rule.applies_to(&1, Some('a')));
    assert!(!rule.applies_to(&2, Some('a')));
    assert!(!rule.applies_to(&1, Some('b')));
    assert!(!rule.applies_to(&1, None));
    assert_eq!(2, rule.follow());
    let free = FARule::new_rulefree(&1, &2);
    assert!(free.applies_to(&1, None));
    assert!(!free.applies_to(&1, Some('a')));
    let any = FARule::new_ruleany(&1, &2);
    assert!(any.applies_to(&1, Some('猛')));
    assert!(!any.applies_to(&1, None));
}

#[test]
fn rule_set_without_members() {
    let none: Vec<FARuleData> = vec![];
    assert!(!FARule::new_ruleset(&1, &2, &none, false).applies_to(&1, Some('a')));
    assert!(FARule::new_ruleset(&1, &2, &none, true).applies_to(&1, Some('a')));
    assert!(!FARule::new_ruleset(&1, &2, &none, true).applies_to(&1, None));
}

#[test]
fn follow_rules_for_collects_targets() {
    let rulebook = NFARulebook::new(nfa_rules());
    let found = rulebook.follow_rules_for(&1, Some('b'));
    assert!(hashset_eq(&found.iter().cloned().collect(), &to_hashset(&[1, 2])));
    assert!(rulebook.follow_rules_for(&4, Some('a')).is_empty());
    assert_eq!(7, rulebook.rules().len());
}

#[test]
fn free_closure_is_extensive_monotone_idempotent() {
    let rulebook = NFARulebook::new(vec![
        FARule::new_rulefree(&1, &2), FARule::new_rulefree(&2, &3),
        FARule::new_rulefree(&5, &6), FARule::new_rulechar(&3, 'a', &4),
    ]);
    let small = rulebook.follow_free_moves(&to_hashset(&[1]));
    assert!(hashset_eq(&small, &to_hashset(&[1, 2, 3])));
    let large = rulebook.follow_free_moves(&to_hashset(&[1, 5]));
    assert!(hashset_eq(&large, &to_hashset(&[1, 2, 3, 5, 6])));
    let again = rulebook.follow_free_moves(&small);
    assert!(hashset_eq(&again, &small));
    assert!(hashset_eq(&rulebook.follow_free_moves(&to_hashset(&[])), &to_hashset(&[])));
}

#[test]
fn nfa_current_states_stay_closed() {
    let rulebook = NFARulebook::new(vec![
        FARule::new_rulefree(&1, &2), FARule::new_rulechar(&2, 'a', &3),
        FARule::new_rulefree(&3, &4),
    ]);
    let mut nfa = NFA::new(&to_hashset(&[1]), &to_hashset(&[4]), &rulebook);
    assert!(!nfa.accepting());
    nfa.read_character('a');
    assert!(nfa.accepting());
    nfa.read_character('a');
    assert!(!nfa.accepting());
}

#[test]
fn nfa_design_parts() {
    let rulebook = NFARulebook::new(nfa_rules());
    let design = NFADesign::new(&1, &to_hashset(&[4]), &rulebook);
    assert_eq!(1, design.start_state());
    assert!(hashset_eq(&design.accept_state(), &to_hashset(&[4])));
    assert_eq!(7, design.rules().len());
    assert!(!design.accept(""));
    let mut nfa = design.to_nfa();
    nfa.read_string("bbb");
    assert!(nfa.accepting());
}

#[test]
fn dfa_design_empty_input() {
    let rulebook = DFARulebook::new(dfa_rules());
    assert!(DFADesign::new(1, &vec![1], &rulebook).accept(""));
    assert!(!DFADesign::new(1, &vec![3], &rulebook).accept(""));
}

#[test]
fn rules_and_members_print() {
    assert_eq!("q", FARuleData::char('q').to_string());
    assert_eq!("a-z", FARuleData::range('a', 'z').to_string());
    assert_eq!("FARule 1 --a--> 2", FARule::new_rulechar(&1, 'a', &2).to_string());
    assert_eq!("FARule 10 --free--> 305", FARule::new_rulefree(&10, &305).to_string());
    assert_eq!("FARule 0 --any--> 18446744073709551615", FARule::new_ruleany(&0, &u64::MAX).to_string());
    let members = vec![FARuleData::range('a', 'c'), FARuleData::char('x')];
    assert_eq!("FARule 7 --[^a-cx]--> 8", FARule::new_ruleset(&7, &8, &members, true).to_string());
    assert_eq!("FARule 7 --[a-cx]--> 8", FARule::new_ruleset(&7, &8, &members, false).to_string());
}
