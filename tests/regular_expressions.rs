use nfa_regex::finite_automata::faruledata::FARuleData;
use nfa_regex::regular_expressions::regex::Regex;

#[test]
fn test_regex_pattern() {
    let pattern = Regex::repeat(Regex::choice(
        Regex::concatenate(Regex::literal('a'), Regex::literal('b')),
        Regex::literal('a'),
    ));
    assert_eq!("(ab|a)*", pattern.to_string());
}

#[test]
fn test_regex_empty() {
    let pattern = Regex::empty();
    println!("Regex '{}'", pattern.to_string());
    assert!(pattern.matches(""));
    assert!(!pattern.matches("a"));
}

#[test]
fn test_regex_literal() {
    let pattern = Regex::literal('a');
    println!("Regex '{}'", pattern.to_string());
    assert!(!pattern.matches(""));
    assert!(pattern.matches("a"));
    assert!(!pattern.matches("b"));
}

#[test]
fn test_regex_any() {
    let pattern = Regex::any();
    println!("Regex '{}'", pattern.to_string());
    assert!(!pattern.matches(""));
    assert!(pattern.matches("a"));
    assert!(pattern.matches("潮"));
}

#[test]
fn test_regex_concatenate() {
    let pattern = Regex::concatenate(Regex::literal('a'), Regex::literal('b'));
    println!("Regex '{}'", pattern.to_string());
    assert!(!pattern.matches("a"));
    assert!(pattern.matches("ab"));
    assert!(!pattern.matches("abc"));
}

#[test]
fn test_regex_choose() {
    let pattern = Regex::choice(Regex::literal('a'), Regex::literal('b'));
    println!("Regex '{}'", pattern.to_string());
    assert!(pattern.matches("a"));
    assert!(pattern.matches("b"));
    assert!(!pattern.matches("c"));
}

#[test]
fn test_regex_repeat() {
    let pattern = Regex::repeat(Regex::literal('a'));
    println!("Regex '{}'", pattern.to_string());
    assert!(pattern.matches(""));
    assert!(pattern.matches("a"));
    assert!(pattern.matches("aaaa"));
    assert!(!pattern.matches("b"));
}

#[test]
fn test_regex_plus() {
    let pattern = Regex::plus(Regex::literal('a'));
    println!("Regex '{}'", pattern.to_string());
    assert!(!pattern.matches(""));
    assert!(pattern.matches("a"));
    assert!(pattern.matches("aaaa"));
    assert!(!pattern.matches("b"));
}

#[test]
fn test_regex_optional() {
    let pattern = Regex::optional(Regex::literal('a'));
    println!("Regex '{}'", pattern.to_string());
    assert!(pattern.matches(""));
    assert!(pattern.matches("a"));
    assert!(!pattern.matches("aaaa"));
    assert!(!pattern.matches("b"));
}

#[test]
fn test_regex_complex() {
    let pattern = Regex::repeat(Regex::concatenate(
        Regex::literal('a'),
        Regex::choice(Regex::empty(), Regex::literal('b')),
    ));
    println!("Regex '{}'", pattern.to_string());
    assert!(pattern.matches(""));
    assert!(pattern.matches("a"));
    assert!(pattern.matches("ab"));
    assert!(pattern.matches("aba"));
    assert!(pattern.matches("abab"));
    assert!(pattern.matches("abaab"));
    assert!(!pattern.matches("abba"));
}

#[test]
fn test_regex_complex_repeat() {
    let pattern = Regex::repeat(Regex::any());
    println!("Regex '{}'", pattern.to_string());
    assert!(pattern.matches(""));
    assert!(pattern.matches("枯籐老樹昏鴉小橋流水人家古道西風瘦馬夕陽西下斷腸人卻在燈火闌珊處"));
}

fn ab_or_a_star() -> Box<Regex> {
    Regex::repeat(Regex::choice(
        Regex::concatenate(Regex::literal('a'), Regex::literal('b')),
        Regex::literal('a'),
    ))
}

fn lower() -> Vec<FARuleData> {
    vec![FARuleData::range('a', 'z')]
}

#[test]
fn scenario_star_of_choice_accepts() {
    assert!(ab_or_a_star().matches("aabab"));
}

#[test]
fn scenario_star_of_choice_rejects() {
    assert!(!ab_or_a_star().matches("abba"));
}

#[test]
fn scenario_star_accepts_empty() {
    assert!(Regex::repeat(Regex::literal('a')).matches(""));
}

#[test]
fn scenario_plus_rejects_empty() {
    assert!(!Regex::plus(Regex::literal('a')).matches(""));
}

#[test]
fn scenario_range_accepts_member() {
    assert!(Regex::set(&lower(), false).matches("x"));
}

#[test]
fn scenario_negated_range_accepts_non_ascii() {
    assert!(Regex::set(&lower(), true).matches("猛"));
}

#[test]
fn scenario_any_accepts_non_ascii() {
    assert!(Regex::any().matches("潮"));
}

#[test]
fn scenario_optional_rejects_two() {
    assert!(!Regex::optional(Regex::literal('a')).matches("aa"));
}

#[test]
fn set_and_negation_disagree_on_every_character() {
    let members = vec![FARuleData::char('q'), FARuleData::range('0', '9')];
    for c in ['q', '5', '0', '9', 'a', '猛', ' '] {
        let s = c.to_string();
        assert!(Regex::set(&members, true).matches(&s) != Regex::set(&members, false).matches(&s));
    }
}

#[test]
fn empty_set_matches_nothing_negated_matches_everything() {
    let none: Vec<FARuleData> = vec![];
    assert!(!Regex::set(&none, false).matches("a"));
    assert!(Regex::set(&none, true).matches("a"));
    assert!(!Regex::set(&none, true).matches(""));
}

#[test]
fn star_matches_concatenations_of_pieces() {
    let pattern = Regex::repeat(Regex::choice(Regex::literal('x'), Regex::concatenate(Regex::literal('y'), Regex::literal('z'))));
    assert!(pattern.matches(""));
    assert!(pattern.matches("xyzx"));
    assert!(pattern.matches("yzyz"));
    assert!(!pattern.matches("xy"));
}

#[test]
fn plus_agrees_with_concatenation_and_star() {
    let plus = Regex::plus(Regex::choice(Regex::literal('a'), Regex::literal('b')));
    let expanded = Regex::concatenate(
        Regex::choice(Regex::literal('a'), Regex::literal('b')),
        Regex::repeat(Regex::choice(Regex::literal('a'), Regex::literal('b'))),
    );
    for s in ["", "a", "b", "ab", "bba", "abc", "c"] {
        assert_eq!(plus.matches(s), expanded.matches(s));
    }
}

#[test]
fn optional_agrees_with_choice_of_empty() {
    let optional = Regex::optional(Regex::concatenate(Regex::literal('a'), Regex::literal('b')));
    let chosen = Regex::choice(Regex::empty(), Regex::concatenate(Regex::literal('a'), Regex::literal('b')));
    for s in ["", "a", "ab", "abab", "b"] {
        assert_eq!(optional.matches(s), chosen.matches(s));
    }
}

#[test]
fn choice_is_commutative() {
    let left = Regex::choice(Regex::literal('a'), Regex::repeat(Regex::literal('b')));
    let right = Regex::choice(Regex::repeat(Regex::literal('b')), Regex::literal('a'));
    for s in ["", "a", "b", "bbb", "ab", "aa"] {
        assert_eq!(left.matches(s), right.matches(s));
    }
}

#[test]
fn empty_string_acceptance_follows_nullability() {
    assert!(Regex::concatenate(Regex::optional(Regex::literal('a')), Regex::repeat(Regex::literal('b'))).matches(""));
    assert!(!Regex::concatenate(Regex::optional(Regex::literal('a')), Regex::literal('b')).matches(""));
    assert!(Regex::choice(Regex::literal('a'), Regex::empty()).matches(""));
    assert!(!Regex::plus(Regex::any()).matches(""));
}

#[test]
fn to_string_parenthesises_by_precedence() {
    assert_eq!("", Regex::empty().to_string());
    assert_eq!(".", Regex::any().to_string());
    assert_eq!("[^a-zq]", Regex::set(&vec![FARuleData::range('a', 'z'), FARuleData::char('q')], true).to_string());
    assert_eq!("a|bc", Regex::choice(Regex::literal('a'), Regex::concatenate(Regex::literal('b'), Regex::literal('c'))).to_string());
    assert_eq!("(a|b)c", Regex::concatenate(Regex::choice(Regex::literal('a'), Regex::literal('b')), Regex::literal('c')).to_string());
    assert_eq!("(ab)+", Regex::plus(Regex::concatenate(Regex::literal('a'), Regex::literal('b'))).to_string());
    assert_eq!("a*?", Regex::optional(Regex::repeat(Regex::literal('a'))).to_string());
}

#[test]
fn design_numbers_states_from_zero() {
    let design = Regex::literal('a').to_nfa_design();
    assert_eq!(0, design.start_state());
    assert_eq!(vec![1], design.accept_list());
    assert_eq!(1, design.rules().len());
    let star = Regex::repeat(Regex::literal('a')).to_nfa_design();
    assert_eq!(2, star.start_state());
    assert_eq!(vec![1, 2], star.accept_list());
    assert!(star.accept_state().contains(&2));
    assert_eq!(3, star.rules().len());
}
