use vstd::prelude::*;

use super::faruledata::{FARuleData, members_text};
use super::text::{chars_to_string, decimal_text, write_decimal};

verus! {

/// What a rule fires on.
#[derive(Debug, Clone)]
pub enum FARuleType {
    RuleChar { character: char },
    RuleFree,
    RuleAny,
    RuleSet { set: Vec<FARuleData>, reverse: bool },
}

/// Whether some member of `set` matches `c`.
pub open spec fn set_has(set: Seq<FARuleData>, c: char) -> bool {
    exists|i: int| 0 <= i < set.len() && set[i].spec_applies_to(c)
}

/// The mathematical content of a rule predicate.
pub enum RuleKind {
    Char(char),
    Free,
    Any,
    Members(Seq<FARuleData>, bool),
}

impl RuleKind {
    /// Whether the predicate fires on an input symbol, or on no symbol
    /// (`None`) when free moves are asked for.
    pub open spec fn fires(self, c: Option<char>) -> bool {
        match c {
            Some(c) => match self {
                RuleKind::Char(character) => character == c,
                RuleKind::Free => false,
                RuleKind::Any => true,
                RuleKind::Members(set, reverse) => reverse != set_has(set, c),
            },
            None => self is Free,
        }
    }
}

impl View for FARuleType {
    type V = RuleKind;

    open spec fn view(&self) -> RuleKind {
        match self {
            FARuleType::RuleChar { character } => RuleKind::Char(*character),
            FARuleType::RuleFree => RuleKind::Free,
            FARuleType::RuleAny => RuleKind::Any,
            FARuleType::RuleSet { set, reverse } => RuleKind::Members(set@, *reverse),
        }
    }
}

/// The mathematical content of a rule: `state --kind--> next_state`.
pub struct RuleModel {
    pub state: u64,
    pub kind: RuleKind,
    pub next_state: u64,
}

impl RuleModel {
    /// Whether the rule leaves `state` on the (optional) symbol `c`.
    pub open spec fn applies(self, state: u64, c: Option<char>) -> bool {
        self.state == state && self.kind.fires(c)
    }
}

/// The written form of a predicate: its character, `free`, `any`, or the
/// set in brackets, with `^` first when negated.
pub open spec fn kind_text(k: RuleKind) -> Seq<char> {
    match k {
        RuleKind::Char(c) => seq![c],
        RuleKind::Free => seq!['f', 'r', 'e', 'e'],
        RuleKind::Any => seq!['a', 'n', 'y'],
        RuleKind::Members(set, reverse) => seq!['['] + (if reverse { seq!['^'] } else { Seq::empty() })
            + members_text(set) + seq![']'],
    }
}

/// The written form of a rule: `FARule 1 --a--> 2`.
pub open spec fn rule_text(r: RuleModel) -> Seq<char> {
    seq!['F', 'A', 'R', 'u', 'l', 'e', ' '] + decimal_text(r.state as nat) + seq![' ', '-', '-'] + kind_text(r.kind)
        + seq!['-', '-', '>', ' '] + decimal_text(r.next_state as nat)
}

impl FARuleType {
    /// Appends the written form of the predicate.
    pub fn write_text(&self, out: &mut Vec<char>)
        ensures
            final(out)@ == old(out)@ + kind_text(self@),
    {
        let ghost before_kind = out@;
        match self {
            FARuleType::RuleChar { character } => {
                out.push(*character);
            },
            FARuleType::RuleFree => {
                out.push('f');
                out.push('r');
                out.push('e');
                out.push('e');
            },
            FARuleType::RuleAny => {
                out.push('a');
                out.push('n');
                out.push('y');
            },
            FARuleType::RuleSet { set, reverse } => {
                out.push('[');
                if *reverse {
                    out.push('^');
                }
                let ghost mid = out@;
                for i in 0..set.len()
                    invariant
                        out@ == mid + members_text(set@.subrange(0, i as int)),
                {
                    set[i].write_text(out);
                    assert(set@.subrange(0, i + 1).drop_last() =~= set@.subrange(0, i as int));
                }
                assert(set@.subrange(0, set@.len() as int) =~= set@);
                out.push(']');
            },
        }
        assert(out@ =~= before_kind + kind_text(self@));
    }
}

/// A transition `state --kind--> next_state`.
#[derive(Debug, Clone)]
pub struct FARule {
    pub state: u64,
    pub next_state: u64,
    pub kind: FARuleType,
}

impl View for FARule {
    type V = RuleModel;

    open spec fn view(&self) -> RuleModel {
        RuleModel { state: self.state, kind: self.kind@, next_state: self.next_state }
    }
}

/// The models of a sequence of rules.
pub open spec fn rules_model(rules: Seq<FARule>) -> Seq<RuleModel> {
    rules.map_values(|r: FARule| r@)
}

impl FARule {
    pub fn new_rulechar(state: &u64, character: char, next_state: &u64) -> (r: Self)
        ensures
            r@ == (RuleModel { state: *state, kind: RuleKind::Char(character), next_state: *next_state }),
    {
        FARule { state: *state, next_state: *next_state, kind: FARuleType::RuleChar { character: character } }
    }

    pub fn new_rulefree(state: &u64, next_state: &u64) -> (r: Self)
        ensures
            r@ == (RuleModel { state: *state, kind: RuleKind::Free, next_state: *next_state }),
    {
        FARule { state: *state, next_state: *next_state, kind: FARuleType::RuleFree }
    }

    pub fn new_ruleany(state: &u64, next_state: &u64) -> (r: Self)
        ensures
            r@ == (RuleModel { state: *state, kind: RuleKind::Any, next_state: *next_state }),
    {
        FARule { state: *state, next_state: *next_state, kind: FARuleType::RuleAny }
    }

    pub fn new_ruleset(state: &u64, next_state: &u64, set: &Vec<FARuleData>, reverse: bool) -> (r: Self)
        ensures
            r@ == (RuleModel { state: *state, kind: RuleKind::Members(set@, reverse), next_state: *next_state }),
    {
        let mut members: Vec<FARuleData> = Vec::new();
        for i in 0..set.len()
            invariant
                members@ == set@.subrange(0, i as int),
        {
            members.push(set[i]);
            assert(members@ =~= set@.subrange(0, i + 1));
        }
        assert(members@ =~= set@);
        FARule { state: *state, next_state: *next_state, kind: FARuleType::RuleSet { set: members, reverse: reverse } }
    }

    pub fn applies_to(&self, state: &u64, c: Option<char>) -> (r: bool)
        ensures
            r == self@.applies(*state, c),
    {
        if self.state != *state {
            return false;
        }
        match c {
            Some(c) => match &self.kind {
                FARuleType::RuleChar { character } => *character == c,
                FARuleType::RuleFree => false,
                FARuleType::RuleAny => true,
                FARuleType::RuleSet { set, reverse } => {
                    let mut found = false;
                    for i in 0..set.len()
                        invariant
                            found == (exists|j: int| 0 <= j < i && set@[j].spec_applies_to(c)),
                    {
                        if set[i].applies_to(&c) {
                            found = true;
                        }
                    }
                    *reverse != found
                },
            },
            None => match self.kind {
                FARuleType::RuleFree => true,
                _ => false,
            },
        }
    }

    /// An exact copy of the rule.
    pub fn copied(&self) -> (r: Self)
        ensures
            r@ == self@,
    {
        let kind = match &self.kind {
            FARuleType::RuleChar { character } => FARuleType::RuleChar { character: *character },
            FARuleType::RuleFree => FARuleType::RuleFree,
            FARuleType::RuleAny => FARuleType::RuleAny,
            FARuleType::RuleSet { set, reverse } => {
                let r = FARule::new_ruleset(&self.state, &self.next_state, set, *reverse);
                r.kind
            },
        };
        FARule { state: self.state, next_state: self.next_state, kind }
    }

    /// The written form of the rule.
    pub fn to_string(&self) -> (r: String)
        ensures
            r@ == rule_text(self@),
    {
        let mut out: Vec<char> = Vec::new();
        let ghost empty = out@;
        out.push('F');
        out.push('A');
        out.push('R');
        out.push('u');
        out.push('l');
        out.push('e');
        out.push(' ');
        assert(out@ =~= empty + seq!['F', 'A', 'R', 'u', 'l', 'e', ' ']);
        write_decimal(&mut out, self.state);
        out.push(' ');
        out.push('-');
        out.push('-');
        let ghost before_kind = out@;
        self.kind.write_text(&mut out);
        assert(out@ =~= before_kind + kind_text(self.kind@));
        out.push('-');
        out.push('-');
        out.push('>');
        out.push(' ');
        write_decimal(&mut out, self.next_state);
        assert(out@ =~= rule_text(self@));
        chars_to_string(&out)
    }

    pub fn follow(&self) -> (r: u64)
        ensures
            r == self.next_state,
    {
        self.next_state
    }
}

} // verus!
