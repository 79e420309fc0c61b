use vstd::prelude::*;

use crate::finite_automata::faruledata::{FARuleData, members_text};
use crate::finite_automata::text::chars_to_string;

verus! {

/// A regular-expression syntax tree.
#[derive(Debug)]
pub enum Regex {
    Empty,
    Literal(char),
    CharSet(Vec<FARuleData>, bool),
    Any,
    Concatenate(Box<Regex>, Box<Regex>),
    Choose(Box<Regex>, Box<Regex>),
    Repeat(Box<Regex>),
    Plus(Box<Regex>),
    Optional(Box<Regex>),
}

/// Binding strength of the outermost operator: choice binds loosest, then
/// concatenation, then the postfix operators; atoms bind tightest.
pub open spec fn precedence_of(r: Regex) -> u32 {
    match r {
        Regex::Empty | Regex::Literal(_) | Regex::Any | Regex::CharSet(_, _) => 3,
        Regex::Concatenate(_, _) => 1,
        Regex::Choose(_, _) => 0,
        Regex::Repeat(_) | Regex::Plus(_) | Regex::Optional(_) => 2,
    }
}

/// `text` wrapped in parentheses when `wrap` holds.
pub open spec fn paren_if(wrap: bool, text: Seq<char>) -> Seq<char> {
    if wrap {
        seq!['('] + text + seq![')']
    } else {
        text
    }
}

/// The written form of `r`; a subterm is parenthesised exactly when it binds
/// more loosely than the operator around it.
pub open spec fn regex_text(r: Regex) -> Seq<char>
    decreases r,
{
    match r {
        Regex::Empty => Seq::empty(),
        Regex::Literal(c) => seq![c],
        Regex::CharSet(set, reverse) => seq!['['] + (if reverse { seq!['^'] } else { Seq::empty() })
            + members_text(set@) + seq![']'],
        Regex::Any => seq!['.'],
        Regex::Concatenate(l, r) => paren_if(precedence_of(*l) < 1, regex_text(*l))
            + paren_if(precedence_of(*r) < 1, regex_text(*r)),
        Regex::Choose(l, r) => paren_if(precedence_of(*l) < 0, regex_text(*l)) + seq!['|']
            + paren_if(precedence_of(*r) < 0, regex_text(*r)),
        Regex::Repeat(p) => paren_if(precedence_of(*p) < 2, regex_text(*p)) + seq!['*'],
        Regex::Plus(p) => paren_if(precedence_of(*p) < 2, regex_text(*p)) + seq!['+'],
        Regex::Optional(p) => paren_if(precedence_of(*p) < 2, regex_text(*p)) + seq!['?'],
    }
}

impl Regex {
    pub fn empty() -> (r: Box<Regex>)
        ensures
            *r == Regex::Empty,
    {
        Box::new(Regex::Empty)
    }

    pub fn literal(c: char) -> (r: Box<Regex>)
        ensures
            *r == Regex::Literal(c),
    {
        Box::new(Regex::Literal(c))
    }

    pub fn set(set: &Vec<FARuleData>, reverse: bool) -> (r: Box<Regex>)
        ensures
            *r matches Regex::CharSet(members, rev) && members@ == set@ && rev == reverse,
    {
        Box::new(Regex::CharSet(set.clone(), reverse))
    }

    pub fn any() -> (r: Box<Regex>)
        ensures
            *r == Regex::Any,
    {
        Box::new(Regex::Any)
    }

    pub fn concatenate(l: Box<Regex>, r: Box<Regex>) -> (res: Box<Regex>)
        ensures
            *res == Regex::Concatenate(l, r),
    {
        Box::new(Regex::Concatenate(l, r))
    }

    pub fn choice(l: Box<Regex>, r: Box<Regex>) -> (res: Box<Regex>)
        ensures
            *res == Regex::Choose(l, r),
    {
        Box::new(Regex::Choose(l, r))
    }

    pub fn repeat(p: Box<Regex>) -> (res: Box<Regex>)
        ensures
            *res == Regex::Repeat(p),
    {
        Box::new(Regex::Repeat(p))
    }

    pub fn plus(p: Box<Regex>) -> (res: Box<Regex>)
        ensures
            *res == Regex::Plus(p),
    {
        Box::new(Regex::Plus(p))
    }

    pub fn optional(p: Box<Regex>) -> (res: Box<Regex>)
        ensures
            *res == Regex::Optional(p),
    {
        Box::new(Regex::Optional(p))
    }

    fn precedence(&self) -> (r: u32)
        ensures
            r == precedence_of(*self),
    {
        match self {
            Regex::Empty | Regex::Literal(_) | Regex::Any | Regex::CharSet(_, _) => 3,
            Regex::Concatenate(_, _) => 1,
            Regex::Choose(_, _) => 0,
            Regex::Repeat(_) | Regex::Plus(_) | Regex::Optional(_) => 2,
        }
    }

    /// Appends the written form of `self`, parenthesised when it binds more
    /// loosely than `outer_precedence`.
    fn bracket(&self, outer_precedence: u32, out: &mut Vec<char>)
        ensures
            final(out)@ == old(out)@ + paren_if(precedence_of(*self) < outer_precedence, regex_text(*self)),
        decreases *self, 1nat,
    {
        if self.precedence() < outer_precedence {
            out.push('(');
            self.write_text(out);
            out.push(')');
        } else {
            self.write_text(out);
        }
    }

    /// Appends the written form of `self`.
    fn write_text(&self, out: &mut Vec<char>)
        ensures
            final(out)@ == old(out)@ + regex_text(*self),
        decreases *self, 0nat,
    {
        let ghost start = out@;
        match self {
            Regex::Empty => {},
            Regex::Literal(c) => {
                out.push(*c);
            },
            Regex::CharSet(set, reverse) => {
                out.push('[');
                if *reverse {
                    out.push('^');
                }
                let ghost mid = out@;
                for i in 0..set.len()
                    invariant
                        out@ == mid + members_text(set@.subrange(0, i as int)),
                {
                    set[i].write_text(out);
                    assert(set@.subrange(0, i + 1).drop_last() =~= set@.subrange(0, i as int));
                }
                assert(set@.subrange(0, set@.len() as int) =~= set@);
                out.push(']');
            },
            Regex::Any => {
                out.push('.');
            },
            Regex::Concatenate(l, r) => {
                l.bracket(1, out);
                r.bracket(1, out);
            },
            Regex::Choose(l, r) => {
                l.bracket(0, out);
                out.push('|');
                r.bracket(0, out);
            },
            Regex::Repeat(p) => {
                p.bracket(2, out);
                out.push('*');
            },
            Regex::Plus(p) => {
                p.bracket(2, out);
                out.push('+');
            },
            Regex::Optional(p) => {
                p.bracket(2, out);
                out.push('?');
            },
        }
        assert(out@ =~= start + regex_text(*self));
    }

    /// The written form of the expression, with the fewest parentheses that
    /// keep its structure.
    pub fn to_string(&self) -> (r: String)
        ensures
            r@ == regex_text(*self),
    {
        let mut out: Vec<char> = Vec::new();
        self.write_text(&mut out);
        assert(out@ =~= regex_text(*self));
        chars_to_string(&out)
    }
}

} // verus!
