use vstd::prelude::*;

use super::text::chars_to_string;

verus! {

/// One member of a character set: a single character or an inclusive range.
#[derive(Debug, Clone, Copy, PartialEq, Eq, Structural)]
pub enum FARuleData {
    Char { character: char },
    Range { start: char, end: char },
}

/// The written form of one member of a character set.
pub open spec fn member_text(d: FARuleData) -> Seq<char> {
    match d {
        FARuleData::Char { character } => seq![character],
        FARuleData::Range { start, end } => seq![start, '-', end],
    }
}

/// The written form of the members of a character set, in order.
pub open spec fn members_text(set: Seq<FARuleData>) -> Seq<char>
    decreases set.len(),
{
    if set.len() == 0 {
        Seq::empty()
    } else {
        members_text(set.drop_last()) + member_text(set.last())
    }
}

impl FARuleData {
    /// Whether the member matches character `c`.
    pub open spec fn spec_applies_to(self, c: char) -> bool {
        match self {
            FARuleData::Char { character } => character == c,
            FARuleData::Range { start, end } => (start as u32) <= (c as u32) && (c as u32) <= (end as u32),
        }
    }

    pub fn char(c: char) -> (r: Self)
        ensures
            r == (FARuleData::Char { character: c }),
    {
        FARuleData::Char { character: c }
    }

    pub fn range(start: char, end: char) -> (r: Self)
        ensures
            r == (FARuleData::Range { start, end }),
    {
        FARuleData::Range { start: start, end: end }
    }

    /// Appends the written form of the member.
    pub fn write_text(&self, out: &mut Vec<char>)
        ensures
            final(out)@ == old(out)@ + member_text(*self),
    {
        let ghost start = out@;
        match self {
            FARuleData::Char { character } => {
                out.push(*character);
            },
            FARuleData::Range { start, end } => {
                out.push(*start);
                out.push('-');
                out.push(*end);
            },
        }
        assert(out@ =~= start + member_text(*self));
    }

    /// The written form of the member: the character, or `a-z` for a range.
    pub fn to_string(&self) -> (r: String)
        ensures
            r@ == member_text(*self),
    {
        let mut out: Vec<char> = Vec::new();
        self.write_text(&mut out);
        assert(out@ =~= member_text(*self));
        chars_to_string(&out)
    }

    pub fn applies_to(&self, c: &char) -> (r: bool)
        ensures
            r == self.spec_applies_to(*c),
    {
        match self {
            FARuleData::Char { character } => *character == *c,
            FARuleData::Range { start, end } => (*start as u32) <= (*c as u32) && (*c as u32) <= (*end as u32),
        }
    }
}

} // verus!
