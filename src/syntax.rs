//! The pattern grammar, stated over the bytes of the pattern text.
//!
//! ```text
//! pattern     := group+
//! group       := set_group | range_group
//! set_group   := '[' char (',' char)* ']' '{' uint ',' uint '}'
//! range_group := '[' char '-' char ']' '{' uint ',' uint '}'
//! ```
//!
//! A group is a range group exactly when the byte two places after `[` is `-`.
//! Counts are decimal digits only and must fit a `u8`; a group whose minimum
//! exceeds its maximum is refused. A range whose bounds are out of order is
//! accepted and matches no byte.

use vstd::prelude::*;
use crate::model::{ClassModel, PatternModel, SubModel};

verus! {

pub const OPEN_BRACKET: u8 = 0x5b;
pub const CLOSE_BRACKET: u8 = 0x5d;
pub const COMMA: u8 = 0x2c;
pub const DASH: u8 = 0x2d;
pub const OPEN_BRACE: u8 = 0x7b;
pub const CLOSE_BRACE: u8 = 0x7d;
pub const DIGIT_ZERO: u8 = 0x30;
pub const DIGIT_NINE: u8 = 0x39;

/// Why a pattern text was refused.
#[derive(Debug, Clone, Copy, PartialEq, Eq, Structural)]
pub enum CompileError {
    /// The text holds no group at all.
    EmptyPattern,
    /// A group does not start with `[`.
    MissingOpenBracket,
    /// The text ends in the middle of a group.
    UnexpectedEnd,
    /// A range group has no `]` after its upper bound.
    MissingCloseBracket,
    /// The class is not followed by `{`.
    MissingOpenBrace,
    /// A set member is followed by something other than `,` or `]`.
    BadSetSeparator,
    /// No `,` separates the two counts.
    MissingComma,
    /// No `}` closes the counts.
    MissingCloseBrace,
    /// A count is empty or holds a non-digit.
    MalformedNumber,
    /// A count does not fit in a byte.
    CountTooLarge,
    /// The minimum count exceeds the maximum count.
    CountsOutOfOrder,
}

pub open spec fn is_digit(b: u8) -> bool {
    DIGIT_ZERO <= b <= DIGIT_NINE
}

/// The value of a string of decimal digits.
pub open spec fn decimal_value(s: Seq<u8>) -> nat
    decreases s.len(),
{
    if s.len() == 0 {
        0
    } else {
        decimal_value(s.drop_last()) * 10 + (s.last() - DIGIT_ZERO) as nat
    }
}

pub open spec fn all_digits(s: Seq<u8>) -> bool {
    forall|t: int| 0 <= t < s.len() ==> is_digit(#[trigger] s[t])
}

/// A count of a quantifier.
pub open spec fn parse_count(s: Seq<u8>) -> Result<nat, CompileError> {
    if s.len() == 0 || !all_digits(s) {
        Err(CompileError::MalformedNumber)
    } else if decimal_value(s) > 255 {
        Err(CompileError::CountTooLarge)
    } else {
        Ok(decimal_value(s))
    }
}

/// The first position at or after `from` that holds `x`.
pub open spec fn first_index_of(p: Seq<u8>, from: int, x: u8) -> Option<int>
    decreases p.len() - from,
{
    if from < 0 || from >= p.len() {
        None
    } else if p[from] == x {
        Some(from)
    } else {
        first_index_of(p, from + 1, x)
    }
}

/// The counts that start at `start` (just after `{`): minimum, maximum, and
/// the position just after the closing `}`.
pub open spec fn parse_quantifier(p: Seq<u8>, start: int) -> Result<(nat, nat, int), CompileError> {
    match first_index_of(p, start, COMMA) {
        None => Err(CompileError::MissingComma),
        Some(c) => match first_index_of(p, c + 1, CLOSE_BRACE) {
            None => Err(CompileError::MissingCloseBrace),
            Some(b) => match parse_count(p.subrange(start, c)) {
                Err(e) => Err(e),
                Ok(lo) => match parse_count(p.subrange(c + 1, b)) {
                    Err(e) => Err(e),
                    Ok(hi) => if lo > hi {
                        Err(CompileError::CountsOutOfOrder)
                    } else {
                        Ok((lo, hi, b + 1))
                    },
                },
            },
        },
    }
}

/// The members of a set group from the member at `q` on, and the position just after `]`.
pub open spec fn parse_members(p: Seq<u8>, q: int) -> Result<(Set<u8>, int), CompileError>
    decreases p.len() - q,
{
    if q < 0 || q + 1 >= p.len() {
        Err(CompileError::UnexpectedEnd)
    } else if p[q + 1] == CLOSE_BRACKET {
        Ok((set![p[q]], q + 2))
    } else if p[q + 1] == COMMA {
        match parse_members(p, q + 2) {
            Err(e) => Err(e),
            Ok((s, e)) => Ok((s.insert(p[q]), e)),
        }
    } else {
        Err(CompileError::BadSetSeparator)
    }
}

/// The group that starts at `pos`, and the position just after it.
pub open spec fn parse_group(p: Seq<u8>, pos: int) -> Result<(SubModel, int), CompileError> {
    if pos < 0 || pos >= p.len() {
        Err(CompileError::UnexpectedEnd)
    } else if p[pos] != OPEN_BRACKET {
        Err(CompileError::MissingOpenBracket)
    } else if pos + 2 >= p.len() {
        Err(CompileError::UnexpectedEnd)
    } else if p[pos + 2] == DASH {
        if pos + 4 >= p.len() {
            Err(CompileError::UnexpectedEnd)
        } else if p[pos + 4] != CLOSE_BRACKET {
            Err(CompileError::MissingCloseBracket)
        } else if pos + 5 >= p.len() {
            Err(CompileError::UnexpectedEnd)
        } else if p[pos + 5] != OPEN_BRACE {
            Err(CompileError::MissingOpenBrace)
        } else {
            match parse_quantifier(p, pos + 6) {
                Err(e) => Err(e),
                Ok((lo, hi, next)) => Ok((
                    SubModel {
                        class: ClassModel::Between(p[pos + 1], p[pos + 3]),
                        min_count: lo,
                        max_count: hi,
                    },
                    next,
                )),
            }
        }
    } else {
        match parse_members(p, pos + 1) {
            Err(e) => Err(e),
            Ok((s, q)) => if q >= p.len() {
                Err(CompileError::UnexpectedEnd)
            } else if p[q] != OPEN_BRACE {
                Err(CompileError::MissingOpenBrace)
            } else {
                match parse_quantifier(p, q + 1) {
                    Err(e) => Err(e),
                    Ok((lo, hi, next)) => Ok((
                        SubModel { class: ClassModel::OneOf(s), min_count: lo, max_count: hi },
                        next,
                    )),
                }
            },
        }
    }
}

pub proof fn lemma_first_index_of(p: Seq<u8>, from: int, x: u8)
    requires
        0 <= from,
    ensures
        first_index_of(p, from, x) matches Some(i) ==> from <= i < p.len() && 0 <= i && p[i] == x
            && forall|t: int| from <= t < i ==> p[t] != x,
        first_index_of(p, from, x) is None ==> forall|t: int| from <= t < p.len() ==> p[t] != x,
    decreases p.len() - from,
{
    if 0 <= from < p.len() && p[from] != x {
        lemma_first_index_of(p, from + 1, x);
    }
}

pub proof fn lemma_parse_members_advances(p: Seq<u8>, q: int)
    ensures
        parse_members(p, q) matches Ok((_, e)) ==> q < e <= p.len(),
    decreases p.len() - q,
{
    if 0 <= q && q + 1 < p.len() && p[q + 1] == COMMA {
        lemma_parse_members_advances(p, q + 2);
    }
}

pub proof fn lemma_parse_group_advances(p: Seq<u8>, pos: int)
    ensures
        parse_group(p, pos) matches Ok((_, next)) ==> pos < next <= p.len(),
{
    lemma_parse_members_advances(p, pos + 1);
    if let Some(c) = first_index_of(p, pos + 6, COMMA) {
        lemma_first_index_of(p, pos + 6, COMMA);
        lemma_first_index_of(p, c + 1, CLOSE_BRACE);
    }
    if let Ok((_, q)) = parse_members(p, pos + 1) {
        if let Some(c) = first_index_of(p, q + 1, COMMA) {
            lemma_first_index_of(p, q + 1, COMMA);
            lemma_first_index_of(p, c + 1, CLOSE_BRACE);
        }
    }
}

/// The groups from `pos` to the end of the text.
pub open spec fn parse_groups(p: Seq<u8>, pos: int) -> Result<Seq<SubModel>, CompileError>
    decreases p.len() - pos,
{
    if pos >= p.len() {
        Ok(seq![])
    } else {
        match parse_group(p, pos) {
            Err(e) => Err(e),
            // a group always ends after it starts (lemma_parse_group_advances)
            Ok((g, next)) => if pos < next <= p.len() {
                match parse_groups(p, next) {
                    Err(e) => Err(e),
                    Ok(rest) => Ok(seq![g] + rest),
                }
            } else {
                Err(CompileError::UnexpectedEnd)
            },
        }
    }
}

/// The smallest index from which every sub-pattern allows zero repetitions.
pub open spec fn optional_suffix_start(subs: Seq<SubModel>) -> nat
    decreases subs.len(),
{
    if subs.len() == 0 {
        0
    } else if subs.last().min_count == 0 {
        optional_suffix_start(subs.drop_last())
    } else {
        subs.len()
    }
}

/// Where the optional suffix starts: every sub-pattern from there on allows
/// zero repetitions, and the one just before it does not.
pub proof fn lemma_optional_suffix_start(subs: Seq<SubModel>)
    ensures
        optional_suffix_start(subs) <= subs.len(),
        forall|j: int| optional_suffix_start(subs) <= j < subs.len() ==> #[trigger] subs[j].min_count == 0,
        optional_suffix_start(subs) > 0 ==> subs[optional_suffix_start(subs) - 1].min_count != 0,
    decreases subs.len(),
{
    if subs.len() > 0 && subs.last().min_count == 0 {
        let d = subs.drop_last();
        lemma_optional_suffix_start(d);
        assert forall|j: int| optional_suffix_start(subs) <= j < subs.len() implies #[trigger] subs[j].min_count == 0 by {
            if j < subs.len() - 1 {
                assert(subs[j] == d[j]);
            }
        }
        if optional_suffix_start(subs) > 0 {
            assert(subs[optional_suffix_start(subs) - 1] == d[optional_suffix_start(subs) - 1]);
        }
    }
}

/// The pattern a text compiles to, or why it is refused.
pub open spec fn compile(p: Seq<u8>) -> Result<PatternModel, CompileError> {
    if p.len() == 0 {
        Err(CompileError::EmptyPattern)
    } else {
        match parse_groups(p, 0) {
            Err(e) => Err(e),
            Ok(subs) => Ok(PatternModel { subs, opt_suffix_start: optional_suffix_start(subs) }),
        }
    }
}

} // verus!
