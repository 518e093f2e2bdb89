//! Compiled patterns and the matching engine.

use std::collections::HashSet;
use vstd::prelude::*;
use vstd::utf8::valid_utf8;
use vstd::string::StringSliceAdditionalSpecFns;
use crate::model::{
    ClassModel, PatternModel, SubModel, class_has, well_formed, live, successor, completes,
    accepts, longest_match_end, matches_from, match_spans, lemma_step, lemma_live_empty,
    lemma_dead_end, lemma_match_ascii_ends, lemma_longest_match_end, may_follow,
};
use crate::syntax::{
    CompileError, compile, parse_groups, parse_group, parse_members, parse_quantifier,
    parse_count, first_index_of, decimal_value, all_digits, is_digit, optional_suffix_start,
    lemma_first_index_of, lemma_parse_group_advances, lemma_optional_suffix_start, OPEN_BRACKET, CLOSE_BRACKET, COMMA, DASH,
    OPEN_BRACE, CLOSE_BRACE, DIGIT_ZERO, DIGIT_NINE,
};
use crate::text::{lemma_ascii_between, lemma_ascii_boundaries};

verus! {

broadcast use vstd::std_specs::hash::group_hash_axioms;

/// Where a repetition count stands against a quantifier.
enum MatchCountStatus {
    Under,
    Over,
    MaxMatch,
    InRange,
}

impl MatchCountStatus {
    fn get_status(min: &u8, max: &u8, to_check: &u8) -> (r: Self)
        ensures
            r is Under <==> *to_check < *min,
            r is Over <==> *min <= *to_check && *to_check > *max,
            r is MaxMatch <==> *min <= *to_check && *to_check == *max,
            r is InRange <==> *min <= *to_check && *to_check < *max,
    {
        if to_check < min {
            MatchCountStatus::Under
        } else if to_check > max {
            MatchCountStatus::Over
        } else if to_check == max {
            MatchCountStatus::MaxMatch
        } else {
            MatchCountStatus::InRange
        }
    }
}

/// One quantified character class of a compiled pattern.
enum SubPattern {
    OneOf { one_of: HashSet<u8>, min_count: u8, max_count: u8 },
    Range { between: (u8, u8), min_count: u8, max_count: u8 },
}

impl View for SubPattern {
    type V = SubModel;

    closed spec fn view(&self) -> SubModel {
        match self {
            SubPattern::OneOf { one_of, min_count, max_count } => SubModel {
                class: ClassModel::OneOf(one_of@),
                min_count: *min_count as nat,
                max_count: *max_count as nat,
            },
            SubPattern::Range { between, min_count, max_count } => SubModel {
                class: ClassModel::Between(between.0, between.1),
                min_count: *min_count as nat,
                max_count: *max_count as nat,
            },
        }
    }
}

impl SubPattern {
    fn matches(&self, c: u8) -> (r: bool)
        ensures
            r == class_has(self@.class, c),
    {
        match self {
            SubPattern::OneOf { one_of, .. } => one_of.contains(&c),
            SubPattern::Range { between, .. } => between.0 <= c && c <= between.1,
        }
    }

    fn allows_zero_length(&self) -> (r: bool)
        ensures
            r == (self@.min_count == 0),
    {
        let min_allowed = match self {
            SubPattern::OneOf { min_count, .. } => min_count,
            SubPattern::Range { min_count, .. } => min_count,
        };
        *min_allowed == 0u8
    }

    fn check_count(&self, count: u8) -> (r: MatchCountStatus)
        ensures
            r is Under <==> count < self@.min_count,
            r is Over <==> self@.min_count <= count && count > self@.max_count,
            r is MaxMatch <==> self@.min_count <= count && count == self@.max_count,
            r is InRange <==> self@.min_count <= count && count < self@.max_count,
    {
        match self {
            SubPattern::OneOf { min_count, max_count, .. } => MatchCountStatus::get_status(
                min_count,
                max_count,
                &count,
            ),
            SubPattern::Range { min_count, max_count, .. } => MatchCountStatus::get_status(
                min_count,
                max_count,
                &count,
            ),
        }
    }
}

/// A compiled pattern: an ordered list of quantified character classes.
pub struct Pattern {
    subpatterns: Vec<SubPattern>,
    opt_suffix_start_idx: usize,
}

impl View for Pattern {
    type V = PatternModel;

    closed spec fn view(&self) -> PatternModel {
        PatternModel {
            subs: self.subpatterns@.map_values(|s: SubPattern| s@),
            opt_suffix_start: self.opt_suffix_start_idx as nat,
        }
    }
}

impl Pattern {
    #[verifier::type_invariant]
    closed spec fn inv(&self) -> bool {
        well_formed(self@)
    }
}

/// The sub-patterns `pre` in front of what the rest of the text compiles to.
spec fn after(pre: Seq<SubModel>, rest: Result<Seq<SubModel>, CompileError>) -> Result<Seq<SubModel>, CompileError> {
    match rest {
        Ok(subs) => Ok(pre + subs),
        Err(e) => Err(e),
    }
}

spec fn sub_well_formed(s: SubModel) -> bool {
    &&& s.min_count <= s.max_count
    &&& forall|c: u8| #[trigger] class_has(s.class, c) ==> c < 128
}

/// The first position at or after `from` that holds `x`.
fn find_byte(p: &[u8], from: usize, x: u8) -> (r: Option<usize>)
    ensures
        r matches Some(i) ==> i < p.len() && first_index_of(p@, from as int, x) == Some(i as int),
        r is None ==> first_index_of(p@, from as int, x) is None,
{
    let mut i = from;
    while i < p.len()
        invariant
            from <= i,
            first_index_of(p@, from as int, x) == first_index_of(p@, i as int, x),
        decreases p.len() - i,
    {
        if p[i] == x {
            return Some(i);
        }
        i = i + 1;
    }
    None
}

/// Reads the count written in `p[lo..hi]`.
fn parse_count_at(p: &[u8], lo: usize, hi: usize) -> (r: Result<u8, CompileError>)
    requires
        lo <= hi <= p.len(),
    ensures
        r matches Ok(v) ==> parse_count(p@.subrange(lo as int, hi as int)) == Ok::<nat, CompileError>(v as nat),
        r matches Err(e) ==> parse_count(p@.subrange(lo as int, hi as int)) == Err::<nat, _>(e),
{
    let mut v: u32 = 0;
    let mut i = lo;
    while i < hi
        invariant
            lo <= i <= hi <= p.len(),
            all_digits(p@.subrange(lo as int, i as int)),
            (v <= 255 && v == decimal_value(p@.subrange(lo as int, i as int))) || (v == 256
                && decimal_value(p@.subrange(lo as int, i as int)) > 255),
        decreases hi - i,
    {
        let b = p[i];
        if b < DIGIT_ZERO || b > DIGIT_NINE {
            proof {
                assert(!is_digit(p@.subrange(lo as int, hi as int)[i - lo]));
            }
            return Err(CompileError::MalformedNumber);
        }
        proof {
            let s = p@.subrange(lo as int, i as int + 1);
            assert(s.drop_last() =~= p@.subrange(lo as int, i as int));
            assert(s.last() == b);
            assert forall|t: int| 0 <= t < s.len() implies is_digit(#[trigger] s[t]) by {
                if t < s.len() - 1 {
                    assert(s[t] == p@.subrange(lo as int, i as int)[t]);
                }
            }
        }
        if v > 255 {
            v = 256;
        } else {
            let nv = v * 10 + (b - DIGIT_ZERO) as u32;
            v = if nv > 255 {
                256
            } else {
                nv
            };
        }
        i = i + 1;
    }
    if hi == lo {
        return Err(CompileError::MalformedNumber);
    }
    if v > 255 {
        return Err(CompileError::CountTooLarge);
    }
    Ok(v as u8)
}

/// Reads the counts that start at `start`, just after `{`.
fn parse_quantifier_at(p: &[u8], start: usize) -> (r: Result<(u8, u8, usize), CompileError>)
    ensures
        r matches Ok((lo, hi, next)) ==> parse_quantifier(p@, start as int) == Ok::<_, CompileError>(
            (lo as nat, hi as nat, next as int),
        ),
        r matches Err(e) ==> parse_quantifier(p@, start as int) == Err::<(nat, nat, int), _>(e),
{
    let c = match find_byte(p, start, COMMA) {
        None => return Err(CompileError::MissingComma),
        Some(c) => c,
    };
    proof {
        lemma_first_index_of(p@, start as int, COMMA);
    }
    let b = match find_byte(p, c + 1, CLOSE_BRACE) {
        None => return Err(CompileError::MissingCloseBrace),
        Some(b) => b,
    };
    proof {
        lemma_first_index_of(p@, c + 1, CLOSE_BRACE);
    }
    let lo = match parse_count_at(p, start, c) {
        Err(e) => return Err(e),
        Ok(lo) => lo,
    };
    let hi = match parse_count_at(p, c + 1, b) {
        Err(e) => return Err(e),
        Ok(hi) => hi,
    };
    if lo > hi {
        return Err(CompileError::CountsOutOfOrder);
    }
    Ok((lo, hi, b + 1))
}

/// Reads the members of a set group from the member at `q` on.
fn parse_members_at(p: &[u8], q: usize) -> (r: Result<(HashSet<u8>, usize), CompileError>)
    requires
        valid_utf8(p@),
        1 <= q <= p.len(),
        p@[q - 1] < 128,
    ensures
        r matches Ok((s, e)) ==> parse_members(p@, q as int) == Ok::<_, CompileError>((s@, e as int))
            && forall|c: u8| #[trigger] s@.contains(c) ==> c < 128,
        r matches Err(e) ==> parse_members(p@, q as int) == Err::<(Set<u8>, int), _>(e),
    decreases p.len() - q,
{
    if q >= p.len() - 1 {
        return Err(CompileError::UnexpectedEnd);
    }
    let member = p[q];
    let sep = p[q + 1];
    if sep == CLOSE_BRACKET {
        proof {
            lemma_ascii_between(p@, q as int);
        }
        let mut s = HashSet::new();
        s.insert(member);
        proof {
            assert(s@ =~= set![member]);
        }
        Ok((s, q + 2))
    } else if sep == COMMA {
        proof {
            lemma_ascii_between(p@, q as int);
        }
        match parse_members_at(p, q + 2) {
            Err(e) => Err(e),
            Ok((s, e)) => {
                let mut s = s;
                s.insert(member);
                Ok((s, e))
            },
        }
    } else {
        Err(CompileError::BadSetSeparator)
    }
}

/// Reads the group that starts at `pos`.
fn parse_group_at(p: &[u8], pos: usize) -> (r: Result<(SubPattern, usize), CompileError>)
    requires
        valid_utf8(p@),
        pos < p.len(),
    ensures
        r matches Ok((g, next)) ==> parse_group(p@, pos as int) == Ok::<_, CompileError>((g@, next as int))
            && sub_well_formed(g@),
        r matches Err(e) ==> parse_group(p@, pos as int) == Err::<(SubModel, int), _>(e),
{
    if p[pos] != OPEN_BRACKET {
        return Err(CompileError::MissingOpenBracket);
    }
    if p.len() - pos <= 2 {
        return Err(CompileError::UnexpectedEnd);
    }
    if p[pos + 2] == DASH {
        if p.len() - pos <= 4 {
            return Err(CompileError::UnexpectedEnd);
        }
        if p[pos + 4] != CLOSE_BRACKET {
            return Err(CompileError::MissingCloseBracket);
        }
        if p.len() - pos <= 5 {
            return Err(CompileError::UnexpectedEnd);
        }
        if p[pos + 5] != OPEN_BRACE {
            return Err(CompileError::MissingOpenBrace);
        }
        proof {
            lemma_ascii_between(p@, pos + 3);
        }
        match parse_quantifier_at(p, pos + 6) {
            Err(e) => Err(e),
            Ok((min_count, max_count, next)) => Ok((
                SubPattern::Range { between: (p[pos + 1], p[pos + 3]), min_count, max_count },
                next,
            )),
        }
    } else {
        let (one_of, q) = match parse_members_at(p, pos + 1) {
            Err(e) => return Err(e),
            Ok(found) => found,
        };
        if q >= p.len() {
            return Err(CompileError::UnexpectedEnd);
        }
        if p[q] != OPEN_BRACE {
            return Err(CompileError::MissingOpenBrace);
        }
        match parse_quantifier_at(p, q + 1) {
            Err(e) => Err(e),
            Ok((min_count, max_count, next)) => Ok((SubPattern::OneOf { one_of, min_count, max_count }, next)),
        }
    }
}

impl Pattern {
    /// Compiles a pattern text, or tells which rule of the grammar it breaks.
    pub fn new(pattern: &str) -> (r: Result<Pattern, CompileError>)
        ensures
            r matches Ok(pat) ==> compile(pattern.spec_bytes()) == Ok::<_, CompileError>(pat@)
                && well_formed(pat@),
            r matches Err(e) ==> compile(pattern.spec_bytes()) == Err::<PatternModel, _>(e),
    {
        let p = pattern.as_bytes();
        proof {
            vstd::utf8::encode_utf8_valid_utf8(pattern@);
            assert(p@ == pattern.spec_bytes());
        }
        if p.len() == 0 {
            return Err(CompileError::EmptyPattern);
        }
        let mut subpatterns: Vec<SubPattern> = Vec::new();
        let mut pos: usize = 0;
        while pos < p.len()
            invariant
                pos <= p.len(),
                valid_utf8(p@),
                p@ == pattern.spec_bytes(),
                parse_groups(p@, 0) == after(subpatterns@.map_values(|s: SubPattern| s@), parse_groups(p@, pos as int)),
                forall|i: int| 0 <= i < subpatterns@.len() ==> sub_well_formed(#[trigger] subpatterns@[i]@),
            decreases p.len() - pos,
        {
            let ghost pre = subpatterns@.map_values(|s: SubPattern| s@);
            match parse_group_at(p, pos) {
                Err(e) => {
                    proof {
                        assert(parse_groups(p@, pos as int) == Err::<Seq<SubModel>, _>(e));
                        assert(parse_groups(p@, 0) == Err::<Seq<SubModel>, _>(e));
                        assert(compile(p@) == Err::<PatternModel, _>(e));
                    }
                    return Err(e);
                },
                Ok((g, next)) => {
                    proof {
                        lemma_parse_group_advances(p@, pos as int);
                    }
                    subpatterns.push(g);
                    proof {
                        let post = subpatterns@.map_values(|s: SubPattern| s@);
                        assert(post =~= pre.push(g@));
                        match parse_groups(p@, next as int) {
                            Ok(rest) => {
                                assert(pre + (seq![g@] + rest) =~= post + rest);
                            },
                            Err(_) => {},
                        }
                    }
                    pos = next;
                },
            }
        }
        let ghost subs = subpatterns@.map_values(|s: SubPattern| s@);
        proof {
            assert(subs + Seq::<SubModel>::empty() =~= subs);
            assert(subs.subrange(0, subs.len() as int) =~= subs);
        }
        let mut k: usize = subpatterns.len();
        while k > 0 && subpatterns[k - 1].allows_zero_length()
            invariant
                k <= subpatterns@.len(),
                subs == subpatterns@.map_values(|s: SubPattern| s@),
                optional_suffix_start(subs) == optional_suffix_start(subs.subrange(0, k as int)),
            decreases k,
        {
            proof {
                assert(subs.subrange(0, k as int).drop_last() =~= subs.subrange(0, k - 1));
            }
            k = k - 1;
        }
        proof {
            assert(subs.subrange(0, subs.len() as int) =~= subs);
            if k == 0 {
                assert(subs.subrange(0, 0) =~= Seq::<SubModel>::empty());
            }
        }
        let pat = Pattern { subpatterns, opt_suffix_start_idx: k };
        Ok(pat)
    }
}

/// A hypothesis about how much of the pattern the input read so far has satisfied:
/// the current sub-pattern and how many characters it has matched.
#[derive(Clone, Copy)]
struct PatternState {
    subpattern_index: usize,
    matched_count: u8,
}

/// What became of a state that read one character.
enum StateStatus {
    PendingMinimumMatches(PatternState),
    MatchInRange(PatternState),
    ExhaustedMatchLimit(Option<PatternState>),
    MatchFailed,
}

/// Some state of `v` stands in sub-pattern `i` with `k` characters matched.
spec fn holds(v: Seq<PatternState>, i: int, k: int) -> bool {
    exists|t: int| 0 <= t < v.len() && #[trigger] v[t].subpattern_index == i && v[t].matched_count == k
}

spec fn state_ok(p: PatternModel, s: PatternState) -> bool {
    s.subpattern_index < p.subs.len() && (s.matched_count == 0 || s.matched_count
        < p.subs[s.subpattern_index as int].max_count)
}

impl PatternState {
    fn root_state() -> (r: Self)
        ensures
            r.subpattern_index == 0 && r.matched_count == 0,
    {
        PatternState { subpattern_index: 0, matched_count: 0 }
    }

    fn next_sub_pattern(&self, pattern: &Pattern) -> (r: Option<Self>)
        requires
            self.subpattern_index < pattern@.subs.len(),
        ensures
            r is None <==> self.subpattern_index + 1 == pattern@.subs.len(),
            r matches Some(n) ==> n.subpattern_index == self.subpattern_index + 1 && n.matched_count == 0,
    {
        if self.subpattern_index == pattern.subpatterns.len() - 1 {
            None
        } else {
            Some(PatternState { subpattern_index: self.subpattern_index + 1, matched_count: 0 })
        }
    }

    fn remaining_can_be_zero_len(&self, pattern: &Pattern) -> (r: bool)
        ensures
            r == (self.subpattern_index >= pattern@.opt_suffix_start),
    {
        self.subpattern_index >= pattern.opt_suffix_start_idx
    }

    fn update(self, pattern: &Pattern, c: u8) -> (r: StateStatus)
        requires
            well_formed(pattern@),
            state_ok(pattern@, self),
        ensures
            ({
                let p = pattern@;
                let i = self.subpattern_index as int;
                let k2 = self.matched_count + 1;
                let sub = p.subs[i];
                match r {
                    StateStatus::MatchFailed => !class_has(sub.class, c) || k2 > sub.max_count,
                    StateStatus::PendingMinimumMatches(s) => class_has(sub.class, c) && k2 < sub.min_count
                        && s.subpattern_index == i && s.matched_count == k2,
                    StateStatus::MatchInRange(s) => class_has(sub.class, c) && sub.min_count <= k2
                        && k2 < sub.max_count && s.subpattern_index == i && s.matched_count == k2,
                    StateStatus::ExhaustedMatchLimit(n) => class_has(sub.class, c) && sub.min_count <= k2
                        && k2 == sub.max_count && (n is None <==> i + 1 == p.subs.len()) && (n matches Some(
                        ns) ==> ns.subpattern_index == i + 1 && ns.matched_count == 0),
                }
            }),
    {
        let mut this = self;
        let subpattern = &pattern.subpatterns[this.subpattern_index];
        if subpattern.matches(c) {
            this.matched_count = this.matched_count + 1;
            match subpattern.check_count(this.matched_count) {
                MatchCountStatus::Under => StateStatus::PendingMinimumMatches(this),
                MatchCountStatus::MaxMatch => StateStatus::ExhaustedMatchLimit(this.next_sub_pattern(pattern)),
                // only a sub-pattern that allows no character at all gets here
                MatchCountStatus::Over => StateStatus::MatchFailed,
                MatchCountStatus::InRange => StateStatus::MatchInRange(this),
            }
        } else {
            StateStatus::MatchFailed
        }
    }
}

/// Adds `s` to `states` unless a state equal to it is there already.
fn push_state(states: &mut Vec<PatternState>, s: PatternState)
    ensures
        forall|i: int, k: int|
            #![trigger holds(final(states)@, i, k)]
            holds(final(states)@, i, k) <==> holds(old(states)@, i, k) || (i == s.subpattern_index && k
                == s.matched_count),
{
    let mut t: usize = 0;
    while t < states.len()
        invariant
            t <= states@.len(),
            forall|u: int|
                0 <= u < t ==> !(#[trigger] states@[u].subpattern_index == s.subpattern_index
                    && states@[u].matched_count == s.matched_count),
        decreases states.len() - t,
    {
        if states[t].subpattern_index == s.subpattern_index && states[t].matched_count == s.matched_count {
            return;
        }
        t = t + 1;
    }
    let ghost before = states@;
    states.push(s);
    proof {
        assert forall|i: int, k: int| #[trigger] holds(states@, i, k) implies holds(before, i, k) || (i
            == s.subpattern_index && k == s.matched_count) by {
            let u = choose|u: int| 0 <= u < states@.len() && #[trigger] states@[u].subpattern_index == i
                && states@[u].matched_count == k;
            if u < before.len() {
                assert(before[u] == states@[u]);
            }
        }
        assert forall|i: int, k: int| holds(before, i, k) implies #[trigger] holds(states@, i, k) by {
            let u = choose|u: int| 0 <= u < before.len() && #[trigger] before[u].subpattern_index == i
                && before[u].matched_count == k;
            assert(states@[u] == before[u]);
        }
        assert(states@[before.len() as int] == s);
    }
}

/// Feeds `c` to the state `s`: adds its successors to `next_to_check`, and
/// tells whether a match ends here.
fn check_status_n_update_next(
    pattern: &Pattern,
    s: PatternState,
    c: u8,
    next_to_check: &mut Vec<PatternState>,
) -> (completed: bool)
    requires
        well_formed(pattern@),
        state_ok(pattern@, s),
    ensures
        forall|i: int, k: int|
            #![trigger holds(final(next_to_check)@, i, k)]
            holds(final(next_to_check)@, i, k) <==> holds(old(next_to_check)@, i, k) || successor(
                pattern@,
                s.subpattern_index as int,
                s.matched_count as int,
                c,
                i,
                k,
            ),
        completed == completes(pattern@, s.subpattern_index as int, s.matched_count as int, c),
{
    let ghost p = pattern@;
    let ghost j = s.subpattern_index as int;
    let ghost k = s.matched_count as int;
    proof {
        lemma_optional_suffix_start(p.subs);
    }
    let mut pattern_completed = false;
    let next_to_consider = match s.update(pattern, c) {
        StateStatus::PendingMinimumMatches(ns) => {
            push_state(next_to_check, ns);
            None
        },
        StateStatus::MatchInRange(ns) => {
            let nxt = ns.next_sub_pattern(pattern);
            push_state(next_to_check, ns);
            Some(nxt)
        },
        StateStatus::ExhaustedMatchLimit(next) => Some(next),
        StateStatus::MatchFailed => None,
    };
    let ghost mid = next_to_check@;
    if let Some(nxt) = next_to_consider {
        match nxt {
            Some(ns) => {
                if ns.remaining_can_be_zero_len(pattern) {
                    pattern_completed = true;
                    let mut idx = ns.subpattern_index;
                    while idx < pattern.subpatterns.len()
                        invariant
                            j + 1 <= idx <= p.subs.len(),
                            p == pattern@,
                            forall|a: int, b: int|
                                #![trigger holds(next_to_check@, a, b)]
                                holds(next_to_check@, a, b) <==> holds(mid, a, b) || (b == 0 && j < a < idx),
                        decreases p.subs.len() - idx,
                    {
                        push_state(next_to_check, PatternState { subpattern_index: idx, matched_count: 0 });
                        idx = idx + 1;
                    }
                } else {
                    push_state(next_to_check, ns);
                }
            },
            None => pattern_completed = true,
        }
    }
    proof {
        assert forall|a: int, b: int| #[trigger] holds(next_to_check@, a, b) == (holds(old(next_to_check)@, a, b) || successor(p, j, k, c, a, b)) by {
            if successor(p, j, k, c, a, b) && b == 0 && a != j + 1 {
                assert(may_follow(p, j, a));
            }
        }
    }
    pattern_completed
}

impl Pattern {
    /// Runs every live state over the input from `start` on, and returns the
    /// end (exclusive) of the longest match that starts there, or `start`
    /// when none does.
    fn longest_match_from(&self, inp: &[u8], start: usize) -> (r: usize)
        requires
            well_formed(self@),
            start < inp.len(),
        ensures
            r as int == longest_match_end(self@, inp@, start as int, inp@.len() as int),
    {
        let ghost p = self@;
        let ghost w = inp@;
        let mut match_end = start;
        let mut active_states: Vec<PatternState> = Vec::new();
        active_states.push(PatternState::root_state());
        proof {
            assert(w.subrange(start as int, start as int) =~= Seq::<u8>::empty());
            assert forall|a: int, b: int| #[trigger] holds(active_states@, a, b) == live(p, w.subrange(start as int, start as int), a, b) by {
                lemma_live_empty(p, a, b);
                if a == 0 && b == 0 {
                    assert(active_states@[0].subpattern_index == 0);
                }
            }
        }
        let mut i = start;
        while i < inp.len() && active_states.len() > 0
            invariant
                start <= i <= inp.len(),
                p == self@,
                w == inp@,
                well_formed(p),
                forall|a: int, b: int|
                    #![trigger holds(active_states@, a, b)]
                    holds(active_states@, a, b) == live(p, w.subrange(start as int, i as int), a, b),
                match_end as int == longest_match_end(p, w, start as int, i as int),
            decreases inp.len() - i,
        {
            let c = inp[i];
            let ghost u = w.subrange(start as int, i as int);
            let mut new_states: Vec<PatternState> = Vec::new();
            let mut completed = false;
            let mut q: usize = 0;
            while q < active_states.len()
                invariant
                    q <= active_states@.len(),
                    p == self@,
                    well_formed(p),
                    forall|a: int, b: int|
                        #![trigger holds(active_states@, a, b)]
                        holds(active_states@, a, b) == live(p, u, a, b),
                    forall|a: int, b: int|
                        #![trigger holds(new_states@, a, b)]
                        holds(new_states@, a, b) <==> exists|t: int|
                            0 <= t < q && successor(
                                p,
                                #[trigger] active_states@[t].subpattern_index as int,
                                active_states@[t].matched_count as int,
                                c,
                                a,
                                b,
                            ),
                    completed <==> exists|t: int|
                        0 <= t < q && completes(
                            p,
                            #[trigger] active_states@[t].subpattern_index as int,
                            active_states@[t].matched_count as int,
                            c,
                        ),
                decreases active_states.len() - q,
            {
                let st = active_states[q];
                proof {
                    assert(holds(active_states@, st.subpattern_index as int, st.matched_count as int));
                }
                let ghost before = new_states@;
                if check_status_n_update_next(self, st, c, &mut new_states) {
                    completed = true;
                }
                proof {
                    assert forall|a: int, b: int| #[trigger] holds(new_states@, a, b) <==> exists|t: int|
                        0 <= t < q + 1 && successor(
                            p,
                            #[trigger] active_states@[t].subpattern_index as int,
                            active_states@[t].matched_count as int,
                            c,
                            a,
                            b,
                        ) by {
                        if holds(new_states@, a, b) && !holds(before, a, b) {
                            assert(active_states@[q as int] == st);
                        }
                    }
                    if completes(p, st.subpattern_index as int, st.matched_count as int, c) {
                        assert(active_states@[q as int] == st);
                    }
                }
                q = q + 1;
            }
            proof {
                let v = w.subrange(start as int, i as int + 1);
                assert(v =~= u.push(c));
                lemma_step(p, u, c);
                assert forall|a: int, b: int| #[trigger] holds(new_states@, a, b) == live(p, v, a, b) by {
                    if holds(new_states@, a, b) {
                        let t = choose|t: int|
                            0 <= t < active_states@.len() && successor(
                                p,
                                #[trigger] active_states@[t].subpattern_index as int,
                                active_states@[t].matched_count as int,
                                c,
                                a,
                                b,
                            );
                        let st = active_states@[t];
                        assert(holds(active_states@, st.subpattern_index as int, st.matched_count as int));
                        assert(successor(p, st.subpattern_index as int, st.matched_count as int, c, a, b));
                    }
                    if live(p, v, a, b) {
                        let (j, k) = choose|j: int, k: int|
                            #![trigger successor(p, j, k, c, a, b)]
                            live(p, u, j, k) && successor(p, j, k, c, a, b);
                        assert(holds(active_states@, j, k));
                        let t = choose|t: int|
                            0 <= t < active_states@.len() && #[trigger] active_states@[t].subpattern_index == j
                                && active_states@[t].matched_count == k;
                        assert(successor(
                            p,
                            active_states@[t].subpattern_index as int,
                            active_states@[t].matched_count as int,
                            c,
                            a,
                            b,
                        ));
                    }
                }
                if completed {
                    let t = choose|t: int|
                        0 <= t < active_states@.len() && completes(
                            p,
                            #[trigger] active_states@[t].subpattern_index as int,
                            active_states@[t].matched_count as int,
                            c,
                        );
                    let st = active_states@[t];
                    assert(holds(active_states@, st.subpattern_index as int, st.matched_count as int));
                    assert(completes(p, st.subpattern_index as int, st.matched_count as int, c));
                }
                if accepts(p, v) {
                    let (j, k) = choose|j: int, k: int|
                        #![trigger completes(p, j, k, c)]
                        live(p, u, j, k) && completes(p, j, k, c);
                    assert(holds(active_states@, j, k));
                    let t = choose|t: int|
                        0 <= t < active_states@.len() && #[trigger] active_states@[t].subpattern_index == j
                            && active_states@[t].matched_count == k;
                    assert(completes(
                        p,
                        active_states@[t].subpattern_index as int,
                        active_states@[t].matched_count as int,
                        c,
                    ));
                }
            }
            if completed {
                match_end = i + 1;
            }
            active_states = new_states;
            i = i + 1;
        }
        proof {
            if i < inp.len() {
                assert forall|a: int, b: int| !live(p, w.subrange(start as int, i as int), a, b) by {
                    if live(p, w.subrange(start as int, i as int), a, b) {
                        assert(holds(active_states@, a, b));
                    }
                }
                lemma_dead_end(p, w, start as int, i as int, w.len() as int);
            }
        }
        match_end
    }

    /// Every non-overlapping match in `inp`, left to right: at the first
    /// offset where a match starts, the longest one, then the same again from
    /// just after its end.
    pub fn find_matches<'i>(&self, inp: &'i str) -> (r: Vec<&'i str>)
        ensures
            r@.len() == match_spans(self@, inp.spec_bytes()).len(),
            forall|k: int|
                0 <= k < r@.len() ==> (#[trigger] r@[k]).spec_bytes() == inp.spec_bytes().subrange(
                    match_spans(self@, inp.spec_bytes())[k].0,
                    match_spans(self@, inp.spec_bytes())[k].1,
                ),
    {
        proof {
            use_type_invariant(self);
        }
        let inp_bytes = inp.as_bytes();
        let ghost p = self@;
        let ghost w = inp_bytes@;
        let ghost all = match_spans(p, w);
        proof {
            vstd::utf8::encode_utf8_valid_utf8(inp@);
            assert(Seq::<(int, int)>::empty() + all =~= all);
        }
        let mut matches: Vec<&'i str> = Vec::new();
        let ghost mut spans: Seq<(int, int)> = Seq::empty();
        let mut start_idx: usize = 0;
        while start_idx < inp_bytes.len()
            invariant
                p == self@,
                well_formed(p),
                w == inp_bytes@,
                w == inp.spec_bytes(),
                valid_utf8(w),
                all == match_spans(p, w),
                start_idx <= w.len(),
                spans + matches_from(p, w, start_idx as int) == all,
                matches@.len() == spans.len(),
                forall|k: int|
                    0 <= k < matches@.len() ==> (#[trigger] matches@[k]).spec_bytes() == w.subrange(
                        spans[k].0,
                        spans[k].1,
                    ),
            decreases w.len() - start_idx,
        {
            let end_idx = self.longest_match_from(inp_bytes, start_idx);
            proof {
                lemma_longest_match_end(p, w, start_idx as int, w.len() as int);
            }
            if end_idx > start_idx {
                let ghost m = w.subrange(start_idx as int, end_idx as int);
                proof {
                    lemma_match_ascii_ends(p, m);
                    assert(m[0] == w[start_idx as int]);
                    lemma_ascii_boundaries(w, start_idx as int);
                }
                let (_, rest) = inp.split_at(start_idx);
                let ghost rb = rest.spec_bytes();
                proof {
                    vstd::utf8::encode_utf8_valid_utf8(rest@);
                    assert(rb[end_idx - start_idx - 1] == m[m.len() - 1]);
                    lemma_ascii_boundaries(rb, end_idx - start_idx - 1);
                }
                let (found, _) = rest.split_at(end_idx - start_idx);
                proof {
                    assert(found.spec_bytes() =~= m);
                }
                let ghost old_matches = matches@;
                matches.push(found);
                proof {
                    let rest_spans = matches_from(p, w, end_idx as int);
                    assert(spans + (seq![(start_idx as int, end_idx as int)] + rest_spans) =~= spans.push(
                        (start_idx as int, end_idx as int),
                    ) + rest_spans);
                    spans = spans.push((start_idx as int, end_idx as int));
                    assert forall|k: int|
                        0 <= k < matches@.len() implies (#[trigger] matches@[k]).spec_bytes() == w.subrange(
                        spans[k].0,
                        spans[k].1,
                    ) by {
                        if k < old_matches.len() {
                            assert(matches@[k] == old_matches[k]);
                        }
                    }
                }
                start_idx = end_idx;
            } else {
                start_idx = start_idx + 1;
            }
        }
        proof {
            assert(spans + Seq::<(int, int)>::empty() =~= spans);
        }
        matches
    }
}

} // verus!
