//! Properties that hold of every compilation and every search.

use vstd::prelude::*;
use crate::model::{
    PatternModel, accepts, all_in_class, ends_in, longest_match_end, match_spans, matches_from,
    may_end, may_follow, run_fits, well_formed, lemma_longest_match_end,
};
use crate::syntax::{CompileError, compile, lemma_optional_suffix_start};

verus! {

/// Compiling the same text twice gives the same sub-patterns and the same
/// start of the optional suffix.
pub proof fn compile_is_deterministic(text: Seq<u8>, a: PatternModel, b: PatternModel)
    requires
        compile(text) == Ok::<PatternModel, CompileError>(a),
        compile(text) == Ok::<PatternModel, CompileError>(b),
    ensures
        a.subs == b.subs,
        a.opt_suffix_start == b.opt_suffix_start,
{
}

/// The matches found from `s` on lie inside `w` after `s`, in order and
/// without overlap; each is a match, and no longer match starts where it starts.
proof fn lemma_matches_from(p: PatternModel, w: Seq<u8>, s: int)
    requires
        0 <= s,
    ensures
        ({
            let m = matches_from(p, w, s);
            &&& forall|k: int| 0 <= k < m.len() ==> s <= (#[trigger] m[k]).0 < m[k].1 <= w.len()
            &&& forall|k: int| 0 <= k < m.len() - 1 ==> (#[trigger] m[k]).1 <= m[k + 1].0
            &&& forall|k: int| 0 <= k < m.len() ==> accepts(p, w.subrange((#[trigger] m[k]).0, m[k].1))
            &&& forall|k: int, e: int|
                0 <= k < m.len() && (#[trigger] m[k]).1 < e <= w.len() ==> !accepts(p, #[trigger] w.subrange(m[k].0, e))
        }),
    decreases w.len() - s,
{
    if s < w.len() {
        let t = longest_match_end(p, w, s, w.len() as int);
        lemma_longest_match_end(p, w, s, w.len() as int);
        if s < t <= w.len() {
            lemma_matches_from(p, w, t);
            let rest = matches_from(p, w, t);
            let m = matches_from(p, w, s);
            assert(m == seq![(s, t)] + rest);
            assert(m[0] == (s, t));
            assert forall|k: int| 0 < k < m.len() implies #[trigger] m[k] == rest[k - 1] by {}
            assert forall|k: int| 0 <= k < m.len() - 1 implies (#[trigger] m[k]).1 <= m[k + 1].0 by {
                assert(m[k + 1] == rest[k]);
                if k > 0 {
                    assert(m[k] == rest[k - 1]);
                }
            }
            assert forall|k: int| 0 <= k < m.len() implies accepts(p, w.subrange((#[trigger] m[k]).0, m[k].1)) by {
                if k > 0 {
                    assert(m[k] == rest[k - 1]);
                }
            }
            assert forall|k: int, e: int|
                0 <= k < m.len() && (#[trigger] m[k]).1 < e <= w.len() implies !accepts(p, #[trigger] w.subrange(m[k].0, e)) by {
                if k > 0 {
                    assert(m[k] == rest[k - 1]);
                }
            }
        } else {
            lemma_matches_from(p, w, s + 1);
            assert(matches_from(p, w, s) == matches_from(p, w, s + 1));
        }
    }
}

/// No match starts at an offset that the search stepped over: before the
/// first match, or between the end of one match and the start of the next.
proof fn lemma_gaps_from(p: PatternModel, w: Seq<u8>, s: int)
    requires
        0 <= s,
    ensures
        ({
            let m = matches_from(p, w, s);
            &&& forall|x: int, e: int|
                s <= x < e <= w.len() && (m.len() > 0 ==> x < m[0].0) ==> !accepts(p, #[trigger] w.subrange(x, e))
            &&& forall|k: int, x: int, e: int|
                0 <= k < m.len() && (#[trigger] m[k]).1 <= x < e <= w.len() && (k + 1 < m.len() ==> x < m[k + 1].0)
                    ==> !accepts(p, #[trigger] w.subrange(x, e))
        }),
    decreases w.len() - s,
{
    if s < w.len() {
        let t = longest_match_end(p, w, s, w.len() as int);
        lemma_longest_match_end(p, w, s, w.len() as int);
        if s < t <= w.len() {
            lemma_gaps_from(p, w, t);
            let rest = matches_from(p, w, t);
            let m = matches_from(p, w, s);
            assert(m == seq![(s, t)] + rest);
            assert forall|k: int, x: int, e: int|
                0 <= k < m.len() && (#[trigger] m[k]).1 <= x < e <= w.len() && (k + 1 < m.len() ==> x < m[k + 1].0)
                    implies !accepts(p, #[trigger] w.subrange(x, e)) by {
                if k > 0 {
                    assert(m[k] == rest[k - 1]);
                    if k < rest.len() {
                        assert(m[k + 1] == rest[k]);
                    }
                } else {
                    if rest.len() > 0 {
                        assert(m[1] == rest[0]);
                    }
                }
            }
        } else {
            lemma_gaps_from(p, w, s + 1);
            assert(matches_from(p, w, s) == matches_from(p, w, s + 1));
        }
    }
}

/// The search skips no match: none starts before the first reported match,
/// nor between the end of one reported match and the start of the next.
pub proof fn matches_are_leftmost(p: PatternModel, w: Seq<u8>)
    ensures
        forall|x: int, e: int|
            0 <= x < e <= w.len() && (match_spans(p, w).len() > 0 ==> x < match_spans(p, w)[0].0) ==> !accepts(
                p,
                #[trigger] w.subrange(x, e),
            ),
        forall|k: int, x: int, e: int|
            0 <= k < match_spans(p, w).len() && (#[trigger] match_spans(p, w)[k]).1 <= x < e <= w.len() && (k + 1
                < match_spans(p, w).len() ==> x < match_spans(p, w)[k + 1].0) ==> !accepts(p, #[trigger] w.subrange(x, e)),
{
    lemma_gaps_from(p, w, 0);
}

/// No two matches share a position, and their starts strictly increase.
pub proof fn matches_do_not_overlap(p: PatternModel, w: Seq<u8>)
    ensures
        forall|k: int| 0 <= k < match_spans(p, w).len() ==> 0 <= (#[trigger] match_spans(p, w)[k]).0 < match_spans(p, w)[k].1 <= w.len(),
        forall|k: int|
            0 <= k < match_spans(p, w).len() - 1 ==> (#[trigger] match_spans(p, w)[k]).1 <= match_spans(p, w)[k + 1].0,
        forall|k: int|
            0 <= k < match_spans(p, w).len() - 1 ==> (#[trigger] match_spans(p, w)[k]).0 < match_spans(p, w)[k + 1].0,
{
    lemma_matches_from(p, w, 0);
}

/// Every reported match is a match, and no longer match starts at the same offset.
pub proof fn matches_are_longest(p: PatternModel, w: Seq<u8>)
    ensures
        forall|k: int| 0 <= k < match_spans(p, w).len() ==> accepts(p, w.subrange((#[trigger] match_spans(p, w)[k]).0, match_spans(p, w)[k].1)),
        forall|k: int, e: int|
            0 <= k < match_spans(p, w).len() && (#[trigger] match_spans(p, w)[k]).1 < e <= w.len() ==> !accepts(
                p,
                #[trigger] w.subrange(match_spans(p, w)[k].0, e),
            ),
{
    lemma_matches_from(p, w, 0);
}

/// A pattern whose trailing sub-patterns all allow zero repetitions accepts
/// text that ends where its last required sub-pattern ends: here `parts[i]`
/// is a legal run of sub-pattern `i` for each required sub-pattern `i`.
pub proof fn optional_suffix_may_stay_empty(p: PatternModel, parts: Seq<Seq<u8>>)
    requires
        well_formed(p),
        p.opt_suffix_start >= 1,
        parts.len() == p.opt_suffix_start,
        forall|i: int| 0 <= i < parts.len() ==> run_fits(p, i, (#[trigger] parts[i]).len() as int),
        forall|i: int| 0 <= i < parts.len() ==> all_in_class(p, i, #[trigger] parts[i]),
    ensures
        accepts(p, parts.flatten()),
{
    lemma_optional_suffix_start(p.subs);
    lemma_runs_end_in(p, parts, parts.len() as int);
    let n = parts.len() as int;
    assert(parts.subrange(0, n) =~= parts);
    parts.lemma_flatten_and_flatten_alt_are_equivalent();
    assert(may_end(p, n - 1));
}

proof fn lemma_runs_end_in(p: PatternModel, parts: Seq<Seq<u8>>, m: int)
    requires
        1 <= m <= parts.len() <= p.subs.len(),
        forall|i: int| 0 <= i < parts.len() ==> run_fits(p, i, (#[trigger] parts[i]).len() as int),
        forall|i: int| 0 <= i < parts.len() ==> all_in_class(p, i, #[trigger] parts[i]),
    ensures
        ends_in(p, parts.subrange(0, m).flatten_alt(), m - 1),
        parts.subrange(0, m).flatten_alt().len() > 0,
    decreases m,
{
    let pre = parts.subrange(0, m);
    let w = pre.flatten_alt();
    let u = pre.drop_last().flatten_alt();
    let x = parts[m - 1];
    assert(pre.last() == x);
    assert(w == u + x);
    let r = x.len() as int;
    assert(w.subrange(w.len() - r, w.len() as int) =~= x);
    assert(w.subrange(0, w.len() - r) =~= u);
    if m == 1 {
        assert(pre.drop_last() =~= Seq::<Seq<u8>>::empty());
        assert(u =~= Seq::<u8>::empty());
    } else {
        lemma_runs_end_in(p, parts, m - 1);
        assert(pre.drop_last() =~= parts.subrange(0, m - 1));
        assert(may_follow(p, m - 2, m - 1));
    }
    assert(run_fits(p, m - 1, r));
}

} // verus!
