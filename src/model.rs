//! Mathematical model of compiled patterns and of what they match.

use vstd::prelude::*;

verus! {

/// The characters a sub-pattern accepts.
pub enum ClassModel {
    /// Any byte of the set.
    OneOf(Set<u8>),
    /// Any byte `c` with `lower <= c <= upper`.
    Between(u8, u8),
}

/// One quantified character class.
pub struct SubModel {
    pub class: ClassModel,
    pub min_count: nat,
    pub max_count: nat,
}

/// A compiled pattern: its sub-patterns, in order, and the start of its optional suffix.
pub struct PatternModel {
    pub subs: Seq<SubModel>,
    pub opt_suffix_start: nat,
}

pub open spec fn class_has(class: ClassModel, c: u8) -> bool {
    match class {
        ClassModel::OneOf(s) => s.contains(c),
        ClassModel::Between(lo, hi) => lo <= c && c <= hi,
    }
}

/// Every byte of `w` belongs to the class of sub-pattern `i`.
pub open spec fn all_in_class(p: PatternModel, i: int, w: Seq<u8>) -> bool {
    forall|t: int| 0 <= t < w.len() ==> class_has(p.subs[i].class, #[trigger] w[t])
}

/// A run of `r` characters is a legal repetition count for sub-pattern `i`.
pub open spec fn run_fits(p: PatternModel, i: int, r: int) -> bool {
    1 <= r && p.subs[i].min_count <= r && r <= p.subs[i].max_count
}

/// After finishing sub-pattern `j`, a match may go on with sub-pattern `i`:
/// the next one, or any later one when everything skipped lies in the optional suffix.
pub open spec fn may_follow(p: PatternModel, j: int, i: int) -> bool {
    0 <= j < i < p.subs.len() && (i == j + 1 || j + 1 >= p.opt_suffix_start)
}

/// After finishing sub-pattern `j`, a match may end: all later sub-patterns are optional.
pub open spec fn may_end(p: PatternModel, j: int) -> bool {
    j + 1 >= p.opt_suffix_start
}

/// `w` is consumed by a sequence of complete runs whose last run belongs to sub-pattern `i`.
pub open spec fn ends_in(p: PatternModel, w: Seq<u8>, i: int) -> bool
    decreases w.len(),
{
    exists|r: int|
        #![trigger run_fits(p, i, r)]
        run_fits(p, i, r) && r <= w.len() && all_in_class(p, i, w.subrange(w.len() - r, w.len() as int))
            && {
            let u = w.subrange(0, w.len() - r);
            (u.len() == 0 && i == 0) || (u.len() > 0 && exists|j: int|
                #![trigger may_follow(p, j, i)]
                may_follow(p, j, i) && ends_in(p, u, j))
        }
}


/// After consuming `u` from the start of a match attempt, sub-pattern `i` may begin.
pub open spec fn starts_at(p: PatternModel, u: Seq<u8>, i: int) -> bool {
    (u.len() == 0 && i == 0) || (u.len() > 0 && exists|j: int|
        #![trigger may_follow(p, j, i)]
        may_follow(p, j, i) && ends_in(p, u, j))
}

/// A match attempt that has consumed `u` may stand in sub-pattern `i` with `k`
/// characters of it matched, and can still take more.
pub open spec fn live(p: PatternModel, u: Seq<u8>, i: int, k: int) -> bool {
    &&& 0 <= i < p.subs.len()
    &&& 0 <= k <= u.len()
    &&& (k == 0 || k < p.subs[i].max_count)
    &&& all_in_class(p, i, u.subrange(u.len() - k, u.len() as int))
    &&& starts_at(p, u.subrange(0, u.len() - k), i)
}

/// `w` is a match of the pattern: it is consumed by complete runs that visit
/// sub-pattern 0 and then every later sub-pattern in order, skipping only
/// sub-patterns of the optional suffix, and it stops where the rest is optional.
pub open spec fn accepts(p: PatternModel, w: Seq<u8>) -> bool {
    w.len() > 0 && exists|i: int|
        #![trigger ends_in(p, w, i)]
        0 <= i < p.subs.len() && may_end(p, i) && ends_in(p, w, i)
}

/// The pattern is well formed: at least one sub-pattern, ordered counts, the
/// optional suffix where it belongs, and classes of ASCII bytes only.
pub open spec fn well_formed(p: PatternModel) -> bool {
    &&& p.subs.len() >= 1
    &&& p.opt_suffix_start == crate::syntax::optional_suffix_start(p.subs)
    &&& forall|i: int| 0 <= i < p.subs.len() ==> #[trigger] p.subs[i].min_count <= p.subs[i].max_count
    &&& forall|i: int, c: u8| 0 <= i < p.subs.len() && #[trigger] class_has(p.subs[i].class, c) ==> c < 128
}

/// A state `(j, k)` that reads `c` goes on as state `(i, k2)`.
pub open spec fn successor(p: PatternModel, j: int, k: int, c: u8, i: int, k2: int) -> bool {
    &&& class_has(p.subs[j].class, c)
    &&& k + 1 <= p.subs[j].max_count
    &&& {
        ||| (i == j && k2 == k + 1 && k + 1 < p.subs[j].max_count)
        ||| (k2 == 0 && p.subs[j].min_count <= k + 1 && may_follow(p, j, i))
    }
}

/// A state `(j, k)` that reads `c` completes a match.
pub open spec fn completes(p: PatternModel, j: int, k: int, c: u8) -> bool {
    class_has(p.subs[j].class, c) && run_fits(p, j, k + 1) && may_end(p, j)
}

/// The end of the longest match that starts at `s` and ends at or before `t`;
/// `s` itself where there is none.
pub open spec fn longest_match_end(p: PatternModel, w: Seq<u8>, s: int, t: int) -> int
    decreases t - s,
{
    if t <= s {
        s
    } else if accepts(p, w.subrange(s, t)) {
        t
    } else {
        longest_match_end(p, w, s, t - 1)
    }
}

/// The matches found from offset `s` on, as `(start, end)` pairs with `end`
/// exclusive: the longest match at the first offset where one starts, then
/// the same again after its end.
pub open spec fn matches_from(p: PatternModel, w: Seq<u8>, s: int) -> Seq<(int, int)>
    decreases w.len() - s,
{
    if s < 0 || s >= w.len() {
        seq![]
    } else {
        let t = longest_match_end(p, w, s, w.len() as int);
        if s < t <= w.len() {
            seq![(s, t)] + matches_from(p, w, t)
        } else {
            matches_from(p, w, s + 1)
        }
    }
}

/// All matches in `w`, left to right.
pub open spec fn match_spans(p: PatternModel, w: Seq<u8>) -> Seq<(int, int)> {
    matches_from(p, w, 0)
}

/// Before any input only the root state is live.
pub proof fn lemma_live_empty(p: PatternModel, i: int, k: int)
    requires
        p.subs.len() >= 1,
    ensures
        live(p, seq![], i, k) <==> (i == 0 && k == 0),
{
    if i == 0 && k == 0 {
        assert(seq![].subrange(0, 0) =~= Seq::<u8>::empty());
    }
}

/// A match that ends in sub-pattern `j` after `u` then `c`, by the state that read `c`.
proof fn lemma_ends_in_push(p: PatternModel, u: Seq<u8>, c: u8, j: int)
    requires
        0 <= j < p.subs.len(),
    ensures
        ends_in(p, u.push(c), j) <==> exists|k: int|
            #![trigger live(p, u, j, k)]
            live(p, u, j, k) && class_has(p.subs[j].class, c) && run_fits(p, j, k + 1),
{
    let w = u.push(c);
    if ends_in(p, w, j) {
        let r = choose|r: int|
            #![trigger run_fits(p, j, r)]
            run_fits(p, j, r) && r <= w.len() && all_in_class(p, j, w.subrange(w.len() - r, w.len() as int))
                && {
                let v = w.subrange(0, w.len() - r);
                (v.len() == 0 && j == 0) || (v.len() > 0 && exists|j2: int|
                    #![trigger may_follow(p, j2, j)]
                    may_follow(p, j2, j) && ends_in(p, v, j2))
            };
        let k = r - 1;
        assert(w.subrange(0, w.len() - r) =~= u.subrange(0, u.len() - k));
        assert(w.subrange(w.len() - r, w.len() as int) =~= u.subrange(u.len() - k, u.len() as int).push(c));
        assert(w[w.len() - 1] == c);
        assert forall|t: int| 0 <= t < u.subrange(u.len() - k, u.len() as int).len() implies class_has(
            p.subs[j].class,
            #[trigger] u.subrange(u.len() - k, u.len() as int)[t],
        ) by {
            assert(u.subrange(u.len() - k, u.len() as int)[t] == w.subrange(w.len() - r, w.len() as int)[t]);
        }
        assert(live(p, u, j, k));
        assert(class_has(p.subs[j].class, w.subrange(w.len() - r, w.len() as int)[k]));
        assert(run_fits(p, j, k + 1));
    }
    assert forall|k: int|
        live(p, u, j, k) && class_has(p.subs[j].class, c) && run_fits(p, j, k + 1) implies ends_in(p, w, j) by {
        let r = k + 1;
        assert(w.subrange(0, w.len() - r) =~= u.subrange(0, u.len() - k));
        assert(w.subrange(w.len() - r, w.len() as int) =~= u.subrange(u.len() - k, u.len() as int).push(c));
        assert(all_in_class(p, j, w.subrange(w.len() - r, w.len() as int))) by {
            assert forall|t: int| 0 <= t < r implies class_has(
                p.subs[j].class,
                #[trigger] w.subrange(w.len() - r, w.len() as int)[t],
            ) by {
                if t < k {
                    assert(w.subrange(w.len() - r, w.len() as int)[t] == u.subrange(u.len() - k, u.len() as int)[t]);
                }
            }
        }
        assert(run_fits(p, j, r));
    }
}

/// One step of the simulation: the live states after `u` then `c` are the
/// successors of the live states after `u`, and a match ends at `c` exactly
/// when one of them completes.
pub proof fn lemma_step(p: PatternModel, u: Seq<u8>, c: u8)
    ensures
        forall|i: int, k2: int|
            #![trigger live(p, u.push(c), i, k2)]
            live(p, u.push(c), i, k2) <==> exists|j: int, k: int|
                #![trigger successor(p, j, k, c, i, k2)]
                live(p, u, j, k) && successor(p, j, k, c, i, k2),
        accepts(p, u.push(c)) <==> exists|j: int, k: int|
            #![trigger completes(p, j, k, c)]
            live(p, u, j, k) && completes(p, j, k, c),
{
    let w = u.push(c);
    assert forall|i: int, k2: int| #[trigger] live(p, w, i, k2) implies exists|j: int, k: int|
        #![trigger successor(p, j, k, c, i, k2)]
        live(p, u, j, k) && successor(p, j, k, c, i, k2) by {
        if k2 > 0 {
            let k = k2 - 1;
            assert(w.subrange(0, w.len() - k2) =~= u.subrange(0, u.len() - k));
            assert(w.subrange(w.len() - k2, w.len() as int) =~= u.subrange(u.len() - k, u.len() as int).push(c));
            assert(class_has(p.subs[i].class, w.subrange(w.len() - k2, w.len() as int)[k]));
            assert forall|t: int| 0 <= t < k implies class_has(
                p.subs[i].class,
                #[trigger] u.subrange(u.len() - k, u.len() as int)[t],
            ) by {
                assert(u.subrange(u.len() - k, u.len() as int)[t] == w.subrange(w.len() - k2, w.len() as int)[t]);
            }
            assert(live(p, u, i, k));
            assert(successor(p, i, k, c, i, k2));
        } else {
            assert(w.subrange(0, w.len() - 0) =~= w);
            let j = choose|j: int| #![trigger may_follow(p, j, i)] may_follow(p, j, i) && ends_in(p, w, j);
            lemma_ends_in_push(p, u, c, j);
            let k = choose|k: int| #![trigger live(p, u, j, k)] live(p, u, j, k) && class_has(p.subs[j].class, c) && run_fits(p, j, k + 1);
            assert(successor(p, j, k, c, i, k2));
        }
    }
    assert forall|i: int, k2: int|
        (exists|j: int, k: int|
            #![trigger successor(p, j, k, c, i, k2)]
            live(p, u, j, k) && successor(p, j, k, c, i, k2)) implies #[trigger] live(p, w, i, k2) by {
        let (j, k) = choose|j: int, k: int|
            #![trigger successor(p, j, k, c, i, k2)]
            live(p, u, j, k) && successor(p, j, k, c, i, k2);
        if i == j && k2 == k + 1 && k + 1 < p.subs[j].max_count {
            assert(w.subrange(0, w.len() - k2) =~= u.subrange(0, u.len() - k));
            assert(w.subrange(w.len() - k2, w.len() as int) =~= u.subrange(u.len() - k, u.len() as int).push(c));
            assert forall|t: int| 0 <= t < k2 implies class_has(
                p.subs[i].class,
                #[trigger] w.subrange(w.len() - k2, w.len() as int)[t],
            ) by {
                if t < k {
                    assert(w.subrange(w.len() - k2, w.len() as int)[t] == u.subrange(u.len() - k, u.len() as int)[t]);
                }
            }
        } else {
            lemma_ends_in_push(p, u, c, j);
            assert(w.subrange(0, w.len() - 0) =~= w);
            assert(w.subrange(w.len() - 0, w.len() as int) =~= Seq::<u8>::empty());
            assert(starts_at(p, w, i));
        }
    }
    if accepts(p, w) {
        let i = choose|i: int| #![trigger ends_in(p, w, i)] 0 <= i < p.subs.len() && may_end(p, i) && ends_in(p, w, i);
        lemma_ends_in_push(p, u, c, i);
        let k = choose|k: int| #![trigger live(p, u, i, k)] live(p, u, i, k) && class_has(p.subs[i].class, c) && run_fits(p, i, k + 1);
        assert(completes(p, i, k, c));
    }
    if exists|j: int, k: int| #![trigger completes(p, j, k, c)] live(p, u, j, k) && completes(p, j, k, c) {
        let (j, k) = choose|j: int, k: int| #![trigger completes(p, j, k, c)] live(p, u, j, k) && completes(p, j, k, c);
        lemma_ends_in_push(p, u, c, j);
        assert(ends_in(p, w, j));
    }
}


/// Once no state is live, no state comes back and no match ends.
pub proof fn lemma_no_live_stays(p: PatternModel, w: Seq<u8>, s: int, j: int, t: int)
    requires
        0 <= s <= j <= t <= w.len(),
        forall|i: int, k: int| !live(p, w.subrange(s, j), i, k),
    ensures
        forall|i: int, k: int| !live(p, w.subrange(s, t), i, k),
        t > j ==> !accepts(p, w.subrange(s, t)),
    decreases t - j,
{
    if t > j {
        lemma_no_live_stays(p, w, s, j, t - 1);
        let u = w.subrange(s, t - 1);
        assert(w.subrange(s, t) =~= u.push(w[t - 1]));
        lemma_step(p, u, w[t - 1]);
    }
}

/// Once no state is live, the longest match from `s` is settled.
pub proof fn lemma_dead_end(p: PatternModel, w: Seq<u8>, s: int, j: int, t: int)
    requires
        0 <= s <= j <= t <= w.len(),
        forall|i: int, k: int| !live(p, w.subrange(s, j), i, k),
    ensures
        longest_match_end(p, w, s, t) == longest_match_end(p, w, s, j),
    decreases t - j,
{
    if t > j {
        lemma_no_live_stays(p, w, s, j, t);
        lemma_dead_end(p, w, s, j, t - 1);
    }
}

proof fn lemma_ends_in_first(p: PatternModel, w: Seq<u8>, i: int)
    requires
        0 <= i < p.subs.len(),
        ends_in(p, w, i),
    ensures
        w.len() > 0,
        exists|j: int| 0 <= j < p.subs.len() && #[trigger] class_has(p.subs[j].class, w[0]),
    decreases w.len(),
{
    let r = choose|r: int|
        #![trigger run_fits(p, i, r)]
        run_fits(p, i, r) && r <= w.len() && all_in_class(p, i, w.subrange(w.len() - r, w.len() as int))
            && {
            let v = w.subrange(0, w.len() - r);
            (v.len() == 0 && i == 0) || (v.len() > 0 && exists|j2: int|
                #![trigger may_follow(p, j2, i)]
                may_follow(p, j2, i) && ends_in(p, v, j2))
        };
    let v = w.subrange(0, w.len() - r);
    if v.len() == 0 {
        assert(class_has(p.subs[i].class, w.subrange(w.len() - r, w.len() as int)[0]));
    } else {
        let j2 = choose|j2: int| #![trigger may_follow(p, j2, i)] may_follow(p, j2, i) && ends_in(p, v, j2);
        lemma_ends_in_first(p, v, j2);
        assert(v[0] == w[0]);
    }
}

/// A match of a well-formed pattern starts and ends with an ASCII byte.
pub proof fn lemma_match_ascii_ends(p: PatternModel, w: Seq<u8>)
    requires
        well_formed(p),
        accepts(p, w),
    ensures
        w[0] < 128,
        w[w.len() - 1] < 128,
{
    let i = choose|i: int| #![trigger ends_in(p, w, i)] 0 <= i < p.subs.len() && may_end(p, i) && ends_in(p, w, i);
    lemma_ends_in_first(p, w, i);
    let r = choose|r: int|
        #![trigger run_fits(p, i, r)]
        run_fits(p, i, r) && r <= w.len() && all_in_class(p, i, w.subrange(w.len() - r, w.len() as int))
            && {
            let v = w.subrange(0, w.len() - r);
            (v.len() == 0 && i == 0) || (v.len() > 0 && exists|j2: int|
                #![trigger may_follow(p, j2, i)]
                may_follow(p, j2, i) && ends_in(p, v, j2))
        };
    assert(class_has(p.subs[i].class, w.subrange(w.len() - r, w.len() as int)[r - 1]));
}


/// What `longest_match_end` finds: `s` when no match from `s` ends in `(s, t]`,
/// otherwise the end of a match, after which none ends up to `t`.
pub proof fn lemma_longest_match_end(p: PatternModel, w: Seq<u8>, s: int, t: int)
    ensures
        longest_match_end(p, w, s, t) == s || s < longest_match_end(p, w, s, t) <= t,
        longest_match_end(p, w, s, t) == s ==> forall|e: int| s < e <= t ==> !accepts(p, #[trigger] w.subrange(s, e)),
        s < longest_match_end(p, w, s, t) ==> accepts(p, w.subrange(s, longest_match_end(p, w, s, t))),
        forall|e: int| longest_match_end(p, w, s, t) < e <= t ==> !accepts(p, #[trigger] w.subrange(s, e)),
    decreases t - s,
{
    if t > s && !accepts(p, w.subrange(s, t)) {
        lemma_longest_match_end(p, w, s, t - 1);
    }
}

} // verus!
