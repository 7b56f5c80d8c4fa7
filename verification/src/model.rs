//! The mathematical model of the solver: what a word is, what one hint does
//! to the candidate pool and to the set of letters known to exist, and in
//! what order a batch of hints is applied.

use vstd::prelude::*;

use crate::hint::{Hint, HintType};

verus! {

/// The word `w` contains the letter `c` somewhere.
pub open spec fn word_has_letter(w: Seq<char>, c: char) -> bool {
    exists|i: int| 0 <= i < w.len() && w[i] == c
}

/// The word `w` has the letter `c` exactly at position `p`.
/// A position beyond the end of the word holds no letter.
pub open spec fn word_has_letter_at(w: Seq<char>, c: char, p: int) -> bool {
    0 <= p < w.len() && w[p] == c
}

/// The letter `c` occurs in `w` strictly before position `p`.
pub open spec fn word_has_letter_before(w: Seq<char>, c: char, p: int) -> bool {
    exists|i: int| 0 <= i < p && i < w.len() && w[i] == c
}

/// The views of a sequence of owned words.
pub open spec fn views_of(words: Seq<String>) -> Seq<Seq<char>> {
    words.map_values(|w: String| w@)
}

/// Whether a candidate word `w` survives the hint `h`, given the set of
/// letters already known to exist in the target word.
pub open spec fn hint_keeps(known: Set<char>, h: Hint, w: Seq<char>) -> bool {
    match h.hint {
        HintType::WellPlaced => word_has_letter_at(w, h.letter, h.position as int),
        HintType::Exists => word_has_letter(w, h.letter) && !word_has_letter_at(
            w,
            h.letter,
            h.position as int,
        ),
        HintType::Invalid => known.contains(h.letter) || !word_has_letter(w, h.letter),
    }
}

/// The candidate pool after one hint: the surviving candidates, in order.
pub open spec fn apply_hint_pool(pool: Seq<Seq<char>>, known: Set<char>, h: Hint) -> Seq<
    Seq<char>,
> {
    pool.filter(|w: Seq<char>| hint_keeps(known, h, w))
}

/// The set of letters known to exist after one hint: a `WellPlaced` or
/// `Exists` hint confirms its letter, an `Invalid` hint confirms nothing.
pub open spec fn apply_hint_known(known: Set<char>, h: Hint) -> Set<char> {
    match h.hint {
        HintType::Invalid => known,
        _ => known.insert(h.letter),
    }
}

/// Pool and known-letters set after a sequence of hints, applied in order.
pub open spec fn apply_hints(pool: Seq<Seq<char>>, known: Set<char>, hs: Seq<Hint>) -> (Seq<
    Seq<char>,
>, Set<char>)
    decreases hs.len(),
{
    if hs.len() == 0 {
        (pool, known)
    } else {
        apply_hints(
            apply_hint_pool(pool, known, hs[0]),
            apply_hint_known(known, hs[0]),
            hs.drop_first(),
        )
    }
}

/// Scanning one more position extends the prefix in which a letter may occur.
pub proof fn lemma_letter_before_step(w: Seq<char>, c: char, p: int)
    requires
        0 <= p < w.len(),
    ensures
        word_has_letter_before(w, c, p + 1) <==> (word_has_letter_before(w, c, p) || w[p] == c),
{
    if word_has_letter_before(w, c, p + 1) {
        let i = choose|i: int| 0 <= i < p + 1 && i < w.len() && w[i] == c;
        if i < p {
            assert(word_has_letter_before(w, c, p));
        }
    }
    if w[p] == c {
        assert(0 <= p < p + 1 && p < w.len() && w[p] == c);
    }
}

/// Once every position is scanned, occurring before the end is occurring at all.
pub proof fn lemma_letter_before_full(w: Seq<char>, c: char)
    ensures
        word_has_letter_before(w, c, w.len() as int) <==> word_has_letter(w, c),
{
    if word_has_letter_before(w, c, w.len() as int) {
        let i = choose|i: int| 0 <= i < w.len() && i < w.len() && w[i] == c;
        assert(word_has_letter(w, c));
    }
    if word_has_letter(w, c) {
        let i = choose|i: int| 0 <= i < w.len() && w[i] == c;
        assert(0 <= i < w.len() && i < w.len() && w[i] == c);
    }
}

/// Applying one more hint after a sequence of hints is one more step.
pub proof fn lemma_apply_hints_push(
    pool: Seq<Seq<char>>,
    known: Set<char>,
    hs: Seq<Hint>,
    h: Hint,
)
    ensures
        apply_hints(pool, known, hs.push(h)) == ({
            let (pool2, known2) = apply_hints(pool, known, hs);
            (apply_hint_pool(pool2, known2, h), apply_hint_known(known2, h))
        }),
    decreases hs.len(),
{
    if hs.len() == 0 {
        assert(hs.push(h)[0] == h);
        assert(hs.push(h).drop_first() =~= hs);
        assert(apply_hints(pool, known, hs.push(h)) == apply_hints(
            apply_hint_pool(pool, known, h),
            apply_hint_known(known, h),
            hs,
        ));
        assert(apply_hints(apply_hint_pool(pool, known, h), apply_hint_known(known, h), hs) == (
        apply_hint_pool(pool, known, h), apply_hint_known(known, h)));
    } else {
        assert(hs.push(h)[0] == hs[0]);
        assert(hs.push(h).drop_first() =~= hs.drop_first().push(h));
        let pool1 = apply_hint_pool(pool, known, hs[0]);
        let known1 = apply_hint_known(known, hs[0]);
        assert(apply_hints(pool, known, hs.push(h)) == apply_hints(
            pool1,
            known1,
            hs.drop_first().push(h),
        ));
        assert(apply_hints(pool, known, hs) == apply_hints(pool1, known1, hs.drop_first()));
        lemma_apply_hints_push(pool1, known1, hs.drop_first(), h);
    }
}

/// Applying a concatenation of hint sequences applies the first, then the
/// second.
pub proof fn lemma_apply_hints_concat(
    pool: Seq<Seq<char>>,
    known: Set<char>,
    a: Seq<Hint>,
    b: Seq<Hint>,
)
    ensures
        apply_hints(pool, known, a + b) == ({
            let (pool2, known2) = apply_hints(pool, known, a);
            apply_hints(pool2, known2, b)
        }),
    decreases a.len(),
{
    if a.len() == 0 {
        assert(a + b =~= b);
    } else {
        assert((a + b)[0] == a[0]);
        assert((a + b).drop_first() =~= a.drop_first() + b);
        lemma_apply_hints_concat(
            apply_hint_pool(pool, known, a[0]),
            apply_hint_known(known, a[0]),
            a.drop_first(),
            b,
        );
    }
}

/// Filtering keeps the whole sequence when the predicate holds of every
/// element.
pub proof fn lemma_filter_all_true<A>(s: Seq<A>, p: spec_fn(A) -> bool)
    requires
        forall|i: int| 0 <= i < s.len() ==> p(#[trigger] s[i]),
    ensures
        s.filter(p) == s,
    decreases s.len(),
{
    reveal(Seq::filter);
    if s.len() > 0 {
        lemma_filter_all_true(s.drop_last(), p);
        assert(s.filter(p) =~= s);
    } else {
        assert(s.filter(p) =~= s);
    }
}

/// Filtering a sequence of distinct elements leaves distinct elements.
pub proof fn lemma_filter_no_duplicates<A>(s: Seq<A>, p: spec_fn(A) -> bool)
    requires
        s.no_duplicates(),
    ensures
        s.filter(p).no_duplicates(),
    decreases s.len(),
{
    broadcast use vstd::prelude::Seq::lemma_filter_contains_rev;

    reveal(Seq::filter);
    if s.len() > 0 {
        let rest = s.drop_last();
        lemma_filter_no_duplicates(rest, p);
        if p(s.last()) {
            assert(forall|i: int| 0 <= i < rest.len() ==> rest[i] != s.last());
            assert(!rest.contains(s.last()));
            assert(!rest.filter(p).contains(s.last()));
            assert(s.filter(p) == rest.filter(p).push(s.last()));
        }
    }
}

/// Filtering then mapping equals mapping then filtering, when the two
/// predicates agree through the map on every element at hand.
pub proof fn lemma_filter_map_commute<A, B>(
    s: Seq<A>,
    f: spec_fn(A) -> B,
    q: spec_fn(A) -> bool,
    p: spec_fn(B) -> bool,
)
    requires
        forall|i: int| 0 <= i < s.len() ==> (q(#[trigger] s[i]) <==> p(f(s[i]))),
    ensures
        s.filter(q).map_values(f) == s.map_values(f).filter(p),
    decreases s.len(),
{
    reveal(Seq::filter);
    if s.len() > 0 {
        let rest = s.drop_last();
        let last = s.last();
        lemma_filter_map_commute(rest, f, q, p);
        assert(s.map_values(f) =~= rest.map_values(f).push(f(last)));
        assert(s.map_values(f).drop_last() =~= rest.map_values(f));
        assert(s.map_values(f).last() == f(last));
        if q(last) {
            assert(s.filter(q) == rest.filter(q).push(last));
            assert(s.filter(q).map_values(f) =~= rest.filter(q).map_values(f).push(f(last)));
        } else {
            assert(s.filter(q) == rest.filter(q));
        }
    } else {
        assert(s.filter(q).map_values(f) =~= s.map_values(f).filter(p));
    }
}

/// A confirming hint asserts that its letter is present in the target word.
pub open spec fn is_confirming(h: Hint) -> bool {
    !(h.hint is Invalid)
}

/// The order in which a batch of hints is ingested: all confirming hints
/// first, in their given order, then all invalidating hints, in theirs.
pub open spec fn ingest_order(hs: Seq<Hint>) -> Seq<Hint> {
    hs.filter(|h: Hint| is_confirming(h)) + hs.filter(|h: Hint| !is_confirming(h))
}

} // verus!
