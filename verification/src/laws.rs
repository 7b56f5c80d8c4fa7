//! Laws of hint application, stated over the model in `model` and proved
//! once and for all. The solver's methods promise exactly these transitions,
//! so each law carries over to the solver's state.

use vstd::prelude::*;

use crate::hint::Hint;
use crate::model::{
    apply_hint_known, apply_hint_pool, apply_hints, hint_keeps, ingest_order, is_confirming,
    lemma_filter_all_true,
};

verus! {

/// Idempotence: applying the same WellPlaced or Exists hint twice in
/// sequence yields the same candidate pool, and the same set of confirmed
/// letters, as applying it once.
pub proof fn lemma_hint_idempotent(pool: Seq<Seq<char>>, known: Set<char>, h: Hint)
    requires
        !(h.hint is Invalid),
    ensures
        apply_hint_pool(apply_hint_pool(pool, known, h), apply_hint_known(known, h), h)
            == apply_hint_pool(pool, known, h),
        apply_hint_known(apply_hint_known(known, h), h) == apply_hint_known(known, h),
{
    broadcast use vstd::prelude::Seq::lemma_filter_pred;

    let known1 = apply_hint_known(known, h);
    let pool1 = apply_hint_pool(pool, known, h);
    assert forall|i: int| 0 <= i < pool1.len() implies hint_keeps(known1, h, #[trigger] pool1[i])
    by {
        assert(hint_keeps(known, h, pool1[i]));
    }
    lemma_filter_all_true(pool1, |w: Seq<char>| hint_keeps(known1, h, w));
    assert(known1.insert(h.letter) =~= known1);
}

/// Monotonicity: one hint never grows the candidate pool.
pub proof fn lemma_apply_hint_monotone(pool: Seq<Seq<char>>, known: Set<char>, h: Hint)
    ensures
        apply_hint_pool(pool, known, h).len() <= pool.len(),
{
    broadcast use vstd::prelude::Seq::lemma_filter_len;

}

/// Monotonicity: no sequence of hints ever grows the candidate pool.
pub proof fn lemma_apply_hints_monotone(pool: Seq<Seq<char>>, known: Set<char>, hs: Seq<Hint>)
    ensures
        apply_hints(pool, known, hs).0.len() <= pool.len(),
    decreases hs.len(),
{
    if hs.len() > 0 {
        lemma_apply_hint_monotone(pool, known, hs[0]);
        lemma_apply_hints_monotone(
            apply_hint_pool(pool, known, hs[0]),
            apply_hint_known(known, hs[0]),
            hs.drop_first(),
        );
    }
}

/// Ordering invariant: a batch holding an Invalid hint and a WellPlaced or
/// Exists hint is ingested the same way in either input order, and the
/// result is that of applying the confirming hint first and the Invalid
/// hint second.
pub proof fn lemma_batch_order(pool: Seq<Seq<char>>, known: Set<char>, inv: Hint, conf: Hint)
    requires
        inv.hint is Invalid,
        !(conf.hint is Invalid),
    ensures
        ingest_order(seq![inv, conf]) == seq![conf, inv],
        ingest_order(seq![conf, inv]) == seq![conf, inv],
        apply_hints(pool, known, ingest_order(seq![inv, conf])) == ({
            let pool1 = apply_hint_pool(pool, known, conf);
            let known1 = apply_hint_known(known, conf);
            (apply_hint_pool(pool1, known1, inv), apply_hint_known(known1, inv))
        }),
{
    broadcast use vstd::prelude::Seq::lemma_filter_push;

    reveal(Seq::filter);
    let confp = |h: Hint| is_confirming(h);
    let invp = |h: Hint| !is_confirming(h);
    let e = Seq::<Hint>::empty();
    let s1 = seq![inv, conf];
    let s2 = seq![conf, inv];
    assert(e.filter(confp) =~= e);
    assert(e.filter(invp) =~= e);
    assert(s1 =~= e.push(inv).push(conf));
    assert(s2 =~= e.push(conf).push(inv));
    assert(s1.filter(confp) =~= e.push(conf));
    assert(s1.filter(invp) =~= e.push(inv));
    assert(s2.filter(confp) =~= e.push(conf));
    assert(s2.filter(invp) =~= e.push(inv));
    assert(ingest_order(s1) =~= e.push(conf).push(inv));
    assert(ingest_order(s2) =~= e.push(conf).push(inv));
    assert(ingest_order(s1) == s2);
    assert(ingest_order(s2) == s2);
    let pool1 = apply_hint_pool(pool, known, conf);
    let known1 = apply_hint_known(known, conf);
    assert(s2[0] == conf);
    assert(s2.drop_first() =~= seq![inv]);
    assert(apply_hints(pool, known, s2) == apply_hints(pool1, known1, seq![inv]));
    let pool2 = apply_hint_pool(pool1, known1, inv);
    let known2 = apply_hint_known(known1, inv);
    assert(seq![inv][0] == inv);
    assert(seq![inv].drop_first() =~= e);
    assert(apply_hints(pool1, known1, seq![inv]) == apply_hints(pool2, known2, e));
    assert(apply_hints(pool2, known2, e) == (pool2, known2));
}

} // verus!
