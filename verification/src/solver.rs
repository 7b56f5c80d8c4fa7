//! The core candidate-resolution engine: an indexed word store and the
//! hint-application algorithm that repeatedly prunes the candidate pool.

use vstd::prelude::*;

use crate::model::{
    apply_hint_known, apply_hint_pool, apply_hints, hint_keeps, ingest_order, is_confirming,
    lemma_apply_hints_concat, lemma_apply_hints_push, lemma_filter_all_true,
    lemma_filter_map_commute, lemma_filter_no_duplicates,
    lemma_letter_before_full, lemma_letter_before_step, views_of, word_has_letter,
    word_has_letter_at, word_has_letter_before,
};

pub use crate::hint::Hint;
pub use crate::hint::HintParseError;
pub use crate::hint::HintType;

verus! {

/// One bucket of the letter index: the dictionary positions of every word
/// that contains `letter` anywhere.
struct LetterBucket {
    letter: char,
    idxs: Vec<usize>,
}

/// One bucket of the position index: the dictionary positions of every word
/// that has `letter` exactly at `position`.
struct PositionBucket {
    letter: char,
    position: usize,
    idxs: Vec<usize>,
}

/// The word at dictionary position `k` is filed under letter `c` in one of
/// the letter-index buckets.
spec fn lbuckets_has(bs: Seq<LetterBucket>, c: char, k: usize) -> bool {
    exists|a: int| 0 <= a < bs.len() && (#[trigger] bs[a]).letter == c && bs[a].idxs@.contains(k)
}

/// The letter-index buckets are well formed: one bucket per letter, and no
/// word filed twice in the same bucket.
spec fn lbuckets_wf(bs: Seq<LetterBucket>) -> bool {
    &&& forall|a: int, b: int|
        0 <= a < b < bs.len() ==> (#[trigger] bs[a]).letter != (#[trigger] bs[b]).letter
    &&& forall|a: int| 0 <= a < bs.len() ==> (#[trigger] bs[a]).idxs@.no_duplicates()
}

/// The word at dictionary position `k` is filed under letter `c` at word
/// position `p` in one of the position-index buckets.
spec fn pbuckets_has(bs: Seq<PositionBucket>, c: char, p: usize, k: usize) -> bool {
    exists|a: int|
        0 <= a < bs.len() && (#[trigger] bs[a]).letter == c && bs[a].position == p
            && bs[a].idxs@.contains(k)
}

/// The position-index buckets are well formed: one bucket per (letter,
/// position) pair, and no word filed twice in the same bucket.
spec fn pbuckets_wf(bs: Seq<PositionBucket>) -> bool {
    &&& forall|a: int, b: int|
        0 <= a < b < bs.len() ==> ((#[trigger] bs[a]).letter != (#[trigger] bs[b]).letter
            || bs[a].position != bs[b].position)
    &&& forall|a: int| 0 <= a < bs.len() ==> (#[trigger] bs[a]).idxs@.no_duplicates()
}

/// A solver for a word-guessing game, built from a dictionary.
///
/// The dictionary and the two indices are fixed at construction; every hint
/// only shrinks the pool of candidate words and can only grow the set of
/// letters known to exist in the target word.
pub struct Solver {
    /// The full dictionary, which owns every word.
    dict: Vec<String>,
    /// Dictionary positions of the words still believed possibly correct.
    candidates: Vec<usize>,
    /// Letters confirmed (by a WellPlaced or Exists hint) to occur in the
    /// target word.
    exists_letters: Vec<char>,
    /// Maps a letter to the words containing it anywhere.
    by_letter: Vec<LetterBucket>,
    /// Maps a (letter, position) pair to the words with that letter there.
    by_position: Vec<PositionBucket>,
}

impl Solver {
    /// The dictionary this solver was built from.
    pub closed spec fn dictionary(&self) -> Seq<Seq<char>> {
        views_of(self.dict@)
    }

    /// The current candidate pool, as a sequence of distinct words.
    pub closed spec fn pool(&self) -> Seq<Seq<char>> {
        self.candidates@.map_values(|k: usize| self.dict@[k as int]@)
    }

    /// The letters confirmed so far to occur in the target word.
    pub closed spec fn known_letters(&self) -> Set<char> {
        self.exists_letters@.to_set()
    }

    /// Well-formedness: the dictionary has no duplicate words, the pool is a
    /// duplicate-free selection of dictionary words, and each index files a
    /// word under a key exactly when the word matches the key.
    pub closed spec fn wf(&self) -> bool {
        &&& forall|i: int, j: int|
            0 <= i < j < self.dict@.len() ==> (#[trigger] self.dict@[i])@ != (#[trigger] self.dict@[j])@
        &&& forall|i: int|
            0 <= i < self.candidates@.len() ==> (#[trigger] self.candidates@[i]) < self.dict@.len()
        &&& self.candidates@.no_duplicates()
        &&& lbuckets_wf(self.by_letter@)
        &&& forall|c: char, k: usize|
            lbuckets_has(self.by_letter@, c, k) <==> (k < self.dict@.len() && word_has_letter(
                self.dict@[k as int]@,
                c,
            ))
        &&& pbuckets_wf(self.by_position@)
        &&& forall|c: char, p: usize, k: usize|
            pbuckets_has(self.by_position@, c, p, k) <==> (k < self.dict@.len()
                && word_has_letter_at(self.dict@[k as int]@, c, p as int))
    }

    /// The candidate pool is always a subset of the original dictionary, and
    /// never holds a word twice.
    pub proof fn lemma_pool_in_dictionary(&self)
        requires
            self.wf(),
        ensures
            forall|i: int|
                0 <= i < self.pool().len() ==> self.dictionary().contains(#[trigger] self.pool()[i]),
            forall|i: int, j: int|
                0 <= i < j < self.pool().len() ==> self.pool()[i] != self.pool()[j],
    {
        assert forall|i: int|
            0 <= i < self.pool().len() implies self.dictionary().contains(
            #[trigger] self.pool()[i]) by {
            let k = self.candidates@[i];
            assert(self.pool()[i] == self.dict@[k as int]@);
            assert(self.dictionary()[k as int] == self.dict@[k as int]@);
        }
        assert forall|i: int, j: int|
            0 <= i < j < self.pool().len() implies self.pool()[i] != self.pool()[j] by {
            let ki = self.candidates@[i];
            let kj = self.candidates@[j];
            assert(ki != kj);
            assert(self.pool()[i] == self.dict@[ki as int]@);
            assert(self.pool()[j] == self.dict@[kj as int]@);
            assert(self.dict@[ki as int]@ != self.dict@[kj as int]@);
        }
    }
}

impl Solver {
    /// Builds a new solver from a dictionary of distinct words.
    ///
    /// Every word is filed in the letter index once per distinct letter it
    /// contains, and in the position index once per (letter, position) pair;
    /// the candidate pool starts as the whole dictionary and no letter is
    /// known to exist yet. An empty dictionary is legal and yields a solver
    /// with zero candidates.
    pub fn new(dictionary: Vec<String>) -> (s: Solver)
        requires
            forall|i: int, j: int|
                0 <= i < j < dictionary@.len() ==> (#[trigger] dictionary@[i])@ != (
                #[trigger] dictionary@[j])@,
        ensures
            s.wf(),
            s.dictionary() == views_of(dictionary@),
            s.pool() == views_of(dictionary@),
            s.known_letters() == Set::<char>::empty(),
    {
        let n = dictionary.len();
        let mut candidates: Vec<usize> = Vec::new();
        let mut by_letter: Vec<LetterBucket> = Vec::new();
        let mut by_position: Vec<PositionBucket> = Vec::new();
        let mut k: usize = 0;
        #[verifier::loop_isolation(false)]
        while k < n
            invariant
                0 <= k <= n,
                candidates@.len() == k,
                forall|i: int| 0 <= i < k ==> (#[trigger] candidates@[i]) == i as usize,
                lbuckets_wf(by_letter@),
                pbuckets_wf(by_position@),
                forall|c: char, k2: usize|
                    lbuckets_has(by_letter@, c, k2) <==> (k2 < k && word_has_letter(
                        dictionary@[k2 as int]@,
                        c,
                    )),
                forall|c: char, p2: usize, k2: usize|
                    pbuckets_has(by_position@, c, p2, k2) <==> (k2 < k && word_has_letter_at(
                        dictionary@[k2 as int]@,
                        c,
                        p2 as int,
                    )),
            decreases n - k,
        {
            let word = &dictionary[k];
            let wlen = word.as_str().unicode_len();
            let mut p: usize = 0;
            #[verifier::loop_isolation(false)]
            while p < wlen
                invariant
                    0 <= p <= wlen,
                    lbuckets_wf(by_letter@),
                    pbuckets_wf(by_position@),
                    forall|c: char, k2: usize|
                        lbuckets_has(by_letter@, c, k2) <==> ((k2 < k && word_has_letter(
                            dictionary@[k2 as int]@,
                            c,
                        )) || (k2 == k && word_has_letter_before(
                            dictionary@[k as int]@,
                            c,
                            p as int,
                        ))),
                    forall|c: char, p2: usize, k2: usize|
                        pbuckets_has(by_position@, c, p2, k2) <==> ((k2 < k && word_has_letter_at(
                            dictionary@[k2 as int]@,
                            c,
                            p2 as int,
                        )) || (k2 == k && p2 < p && dictionary@[k as int]@[p2 as int] == c)),
                decreases wlen - p,
            {
                let c = word.as_str().get_char(p);
                let ghost lb_before = by_letter@;
                let ghost pb_before = by_position@;
                letter_index_add(&mut by_letter, c, k);
                position_index_add(&mut by_position, c, p, k);
                proof {
                    let w = dictionary@[k as int]@;
                    assert forall|c2: char, k2: usize|
                        lbuckets_has(by_letter@, c2, k2) <==> ((k2 < k && word_has_letter(
                            dictionary@[k2 as int]@,
                            c2,
                        )) || (k2 == k && word_has_letter_before(w, c2, p as int + 1))) by {
                        lemma_letter_before_step(w, c2, p as int);
                    }
                    assert forall|c2: char, p2: usize, k2: usize|
                        pbuckets_has(by_position@, c2, p2, k2) <==> ((k2 < k
                            && word_has_letter_at(dictionary@[k2 as int]@, c2, p2 as int)) || (k2
                            == k && p2 < p + 1 && w[p2 as int] == c2)) by {
                        if pbuckets_has(by_position@, c2, p2, k2) {
                            if !pbuckets_has(pb_before, c2, p2, k2) {
                                assert(c2 == c && p2 == p && k2 == k);
                                assert(w[p2 as int] == c2);
                            }
                        }
                    }
                }
                p += 1;
            }
            candidates.push(k);
            proof {
                let w = dictionary@[k as int]@;
                assert(p == w.len());
                assert forall|c2: char, k2: usize|
                    lbuckets_has(by_letter@, c2, k2) <==> (k2 < k + 1 && word_has_letter(
                        dictionary@[k2 as int]@,
                        c2,
                    )) by {
                    lemma_letter_before_full(w, c2);
                }
                assert forall|c2: char, p2: usize, k2: usize|
                    pbuckets_has(by_position@, c2, p2, k2) <==> (k2 < k + 1 && word_has_letter_at(
                        dictionary@[k2 as int]@,
                        c2,
                        p2 as int,
                    )) by {
                }
            }
            k += 1;
        }
        let s = Solver {
            dict: dictionary,
            candidates,
            exists_letters: Vec::new(),
            by_letter,
            by_position,
        };
        proof {
            assert(s.pool() =~= views_of(s.dict@));
            assert(s.known_letters() =~= Set::<char>::empty());
        }
        s
    }

    /// The current size of the candidate pool.
    pub fn n_candidates(&self) -> (r: usize)
        ensures
            r == self.pool().len(),
    {
        self.candidates.len()
    }

    /// An arbitrary member of the candidate pool, or `None` once the pool is
    /// empty. Any remaining candidate is an equally valid next guess, so
    /// callers must not depend on which one is returned.
    ///
    /// An empty pool is the normal way the solver reports that the feedback
    /// so far was contradictory, or that the target word is outside the
    /// dictionary.
    pub fn first_candidate(&self) -> (r: Option<&String>)
        requires
            self.wf(),
        ensures
            r is Some <==> self.pool().len() > 0,
            r matches Some(w) ==> self.pool().contains(w@),
    {
        if self.candidates.len() == 0 {
            None
        } else {
            let k = self.candidates[0];
            proof {
                assert(self.pool()[0] == self.dict@[k as int]@);
            }
            Some(&self.dict[k])
        }
    }

    /// The letter-index bucket for `l`: every dictionary word containing `l`
    /// anywhere, each exactly once, and nothing else. A letter with no
    /// bucket yields the empty set.
    pub fn with_letter(&self, l: &char) -> (r: Vec<String>)
        requires
            self.wf(),
        ensures
            forall|i: int|
                0 <= i < r@.len() ==> self.dictionary().contains((#[trigger] r@[i])@)
                    && word_has_letter(r@[i]@, *l),
            forall|w: Seq<char>|
                #![trigger word_has_letter(w, *l)]
                self.dictionary().contains(w) && word_has_letter(w, *l) ==> exists|i: int|
                    0 <= i < r@.len() && (#[trigger] r@[i])@ == w,
            forall|i1: int, i2: int|
                0 <= i1 < i2 < r@.len() ==> (#[trigger] r@[i1])@ != (#[trigger] r@[i2])@,
    {
        let dict_len = self.dict.len();
        let mut r: Vec<String> = Vec::new();
        match find_letter_bucket(&self.by_letter, *l) {
            None => {
                proof {
                    assert forall|w: Seq<char>|
                        self.dictionary().contains(w) && word_has_letter(w, *l) implies exists|
                        i: int,
                    |
                        0 <= i < r@.len() && (#[trigger] r@[i])@ == w by {
                        let k = choose|k: int|
                            0 <= k < self.dictionary().len() && self.dictionary()[k] == w;
                        assert(0 <= k < dict_len);
                        assert(self.dict@[k]@ == w);
                        assert(lbuckets_has(self.by_letter@, *l, k as usize));
                        let a2 = choose|a2: int|
                            0 <= a2 < self.by_letter@.len() && (#[trigger] self.by_letter@[a2]).letter
                                == *l && self.by_letter@[a2].idxs@.contains(k as usize);
                        assert(false);
                    }
                }
            },
            Some(a) => {
                let blen = self.by_letter[a].idxs.len();
                let mut t: usize = 0;
                #[verifier::loop_isolation(false)]
                while t < blen
                    invariant
                        0 <= t <= blen,
                        blen == self.by_letter@[a as int].idxs@.len(),
                        r@.len() == t,
                        forall|u: int|
                            0 <= u < t ==> (#[trigger] r@[u])@ == self.dict@[self.by_letter@[a as int].idxs@[u] as int]@,
                    decreases blen - t,
                {
                    let k = self.by_letter[a].idxs[t];
                    proof {
                        assert(self.by_letter@[a as int].idxs@[t as int] == k);
                        assert(self.by_letter@[a as int].idxs@.contains(k));
                        assert(lbuckets_has(self.by_letter@, *l, k));
                    }
                    r.push(self.dict[k].clone());
                    t += 1;
                }
                proof {
                    let idxs = self.by_letter@[a as int].idxs@;
                    assert forall|i: int|
                        0 <= i < r@.len() implies self.dictionary().contains((#[trigger] r@[i])@)
                            && word_has_letter(r@[i]@, *l) by {
                        let k = idxs[i];
                        assert(idxs.contains(k));
                        assert(lbuckets_has(self.by_letter@, *l, k));
                        assert(self.dictionary()[k as int] == self.dict@[k as int]@);
                        assert(self.dictionary().contains(r@[i]@));
                    }
                    assert forall|w: Seq<char>|
                        self.dictionary().contains(w) && word_has_letter(w, *l) implies exists|
                        i: int,
                    |
                        0 <= i < r@.len() && (#[trigger] r@[i])@ == w by {
                        let k = choose|k: int|
                            0 <= k < self.dictionary().len() && self.dictionary()[k] == w;
                        assert(0 <= k < dict_len);
                        assert(self.dict@[k]@ == w);
                        assert(lbuckets_has(self.by_letter@, *l, k as usize));
                        let a2 = choose|a2: int|
                            0 <= a2 < self.by_letter@.len() && (#[trigger] self.by_letter@[a2]).letter
                                == *l && self.by_letter@[a2].idxs@.contains(k as usize);
                        assert(a2 == a as int);
                        let u = choose|u: int| 0 <= u < idxs.len() && idxs[u] == k as usize;
                        assert((r@[u])@ == w);
                    }
                    assert forall|i1: int, i2: int|
                        0 <= i1 < i2 < r@.len() implies (#[trigger] r@[i1])@ != (
                    #[trigger] r@[i2])@ by {
                        let k1 = idxs[i1];
                        let k2 = idxs[i2];
                        assert(k1 != k2);
                        assert(idxs.contains(k1) && idxs.contains(k2));
                        assert(lbuckets_has(self.by_letter@, *l, k1));
                        assert(lbuckets_has(self.by_letter@, *l, k2));
                        assert(self.dict@[k1 as int]@ != self.dict@[k2 as int]@);
                    }
                }
            },
        }
        r
    }

    /// The position-index bucket for the (letter, position) pair: every
    /// dictionary word with letter `l` exactly at position `p`, each exactly
    /// once, and nothing else. A pair with no bucket yields the empty set.
    pub fn with_letter_in_position(&self, l: &char, p: &usize) -> (r: Vec<String>)
        requires
            self.wf(),
        ensures
            forall|i: int|
                0 <= i < r@.len() ==> self.dictionary().contains((#[trigger] r@[i])@)
                    && word_has_letter_at(r@[i]@, *l, *p as int),
            forall|w: Seq<char>|
                #![trigger word_has_letter_at(w, *l, *p as int)]
                self.dictionary().contains(w) && word_has_letter_at(w, *l, *p as int)
                    ==> exists|i: int| 0 <= i < r@.len() && (#[trigger] r@[i])@ == w,
            forall|i1: int, i2: int|
                0 <= i1 < i2 < r@.len() ==> (#[trigger] r@[i1])@ != (#[trigger] r@[i2])@,
    {
        let dict_len = self.dict.len();
        let mut r: Vec<String> = Vec::new();
        match find_position_bucket(&self.by_position, *l, *p) {
            None => {
                proof {
                    assert forall|w: Seq<char>|
                        self.dictionary().contains(w) && word_has_letter_at(
                            w,
                            *l,
                            *p as int,
                        ) implies exists|i: int| 0 <= i < r@.len() && (#[trigger] r@[i])@ == w by {
                        let k = choose|k: int|
                            0 <= k < self.dictionary().len() && self.dictionary()[k] == w;
                        assert(0 <= k < dict_len);
                        assert(self.dict@[k]@ == w);
                        assert(pbuckets_has(self.by_position@, *l, *p, k as usize));
                        let a2 = choose|a2: int|
                            0 <= a2 < self.by_position@.len() && (
                            #[trigger] self.by_position@[a2]).letter == *l
                                && self.by_position@[a2].position == *p
                                && self.by_position@[a2].idxs@.contains(k as usize);
                        assert(false);
                    }
                }
            },
            Some(a) => {
                let blen = self.by_position[a].idxs.len();
                let mut t: usize = 0;
                #[verifier::loop_isolation(false)]
                while t < blen
                    invariant
                        0 <= t <= blen,
                        blen == self.by_position@[a as int].idxs@.len(),
                        r@.len() == t,
                        forall|u: int|
                            0 <= u < t ==> (#[trigger] r@[u])@ == self.dict@[self.by_position@[a as int].idxs@[u] as int]@,
                    decreases blen - t,
                {
                    let k = self.by_position[a].idxs[t];
                    proof {
                        assert(self.by_position@[a as int].idxs@[t as int] == k);
                        assert(self.by_position@[a as int].idxs@.contains(k));
                        assert(pbuckets_has(self.by_position@, *l, *p, k));
                    }
                    r.push(self.dict[k].clone());
                    t += 1;
                }
                proof {
                    let idxs = self.by_position@[a as int].idxs@;
                    assert forall|i: int|
                        0 <= i < r@.len() implies self.dictionary().contains((#[trigger] r@[i])@)
                            && word_has_letter_at(r@[i]@, *l, *p as int) by {
                        let k = idxs[i];
                        assert(idxs.contains(k));
                        assert(pbuckets_has(self.by_position@, *l, *p, k));
                        assert(self.dictionary()[k as int] == self.dict@[k as int]@);
                        assert(self.dictionary().contains(r@[i]@));
                    }
                    assert forall|w: Seq<char>|
                        self.dictionary().contains(w) && word_has_letter_at(
                            w,
                            *l,
                            *p as int,
                        ) implies exists|i: int| 0 <= i < r@.len() && (#[trigger] r@[i])@ == w by {
                        let k = choose|k: int|
                            0 <= k < self.dictionary().len() && self.dictionary()[k] == w;
                        assert(0 <= k < dict_len);
                        assert(self.dict@[k]@ == w);
                        assert(pbuckets_has(self.by_position@, *l, *p, k as usize));
                        let a2 = choose|a2: int|
                            0 <= a2 < self.by_position@.len() && (
                            #[trigger] self.by_position@[a2]).letter == *l
                                && self.by_position@[a2].position == *p
                                && self.by_position@[a2].idxs@.contains(k as usize);
                        assert(a2 == a as int);
                        let u = choose|u: int| 0 <= u < idxs.len() && idxs[u] == k as usize;
                        assert((r@[u])@ == w);
                    }
                    assert forall|i1: int, i2: int|
                        0 <= i1 < i2 < r@.len() implies (#[trigger] r@[i1])@ != (
                    #[trigger] r@[i2])@ by {
                        let k1 = idxs[i1];
                        let k2 = idxs[i2];
                        assert(k1 != k2);
                        assert(idxs.contains(k1) && idxs.contains(k2));
                        assert(pbuckets_has(self.by_position@, *l, *p, k1));
                        assert(pbuckets_has(self.by_position@, *l, *p, k2));
                        assert(self.dict@[k1 as int]@ != self.dict@[k2 as int]@);
                    }
                }
            },
        }
        r
    }
}

/// Linear scan for the bucket filed under letter `c`.
fn find_letter_bucket(bs: &Vec<LetterBucket>, c: char) -> (r: Option<usize>)
    ensures
        match r {
            Some(a) => a < bs@.len() && bs@[a as int].letter == c,
            None => forall|a: int| 0 <= a < bs@.len() ==> (#[trigger] bs@[a]).letter != c,
        },
{
    let mut a: usize = 0;
    #[verifier::loop_isolation(false)]
    while a < bs.len()
        invariant
            forall|b: int| 0 <= b < a ==> (#[trigger] bs@[b]).letter != c,
        decreases bs@.len() - a,
    {
        if bs[a].letter == c {
            return Some(a);
        }
        a += 1;
    }
    None
}

/// Linear scan for the bucket filed under the (letter, position) pair.
fn find_position_bucket(bs: &Vec<PositionBucket>, c: char, p: usize) -> (r: Option<usize>)
    ensures
        match r {
            Some(a) => a < bs@.len() && bs@[a as int].letter == c && bs@[a as int].position == p,
            None => forall|a: int|
                0 <= a < bs@.len() ==> ((#[trigger] bs@[a]).letter != c || bs@[a].position != p),
        },
{
    let mut a: usize = 0;
    #[verifier::loop_isolation(false)]
    while a < bs.len()
        invariant
            forall|b: int| 0 <= b < a ==> ((#[trigger] bs@[b]).letter != c || bs@[b].position != p),
        decreases bs@.len() - a,
    {
        if bs[a].letter == c && bs[a].position == p {
            return Some(a);
        }
        a += 1;
    }
    None
}

/// Linear membership test on a bucket's word positions.
fn idxs_contains(v: &Vec<usize>, k: usize) -> (r: bool)
    ensures
        r == v@.contains(k),
{
    let mut i: usize = 0;
    #[verifier::loop_isolation(false)]
    while i < v.len()
        invariant
            forall|j: int| 0 <= j < i ==> v@[j] != k,
        decreases v@.len() - i,
    {
        if v[i] == k {
            return true;
        }
        i += 1;
    }
    proof {
        assert(!v@.contains(k));
    }
    false
}

/// Files word `k` under letter `c`, creating the bucket if needed.
/// Filing the same pair twice leaves the index unchanged.
fn letter_index_add(bs: &mut Vec<LetterBucket>, c: char, k: usize)
    requires
        lbuckets_wf(old(bs)@),
    ensures
        lbuckets_wf(final(bs)@),
        forall|c2: char, k2: usize|
            lbuckets_has(final(bs)@, c2, k2) <==> (lbuckets_has(old(bs)@, c2, k2) || (c2 == c && k2
                == k)),
{
    broadcast use vstd::seq_lib::lemma_seq_contains_after_push;

    match find_letter_bucket(bs, c) {
        Some(a) => {
            let already = idxs_contains(&bs[a].idxs, k);
            if !already {
                let bucket = &mut bs[a];
                bucket.idxs.push(k);
            }
            proof {
                assert forall|c2: char, k2: usize|
                    lbuckets_has(bs@, c2, k2) <==> (lbuckets_has(old(bs)@, c2, k2) || (c2 == c && k2
                        == k)) by {
                    if lbuckets_has(bs@, c2, k2) {
                        let a2 = choose|a2: int|
                            0 <= a2 < bs@.len() && (#[trigger] bs@[a2]).letter == c2
                                && bs@[a2].idxs@.contains(k2);
                        if a2 == a {
                            assert(old(bs)@[a2].letter == c2 || (c2 == c && k2 == k));
                            if old(bs)@[a2].idxs@.contains(k2) {
                                assert(lbuckets_has(old(bs)@, c2, k2));
                            }
                        } else {
                            assert(old(bs)@[a2] == bs@[a2]);
                            assert(lbuckets_has(old(bs)@, c2, k2));
                        }
                    }
                    if lbuckets_has(old(bs)@, c2, k2) {
                        let a2 = choose|a2: int|
                            0 <= a2 < old(bs)@.len() && (#[trigger] old(bs)@[a2]).letter == c2
                                && old(bs)@[a2].idxs@.contains(k2);
                        assert(bs@[a2].letter == c2 && bs@[a2].idxs@.contains(k2));
                        assert(lbuckets_has(bs@, c2, k2));
                    }
                    if c2 == c && k2 == k {
                        assert(bs@[a as int].letter == c && bs@[a as int].idxs@.contains(k));
                        assert(lbuckets_has(bs@, c2, k2));
                    }
                }
            }
        },
        None => {
            let mut idxs: Vec<usize> = Vec::new();
            idxs.push(k);
            bs.push(LetterBucket { letter: c, idxs });
            proof {
                let n = old(bs)@.len() as int;
                assert(bs@[n].letter == c && bs@[n].idxs@.contains(k));
                assert forall|c2: char, k2: usize|
                    lbuckets_has(bs@, c2, k2) <==> (lbuckets_has(old(bs)@, c2, k2) || (c2 == c && k2
                        == k)) by {
                    if lbuckets_has(bs@, c2, k2) {
                        let a2 = choose|a2: int|
                            0 <= a2 < bs@.len() && (#[trigger] bs@[a2]).letter == c2
                                && bs@[a2].idxs@.contains(k2);
                        if a2 < n {
                            assert(old(bs)@[a2] == bs@[a2]);
                            assert(lbuckets_has(old(bs)@, c2, k2));
                        } else {
                            assert(c2 == c && k2 == k);
                        }
                    }
                    if lbuckets_has(old(bs)@, c2, k2) {
                        let a2 = choose|a2: int|
                            0 <= a2 < old(bs)@.len() && (#[trigger] old(bs)@[a2]).letter == c2
                                && old(bs)@[a2].idxs@.contains(k2);
                        assert(bs@[a2].letter == c2 && bs@[a2].idxs@.contains(k2));
                        assert(lbuckets_has(bs@, c2, k2));
                    }
                }
            }
        },
    }
}

/// Files word `k` under the (letter, position) pair, creating the bucket if
/// needed. Filing the same triple twice leaves the index unchanged.
fn position_index_add(bs: &mut Vec<PositionBucket>, c: char, p: usize, k: usize)
    requires
        pbuckets_wf(old(bs)@),
    ensures
        pbuckets_wf(final(bs)@),
        forall|c2: char, p2: usize, k2: usize|
            pbuckets_has(final(bs)@, c2, p2, k2) <==> (pbuckets_has(old(bs)@, c2, p2, k2) || (c2
                == c && p2 == p && k2 == k)),
{
    broadcast use vstd::seq_lib::lemma_seq_contains_after_push;

    match find_position_bucket(bs, c, p) {
        Some(a) => {
            let already = idxs_contains(&bs[a].idxs, k);
            if !already {
                let bucket = &mut bs[a];
                bucket.idxs.push(k);
            }
            proof {
                assert forall|c2: char, p2: usize, k2: usize|
                    pbuckets_has(bs@, c2, p2, k2) <==> (pbuckets_has(old(bs)@, c2, p2, k2) || (c2
                        == c && p2 == p && k2 == k)) by {
                    if pbuckets_has(bs@, c2, p2, k2) {
                        let a2 = choose|a2: int|
                            0 <= a2 < bs@.len() && (#[trigger] bs@[a2]).letter == c2
                                && bs@[a2].position == p2 && bs@[a2].idxs@.contains(k2);
                        if a2 == a {
                            if old(bs)@[a2].idxs@.contains(k2) {
                                assert(pbuckets_has(old(bs)@, c2, p2, k2));
                            }
                        } else {
                            assert(old(bs)@[a2] == bs@[a2]);
                            assert(pbuckets_has(old(bs)@, c2, p2, k2));
                        }
                    }
                    if pbuckets_has(old(bs)@, c2, p2, k2) {
                        let a2 = choose|a2: int|
                            0 <= a2 < old(bs)@.len() && (#[trigger] old(bs)@[a2]).letter == c2
                                && old(bs)@[a2].position == p2 && old(bs)@[a2].idxs@.contains(k2);
                        assert(bs@[a2].letter == c2 && bs@[a2].position == p2
                            && bs@[a2].idxs@.contains(k2));
                        assert(pbuckets_has(bs@, c2, p2, k2));
                    }
                    if c2 == c && p2 == p && k2 == k {
                        assert(bs@[a as int].letter == c && bs@[a as int].position == p
                            && bs@[a as int].idxs@.contains(k));
                        assert(pbuckets_has(bs@, c2, p2, k2));
                    }
                }
            }
        },
        None => {
            let mut idxs: Vec<usize> = Vec::new();
            idxs.push(k);
            bs.push(PositionBucket { letter: c, position: p, idxs });
            proof {
                let n = old(bs)@.len() as int;
                assert(bs@[n].letter == c && bs@[n].position == p && bs@[n].idxs@.contains(k));
                assert forall|c2: char, p2: usize, k2: usize|
                    pbuckets_has(bs@, c2, p2, k2) <==> (pbuckets_has(old(bs)@, c2, p2, k2) || (c2
                        == c && p2 == p && k2 == k)) by {
                    if pbuckets_has(bs@, c2, p2, k2) {
                        let a2 = choose|a2: int|
                            0 <= a2 < bs@.len() && (#[trigger] bs@[a2]).letter == c2
                                && bs@[a2].position == p2 && bs@[a2].idxs@.contains(k2);
                        if a2 < n {
                            assert(old(bs)@[a2] == bs@[a2]);
                            assert(pbuckets_has(old(bs)@, c2, p2, k2));
                        } else {
                            assert(c2 == c && p2 == p && k2 == k);
                        }
                    }
                    if pbuckets_has(old(bs)@, c2, p2, k2) {
                        let a2 = choose|a2: int|
                            0 <= a2 < old(bs)@.len() && (#[trigger] old(bs)@[a2]).letter == c2
                                && old(bs)@[a2].position == p2 && old(bs)@[a2].idxs@.contains(k2);
                        assert(bs@[a2].letter == c2 && bs@[a2].position == p2
                            && bs@[a2].idxs@.contains(k2));
                        assert(pbuckets_has(bs@, c2, p2, k2));
                    }
                }
            }
        },
    }
}

/// Linear membership test on the confirmed-letters list.
fn letters_contain(v: &Vec<char>, c: char) -> (r: bool)
    ensures
        r == v@.contains(c),
{
    let mut i: usize = 0;
    #[verifier::loop_isolation(false)]
    while i < v.len()
        invariant
            forall|j: int| 0 <= j < i ==> v@[j] != c,
        decreases v@.len() - i,
    {
        if v[i] == c {
            return true;
        }
        i += 1;
    }
    proof {
        assert(!v@.contains(c));
    }
    false
}

impl Solver {
    /// Consults the letter index: does the word at dictionary position `k`
    /// contain the letter `c` anywhere? A letter with no bucket behaves as
    /// an empty bucket.
    fn word_idx_has_letter(&self, k: usize, c: char) -> (r: bool)
        requires
            self.wf(),
            k < self.dict@.len(),
        ensures
            r == word_has_letter(self.dict@[k as int]@, c),
    {
        match find_letter_bucket(&self.by_letter, c) {
            None => {
                proof {
                    if lbuckets_has(self.by_letter@, c, k) {
                        let a2 = choose|a2: int|
                            0 <= a2 < self.by_letter@.len() && (#[trigger] self.by_letter@[a2]).letter
                                == c && self.by_letter@[a2].idxs@.contains(k);
                        assert(false);
                    }
                }
                false
            },
            Some(a) => {
                let r = idxs_contains(&self.by_letter[a].idxs, k);
                proof {
                    if r {
                        assert(lbuckets_has(self.by_letter@, c, k));
                    } else {
                        if lbuckets_has(self.by_letter@, c, k) {
                            let a2 = choose|a2: int|
                                0 <= a2 < self.by_letter@.len() && (
                                #[trigger] self.by_letter@[a2]).letter == c
                                    && self.by_letter@[a2].idxs@.contains(k);
                            assert(a2 == a as int);
                            assert(false);
                        }
                    }
                }
                r
            },
        }
    }

    /// Consults the position index: does the word at dictionary position `k`
    /// have the letter `c` exactly at word position `p`? A pair with no
    /// bucket behaves as an empty bucket, so an out-of-range position simply
    /// matches no word.
    fn word_idx_has_letter_at(&self, k: usize, c: char, p: usize) -> (r: bool)
        requires
            self.wf(),
            k < self.dict@.len(),
        ensures
            r == word_has_letter_at(self.dict@[k as int]@, c, p as int),
    {
        match find_position_bucket(&self.by_position, c, p) {
            None => {
                proof {
                    if pbuckets_has(self.by_position@, c, p, k) {
                        let a2 = choose|a2: int|
                            0 <= a2 < self.by_position@.len() && (
                            #[trigger] self.by_position@[a2]).letter == c
                                && self.by_position@[a2].position == p
                                && self.by_position@[a2].idxs@.contains(k);
                        assert(false);
                    }
                }
                false
            },
            Some(a) => {
                let r = idxs_contains(&self.by_position[a].idxs, k);
                proof {
                    if r {
                        assert(pbuckets_has(self.by_position@, c, p, k));
                    } else {
                        if pbuckets_has(self.by_position@, c, p, k) {
                            let a2 = choose|a2: int|
                                0 <= a2 < self.by_position@.len() && (
                                #[trigger] self.by_position@[a2]).letter == c
                                    && self.by_position@[a2].position == p
                                    && self.by_position@[a2].idxs@.contains(k);
                            assert(a2 == a as int);
                            assert(false);
                        }
                    }
                }
                r
            },
        }
    }

    /// Whether the candidate at dictionary position `k` survives the hint,
    /// judged through the indices and the confirmed letters.
    fn keeps_candidate(&self, h: &Hint, k: usize) -> (r: bool)
        requires
            self.wf(),
            k < self.dict@.len(),
        ensures
            r == hint_keeps(self.known_letters(), *h, self.dict@[k as int]@),
    {
        proof {
            assert(self.known_letters().contains(h.letter) == self.exists_letters@.contains(
                h.letter,
            ));
        }
        match h.hint {
            HintType::WellPlaced => self.word_idx_has_letter_at(k, h.letter, h.position),
            HintType::Exists => self.word_idx_has_letter(k, h.letter)
                && !self.word_idx_has_letter_at(k, h.letter, h.position),
            HintType::Invalid => letters_contain(&self.exists_letters, h.letter)
                || !self.word_idx_has_letter(k, h.letter),
        }
    }

    /// Retains exactly the candidates that survive the hint.
    fn prune_candidates(&mut self, h: &Hint)
        requires
            old(self).wf(),
        ensures
            final(self).wf(),
            final(self).dict == old(self).dict,
            final(self).by_letter == old(self).by_letter,
            final(self).by_position == old(self).by_position,
            final(self).exists_letters == old(self).exists_letters,
            final(self).pool() == apply_hint_pool(
                old(self).pool(),
                old(self).known_letters(),
                *h,
            ),
    {
        let ghost d = self.dict@;
        let ghost known0 = self.known_letters();
        let ghost h0 = *h;
        let ghost kq = |k: usize| hint_keeps(known0, h0, d[k as int]@);
        let n = self.candidates.len();
        let mut kept: Vec<usize> = Vec::new();
        let mut i: usize = 0;
        #[verifier::loop_isolation(false)]
        while i < n
            invariant
                0 <= i <= n,
                n == self.candidates@.len(),
                kept@ == self.candidates@.take(i as int).filter(kq),
            decreases n - i,
        {
            broadcast use vstd::prelude::Seq::lemma_filter_push;

            let k = self.candidates[i];
            let keep = self.keeps_candidate(h, k);
            if keep {
                kept.push(k);
            }
            proof {
                assert(self.candidates@.take(i as int + 1) =~= self.candidates@.take(
                    i as int,
                ).push(k));
                assert(keep == kq(k));
            }
            i += 1;
        }
        proof {
            assert(self.candidates@.take(n as int) =~= self.candidates@);
        }
        self.candidates = kept;
        proof {
            broadcast use vstd::prelude::Seq::lemma_filter_contains_rev;

            let c0 = old(self).candidates@;
            let fview = |k: usize| d[k as int]@;
            let keepv = |w: Seq<char>| hint_keeps(known0, h0, w);
            lemma_filter_map_commute(c0, fview, kq, keepv);
            assert(old(self).pool() =~= c0.map_values(fview));
            assert(self.pool() =~= c0.filter(kq).map_values(fview));
            assert(self.pool() == c0.map_values(fview).filter(keepv));
            assert(self.pool() == apply_hint_pool(
                old(self).pool(),
                old(self).known_letters(),
                *h,
            ));
            // well-formedness of the shrunk pool
            lemma_filter_no_duplicates(c0, kq);
            assert forall|j: int|
                0 <= j < self.candidates@.len() implies (
            #[trigger] self.candidates@[j]) < self.dict@.len() by {
                assert(c0.filter(kq).contains(c0.filter(kq)[j]));
                let j2 = choose|j2: int| 0 <= j2 < c0.len() && c0[j2] == c0.filter(kq)[j];
            }
        }
    }

    /// Records that `l` is confirmed to occur in the target word.
    fn note_exists_letter(&mut self, l: char)
        ensures
            final(self).dict == old(self).dict,
            final(self).candidates == old(self).candidates,
            final(self).by_letter == old(self).by_letter,
            final(self).by_position == old(self).by_position,
            final(self).known_letters() == old(self).known_letters().insert(l),
    {
        broadcast use vstd::prelude::Seq::lemma_push_to_set_commute;

        let found = letters_contain(&self.exists_letters, l);
        if !found {
            self.exists_letters.push(l);
        }
        proof {
            if found {
                assert(self.known_letters() =~= old(self).known_letters().insert(l));
            }
        }
    }

    /// Retains the candidates with letter `l` exactly at position `p`, and
    /// records that `l` exists in the target word.
    fn add_well_placed(&mut self, l: &char, p: &usize)
        requires
            old(self).wf(),
        ensures
            final(self).wf(),
            final(self).dictionary() == old(self).dictionary(),
            final(self).pool() == apply_hint_pool(
                old(self).pool(),
                old(self).known_letters(),
                (Hint { hint: HintType::WellPlaced, letter: *l, position: *p }),
            ),
            final(self).known_letters() == old(self).known_letters().insert(*l),
    {
        let h = Hint { hint: HintType::WellPlaced, letter: *l, position: *p };
        self.prune_candidates(&h);
        self.note_exists_letter(*l);
    }

    /// Retains the candidates that contain letter `l` somewhere other than
    /// position `p`, and records that `l` exists in the target word.
    fn add_exists(&mut self, l: &char, p: &usize)
        requires
            old(self).wf(),
        ensures
            final(self).wf(),
            final(self).dictionary() == old(self).dictionary(),
            final(self).pool() == apply_hint_pool(
                old(self).pool(),
                old(self).known_letters(),
                (Hint { hint: HintType::Exists, letter: *l, position: *p }),
            ),
            final(self).known_letters() == old(self).known_letters().insert(*l),
    {
        let h = Hint { hint: HintType::Exists, letter: *l, position: *p };
        self.prune_candidates(&h);
        self.note_exists_letter(*l);
    }

    /// Removes the candidates containing letter `l` — unless `l` was already
    /// confirmed to exist, in which case the contradictory hint is discarded
    /// and the pool is left alone.
    fn add_invalid(&mut self, l: &char, p: &usize)
        requires
            old(self).wf(),
        ensures
            final(self).wf(),
            final(self).dictionary() == old(self).dictionary(),
            final(self).pool() == apply_hint_pool(
                old(self).pool(),
                old(self).known_letters(),
                (Hint { hint: HintType::Invalid, letter: *l, position: *p }),
            ),
            final(self).known_letters() == old(self).known_letters(),
    {
        let h = Hint { hint: HintType::Invalid, letter: *l, position: *p };
        if letters_contain(&self.exists_letters, *l) {
            proof {
                let pool0 = self.pool();
                let known0 = self.known_letters();
                lemma_filter_all_true(pool0, |w: Seq<char>| hint_keeps(known0, h, w));
            }
        } else {
            self.prune_candidates(&h);
        }
    }

    /// Applies one hint to the candidate pool, eagerly pruning it in place.
    pub fn add_hint(&mut self, fh: Hint)
        requires
            old(self).wf(),
        ensures
            final(self).wf(),
            final(self).dictionary() == old(self).dictionary(),
            final(self).pool() == apply_hint_pool(old(self).pool(), old(self).known_letters(), fh),
            final(self).known_letters() == apply_hint_known(old(self).known_letters(), fh),
            final(self).pool().len() <= old(self).pool().len(),
    {
        broadcast use vstd::prelude::Seq::lemma_filter_len;

        match fh.hint {
            HintType::WellPlaced => self.add_well_placed(&fh.letter, &fh.position),
            HintType::Exists => self.add_exists(&fh.letter, &fh.position),
            HintType::Invalid => self.add_invalid(&fh.letter, &fh.position),
        }
    }

    /// The same as `add_hint`, for callers that do not build a `Hint`.
    pub fn add_raw_hint(&mut self, l: &char, p: &usize, h: HintType)
        requires
            old(self).wf(),
        ensures
            final(self).wf(),
            final(self).dictionary() == old(self).dictionary(),
            final(self).pool() == apply_hint_pool(
                old(self).pool(),
                old(self).known_letters(),
                (Hint { hint: h, letter: *l, position: *p }),
            ),
            final(self).known_letters() == apply_hint_known(
                old(self).known_letters(),
                (Hint { hint: h, letter: *l, position: *p }),
            ),
            final(self).pool().len() <= old(self).pool().len(),
    {
        self.add_hint(Hint { hint: h, letter: *l, position: *p })
    }

    /// Ingests a batch of hints derived from one guess's feedback,
    /// ensuring logical consistency between them.
    ///
    /// A single guess can carry the same letter twice with different
    /// feedback per occurrence, so all WellPlaced and Exists hints of the
    /// batch are applied first and all Invalid hints second, whatever the
    /// batch's order: the confirmed letters are then on record before any
    /// same-guess invalidation is judged against them.
    pub fn ingest_hints(&mut self, fhs: Vec<Hint>)
        requires
            old(self).wf(),
        ensures
            final(self).wf(),
            final(self).dictionary() == old(self).dictionary(),
            final(self).pool() == apply_hints(
                old(self).pool(),
                old(self).known_letters(),
                ingest_order(fhs@),
            ).0,
            final(self).known_letters() == apply_hints(
                old(self).pool(),
                old(self).known_letters(),
                ingest_order(fhs@),
            ).1,
            final(self).pool().len() <= old(self).pool().len(),
    {
        broadcast use vstd::prelude::Seq::lemma_filter_push;

        let ghost pool0 = self.pool();
        let ghost known0 = self.known_letters();
        let ghost confp = |h: Hint| is_confirming(h);
        let ghost invp = |h: Hint| !is_confirming(h);
        let n = fhs.len();
        let mut i: usize = 0;
        #[verifier::loop_isolation(false)]
        while i < n
            invariant
                0 <= i <= n,
                self.wf(),
                self.dictionary() == old(self).dictionary(),
                self.pool() == apply_hints(pool0, known0, fhs@.take(i as int).filter(confp)).0,
                self.known_letters() == apply_hints(
                    pool0,
                    known0,
                    fhs@.take(i as int).filter(confp),
                ).1,
                self.pool().len() <= pool0.len(),
            decreases n - i,
        {
            let fh = &fhs[i];
            proof {
                assert(fhs@.take(i as int + 1) =~= fhs@.take(i as int).push(fhs@[i as int]));
            }
            match fh.hint {
                HintType::Invalid => {},
                _ => {
                    proof {
                        lemma_apply_hints_push(
                            pool0,
                            known0,
                            fhs@.take(i as int).filter(confp),
                            fhs@[i as int],
                        );
                    }
                    let h = Hint { hint: fh.hint, letter: fh.letter, position: fh.position };
                    proof {
                        assert(h == fhs@[i as int]);
                    }
                    self.add_hint(h);
                },
            }
            i += 1;
        }
        proof {
            assert(fhs@.take(n as int) =~= fhs@);
        }
        let ghost pool1 = apply_hints(pool0, known0, fhs@.filter(confp)).0;
        let ghost known1 = apply_hints(pool0, known0, fhs@.filter(confp)).1;
        let mut i2: usize = 0;
        #[verifier::loop_isolation(false)]
        while i2 < n
            invariant
                0 <= i2 <= n,
                self.wf(),
                self.dictionary() == old(self).dictionary(),
                self.pool() == apply_hints(pool1, known1, fhs@.take(i2 as int).filter(invp)).0,
                self.known_letters() == apply_hints(
                    pool1,
                    known1,
                    fhs@.take(i2 as int).filter(invp),
                ).1,
                self.pool().len() <= pool0.len(),
            decreases n - i2,
        {
            let fh = &fhs[i2];
            proof {
                assert(fhs@.take(i2 as int + 1) =~= fhs@.take(i2 as int).push(fhs@[i2 as int]));
            }
            match fh.hint {
                HintType::Invalid => {
                    proof {
                        lemma_apply_hints_push(
                            pool1,
                            known1,
                            fhs@.take(i2 as int).filter(invp),
                            fhs@[i2 as int],
                        );
                    }
                    let h = Hint { hint: fh.hint, letter: fh.letter, position: fh.position };
                    proof {
                        assert(h == fhs@[i2 as int]);
                    }
                    self.add_hint(h);
                },
                _ => {},
            }
            i2 += 1;
        }
        proof {
            assert(fhs@.take(n as int) =~= fhs@);
            lemma_apply_hints_concat(pool0, known0, fhs@.filter(confp), fhs@.filter(invp));
        }
    }

    /// Removes one specific word from the candidate pool, whatever the hint
    /// history. Discarding a word that is not in the pool changes nothing.
    pub fn discard_word(&mut self, s: &str)
        requires
            old(self).wf(),
        ensures
            final(self).wf(),
            final(self).dictionary() == old(self).dictionary(),
            final(self).pool() == old(self).pool().filter(|w: Seq<char>| w != s@),
            final(self).known_letters() == old(self).known_letters(),
            final(self).pool().len() <= old(self).pool().len(),
    {
        broadcast use vstd::prelude::Seq::lemma_filter_len;

        let ghost d = self.dict@;
        let ghost kq = |k: usize| d[k as int]@ != s@;
        let target: String = s.to_owned();
        let n = self.candidates.len();
        let mut kept: Vec<usize> = Vec::new();
        let mut i: usize = 0;
        #[verifier::loop_isolation(false)]
        while i < n
            invariant
                0 <= i <= n,
                n == self.candidates@.len(),
                kept@ == self.candidates@.take(i as int).filter(kq),
            decreases n - i,
        {
            broadcast use vstd::prelude::Seq::lemma_filter_push;

            let k = self.candidates[i];
            let keep = !(self.dict[k] == target);
            if keep {
                kept.push(k);
            }
            proof {
                assert(self.candidates@.take(i as int + 1) =~= self.candidates@.take(
                    i as int,
                ).push(k));
                assert(keep == kq(k));
            }
            i += 1;
        }
        proof {
            assert(self.candidates@.take(n as int) =~= self.candidates@);
        }
        self.candidates = kept;
        proof {
            broadcast use vstd::prelude::Seq::lemma_filter_contains_rev;

            let c0 = old(self).candidates@;
            let fview = |k: usize| d[k as int]@;
            let keepv = |w: Seq<char>| w != s@;
            lemma_filter_map_commute(c0, fview, kq, keepv);
            assert(old(self).pool() =~= c0.map_values(fview));
            assert(self.pool() =~= c0.filter(kq).map_values(fview));
            assert(self.pool() == c0.map_values(fview).filter(keepv));
            lemma_filter_no_duplicates(c0, kq);
            assert forall|j: int|
                0 <= j < self.candidates@.len() implies (
            #[trigger] self.candidates@[j]) < self.dict@.len() by {
                assert(c0.filter(kq).contains(c0.filter(kq)[j]));
                let j2 = choose|j2: int| 0 <= j2 < c0.len() && c0[j2] == c0.filter(kq)[j];
            }
        }
    }
}

} // verus!
