//! Frequency distributions and probability distributions.
//!
//! A [`FreqDist`] records how many times each outcome of an experiment has
//! occurred; for example, it can record the frequency of each word type in
//! a document.  A probability distribution answers, for every sample, how
//! likely that outcome is.  Probabilities are exact rationals (a numerator
//! over a common denominator), so the contracts can state precisely what
//! every query returns; taking base-2 logarithms of those rationals is left
//! to the (unverified) caller, since it leaves the rational numbers.

use crate::internals::InternalError;
use vstd::prelude::*;

verus! {

/// An exact probability: the rational number `num / den`.
///
/// A well-formed probability has a positive denominator and lies in the
/// closed interval `[0, 1]`, that is `num <= den`.
#[derive(Clone, Copy, Debug, PartialEq, Eq, Structural)]
pub struct Probability {
    /// Numerator.
    pub num: u64,
    /// Denominator; always positive for a well-formed value.
    pub den: u64,
}

impl Probability {
    /// Well-formedness: the value is a rational in `[0, 1]`.
    pub open spec fn wf(self) -> bool {
        self.den >= 1 && self.num <= self.den
    }

    /// The probability zero, as the rational `0 / 1`.
    pub fn zero() -> (r: Self)
        ensures
            r == (Probability { num: 0u64, den: 1u64 }),
    {
        Probability { num: 0, den: 1 }
    }

    /// Whether this probability is exactly zero.
    pub fn is_zero(&self) -> (r: bool)
        ensures
            r == (self.num == 0),
    {
        self.num == 0
    }
}

/// A discrete outcome that a distribution can count: a value with a
/// mathematical model (its view), an equality test that decides equality
/// of the models, and a way to duplicate the value without changing the
/// model.  Two samples are the same outcome exactly when their views are
/// equal, so a collaborator feeding samples must keep equality stable.
pub trait Sample: View + Sized {
    /// Decide whether two samples are the same outcome.
    fn sample_eq(&self, other: &Self) -> (r: bool)
        ensures
            r == (self@ == other@);

    /// Produce a sample standing for the same outcome.
    fn dup(&self) -> (r: Self)
        ensures
            r@ == self@;
}

impl Sample for String {
    fn sample_eq(&self, other: &Self) -> (r: bool)
        ensures
            r == (self@ == other@),
    {
        *self == *other
    }

    fn dup(&self) -> (r: Self)
        ensures
            r@ == self@,
    {
        self.clone()
    }
}

impl Sample for u64 {
    fn sample_eq(&self, other: &Self) -> (r: bool)
        ensures
            r == (self@ == other@),
    {
        *self == *other
    }

    fn dup(&self) -> (r: Self)
        ensures
            r@ == self@,
    {
        *self
    }
}

impl Sample for usize {
    fn sample_eq(&self, other: &Self) -> (r: bool)
        ensures
            r == (self@ == other@),
    {
        *self == *other
    }

    fn dup(&self) -> (r: Self)
        ensures
            r@ == self@,
    {
        *self
    }
}

impl Sample for char {
    fn sample_eq(&self, other: &Self) -> (r: bool)
        ensures
            r == (self@ == other@),
    {
        *self == *other
    }

    fn dup(&self) -> (r: Self)
        ensures
            r@ == self@,
    {
        *self
    }
}

/// The views of the keys of a run of entries.
pub open spec fn key_views<T: Sample>(s: Seq<(T, usize)>) -> Seq<<T as View>::V> {
    s.map_values(|e: (T, usize)| e.0@)
}

/// No two entries count the same outcome.
pub open spec fn distinct_keys<T: Sample>(s: Seq<(T, usize)>) -> bool {
    forall|i: int, j: int|
        0 <= i < j < s.len() ==> key_views(s)[i] != key_views(s)[j]
}

/// The counts map described by a run of entries: later entries win, though
/// with distinct keys the order never matters.
pub open spec fn counts_of<T: Sample>(s: Seq<(T, usize)>) -> Map<<T as View>::V, nat>
    decreases s.len(),
{
    if s.len() == 0 {
        Map::empty()
    } else {
        counts_of(s.drop_last()).insert(s.last().0@, s.last().1 as nat)
    }
}

/// The sum of the counts of a run of entries.
pub open spec fn sum_counts<T: Sample>(s: Seq<(T, usize)>) -> nat
    decreases s.len(),
{
    if s.len() == 0 {
        0
    } else {
        sum_counts(s.drop_last()) + s.last().1 as nat
    }
}

/// With distinct keys, the counts map reads back exactly the entries.
proof fn lemma_counts_of_props<T: Sample>(s: Seq<(T, usize)>)
    requires
        distinct_keys(s),
    ensures
        forall|i: int|
            0 <= i < s.len() ==> counts_of(s).dom().contains(#[trigger] s[i].0@)
                && counts_of(s)[s[i].0@] == s[i].1 as nat,
        forall|v: <T as View>::V|
            counts_of(s).dom().contains(v) ==> exists|i: int| 0 <= i < s.len() && #[trigger] s[i].0@ == v,
    decreases s.len(),
{
    if s.len() > 0 {
        assert(distinct_keys(s.drop_last())) by {
            assert forall|i: int, j: int| 0 <= i < j < s.drop_last().len() implies
                key_views(s.drop_last())[i] != key_views(s.drop_last())[j] by {
                assert(key_views(s)[i] == key_views(s.drop_last())[i]);
                assert(key_views(s)[j] == key_views(s.drop_last())[j]);
            }
        }
        lemma_counts_of_props(s.drop_last());
        assert forall|v: <T as View>::V| counts_of(s).dom().contains(v) implies exists|i: int|
            0 <= i < s.len() && #[trigger] s[i].0@ == v by {
            if v == s.last().0@ {
                assert(s[s.len() - 1].0@ == v);
            } else {
                assert(counts_of(s.drop_last()).dom().contains(v));
                let i = choose|i: int|
                    0 <= i < s.drop_last().len() && #[trigger] s.drop_last()[i].0@ == v;
                assert(s[i].0@ == v);
            }
        }
        assert forall|i: int| 0 <= i < s.len() implies counts_of(s).dom().contains(#[trigger] s[i].0@)
            && counts_of(s)[s[i].0@] == s[i].1 as nat by {
            if i < s.len() - 1 {
                assert(s.drop_last()[i] == s[i]);
                assert(key_views(s)[i] == s[i].0@);
                assert(key_views(s)[s.len() - 1] == s.last().0@);
                assert(s[i].0@ != s.last().0@);
            }
        }
    }
}

/// Updating the count of one entry updates the counts map at that key.
proof fn lemma_counts_of_update<T: Sample>(s: Seq<(T, usize)>, i: int, c: usize)
    requires
        distinct_keys(s),
        0 <= i < s.len(),
    ensures
        counts_of(s.update(i, (s[i].0, c))) == counts_of(s).insert(s[i].0@, c as nat),
        sum_counts(s.update(i, (s[i].0, c))) == sum_counts(s) - s[i].1 + c,
    decreases s.len(),
{
    let t = s.update(i, (s[i].0, c));
    if i == s.len() - 1 {
        assert(t.drop_last() =~= s.drop_last());
        assert(counts_of(t) =~= counts_of(s).insert(s[i].0@, c as nat));
    } else {
        assert(distinct_keys(s.drop_last())) by {
            assert forall|k: int, j: int| 0 <= k < j < s.drop_last().len() implies
                key_views(s.drop_last())[k] != key_views(s.drop_last())[j] by {
                assert(key_views(s)[k] == key_views(s.drop_last())[k]);
                assert(key_views(s)[j] == key_views(s.drop_last())[j]);
            }
        }
        lemma_counts_of_update(s.drop_last(), i, c);
        assert(t.drop_last() =~= s.drop_last().update(i, (s[i].0, c)));
        assert(t.last() == s.last());
        assert(s[i].0@ != s.last().0@) by {
            assert(key_views(s)[i] == s[i].0@);
            assert(key_views(s)[s.len() - 1] == s.last().0@);
        }
        assert(counts_of(t) =~= counts_of(s).insert(s[i].0@, c as nat));
    }
}

/// A frequency distribution for the outcomes of an experiment: a mutable
/// multiset mapping each observed sample to the number of times it has
/// occurred.  Every stored count is at least one; a sample never observed
/// is simply absent.  The view of a `FreqDist` is the map from sample
/// models to their counts.
#[derive(Debug, Clone)]
pub struct FreqDist<T: Sample> {
    entries: Vec<(T, usize)>,
    total: usize,
}

impl<T: Sample> View for FreqDist<T> {
    type V = Map<<T as View>::V, nat>;

    closed spec fn view(&self) -> Map<<T as View>::V, nat> {
        counts_of(self.entries@)
    }
}

impl<T: Sample> FreqDist<T> {
    /// Internal invariant: keys are distinct, counts are positive, and the
    /// cached total is the sum of all counts.
    pub closed spec fn wf(&self) -> bool {
        &&& distinct_keys(self.entries@)
        &&& forall|i: int| 0 <= i < self.entries@.len() ==> (#[trigger] self.entries@[i]).1 >= 1
        &&& self.total as nat == sum_counts(self.entries@)
    }

    /// The total number of sample outcomes recorded (the sum of all counts).
    pub closed spec fn n(&self) -> nat {
        self.total as nat
    }

    /// The number of distinct samples (bins) with a nonzero count.
    pub closed spec fn bins(&self) -> nat {
        self.entries@.len()
    }

    /// The count recorded for an outcome, zero if it was never observed.
    pub open spec fn count_of(&self, v: <T as View>::V) -> nat {
        if self@.dom().contains(v) {
            self@[v]
        } else {
            0
        }
    }

    /// Construct an empty frequency distribution.
    pub fn new() -> (r: Self)
        ensures
            r.wf(),
            r@ == Map::<<T as View>::V, nat>::empty(),
            r.n() == 0,
            r.bins() == 0,
    {
        FreqDist { entries: Vec::new(), total: 0 }
    }

    /// Find the entry holding the given sample, if any.
    fn find_index(&self, sample: &T) -> (r: Option<usize>)
        ensures
            match r {
                Some(i) => i < self.entries@.len() && self.entries@[i as int].0@ == sample@,
                None => forall|i: int|
                    0 <= i < self.entries@.len() ==> (#[trigger] self.entries@[i]).0@ != sample@,
            },
    {
        let mut i: usize = 0;
        while i < self.entries.len()
            invariant
                i <= self.entries@.len(),
                forall|j: int| 0 <= j < i ==> (#[trigger] self.entries@[j]).0@ != sample@,
            decreases self.entries@.len() - i,
        {
            if self.entries[i].0.sample_eq(sample) {
                return Some(i);
            }
            i = i + 1;
        }
        None
    }

    /// The count of the given sample: the number of times that outcome was
    /// recorded by this distribution.
    pub fn count(&self, sample: &T) -> (r: usize)
        requires
            self.wf(),
        ensures
            r == self.count_of(sample@),
    {
        proof {
            lemma_counts_of_props(self.entries@);
        }
        match self.find_index(sample) {
            Some(i) => self.entries[i].1,
            None => 0,
        }
    }

    /// Record one more occurrence of `sample`, inserting it with count one
    /// if it was absent.
    pub fn add(&mut self, sample: T)
        requires
            old(self).wf(),
            old(self).n() < usize::MAX,
        ensures
            final(self).wf(),
            final(self)@ == old(self)@.insert(sample@, old(self).count_of(sample@) + 1),
            final(self).n() == old(self).n() + 1,
            final(self).bins() == old(self).bins() + (if old(self)@.dom().contains(sample@) {
                0int
            } else {
                1int
            }),
    {
        proof {
            lemma_counts_of_props(self.entries@);
        }
        match self.find_index(&sample) {
            Some(i) => {
                let c = self.entries[i].1;
                proof {
                    lemma_count_le_sum(self.entries@, i as int);
                    lemma_counts_of_update(self.entries@, i as int, (c + 1) as usize);
                }
                self.entries[i].1 = c + 1;
                proof {
                    assert(self.entries@ =~= old(self).entries@.update(
                        i as int,
                        (old(self).entries@[i as int].0, (c + 1) as usize),
                    ));
                    assert(key_views(self.entries@) =~= key_views(old(self).entries@));
                }
                self.total = self.total + 1;
            },
            None => {
                self.entries.push((sample, 1));
                self.total = self.total + 1;
                proof {
                    let s = old(self).entries@;
                    let t = self.entries@;
                    assert(t.drop_last() =~= s);
                    assert forall|i: int, j: int| 0 <= i < j < t.len() implies
                        key_views(t)[i] != key_views(t)[j] by {
                        if j < t.len() - 1 {
                            assert(key_views(s)[i] == key_views(t)[i]);
                            assert(key_views(s)[j] == key_views(t)[j]);
                        } else {
                            assert(key_views(t)[i] == s[i].0@);
                        }
                    }
                    assert(!old(self)@.dom().contains(t.last().0@));
                }
            },
        }
    }

    /// The total number of sample outcomes recorded by this distribution.
    /// For the number of distinct sample values, use [`FreqDist::B`].
    #[allow(non_snake_case)]
    pub fn N(&self) -> (r: usize)
        requires
            self.wf(),
        ensures
            r == self.n(),
    {
        self.total
    }

    /// The number of distinct sample values (bins) with a count greater
    /// than zero.  For the total number of outcomes, use [`FreqDist::N`].
    #[allow(non_snake_case)]
    pub fn B(&self) -> (r: usize)
        requires
            self.wf(),
        ensures
            r == self.bins(),
    {
        self.entries.len()
    }
}

/// The views of a run of samples.
pub open spec fn sample_views<T: Sample>(s: Seq<T>) -> Seq<<T as View>::V> {
    s.map_values(|t: T| t@)
}

impl<T: Sample> FreqDist<T> {
    /// Feed a batch of samples: for every sample in the input, in order,
    /// record one more occurrence of it, inserting absent samples with
    /// count one.
    pub fn init(&mut self, samples: &Vec<T>)
        requires
            old(self).wf(),
            old(self).n() + samples@.len() <= usize::MAX,
        ensures
            final(self).wf(),
            final(self).n() == old(self).n() + samples@.len(),
            forall|v: <T as View>::V|
                final(self).count_of(v) == old(self).count_of(v) + sample_views(
                    samples@,
                ).to_multiset().count(v),
            final(self)@.dom() == old(self)@.dom().union(sample_views(samples@).to_set()),
    {
        broadcast use vstd::seq_lib::group_to_multiset_ensures;

        let mut i: usize = 0;
        while i < samples.len()
            invariant
                self.wf(),
                i <= samples@.len(),
                old(self).n() + samples@.len() <= usize::MAX,
                self.n() == old(self).n() + i,
                forall|v: <T as View>::V|
                    self.count_of(v) == old(self).count_of(v) + sample_views(
                        samples@,
                    ).take(i as int).to_multiset().count(v),
                self@.dom() == old(self)@.dom().union(
                    sample_views(samples@).take(i as int).to_set(),
                ),
            decreases samples@.len() - i,
        {
            let ghost prev = *self;
            let s = samples[i].dup();
            let ghost sv = s@;
            self.add(s);
            proof {
                let vs = sample_views(samples@);
                assert(vs.take(i + 1) =~= vs.take(i as int).push(vs[i as int]));
                assert(vs[i as int] == sv);
                vs.take(i as int).to_multiset_ensures();
                assert(vs.take(i as int).push(sv).to_multiset() =~= vs.take(
                    i as int,
                ).to_multiset().insert(sv));
                assert(vs.take(i + 1).to_multiset() =~= vs.take(i as int).to_multiset().insert(sv));
                assert forall|v: <T as View>::V|
                    self.count_of(v) == old(self).count_of(v) + vs.take(
                        i + 1,
                    ).to_multiset().count(v) by {
                    if v == sv {
                        assert(self.count_of(v) == prev.count_of(v) + 1);
                    } else {
                        assert(self.count_of(v) == prev.count_of(v));
                    }
                }
                vs.take(i as int).lemma_push_to_set_commute(sv);
                assert(vs.take(i + 1).to_set() =~= vs.take(i as int).to_set().insert(sv));
                assert(self@.dom() =~= old(self)@.dom().union(vs.take(i + 1).to_set()));
            }
            i = i + 1;
        }
        proof {
            assert(sample_views(samples@).take(samples@.len() as int) =~= sample_views(samples@));
        }
    }

    /// Construct a frequency distribution from an initial batch of samples.
    ///
    /// Law: the total count equals the number of samples fed in, and the
    /// number of bins equals the number of distinct samples fed in.
    pub fn from_samples(samples: &Vec<T>) -> (r: Self)
        ensures
            r.wf(),
            r.n() == samples@.len(),
            r.bins() == sample_views(samples@).to_set().len(),
            forall|v: <T as View>::V|
                r.count_of(v) == sample_views(samples@).to_multiset().count(v),
            r@.dom() == sample_views(samples@).to_set(),
    {
        let mut r = FreqDist::new();
        let count = samples.len();
        proof {
            broadcast use vstd::std_specs::vec::axiom_spec_len;

            assert(samples@.len() == count);
        }
        r.init(samples);
        proof {
            assert(r@.dom() =~= sample_views(samples@).to_set());
            lemma_bins_is_distinct_count(&r);
        }
        r
    }
}

impl<T: Sample> FreqDist<T> {
    /// All samples that occur exactly once, in no particular order.
    ///
    /// Law: a sample is listed here if and only if its count is exactly one.
    #[verifier::rlimit(50)]
    pub fn hapaxes(&self) -> (r: Vec<T>)
        requires
            self.wf(),
        ensures
            forall|k1: int, k2: int| 0 <= k1 < k2 < r@.len() ==> r@[k1]@ != r@[k2]@,
            forall|k: int|
                0 <= k < r@.len() ==> self@.dom().contains((#[trigger] r@[k])@) && self@[r@[k]@]
                    == 1,
            forall|v: <T as View>::V|
                self@.dom().contains(v) && self@[v] == 1 ==> exists|k: int|
                    0 <= k < r@.len() && (#[trigger] r@[k])@ == v,
    {
        proof {
            lemma_counts_of_props(self.entries@);
        }
        let mut r: Vec<T> = Vec::new();
        let ghost mut idx: Seq<int> = Seq::empty();
        let ghost mut pos: Map<int, int> = Map::empty();
        let mut i: usize = 0;
        while i < self.entries.len()
            invariant
                self.wf(),
                i <= self.entries@.len(),
                idx.len() == r@.len(),
                forall|k: int|
                    0 <= k < r@.len() ==> 0 <= #[trigger] idx[k] < i
                        && r@[k]@ == self.entries@[idx[k]].0@
                        && self.entries@[idx[k]].1 == 1,
                forall|k1: int, k2: int| 0 <= k1 < k2 < r@.len() ==> idx[k1] < idx[k2],
                forall|j: int|
                    0 <= j < i && (#[trigger] self.entries@[j]).1 == 1 ==> pos.dom().contains(j)
                        && 0 <= pos[j] < r@.len() && r@[pos[j]]@ == self.entries@[j].0@,
            decreases self.entries@.len() - i,
        {
            if self.entries[i].1 == 1 {
                r.push(self.entries[i].0.dup());
                proof {
                    idx = idx.push(i as int);
                    pos = pos.insert(i as int, r@.len() - 1);
                }
            }
            i = i + 1;
        }
        proof {
            assert forall|k1: int, k2: int| 0 <= k1 < k2 < r@.len() implies r@[k1]@ != r@[k2]@ by {
                assert(key_views(self.entries@)[idx[k1]] == self.entries@[idx[k1]].0@);
                assert(key_views(self.entries@)[idx[k2]] == self.entries@[idx[k2]].0@);
            }
            assert forall|k: int|
                0 <= k < r@.len() implies self@.dom().contains((#[trigger] r@[k])@)
                && self@[r@[k]@] == 1 by {
                assert(self@.dom().contains(self.entries@[idx[k]].0@));
                assert(self@[self.entries@[idx[k]].0@] == self.entries@[idx[k]].1);
            }
            assert forall|v: <T as View>::V|
                self@.dom().contains(v) && self@[v] == 1 implies exists|k: int|
                0 <= k < r@.len() && (#[trigger] r@[k])@ == v by {
                let j = choose|j: int| 0 <= j < self.entries@.len() && #[trigger] self.entries@[j].0@ == v;
                assert(self.entries@[j].1 == 1);
                assert(r@[pos[j]]@ == v);
            }
        }
        r
    }

    /// The frequency of a sample: its count divided by the total number of
    /// recorded outcomes, and zero when nothing has been recorded at all.
    pub fn freq(&self, sample: &T) -> (r: Probability)
        requires
            self.wf(),
        ensures
            r.wf(),
            self.n() == 0 ==> r == (Probability { num: 0u64, den: 1u64 }),
            self.n() != 0 ==> r.num == self.count_of(sample@) && r.den == self.n(),
    {
        if self.total == 0 {
            Probability::zero()
        } else {
            let c = self.count(sample);
            proof {
                lemma_counts_of_props(self.entries@);
                if self@.dom().contains(sample@) {
                    let i = choose|i: int|
                        0 <= i < self.entries@.len() && #[trigger] self.entries@[i].0@ == sample@;
                    lemma_count_le_sum(self.entries@, i);
                }
            }
            Probability { num: c as u64, den: self.total as u64 }
        }
    }

    /// A sample with the greatest count, or `None` when nothing has been
    /// recorded.  Among samples with equal greatest counts the choice is
    /// unspecified, but the result always attains the true maximum.
    pub fn max(&self) -> (r: Option<T>)
        requires
            self.wf(),
        ensures
            match r {
                None => self.bins() == 0,
                Some(s) => self.bins() != 0 && self@.dom().contains(s@) && forall|
                    v: <T as View>::V,
                |
                    self@.dom().contains(v) ==> self@[v] <= self@[s@],
            },
    {
        proof {
            lemma_counts_of_props(self.entries@);
        }
        if self.entries.len() == 0 {
            return None;
        }
        let mut best: usize = 0;
        let mut i: usize = 1;
        while i < self.entries.len()
            invariant
                self.wf(),
                best < i,
                i <= self.entries@.len(),
                forall|j: int|
                    0 <= j < i ==> (#[trigger] self.entries@[j]).1 <= self.entries@[best as int].1,
            decreases self.entries@.len() - i,
        {
            if self.entries[i].1 > self.entries[best].1 {
                best = i;
            }
            i = i + 1;
        }
        let s = self.entries[best].0.dup();
        proof {
            assert forall|v: <T as View>::V| self@.dom().contains(v) implies self@[v] <= self@[s@] by {
                let j = choose|j: int|
                    0 <= j < self.entries@.len() && #[trigger] self.entries@[j].0@ == v;
            }
        }
        Some(s)
    }

    /// All `(sample, count)` pairs whose count equals the target frequency
    /// `target`, in no particular order.  This supports smoothing schemes
    /// that need the distribution of frequencies of frequencies.
    #[allow(non_snake_case)]
    #[verifier::rlimit(50)]
    pub fn r_Nr(&self, target: usize) -> (pairs: Vec<(T, usize)>)
        requires
            self.wf(),
        ensures
            forall|k1: int, k2: int| 0 <= k1 < k2 < pairs@.len() ==> pairs@[k1].0@ != pairs@[k2].0@,
            forall|k: int|
                0 <= k < pairs@.len() ==> (#[trigger] pairs@[k]).1 == target && self@.dom().contains(
                    pairs@[k].0@,
                ) && self@[pairs@[k].0@] == target,
            forall|v: <T as View>::V|
                self@.dom().contains(v) && self@[v] == target ==> exists|k: int|
                    0 <= k < pairs@.len() && (#[trigger] pairs@[k]).0@ == v,
    {
        proof {
            lemma_counts_of_props(self.entries@);
        }
        let mut pairs: Vec<(T, usize)> = Vec::new();
        let ghost mut idx: Seq<int> = Seq::empty();
        let ghost mut pos: Map<int, int> = Map::empty();
        let mut i: usize = 0;
        while i < self.entries.len()
            invariant
                self.wf(),
                i <= self.entries@.len(),
                idx.len() == pairs@.len(),
                forall|k: int|
                    0 <= k < pairs@.len() ==> 0 <= #[trigger] idx[k] < i
                        && pairs@[k].0@ == self.entries@[idx[k]].0@
                        && pairs@[k].1 == target
                        && self.entries@[idx[k]].1 == target,
                forall|k1: int, k2: int| 0 <= k1 < k2 < pairs@.len() ==> idx[k1] < idx[k2],
                forall|j: int|
                    0 <= j < i && (#[trigger] self.entries@[j]).1 == target ==> pos.dom().contains(
                        j,
                    ) && 0 <= pos[j] < pairs@.len() && pairs@[pos[j]].0@ == self.entries@[j].0@,
            decreases self.entries@.len() - i,
        {
            if self.entries[i].1 == target {
                pairs.push((self.entries[i].0.dup(), target));
                proof {
                    idx = idx.push(i as int);
                    pos = pos.insert(i as int, pairs@.len() - 1);
                }
            }
            i = i + 1;
        }
        proof {
            assert forall|k1: int, k2: int| 0 <= k1 < k2 < pairs@.len() implies pairs@[k1].0@
                != pairs@[k2].0@ by {
                assert(key_views(self.entries@)[idx[k1]] == self.entries@[idx[k1]].0@);
                assert(key_views(self.entries@)[idx[k2]] == self.entries@[idx[k2]].0@);
            }
            assert forall|k: int|
                0 <= k < pairs@.len() implies (#[trigger] pairs@[k]).1 == target
                && self@.dom().contains(pairs@[k].0@) && self@[pairs@[k].0@] == target by {
                assert(self@.dom().contains(self.entries@[idx[k]].0@));
                assert(self@[self.entries@[idx[k]].0@] == self.entries@[idx[k]].1);
            }
            assert forall|v: <T as View>::V|
                self@.dom().contains(v) && self@[v] == target implies exists|k: int|
                0 <= k < pairs@.len() && (#[trigger] pairs@[k]).0@ == v by {
                let j = choose|j: int| 0 <= j < self.entries@.len() && #[trigger] self.entries@[j].0@ == v;
                assert(self.entries@[j].1 == target);
                assert(pairs@[pos[j]].0@ == v);
            }
        }
        pairs
    }

    /// All `(sample, count)` pairs recorded, in no particular order.
    pub fn list(&self) -> (pairs: Vec<(T, usize)>)
        requires
            self.wf(),
        ensures
            pairs@.len() == self.bins(),
            forall|k1: int, k2: int| 0 <= k1 < k2 < pairs@.len() ==> pairs@[k1].0@ != pairs@[k2].0@,
            forall|k: int|
                0 <= k < pairs@.len() ==> self@.dom().contains((#[trigger] pairs@[k]).0@)
                    && self@[pairs@[k].0@] == pairs@[k].1,
            forall|v: <T as View>::V|
                self@.dom().contains(v) ==> exists|k: int|
                    0 <= k < pairs@.len() && (#[trigger] pairs@[k]).0@ == v,
    {
        proof {
            lemma_counts_of_props(self.entries@);
        }
        let mut pairs: Vec<(T, usize)> = Vec::new();
        let mut i: usize = 0;
        while i < self.entries.len()
            invariant
                self.wf(),
                i <= self.entries@.len(),
                pairs@.len() == i,
                forall|k: int|
                    0 <= k < i ==> (#[trigger] pairs@[k]).0@ == self.entries@[k].0@ && pairs@[k].1
                        == self.entries@[k].1,
            decreases self.entries@.len() - i,
        {
            pairs.push((self.entries[i].0.dup(), self.entries[i].1));
            i = i + 1;
        }
        proof {
            assert forall|k1: int, k2: int| 0 <= k1 < k2 < pairs@.len() implies pairs@[k1].0@
                != pairs@[k2].0@ by {
                assert(key_views(self.entries@)[k1] == self.entries@[k1].0@);
                assert(key_views(self.entries@)[k2] == self.entries@[k2].0@);
            }
            assert forall|v: <T as View>::V| self@.dom().contains(v) implies exists|k: int|
                0 <= k < pairs@.len() && (#[trigger] pairs@[k]).0@ == v by {
                let j = choose|j: int| 0 <= j < self.entries@.len() && #[trigger] self.entries@[j].0@ == v;
                assert(pairs@[j].0@ == v);
            }
        }
        pairs
    }

    /// All recorded samples, in no particular order.
    pub fn list_keys(&self) -> (keys: Vec<T>)
        requires
            self.wf(),
        ensures
            keys@.len() == self.bins(),
            forall|k1: int, k2: int| 0 <= k1 < k2 < keys@.len() ==> keys@[k1]@ != keys@[k2]@,
            forall|k: int| 0 <= k < keys@.len() ==> self@.dom().contains((#[trigger] keys@[k])@),
            forall|v: <T as View>::V|
                self@.dom().contains(v) ==> exists|k: int|
                    0 <= k < keys@.len() && (#[trigger] keys@[k])@ == v,
    {
        proof {
            lemma_counts_of_props(self.entries@);
        }
        let mut keys: Vec<T> = Vec::new();
        let mut i: usize = 0;
        while i < self.entries.len()
            invariant
                self.wf(),
                i <= self.entries@.len(),
                keys@.len() == i,
                forall|k: int| 0 <= k < i ==> (#[trigger] keys@[k])@ == self.entries@[k].0@,
            decreases self.entries@.len() - i,
        {
            keys.push(self.entries[i].0.dup());
            i = i + 1;
        }
        proof {
            assert forall|k1: int, k2: int| 0 <= k1 < k2 < keys@.len() implies keys@[k1]@
                != keys@[k2]@ by {
                assert(key_views(self.entries@)[k1] == self.entries@[k1].0@);
                assert(key_views(self.entries@)[k2] == self.entries@[k2].0@);
            }
            assert forall|v: <T as View>::V| self@.dom().contains(v) implies exists|k: int|
                0 <= k < keys@.len() && (#[trigger] keys@[k])@ == v by {
                let j = choose|j: int| 0 <= j < self.entries@.len() && #[trigger] self.entries@[j].0@ == v;
                assert(keys@[j]@ == v);
            }
        }
        keys
    }
}

impl<T: Sample> Default for FreqDist<T> {
    /// An empty frequency distribution.
    fn default() -> (r: Self)
        ensures
            r.wf(),
            r@ == Map::<<T as View>::V, nat>::empty(),
            r.n() == 0,
            r.bins() == 0,
    {
        FreqDist::new()
    }
}

/// With distinct keys the counts map has exactly one key per entry.
proof fn lemma_counts_of_dom<T: Sample>(s: Seq<(T, usize)>)
    requires
        distinct_keys(s),
    ensures
        counts_of(s).dom() == key_views(s).to_set(),
        counts_of(s).dom().len() == s.len(),
    decreases s.len(),
{
    broadcast use vstd::set::group_set_axioms;

    if s.len() == 0 {
        assert(counts_of(s).dom() =~= key_views(s).to_set());
        assert(counts_of(s).dom() =~= Set::<<T as View>::V>::empty());
    } else {
        assert(distinct_keys(s.drop_last())) by {
            assert forall|i: int, j: int| 0 <= i < j < s.drop_last().len() implies
                key_views(s.drop_last())[i] != key_views(s.drop_last())[j] by {
                assert(key_views(s)[i] == key_views(s.drop_last())[i]);
                assert(key_views(s)[j] == key_views(s.drop_last())[j]);
            }
        }
        lemma_counts_of_dom(s.drop_last());
        assert(key_views(s).drop_last() =~= key_views(s.drop_last()));
        assert(key_views(s) =~= key_views(s).drop_last().push(key_views(s).last()));
        key_views(s).drop_last().lemma_push_to_set_commute(key_views(s).last());
        assert(key_views(s).to_set() =~= key_views(s).drop_last().to_set().insert(
            key_views(s).last(),
        ));
        assert(counts_of(s).dom() =~= counts_of(s.drop_last()).dom().insert(s.last().0@));
        assert(!counts_of(s.drop_last()).dom().contains(s.last().0@)) by {
            lemma_counts_of_props(s.drop_last());
            if counts_of(s.drop_last()).dom().contains(s.last().0@) {
                let i = choose|i: int|
                    0 <= i < s.drop_last().len() && #[trigger] s.drop_last()[i].0@ == s.last().0@;
                assert(key_views(s)[i] == s.last().0@);
                assert(key_views(s)[s.len() - 1] == s.last().0@);
            }
        }
    }
}

/// Law: every recorded outcome has a positive count — a sample with count
/// zero is never stored, so it is indistinguishable from an absent one.
pub proof fn lemma_counts_positive<T: Sample>(fd: &FreqDist<T>)
    requires
        fd.wf(),
    ensures
        forall|v: <T as View>::V| fd@.dom().contains(v) ==> #[trigger] fd@[v] >= 1,
{
    lemma_counts_of_props(fd.entries@);
    assert forall|v: <T as View>::V| fd@.dom().contains(v) implies #[trigger] fd@[v] >= 1 by {
        let i = choose|i: int| 0 <= i < fd.entries@.len() && #[trigger] fd.entries@[i].0@ == v;
        assert(fd.entries@[i].1 >= 1);
    }
}

/// Law: the number of bins is the number of distinct outcomes recorded.
pub proof fn lemma_bins_is_distinct_count<T: Sample>(fd: &FreqDist<T>)
    requires
        fd.wf(),
    ensures
        fd.bins() == fd@.dom().len(),
{
    lemma_counts_of_dom(fd.entries@);
}

/// The index of the first occurrence of `v` in `s`, or `-1` if absent.
pub open spec fn first_index<A>(s: Seq<A>, v: A) -> int
    decreases s.len(),
{
    if s.len() == 0 {
        -1
    } else if s[0] == v {
        0
    } else {
        let r = first_index(s.drop_first(), v);
        if r < 0 {
            -1
        } else {
            r + 1
        }
    }
}

/// `first_index` finds the first occurrence when there is one.
pub proof fn lemma_first_index<A>(s: Seq<A>, v: A)
    ensures
        s.contains(v) ==> 0 <= first_index(s, v) < s.len() && s[first_index(s, v)] == v,
        s.contains(v) ==> forall|i: int| 0 <= i < first_index(s, v) ==> s[i] != v,
        !s.contains(v) ==> first_index(s, v) == -1,
    decreases s.len(),
{
    if s.len() > 0 {
        lemma_first_index(s.drop_first(), v);
        if s[0] == v {
        } else {
            assert forall|w: A| s.drop_first().contains(w) implies s.contains(w) by {
                let i = choose|i: int| 0 <= i < s.drop_first().len() && s.drop_first()[i] == w;
                assert(s[i + 1] == w);
            }
            if s.contains(v) {
                let i = choose|i: int| 0 <= i < s.len() && s[i] == v;
                assert(s.drop_first()[i - 1] == v);
                assert forall|j: int| 0 <= j < first_index(s, v) implies s[j] != v by {
                    if j > 0 {
                        assert(s.drop_first()[j - 1] == s[j]);
                    }
                }
            }
        }
    }
}

/// In a run without repeats, the first occurrence of `s[i]` is `i`.
pub proof fn lemma_first_index_distinct<A>(s: Seq<A>, i: int)
    requires
        0 <= i < s.len(),
        forall|k1: int, k2: int| 0 <= k1 < k2 < s.len() ==> s[k1] != s[k2],
    ensures
        first_index(s, s[i]) == i,
{
    lemma_first_index(s, s[i]);
    assert(s.contains(s[i]));
    let f = first_index(s, s[i]);
    if f < i {
        assert(s[f] != s[i]);
    }
}

/// The sum of a run of weights.
pub open spec fn sum_weights(ws: Seq<nat>) -> nat
    decreases ws.len(),
{
    if ws.len() == 0 {
        0
    } else {
        sum_weights(ws.drop_last()) + ws.last()
    }
}

/// The sum of the first `k` weights of a run.
pub open spec fn cum_weight(ws: Seq<nat>, k: int) -> nat
    decreases k,
{
    if k <= 0 {
        0
    } else {
        cum_weight(ws, k - 1) + if k - 1 < ws.len() {
            ws[k - 1]
        } else {
            0
        }
    }
}

/// The cumulative weight never exceeds the total sum.
proof fn lemma_cum_le_sum(ws: Seq<nat>, k: int)
    requires
        0 <= k <= ws.len(),
    ensures
        cum_weight(ws, k) <= sum_weights(ws),
    decreases ws.len(),
{
    if ws.len() > 0 {
        if k == ws.len() {
            lemma_cum_sum_all(ws);
        } else {
            lemma_cum_le_sum(ws.drop_last(), k);
            lemma_cum_prefix(ws.drop_last(), ws.last(), k);
            assert(ws =~= ws.drop_last().push(ws.last()));
        }
    }
}

/// Summing all weights by prefix or by last element agrees.
proof fn lemma_cum_sum_all(ws: Seq<nat>)
    ensures
        cum_weight(ws, ws.len() as int) == sum_weights(ws),
    decreases ws.len(),
{
    if ws.len() > 0 {
        lemma_cum_sum_all(ws.drop_last());
        lemma_cum_prefix(ws.drop_last(), ws.last(), ws.len() - 1);
        assert(ws =~= ws.drop_last().push(ws.last()));
        assert(cum_weight(ws, ws.len() as int) == cum_weight(ws, ws.len() - 1) + ws[ws.len() - 1]);
    }
}

/// A cumulative sum over a prefix ignores a pushed element.
proof fn lemma_cum_prefix(ws: Seq<nat>, w: nat, k: int)
    requires
        0 <= k <= ws.len(),
    ensures
        cum_weight(ws.push(w), k) == cum_weight(ws, k),
    decreases k,
{
    if k > 0 {
        lemma_cum_prefix(ws, w, k - 1);
    }
}

/// A probability distribution for the outcomes of an experiment: it
/// specifies how likely it is that an experiment will have any given
/// outcome.  Every estimator exposes a finite support (the samples with
/// nonzero probability, in a fixed enumeration order), a weight for each
/// support element, and a common denominator; the probability of a sample
/// is its weight over that denominator, and zero outside the support.
pub trait ProbDistI<T: Sample>: Sized {
    /// The views of the samples with nonzero probability, in the fixed
    /// enumeration order of this estimator.
    spec fn spec_samples(&self) -> Seq<<T as View>::V>;

    /// The probability numerator of each support element.
    spec fn spec_weights(&self) -> Seq<nat>;

    /// The common probability denominator.
    spec fn spec_den(&self) -> nat;

    /// The probability of a sample: its weight over the common
    /// denominator, and zero for samples outside the support.
    fn prob(&self, sample: &T) -> (r: Probability)
        requires
            support_wf(self.spec_samples(), self.spec_weights(), self.spec_den()),
        ensures
            r.wf(),
            r.den == self.spec_den(),
            r.num == support_weight(self.spec_samples(), self.spec_weights(), sample@);

    /// A sample with the greatest probability, or `None` when the support
    /// is empty.  Among equally probable samples the choice is
    /// unspecified, but the result always attains the true maximum.
    fn max(&self) -> (r: Option<T>)
        requires
            support_wf(self.spec_samples(), self.spec_weights(), self.spec_den()),
        ensures
            match r {
                None => self.spec_samples().len() == 0,
                Some(s) => self.spec_samples().contains(s@) && forall|v: <T as View>::V|
                    #[trigger] support_weight(self.spec_samples(), self.spec_weights(), v)
                        <= support_weight(self.spec_samples(), self.spec_weights(), s@),
            };

    /// All samples with nonzero probability, in the fixed enumeration
    /// order of this estimator.
    fn samples(&self) -> (r: Vec<T>)
        requires
            support_wf(self.spec_samples(), self.spec_weights(), self.spec_den()),
        ensures
            r@.len() == self.spec_samples().len(),
            forall|i: int| 0 <= i < r@.len() ==> (#[trigger] r@[i])@ == self.spec_samples()[i],
    ;
}

/// Well-formedness of a probability distribution's support: the support
/// has no repeats and one positive weight per element, the denominator is
/// positive and representable, and the weights total at most the
/// denominator (so each probability lies in `[0, 1]`).
pub open spec fn support_wf<A>(samples: Seq<A>, weights: Seq<nat>, den: nat) -> bool {
    &&& weights.len() == samples.len()
    &&& forall|i: int, j: int| 0 <= i < j < samples.len() ==> samples[i] != samples[j]
    &&& forall|i: int| 0 <= i < weights.len() ==> #[trigger] weights[i] >= 1
    &&& 1 <= den <= u64::MAX
    &&& sum_weights(weights) <= den
}

/// The probability numerator of an arbitrary sample: the weight of its
/// support element, or zero when it is outside the support.
pub open spec fn support_weight<A>(samples: Seq<A>, weights: Seq<nat>, v: A) -> nat {
    if samples.contains(v) {
        weights[first_index(samples, v)]
    } else {
        0
    }
}

/// Well-formedness of a probability distribution (see [`support_wf`]).
pub open spec fn dist_wf<T: Sample, D: ProbDistI<T>>(d: &D) -> bool {
    support_wf(d.spec_samples(), d.spec_weights(), d.spec_den())
}

/// The probability numerator of an arbitrary sample under a distribution.
pub open spec fn weight_of<T: Sample, D: ProbDistI<T>>(d: &D, v: <T as View>::V) -> nat {
    support_weight(d.spec_samples(), d.spec_weights(), v)
}

/// Whether the probabilities of a distribution sum to exactly one.
pub open spec fn sums_to_one<T: Sample, D: ProbDistI<T>>(d: &D) -> bool {
    sum_weights(d.spec_weights()) == d.spec_den()
}

/// The weight of the `i`-th support element is `spec_weights()[i]`.
pub proof fn lemma_weight_at<T: Sample, D: ProbDistI<T>>(d: &D, i: int)
    requires
        dist_wf(d),
        0 <= i < d.spec_samples().len(),
    ensures
        weight_of(d, d.spec_samples()[i]) == d.spec_weights()[i],
{
    assert(d.spec_samples().contains(d.spec_samples()[i]));
    lemma_first_index_distinct(d.spec_samples(), i);
}

/// The run obtained by collapsing duplicates, keeping the first
/// occurrence of each value in order.
pub open spec fn dedup_views<A>(s: Seq<A>) -> Seq<A>
    decreases s.len(),
{
    if s.len() == 0 {
        Seq::empty()
    } else {
        let d = dedup_views(s.drop_last());
        if d.contains(s.last()) {
            d
        } else {
            d.push(s.last())
        }
    }
}

/// Collapsing duplicates keeps exactly the values of the original run,
/// without repeats.
pub proof fn lemma_dedup_views<A>(s: Seq<A>)
    ensures
        forall|i: int, j: int|
            0 <= i < j < dedup_views(s).len() ==> dedup_views(s)[i] != dedup_views(s)[j],
        forall|v: A| dedup_views(s).contains(v) <==> s.contains(v),
        dedup_views(s).len() <= s.len(),
    decreases s.len(),
{
    if s.len() > 0 {
        lemma_dedup_views(s.drop_last());
        let d = dedup_views(s.drop_last());
        assert forall|v: A| dedup_views(s).contains(v) implies s.contains(v) by {
            let k = choose|k: int| 0 <= k < dedup_views(s).len() && dedup_views(s)[k] == v;
            if k < d.len() {
                assert(d[k] == v);
                assert(d.contains(v));
                assert(s.drop_last().contains(v));
                let i = choose|i: int| 0 <= i < s.drop_last().len() && s.drop_last()[i] == v;
                assert(s.drop_last()[i] == s[i]);
                assert(s[i] == v);
                assert(s.contains(v));
            } else {
                assert(dedup_views(s)[k] == s.last());
                assert(s[s.len() - 1] == v);
                assert(s.contains(v));
            }
        }
        assert forall|v: A| s.contains(v) implies dedup_views(s).contains(v) by {
            let i = choose|i: int| 0 <= i < s.len() && s[i] == v;
            if i < s.len() - 1 {
                assert(s.drop_last()[i] == v);
                assert(s.drop_last().contains(v));
                assert(d.contains(v));
                if !d.contains(s.last()) {
                    let j = choose|j: int| 0 <= j < d.len() && d[j] == v;
                    assert(dedup_views(s)[j] == v);
                }
            } else {
                if d.contains(s.last()) {
                } else {
                    assert(dedup_views(s)[d.len() as int] == v);
                }
            }
        }
    }
}

/// Find the entry of `support` holding the given sample, if any; the
/// result is the first occurrence.
fn find_sample<T: Sample>(support: &Vec<T>, sample: &T) -> (r: Option<usize>)
    ensures
        match r {
            Some(i) => sample_views(support@).contains(sample@) && i == first_index(
                sample_views(support@),
                sample@,
            ) && i < support@.len(),
            None => !sample_views(support@).contains(sample@),
        },
{
    let mut i: usize = 0;
    while i < support.len()
        invariant
            i <= support@.len(),
            forall|j: int| 0 <= j < i ==> sample_views(support@)[j] != sample@,
        decreases support@.len() - i,
    {
        if support[i].sample_eq(sample) {
            proof {
                let sv = sample_views(support@);
                assert(sv[i as int] == sample@);
                assert(sv.contains(sample@));
                lemma_first_index(sv, sample@);
                let f = first_index(sv, sample@);
                if f < i {
                    assert(sv[f] != sample@);
                }
                if f > i {
                    assert(sv[i as int] != sample@);
                }
            }
            return Some(i);
        }
        i = i + 1;
    }
    proof {
        let sv = sample_views(support@);
        if sv.contains(sample@) {
            let j = choose|j: int| 0 <= j < sv.len() && sv[j] == sample@;
            assert(sv[j] != sample@);
        }
    }
    None
}

/// The sum of a run of unit weights is its length.
proof fn lemma_sum_ones(n: nat)
    ensures
        sum_weights(Seq::new(n, |i: int| 1nat)) == n,
    decreases n,
{
    if n > 0 {
        lemma_sum_ones((n - 1) as nat);
        assert(Seq::new(n, |i: int| 1nat).drop_last() =~= Seq::new((n - 1) as nat, |i: int| 1nat));
    }
}

/// A probability distribution that assigns equal probability to each
/// sample in a given set, and zero probability to every other sample.
/// It is immutable after construction.
#[derive(Debug, Clone)]
pub struct UniformProbDist<T: Sample> {
    support: Vec<T>,
}

impl<T: Sample> UniformProbDist<T> {
    /// Construct a uniform probability distribution over the given
    /// samples, collapsing duplicates; each first occurrence keeps its
    /// place in the enumeration order.
    pub fn new(samples: &Vec<T>) -> (r: Self)
        ensures
            dist_wf(&r),
            r.spec_samples() == dedup_views(sample_views(samples@)),
    {
        let mut support: Vec<T> = Vec::new();
        let mut i: usize = 0;
        proof {
            lemma_dedup_views(sample_views(samples@).take(0));
            assert(sample_views(support@) =~= dedup_views(sample_views(samples@).take(0)));
        }
        while i < samples.len()
            invariant
                i <= samples@.len(),
                sample_views(support@) == dedup_views(sample_views(samples@).take(i as int)),
            decreases samples@.len() - i,
        {
            let ghost sv = sample_views(samples@);
            proof {
                assert(sv.take(i + 1).drop_last() =~= sv.take(i as int));
                assert(sv.take(i + 1).last() == sv[i as int]);
                assert(sv[i as int] == samples@[i as int]@);
            }
            match find_sample(&support, &samples[i]) {
                Some(_at) => {
                    proof {
                        assert(dedup_views(sv.take(i + 1)) == dedup_views(sv.take(i as int)));
                    }
                },
                None => {
                    support.push(samples[i].dup());
                    proof {
                        assert(sample_views(support@) =~= dedup_views(
                            sv.take(i as int),
                        ).push(sv[i as int]));
                    }
                },
            }
            i = i + 1;
        }
        proof {
            assert(sample_views(samples@).take(samples@.len() as int) =~= sample_views(samples@));
            lemma_dedup_views(sample_views(samples@));
            lemma_sum_ones(support@.len() as nat);
        }
        UniformProbDist { support }
    }
}

impl<T: Sample> ProbDistI<T> for UniformProbDist<T> {
    closed spec fn spec_samples(&self) -> Seq<<T as View>::V> {
        sample_views(self.support@)
    }

    closed spec fn spec_weights(&self) -> Seq<nat> {
        Seq::new(self.support@.len() as nat, |i: int| 1nat)
    }

    closed spec fn spec_den(&self) -> nat {
        if self.support@.len() == 0 {
            1nat
        } else {
            self.support@.len() as nat
        }
    }

    fn prob(&self, sample: &T) -> (r: Probability) {
        match find_sample(&self.support, sample) {
            Some(_at) => Probability { num: 1, den: self.support.len() as u64 },
            None => {
                let den = if self.support.len() == 0 {
                    1
                } else {
                    self.support.len() as u64
                };
                Probability { num: 0, den }
            },
        }
    }

    fn max(&self) -> (r: Option<T>) {
        if self.support.len() == 0 {
            None
        } else {
            let s = self.support[0].dup();
            proof {
                let sv = sample_views(self.support@);
                assert(sv[0] == s@);
                assert(first_index(sv, sv[0]) == 0);
                assert(sv.contains(s@));
                assert forall|v: <T as View>::V|
                    #[trigger] support_weight(sv, self.spec_weights(), v) <= support_weight(
                        sv,
                        self.spec_weights(),
                        s@,
                    ) by {
                    if sv.contains(v) {
                        lemma_first_index(sv, v);
                    }
                }
            }
            Some(s)
        }
    }

    fn samples(&self) -> (r: Vec<T>) {
        let mut r: Vec<T> = Vec::new();
        let mut i: usize = 0;
        while i < self.support.len()
            invariant
                i <= self.support@.len(),
                r@.len() == i,
                forall|j: int| 0 <= j < i ==> (#[trigger] r@[j])@ == sample_views(self.support@)[j],
            decreases self.support@.len() - i,
        {
            r.push(self.support[i].dup());
            i = i + 1;
        }
        r
    }
}

/// Copying the counts of entries into weights preserves their sum.
proof fn lemma_sum_weights_counts<T: Sample>(s: Seq<(T, usize)>)
    ensures
        sum_weights(s.map_values(|e: (T, usize)| e.1 as nat)) == sum_counts(s),
    decreases s.len(),
{
    if s.len() > 0 {
        lemma_sum_weights_counts(s.drop_last());
        assert(s.map_values(|e: (T, usize)| e.1 as nat).drop_last() =~= s.drop_last().map_values(
            |e: (T, usize)| e.1 as nat,
        ));
    }
}

/// Each single weight is no more than the sum of all weights.
proof fn lemma_weight_le_sum(ws: Seq<nat>, i: int)
    requires
        0 <= i < ws.len(),
    ensures
        ws[i] <= sum_weights(ws),
    decreases ws.len(),
{
    if i < ws.len() - 1 {
        assert(ws.drop_last()[i] == ws[i]);
        lemma_weight_le_sum(ws.drop_last(), i);
    }
}

/// An empirical probability distribution derived from a frequency
/// distribution: each recorded sample has probability `count / N`, where
/// `N` is the total number of recorded outcomes.  The source distribution
/// is copied at construction time and never mutated.
#[derive(Debug, Clone)]
pub struct DerivedProbDist<T: Sample> {
    support: Vec<T>,
    weights: Vec<usize>,
    total: usize,
}

impl<T: Sample> DerivedProbDist<T> {
    /// Construct an empirical distribution from a frequency distribution.
    ///
    /// Policy for zero observations: when `fd.N() == 0` there is no
    /// empirical estimate (`count / N` is undefined), so construction is
    /// refused with [`InternalError::ValueError`]; it succeeds on every
    /// other source.  The probabilities of a successfully constructed
    /// distribution always sum to exactly one.
    pub fn new(fd: &FreqDist<T>) -> (r: Result<Self, InternalError>)
        requires
            fd.wf(),
        ensures
            match r {
                Err(e) => fd.n() == 0 && e == InternalError::ValueError,
                Ok(d) => fd.n() != 0 && dist_wf(&d) && d.spec_den() == fd.n() && sums_to_one(&d)
                    && forall|v: <T as View>::V| #[trigger] weight_of(&d, v) == fd.count_of(v),
            },
    {
        if fd.N() == 0 {
            return Err(InternalError::ValueError);
        }
        let mut support: Vec<T> = Vec::new();
        let mut weights: Vec<usize> = Vec::new();
        let mut i: usize = 0;
        while i < fd.entries.len()
            invariant
                i <= fd.entries@.len(),
                support@.len() == i,
                weights@.len() == i,
                forall|k: int|
                    0 <= k < i ==> (#[trigger] support@[k])@ == fd.entries@[k].0@ && weights@[k]
                        == fd.entries@[k].1,
            decreases fd.entries@.len() - i,
        {
            support.push(fd.entries[i].0.dup());
            weights.push(fd.entries[i].1);
            i = i + 1;
        }
        let d = DerivedProbDist { support, weights, total: fd.N() };
        proof {
            let sv = sample_views(d.support@);
            let ws = d.spec_weights();
            lemma_counts_of_props(fd.entries@);
            assert forall|k: int| 0 <= k < sv.len() implies fd@.dom().contains(#[trigger] sv[k])
                && fd@[sv[k]] == ws[k] by {
                assert(sv[k] == fd.entries@[k].0@);
                assert(ws[k] == fd.entries@[k].1 as nat);
            }
            // the support has no repeats
            assert forall|k1: int, k2: int| 0 <= k1 < k2 < sv.len() implies sv[k1] != sv[k2] by {
                assert(key_views(fd.entries@)[k1] == fd.entries@[k1].0@);
                assert(key_views(fd.entries@)[k2] == fd.entries@[k2].0@);
                assert(sv[k1] == fd.entries@[k1].0@);
                assert(sv[k2] == fd.entries@[k2].0@);
            }
            // the weights are the entry counts, so they sum to the total
            assert(ws =~= fd.entries@.map_values(|e: (T, usize)| e.1 as nat)) by {
                assert forall|k: int| 0 <= k < ws.len() implies ws[k] == fd.entries@.map_values(
                    |e: (T, usize)| e.1 as nat,
                )[k] by {
                    assert(d.support@[k]@ == fd.entries@[k].0@);
                    assert(ws[k] == d.weights@[k] as nat);
                    assert(d.weights@[k] == fd.entries@[k].1);
                }
            }
            lemma_sum_weights_counts(fd.entries@);
            assert forall|v: <T as View>::V| #[trigger] support_weight(sv, ws, v) == fd.count_of(
                v,
            ) by {
                if sv.contains(v) {
                    lemma_first_index(sv, v);
                    let f = first_index(sv, v);
                    assert(fd.entries@[f].0@ == v);
                } else {
                    if fd@.dom().contains(v) {
                        let j = choose|j: int|
                            0 <= j < fd.entries@.len() && #[trigger] fd.entries@[j].0@ == v;
                        assert(sv[j] == v);
                        assert(sv.contains(v));
                    }
                }
            }
        }
        Ok(d)
    }
}

impl<T: Sample> ProbDistI<T> for DerivedProbDist<T> {
    closed spec fn spec_samples(&self) -> Seq<<T as View>::V> {
        sample_views(self.support@)
    }

    closed spec fn spec_weights(&self) -> Seq<nat> {
        self.weights@.map_values(|w: usize| w as nat)
    }

    closed spec fn spec_den(&self) -> nat {
        self.total as nat
    }

    fn prob(&self, sample: &T) -> (r: Probability) {
        match find_sample(&self.support, sample) {
            Some(at) => {
                proof {
                    lemma_weight_le_sum(self.spec_weights(), at as int);
                }
                Probability { num: self.weights[at] as u64, den: self.total as u64 }
            },
            None => Probability { num: 0, den: self.total as u64 },
        }
    }

    fn max(&self) -> (r: Option<T>) {
        if self.support.len() == 0 {
            return None;
        }
        let mut best: usize = 0;
        let mut i: usize = 1;
        while i < self.support.len()
            invariant
                self.weights@.len() == self.support@.len(),
                best < i,
                i <= self.support@.len(),
                forall|j: int| 0 <= j < i ==> (#[trigger] self.weights@[j]) <= self.weights@[best as int],
            decreases self.support@.len() - i,
        {
            if self.weights[i] > self.weights[best] {
                best = i;
            }
            i = i + 1;
        }
        let s = self.support[best].dup();
        proof {
            let sv = self.spec_samples();
            let ws = self.spec_weights();
            assert(sv[best as int] == s@);
            assert(sv.contains(s@));
            lemma_first_index_distinct(sv, best as int);
            assert forall|v: <T as View>::V|
                #[trigger] support_weight(sv, ws, v) <= support_weight(sv, ws, s@) by {
                if sv.contains(v) {
                    lemma_first_index(sv, v);
                }
            }
        }
        Some(s)
    }

    fn samples(&self) -> (r: Vec<T>) {
        let mut r: Vec<T> = Vec::new();
        let mut i: usize = 0;
        while i < self.support.len()
            invariant
                i <= self.support@.len(),
                r@.len() == i,
                forall|j: int| 0 <= j < i ==> (#[trigger] r@[j])@ == sample_views(self.support@)[j],
            decreases self.support@.len() - i,
        {
            r.push(self.support[i].dup());
            i = i + 1;
        }
        r
    }
}

/// The product of two values bounded by `u64::MAX` fits in a `u128`.
pub(crate) proof fn lemma_mul_u64_fits(a: int, b: int)
    requires
        0 <= a <= u64::MAX as int,
        0 <= b <= u64::MAX as int,
    ensures
        a * b <= u128::MAX as int,
{
    assert(a * b <= u128::MAX as int) by (nonlinear_arith)
        requires
            0 <= a <= u64::MAX as int,
            0 <= b <= u64::MAX as int,
    ;
}

/// The probability of a sample when it is nonzero, and `None` when it is
/// zero.  The base-2 logarithm of a probability is defined exactly when
/// the probability is positive, so a caller computing log-probabilities
/// takes the rational returned here and never sees a silent log of zero.
///
/// Law: the result is `Some` if and only if the sample's probability is
/// nonzero, and it then carries exactly that probability.
pub fn nonzero_prob<T: Sample, D: ProbDistI<T>>(dist: &D, sample: &T) -> (r: Option<Probability>)
    requires
        dist_wf(dist),
    ensures
        match r {
            None => weight_of(dist, sample@) == 0,
            Some(p) => p.wf() && p.num == weight_of(dist, sample@) && p.num > 0 && p.den
                == dist.spec_den(),
        },
{
    let p = dist.prob(sample);
    if p.is_zero() {
        None
    } else {
        Some(p)
    }
}

/// The ratio by which counts are discounted on average.  Estimators that
/// apply no smoothing — the uniform and raw empirical ones — discount by
/// exactly zero.
pub fn discount<T: Sample, D: ProbDistI<T>>(dist: &D) -> (r: Probability)
    requires
        dist_wf(dist),
    ensures
        r == (Probability { num: 0u64, den: 1u64 }),
{
    let _ = dist;
    Probability::zero()
}

/// The index of the sample that a draw selects: the first index `j` whose
/// cumulative probability reaches the draw (the running remainder of the
/// draw drops to or below zero there), or `-1` when the scan runs off the
/// end of the support.
pub open spec fn generate_index(ws: Seq<nat>, den: nat, p: Probability, j: int) -> int
    decreases ws.len() - j,
{
    if j < 0 || j >= ws.len() {
        -1
    } else if cum_weight(ws, j + 1) * p.den >= p.num * den {
        j
    } else {
        generate_index(ws, den, p, j + 1)
    }
}

/// Draw one sample from a distribution, so that each sample is returned
/// with its own probability.  The caller supplies `draw`, one uniform
/// random rational in `[0, 1)`, and `fallback`, one uniform random index
/// used only on the escape path.  The samples are scanned in the fixed
/// enumeration order, subtracting each sample's probability from the
/// draw; the first sample where the remainder drops to or below zero is
/// returned.  With exact rationals the scan can only run off the end when
/// the probabilities sum to less than one; then a sample is picked
/// uniformly by the fallback index instead of failing.  Returns `None`
/// exactly when the support is empty.
pub fn generate<T: Sample, D: ProbDistI<T>>(dist: &D, draw: Probability, fallback: usize) -> (r:
    Option<T>)
    requires
        dist_wf(dist),
        draw.wf(),
        draw.num < draw.den,
    ensures
        match r {
            None => dist.spec_samples().len() == 0,
            Some(s) => {
                let j = generate_index(dist.spec_weights(), dist.spec_den(), draw, 0);
                dist.spec_samples().len() > 0 && s@ == dist.spec_samples()[
                    if j >= 0 {
                        j
                    } else {
                        (fallback as int) % (dist.spec_samples().len() as int)
                    }
                ]
            },
        },
{
    let smpl = dist.samples();
    if smpl.len() == 0 {
        return None;
    }
    let ghost ws = dist.spec_weights();
    let ghost den = dist.spec_den();
    let mut cum: u64 = 0;
    let mut j: usize = 0;
    while j < smpl.len()
        invariant
            dist_wf(dist),
            draw.wf(),
            draw.num < draw.den,
            ws == dist.spec_weights(),
            den == dist.spec_den(),
            smpl@.len() == dist.spec_samples().len(),
            smpl@.len() > 0,
            forall|i: int| 0 <= i < smpl@.len() ==> (#[trigger] smpl@[i])@ == dist.spec_samples()[i],
            j <= smpl@.len(),
            cum as nat == cum_weight(ws, j as int),
            cum as nat <= den,
            generate_index(ws, den, draw, 0) == generate_index(ws, den, draw, j as int),
        decreases smpl@.len() - j,
    {
        let pr = dist.prob(&smpl[j]);
        proof {
            lemma_weight_at(dist, j as int);
            lemma_cum_le_sum(ws, j + 1);
            assert(cum_weight(ws, j + 1) == cum_weight(ws, j as int) + ws[j as int]);
        }
        let ncum: u64 = cum + pr.num;
        proof {
            lemma_mul_u64_fits(ncum as int, draw.den as int);
            lemma_mul_u64_fits(draw.num as int, pr.den as int);
        }
        if (ncum as u128) * (draw.den as u128) >= (draw.num as u128) * (pr.den as u128) {
            proof {
                assert(cum_weight(ws, j + 1) * draw.den >= draw.num * den);
                assert(generate_index(ws, den, draw, j as int) == j as int);
            }
            return Some(smpl[j].dup());
        }
        cum = ncum;
        j = j + 1;
        proof {
            assert(cum_weight(ws, j as int) * draw.den < draw.num * den);
            assert(generate_index(ws, den, draw, j - 1) == generate_index(ws, den, draw, j as int));
        }
    }
    let at = fallback % smpl.len();
    proof {
        assert(generate_index(ws, den, draw, smpl@.len() as int) == -1);
    }
    Some(smpl[at].dup())
}

/// Law: probability normalization for a uniform distribution.  Every
/// sample in the support of size `k` has probability exactly `1 / k`
/// (weight one over denominator `k`), every other sample has probability
/// zero, and the probabilities over a nonempty support sum to exactly
/// one.
pub proof fn lemma_uniform_normalization<T: Sample>(d: &UniformProbDist<T>)
    requires
        dist_wf(d),
    ensures
        forall|v: <T as View>::V|
            d.spec_samples().contains(v) ==> #[trigger] weight_of(d, v) == 1,
        forall|v: <T as View>::V|
            !d.spec_samples().contains(v) ==> #[trigger] weight_of(d, v) == 0,
        d.spec_samples().len() > 0 ==> d.spec_den() == d.spec_samples().len() && sums_to_one(d),
{
    assert forall|v: <T as View>::V|
        d.spec_samples().contains(v) implies #[trigger] weight_of(d, v) == 1 by {
        lemma_first_index(d.spec_samples(), v);
    }
    if d.spec_samples().len() > 0 {
        lemma_sum_ones(d.spec_samples().len() as nat);
    }
}

/// Law: an empirical distribution derived from a frequency distribution
/// is normalized: its probabilities sum to exactly one, sample by sample
/// they are `count / N`, and samples never recorded have probability
/// zero.  This is stated by the constructor [`DerivedProbDist::new`]; the
/// lemma records the normalization consequence for any distribution whose
/// weights total its denominator: the probability numerators over the
/// support add up to exactly the common denominator.
pub proof fn lemma_sums_to_one_is_exact<T: Sample, D: ProbDistI<T>>(d: &D)
    requires
        dist_wf(d),
        sums_to_one(d),
    ensures
        sum_weights(d.spec_weights()) == d.spec_den(),
        cum_weight(d.spec_weights(), d.spec_samples().len() as int) == d.spec_den(),
{
    lemma_cum_sum_all(d.spec_weights());
}

/// Each single count is no more than the sum of all counts.
proof fn lemma_count_le_sum<T: Sample>(s: Seq<(T, usize)>, i: int)
    requires
        0 <= i < s.len(),
    ensures
        s[i].1 <= sum_counts(s),
    decreases s.len(),
{
    if i < s.len() - 1 {
        assert(s.drop_last()[i] == s[i]);
        lemma_count_le_sum(s.drop_last(), i);
    }
}

} // verus!
