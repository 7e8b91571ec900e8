//! Relations in the attribute-relation file format, and three ways of
//! classifying their instances.
//!
//! A relation is read from text ([`parser`]) into named columns of numbers
//! and names ([`data_set`]). For a decision tree the columns are first
//! reduced to bounded category codes, with a layout that can be replayed on
//! later data ([`id_3::ProcessedData`]); the tree is then induced from the
//! codes by always splitting on the attribute of least weighted entropy
//! ([`id_3::ID3`]), and queried instance by instance. What tree that is, and
//! what it answers, [`induction`] states as mathematics. The other two
//! classifiers work on the columns themselves: by the nearest neighbours
//! ([`knn`]) and by naive Bayes ([`naive_bayes`]).
//!
//! All arithmetic is exact. Numbers are read as millionths and held as
//! integers; entropies and probabilities are never rounded, but compared by
//! cross-multiplying natural numbers of any size ([`big_nat`]).
use vstd::prelude::*;

pub mod big_nat;
pub mod data_set;
pub mod discretize;
pub mod entropy;
pub mod error;
pub mod id_3;
pub mod induction;
pub mod knn;
pub mod naive_bayes;
pub mod parser;
pub mod tally;
pub mod test_statistics;

use crate::tally::{count, distinct, lemma_count_contains, lemma_distinct, Key, Tally};

verus! {

/// `swap` of slices exchanges the elements at the two places and leaves the
/// others; the standard library documents that it panics for a place outside
/// the slice.
pub assume_specification<X>[ <[X]>::swap ](slice: &mut [X], a: usize, b: usize)
    requires
        a < old(slice)@.len(),
        b < old(slice)@.len(),
    ensures
        final(slice)@ == old(slice)@.update(a as int, old(slice)@[b as int]).update(
            b as int,
            old(slice)@[a as int],
        ),
;

/// What is left of `items` when the element at `index` is replaced by the
/// last one and the last place is given up.
pub open spec fn without<T>(items: Seq<T>, index: int) -> Seq<T> {
    Seq::new(
        (items.len() - 1) as nat,
        |i: int|
            if i == index {
                items.last()
            } else {
                items[i]
            },
    )
}

/// `winner` occurs most often among `votes`, and is the greatest of the
/// values that occur that often.
pub open spec fn is_ordered_majority(votes: Seq<u32>, winner: u32) -> bool {
    &&& votes.contains(winner)
    &&& forall|x: u32| #[trigger] count(votes, x) <= count(votes, winner)
    &&& forall|x: u32| #[trigger] count(votes, x) == count(votes, winner) ==> x <= winner
}

/// The value that occurs most often among `votes`; among several such
/// values, the greatest.
pub open spec fn ordered_majority(votes: Seq<u32>) -> u32 {
    choose|winner: u32| is_ordered_majority(votes, winner)
}

/// No value occurs more often among `votes` than `winner`, which is one of
/// them.
pub open spec fn is_majority<T>(votes: Seq<T>, winner: T) -> bool {
    &&& votes.contains(winner)
    &&& forall|x: T| #[trigger] count(votes, x) <= count(votes, winner)
}

/// Among the first `upto` distinct values of `votes`, in the order of their
/// first occurrence, the place of the first one of greatest count.
pub open spec fn favourite_upto<T>(votes: Seq<T>, upto: nat) -> int
    decreases upto,
{
    if upto <= 1 {
        0
    } else {
        let earlier = favourite_upto(votes, (upto - 1) as nat);
        if count(votes, distinct(votes)[upto - 1]) > count(
            votes,
            distinct(votes)[earlier],
        ) {
            upto - 1
        } else {
            earlier
        }
    }
}

/// The value that occurs most often among `votes`; among several such
/// values, the one that occurs first.
pub open spec fn first_majority<T>(votes: Seq<T>) -> T {
    distinct(votes)[favourite_upto(votes, distinct(votes).len())]
}

/// At most one value is the ordered majority, so `ordered_majority` names it.
pub proof fn lemma_ordered_majority_unique(votes: Seq<u32>, winner: u32)
    requires
        is_ordered_majority(votes, winner),
    ensures
        ordered_majority(votes) == winner,
{
    let other = ordered_majority(votes);
    assert(is_ordered_majority(votes, other));
    assert(count(votes, other) <= count(votes, winner));
    assert(count(votes, winner) <= count(votes, other));
}

/// Moves the last element to `index` and returns the slice without its last
/// place; the element that was at `index` stays behind in that place.
pub fn swap_remove<T>(data: &mut [T], index: usize) -> (rest: &mut [T])
    requires
        index < old(data)@.len(),
    ensures
        rest@ == without(old(data)@, index as int),
        final(data)@ == final(rest)@.push(old(data)@[index as int]),
{
    let last: usize = data.len() - 1;
    data.swap(index, last);
    let (rest, tail) = data.split_at_mut(last);
    proof {
        assert(rest@ =~= without(old(data)@, index as int));
        assert(tail@ =~= seq![old(data)@[index as int]]);
        assert(final(tail)@ == tail@);
        assert(final(rest)@ + tail@ =~= final(rest)@.push(old(data)@[index as int]));
    }
    rest
}

/// Tells whether every element of `items` equals the first one.
pub fn all_equal(items: &[u32]) -> (same: bool)
    requires
        items@.len() > 0,
    ensures
        same == (forall|i: int| 0 <= i < items@.len() ==> #[trigger] items@[i] == items@[0]),
{
    let first: u32 = items[0];
    let mut i: usize = 1;
    while i < items.len()
        invariant
            1 <= i <= items@.len(),
            first == items@[0],
            forall|j: int| 0 <= j < i ==> #[trigger] items@[j] == first,
        decreases items@.len() - i,
    {
        if items[i] != first {
            return false;
        }
        i += 1;
    }
    true
}

/// Counts every vote.
fn tally_votes<T: Key>(votes: &[T]) -> (tally: Tally<T>)
    ensures
        tally.wf(),
        tally@ == votes@,
{
    let mut tally: Tally<T> = Tally::new();
    let mut i: usize = 0;
    while i < votes.len()
        invariant
            0 <= i <= votes@.len(),
            tally.wf(),
            tally@ == votes@.take(i as int),
        decreases votes@.len() - i,
    {
        tally.add(votes[i]);
        proof {
            assert(votes@.take(i + 1) =~= votes@.take(i as int).push(votes@[i as int]));
        }
        i += 1;
    }
    proof {
        assert(votes@.take(votes@.len() as int) =~= votes@);
    }
    tally
}

/// Returns the value with the most votes; among values with equally many,
/// the greatest.
pub fn majority_vote_ordered(votes: &[u32]) -> (winner: u32)
    requires
        votes@.len() > 0,
    ensures
        is_ordered_majority(votes@, winner),
        winner == ordered_majority(votes@),
{
    let tally = tally_votes(votes);
    let keys = tally.keys();
    let counts = tally.counts();
    proof {
        lemma_distinct(votes@);
        assert(votes@.contains(votes@[0]));
        assert(keys@.contains(votes@[0]));
    }
    let mut best: usize = 0;
    let mut j: usize = 1;
    while j < keys.len()
        invariant
            1 <= j <= keys@.len(),
            0 <= best < j,
            keys@ == distinct(votes@),
            counts@.len() == keys@.len(),
            forall|k: int| 0 <= k < counts@.len() ==> #[trigger] counts@[k] == count(votes@, keys@[k]),
            forall|k: int| 0 <= k < j ==> #[trigger] counts@[k] <= counts@[best as int],
            forall|k: int|
                0 <= k < j && #[trigger] counts@[k] == counts@[best as int] ==> keys@[k]
                    <= keys@[best as int],
        decreases keys@.len() - j,
    {
        if counts[j] > counts[best] || (counts[j] == counts[best] && keys[j] > keys[best]) {
            best = j;
        }
        j += 1;
    }
    let winner: u32 = keys[best];
    proof {
        lemma_distinct(votes@);
        assert(keys@.contains(winner));
        assert forall|x: u32| #[trigger] count(votes@, x) <= count(votes@, winner) && (count(
            votes@,
            x,
        ) == count(votes@, winner) ==> x <= winner) by {
            lemma_count_contains(votes@, x);
            lemma_count_contains(votes@, winner);
            if votes@.contains(x) {
                assert(keys@.contains(x));
                let k = choose|k: int| 0 <= k < keys@.len() && keys@[k] == x;
                assert(counts@[k] <= counts@[best as int]);
            }
        }
        lemma_ordered_majority_unique(votes@, winner);
    }
    winner
}

/// Returns the value with the most votes; among values with equally many,
/// the one that was voted for first.
pub fn majority_vote<T: Key>(votes: &[T]) -> (winner: T)
    requires
        votes@.len() > 0,
    ensures
        is_majority(votes@, winner),
        winner == first_majority(votes@),
{
    let tally = tally_votes(votes);
    let keys = tally.keys();
    let counts = tally.counts();
    proof {
        lemma_distinct(votes@);
        assert(votes@.contains(votes@[0]));
        assert(keys@.contains(votes@[0]));
    }
    let mut best: usize = 0;
    let mut j: usize = 1;
    while j < keys.len()
        invariant
            1 <= j <= keys@.len(),
            0 <= best < j,
            keys@ == distinct(votes@),
            counts@.len() == keys@.len(),
            forall|k: int| 0 <= k < counts@.len() ==> #[trigger] counts@[k] == count(votes@, keys@[k]),
            forall|k: int| 0 <= k < j ==> #[trigger] counts@[k] <= counts@[best as int],
            best == favourite_upto(votes@, j as nat),
        decreases keys@.len() - j,
    {
        if counts[j] > counts[best] {
            best = j;
        }
        j += 1;
    }
    let winner: T = keys[best];
    proof {
        lemma_distinct(votes@);
        assert(keys@.contains(winner));
        assert forall|x: T| #[trigger] count(votes@, x) <= count(votes@, winner) by {
            lemma_count_contains(votes@, x);
            lemma_count_contains(votes@, winner);
            if votes@.contains(x) {
                assert(keys@.contains(x));
                let k = choose|k: int| 0 <= k < keys@.len() && keys@[k] == x;
                assert(counts@[k] <= counts@[best as int]);
            }
        }
    }
    winner
}

} // verus!
