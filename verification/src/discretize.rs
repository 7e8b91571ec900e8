//! How a raw column becomes category codes, stated as mathematics.
//!
//! A layout is fitted to a column once and then replayed on any column of
//! the same attribute: numbers fall into buckets of equal width between the
//! least and the greatest number of the fitted column; names get the place
//! at which they first occurred in it.
use crate::data_set::Column;
use crate::tally::{count, distinct, first_index, lemma_count_bound, lemma_distinct};
use vstd::prelude::*;

verus! {

/// The rule by which the values of one attribute become category codes.
pub enum Layout {
    /// Numbers between `min` and `max` fall into `buckets` buckets of equal
    /// width.
    Numeric { min: i64, max: i64, buckets: u32 },
    /// The code of a name is its place in `values`.
    Nominal { values: Seq<Seq<char>> },
}

/// `root` is the square root of `n`, rounded down.
pub open spec fn is_floor_sqrt(n: nat, root: nat) -> bool {
    root * root <= n < (root + 1) * (root + 1)
}

/// The least of `values`, or zero if there is none.
pub open spec fn least(values: Seq<i64>) -> i64
    decreases values.len(),
{
    if values.len() == 0 {
        0
    } else if values.len() == 1 {
        values[0]
    } else if values.last() < least(values.drop_last()) {
        values.last()
    } else {
        least(values.drop_last())
    }
}

/// The greatest of `values`, or zero if there is none.
pub open spec fn greatest(values: Seq<i64>) -> i64
    decreases values.len(),
{
    if values.len() == 0 {
        0
    } else if values.len() == 1 {
        values[0]
    } else if values.last() > greatest(values.drop_last()) {
        values.last()
    } else {
        greatest(values.drop_last())
    }
}

/// The bucket of `value`: its distance from `min`, as a share of the
/// distance from `min` to `max`, times the number of buckets, rounded down
/// and then clamped to the first and the last bucket.
///
/// Where `min` and `max` are the same number, what lies above it falls into
/// the last bucket and everything else into the first. Without buckets the
/// code is zero.
pub open spec fn bucket(min: int, max: int, buckets: nat, value: int) -> int {
    if buckets == 0 {
        0
    } else if max == min {
        if value > min {
            buckets - 1
        } else {
            0
        }
    } else {
        let raw = ((value - min) * buckets) / (max - min);
        if raw < 0 {
            0
        } else if raw >= buckets {
            buckets - 1
        } else {
            raw
        }
    }
}

impl Layout {
    /// The layout is the one fitted to `column`: for numbers, their least
    /// and greatest and as many buckets as the square root of their number,
    /// rounded down; for names, the distinct names in the order of first
    /// occurrence.
    pub open spec fn fitted_to(self, column: Column) -> bool {
        match (self, column) {
            (Layout::Numeric { min, max, buckets }, Column::Numeric(values)) => {
                &&& min == least(values)
                &&& max == greatest(values)
                &&& is_floor_sqrt(values.len(), buckets as nat)
            },
            (Layout::Nominal { values: known }, Column::Nominal(values)) => known == distinct(
                values,
            ),
            _ => false,
        }
    }

    /// The layout is of the kind of `column`.
    pub open spec fn suits(self, column: Column) -> bool {
        match (self, column) {
            (Layout::Numeric { .. }, Column::Numeric(_)) => true,
            (Layout::Nominal { .. }, Column::Nominal(_)) => true,
            _ => false,
        }
    }

    /// The first instance of `column` whose value the layout has no code
    /// for, or `-1` if it has a code for each.
    pub open spec fn first_unknown(self, column: Column) -> int {
        match (self, column) {
            (Layout::Nominal { values: known }, Column::Nominal(values)) => first_index(
                Seq::new(values.len(), |i: int| first_index(known, values[i]) >= 0),
                false,
            ),
            _ => -1,
        }
    }

    /// The codes of `column` under the layout, instance by instance.
    pub open spec fn encode(self, column: Column) -> Seq<u32> {
        match (self, column) {
            (Layout::Numeric { min, max, buckets }, Column::Numeric(values)) => Seq::new(
                values.len(),
                |i: int| bucket(min as int, max as int, buckets as nat, values[i] as int) as u32,
            ),
            (Layout::Nominal { values: known }, Column::Nominal(values)) => Seq::new(
                values.len(),
                |i: int| first_index(known, values[i]) as u32,
            ),
            _ => Seq::empty(),
        }
    }
}

/// Every number lies between the least and the greatest.
pub proof fn lemma_extremes(values: Seq<i64>)
    ensures
        least(values) <= greatest(values),
        forall|i: int| 0 <= i < values.len() ==> least(values) <= #[trigger] values[i] <= greatest(values),
    decreases values.len(),
{
    if values.len() > 1 {
        let front = values.drop_last();
        lemma_extremes(front);
        assert forall|i: int| 0 <= i < values.len() implies least(values) <= #[trigger] values[i]
            <= greatest(values) by {
            if i < values.len() - 1 {
                assert(front[i] == values[i]);
            }
        }
    }
}

/// A bucket is one of the buckets.
pub proof fn lemma_bucket_range(min: int, max: int, buckets: nat, value: int)
    ensures
        0 <= bucket(min, max, buckets, value),
        buckets > 0 ==> bucket(min, max, buckets, value) < buckets,
{
}

/// The number of places of `marks` that hold `true` grows by one when a
/// place that held `false` is set, and stays when the place held `true`.
proof fn lemma_count_update(marks: Seq<bool>, at: int)
    requires
        0 <= at < marks.len(),
    ensures
        count(marks.update(at, true), true) == count(marks, true) + if marks[at] {
            0nat
        } else {
            1nat
        },
    decreases marks.len(),
{
    let after = marks.update(at, true);
    if at == marks.len() - 1 {
        assert(after.drop_last() =~= marks.drop_last());
    } else {
        lemma_count_update(marks.drop_last(), at);
        assert(after.drop_last() =~= marks.drop_last().update(at, true));
    }
}

/// Which of the 256 ids occur in `ids`.
spec fn marks(ids: Seq<u8>) -> Seq<bool> {
    Seq::new(256, |id: int| ids.contains(id as u8))
}

/// Names that are given by ids of eight bits are at most 256 different
/// names.
pub proof fn lemma_few_names(ids: Seq<u8>, names: Seq<Seq<char>>)
    requires
        ids.len() == names.len(),
        forall|i: int, j: int|
            0 <= i < ids.len() && 0 <= j < ids.len() && ids[i] == ids[j] ==> names[i] == names[j],
    ensures
        distinct(names).len() <= 256,
{
    lemma_few_names_marked(ids, names);
    lemma_count_bound(marks(ids), true);
}

proof fn lemma_few_names_marked(ids: Seq<u8>, names: Seq<Seq<char>>)
    requires
        ids.len() == names.len(),
        forall|i: int, j: int|
            0 <= i < ids.len() && 0 <= j < ids.len() && ids[i] == ids[j] ==> names[i] == names[j],
    ensures
        distinct(names).len() <= count(marks(ids), true),
    decreases ids.len(),
{
    if ids.len() == 0 {
    } else {
        let front_ids = ids.drop_last();
        let front = names.drop_last();
        let id = ids.last();
        lemma_few_names_marked(front_ids, front);
        lemma_distinct(front);
        lemma_count_update(marks(front_ids), id as int);
        assert(marks(ids) =~= marks(front_ids).update(id as int, true)) by {
            assert forall|k: int| 0 <= k < 256 implies marks(ids)[k] == marks(front_ids).update(
                id as int,
                true,
            )[k] by {
                if ids.contains(k as u8) {
                    let i = choose|i: int| 0 <= i < ids.len() && ids[i] == k as u8;
                    if i < ids.len() - 1 {
                        assert(front_ids[i] == k as u8);
                    }
                }
                if front_ids.contains(k as u8) {
                    let i = choose|i: int| 0 <= i < front_ids.len() && front_ids[i] == k as u8;
                    assert(ids[i] == k as u8);
                }
                if k == id {
                    assert(ids[ids.len() - 1] == k as u8);
                }
            }
        }
        if !distinct(front).contains(names.last()) {
            if front_ids.contains(id) {
                let i = choose|i: int| 0 <= i < front_ids.len() && front_ids[i] == id;
                assert(ids[i] == ids[ids.len() - 1]);
                assert(front[i] == names.last());
                assert(front.contains(names.last()));
            }
        }
    }
}

} // verus!
