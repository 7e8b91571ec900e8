//! Classification by the nearest neighbours.
//!
//! The distance between two instances is the sum, over all attributes but
//! the target, of the squared difference of two numbers or, for names, of
//! the square of one unit where the names differ. Numbers are millionths,
//! so the unit is a million. All of this is exact integer arithmetic.
use crate::data_set::{Content, Data, DataEntry, DataSet};
use crate::test_statistics::RightVsWrong;
use crate::{first_majority, is_majority, majority_vote};
use vstd::prelude::*;

verus! {

/// The squared distance between two different names.
pub const UNIT: u128 = 1_000_000_000_000;

/// The number of values that a column holds, as far as they can be read.
pub open spec fn values_in(content: Content) -> nat {
    match content {
        Content::Numeric(values) => values.len(),
        Content::Real(values) => values.len(),
        Content::Nominal { data, .. } => data.len(),
        _ => 0,
    }
}

/// The values of the column can be read: it holds numbers or names.
pub open spec fn readable(content: Content) -> bool {
    content is Numeric || content is Real || content is Nominal
}

/// The value of the instance `i` of a readable column.
pub open spec fn entry_at(content: Content, i: int) -> DataEntry {
    match content {
        Content::Numeric(values) => DataEntry::Numeric(values[i]),
        Content::Real(values) => DataEntry::Numeric(values[i]),
        Content::Nominal { data, .. } => DataEntry::Nominal(data[i]),
        _ => DataEntry::Nominal(0),
    }
}

/// A training column of numbers is compared with numbers, one of names with
/// names; other training columns are not compared at all.
pub open spec fn comparable(train: Content, test: Content) -> bool {
    match train {
        Content::Numeric(_) => test is Numeric || test is Real,
        Content::Nominal { .. } => test is Nominal,
        _ => false,
    }
}

/// The squared distance between the instance `i` of a training column and
/// the instance `j` of the column of the same attribute of another data
/// set.
pub open spec fn gap(train: Content, test: Content, i: int, j: int) -> nat {
    match train {
        Content::Numeric(a) => ((a[i] - entry_at(test, j)->Numeric_0) * (a[i] - entry_at(
            test,
            j,
        )->Numeric_0)) as nat,
        Content::Nominal { data, .. } => if DataEntry::Nominal(data[i]) == entry_at(test, j) {
            0
        } else {
            UNIT as nat
        },
        _ => 0,
    }
}

/// The squared distance between the training instance `i` and the instance
/// `j` of another data set, over the first `upto` attributes but `target`.
pub open spec fn distance(
    train: Seq<Content>,
    test: Seq<Content>,
    target: int,
    i: int,
    j: int,
    upto: nat,
) -> nat
    decreases upto,
{
    if upto == 0 {
        0
    } else {
        distance(train, test, target, i, j, (upto - 1) as nat) + if upto - 1 == target {
            0
        } else {
            gap(train[upto - 1], test[upto - 1], i, j)
        }
    }
}

/// A distance as it is held: what does not fit is held as the greatest
/// number that does.
pub open spec fn capped(d: nat) -> u128 {
    if d > u128::MAX {
        u128::MAX
    } else {
        d as u128
    }
}

/// The distance of every one of the first `n` training instances from the
/// instance `j` of another data set.
pub open spec fn distances(train: Seq<Content>, test: Seq<Content>, target: int, j: int, n: nat) -> Seq<
    u128,
> {
    Seq::new(n, |i: int| capped(distance(train, test, target, i, j, train.len())))
}

/// The first place from `from` on whose instance has a key above `key`, or
/// the length of `order` if there is none.
pub open spec fn place_above(order: Seq<usize>, keys: Seq<u128>, key: u128, from: int) -> int
    decreases order.len() - from,
{
    if from < 0 || from >= order.len() {
        order.len() as int
    } else if keys[order[from] as int] > key {
        from
    } else {
        place_above(order, keys, key, from + 1)
    }
}

/// The first `upto` instances in the order of their keys; instances of the
/// same key stay in their order.
pub open spec fn ranked(keys: Seq<u128>, upto: nat) -> Seq<usize>
    decreases upto,
{
    if upto == 0 {
        Seq::empty()
    } else {
        let before = ranked(keys, (upto - 1) as nat);
        before.insert(place_above(before, keys, keys[upto - 1], 0), (upto - 1) as usize)
    }
}

/// `order` lists every one of the first `upto` instances once, by rising
/// keys, and instances of the same key by rising index.
pub open spec fn is_ranking(order: Seq<usize>, keys: Seq<u128>, upto: nat) -> bool {
    &&& order.len() == upto
    &&& forall|p: int| 0 <= p < order.len() ==> #[trigger] order[p] < upto
    &&& forall|i: usize| i < upto ==> #[trigger] order.contains(i)
    &&& forall|p: int, q: int|
        0 <= p < q < order.len() ==> keys[#[trigger] order[p] as int] < keys[#[trigger] order[q] as int]
            || (keys[order[p] as int] == keys[order[q] as int] && order[p] < order[q])
}

proof fn lemma_place_above(order: Seq<usize>, keys: Seq<u128>, key: u128, from: int)
    requires
        0 <= from <= order.len(),
    ensures
        from <= place_above(order, keys, key, from) <= order.len(),
        forall|p: int|
            from <= p < place_above(order, keys, key, from) ==> keys[#[trigger] order[p] as int]
                <= key,
        place_above(order, keys, key, from) < order.len() ==> keys[order[place_above(
            order,
            keys,
            key,
            from,
        )] as int] > key,
    decreases order.len() - from,
{
    if from < order.len() && keys[order[from] as int] <= key {
        lemma_place_above(order, keys, key, from + 1);
    }
}

/// What `ranked` gives is a ranking.
pub proof fn lemma_ranked(keys: Seq<u128>, upto: nat)
    requires
        upto <= keys.len(),
        upto <= usize::MAX,
    ensures
        is_ranking(ranked(keys, upto), keys, upto),
    decreases upto,
{
    if upto > 0 {
        let before = ranked(keys, (upto - 1) as nat);
        lemma_ranked(keys, (upto - 1) as nat);
        let key = keys[upto - 1];
        let new = (upto - 1) as usize;
        lemma_place_above(before, keys, key, 0);
        let at = place_above(before, keys, key, 0);
        let after = before.insert(at, new);
        assert forall|i: usize| i < upto implies #[trigger] after.contains(i) by {
            if i < upto - 1 {
                assert(before.contains(i));
                let p = choose|p: int| 0 <= p < before.len() && before[p] == i;
                if p < at {
                    assert(after[p] == i);
                } else {
                    assert(after[p + 1] == i);
                }
            } else {
                assert(after[at] == i);
            }
        }
        assert forall|p: int, q: int| 0 <= p < q < after.len() implies keys[#[trigger] after[p] as int]
            < keys[#[trigger] after[q] as int] || (keys[after[p] as int] == keys[after[q] as int]
            && after[p] < after[q]) by {
            if q < at {
                assert(after[p] == before[p] && after[q] == before[q]);
            } else if q == at {
                assert(after[p] == before[p]);
                assert(keys[before[p] as int] <= key);
            } else if p < at {
                assert(after[p] == before[p] && after[q] == before[q - 1]);
            } else if p == at {
                assert(after[q] == before[q - 1]);
                assert(keys[before[at] as int] > key);
                if q - 1 > at {
                    assert(keys[before[at] as int] <= keys[before[q - 1] as int]);
                }
            } else {
                assert(after[p] == before[p - 1] && after[q] == before[q - 1]);
            }
        }
        assert forall|p: int| 0 <= p < after.len() implies #[trigger] after[p] < upto by {
            if p < at {
                assert(after[p] == before[p]);
            } else if p > at {
                assert(after[p] == before[p - 1]);
            }
        }
    }
}

/// The instances in the order of their keys; instances of the same key
/// stay in their order.
pub fn rank(keys: &Vec<u128>) -> (order: Vec<usize>)
    ensures
        order@ == ranked(keys@, keys@.len()),
        is_ranking(order@, keys@, keys@.len()),
{
    let mut order: Vec<usize> = Vec::new();
    let mut i: usize = 0;
    while i < keys.len()
        invariant
            0 <= i <= keys@.len(),
            order@ == ranked(keys@, i as nat),
            is_ranking(order@, keys@, i as nat),
        decreases keys@.len() - i,
    {
        let key: u128 = keys[i];
        let mut at: usize = 0;
        while at < order.len() && keys[order[at]] <= key
            invariant
                0 <= at <= order@.len(),
                i < keys@.len(),
                key == keys@[i as int],
                is_ranking(order@, keys@, i as nat),
                place_above(order@, keys@, key, 0) == place_above(order@, keys@, key, at as int),
            decreases order@.len() - at,
        {
            at += 1;
        }
        order.insert(at, i);
        proof {
            lemma_ranked(keys@, (i + 1) as nat);
        }
        i += 1;
    }
    order
}

/// K-nearest neighbours: an instance is classified by a majority vote of
/// the target values of the training instances nearest to it.
pub struct KNN {
    data: DataSet,
}

impl KNN {
    /// The training instances.
    pub closed spec fn data(&self) -> DataSet {
        self.data
    }

    /// What the training columns hold.
    pub open spec fn columns(&self) -> Seq<Content> {
        crate::parser::contents(self.data().declared())
    }

    /// The number of training instances: the length of the first column.
    pub open spec fn instances(&self) -> nat {
        if self.columns().len() == 0 {
            0
        } else {
            values_in(self.columns()[0])
        }
    }

    /// The training instances can be compared with the instance `index` of
    /// `test`: the first training column can be read; and every training
    /// column but the target holds numbers or names, a value for each
    /// training instance and, unless it is empty, stands beside a column of
    /// `test` of its kind that has the instance `index`.
    pub open spec fn can_compare(&self, test: Seq<Content>, target: usize, index: usize) -> bool {
        &&& self.data().wf()
        &&& self.columns().len() > 0 ==> readable(self.columns()[0])
        &&& forall|a: int|
            0 <= a < self.columns().len() && a != target ==> {
                let column = #[trigger] self.columns()[a];
                &&& column is Numeric || column is Nominal
                &&& values_in(column) >= self.instances()
                &&& values_in(column) > 0 ==> a < test.len() && comparable(column, test[a]) && index
                    < values_in(test[a])
            }
    }

    /// A classifier that answers by the instances of `data`.
    pub fn new(data: DataSet) -> (knn: Self)
        ensures
            knn.data() == data,
    {
        KNN { data }
    }
}

/// The value of the instance `index` of a column of numbers.
fn number_at(data: &Data, index: usize) -> (value: i64)
    requires
        data.content() is Numeric || data.content() is Real,
        index < values_in(data.content()),
    ensures
        entry_at(data.content(), index as int) == DataEntry::Numeric(value),
{
    match data {
        Data::Numeric(values) => values[index],
        Data::Real(values) => values[index],
        _ => vstd::pervasive::unreached(),
    }
}

/// The id of the instance `index` of a column of names.
fn name_at(data: &Data, index: usize) -> (id: u8)
    requires
        data.content() is Nominal,
        index < values_in(data.content()),
    ensures
        entry_at(data.content(), index as int) == DataEntry::Nominal(id),
{
    match data {
        Data::Nominal(nominal) => nominal.get_data()[index],
        _ => vstd::pervasive::unreached(),
    }
}

/// The squared difference of two numbers.
fn distance_squared(lhs: i64, rhs: i64) -> (squared: u128)
    ensures
        squared == (lhs - rhs) * (lhs - rhs),
{
    let apart: i128 = lhs as i128 - rhs as i128;
    let size: u128 = if apart < 0 {
        (-apart) as u128
    } else {
        apart as u128
    };
    assert(size * size == (lhs - rhs) * (lhs - rhs) && size * size <= u128::MAX)
        by (nonlinear_arith)
        requires
            size == apart || size == -apart,
            apart == lhs - rhs,
            0 <= size <= 0xffff_ffff_ffff_ffff,
    ;
    size * size
}

/// The squared distance of two names: nothing if they are the same, and
/// else the unit.
fn distance_nominal(lhs: u8, rhs: u8) -> (squared: u128)
    ensures
        squared == if lhs == rhs {
            0
        } else {
            UNIT
        },
{
    if lhs == rhs {
        0
    } else {
        UNIT
    }
}

/// `total + more`, or the greatest number that can be held.
fn add_capped(total: u128, more: u128) -> (sum: u128)
    ensures
        sum == capped((total + more) as nat),
        forall|d: nat| total == capped(d) ==> sum == #[trigger] capped((d + more) as nat),
{
    if total > u128::MAX - more {
        u128::MAX
    } else {
        total + more
    }
}

impl KNN {
    /// The training instances in the order of their distance from the
    /// instance `index` of `test_set`, the nearest first; instances at the
    /// same distance stay in their order.
    pub fn nearest_neighbors(&self, test_set: &DataSet, index: usize, target: usize) -> (neighbors:
        Vec<usize>)
        requires
            self.can_compare(crate::parser::contents(test_set.declared()), target, index),
        ensures
            neighbors@ == ranked(
                distances(
                    self.columns(),
                    crate::parser::contents(test_set.declared()),
                    target as int,
                    index as int,
                    self.instances(),
                ),
                self.instances(),
            ),
            is_ranking(
                neighbors@,
                distances(
                    self.columns(),
                    crate::parser::contents(test_set.declared()),
                    target as int,
                    index as int,
                    self.instances(),
                ),
                self.instances(),
            ),
    {
        let ghost train = self.columns();
        let ghost test = crate::parser::contents(test_set.declared());
        let attributes = self.data.get_attributes();
        let others = test_set.get_attributes();
        proof {
            self.data.lemma_view();
            test_set.lemma_view();
            assert(train.len() == attributes@.len());
            assert(test.len() == others@.len());
            assert forall|a: int| 0 <= a < train.len() implies #[trigger] train[a]
                == attributes@[a].data.content() by {}
            assert forall|a: int| 0 <= a < test.len() implies #[trigger] test[a]
                == others@[a].data.content() by {}
            if train.len() > 0 {
                assert(readable(train[0]));
                assert(self.data@[0] == attributes@[0].data@);
            }
        }
        let n: usize = self.data.get_data_len();
        let mut totals: Vec<u128> = Vec::new();
        let mut i: usize = 0;
        while i < n
            invariant
                0 <= i <= n,
                totals@.len() == i,
                forall|k: int| 0 <= k < i ==> #[trigger] totals@[k] == 0,
            decreases n - i,
        {
            totals.push(0);
            i += 1;
        }
        let mut a: usize = 0;
        while a < attributes.len()
            invariant
                0 <= a <= attributes@.len(),
                self.can_compare(test, target, index),
                train == self.columns(),
                n == self.instances(),
                train.len() == attributes@.len(),
                test.len() == others@.len(),
                forall|b: int| 0 <= b < train.len() ==> #[trigger] train[b] == attributes@[b].data.content(),
                forall|b: int| 0 <= b < test.len() ==> #[trigger] test[b] == others@[b].data.content(),
                forall|b: int| 0 <= b < attributes@.len() ==> (#[trigger] attributes@[b]).data.wf(),
                totals@.len() == n,
                forall|k: int|
                    0 <= k < n ==> #[trigger] totals@[k] == capped(
                        distance(train, test, target as int, k, index as int, a as nat),
                    ),
            decreases attributes@.len() - a,
        {
            if a != target {
                let ghost column = train[a as int];
                assert(column is Numeric || column is Nominal);
                assert(values_in(column) >= n);
                match &attributes[a].data {
                    Data::Numeric(values) => {
                        if values.len() > 0 {
                            let rhs = number_at(&others[a].data, index);
                            let mut k: usize = 0;
                            while k < n
                                invariant
                                    0 <= k <= n,
                                    a < train.len(),
                                    a != target,
                                    n <= values@.len(),
                                    totals@.len() == n,
                                    train[a as int] == Content::Numeric(values@),
                                    entry_at(test[a as int], index as int) == DataEntry::Numeric(rhs),
                                    forall|p: int|
                                        0 <= p < k ==> #[trigger] totals@[p] == capped(
                                            distance(
                                                train,
                                                test,
                                                target as int,
                                                p,
                                                index as int,
                                                (a + 1) as nat,
                                            ),
                                        ),
                                    forall|p: int|
                                        k <= p < n ==> #[trigger] totals@[p] == capped(
                                            distance(
                                                train,
                                                test,
                                                target as int,
                                                p,
                                                index as int,
                                                a as nat,
                                            ),
                                        ),
                                decreases n - k,
                            {
                                let more = distance_squared(values[k], rhs);
                                let sum = add_capped(totals[k], more);
                                totals[k] = sum;
                                k += 1;
                            }
                        } else {
                            assert(n == 0);
                        }
                    },
                    Data::Nominal(nominal) => {
                        let ids = nominal.get_data();
                        if ids.len() > 0 {
                            let rhs = name_at(&others[a].data, index);
                            let mut k: usize = 0;
                            while k < n
                                invariant
                                    0 <= k <= n,
                                    a < train.len(),
                                    a != target,
                                    n <= ids@.len(),
                                    totals@.len() == n,
                                    train[a as int] is Nominal,
                                    train[a as int]->Nominal_data == ids@,
                                    entry_at(test[a as int], index as int) == DataEntry::Nominal(rhs),
                                    forall|p: int|
                                        0 <= p < k ==> #[trigger] totals@[p] == capped(
                                            distance(
                                                train,
                                                test,
                                                target as int,
                                                p,
                                                index as int,
                                                (a + 1) as nat,
                                            ),
                                        ),
                                    forall|p: int|
                                        k <= p < n ==> #[trigger] totals@[p] == capped(
                                            distance(
                                                train,
                                                test,
                                                target as int,
                                                p,
                                                index as int,
                                                a as nat,
                                            ),
                                        ),
                                decreases n - k,
                            {
                                let more = distance_nominal(ids[k], rhs);
                                let sum = add_capped(totals[k], more);
                                totals[k] = sum;
                                k += 1;
                            }
                        } else {
                            assert(n == 0);
                        }
                    },
                    _ => {
                        assert(false);
                    },
                }
            }
            a += 1;
        }
        proof {
            assert(totals@ =~= distances(train, test, target as int, index as int, n as nat));
        }
        rank(&totals)
    }
}

/// The target values of the first `k` of `neighbors`, or of all of them if
/// they are fewer.
pub open spec fn votes_of(target: Content, neighbors: Seq<usize>, k: nat) -> Seq<DataEntry> {
    Seq::new(
        if k <= neighbors.len() {
            k
        } else {
            neighbors.len()
        },
        |p: int| entry_at(target, neighbors[p] as int),
    )
}

/// What the `k` nearest of the first `n` training instances vote for the
/// instance `j` of another data set.
pub open spec fn prediction(
    train: Seq<Content>,
    test: Seq<Content>,
    target: int,
    j: int,
    n: nat,
    k: nat,
) -> DataEntry {
    first_majority(votes_of(train[target], ranked(distances(train, test, target, j, n), n), k))
}

/// For how many of the first `upto` instances of another data set the `k`
/// nearest training instances vote for the instance's own target value.
pub open spec fn right_answers(
    train: Seq<Content>,
    test: Seq<Content>,
    target: int,
    n: nat,
    k: nat,
    upto: nat,
) -> nat
    decreases upto,
{
    if upto == 0 {
        0
    } else {
        right_answers(train, test, target, n, k, (upto - 1) as nat) + if prediction(
            train,
            test,
            target,
            upto - 1,
            n,
            k,
        ) == entry_at(test[target], upto - 1) {
            1nat
        } else {
            0nat
        }
    }
}

proof fn lemma_right_answers_bound(
    train: Seq<Content>,
    test: Seq<Content>,
    target: int,
    n: nat,
    k: nat,
    upto: nat,
)
    ensures
        right_answers(train, test, target, n, k, upto) <= upto,
    decreases upto,
{
    if upto > 0 {
        lemma_right_answers_bound(train, test, target, n, k, (upto - 1) as nat);
    }
}

impl KNN {
    /// The number of instances of `test`: the length of its first column.
    pub open spec fn instances_of(test: Seq<Content>) -> nat {
        if test.len() == 0 {
            0
        } else {
            values_in(test[0])
        }
    }

    /// The first training column can be read, and the target for every
    /// training instance.
    pub open spec fn can_vote(&self, target: usize) -> bool {
        &&& self.data().wf()
        &&& target < self.columns().len()
        &&& readable(self.columns()[0])
        &&& readable(self.columns()[target as int])
        &&& values_in(self.columns()[target as int]) >= self.instances()
    }

    /// The value for which most of the first `k` of `nearest_neighbors`
    /// vote with their target value; among values with equally many votes,
    /// the one that the nearest of their voters votes for.
    pub fn query_k(&self, nearest_neighbors: &[usize], k: usize, target: usize) -> (prediction:
        DataEntry)
        requires
            self.data().wf(),
            target < self.columns().len(),
            readable(self.columns()[target as int]),
            k >= 1,
            nearest_neighbors@.len() >= 1,
            forall|p: int|
                0 <= p < nearest_neighbors@.len() && p < k ==> #[trigger] nearest_neighbors@[p]
                    < values_in(self.columns()[target as int]),
        ensures
            prediction == first_majority(
                votes_of(self.columns()[target as int], nearest_neighbors@, k as nat),
            ),
            is_majority(
                votes_of(self.columns()[target as int], nearest_neighbors@, k as nat),
                prediction,
            ),
    {
        let ghost column = self.columns()[target as int];
        let ghost all = votes_of(column, nearest_neighbors@, k as nat);
        let voters: usize = if k <= nearest_neighbors.len() {
            k
        } else {
            nearest_neighbors.len()
        };
        proof {
            self.data.lemma_view();
            assert(column == self.data.attributes()[target as int].data.content());
            assert(self.data@[target as int] == self.data.attributes()[target as int].data@);
        }
        let mut votes: Vec<DataEntry> = Vec::new();
        let mut p: usize = 0;
        while p < voters
            invariant
                0 <= p <= voters,
                voters == all.len(),
                voters <= nearest_neighbors@.len(),
                voters <= k,
                self.data().wf(),
                target < self.columns().len(),
                column == self.columns()[target as int],
                readable(column),
                column == self.data.attributes()[target as int].data.content(),
                self.data@[target as int] == self.data.attributes()[target as int].data@,
                self.data@.len() == self.data.attributes().len(),
                all == votes_of(column, nearest_neighbors@, k as nat),
                forall|q: int|
                    0 <= q < nearest_neighbors@.len() && q < k ==> #[trigger] nearest_neighbors@[q]
                        < values_in(column),
                votes@ == all.take(p as int),
            decreases voters - p,
        {
            let neighbor: usize = nearest_neighbors[p];
            assert(nearest_neighbors@[p as int] < values_in(column));
            let vote = self.data.get_value(target, neighbor);
            assert(vote == entry_at(column, neighbor as int));
            votes.push(vote);
            proof {
                assert(all.take(p + 1) =~= all.take(p as int).push(all[p as int]));
            }
            p += 1;
        }
        proof {
            assert(all.take(voters as int) =~= all);
        }
        majority_vote(votes.as_slice())
    }

    /// For every number of neighbours from one up to the number of training
    /// instances: how many instances of `test_set` these neighbours
    /// classify right, and how many wrong.
    pub fn test(&self, test_set: &DataSet, target: usize) -> (scores: Vec<RightVsWrong>)
        requires
            self.can_vote(target),
            test_set.wf(),
            target < crate::parser::contents(test_set.declared()).len(),
            crate::parser::contents(test_set.declared()).len() > 0,
            readable(crate::parser::contents(test_set.declared())[0]),
            readable(crate::parser::contents(test_set.declared())[target as int]),
            values_in(crate::parser::contents(test_set.declared())[target as int])
                >= Self::instances_of(crate::parser::contents(test_set.declared())),
            forall|j: usize|
                j < Self::instances_of(crate::parser::contents(test_set.declared()))
                    ==> #[trigger] self.can_compare(
                    crate::parser::contents(test_set.declared()),
                    target,
                    j,
                ),
        ensures
            scores@.len() == self.instances(),
            forall|k: int|
                1 <= k <= scores@.len() ==> (#[trigger] scores@[k - 1]).right() == right_answers(
                    self.columns(),
                    crate::parser::contents(test_set.declared()),
                    target as int,
                    self.instances(),
                    k as nat,
                    Self::instances_of(crate::parser::contents(test_set.declared())),
                ) && scores@[k - 1].right() + scores@[k - 1].wrong() == Self::instances_of(
                    crate::parser::contents(test_set.declared()),
                ),
    {
        let ghost train = self.columns();
        let ghost test = crate::parser::contents(test_set.declared());
        proof {
            self.data.lemma_view();
            test_set.lemma_view();
            assert(test[0] == test_set.attributes()[0].data.content());
            assert(test_set@[0] == test_set.attributes()[0].data@);
            assert(test[target as int] == test_set.attributes()[target as int].data.content());
            assert(test_set@[target as int] == test_set.attributes()[target as int].data@);
            assert(train[0] == self.data.attributes()[0].data.content());
            assert(self.data@[0] == self.data.attributes()[0].data@);
        }
        let n: usize = self.data.get_data_len();
        let m: usize = test_set.get_data_len();
        let mut nearest: Vec<Vec<usize>> = Vec::new();
        let mut j: usize = 0;
        while j < m
            invariant
                0 <= j <= m,
                m == Self::instances_of(test),
                n == self.instances(),
                train == self.columns(),
                test == crate::parser::contents(test_set.declared()),
                forall|i: usize| i < m ==> #[trigger] self.can_compare(test, target, i),
                nearest@.len() == j,
                forall|i: int|
                    0 <= i < j ==> (#[trigger] nearest@[i])@ == ranked(
                        distances(train, test, target as int, i, n as nat),
                        n as nat,
                    ),
            decreases m - j,
        {
            assert(self.can_compare(test, target, j));
            let neighbors = self.nearest_neighbors(test_set, j, target);
            let ghost before = nearest@;
            nearest.push(neighbors);
            proof {
                assert forall|i: int| 0 <= i < j + 1 implies (#[trigger] nearest@[i])@ == ranked(
                    distances(train, test, target as int, i, n as nat),
                    n as nat,
                ) by {
                    if i < j {
                        assert(nearest@[i] == before[i]);
                    }
                }
            }
            j += 1;
        }
        let mut scores: Vec<RightVsWrong> = Vec::new();
        let mut k: usize = 0;
        while k < n
            invariant
                0 <= k <= n,
                m == Self::instances_of(test),
                n == self.instances(),
                train == self.columns(),
                test == crate::parser::contents(test_set.declared()),
                self.can_vote(target),
                test_set.wf(),
                target < test.len(),
                readable(test[target as int]),
                values_in(test[target as int]) >= m,
                test[target as int] == test_set.attributes()[target as int].data.content(),
                test_set@[target as int] == test_set.attributes()[target as int].data@,
                test_set@.len() == test_set.attributes().len(),
                nearest@.len() == m,
                forall|i: int|
                    0 <= i < m ==> (#[trigger] nearest@[i])@ == ranked(
                        distances(train, test, target as int, i, n as nat),
                        n as nat,
                    ),
                scores@.len() == k,
                forall|c: int|
                    1 <= c <= k ==> (#[trigger] scores@[c - 1]).right() == right_answers(
                        train,
                        test,
                        target as int,
                        n as nat,
                        c as nat,
                        m as nat,
                    ) && scores@[c - 1].right() + scores@[c - 1].wrong() == m,
            decreases n - k,
        {
            k += 1;
            let mut count = RightVsWrong::default();
            let mut index: usize = 0;
            while index < m
                invariant
                    0 <= index <= m,
                    1 <= k <= n,
                    m == Self::instances_of(test),
                    n == self.instances(),
                    train == self.columns(),
                    test == crate::parser::contents(test_set.declared()),
                    self.can_vote(target),
                    test_set.wf(),
                    target < test.len(),
                    readable(test[target as int]),
                    values_in(test[target as int]) >= m,
                    test[target as int] == test_set.attributes()[target as int].data.content(),
                    test_set@[target as int] == test_set.attributes()[target as int].data@,
                    test_set@.len() == test_set.attributes().len(),
                    nearest@.len() == m,
                    forall|i: int|
                        0 <= i < m ==> (#[trigger] nearest@[i])@ == ranked(
                            distances(train, test, target as int, i, n as nat),
                            n as nat,
                        ),
                    count.right() == right_answers(
                        train,
                        test,
                        target as int,
                        n as nat,
                        k as nat,
                        index as nat,
                    ),
                    count.right() + count.wrong() == index,
                decreases m - index,
            {
                let neighbors = nearest[index].as_slice();
                proof {
                    let keys = distances(train, test, target as int, index as int, n as nat);
                    lemma_ranked(keys, n as nat);
                    assert(neighbors@ == ranked(keys, n as nat));
                    assert forall|p: int| 0 <= p < neighbors@.len() implies #[trigger] neighbors@[p]
                        < values_in(train[target as int]) by {}
                    lemma_right_answers_bound(
                        train,
                        test,
                        target as int,
                        n as nat,
                        k as nat,
                        index as nat,
                    );
                }
                let predicted = self.query_k(neighbors, k, target);
                let actual = test_set.get_value(target, index);
                assert(actual == entry_at(test[target as int], index as int));
                if predicted == actual {
                    count.was_right();
                } else {
                    count.was_wrong();
                }
                index += 1;
            }
            let ghost before = scores@;
            scores.push(count);
            proof {
                assert forall|c: int| 1 <= c <= k implies (#[trigger] scores@[c - 1]).right()
                    == right_answers(train, test, target as int, n as nat, c as nat, m as nat)
                    && scores@[c - 1].right() + scores@[c - 1].wrong() == m by {
                    if c < k {
                        assert(scores@[c - 1] == before[c - 1]);
                    }
                }
            }
        }
        scores
    }
}

} // verus!
