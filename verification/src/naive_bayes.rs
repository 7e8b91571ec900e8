//! The naive Bayes classifier over nominal attributes, with smoothing.
//!
//! The classifier holds counts, not probabilities. With `n_t` training
//! instances of the target value `t`, of which `c` have the value `v` of an
//! attribute with `f` fields, and the smoothing factor `k`, the probability
//! of `v` given `t` is `(c + k) / (n_t + f * k)`. The target values are
//! ranked for an instance by the product of these probabilities and of
//! `n_t`; two such products are compared by cross-multiplying, so that
//! nothing is rounded.
use crate::big_nat::BigNat;
use crate::data_set::{field_ids, Content, Data, DataSet};
use crate::knn::values_in;
use crate::parser::contents;
use crate::test_statistics::ConfusionMatrix;
use vstd::prelude::*;

verus! {

/// What a classifier has counted.
pub struct Model {
    /// The smoothing factor.
    pub k: nat,
    /// For each target value, the number of training instances that have
    /// it.
    pub sizes: Seq<nat>,
    /// For each target value, each attribute and each value of the
    /// attribute, the number of training instances that have both.
    pub counts: Seq<Seq<Seq<nat>>>,
}

/// The ids of the instances of a nominal column.
pub open spec fn ids_of(content: Content) -> Seq<u8> {
    match content {
        Content::Nominal { data, .. } => data,
        _ => Seq::empty(),
    }
}

/// The number of different fields of a nominal column.
pub open spec fn fields_in(content: Content) -> nat {
    match content {
        Content::Nominal { fields, .. } => field_ids(fields).len(),
        _ => 0,
    }
}

/// How many of the first `upto` instances have the id `value` in `ids` and
/// the id `class` in `classes`.
pub open spec fn joint(classes: Seq<u8>, ids: Seq<u8>, class: int, value: int, upto: nat) -> nat
    decreases upto,
{
    if upto == 0 {
        0
    } else {
        joint(classes, ids, class, value, (upto - 1) as nat) + if classes[upto - 1] == class
            && ids[upto - 1] == value {
            1nat
        } else {
            0nat
        }
    }
}

/// No more instances have two ids than there are instances.
pub proof fn lemma_joint_bound(classes: Seq<u8>, ids: Seq<u8>, class: int, value: int, upto: nat)
    ensures
        joint(classes, ids, class, value, upto) <= upto,
    decreases upto,
{
    if upto > 0 {
        lemma_joint_bound(classes, ids, class, value, (upto - 1) as nat);
    }
}

/// The number of instances of `columns`: the length of the first column.
pub open spec fn instances_in(columns: Seq<Content>) -> nat {
    if columns.len() == 0 {
        0
    } else {
        values_in(columns[0])
    }
}

/// The columns can be counted for `target`: all of them hold names, a name
/// for every instance, and the ids of the names lie below the number of
/// different fields of their column.
pub open spec fn countable(columns: Seq<Content>, target: usize) -> bool {
    &&& target < columns.len()
    &&& forall|a: int|
        0 <= a < columns.len() ==> {
            &&& (#[trigger] columns[a]) is Nominal
            &&& ids_of(columns[a]).len() >= instances_in(columns)
            &&& forall|i: int|
                0 <= i < instances_in(columns) ==> (#[trigger] ids_of(columns[a])[i]) < fields_in(
                    columns[a],
                )
        }
}

/// What a classifier counts in `columns` for `target` with the smoothing
/// factor `k`.
pub open spec fn counted(columns: Seq<Content>, target: usize, k: nat) -> Model {
    let n = instances_in(columns);
    let classes = ids_of(columns[target as int]);
    Model {
        k,
        sizes: Seq::new(
            fields_in(columns[target as int]),
            |t: int| joint(classes, classes, t, t, n),
        ),
        counts: Seq::new(
            fields_in(columns[target as int]),
            |t: int|
                Seq::new(
                    columns.len(),
                    |a: int|
                        Seq::new(
                            fields_in(columns[a]),
                            |v: int| joint(classes, ids_of(columns[a]), t, v, n),
                        ),
                ),
        ),
    }
}

impl Model {
    /// The counts have one table for each target value, and every target
    /// value the same attributes.
    pub open spec fn wf(self) -> bool {
        &&& self.counts.len() == self.sizes.len()
        &&& forall|t: int|
            0 <= t < self.counts.len() ==> (#[trigger] self.counts[t]).len() == self.counts[0].len()
    }

    /// The number of attributes.
    pub open spec fn width(self) -> nat {
        if self.counts.len() == 0 {
            0
        } else {
            self.counts[0].len()
        }
    }

    /// The instance `entry` can be asked about: it has no more values than
    /// there are attributes, and each of its values but that of `target` is
    /// one of the values of its attribute; and no probability is a division
    /// by zero.
    pub open spec fn admits(self, entry: Seq<u8>, target: usize) -> bool {
        &&& self.sizes.len() > 0
        &&& entry.len() <= self.width()
        &&& forall|t: int, a: int|
            0 <= t < self.counts.len() && 0 <= a < entry.len() && a != target ==> entry[a]
                < (#[trigger] self.counts[t][a]).len() && self.sizes[t] + self.counts[t][a].len()
                * self.k > 0
    }

    /// The product, over the first `upto` attributes but `target`, of the
    /// numerators of the probabilities of the values of `entry` given the
    /// target value `t`, times the number of training instances of `t`.
    pub open spec fn numerator(self, entry: Seq<u8>, target: int, t: int, upto: nat) -> nat
        decreases upto,
    {
        if upto == 0 {
            self.sizes[t]
        } else {
            self.numerator(entry, target, t, (upto - 1) as nat) * if upto - 1 == target {
                1
            } else {
                self.counts[t][upto - 1][entry[upto - 1] as int] + self.k
            }
        }
    }

    /// The product, over the first `upto` attributes but `target`, of the
    /// denominators of the probabilities given the target value `t`.
    pub open spec fn denominator(self, target: int, t: int, upto: nat) -> nat
        decreases upto,
    {
        if upto == 0 {
            1
        } else {
            self.denominator(target, t, (upto - 1) as nat) * if upto - 1 == target {
                1
            } else {
                self.sizes[t] + self.counts[t][upto - 1].len() * self.k
            }
        }
    }

    /// The target value `t` is at least as likely for `entry` as the target
    /// value `u`.
    pub open spec fn at_least(self, entry: Seq<u8>, target: int, t: int, u: int) -> bool {
        self.numerator(entry, target, t, entry.len()) * self.denominator(target, u, entry.len())
            >= self.numerator(entry, target, u, entry.len()) * self.denominator(
            target,
            t,
            entry.len(),
        )
    }

    /// The most likely of the first `upto` target values for `entry`; of
    /// several such values, the last.
    pub open spec fn likeliest(self, entry: Seq<u8>, target: int, upto: nat) -> int
        decreases upto,
    {
        if upto <= 1 {
            0
        } else {
            let earlier = self.likeliest(entry, target, (upto - 1) as nat);
            if self.at_least(entry, target, upto - 1, earlier) {
                upto - 1
            } else {
                earlier
            }
        }
    }
}

/// The numbers of a table of machine words.
pub open spec fn table(counts: Seq<Vec<Vec<usize>>>) -> Seq<Seq<Seq<nat>>> {
    Seq::new(
        counts.len(),
        |t: int|
            Seq::new(
                counts[t]@.len(),
                |a: int| Seq::new(counts[t]@[a]@.len(), |v: int| counts[t]@[a]@[v] as nat),
            ),
    )
}

/// Basic implementation of the naive Bayes algorithm with smoothing.
pub struct NaiveBayes {
    k: usize,
    sizes: Vec<usize>,
    counts: Vec<Vec<Vec<usize>>>,
}

impl View for NaiveBayes {
    type V = Model;

    /// What the classifier has counted.
    closed spec fn view(&self) -> Model {
        Model {
            k: self.k as nat,
            sizes: Seq::new(self.sizes@.len(), |t: int| self.sizes@[t] as nat),
            counts: table(self.counts@),
        }
    }
}

/// A vector of `len` zeros.
fn zeros(len: usize) -> (v: Vec<usize>)
    ensures
        v@.len() == len,
        forall|i: int| 0 <= i < len ==> #[trigger] v@[i] == 0,
{
    let mut v: Vec<usize> = Vec::new();
    let mut i: usize = 0;
    while i < len
        invariant
            0 <= i <= len,
            v@.len() == i,
            forall|j: int| 0 <= j < i ==> #[trigger] v@[j] == 0,
        decreases len - i,
    {
        v.push(0);
        i += 1;
    }
    v
}

/// The ids of the instances of a nominal column, and the number of its
/// different fields.
fn nominal_of(data: &Data) -> (column: (&[u8], usize))
    requires
        data.wf(),
        data.content() is Nominal,
    ensures
        column.0@ == ids_of(data.content()),
        column.1 == fields_in(data.content()),
{
    match data {
        Data::Nominal(nominal) => {
            proof {
                nominal.lemma_wf();
            }
            (nominal.get_data(), nominal.size())
        },
        _ => vstd::pervasive::unreached(),
    }
}

impl NaiveBayes {
    /// Counts, for each value of the attribute `target`, how often each
    /// value of each attribute goes with it in `data`. `k` is the smoothing
    /// factor.
    pub fn new(data: &DataSet, target: usize, k: usize) -> (model: Self)
        requires
            data.wf(),
            countable(contents(data.declared()), target),
        ensures
            model@ == counted(contents(data.declared()), target, k as nat),
            model@.wf(),
    {
        let ghost columns = contents(data.declared());
        let attributes = data.get_attributes();
        proof {
            data.lemma_view();
            assert(columns.len() == attributes@.len());
            assert forall|a: int| 0 <= a < columns.len() implies #[trigger] columns[a]
                == attributes@[a].data.content() by {}
            assert(columns[0] is Nominal);
            assert(data@[0] == attributes@[0].data@);
        }
        let n: usize = data.get_data_len();
        let width: usize = attributes.len();
        assert(columns[target as int] is Nominal);
        let (classes, class_count) = nominal_of(&attributes[target].data);
        let mut counts: Vec<Vec<Vec<usize>>> = Vec::new();
        let mut t: usize = 0;
        while t < class_count
            invariant
                0 <= t <= class_count,
                width == attributes@.len(),
                columns.len() == attributes@.len(),
                forall|a: int| 0 <= a < columns.len() ==> #[trigger] columns[a] == attributes@[a].data.content(),
                forall|a: int| 0 <= a < columns.len() ==> (#[trigger] columns[a]) is Nominal,
                forall|a: int| 0 <= a < attributes@.len() ==> (#[trigger] attributes@[a]).data.wf(),
                counts@.len() == t,
                forall|s: int|
                    0 <= s < t ==> (#[trigger] counts@[s])@.len() == width && forall|a: int|
                        0 <= a < width ==> (#[trigger] counts@[s]@[a])@.len() == fields_in(columns[a])
                            && forall|v: int|
                            0 <= v < counts@[s]@[a]@.len() ==> #[trigger] counts@[s]@[a]@[v] == 0,
            decreases class_count - t,
        {
            let mut row: Vec<Vec<usize>> = Vec::new();
            let mut a: usize = 0;
            while a < width
                invariant
                    0 <= a <= width,
                    width == attributes@.len(),
                    columns.len() == attributes@.len(),
                    forall|b: int| 0 <= b < columns.len() ==> #[trigger] columns[b] == attributes@[b].data.content(),
                    forall|b: int| 0 <= b < columns.len() ==> (#[trigger] columns[b]) is Nominal,
                    forall|b: int| 0 <= b < attributes@.len() ==> (#[trigger] attributes@[b]).data.wf(),
                    row@.len() == a,
                    forall|b: int|
                        0 <= b < a ==> (#[trigger] row@[b])@.len() == fields_in(columns[b])
                            && forall|v: int| 0 <= v < row@[b]@.len() ==> #[trigger] row@[b]@[v] == 0,
                decreases width - a,
            {
                assert(columns[a as int] is Nominal);
                let (_, field_count) = nominal_of(&attributes[a].data);
                row.push(zeros(field_count));
                a += 1;
            }
            counts.push(row);
            t += 1;
        }
        let mut sizes = zeros(class_count);
        let mut i: usize = 0;
        while i < n
            invariant
                0 <= i <= n,
                n == instances_in(columns),
                width == attributes@.len(),
                columns.len() == attributes@.len(),
                countable(columns, target),
                classes@ == ids_of(columns[target as int]),
                class_count == fields_in(columns[target as int]),
                forall|a: int| 0 <= a < columns.len() ==> #[trigger] columns[a] == attributes@[a].data.content(),
                forall|a: int| 0 <= a < attributes@.len() ==> (#[trigger] attributes@[a]).data.wf(),
                sizes@.len() == class_count,
                counts@.len() == class_count,
                forall|s: int| 0 <= s < class_count ==> #[trigger] sizes@[s] == joint(classes@, classes@, s, s, i as nat),
                forall|s: int|
                    0 <= s < class_count ==> (#[trigger] counts@[s])@.len() == width && forall|a: int|
                        0 <= a < width ==> (#[trigger] counts@[s]@[a])@.len() == fields_in(columns[a])
                            && forall|v: int|
                            0 <= v < counts@[s]@[a]@.len() ==> #[trigger] counts@[s]@[a]@[v] == joint(
                                classes@,
                                ids_of(columns[a]),
                                s,
                                v,
                                i as nat,
                            ),
            decreases n - i,
        {
            assert(ids_of(columns[target as int])[i as int] < fields_in(columns[target as int]));
            let class: usize = classes[i] as usize;
            proof {
                lemma_joint_bound(classes@, classes@, class as int, class as int, i as nat);
            }
            let ghost old_sizes = sizes@;
            sizes[class] = sizes[class] + 1;
            let mut a: usize = 0;
            while a < width
                invariant
                    0 <= a <= width,
                    i < n,
                    n == instances_in(columns),
                    width == attributes@.len(),
                    columns.len() == attributes@.len(),
                    countable(columns, target),
                    classes@ == ids_of(columns[target as int]),
                    class == classes@[i as int],
                    class < class_count,
                    class_count == fields_in(columns[target as int]),
                    forall|b: int| 0 <= b < columns.len() ==> #[trigger] columns[b] == attributes@[b].data.content(),
                    forall|b: int| 0 <= b < attributes@.len() ==> (#[trigger] attributes@[b]).data.wf(),
                    counts@.len() == class_count,
                    forall|s: int|
                        0 <= s < class_count ==> (#[trigger] counts@[s])@.len() == width
                            && forall|b: int|
                            0 <= b < width ==> (#[trigger] counts@[s]@[b])@.len() == fields_in(
                                columns[b],
                            ) && forall|v: int|
                                0 <= v < counts@[s]@[b]@.len() ==> #[trigger] counts@[s]@[b]@[v] == joint(
                                    classes@,
                                    ids_of(columns[b]),
                                    s,
                                    v,
                                    if b < a {
                                        (i + 1) as nat
                                    } else {
                                        i as nat
                                    },
                                ),
                decreases width - a,
            {
                assert(columns[a as int] is Nominal);
                let (ids, _) = nominal_of(&attributes[a].data);
                assert(ids_of(columns[a as int])[i as int] < fields_in(columns[a as int]));
                let value: usize = ids[i] as usize;
                proof {
                    lemma_joint_bound(classes@, ids@, class as int, value as int, i as nat);
                }
                let ghost before = counts@;
                counts[class][a][value] = counts[class][a][value] + 1;
                proof {
                    assert forall|s: int| 0 <= s < class_count implies (#[trigger] counts@[s])@.len()
                        == width && forall|b: int|
                        0 <= b < width ==> (#[trigger] counts@[s]@[b])@.len() == fields_in(
                            columns[b],
                        ) && forall|v: int|
                            0 <= v < counts@[s]@[b]@.len() ==> #[trigger] counts@[s]@[b]@[v] == joint(
                                classes@,
                                ids_of(columns[b]),
                                s,
                                v,
                                if b < a + 1 {
                                    (i + 1) as nat
                                } else {
                                    i as nat
                                },
                            ) by {
                        assert(before[s]@.len() == width);
                        assert forall|b: int| 0 <= b < width implies (#[trigger] counts@[s]@[b])@.len()
                            == fields_in(columns[b]) && forall|v: int|
                            0 <= v < counts@[s]@[b]@.len() ==> #[trigger] counts@[s]@[b]@[v] == joint(
                                classes@,
                                ids_of(columns[b]),
                                s,
                                v,
                                if b < a + 1 {
                                    (i + 1) as nat
                                } else {
                                    i as nat
                                },
                            ) by {
                            assert(before[s]@[b]@.len() == fields_in(columns[b]));
                            assert forall|v: int| 0 <= v < counts@[s]@[b]@.len() implies #[trigger] counts@[s]@[b]@[v]
                                == joint(
                                classes@,
                                ids_of(columns[b]),
                                s,
                                v,
                                if b < a + 1 {
                                    (i + 1) as nat
                                } else {
                                    i as nat
                                },
                            ) by {
                                assert(before[s]@[b]@[v] == joint(
                                    classes@,
                                    ids_of(columns[b]),
                                    s,
                                    v,
                                    if b < a {
                                        (i + 1) as nat
                                    } else {
                                        i as nat
                                    },
                                ));
                            }
                        }
                    }
                }
                a += 1;
            }
            proof {
                assert forall|s: int| 0 <= s < class_count implies #[trigger] sizes@[s] == joint(
                    classes@,
                    classes@,
                    s,
                    s,
                    (i + 1) as nat,
                ) by {
                    assert(old_sizes[s] == joint(classes@, classes@, s, s, i as nat));
                }
            }
            i += 1;
        }
        let model = NaiveBayes { k, sizes, counts };
        proof {
            let expected = counted(columns, target, k as nat);
            assert(model@.sizes =~= expected.sizes);
            assert forall|s: int| 0 <= s < class_count implies #[trigger] model@.counts[s]
                == expected.counts[s] by {
                assert(counts@[s]@.len() == width);
                assert forall|a: int| 0 <= a < width implies #[trigger] model@.counts[s][a]
                    == expected.counts[s][a] by {
                    assert(counts@[s]@[a]@.len() == fields_in(columns[a]));
                    assert(model@.counts[s][a] =~= expected.counts[s][a]);
                }
                assert(model@.counts[s] =~= expected.counts[s]);
            }
            assert(model@.counts =~= expected.counts);
        }
        model
    }
}

impl Model {
    /// Every numerator and every denominator of a probability fits a
    /// machine word.
    pub open spec fn bounded(self) -> bool {
        forall|t: int, a: int|
            0 <= t < self.counts.len() && 0 <= a < self.counts[t].len() ==> self.sizes[t]
                + (#[trigger] self.counts[t][a]).len() * self.k <= usize::MAX && forall|v: int|
                0 <= v < self.counts[t][a].len() ==> #[trigger] self.counts[t][a][v] + self.k
                    <= usize::MAX
    }
}

/// The ids of the instance `j` of `columns`, one for each attribute.
pub open spec fn entry_of(columns: Seq<Content>, j: int) -> Seq<u8> {
    Seq::new(columns.len(), |a: int| ids_of(columns[a])[j])
}

/// The target value that the classifier gives to the instance `j` of
/// `columns`, as it is held in eight bits.
pub open spec fn predicted(model: Model, columns: Seq<Content>, target: usize, j: int) -> int {
    model.likeliest(entry_of(columns, j), target as int, model.sizes.len()) % 256
}

/// How often each target value was predicted for each actual target value
/// among the first `upto` instances of `columns`: the cells of a confusion
/// matrix over `n` values.
pub open spec fn confusion(model: Model, columns: Seq<Content>, target: usize, n: nat, upto: nat) -> Seq<
    u32,
>
    decreases upto,
{
    if upto == 0 {
        Seq::new(n * n, |c: int| 0u32)
    } else {
        let before = confusion(model, columns, target, n, (upto - 1) as nat);
        let cell = predicted(model, columns, target, upto - 1) * n + ids_of(
            columns[target as int],
        )[upto - 1];
        if 0 <= cell < before.len() {
            before.update(cell, (before[cell] + 1) as u32)
        } else {
            before
        }
    }
}

/// No cell of the confusion matrix counts more than the instances.
proof fn lemma_confusion_bound(model: Model, columns: Seq<Content>, target: usize, n: nat, upto: nat)
    requires
        upto <= u32::MAX,
    ensures
        confusion(model, columns, target, n, upto).len() == n * n,
        forall|c: int|
            0 <= c < n * n ==> #[trigger] confusion(model, columns, target, n, upto)[c] <= upto,
    decreases upto,
{
    if upto > 0 {
        lemma_confusion_bound(model, columns, target, n, (upto - 1) as nat);
    }
}

impl NaiveBayes {
    /// Multiplies `acc` by the numerators of the probabilities of the
    /// values of `entry` given the target value `t`, and by the number of
    /// training instances of `t`.
    fn multiply_numerators(&self, acc: &mut BigNat, entry: &[u8], target: usize, t: usize)
        requires
            self@.wf(),
            self@.bounded(),
            self@.admits(entry@, target),
            t < self@.sizes.len(),
        ensures
            final(acc)@ == old(acc)@ * self@.numerator(entry@, target as int, t as int, entry@.len()),
    {
        let ghost start = acc@;
        acc.mul_small(self.sizes[t] as u64);
        let mut a: usize = 0;
        while a < entry.len()
            invariant
                0 <= a <= entry@.len(),
                self@.wf(),
                self@.bounded(),
                self@.admits(entry@, target),
                t < self@.sizes.len(),
                acc@ == start * self@.numerator(entry@, target as int, t as int, a as nat),
            decreases entry@.len() - a,
        {
            proof {
                let x = self@.numerator(entry@, target as int, t as int, a as nat);
                assert((start * x) * 1 == start * (x * 1)) by (nonlinear_arith);
            }
            if a != target {
                assert(entry@[a as int] < self@.counts[t as int][a as int].len());
                assert(self@.counts[t as int].len() == self@.counts[0].len());
                let count: usize = self.counts[t][a][entry[a] as usize];
                assert(count == self@.counts[t as int][a as int][entry@[a as int] as int]);
                let factor: usize = count + self.k;
                proof {
                    let x = self@.numerator(entry@, target as int, t as int, a as nat);
                    assert((start * x) * factor == start * (x * factor)) by (nonlinear_arith);
                }
                acc.mul_small(factor as u64);
            }
            a += 1;
        }
    }

    /// Multiplies `acc` by the denominators of the probabilities given the
    /// target value `t`, one for each attribute of `entry` but `target`.
    fn multiply_denominators(&self, acc: &mut BigNat, entry: &[u8], target: usize, t: usize)
        requires
            self@.wf(),
            self@.bounded(),
            self@.admits(entry@, target),
            t < self@.sizes.len(),
        ensures
            final(acc)@ == old(acc)@ * self@.denominator(target as int, t as int, entry@.len()),
    {
        let ghost start = acc@;
        proof {
            assert(start * 1 == start) by (nonlinear_arith);
        }
        let mut a: usize = 0;
        while a < entry.len()
            invariant
                0 <= a <= entry@.len(),
                self@.wf(),
                self@.bounded(),
                self@.admits(entry@, target),
                t < self@.sizes.len(),
                acc@ == start * self@.denominator(target as int, t as int, a as nat),
            decreases entry@.len() - a,
        {
            proof {
                let x = self@.denominator(target as int, t as int, a as nat);
                assert((start * x) * 1 == start * (x * 1)) by (nonlinear_arith);
            }
            if a != target {
                assert(entry@[a as int] < self@.counts[t as int][a as int].len());
                assert(self@.counts[t as int].len() == self@.counts[0].len());
                let fields: usize = self.counts[t][a].len();
                assert(fields == self@.counts[t as int][a as int].len());
                assert(self@.sizes[t as int] + self@.counts[t as int][a as int].len() * self@.k
                    <= usize::MAX);
                assert(0 <= fields * self.k <= self@.sizes[t as int] + fields * self.k)
                    by (nonlinear_arith)
                    requires
                        fields >= 0,
                        self.k >= 0,
                        self@.sizes[t as int] >= 0,
                ;
                let factor: usize = self.sizes[t] + fields * self.k;
                proof {
                    let x = self@.denominator(target as int, t as int, a as nat);
                    assert((start * x) * factor == start * (x * factor)) by (nonlinear_arith);
                }
                acc.mul_small(factor as u64);
            }
            a += 1;
        }
    }

    /// Tells whether the target value `t` is at least as likely for `entry`
    /// as the target value `u`.
    fn likely(&self, entry: &[u8], target: usize, t: usize, u: usize) -> (at_least: bool)
        requires
            self@.wf(),
            self@.bounded(),
            self@.admits(entry@, target),
            t < self@.sizes.len(),
            u < self@.sizes.len(),
        ensures
            at_least == self@.at_least(entry@, target as int, t as int, u as int),
    {
        let mut left = BigNat::one();
        self.multiply_numerators(&mut left, entry, target, t);
        self.multiply_denominators(&mut left, entry, target, u);
        let mut right = BigNat::one();
        self.multiply_numerators(&mut right, entry, target, u);
        self.multiply_denominators(&mut right, entry, target, t);
        proof {
            let nt = self@.numerator(entry@, target as int, t as int, entry@.len());
            let nu = self@.numerator(entry@, target as int, u as int, entry@.len());
            assert(1 * nt == nt) by (nonlinear_arith);
            assert(1 * nu == nu) by (nonlinear_arith);
        }
        right.le(&left)
    }

    /// The most likely target value for `entry`, which holds the id of a
    /// value for each attribute; of several such target values, the last.
    /// The value of `entry` at `target` is not looked at.
    pub fn query(&self, entry: &[u8], target: usize) -> (class: u8)
        requires
            self@.wf(),
            self@.bounded(),
            self@.admits(entry@, target),
        ensures
            class == self@.likeliest(entry@, target as int, self@.sizes.len()) % 256,
    {
        let mut best: usize = 0;
        let mut t: usize = 1;
        while t < self.sizes.len()
            invariant
                1 <= t <= self@.sizes.len(),
                0 <= best < t,
                self@.wf(),
                self@.bounded(),
                self@.admits(entry@, target),
                best == self@.likeliest(entry@, target as int, t as nat),
            decreases self@.sizes.len() - t,
        {
            if self.likely(entry, target, t, best) {
                best = t;
            }
            t += 1;
        }
        (best % 256) as u8
    }

    /// Classifies every instance of `test_set` and counts, in a confusion
    /// matrix over the values of the target of `test_set`, how often each
    /// value was predicted for each actual value.
    pub fn test(&self, test_set: &DataSet, target: usize, _target_value: u8) -> (matrix:
        ConfusionMatrix)
        requires
            self@.wf(),
            self@.bounded(),
            test_set.wf(),
            countable(contents(test_set.declared()), target),
            instances_in(contents(test_set.declared())) < u32::MAX,
            self@.sizes.len() <= fields_in(contents(test_set.declared())[target as int]),
            fields_in(contents(test_set.declared())[target as int]) * fields_in(
                contents(test_set.declared())[target as int],
            ) <= usize::MAX,
            forall|j: int|
                0 <= j < instances_in(contents(test_set.declared())) ==> self@.admits(
                    #[trigger] entry_of(contents(test_set.declared()), j),
                    target,
                ),
        ensures
            matrix.wf(),
            matrix.size() == fields_in(contents(test_set.declared())[target as int]),
            matrix.cells() == confusion(
                self@,
                contents(test_set.declared()),
                target,
                fields_in(contents(test_set.declared())[target as int]),
                instances_in(contents(test_set.declared())),
            ),
    {
        let ghost columns = contents(test_set.declared());
        let n: usize = target_fields(test_set, target);
        let m: usize = instance_count(test_set, target);
        let mut matrix = ConfusionMatrix::new(n);
        let mut j: usize = 0;
        proof {
            assert(matrix.cells() =~= confusion(self@, columns, target, n as nat, 0));
        }
        while j < m
            invariant
                0 <= j <= m,
                m == instances_in(columns),
                m < u32::MAX,
                n == fields_in(columns[target as int]),
                columns == contents(test_set.declared()),
                test_set.wf(),
                countable(columns, target),
                self@.wf(),
                self@.bounded(),
                self@.sizes.len() <= n,
                forall|i: int| 0 <= i < m ==> self@.admits(#[trigger] entry_of(columns, i), target),
                matrix.wf(),
                matrix.size() == n,
                matrix.cells() == confusion(self@, columns, target, n as nat, j as nat),
            decreases m - j,
        {
            let entry = instance_ids(test_set, target, j);
            proof {
                assert(self@.admits(entry_of(columns, j as int), target));
                lemma_confusion_bound(self@, columns, target, n as nat, j as nat);
                lemma_likeliest_bound(self@, entry@, target as int, self@.sizes.len());
            }
            let class = self.query(entry.as_slice(), target) as usize;
            let actual = entry[target] as usize;
            proof {
                let cell = class * n + actual;
                assert(0 <= cell < n * n) by (nonlinear_arith)
                    requires
                        0 <= class < n,
                        0 <= actual < n,
                        cell == class * n + actual,
                ;
            }
            matrix.add_prediction(class, actual);
            j += 1;
        }
        matrix
    }
}

/// The number of different fields of the attribute `target`.
fn target_fields(data: &DataSet, target: usize) -> (n: usize)
    requires
        data.wf(),
        countable(contents(data.declared()), target),
    ensures
        n == fields_in(contents(data.declared())[target as int]),
{
    let ghost columns = contents(data.declared());
    let attributes = data.get_attributes();
    proof {
        data.lemma_view();
        assert(columns[target as int] == attributes@[target as int].data.content());
        assert(columns[target as int] is Nominal);
    }
    let (_, n) = nominal_of(&attributes[target].data);
    n
}

/// The number of instances of a data set of nominal attributes.
fn instance_count(data: &DataSet, target: usize) -> (m: usize)
    requires
        data.wf(),
        countable(contents(data.declared()), target),
    ensures
        m == instances_in(contents(data.declared())),
{
    let ghost columns = contents(data.declared());
    proof {
        data.lemma_view();
        assert(columns[0] == data.attributes()[0].data.content());
        assert(columns[0] is Nominal);
        assert(data@[0] == data.attributes()[0].data@);
    }
    data.get_data_len()
}

/// The ids of the instance `j`, one for each attribute.
fn instance_ids(data: &DataSet, target: usize, j: usize) -> (entry: Vec<u8>)
    requires
        data.wf(),
        countable(contents(data.declared()), target),
        j < instances_in(contents(data.declared())),
    ensures
        entry@ == entry_of(contents(data.declared()), j as int),
        entry@.len() > target,
        entry@[target as int] < fields_in(contents(data.declared())[target as int]),
{
    let ghost columns = contents(data.declared());
    let attributes = data.get_attributes();
    let width: usize = attributes.len();
    proof {
        data.lemma_view();
        assert(columns.len() == attributes@.len());
        assert forall|a: int| 0 <= a < columns.len() implies #[trigger] columns[a]
            == attributes@[a].data.content() by {}
    }
    let mut entry: Vec<u8> = Vec::new();
    let mut a: usize = 0;
    while a < width
        invariant
            0 <= a <= width,
            j < instances_in(columns),
            width == columns.len(),
            columns.len() == attributes@.len(),
            countable(columns, target),
            forall|b: int| 0 <= b < columns.len() ==> #[trigger] columns[b] == attributes@[b].data.content(),
            forall|b: int| 0 <= b < attributes@.len() ==> (#[trigger] attributes@[b]).data.wf(),
            entry@ == entry_of(columns, j as int).take(a as int),
        decreases width - a,
    {
        assert(columns[a as int] is Nominal);
        let (ids, _) = nominal_of(&attributes[a].data);
        entry.push(ids[j]);
        proof {
            let all = entry_of(columns, j as int);
            assert(all.take(a + 1) =~= all.take(a as int).push(all[a as int]));
        }
        a += 1;
    }
    proof {
        let all = entry_of(columns, j as int);
        assert(all.take(width as int) =~= all);
        assert(columns[target as int] is Nominal);
        assert(ids_of(columns[target as int])[j as int] < fields_in(columns[target as int]));
    }
    entry
}

/// The most likely target value is one of the target values.
proof fn lemma_likeliest_bound(model: Model, entry: Seq<u8>, target: int, upto: nat)
    ensures
        0 <= model.likeliest(entry, target, upto),
        upto >= 1 ==> model.likeliest(entry, target, upto) < upto,
    decreases upto,
{
    if upto > 1 {
        lemma_likeliest_bound(model, entry, target, (upto - 1) as nat);
    }
}

} // verus!
