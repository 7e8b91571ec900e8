//! Counts of right and wrong predictions.
use vstd::prelude::*;

verus! {

/// How the pairs of one run of an iterator through all of another are laid
/// out: the pair of `i` and `j` stands at the place `i * n + j`.
pub open spec fn grid(n: nat) -> Seq<(usize, usize)> {
    Seq::new(n * n, |k: int| ((k / (n as int)) as usize, (k % (n as int)) as usize))
}

/// `cartesian_product` of the crate `itertools`, on the range from zero to
/// `n` with itself: all pairs of two indices below `n`, the first index
/// changing slowest.
#[verifier::external_body]
fn index_pairs(n: usize) -> (pairs: Vec<(usize, usize)>)
    requires
        n * n <= usize::MAX,
    ensures
        pairs@ == grid(n as nat),
{
    itertools::Itertools::cartesian_product(0..n, 0..n).collect()
}

/// Simplified statistics that keep track of right and wrong predictions.
pub struct RightVsWrong {
    right: u64,
    wrong: u64,
}

impl RightVsWrong {
    /// The number of right predictions.
    pub closed spec fn right(&self) -> u64 {
        self.right
    }

    /// The number of wrong predictions.
    pub closed spec fn wrong(&self) -> u64 {
        self.wrong
    }

    /// The number of right predictions.
    pub fn get_right(&self) -> (right: u64)
        ensures
            right == self.right(),
    {
        self.right
    }

    /// The number of wrong predictions.
    pub fn get_wrong(&self) -> (wrong: u64)
        ensures
            wrong == self.wrong(),
    {
        self.wrong
    }

    /// Increases the count of right predictions.
    pub fn was_right(&mut self)
        requires
            old(self).right() < u64::MAX,
        ensures
            final(self).right() == old(self).right() + 1,
            final(self).wrong() == old(self).wrong(),
    {
        self.right += 1;
    }

    /// Increases the count of wrong predictions.
    pub fn was_wrong(&mut self)
        requires
            old(self).wrong() < u64::MAX,
        ensures
            final(self).wrong() == old(self).wrong() + 1,
            final(self).right() == old(self).right(),
    {
        self.wrong += 1;
    }
}

impl Default for RightVsWrong {
    /// No prediction counted yet.
    fn default() -> (counts: Self)
        ensures
            counts.right() == 0,
            counts.wrong() == 0,
    {
        RightVsWrong { right: 0, wrong: 0 }
    }
}

/// The distance between the two indices of the cell at the place `k` of a
/// matrix of `n` columns.
pub open spec fn distance(n: nat, k: int) -> int {
    let predicted = k / (n as int);
    let actual = k % (n as int);
    if predicted >= actual {
        predicted - actual
    } else {
        actual - predicted
    }
}

/// The sum, over the first `upto` cells, of the cell's count times the
/// distance between its indices, or times the square of that distance.
pub open spec fn cost(cells: Seq<u32>, n: nat, upto: nat, squared: bool) -> int
    decreases upto,
{
    if upto == 0 {
        0
    } else {
        cost(cells, n, (upto - 1) as nat, squared) + cells[upto - 1] * if squared {
            distance(n, upto - 1) * distance(n, upto - 1)
        } else {
            distance(n, upto - 1)
        }
    }
}

/// The cost grows with the number of cells.
proof fn lemma_cost_grows(cells: Seq<u32>, n: nat, low: nat, upto: nat, squared: bool)
    requires
        low <= upto,
    ensures
        0 <= cost(cells, n, low, squared) <= cost(cells, n, upto, squared),
    decreases upto,
{
    if upto == 0 {
    } else {
        let d = distance(n, upto - 1);
        let c = cells[upto - 1] as int;
        assert(c * d >= 0 && c * (d * d) >= 0) by (nonlinear_arith)
            requires
                c >= 0,
                d >= 0,
        ;
        if low < upto {
            lemma_cost_grows(cells, n, low, (upto - 1) as nat, squared);
        } else {
            lemma_cost_grows(cells, n, (upto - 1) as nat, (upto - 1) as nat, squared);
        }
    }
}

/// A place below `n * n` splits into a row and a column below `n`.
proof fn lemma_place(n: nat, k: int)
    requires
        0 <= k < n * n,
    ensures
        0 <= k / (n as int) < n,
        0 <= k % (n as int) < n,
        (k / (n as int)) * n + k % (n as int) == k,
{
    assert(n > 0) by (nonlinear_arith)
        requires
            0 <= k < n * n,
    ;
    vstd::arithmetic::div_mod::lemma_fundamental_div_mod(k, n as int);
    vstd::arithmetic::div_mod::lemma_mod_bound(k, n as int);
    let q = k / (n as int);
    let r = k % (n as int);
    assert(0 <= q < n) by (nonlinear_arith)
        requires
            n * q + r == k,
            0 <= r < n,
            0 <= k < n * n,
    ;
    assert(q * n == n * q) by (nonlinear_arith);
}

/// A confusion matrix over `n` values: how often each value was predicted
/// for each actual value. The counts are held row by row in one vector.
pub struct ConfusionMatrix {
    matrix: Vec<u32>,
    n: usize,
}

impl ConfusionMatrix {
    /// The counts, row by row: the count of `predicted` for `actual` stands
    /// at the place `predicted * n + actual`.
    pub closed spec fn cells(&self) -> Seq<u32> {
        self.matrix@
    }

    /// The number of values.
    pub closed spec fn size(&self) -> nat {
        self.n as nat
    }

    /// There is one cell for each pair of values.
    pub open spec fn wf(&self) -> bool {
        self.cells().len() == self.size() * self.size()
    }

    /// A matrix over `n` values without any prediction.
    pub fn new(n: usize) -> (matrix: Self)
        requires
            n * n <= usize::MAX,
        ensures
            matrix.wf(),
            matrix.size() == n,
            forall|k: int| 0 <= k < n * n ==> #[trigger] matrix.cells()[k] == 0,
    {
        let mut matrix: Vec<u32> = Vec::new();
        let cells: usize = n * n;
        let mut k: usize = 0;
        while k < cells
            invariant
                0 <= k <= cells,
                matrix@.len() == k,
                forall|j: int| 0 <= j < k ==> #[trigger] matrix@[j] == 0,
            decreases cells - k,
        {
            matrix.push(0);
            k += 1;
        }
        ConfusionMatrix { matrix, n }
    }

    /// Counts one more prediction of `predicted` for the actual value
    /// `actual`.
    pub fn add_prediction(&mut self, predicted: usize, actual: usize)
        requires
            old(self).wf(),
            predicted < old(self).size(),
            actual < old(self).size(),
            old(self).cells()[predicted * old(self).size() + actual] < u32::MAX,
        ensures
            final(self).wf(),
            final(self).size() == old(self).size(),
            final(self).cells() == old(self).cells().update(
                predicted * old(self).size() + actual,
                (old(self).cells()[predicted * old(self).size() + actual] + 1) as u32,
            ),
    {
        proof {
            let n = self.n as int;
            assert(0 <= predicted * n <= predicted * n + actual < n * n) by (nonlinear_arith)
                requires
                    0 <= predicted < n,
                    0 <= actual < n,
            ;
            assert(self.matrix@.len() == self.matrix.len());
        }
        let index: usize = (predicted * self.n) + actual;
        self.matrix[index] = self.matrix[index] + 1;
    }

    /// How often `predicted` was predicted for the actual value `actual`.
    pub fn get(&self, predicted: usize, actual: usize) -> (count: u32)
        requires
            self.wf(),
            predicted < self.size(),
            actual < self.size(),
        ensures
            count == self.cells()[predicted * self.size() + actual],
    {
        proof {
            let n = self.n as int;
            assert(0 <= predicted * n <= predicted * n + actual < n * n) by (nonlinear_arith)
                requires
                    0 <= predicted < n,
                    0 <= actual < n,
            ;
            assert(self.matrix@.len() == self.matrix.len());
        }
        let index: usize = (predicted * self.n) + actual;
        self.matrix[index]
    }

    /// The sum over all cells of the cell's count times the distance
    /// between the predicted and the actual value. Smaller is better.
    pub fn distance_cost(&self) -> (total: i64)
        requires
            self.wf(),
            cost(self.cells(), self.size(), self.cells().len(), false) <= i64::MAX,
        ensures
            total == cost(self.cells(), self.size(), self.cells().len(), false),
    {
        self.weighted_cost(false)
    }

    /// The sum over all cells of the cell's count times the square of the
    /// distance between the predicted and the actual value. Smaller is
    /// better.
    pub fn distance_squared_cost(&self) -> (total: i64)
        requires
            self.wf(),
            cost(self.cells(), self.size(), self.cells().len(), true) <= i64::MAX,
        ensures
            total == cost(self.cells(), self.size(), self.cells().len(), true),
    {
        self.weighted_cost(true)
    }

    /// The cost over all cells, with the distance or with its square.
    fn weighted_cost(&self, squared: bool) -> (total: i64)
        requires
            self.wf(),
            cost(self.cells(), self.size(), self.cells().len(), squared) <= i64::MAX,
        ensures
            total == cost(self.cells(), self.size(), self.cells().len(), squared),
    {
        let ghost n = self.n as nat;
        let ghost cells = self.matrix@;
        proof {
            assert(cells.len() == self.matrix.len());
            assert(n < 0x1_0000_0000) by (nonlinear_arith)
                requires
                    n * n <= 0xffff_ffff_ffff_ffff,
            ;
        }
        let pairs = index_pairs(self.n);
        let mut total: i64 = 0;
        let mut k: usize = 0;
        while k < pairs.len()
            invariant
                0 <= k <= pairs@.len(),
                self.wf(),
                n == self.n,
                cells == self.matrix@,
                pairs@ == grid(n),
                pairs@.len() == n * n,
                n < 0x1_0000_0000,
                cost(cells, n, cells.len(), squared) <= i64::MAX,
                total == cost(cells, n, k as nat, squared),
            decreases pairs@.len() - k,
        {
            let (predicted, actual) = pairs[k];
            proof {
                lemma_place(n, k as int);
                lemma_cost_grows(cells, n, (k + 1) as nat, cells.len(), squared);
                lemma_cost_grows(cells, n, k as nat, (k + 1) as nat, squared);
                let d = distance(n, k as int);
                let c = cells[k as int] as int;
                assert(0 <= d < 0x1_0000_0000 && 0 <= c < 0x1_0000_0000);
            }
            let count: u32 = self.get(predicted, actual);
            let apart: i128 = if predicted >= actual {
                (predicted - actual) as i128
            } else {
                (actual - predicted) as i128
            };
            let weight: i128 = if squared {
                proof {
                    let d = apart as int;
                    assert(0 <= d * d < 0x1_0000_0000 * 0x1_0000_0000) by (nonlinear_arith)
                        requires
                            0 <= d < 0x1_0000_0000,
                    ;
                }
                apart * apart
            } else {
                apart
            };
            proof {
                let w = weight as int;
                let c = count as int;
                assert(0 <= c * w) by (nonlinear_arith)
                    requires
                        0 <= c,
                        0 <= w,
                ;
                if c > 0 {
                    assert(w <= c * w) by (nonlinear_arith)
                        requires
                            1 <= c,
                            0 <= w,
                    ;
                }
            }
            if count > 0 {
                let term: i64 = ((count as i128) * weight) as i64;
                total = total + term;
            } else {
                proof {
                    assert(0 * (weight as int) == 0) by (nonlinear_arith);
                }
            }
            k += 1;
        }
        total
    }
}

} // verus!
