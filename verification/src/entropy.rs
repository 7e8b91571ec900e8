//! Ranking candidate splits by weighted entropy, exactly.
//!
//! For a split of `n` instances into groups of sizes `s_1 .. s_g`, with `k`
//! ranging over the occurrence counts of the target values inside the
//! groups, the weighted entropy `H` of the split satisfies
//!
//! ```text
//! n * H = sum(s * log2 s) - sum(k * log2 k)
//! 2^(n * H) = (s_1^s_1 * .. * s_g^s_g) / product(k^k)
//! ```
//!
//! Both products are natural numbers. Two splits of the same instances are
//! therefore ranked by cross-multiplying these numbers: no logarithm is
//! taken and nothing is rounded, so that equal entropies are recognised as
//! equal.
use crate::big_nat::BigNat;
use crate::tally::{
    count, distinct, lemma_count_bound, lemma_count_contains, lemma_count_push, lemma_distinct,
    lemma_distinct_push, position, Tally,
};
use vstd::prelude::*;

verus! {

/// `base` multiplied with itself `exponent` times.
pub open spec fn power(base: nat, exponent: nat) -> nat
    decreases exponent,
{
    if exponent == 0 {
        1
    } else {
        base * power(base, (exponent - 1) as nat)
    }
}

/// The product of `k^k` over the numbers `k` of `counts`.
pub open spec fn power_product(counts: Seq<nat>) -> nat
    decreases counts.len(),
{
    if counts.len() == 0 {
        1
    } else {
        power_product(counts.drop_last()) * power(counts.last(), counts.last())
    }
}

/// The occurrence count of each distinct value of `s`, in the order in which
/// the values first occur.
pub open spec fn counts_of(s: Seq<u32>) -> Seq<nat> {
    Seq::new(distinct(s).len(), |j: int| count(s, distinct(s)[j]))
}

/// The product of `k^k` over the occurrence counts `k` of the distinct
/// values of `s`.
pub open spec fn tally_power(s: Seq<u32>) -> nat {
    power_product(counts_of(s))
}

/// The attribute codes of a sequence of (attribute code, target code) pairs.
pub open spec fn codes_of(pairs: Seq<(u32, u32)>) -> Seq<u32> {
    Seq::new(pairs.len(), |i: int| pairs[i].0)
}

/// The target codes of the pairs whose attribute code is `code`, in order.
pub open spec fn targets_of(pairs: Seq<(u32, u32)>, code: u32) -> Seq<u32>
    decreases pairs.len(),
{
    if pairs.len() == 0 {
        Seq::empty()
    } else {
        let earlier = targets_of(pairs.drop_last(), code);
        if pairs.last().0 == code {
            earlier.push(pairs.last().1)
        } else {
            earlier
        }
    }
}

/// The numerator of `2^(n * H)`: the product of `s^s` over the sizes `s` of
/// the groups into which the attribute codes split the pairs.
pub open spec fn split_numerator(pairs: Seq<(u32, u32)>) -> nat {
    tally_power(codes_of(pairs))
}

/// The product of `k^k` over the occurrence counts `k` of the target codes
/// inside each of the first `groups` groups.
pub open spec fn split_denominator_upto(pairs: Seq<(u32, u32)>, groups: nat) -> nat
    decreases groups,
{
    if groups == 0 {
        1
    } else {
        split_denominator_upto(pairs, (groups - 1) as nat) * tally_power(
            targets_of(pairs, distinct(codes_of(pairs))[groups - 1]),
        )
    }
}

/// The denominator of `2^(n * H)`: the product of `k^k` over the occurrence
/// counts `k` of the target codes inside every group.
pub open spec fn split_denominator(pairs: Seq<(u32, u32)>) -> nat {
    split_denominator_upto(pairs, distinct(codes_of(pairs)).len())
}

/// The occurrence counts of the target codes inside each of the first
/// `groups` groups, group after group.
pub open spec fn split_cells_upto(pairs: Seq<(u32, u32)>, groups: nat) -> Seq<nat>
    decreases groups,
{
    if groups == 0 {
        Seq::empty()
    } else {
        split_cells_upto(pairs, (groups - 1) as nat) + counts_of(
            targets_of(pairs, distinct(codes_of(pairs))[groups - 1]),
        )
    }
}

/// The occurrence counts of the target codes inside every group, group
/// after group: the cells of the two-level count table.
pub open spec fn split_cells(pairs: Seq<(u32, u32)>) -> Seq<nat> {
    split_cells_upto(pairs, distinct(codes_of(pairs)).len())
}

/// The sizes of the groups, in the order in which their attribute codes
/// first occur.
pub open spec fn split_sizes(pairs: Seq<(u32, u32)>) -> Seq<nat> {
    counts_of(codes_of(pairs))
}

/// The numbers of a vector of machine words.
pub open spec fn nats(v: Seq<usize>) -> Seq<nat> {
    Seq::new(v.len(), |i: int| v[i] as nat)
}

/// A power is positive unless its base is zero and its exponent is not.
pub proof fn lemma_power_positive(base: nat, exponent: nat)
    requires
        base > 0 || exponent == 0,
    ensures
        power(base, exponent) > 0,
    decreases exponent,
{
    if exponent > 0 {
        lemma_power_positive(base, (exponent - 1) as nat);
        assert(base * power(base, (exponent - 1) as nat) > 0) by (nonlinear_arith)
            requires
                base > 0,
                power(base, (exponent - 1) as nat) > 0,
        ;
    }
}

/// A product of self-powers is positive.
pub proof fn lemma_power_product_positive(counts: Seq<nat>)
    ensures
        power_product(counts) > 0,
    decreases counts.len(),
{
    if counts.len() > 0 {
        lemma_power_product_positive(counts.drop_last());
        lemma_power_positive(counts.last(), counts.last());
        assert(power_product(counts.drop_last()) * power(counts.last(), counts.last()) > 0)
            by (nonlinear_arith)
            requires
                power_product(counts.drop_last()) > 0,
                power(counts.last(), counts.last()) > 0,
        ;
    }
}

/// The product over a concatenation is the product of the two products.
pub proof fn lemma_power_product_concat(a: Seq<nat>, b: Seq<nat>)
    ensures
        power_product(a + b) == power_product(a) * power_product(b),
    decreases b.len(),
{
    if b.len() == 0 {
        assert(a + b =~= a);
        assert(power_product(a) * 1 == power_product(a)) by (nonlinear_arith);
    } else {
        lemma_power_product_concat(a, b.drop_last());
        assert((a + b).drop_last() =~= a + b.drop_last());
        assert((a + b).last() == b.last());
        let x = power_product(a);
        let y = power_product(b.drop_last());
        let z = power(b.last(), b.last());
        assert((x * y) * z == x * (y * z)) by (nonlinear_arith);
    }
}

/// The denominator is the product of `k^k` over the cells.
pub proof fn lemma_split_cells(pairs: Seq<(u32, u32)>, groups: nat)
    ensures
        power_product(split_cells_upto(pairs, groups)) == split_denominator_upto(pairs, groups),
    decreases groups,
{
    if groups > 0 {
        lemma_split_cells(pairs, (groups - 1) as nat);
        lemma_power_product_concat(
            split_cells_upto(pairs, (groups - 1) as nat),
            counts_of(targets_of(pairs, distinct(codes_of(pairs))[groups - 1])),
        );
    }
}

/// Both parts of `2^(n * H)` are positive.
pub proof fn lemma_split_positive(pairs: Seq<(u32, u32)>)
    ensures
        split_numerator(pairs) > 0,
        split_denominator(pairs) > 0,
{
    lemma_power_product_positive(counts_of(codes_of(pairs)));
    lemma_split_denominator_upto_positive(pairs, distinct(codes_of(pairs)).len());
}

proof fn lemma_split_denominator_upto_positive(pairs: Seq<(u32, u32)>, groups: nat)
    ensures
        split_denominator_upto(pairs, groups) > 0,
    decreases groups,
{
    if groups > 0 {
        lemma_split_denominator_upto_positive(pairs, (groups - 1) as nat);
        let t = targets_of(pairs, distinct(codes_of(pairs))[groups - 1]);
        lemma_power_product_positive(counts_of(t));
        assert(split_denominator_upto(pairs, (groups - 1) as nat) * tally_power(t) > 0)
            by (nonlinear_arith)
            requires
                split_denominator_upto(pairs, (groups - 1) as nat) > 0,
                tally_power(t) > 0,
        ;
    }
}

/// How the codes and the groups grow when one pair is appended.
pub proof fn lemma_pairs_push(pairs: Seq<(u32, u32)>, code: u32, target: u32)
    ensures
        codes_of(pairs.push((code, target))) == codes_of(pairs).push(code),
        targets_of(pairs.push((code, target)), code) == targets_of(pairs, code).push(target),
        forall|other: u32|
            other != code ==> #[trigger] targets_of(pairs.push((code, target)), other)
                == targets_of(pairs, other),
{
    assert(pairs.push((code, target)).drop_last() =~= pairs);
    assert(codes_of(pairs.push((code, target))) =~= codes_of(pairs).push(code));
}

/// A group holds as many targets as its code occurs among the codes.
pub proof fn lemma_targets_len(pairs: Seq<(u32, u32)>, code: u32)
    ensures
        targets_of(pairs, code).len() == count(codes_of(pairs), code),
    decreases pairs.len(),
{
    if pairs.len() > 0 {
        lemma_targets_len(pairs.drop_last(), code);
        assert(codes_of(pairs).drop_last() =~= codes_of(pairs.drop_last()));
    }
}

/// Only values that occur are counted: no occurrence count is zero.
pub proof fn lemma_counts_positive(s: Seq<u32>)
    ensures
        forall|j: int| 0 <= j < counts_of(s).len() ==> #[trigger] counts_of(s)[j] > 0,
{
    lemma_distinct(s);
    assert forall|j: int| 0 <= j < counts_of(s).len() implies #[trigger] counts_of(s)[j] > 0 by {
        assert(distinct(s).contains(distinct(s)[j]));
        lemma_count_contains(s, distinct(s)[j]);
    }
}

/// The sum of `counts`.
pub open spec fn total(counts: Seq<nat>) -> nat
    decreases counts.len(),
{
    if counts.len() == 0 {
        0
    } else {
        total(counts.drop_last()) + counts.last()
    }
}

proof fn lemma_total_update(counts: Seq<nat>, at: int)
    requires
        0 <= at < counts.len(),
    ensures
        total(counts.update(at, counts[at] + 1)) == total(counts) + 1,
    decreases counts.len(),
{
    let after = counts.update(at, counts[at] + 1);
    if at == counts.len() - 1 {
        assert(after.drop_last() =~= counts.drop_last());
    } else {
        lemma_total_update(counts.drop_last(), at);
        assert(after.drop_last() =~= counts.drop_last().update(at, counts[at] + 1));
    }
}

/// The occurrence counts of the distinct values of a sequence add up to its
/// length.
pub proof fn lemma_counts_total(s: Seq<u32>)
    ensures
        total(counts_of(s)) == s.len(),
    decreases s.len(),
{
    if s.len() == 0 {
        assert(counts_of(s) =~= Seq::<nat>::empty());
    } else {
        let front = s.drop_last();
        let x = s.last();
        let keys = distinct(front);
        lemma_counts_total(front);
        assert(front.push(x) =~= s);
        lemma_distinct(front);
        lemma_distinct_push(front, x);
        assert forall|j: int| 0 <= j < keys.len() implies count(s, keys[j]) == count(
            front,
            keys[j],
        ) + if keys[j] == x {
            1nat
        } else {
            0nat
        } by {
            lemma_count_push(front, x, keys[j]);
        }
        if keys.contains(x) {
            let at = choose|at: int| 0 <= at < keys.len() && keys[at] == x;
            assert(counts_of(s) =~= counts_of(front).update(at, counts_of(front)[at] + 1));
            lemma_total_update(counts_of(front), at);
        } else {
            lemma_count_push(front, x, x);
            lemma_count_contains(front, x);
            assert(counts_of(s) =~= counts_of(front).push(1));
            assert(counts_of(s).drop_last() =~= counts_of(front));
        }
    }
}

/// A power of a product is the product of the powers.
pub proof fn lemma_power_of_product(a: nat, b: nat, exponent: nat)
    ensures
        power(a * b, exponent) == power(a, exponent) * power(b, exponent),
    decreases exponent,
{
    if exponent > 0 {
        lemma_power_of_product(a, b, (exponent - 1) as nat);
        let x = power(a, (exponent - 1) as nat);
        let y = power(b, (exponent - 1) as nat);
        assert(power(a * b, exponent) == (a * b) * power(a * b, (exponent - 1) as nat));
        assert(power(a * b, (exponent - 1) as nat) == x * y);
        assert(power(a * b, exponent) == (a * b) * (x * y));
        assert(power(a, exponent) == a * x);
        assert(power(b, exponent) == b * y);
        assert((a * b) * (x * y) == (a * x) * (b * y)) by (nonlinear_arith);
        assert(power(a, exponent) * power(b, exponent) == (a * x) * (b * y));
    } else {
        assert(power(a * b, exponent) == 1);
        assert(power(a, exponent) == 1);
        assert(power(b, exponent) == 1);
    }
}

/// A power with a sum as exponent is the product of the two powers.
pub proof fn lemma_power_of_sum(base: nat, e1: nat, e2: nat)
    ensures
        power(base, e1 + e2) == power(base, e1) * power(base, e2),
    decreases e1,
{
    if e1 == 0 {
        assert(1 * power(base, e2) == power(base, e2)) by (nonlinear_arith);
    } else {
        lemma_power_of_sum(base, (e1 - 1) as nat, e2);
        let x = power(base, (e1 - 1) as nat);
        let y = power(base, e2);
        assert(base * (x * y) == (base * x) * y) by (nonlinear_arith);
    }
}

/// In a sequence of equal values there is one distinct value, and its count
/// is the length.
proof fn lemma_uniform_counts(s: Seq<u32>, value: u32)
    requires
        s.len() > 0,
        forall|k: int| 0 <= k < s.len() ==> s[k] == value,
    ensures
        distinct(s) == seq![value],
        count(s, value) == s.len(),
        counts_of(s) == seq![s.len()],
    decreases s.len(),
{
    assert(s[s.len() - 1] == value);
    if s.len() > 1 {
        let front = s.drop_last();
        assert forall|k: int| 0 <= k < front.len() implies front[k] == value by {
            assert(front[k] == s[k]);
        }
        lemma_uniform_counts(front, value);
        assert(distinct(front)[0] == value);
        assert(distinct(front).contains(value));
    } else {
        assert(s.drop_last() =~= Seq::<u32>::empty());
        assert(distinct(s.drop_last()) =~= Seq::<u32>::empty());
        assert(count(s.drop_last(), value) == 0);
        assert(distinct(s) =~= seq![value]);
    }
    assert(count(s, value) == s.len());
    assert(counts_of(s) =~= seq![s.len()]);
}

/// Where every pair with the attribute code `code` has the target code
/// `target`, the group of `code` holds nothing but `target`.
proof fn lemma_pure_group(pairs: Seq<(u32, u32)>, code: u32, target: u32)
    requires
        forall|i: int| 0 <= i < pairs.len() && pairs[i].0 == code ==> pairs[i].1 == target,
    ensures
        forall|k: int|
            0 <= k < targets_of(pairs, code).len() ==> targets_of(pairs, code)[k] == target,
    decreases pairs.len(),
{
    if pairs.len() > 0 {
        let front = pairs.drop_last();
        assert forall|i: int| 0 <= i < front.len() && front[i].0 == code implies front[i].1
            == target by {
            assert(front[i] == pairs[i]);
        }
        lemma_pure_group(front, code, target);
        let earlier = targets_of(front, code);
        assert forall|k: int| 0 <= k < targets_of(pairs, code).len() implies targets_of(
            pairs,
            code,
        )[k] == target by {
            if k < earlier.len() {
                assert(earlier[k] == target);
            } else {
                assert(pairs[pairs.len() - 1].1 == target);
            }
        }
    }
}

/// A split in which every attribute code goes with a single target code
/// has weighted entropy zero: `2^(n * H)` is one.
pub proof fn lemma_pure_split_has_no_entropy(pairs: Seq<(u32, u32)>)
    requires
        forall|i: int, j: int|
            0 <= i < pairs.len() && 0 <= j < pairs.len() && pairs[i].0 == pairs[j].0 ==> pairs[i].1
                == pairs[j].1,
    ensures
        split_numerator(pairs) == split_denominator(pairs),
{
    let codes = codes_of(pairs);
    lemma_pure_upto(pairs, distinct(codes).len());
    assert(counts_of(codes).take(distinct(codes).len() as int) =~= counts_of(codes));
}

proof fn lemma_pure_upto(pairs: Seq<(u32, u32)>, groups: nat)
    requires
        groups <= distinct(codes_of(pairs)).len(),
        forall|i: int, j: int|
            0 <= i < pairs.len() && 0 <= j < pairs.len() && pairs[i].0 == pairs[j].0 ==> pairs[i].1
                == pairs[j].1,
    ensures
        split_denominator_upto(pairs, groups) == power_product(
            counts_of(codes_of(pairs)).take(groups as int),
        ),
    decreases groups,
{
    let codes = codes_of(pairs);
    let sizes = counts_of(codes);
    if groups == 0 {
        assert(sizes.take(0) =~= Seq::<nat>::empty());
    } else {
        lemma_pure_upto(pairs, (groups - 1) as nat);
        let code = distinct(codes)[groups - 1];
        lemma_distinct(codes);
        assert(distinct(codes).contains(code));
        assert(codes.contains(code));
        let i = choose|i: int| 0 <= i < codes.len() && codes[i] == code;
        let target = pairs[i].1;
        lemma_pure_group(pairs, code, target);
        lemma_targets_len(pairs, code);
        lemma_count_contains(codes, code);
        lemma_uniform_counts(targets_of(pairs, code), target);
        let size = count(codes, code);
        assert(sizes.take(groups as int).drop_last() =~= sizes.take(groups - 1));
        assert(sizes.take(groups as int).last() == size);
        assert(seq![size].drop_last() =~= Seq::<nat>::empty());
        assert(power_product(seq![size].drop_last()) == 1);
        assert(seq![size].last() == size);
        assert(power_product(seq![size]) == 1 * power(size, size));
        assert(1 * power(size, size) == power(size, size)) by (nonlinear_arith);
    }
}

/// A split in which every group is shared evenly by two target codes has a
/// weighted entropy of one bit: `2^(n * H)` is `2^n`.
pub proof fn lemma_even_split_has_one_bit(pairs: Seq<(u32, u32)>)
    requires
        forall|j: int|
            0 <= j < distinct(codes_of(pairs)).len() ==> {
                let shares = counts_of(
                    targets_of(pairs, #[trigger] distinct(codes_of(pairs))[j]),
                );
                shares.len() == 2 && shares[0] == shares[1]
            },
    ensures
        split_numerator(pairs) == split_denominator(pairs) * power(2, pairs.len()),
{
    let codes = codes_of(pairs);
    let sizes = counts_of(codes);
    lemma_even_upto(pairs, distinct(codes).len());
    assert(sizes.take(distinct(codes).len() as int) =~= sizes);
    lemma_counts_total(codes);
}

proof fn lemma_even_upto(pairs: Seq<(u32, u32)>, groups: nat)
    requires
        groups <= distinct(codes_of(pairs)).len(),
        forall|j: int|
            0 <= j < distinct(codes_of(pairs)).len() ==> {
                let shares = counts_of(
                    targets_of(pairs, #[trigger] distinct(codes_of(pairs))[j]),
                );
                shares.len() == 2 && shares[0] == shares[1]
            },
    ensures
        power_product(counts_of(codes_of(pairs)).take(groups as int)) == split_denominator_upto(
            pairs,
            groups,
        ) * power(2, total(counts_of(codes_of(pairs)).take(groups as int))),
    decreases groups,
{
    let codes = codes_of(pairs);
    let sizes = counts_of(codes);
    if groups == 0 {
        assert(sizes.take(0) =~= Seq::<nat>::empty());
        assert(total(sizes.take(0)) == 0);
        assert(power(2, 0) == 1);
        assert(power_product(sizes.take(0)) == 1);
        assert(split_denominator_upto(pairs, 0) == 1);
    } else {
        lemma_even_upto(pairs, (groups - 1) as nat);
        let code = distinct(codes)[groups - 1];
        let targets = targets_of(pairs, code);
        let shares = counts_of(targets);
        assert(shares.len() == 2 && shares[0] == shares[1]);
        let half = shares[0];
        lemma_targets_len(pairs, code);
        lemma_counts_total(targets);
        let first = shares.drop_last();
        assert(first.drop_last() =~= Seq::<nat>::empty());
        assert(total(first.drop_last()) == 0);
        assert(power_product(first.drop_last()) == 1);
        assert(first.last() == half);
        assert(total(first) == half);
        assert(total(shares) == half + half);
        assert(power_product(first) == 1 * power(half, half));
        let size = count(codes, code);
        assert(size == half + half);
        assert(sizes.take(groups as int).drop_last() =~= sizes.take(groups - 1));
        assert(sizes.take(groups as int).last() == size);
        let below = sizes.take(groups - 1);
        let hh = power(half, half);
        lemma_power_of_product(2, half, size);
        lemma_power_of_sum(half, half, half);
        lemma_power_of_sum(2, total(below), size);
        assert(2 * half == size);
        let d = split_denominator_upto(pairs, (groups - 1) as nat);
        let p = power(2, total(below));
        let q = power(2, size);
        assert(tally_power(targets) == (1 * hh) * hh);
        assert(power(size, size) == q * (hh * hh));
        assert(total(sizes.take(groups as int)) == total(below) + size);
        assert(power(2, total(sizes.take(groups as int))) == p * q);
        assert(power_product(below) == d * p);
        assert(power_product(sizes.take(groups as int)) == (d * p) * power(size, size));
        assert(split_denominator_upto(pairs, groups) == d * ((1 * hh) * hh));
        assert((d * p) * (q * (hh * hh)) == (d * ((1 * hh) * hh)) * (p * q)) by (nonlinear_arith);
    }
}

/// A power grows with its base, and strictly so for an exponent above
/// zero.
pub proof fn lemma_power_monotonic(a: nat, b: nat, exponent: nat)
    requires
        a <= b,
    ensures
        power(a, exponent) <= power(b, exponent),
        a < b && exponent > 0 ==> power(a, exponent) < power(b, exponent),
    decreases exponent,
{
    if exponent > 0 {
        lemma_power_monotonic(a, b, (exponent - 1) as nat);
        let x = power(a, (exponent - 1) as nat);
        let y = power(b, (exponent - 1) as nat);
        assert(a * x <= b * y) by (nonlinear_arith)
            requires
                a <= b,
                x <= y,
        ;
        if a < b {
            lemma_power_positive(b, (exponent - 1) as nat);
            assert(a * x < b * y) by (nonlinear_arith)
                requires
                    a < b,
                    x <= y,
                    y > 0,
            ;
        }
    }
}

/// Counts that are all at most `bound` have a product of self-powers of at
/// most `bound` to the power of their sum; and a smaller one if one of
/// them is above zero and below `bound`.
pub proof fn lemma_power_product_bound(counts: Seq<nat>, bound: nat)
    requires
        bound > 0,
        forall|i: int| 0 <= i < counts.len() ==> #[trigger] counts[i] <= bound,
    ensures
        power_product(counts) <= power(bound, total(counts)),
        (exists|j: int| 0 <= j < counts.len() && 0 < #[trigger] counts[j] < bound)
            ==> power_product(counts) < power(bound, total(counts)),
    decreases counts.len(),
{
    if counts.len() > 0 {
        let front = counts.drop_last();
        let last = counts.last();
        assert forall|i: int| 0 <= i < front.len() implies #[trigger] front[i] <= bound by {
            assert(front[i] == counts[i]);
        }
        lemma_power_product_bound(front, bound);
        lemma_power_monotonic(last, bound, last);
        lemma_power_of_sum(bound, total(front), last);
        lemma_power_product_positive(front);
        lemma_power_positive(bound, last);
        lemma_power_positive(bound, total(front));
        let a = power_product(front);
        let b = power(bound, total(front));
        let c = power(last, last);
        let d = power(bound, last);
        assert(a * c <= b * d) by (nonlinear_arith)
            requires
                a <= b,
                c <= d,
        ;
        if exists|j: int| 0 <= j < counts.len() && 0 < #[trigger] counts[j] < bound {
            let j = choose|j: int| 0 <= j < counts.len() && 0 < #[trigger] counts[j] < bound;
            if j < front.len() {
                assert(0 < front[j] < bound);
                assert(a * c < b * d) by (nonlinear_arith)
                    requires
                        a < b,
                        c <= d,
                        d > 0,
                ;
            } else {
                assert(a * c < b * d) by (nonlinear_arith)
                    requires
                        0 < a <= b,
                        c < d,
                ;
            }
        }
    }
}

/// The sum of counts is at least the sum of two of them.
proof fn lemma_total_two(counts: Seq<nat>, i: int, j: int)
    requires
        0 <= i < j < counts.len(),
    ensures
        counts[i] + counts[j] <= total(counts),
    decreases counts.len(),
{
    if j < counts.len() - 1 {
        lemma_total_two(counts.drop_last(), i, j);
    } else {
        lemma_total_one(counts.drop_last(), i);
    }
}

/// The sum of counts is at least each of them.
proof fn lemma_total_one(counts: Seq<nat>, i: int)
    requires
        0 <= i < counts.len(),
    ensures
        counts[i] <= total(counts),
    decreases counts.len(),
{
    if i < counts.len() - 1 {
        lemma_total_one(counts.drop_last(), i);
    }
}

/// The self-powers of the occurrence counts of a sequence multiply to at
/// most the self-power of its length, and to less where two values of the
/// sequence differ.
pub proof fn lemma_tally_power_bound(s: Seq<u32>)
    requires
        s.len() > 0,
    ensures
        tally_power(s) <= power(s.len(), s.len()),
        (exists|i: int| 0 <= i < s.len() && #[trigger] s[i] != s[0]) ==> tally_power(s) < power(
            s.len(),
            s.len(),
        ),
{
    let counts = counts_of(s);
    let keys = distinct(s);
    lemma_counts_total(s);
    lemma_distinct(s);
    assert forall|j: int| 0 <= j < counts.len() implies 0 < #[trigger] counts[j] <= s.len() by {
        lemma_count_bound(s, keys[j]);
        lemma_count_contains(s, keys[j]);
        assert(keys.contains(keys[j]));
    }
    lemma_power_product_bound(counts, s.len());
    if exists|i: int| 0 <= i < s.len() && #[trigger] s[i] != s[0] {
        let i = choose|i: int| 0 <= i < s.len() && #[trigger] s[i] != s[0];
        assert(s.contains(s[i]));
        assert(s.contains(s[0]));
        assert(keys.contains(s[i]));
        assert(keys.contains(s[0]));
        let a = choose|a: int| 0 <= a < keys.len() && keys[a] == s[0];
        let b = choose|b: int| 0 <= b < keys.len() && keys[b] == s[i];
        if a < b {
            lemma_total_two(counts, a, b);
        } else {
            lemma_total_two(counts, b, a);
        }
        assert(0 < counts[b]);
        assert(0 < counts[a] < s.len());
    }
}

/// The denominator of the first groups is at most the product of the
/// self-powers of their sizes, and less where a group holds two different
/// target codes.
proof fn lemma_denominator_bound(pairs: Seq<(u32, u32)>, groups: nat)
    requires
        groups <= distinct(codes_of(pairs)).len(),
    ensures
        0 < split_denominator_upto(pairs, groups) <= power_product(
            split_sizes(pairs).take(groups as int),
        ),
        forall|j: int|
            0 <= j < groups && mixed(#[trigger] targets_of(pairs, distinct(codes_of(pairs))[j]))
                ==> split_denominator_upto(pairs, groups) < power_product(
                split_sizes(pairs).take(groups as int),
            ),
    decreases groups,
{
    let codes = codes_of(pairs);
    let sizes = split_sizes(pairs);
    lemma_split_denominator_upto_positive(pairs, groups);
    if groups == 0 {
        assert(sizes.take(0) =~= Seq::<nat>::empty());
    } else {
        lemma_denominator_bound(pairs, (groups - 1) as nat);
        let code = distinct(codes)[groups - 1];
        let targets = targets_of(pairs, code);
        lemma_distinct(codes);
        assert(distinct(codes).contains(code));
        lemma_count_contains(codes, code);
        lemma_targets_len(pairs, code);
        lemma_tally_power_bound(targets);
        let size = count(codes, code);
        assert(sizes.take(groups as int).drop_last() =~= sizes.take(groups - 1));
        assert(sizes.take(groups as int).last() == size);
        let a = split_denominator_upto(pairs, (groups - 1) as nat);
        let b = power_product(sizes.take(groups - 1));
        let c = tally_power(targets);
        let d = power(size, size);
        lemma_split_denominator_upto_positive(pairs, (groups - 1) as nat);
        lemma_power_product_positive(counts_of(targets));
        assert(a * c <= b * d) by (nonlinear_arith)
            requires
                a <= b,
                c <= d,
        ;
        assert forall|j: int|
            0 <= j < groups && mixed(
                #[trigger] targets_of(pairs, distinct(codes)[j]),
            ) implies split_denominator_upto(pairs, groups) < power_product(
            sizes.take(groups as int),
        ) by {
            if j < groups - 1 {
                assert(a * c < b * d) by (nonlinear_arith)
                    requires
                        a < b,
                        0 < c <= d,
                ;
            } else {
                assert(a * c < b * d) by (nonlinear_arith)
                    requires
                        0 < a <= b,
                        c < d,
                ;
            }
        }
    }
}

/// Two values of `s` differ.
pub open spec fn mixed(s: Seq<u32>) -> bool {
    exists|i: int| 0 <= i < s.len() && #[trigger] s[i] != s[0]
}

/// Weighted entropy is never negative: `2^(n * H)` is at least one. It is
/// above one where a group holds two different target codes.
pub proof fn lemma_entropy_not_negative(pairs: Seq<(u32, u32)>)
    ensures
        0 < split_denominator(pairs) <= split_numerator(pairs),
        forall|j: int|
            0 <= j < distinct(codes_of(pairs)).len() && mixed(
                #[trigger] targets_of(pairs, distinct(codes_of(pairs))[j]),
            ) ==> split_denominator(pairs) < split_numerator(pairs),
{
    let groups = distinct(codes_of(pairs)).len();
    lemma_denominator_bound(pairs, groups);
    assert(split_sizes(pairs).take(groups as int) =~= split_sizes(pairs));
}

/// A split of weighted entropy zero is pure: every attribute code goes
/// with a single target code.
pub proof fn lemma_no_entropy_is_pure(pairs: Seq<(u32, u32)>)
    requires
        split_numerator(pairs) == split_denominator(pairs),
    ensures
        forall|j: int|
            0 <= j < distinct(codes_of(pairs)).len() ==> !mixed(
                #[trigger] targets_of(pairs, distinct(codes_of(pairs))[j]),
            ),
{
    lemma_entropy_not_negative(pairs);
}

/// The two numbers that stand for the weighted entropy `H` of a split of `n`
/// instances: `2^(n * H)` is `numerator() / denominator()`.
pub struct Entropy {
    sizes: Vec<usize>,
    cells: Vec<usize>,
}

impl Entropy {
    /// The sizes of the groups, in the order in which their attribute codes
    /// first arrived.
    pub closed spec fn sizes(&self) -> Seq<nat> {
        nats(self.sizes@)
    }

    /// The count of each target value inside each group, group after group.
    pub closed spec fn cells(&self) -> Seq<nat> {
        nats(self.cells@)
    }

    /// The product of `s^s` over the group sizes `s`.
    pub open spec fn numerator(&self) -> nat {
        power_product(self.sizes())
    }

    /// The product of `k^k` over the counts `k` of each target value inside
    /// each group.
    pub open spec fn denominator(&self) -> nat {
        power_product(self.cells())
    }

    /// The sizes of the groups, in the order in which their attribute codes
    /// first arrived.
    pub fn group_sizes(&self) -> (sizes: &Vec<usize>)
        ensures
            nats(sizes@) == self.sizes(),
    {
        &self.sizes
    }

    /// The count of each target value inside each group, group after group.
    pub fn cell_counts(&self) -> (cells: &Vec<usize>)
        ensures
            nats(cells@) == self.cells(),
    {
        &self.cells
    }

    /// Tells whether the entropy is zero: whether every group is pure.
    pub fn is_zero(&self) -> (zero: bool)
        ensures
            zero == (self.numerator() == self.denominator()),
    {
        let mut up = BigNat::one();
        multiply_self_powers(&mut up, &self.sizes);
        let mut down = BigNat::one();
        multiply_self_powers(&mut down, &self.cells);
        proof {
            assert(1 * self.numerator() == self.numerator()) by (nonlinear_arith);
            assert(1 * self.denominator() == self.denominator()) by (nonlinear_arith);
        }
        up.le(&down) && down.le(&up)
    }

    /// Tells whether this entropy is at most `other`, for two splits of the
    /// same number of instances.
    pub fn le(&self, other: &Entropy) -> (r: bool)
        ensures
            r == (self.numerator() * other.denominator() <= other.numerator()
                * self.denominator()),
    {
        let mut left = BigNat::one();
        multiply_self_powers(&mut left, &self.sizes);
        multiply_self_powers(&mut left, &other.cells);
        let mut right = BigNat::one();
        multiply_self_powers(&mut right, &other.sizes);
        multiply_self_powers(&mut right, &self.cells);
        proof {
            assert(1 * self.numerator() == self.numerator()) by (nonlinear_arith);
            assert(1 * other.numerator() == other.numerator()) by (nonlinear_arith);
        }
        left.le(&right)
    }

    /// Tells whether this entropy is below `other`, for two splits of the
    /// same number of instances.
    pub fn lt(&self, other: &Entropy) -> (r: bool)
        ensures
            r == (self.numerator() * other.denominator() < other.numerator() * self.denominator()),
    {
        !other.le(self)
    }
}

/// Multiplies `acc` by `k^k` for every `k` of `counts`.
fn multiply_self_powers(acc: &mut BigNat, counts: &Vec<usize>)
    ensures
        final(acc)@ == old(acc)@ * power_product(nats(counts@)),
{
    let ghost start = acc@;
    let ghost all = nats(counts@);
    let mut i: usize = 0;
    proof {
        assert(all.take(0) =~= Seq::<nat>::empty());
        assert(start * 1 == start) by (nonlinear_arith);
    }
    while i < counts.len()
        invariant
            0 <= i <= counts@.len(),
            all == nats(counts@),
            acc@ == start * power_product(all.take(i as int)),
        decreases counts@.len() - i,
    {
        let k: usize = counts[i];
        let ghost base = acc@;
        let mut j: usize = 0;
        proof {
            assert(base * 1 == base) by (nonlinear_arith);
        }
        while j < k
            invariant
                0 <= j <= k,
                acc@ == base * power(k as nat, j as nat),
            decreases k - j,
        {
            proof {
                let p = power(k as nat, j as nat);
                assert((base * p) * k == base * (k * p)) by (nonlinear_arith);
            }
            acc.mul_small(k as u64);
            j += 1;
        }
        proof {
            assert(all.take(i + 1).drop_last() =~= all.take(i as int));
            assert(all.take(i + 1).last() == k as nat);
            let x = power_product(all.take(i as int));
            let y = power(k as nat, k as nat);
            assert((start * x) * y == start * (x * y)) by (nonlinear_arith);
        }
        i += 1;
    }
    proof {
        assert(all.take(counts@.len() as int) =~= all);
    }
}

/// A two-level count table: for each attribute code that was inserted, how
/// often each target code was inserted with it.
pub struct Counter {
    codes: Tally<u32>,
    groups: Vec<Tally<u32>>,
    len: usize,
    pairs: Ghost<Seq<(u32, u32)>>,
}

impl View for Counter {
    type V = Seq<(u32, u32)>;

    /// The (attribute code, target code) pairs inserted so far, in order.
    closed spec fn view(&self) -> Seq<(u32, u32)> {
        self.pairs@
    }
}

impl Counter {
    /// The table agrees with the pairs inserted: one group for each distinct
    /// attribute code, in first-arrival order, that tallies the target codes
    /// inserted with that code.
    pub closed spec fn wf(&self) -> bool {
        &&& self.len == self.pairs@.len()
        &&& self.codes.wf()
        &&& self.codes@ == codes_of(self.pairs@)
        &&& self.groups@.len() == distinct(codes_of(self.pairs@)).len()
        &&& forall|j: int|
            0 <= j < self.groups@.len() ==> (#[trigger] self.groups@[j]).wf() && self.groups@[j]@
                == targets_of(self.pairs@, distinct(codes_of(self.pairs@))[j])
    }

    /// The number of pairs inserted.
    pub closed spec fn spec_len(&self) -> usize {
        self.len
    }

    /// An empty table.
    pub fn new() -> (counter: Self)
        ensures
            counter.wf(),
            counter@ == Seq::<(u32, u32)>::empty(),
    {
        let counter = Counter {
            codes: Tally::new(),
            groups: Vec::new(),
            len: 0,
            pairs: Ghost(Seq::empty()),
        };
        proof {
            assert(codes_of(counter.pairs@) =~= Seq::<u32>::empty());
        }
        counter
    }

    /// The number of pairs inserted.
    #[verifier::when_used_as_spec(spec_len)]
    pub fn len(&self) -> (len: usize)
        requires
            self.wf(),
        ensures
            len == self@.len(),
            len == self.spec_len(),
    {
        self.len
    }

    /// Counts one more instance with attribute code `split_value` and target
    /// code `target_value`.
    pub fn insert(&mut self, split_value: u32, target_value: u32)
        requires
            old(self).wf(),
            old(self)@.len() < usize::MAX,
        ensures
            final(self).wf(),
            final(self)@ == old(self)@.push((split_value, target_value)),
    {
        let ghost before = self.pairs@;
        let ghost after = before.push((split_value, target_value));
        let ghost keys = distinct(codes_of(before));
        proof {
            lemma_pairs_push(before, split_value, target_value);
            lemma_distinct(codes_of(before));
            lemma_distinct_push(codes_of(before), split_value);
        }
        let found = position(self.codes.keys(), split_value);
        self.codes.add(split_value);
        match found {
            Some(j) => {
                proof {
                    lemma_targets_len(before, split_value);
                    lemma_count_bound(codes_of(before), split_value);
                }
                self.groups[j].add(target_value);
            },
            None => {
                let mut group: Tally<u32> = Tally::new();
                group.add(target_value);
                proof {
                    lemma_targets_len(before, split_value);
                    lemma_count_contains(codes_of(before), split_value);
                    assert(targets_of(before, split_value) =~= Seq::<u32>::empty());
                }
                self.groups.push(group);
            },
        }
        self.len = self.len + 1;
        self.pairs = Ghost(after);
        proof {
            assert forall|j: int| 0 <= j < self.groups@.len() implies (#[trigger] self.groups@[j]).wf()
                && self.groups@[j]@ == targets_of(after, distinct(codes_of(after))[j]) by {
                if j < keys.len() && keys[j] != split_value {
                    assert(self.groups@[j] == old(self).groups@[j]);
                }
            }
        }
    }

    /// The weighted entropy of the target codes given the attribute codes,
    /// over the pairs inserted so far.
    pub fn entropy(&self) -> (entropy: Entropy)
        requires
            self.wf(),
        ensures
            entropy.sizes() == split_sizes(self@),
            entropy.cells() == split_cells(self@),
            entropy.numerator() == split_numerator(self@),
            entropy.denominator() == split_denominator(self@),
    {
        let ghost codes = codes_of(self.pairs@);
        let sizes = copy_counts(self.codes.counts());
        proof {
            assert(nats(sizes@) =~= counts_of(codes));
        }
        let mut cells: Vec<usize> = Vec::new();
        let mut j: usize = 0;
        proof {
            assert(nats(cells@) =~= Seq::<nat>::empty());
        }
        while j < self.groups.len()
            invariant
                0 <= j <= self.groups@.len(),
                self.wf(),
                nats(cells@) == split_cells_upto(self.pairs@, j as nat),
            decreases self.groups@.len() - j,
        {
            let ghost so_far = cells@;
            let counts = self.groups[j].counts();
            let mut k: usize = 0;
            while k < counts.len()
                invariant
                    0 <= k <= counts@.len(),
                    cells@ == so_far + counts@.take(k as int),
                decreases counts@.len() - k,
            {
                cells.push(counts[k]);
                proof {
                    assert(counts@.take(k + 1) =~= counts@.take(k as int).push(counts@[k as int]));
                    assert(so_far + counts@.take(k + 1) =~= (so_far + counts@.take(k as int)).push(
                        counts@[k as int],
                    ));
                }
                k += 1;
            }
            proof {
                assert(counts@.take(counts@.len() as int) =~= counts@);
                assert(nats(cells@) =~= nats(so_far) + nats(counts@));
                assert(nats(counts@) =~= counts_of(self.groups@[j as int]@));
            }
            j += 1;
        }
        proof {
            lemma_split_cells(self.pairs@, distinct(codes).len());
        }
        Entropy { sizes, cells }
    }
}

/// A copy of `counts`.
fn copy_counts(counts: &Vec<usize>) -> (copy: Vec<usize>)
    ensures
        copy@ == counts@,
{
    let mut copy: Vec<usize> = Vec::new();
    let mut i: usize = 0;
    while i < counts.len()
        invariant
            0 <= i <= counts@.len(),
            copy@ == counts@.take(i as int),
        decreases counts@.len() - i,
    {
        copy.push(counts[i]);
        proof {
            assert(counts@.take(i + 1) =~= counts@.take(i as int).push(counts@[i as int]));
        }
        i += 1;
    }
    proof {
        assert(counts@.take(counts@.len() as int) =~= counts@);
    }
    copy
}

} // verus!
