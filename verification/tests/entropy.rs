use arff_reader::big_nat::BigNat;
use arff_reader::entropy::{Counter, Entropy};

// The weighted entropy in bits that the two lists of counts stand for.
fn bits(entropy: &Entropy, len: usize) -> f32 {
    let grown: f64 = entropy
        .group_sizes()
        .iter()
        .map(|s| (*s as f64) * (*s as f64).log2())
        .sum();
    let shrunk: f64 = entropy
        .cell_counts()
        .iter()
        .map(|k| (*k as f64) * (*k as f64).log2())
        .sum();
    ((grown - shrunk) / len as f64) as f32
}

#[test]
fn test_entropy_three_partitions_equal() {
    let mut counter = Counter::new();
    counter.insert(1, 1);
    counter.insert(2, 1);
    counter.insert(3, 1);

    let result = bits(&counter.entropy(), counter.len());
    assert_eq!(result, 0.0);
}

#[test]
fn test_entropy_two_partitions_half() {
    let mut counter = Counter::new();
    counter.insert(1, 1);
    counter.insert(1, 2);
    counter.insert(2, 1);
    counter.insert(2, 2);

    let result = bits(&counter.entropy(), counter.len());
    assert_eq!(result, 1.0);
}

#[test]
fn test_entropy_thirds() {
    let mut counter = Counter::new();
    counter.insert(1, 1);
    counter.insert(1, 1);
    counter.insert(1, 2);
    counter.insert(1, 2);
    counter.insert(1, 3);
    counter.insert(1, 3);

    let result = bits(&counter.entropy(), counter.len());
    assert!((result - 1.58496250072).abs() <= f32::EPSILON);
}

#[test]
fn counter_keeps_groups_in_order_of_arrival() {
    let mut counter = Counter::new();
    counter.insert(7, 1);
    counter.insert(3, 1);
    counter.insert(7, 2);
    counter.insert(7, 1);
    counter.insert(3, 1);
    assert_eq!(counter.len(), 5);
    let entropy = counter.entropy();
    // group 7 holds three instances, group 3 two
    assert_eq!(entropy.group_sizes(), &vec![3, 2]);
    // inside group 7: target 1 twice, target 2 once; inside group 3: target 1 twice
    assert_eq!(entropy.cell_counts(), &vec![2, 1, 2]);
}

#[test]
fn pure_split_has_zero_entropy() {
    let mut counter = Counter::new();
    for _ in 0..5 {
        counter.insert(0, 4);
    }
    for _ in 0..3 {
        counter.insert(1, 9);
    }
    assert!(counter.entropy().is_zero());
    counter.insert(1, 4);
    assert!(!counter.entropy().is_zero());
}

#[test]
fn empty_counter_has_zero_entropy() {
    let counter = Counter::new();
    assert_eq!(counter.len(), 0);
    assert!(counter.entropy().is_zero());
}

#[test]
fn even_split_is_one_bit_whatever_the_group_sizes() {
    // two groups, of 2 and of 6 instances, each shared evenly by two targets
    let mut counter = Counter::new();
    counter.insert(0, 0);
    counter.insert(0, 1);
    for _ in 0..3 {
        counter.insert(1, 0);
        counter.insert(1, 1);
    }
    assert_eq!(bits(&counter.entropy(), counter.len()), 1.0);

    // one group of eight shared evenly by two targets stands for the same entropy
    let mut other = Counter::new();
    for _ in 0..4 {
        other.insert(5, 2);
        other.insert(5, 3);
    }
    let a = counter.entropy();
    let b = other.entropy();
    assert!(a.le(&b));
    assert!(b.le(&a));
    assert!(!a.lt(&b));
    assert!(!b.lt(&a));
}

#[test]
fn entropies_are_ordered_exactly() {
    // 8 instances each; the first split is pure, the second nearly, the third not at all
    let mut pure = Counter::new();
    let mut nearly = Counter::new();
    let mut mixed = Counter::new();
    for i in 0..8u32 {
        pure.insert(i % 2, i % 2);
        nearly.insert(i % 2, if i == 0 { 1 } else { i % 2 });
        mixed.insert(i % 2, (i / 2) % 2);
    }
    let (p, n, m) = (pure.entropy(), nearly.entropy(), mixed.entropy());
    assert!(p.lt(&n));
    assert!(n.lt(&m));
    assert!(p.lt(&m));
    assert!(!m.le(&n));
    assert!(!n.le(&p));
    assert!(p.le(&p));
    assert!(!p.lt(&p));
    assert!(bits(&p, 8) < bits(&n, 8) && bits(&n, 8) < bits(&m, 8));
}

#[test]
fn entropies_of_many_instances_are_compared_beyond_machine_words() {
    // 300 instances: the products have thousands of bits
    let mut fine = Counter::new();
    let mut coarse = Counter::new();
    for i in 0..300u32 {
        fine.insert(i % 3, if i % 3 == 0 { 0 } else { i % 2 });
        coarse.insert(0, i % 2);
    }
    let (f, c) = (fine.entropy(), coarse.entropy());
    assert_eq!(c.group_sizes(), &vec![300]);
    assert_eq!(c.cell_counts(), &vec![150, 150]);
    assert_eq!(f.group_sizes(), &vec![100, 100, 100]);
    assert_eq!(f.cell_counts(), &vec![100, 50, 50, 50, 50]);
    assert!(f.lt(&c));
    assert!(!c.le(&f));
    assert!(!f.is_zero());
}

#[test]
fn big_numbers_multiply_and_compare() {
    let mut a = BigNat::one();
    let mut b = BigNat::one();
    // a = (2^64 - 1)^3, b = (2^64 - 1)^2 * (2^64 - 2): a > b
    a.mul_small(u64::MAX);
    a.mul_small(u64::MAX);
    a.mul_small(u64::MAX);
    b.mul_small(u64::MAX);
    b.mul_small(u64::MAX - 1);
    b.mul_small(u64::MAX);
    assert!(b.le(&a));
    assert!(!a.le(&b));
    // multiplying in another order gives the same number
    let mut c = BigNat::one();
    c.mul_small(u64::MAX - 1);
    c.mul_small(u64::MAX);
    c.mul_small(u64::MAX);
    assert!(b.le(&c) && c.le(&b));
    // zero is below everything, also when it is held in several limbs
    a.mul_small(0);
    assert!(a.le(&BigNat::one()));
    assert!(!BigNat::one().le(&a));
    // 3 * 5 = 15 <= 16 = 2 * 8
    let mut small = BigNat::one();
    small.mul_small(3);
    small.mul_small(5);
    let mut sixteen = BigNat::one();
    sixteen.mul_small(2);
    sixteen.mul_small(8);
    assert!(small.le(&sixteen));
    assert!(!sixteen.le(&small));
}
