//! Natural numbers of unbounded size, as far as ranking splits needs them:
//! a number is built up by multiplying with machine words, and two numbers
//! are compared.
use vstd::prelude::*;

verus! {

/// The weight of one limb: `2^64`.
pub open spec fn radix() -> nat {
    0x1_0000_0000_0000_0000
}

/// The weight of limb number `e`: `radix()^e`.
pub open spec fn weight(e: nat) -> nat
    decreases e,
{
    if e == 0 {
        1
    } else {
        radix() * weight((e - 1) as nat)
    }
}

/// The number that `limbs` spells, least significant limb first.
pub open spec fn limbs_value(limbs: Seq<u64>) -> nat
    decreases limbs.len(),
{
    if limbs.len() == 0 {
        0
    } else {
        limbs_value(limbs.drop_last()) + (limbs.last() as nat) * weight((limbs.len() - 1) as nat)
    }
}

/// `limbs` followed by zero limbs up to length `len`.
pub open spec fn padded(limbs: Seq<u64>, len: nat) -> Seq<u64> {
    Seq::new(
        if len >= limbs.len() {
            len
        } else {
            limbs.len()
        },
        |i: int|
            if i < limbs.len() {
                limbs[i]
            } else {
                0u64
            },
    )
}

proof fn lemma_weight(e: nat)
    ensures
        weight(e) > 0,
        weight(e + 1) == radix() * weight(e),
    decreases e,
{
    if e > 0 {
        lemma_weight((e - 1) as nat);
        assert(radix() * weight((e - 1) as nat) > 0) by (nonlinear_arith)
            requires
                weight((e - 1) as nat) > 0,
                radix() > 0,
        ;
    }
}

/// A number of `n` limbs is below `radix()^n`.
proof fn lemma_value_bound(limbs: Seq<u64>)
    ensures
        limbs_value(limbs) < weight(limbs.len()),
    decreases limbs.len(),
{
    if limbs.len() == 0 {
    } else {
        let n = (limbs.len() - 1) as nat;
        lemma_value_bound(limbs.drop_last());
        lemma_weight(n);
        let top = limbs.last() as int;
        let w = weight(n);
        assert(top * w + w <= radix() * w) by (nonlinear_arith)
            requires
                top + 1 <= radix(),
                w > 0,
        ;
    }
}

/// Zero limbs at the top do not change the number.
proof fn lemma_padded_value(limbs: Seq<u64>, len: nat)
    ensures
        limbs_value(padded(limbs, len)) == limbs_value(limbs),
    decreases len,
{
    if len <= limbs.len() {
        assert(padded(limbs, len) =~= limbs);
    } else {
        lemma_padded_value(limbs, (len - 1) as nat);
        assert(padded(limbs, len).drop_last() =~= padded(limbs, (len - 1) as nat));
        assert(padded(limbs, len).last() == 0);
        assert(0 * weight((len - 1) as nat) == 0) by (nonlinear_arith);
    }
}

/// Two numbers of one length that agree from limb `k` upward differ as
/// their lowest `k` limbs do.
proof fn lemma_common_top(a: Seq<u64>, b: Seq<u64>, k: int)
    requires
        a.len() == b.len(),
        0 <= k <= a.len(),
        forall|j: int| k <= j < a.len() ==> a[j] == b[j],
    ensures
        limbs_value(a) - limbs_value(b) == limbs_value(a.take(k)) - limbs_value(b.take(k)),
    decreases a.len() - k,
{
    if k == a.len() {
        assert(a.take(k) =~= a);
        assert(b.take(k) =~= b);
    } else {
        lemma_common_top(a.drop_last(), b.drop_last(), k);
        assert(a.drop_last().take(k) =~= a.take(k));
        assert(b.drop_last().take(k) =~= b.take(k));
    }
}

/// A natural number held as 64-bit limbs.
pub struct BigNat {
    limbs: Vec<u64>,
}

impl View for BigNat {
    type V = nat;

    /// The number itself.
    closed spec fn view(&self) -> nat {
        limbs_value(self.limbs@)
    }
}

impl BigNat {
    /// The number one.
    pub fn one() -> (n: Self)
        ensures
            n@ == 1,
    {
        let mut limbs: Vec<u64> = Vec::new();
        limbs.push(1);
        proof {
            assert(limbs@.drop_last() =~= Seq::<u64>::empty());
            assert(limbs_value(limbs@.drop_last()) == 0);
        }
        BigNat { limbs }
    }

    /// Multiplies the number by `m`.
    pub fn mul_small(&mut self, m: u64)
        ensures
            final(self)@ == old(self)@ * m,
    {
        let ghost before = self.limbs@;
        let n: usize = self.limbs.len();
        let mut carry: u64 = 0;
        let mut i: usize = 0;
        proof {
            assert(before.take(0) =~= Seq::<u64>::empty());
            assert(limbs_value(before.take(0)) == 0);
            assert(0 * weight(0) == 0) by (nonlinear_arith);
            assert(m * 0 == 0) by (nonlinear_arith);
        }
        while i < n
            invariant
                0 <= i <= n,
                n == before.len(),
                self.limbs@.len() == n,
                forall|j: int| i <= j < n ==> self.limbs@[j] == before[j],
                limbs_value(self.limbs@.take(i as int)) + carry * weight(i as nat) == m
                    * limbs_value(before.take(i as int)),
            decreases n - i,
        {
            let limb: u64 = self.limbs[i];
            assert(limb as u128 * m as u128 + carry as u128 <= u128::MAX) by (nonlinear_arith)
                requires
                    limb <= u64::MAX,
                    m <= u64::MAX,
                    carry <= u64::MAX,
            ;
            let wide: u128 = (limb as u128) * (m as u128) + (carry as u128);
            let low: u64 = #[verifier::truncate]
            (wide as u64);
            let high: u64 = #[verifier::truncate]
            ((wide >> 64) as u64);
            proof {
                assert(wide == ((wide >> 64) as u64) as u128 * 0x1_0000_0000_0000_0000u128 + (
                wide as u64) as u128 && (wide >> 64) <= 0xffff_ffff_ffff_ffffu128) by (bit_vector);
                let ghost w = weight(i as nat);
                let ghost done = self.limbs@.take(i as int);
                let ghost next = self.limbs@.update(i as int, low).take(i + 1);
                lemma_weight(i as nat);
                assert(next.drop_last() =~= done);
                assert(next.last() == low);
                assert(before.take(i + 1).drop_last() =~= before.take(i as int));
                assert(before.take(i + 1).last() == limb);
                assert(limbs_value(next) == limbs_value(done) + low * w);
                assert(limbs_value(before.take(i + 1)) == limbs_value(before.take(i as int)) + limb
                    * w);
                assert(low * w + high * (radix() * w) == (limb * m + carry) * w) by (nonlinear_arith)
                    requires
                        limb * m + carry == high * radix() + low,
                ;
                assert(m * (limbs_value(before.take(i as int)) + limb * w) == m * limbs_value(
                    before.take(i as int),
                ) + (limb * m) * w) by (nonlinear_arith);
                assert((limb * m + carry) * w == (limb * m) * w + carry * w) by (nonlinear_arith);
            }
            self.limbs[i] = low;
            carry = high;
            i += 1;
        }
        proof {
            assert(self.limbs@.take(n as int) =~= self.limbs@);
            assert(before.take(n as int) =~= before);
        }
        if carry != 0 {
            proof {
                assert(self.limbs@.push(carry).drop_last() =~= self.limbs@);
            }
            self.limbs.push(carry);
        } else {
            proof {
                assert(0 * weight(n as nat) == 0) by (nonlinear_arith);
            }
        }
        proof {
            assert(m * limbs_value(before) == limbs_value(before) * m) by (nonlinear_arith);
        }
    }

    /// Tells whether the number is at most `other`.
    pub fn le(&self, other: &BigNat) -> (r: bool)
        ensures
            r == (self@ <= other@),
    {
        let n: usize = if self.limbs.len() >= other.limbs.len() {
            self.limbs.len()
        } else {
            other.limbs.len()
        };
        let ghost a = padded(self.limbs@, n as nat);
        let ghost b = padded(other.limbs@, n as nat);
        proof {
            lemma_padded_value(self.limbs@, n as nat);
            lemma_padded_value(other.limbs@, n as nat);
        }
        let mut i: usize = n;
        while i > 0
            invariant
                0 <= i <= n,
                a == padded(self.limbs@, n as nat),
                b == padded(other.limbs@, n as nat),
                a.len() == n,
                b.len() == n,
                limbs_value(a) == self@,
                limbs_value(b) == other@,
                forall|j: int| i <= j < n ==> a[j] == b[j],
            decreases i,
        {
            i -= 1;
            let x: u64 = if i < self.limbs.len() {
                self.limbs[i]
            } else {
                0
            };
            let y: u64 = if i < other.limbs.len() {
                other.limbs[i]
            } else {
                0
            };
            assert(x == a[i as int] && y == b[i as int]);
            if x != y {
                proof {
                    let ghost w = weight(i as nat);
                    lemma_common_top(a, b, i + 1);
                    lemma_value_bound(a.take(i as int));
                    lemma_value_bound(b.take(i as int));
                    lemma_weight(i as nat);
                    assert(a.take(i + 1).drop_last() =~= a.take(i as int));
                    assert(b.take(i + 1).drop_last() =~= b.take(i as int));
                    assert(limbs_value(a.take(i + 1)) == limbs_value(a.take(i as int)) + x * w);
                    assert(limbs_value(b.take(i + 1)) == limbs_value(b.take(i as int)) + y * w);
                    if x < y {
                        assert(x * w + w <= y * w) by (nonlinear_arith)
                            requires
                                x + 1 <= y,
                                w > 0,
                        ;
                    } else {
                        assert(y * w + w <= x * w) by (nonlinear_arith)
                            requires
                                y + 1 <= x,
                                w > 0,
                        ;
                    }
                }
                return x < y;
            }
        }
        proof {
            lemma_common_top(a, b, 0);
            assert(a.take(0) =~= b.take(0));
        }
        true
    }
}

} // verus!
