//! Natural numbers of any size, held as little-endian 64-bit limbs.
//!
//! Only what exact decimal-to-binary conversion needs is offered: building a
//! number by `x * m + a` steps with a small multiplier, and comparing two
//! numbers.

use vstd::prelude::*;

verus! {

/// The weight of the limb at position `n`: 2^(64 n).
pub open spec fn limb_weight(n: nat) -> nat
    decreases n,
{
    if n == 0 {
        1
    } else {
        0x1_0000_0000_0000_0000 * limb_weight((n - 1) as nat)
    }
}

/// The limb at position `i`, zero past the end of the sequence.
pub open spec fn limb_at(limbs: Seq<u64>, i: int) -> nat {
    if 0 <= i < limbs.len() {
        limbs[i] as nat
    } else {
        0
    }
}

/// The number that the lowest `n` limbs hold.
pub open spec fn low_value(limbs: Seq<u64>, n: nat) -> nat
    decreases n,
{
    if n == 0 {
        0
    } else {
        low_value(limbs, (n - 1) as nat) + limb_at(limbs, n - 1) * limb_weight((n - 1) as nat)
    }
}

/// How two numbers stand to each other.
#[derive(Debug, Clone, Copy, PartialEq, Eq, Structural)]
pub enum Relation {
    Below,
    Same,
    Above,
}

/// An arbitrary-precision natural number.
pub struct BigNat {
    limbs: Vec<u64>,
}

impl View for BigNat {
    type V = nat;

    closed spec fn view(&self) -> nat {
        low_value(self.limbs@, self.limbs@.len())
    }
}

/// The lowest `n` limbs hold less than 2^(64 n).
pub proof fn lemma_low_value_bound(limbs: Seq<u64>, n: nat)
    ensures
        low_value(limbs, n) < limb_weight(n),
    decreases n,
{
    if n > 0 {
        let m = (n - 1) as nat;
        lemma_low_value_bound(limbs, m);
        let w = limb_weight(m);
        let x = limb_at(limbs, m as int);
        assert(x <= 0xffff_ffff_ffff_ffff);
        assert(low_value(limbs, m) + x * w < 0x1_0000_0000_0000_0000 * w) by (nonlinear_arith)
            requires
                low_value(limbs, m) < w,
                x <= 0xffff_ffff_ffff_ffff,
        ;
    }
}

/// Limbs past the end of the sequence add nothing.
pub proof fn lemma_low_value_past_end(limbs: Seq<u64>, n: nat)
    requires
        n >= limbs.len(),
    ensures
        low_value(limbs, n) == low_value(limbs, limbs.len()),
    decreases n,
{
    if n > limbs.len() {
        lemma_low_value_past_end(limbs, (n - 1) as nat);
        assert(limb_at(limbs, n - 1) == 0);
        assert(0 * limb_weight((n - 1) as nat) == 0);
    }
}

/// The lowest `n` limbs of two sequences that agree there hold the same number.
pub proof fn lemma_low_value_agrees(a: Seq<u64>, b: Seq<u64>, n: nat)
    requires
        forall|j: int| 0 <= j < n ==> limb_at(a, j) == limb_at(b, j),
    ensures
        low_value(a, n) == low_value(b, n),
    decreases n,
{
    if n > 0 {
        lemma_low_value_agrees(a, b, (n - 1) as nat);
    }
}

/// Where two sequences agree on every limb from `i` up to `n`, their values
/// differ by what their lowest `i` limbs differ by.
pub proof fn lemma_high_limbs_agree(a: Seq<u64>, b: Seq<u64>, i: nat, n: nat)
    requires
        i <= n,
        forall|j: int| i <= j < n ==> limb_at(a, j) == limb_at(b, j),
    ensures
        low_value(a, n) - low_value(a, i) == low_value(b, n) - low_value(b, i),
    decreases n,
{
    if n > i {
        lemma_high_limbs_agree(a, b, i, (n - 1) as nat);
    }
}

/// A smaller limb at position `i`, with all higher limbs equal, makes the
/// smaller number.
pub proof fn lemma_limb_decides(a: Seq<u64>, b: Seq<u64>, i: nat, n: nat)
    requires
        i < n,
        limb_at(a, i as int) < limb_at(b, i as int),
        forall|j: int| i < j < n ==> limb_at(a, j) == limb_at(b, j),
    ensures
        low_value(a, n) < low_value(b, n),
{
    lemma_low_value_bound(a, i);
    lemma_high_limbs_agree(a, b, i + 1, n);
    let w = limb_weight(i);
    let x = limb_at(a, i as int);
    let y = limb_at(b, i as int);
    assert(low_value(a, i) + x * w < y * w) by (nonlinear_arith)
        requires
            low_value(a, i) < w,
            x < y,
    ;
    assert(low_value(a, i + 1) < low_value(b, i + 1));
}

proof fn lemma_product_fits(limb: u64, m: u64, carry: u64)
    ensures
        limb * m + carry <= 0xffff_ffff_ffff_ffff_ffff_ffff_ffff_ffff,
        (limb * m + carry) / 0x1_0000_0000_0000_0000 <= 0xffff_ffff_ffff_ffff,
{
    assert(limb * m <= 0xffff_ffff_ffff_ffff * 0xffff_ffff_ffff_ffff) by (nonlinear_arith)
        requires
            limb <= 0xffff_ffff_ffff_ffff,
            m <= 0xffff_ffff_ffff_ffff,
            0 <= limb,
            0 <= m,
    ;
}

impl BigNat {
    /// The number `x`.
    pub fn from_small(x: u64) -> (r: BigNat)
        ensures
            r@ == x,
    {
        let mut limbs: Vec<u64> = Vec::new();
        limbs.push(x);
        proof {
            reveal_with_fuel(low_value, 2);
            reveal_with_fuel(limb_weight, 2);
            assert(limb_at(limbs@, 0) == x);
        }
        BigNat { limbs }
    }

    /// The number `self * m + a`.
    pub fn times_plus(&self, m: u64, a: u64) -> (r: BigNat)
        ensures
            r@ == self@ * m + a,
    {
        let n = self.limbs.len();
        let mut out: Vec<u64> = Vec::new();
        let mut carry: u64 = a;
        let mut i: usize = 0;
        proof {
            assert(limb_weight(0) == 1);
            assert(carry * 1 == carry);
            assert(0 * m == 0);
        }
        while i < n
            invariant
                n == self.limbs.len(),
                i <= n,
                out.len() == i,
                low_value(out@, i as nat) + carry * limb_weight(i as nat) == low_value(
                    self.limbs@,
                    i as nat,
                ) * m + a,
            decreases n - i,
        {
            let limb = self.limbs[i];
            proof {
                lemma_product_fits(limb, m, carry);
            }
            let t: u128 = (limb as u128) * (m as u128) + (carry as u128);
            let lo: u64 = (t % 0x1_0000_0000_0000_0000u128) as u64;
            let hi: u64 = (t / 0x1_0000_0000_0000_0000u128) as u64;
            let ghost before = out@;
            out.push(lo);
            proof {
                let w = limb_weight(i as nat);
                let src = low_value(self.limbs@, i as nat);
                lemma_low_value_agrees(before, out@, i as nat);
                assert(limb_at(out@, i as int) == lo);
                assert(limb_at(self.limbs@, i as int) == limb);
                assert(limb_weight((i + 1) as nat) == 0x1_0000_0000_0000_0000 * w);
                assert(low_value(out@, (i + 1) as nat) == low_value(before, i as nat) + lo * w);
                assert(low_value(self.limbs@, (i + 1) as nat) == src + limb * w);
                assert(lo + hi * 0x1_0000_0000_0000_0000 == limb * m + carry);
                assert(lo * w + hi * (0x1_0000_0000_0000_0000 * w) == (limb * m + carry) * w)
                    by (nonlinear_arith)
                    requires
                        lo + hi * 0x1_0000_0000_0000_0000 == limb * m + carry,
                ;
                assert((src + limb * w) * m + a == src * m + a + (limb * m) * w)
                    by (nonlinear_arith);
                assert((limb * m + carry) * w == (limb * m) * w + carry * w)
                    by (nonlinear_arith);
            }
            carry = hi;
            i += 1;
        }
        let ghost before = out@;
        out.push(carry);
        proof {
            lemma_low_value_agrees(before, out@, n as nat);
            assert(limb_at(out@, n as int) == carry);
            assert(low_value(out@, (n + 1) as nat) == low_value(before, n as nat) + carry
                * limb_weight(n as nat));
        }
        BigNat { limbs: out }
    }

    /// Compares `self` with `other`.
    pub fn compare(&self, other: &BigNat) -> (r: Relation)
        ensures
            r == Relation::Below <==> self@ < other@,
            r == Relation::Same <==> self@ == other@,
            r == Relation::Above <==> self@ > other@,
    {
        let la = self.limbs.len();
        let lb = other.limbs.len();
        let n = if la < lb {
            lb
        } else {
            la
        };
        proof {
            lemma_low_value_past_end(self.limbs@, n as nat);
            lemma_low_value_past_end(other.limbs@, n as nat);
        }
        let mut i: usize = n;
        while i > 0
            invariant
                la == self.limbs.len(),
                lb == other.limbs.len(),
                i <= n,
                self@ == low_value(self.limbs@, n as nat),
                other@ == low_value(other.limbs@, n as nat),
                forall|j: int| i <= j < n ==> limb_at(self.limbs@, j) == limb_at(other.limbs@, j),
            decreases i,
        {
            i -= 1;
            let x: u64 = if i < la {
                self.limbs[i]
            } else {
                0
            };
            let y: u64 = if i < lb {
                other.limbs[i]
            } else {
                0
            };
            if x < y {
                proof {
                    lemma_limb_decides(self.limbs@, other.limbs@, i as nat, n as nat);
                }
                return Relation::Below;
            }
            if x > y {
                proof {
                    lemma_limb_decides(other.limbs@, self.limbs@, i as nat, n as nat);
                }
                return Relation::Above;
            }
        }
        proof {
            lemma_low_value_agrees(self.limbs@, other.limbs@, n as nat);
        }
        Relation::Same
    }
}

} // verus!
