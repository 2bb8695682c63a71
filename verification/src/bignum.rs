//! Unbounded naturals as little-endian base-2^32 digit vectors: just the
//! three operations the normalised aggregation needs (multiply by a small
//! factor, add, compare). Exact rational sums of partition weights reduce
//! to these.

use vstd::prelude::*;
use vstd::arithmetic::power2::{pow2, lemma_pow2_adds, lemma_pow2_pos, lemma2_to64};
use vstd::arithmetic::div_mod::{lemma_fundamental_div_mod};
use vstd::arithmetic::mul::lemma_mul_upper_bound;

verus! {

pub open spec fn base() -> int {
    0x1_0000_0000
}

/// The natural number a digit vector denotes.
pub open spec fn big_val(s: Seq<u32>) -> nat
    decreases s.len(),
{
    if s.len() == 0 {
        0
    } else {
        (big_val(s.drop_last()) + s.last() * pow2((32 * (s.len() - 1)) as nat)) as nat
    }
}

/// Digit at position `i`, 0 beyond the end.
pub open spec fn dig(s: Seq<u32>, i: int) -> u32 {
    if 0 <= i < s.len() {
        s[i]
    } else {
        0
    }
}

/// The value of the first `w` digit positions (padded with zeros).
pub open spec fn val_w(s: Seq<u32>, w: int) -> int
    decreases w,
{
    if w <= 0 {
        0
    } else {
        val_w(s, w - 1) + dig(s, w - 1) * pow2((32 * (w - 1)) as nat)
    }
}

pub proof fn lemma_val_w_big_val(s: Seq<u32>, w: int)
    requires
        w >= s.len(),
    ensures
        val_w(s, w) == big_val(s),
    decreases w,
{
    if w > 0 {
        if w == s.len() {
            lemma_val_w_big_val(s.drop_last(), w - 1);
            assert forall|i: int| 0 <= i < w - 1 implies dig(s.drop_last(), i) == dig(s, i) by {}
            lemma_val_w_same(s.drop_last(), s, w - 1);
        } else {
            lemma_val_w_big_val(s, w - 1);
        }
    }
}

pub proof fn lemma_val_w_same(a: Seq<u32>, b: Seq<u32>, w: int)
    requires
        forall|i: int| 0 <= i < w ==> dig(a, i) == dig(b, i),
    ensures
        val_w(a, w) == val_w(b, w),
    decreases w,
{
    if w > 0 {
        lemma_val_w_same(a, b, w - 1);
    }
}

pub proof fn lemma_val_w_bound(s: Seq<u32>, w: int)
    requires
        w >= 0,
    ensures
        0 <= val_w(s, w) < pow2((32 * w) as nat),
    decreases w,
{
    lemma_pow2_pos((32 * w) as nat);
    if w > 0 {
        lemma_val_w_bound(s, w - 1);
        lemma_pow2_adds((32 * (w - 1)) as nat, 32);
        let p = pow2((32 * (w - 1)) as nat);
        assert(dig(s, w - 1) * p <= (base() - 1) * p) by (nonlinear_arith)
            requires
                p > 0,
                0 <= dig(s, w - 1) < base(),
        ;
        assert(pow2(32) == 0x1_0000_0000) by {
                lemma2_to64();
            }
        assert(val_w(s, w - 1) + (base() - 1) * p < base() * p) by (nonlinear_arith)
            requires
                val_w(s, w - 1) < p,
                p > 0,
        ;
    }
}

pub proof fn lemma_big_val_take(s: Seq<u32>, i: int)
    requires
        0 <= i < s.len(),
    ensures
        big_val(s.take(i + 1)) == big_val(s.take(i)) + s[i] * pow2((32 * i) as nat),
{
    assert(s.take(i + 1).drop_last() =~= s.take(i));
    assert(s.take(i + 1).last() == s[i]);
}

/// Multiply by a 64-bit factor.
pub fn big_mul_small(a: &Vec<u32>, b: u64) -> (r: Vec<u32>)
    ensures
        big_val(r@) == big_val(a@) * b,
{
    let mut out: Vec<u32> = Vec::new();
    let mut carry: u64 = 0;
    let mut i: usize = 0;
    proof {
        assert(a@.take(0) =~= Seq::<u32>::empty());
        assert(pow2(0) == 1) by {
            lemma2_to64();
        }
        assert(big_val(a@.take(0)) * b == 0) by (nonlinear_arith)
            requires
                big_val(a@.take(0)) == 0,
        ;
    }
    while i < a.len()
        invariant
            0 <= i <= a@.len(),
            out@.len() == i,
            big_val(out@) + carry * pow2((32 * i) as nat) == big_val(a@.take(i as int)) * b,
        decreases a@.len() - i,
    {
        proof {
            lemma_mul_upper_bound(a@[i as int] as int, u32::MAX as int, b as int, u64::MAX as int);
        }
        let t: u128 = (a[i] as u128) * (b as u128) + (carry as u128);
        let low: u32 = (t % 0x1_0000_0000) as u32;
        let newcarry: u64 = (t / 0x1_0000_0000) as u64;
        proof {
            lemma_fundamental_div_mod(t as int, base());
            assert(t as int <= (base() - 1) * (u64::MAX as int) + (u64::MAX as int)) by {
                lemma_mul_upper_bound(
                    a@[i as int] as int,
                    u32::MAX as int,
                    b as int,
                    u64::MAX as int,
                );
            }
            assert((t as int) / base() <= u64::MAX) by (nonlinear_arith)
                requires
                    t as int <= (base() - 1) * (u64::MAX as int) + (u64::MAX as int),
                    t as int == base() * ((t as int) / base()) + (t as int) % base(),
                    0 <= (t as int) % base() < base(),
            ;
            let ghost pi = pow2((32 * i) as nat);
            let ghost pj = pow2((32 * (i + 1)) as nat);
            lemma_pow2_adds((32 * i) as nat, 32);
            assert(pow2(32) == 0x1_0000_0000) by {
                lemma2_to64();
            }
            assert(pj == pi * base());
            lemma_big_val_take(a@, i as int);
            // value algebra for one digit step
            assert(big_val(out@) + (low as int) * pi + (newcarry as int) * pj == big_val(
                a@.take(i + 1),
            ) * b) by (nonlinear_arith)
                requires
                    pj == pi * base(),
                    (t as int) == (low as int) + (newcarry as int) * base(),
                    (t as int) == (a@[i as int] as int) * (b as int) + (carry as int),
                    big_val(out@) + carry * pi == big_val(a@.take(i as int)) * b,
                    big_val(a@.take(i + 1)) == big_val(a@.take(i as int)) + a@[i as int] * pi,
            ;
        }
        let ghost oldout = out@;
        out.push(low);
        proof {
            assert(out@.drop_last() =~= oldout);
            assert(big_val(out@) == big_val(oldout) + low * pow2((32 * i) as nat));
        }
        carry = newcarry;
        i += 1;
    }
    proof {
        assert(a@.take(a@.len() as int) =~= a@);
    }
    // flush the carry as two more digits
    let c0: u32 = (carry % 0x1_0000_0000) as u32;
    let c1: u32 = (carry / 0x1_0000_0000) as u32;
    let ghost n = out@.len() as int;
    let ghost preout = out@;
    out.push(c0);
    out.push(c1);
    proof {
        lemma_fundamental_div_mod(carry as int, base());
        assert(out@.drop_last().drop_last() =~= preout);
        assert(out@.drop_last() =~= preout.push(c0));
        assert(big_val(preout.push(c0)) == big_val(preout) + c0 * pow2((32 * n) as nat));
        assert(big_val(out@) == big_val(preout.push(c0)) + c1 * pow2((32 * (n + 1)) as nat));
        lemma_pow2_adds((32 * n) as nat, 32);
        assert(pow2(32) == 0x1_0000_0000) by {
                lemma2_to64();
            }
        let ghost pn = pow2((32 * n) as nat);
        assert(big_val(out@) == big_val(preout) + (carry as int) * pn) by (nonlinear_arith)
            requires
                big_val(out@) == big_val(preout) + (c0 as int) * pn + (c1 as int) * (pn * base()),
                (carry as int) == (c0 as int) + base() * (c1 as int),
        ;
    }
    out
}

/// Add two numbers.
pub fn big_add(a: &Vec<u32>, b: &Vec<u32>) -> (r: Vec<u32>)
    ensures
        big_val(r@) == big_val(a@) + big_val(b@),
{
    let la = a.len();
    let lb = b.len();
    let n = if la >= lb {
        la
    } else {
        lb
    };
    let mut out: Vec<u32> = Vec::new();
    let mut carry: u64 = 0;
    let mut i: usize = 0;
    proof {
        assert(pow2(0) == 1) by {
            lemma2_to64();
        }
    }
    while i < n
        invariant
            la == a@.len(),
            lb == b@.len(),
            n == if la >= lb {
                la as int
            } else {
                lb as int
            },
            0 <= i <= n,
            carry <= 1,
            out@.len() == i,
            big_val(out@) + carry * pow2((32 * i) as nat) == val_w(a@, i as int) + val_w(
                b@,
                i as int,
            ),
        decreases n - i,
    {
        let da: u64 = if i < la {
            a[i] as u64
        } else {
            0
        };
        let db: u64 = if i < lb {
            b[i] as u64
        } else {
            0
        };
        let t: u64 = da + db + carry;
        let low: u32 = (t % 0x1_0000_0000) as u32;
        let newcarry: u64 = t / 0x1_0000_0000;
        proof {
            lemma_fundamental_div_mod(t as int, base());
            assert(newcarry <= 1);
            let ghost pi = pow2((32 * i) as nat);
            let ghost pj = pow2((32 * (i + 1)) as nat);
            lemma_pow2_adds((32 * i) as nat, 32);
            assert(pow2(32) == 0x1_0000_0000) by {
                lemma2_to64();
            }
            assert(pj == pi * base());
            assert(da as int == dig(a@, i as int) as int);
            assert(db as int == dig(b@, i as int) as int);
            assert(big_val(out@) + (low as int) * pi + (newcarry as int) * pj == val_w(
                a@,
                i + 1,
            ) + val_w(b@, i + 1)) by (nonlinear_arith)
                requires
                    pj == pi * base(),
                    (t as int) == (low as int) + (newcarry as int) * base(),
                    (t as int) == (da as int) + (db as int) + (carry as int),
                    big_val(out@) + carry * pi == val_w(a@, i as int) + val_w(b@, i as int),
                    val_w(a@, i + 1) == val_w(a@, i as int) + (da as int) * pi,
                    val_w(b@, i + 1) == val_w(b@, i as int) + (db as int) * pi,
            ;
        }
        let ghost oldout = out@;
        out.push(low);
        proof {
            assert(out@.drop_last() =~= oldout);
        }
        carry = newcarry;
        i += 1;
    }
    let ghost m = out@.len() as int;
    let ghost preout = out@;
    out.push(carry as u32);
    proof {
        assert(out@.drop_last() =~= preout);
        lemma_val_w_big_val(a@, n as int);
        lemma_val_w_big_val(b@, n as int);
    }
    out
}

/// Is `a <= b`?
pub fn big_le(a: &Vec<u32>, b: &Vec<u32>) -> (r: bool)
    ensures
        r == (big_val(a@) <= big_val(b@)),
{
    let la = a.len();
    let lb = b.len();
    let n = if la >= lb {
        la
    } else {
        lb
    };
    proof {
        lemma_val_w_big_val(a@, n as int);
        lemma_val_w_big_val(b@, n as int);
    }
    let mut i: usize = n;
    while i > 0
        invariant
            la == a@.len(),
            lb == b@.len(),
            n == if la >= lb {
                la as int
            } else {
                lb as int
            },
            0 <= i <= n,
            val_w(a@, n as int) == big_val(a@),
            val_w(b@, n as int) == big_val(b@),
            val_w(a@, n as int) + val_w(b@, i as int) == val_w(b@, n as int) + val_w(a@, i as int),
        decreases i,
    {
        i -= 1;
        let da: u32 = if i < la {
            a[i]
        } else {
            0
        };
        let db: u32 = if i < lb {
            b[i]
        } else {
            0
        };
        if da != db {
            proof {
                lemma_val_w_bound(a@, i as int);
                lemma_val_w_bound(b@, i as int);
                let ghost pi = pow2((32 * i) as nat);
                assert(val_w(a@, i + 1) == val_w(a@, i as int) + (da as int) * pi);
                assert(val_w(b@, i + 1) == val_w(b@, i as int) + (db as int) * pi);
                if da < db {
                    assert((da as int) * pi + pi <= (db as int) * pi) by (nonlinear_arith)
                        requires
                            (da as int) + 1 <= db as int,
                            pi > 0,
                    ;
                } else {
                    assert((db as int) * pi + pi <= (da as int) * pi) by (nonlinear_arith)
                        requires
                            (db as int) + 1 <= da as int,
                            pi > 0,
                    ;
                }
            }
            return da < db;
        }
        proof {
            assert(val_w(a@, i + 1) == val_w(a@, i as int) + (da as int) * pow2((32 * i) as nat));
            assert(val_w(b@, i + 1) == val_w(b@, i as int) + (db as int) * pow2((32 * i) as nat));
        }
    }
    true
}

/// The number 1 as a digit vector.
pub fn big_one() -> (r: Vec<u32>)
    ensures
        big_val(r@) == 1,
{
    let mut v: Vec<u32> = Vec::new();
    v.push(1);
    proof {
        assert(v@.drop_last() =~= Seq::<u32>::empty());
        assert(pow2(0) == 1) by {
            lemma2_to64();
        }
        assert(v@.last() == 1u32);
        assert(big_val(v@) == big_val(v@.drop_last()) + 1 * pow2(0));
    }
    v
}

} // verus!
