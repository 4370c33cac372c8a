use vstd::arithmetic::power2::{lemma_pow2_unfold, pow2};
use vstd::prelude::*;

use crate::fr::Fr;

verus! {

/// Why a table of roots could not be arranged.
#[derive(Clone, Copy, Debug, PartialEq, Eq)]
pub enum FftError {
    /// The table has no entry.
    Empty,
    /// The table's length is not a power of two.
    NotPowerOfTwo,
    /// The stated width is not the number of roots.
    WidthMismatch,
}

/// `n` is a power of two (`1, 2, 4, ...`).
pub open spec fn is_pow2(n: nat) -> bool
    decreases n,
{
    if n == 1 {
        true
    } else if n == 0 || n % 2 == 1 {
        false
    } else {
        is_pow2(n / 2)
    }
}

/// The base-2 logarithm of a power of two.
pub open spec fn log2(n: nat) -> nat
    decreases n,
{
    if n <= 1 {
        0
    } else {
        1 + log2(n / 2)
    }
}

/// The low `k` bits of `i`, in reverse order.
pub open spec fn rev_bits(i: nat, k: nat) -> nat
    decreases k,
{
    if k == 0 {
        0
    } else {
        (i % 2) * pow2((k - 1) as nat) + rev_bits(i / 2, (k - 1) as nat)
    }
}

/// `s` in bit-reversed order: entry `i` is the entry of `s` at `i` with its
/// `log2(|s|)` bits reversed.
pub open spec fn bit_reversed<T>(s: Seq<T>) -> Seq<T> {
    Seq::new(s.len(), |i: int| s[rev_bits(i as nat, log2(s.len())) as int])
}

/// A power of two is two to its logarithm.
pub proof fn lemma_pow2_log2(n: nat)
    requires
        is_pow2(n),
    ensures
        pow2(log2(n)) == n,
    decreases n,
{
    if n > 1 {
        lemma_pow2_log2(n / 2);
        lemma_pow2_unfold(log2(n));
    } else {
        vstd::arithmetic::power2::lemma2_to64();
    }
}

/// Reversing `k` bits gives a number below `2^k`.
pub proof fn lemma_rev_bits_bound(i: nat, k: nat)
    ensures
        rev_bits(i, k) < pow2(k),
    decreases k,
{
    if k == 0 {
        vstd::arithmetic::power2::lemma2_to64();
    } else {
        lemma_rev_bits_bound(i / 2, (k - 1) as nat);
        lemma_pow2_unfold(k);
        let p = pow2((k - 1) as nat);
        assert((i % 2) * p <= p) by (nonlinear_arith)
            requires
                i % 2 <= 1,
                p >= 0,
        ;
    }
}

/// Reversing one more bit doubles the reversal of the lower bits and adds the new
/// bit at the bottom.
proof fn lemma_rev_bits_step(i: nat, k: nat)
    ensures
        rev_bits(i, k + 1) == 2 * rev_bits(i, k) + (i / pow2(k)) % 2,
    decreases k,
{
    vstd::arithmetic::power2::lemma2_to64();
    if k > 0 {
        lemma_rev_bits_step(i / 2, (k - 1) as nat);
        lemma_pow2_unfold(k);
        vstd::arithmetic::power2::lemma_pow2_pos((k - 1) as nat);
        vstd::arithmetic::div_mod::lemma_div_denominator(i as int, 2, pow2((k - 1) as nat) as int);
        let p = pow2((k - 1) as nat);
        assert((i % 2) * pow2(k) == 2 * ((i % 2) * p)) by (nonlinear_arith)
            requires
                pow2(k) == 2 * p,
        ;
        assert(rev_bits(i, k + 1) == (i % 2) * pow2(k) + rev_bits(i / 2, k));
        assert(rev_bits(i, k) == (i % 2) * p + rev_bits(i / 2, (k - 1) as nat));
        assert((i / 2) / p == i / pow2(k));
        assert(rev_bits(i / 2, k) == 2 * rev_bits(i / 2, (k - 1) as nat) + ((i / 2) / p) % 2);
    } else {
        assert(rev_bits(i, 1) == (i % 2) * pow2(0) + rev_bits(i / 2, 0));
        assert(i / pow2(0) == i);
    }
}

/// `log2(n)` for a power of two `n`, or the reason `n` is not one.
fn checked_log2(n: usize) -> (r: Result<usize, FftError>)
    ensures
        r matches Ok(k) ==> is_pow2(n as nat) && k == log2(n as nat) && k < 64,
        r == Err::<usize, FftError>(FftError::Empty) <==> n == 0,
        r == Err::<usize, FftError>(FftError::NotPowerOfTwo) <==> n > 0 && !is_pow2(n as nat),
        r is Err ==> r == Err::<usize, FftError>(FftError::Empty) || r == Err::<usize, FftError>(
            FftError::NotPowerOfTwo,
        ),
{
    if n == 0 {
        return Err(FftError::Empty);
    }
    let mut m: usize = n;
    let mut k: usize = 0;
    proof {
        vstd::arithmetic::power2::lemma2_to64();
    }
    while m > 1
        invariant
            m >= 1,
            is_pow2(m as nat) == is_pow2(n as nat),
            k + log2(m as nat) == log2(n as nat),
            pow2(k as nat) * m == n,
            k + m <= n,
        decreases m,
    {
        if m % 2 == 1 {
            return Err(FftError::NotPowerOfTwo);
        }
        proof {
            lemma_pow2_unfold((k + 1) as nat);
            assert(pow2((k + 1) as nat) * (m / 2) == pow2(k as nat) * m) by (nonlinear_arith)
                requires
                    pow2((k + 1) as nat) == 2 * pow2(k as nat),
                    m % 2 == 0,
            ;
        }
        m = m / 2;
        k = k + 1;
    }
    proof {
        if k >= 64 {
            vstd::arithmetic::power2::lemma2_to64();
            if k > 64 {
                vstd::arithmetic::power2::lemma_pow2_strictly_increases(64, k as nat);
            }
        }
    }
    Ok(k)
}

/// Reverses the `log2(k)` bits of `i`.
fn reverse_index(i: usize, k: usize) -> (r: usize)
    requires
        k < 64,
        i < pow2(k as nat),
        pow2(k as nat) <= usize::MAX,
    ensures
        r == rev_bits(i as nat, k as nat),
{
    let mut r: usize = 0;
    let mut x: usize = i;
    let mut t: usize = 0;
    proof {
        vstd::arithmetic::power2::lemma2_to64();
    }
    while t < k
        invariant
            t <= k < 64,
            pow2(k as nat) <= usize::MAX,
            x == i as nat / pow2(t as nat),
            r == rev_bits(i as nat, t as nat),
        decreases k - t,
    {
        proof {
            lemma_rev_bits_step(i as nat, t as nat);
            lemma_rev_bits_bound(i as nat, (t + 1) as nat);
            if t + 1 < k {
                vstd::arithmetic::power2::lemma_pow2_strictly_increases((t + 1) as nat, k as nat);
            }
            vstd::arithmetic::power2::lemma_pow2_pos(t as nat);
            lemma_pow2_unfold((t + 1) as nat);
            vstd::arithmetic::div_mod::lemma_div_denominator(i as int, pow2(t as nat) as int, 2);
        }
        r = 2 * r + x % 2;
        x = x / 2;
        t = t + 1;
    }
    r
}

/// Puts `vals` in bit-reversed order: afterwards entry `i` is the entry that stood
/// at `i` with its `log2(len)` bits reversed. Fails, leaving `vals` as it was,
/// where the length is zero or not a power of two.
pub fn reverse_bit_order<T: Copy>(vals: &mut Vec<T>) -> (r: Result<(), FftError>)
    ensures
        r is Ok <==> old(vals)@.len() > 0 && is_pow2(old(vals)@.len()),
        r == Err::<(), FftError>(FftError::Empty) <==> old(vals)@.len() == 0,
        r == Err::<(), FftError>(FftError::NotPowerOfTwo) <==> old(vals)@.len() > 0 && !is_pow2(
            old(vals)@.len(),
        ),
        r is Ok ==> final(vals)@ == bit_reversed(old(vals)@),
        r is Err ==> final(vals)@ == old(vals)@,
{
    let n = vals.len();
    let k = match checked_log2(n) {
        Ok(k) => k,
        Err(e) => {
            return Err(e);
        },
    };
    proof {
        lemma_pow2_log2(n as nat);
    }
    let mut out: Vec<T> = Vec::with_capacity(n);
    let mut i: usize = 0;
    while i < n
        invariant
            n == vals@.len(),
            k < 64,
            k == log2(n as nat),
            pow2(k as nat) == n,
            i <= n,
            out@.len() == i,
            forall|j: int| 0 <= j < i ==> #[trigger] out@[j] == bit_reversed(vals@)[j],
        decreases n - i,
    {
        let src = reverse_index(i, k);
        proof {
            lemma_rev_bits_bound(i as nat, k as nat);
        }
        out.push(vals[src]);
        i = i + 1;
    }
    assert(out@ =~= bit_reversed(old(vals)@));
    *vals = out;
    Ok(())
}

} // verus!
