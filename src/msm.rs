use vstd::arithmetic::power2::{lemma2_to64, lemma_pow2_unfold, pow2};
use vstd::prelude::*;

verus! {

/// Number of bits of a scalar of the BLS12-381 scalar field.
pub const NBITS: usize = 255;

/// Number of significant bits of `n` (zero has none).
pub open spec fn bit_len(n: nat) -> nat
    decreases n,
{
    if n == 0 {
        0
    } else {
        1 + bit_len(n / 2)
    }
}

/// A number below `2^k` has at most `k` significant bits.
pub proof fn lemma_bit_len_le(n: nat, k: nat)
    requires
        n < pow2(k),
    ensures
        bit_len(n) <= k,
    decreases k,
{
    if n > 0 {
        if k == 0 {
            lemma2_to64();
        } else {
            lemma_pow2_unfold(k);
            lemma_bit_len_le(n / 2, (k - 1) as nat);
        }
    }
}

/// Number of significant bits of `l`.
pub fn num_bits(l: usize) -> (r: usize)
    ensures
        r == bit_len(l as nat),
        r <= 64,
{
    proof {
        lemma2_to64();
        lemma_bit_len_le(l as nat, 64);
    }
    let mut n: usize = l;
    let mut b: usize = 0;
    while n > 0
        invariant
            b + bit_len(n as nat) == bit_len(l as nat),
            bit_len(l as nat) <= 64,
        decreases n,
    {
        n = n / 2;
        b = b + 1;
    }
    b
}

/// `NBITS` as a mathematical integer.
pub open spec fn nbits() -> int {
    NBITS as int
}

/// The loop of the many-core case of `breakdown`: starting from `nx` columns and
/// window `wnd`, add a column while the rows times the columns stay below `ncpus`,
/// shrinking the window with each column. `None` where a window would reach zero
/// or below, on which the computation would divide by zero or underflow.
pub open spec fn grow_columns(window: int, ncpus: int, nx: int, wnd: int) -> Option<(int, int)>
    decreases ncpus - nx,
{
    if wnd <= 0 {
        None
    } else if nx < ncpus && (nbits() / wnd + 1) * nx < ncpus {
        grow_columns(window, ncpus, nx + 1, window - bit_len((3 * (nx + 1) / 2) as nat))
    } else {
        Some((nx, wnd))
    }
}

/// Split of a parallel Pippenger run over `ncpus` workers with window size
/// `window`: `(nx, ny, wnd)`, where `nx` is the number of point ranges, `ny` the
/// number of windows and `wnd` their width. `None` where the computation would
/// divide by zero or subtract below zero.
pub open spec fn breakdown_spec(window: int, ncpus: int) -> Option<(int, int, int)> {
    let pre: Option<(int, int)> = if nbits() > window * ncpus {
        let b = bit_len((ncpus / 4) as nat);
        if window + b > 18 {
            Some((1, window - b))
        } else if window <= 0 || ncpus <= 0 {
            None
        } else {
            let rows = (nbits() / window + ncpus - 1) / ncpus;
            if (nbits() / (window + 1) + ncpus - 1) / ncpus < rows {
                Some((1, window + 1))
            } else {
                Some((1, window))
            }
        }
    } else {
        match grow_columns(window, ncpus, 2, window - 2) {
            Some((nx, _)) => Some((nx - 1, window - bit_len((3 * (nx - 1) / 2) as nat))),
            None => None,
        }
    };
    match pre {
        Some((nx, wnd)) => if wnd <= 0 {
            None
        } else {
            let ny = nbits() / wnd + 1;
            Some((nx, ny, nbits() / ny + 1))
        },
        None => None,
    }
}

/// Decomposes a multi-scalar multiplication with window `window` over `ncpus`
/// workers into `(nx, ny, wnd)`: `nx` ranges of points, `ny` windows of `wnd` bits.
/// There is at least one of each, the windows cover the 255 bits of a scalar, and
/// where the workers times the window fall short of 255 there is one range.
pub fn breakdown(window: usize, ncpus: usize) -> (r: (usize, usize, usize))
    requires
        window * ncpus <= usize::MAX,
        breakdown_spec(window as int, ncpus as int) is Some,
    ensures
        breakdown_spec(window as int, ncpus as int) == Some((r.0 as int, r.1 as int, r.2 as int)),
        r.0 >= 1,
        r.1 >= 1,
        r.1 * r.2 > NBITS,
        NBITS > window * ncpus ==> r.0 == 1,
{
    let mut nx: usize;
    let mut wnd: usize;
    if NBITS > window * ncpus {
        nx = 1;
        wnd = num_bits(ncpus / 4);
        if ncpus > 0 {
            assert(window < 255) by (nonlinear_arith)
                requires
                    window * ncpus < 255,
                    ncpus >= 1,
            ;
        } else {
            assert(wnd == 0);
        }
        if window + wnd > 18 {
            wnd = window - wnd;
        } else {
            assert(window > 0 && ncpus > 0);
            assert(ncpus < 255) by (nonlinear_arith)
                requires
                    window >= 1,
                    window * ncpus < 255,
            ;
            wnd = (NBITS / window + ncpus - 1) / ncpus;
            if (NBITS / (window + 1) + ncpus - 1) / ncpus < wnd {
                wnd = window + 1;
            } else {
                wnd = window;
            }
        }
    } else {
        assert(window >= 3);
        assert(3 * ncpus <= usize::MAX) by (nonlinear_arith)
            requires
                window >= 3,
                window * ncpus <= usize::MAX,
        ;
        nx = 2;
        wnd = window - 2;
        loop
            invariant
                2 <= nx,
                nx <= ncpus || nx == 2,
                3 * ncpus <= usize::MAX,
                grow_columns(window as int, ncpus as int, nx as int, wnd as int)
                    == grow_columns(window as int, ncpus as int, 2, window - 2),
                grow_columns(window as int, ncpus as int, nx as int, wnd as int) is Some,
            ensures
                grow_columns(window as int, ncpus as int, 2, window - 2) == Some(
                    (nx as int, wnd as int),
                ),
                2 <= nx,
                nx <= ncpus || nx == 2,
            decreases ncpus - nx,
        {
            assert(wnd > 0);
            let q = NBITS / wnd + 1;
            let more = nx < ncpus && nx <= (ncpus - 1) / q;
            proof {
                if nx < ncpus {
                    let t = (ncpus - 1) as int / q as int;
                    let rem = (ncpus - 1) as int % q as int;
                    vstd::arithmetic::div_mod::lemma_fundamental_div_mod((ncpus - 1) as int, q as int);
                    assert(more <==> q * nx < ncpus) by (nonlinear_arith)
                        requires
                            ncpus - 1 == q * t + rem,
                            0 <= rem < q,
                            q >= 1,
                            more <==> nx <= t,
                    ;
                    assert(q * nx == (NBITS / wnd + 1) * nx);
                }
            }
            if !more {
                break;
            }
            nx += 1;
            let b = num_bits(3 * nx / 2);
            assert(grow_columns(window as int, ncpus as int, nx as int, window - b) is Some);
            wnd = window - b;
        }
        nx -= 1;
        wnd = window - num_bits(3 * nx / 2);
    }
    let ny = NBITS / wnd + 1;
    wnd = NBITS / ny + 1;
    proof {
        vstd::arithmetic::div_mod::lemma_fundamental_div_mod(NBITS as int, ny as int);
        assert(ny * wnd > NBITS) by (nonlinear_arith)
            requires
                NBITS == ny * (NBITS / ny) + NBITS % ny,
                0 <= NBITS % ny < ny,
                wnd == NBITS / ny + 1,
        ;
    }
    (nx, ny, wnd)
}

} // verus!
