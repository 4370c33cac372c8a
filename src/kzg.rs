use vstd::arithmetic::power::pow;
use vstd::prelude::*;

use crate::backend::{values, KzgBackend};
use crate::fr::{be_nat, hash_to_fr, modulus, Fr};
use crate::poly::{inv_spec, FrArith};

verus! {

/// `a + b` in the field.
pub open spec fn add_v(a: nat, b: nat) -> nat {
    (a + b) % modulus()
}

/// `a - b` in the field.
pub open spec fn sub_v(a: nat, b: nat) -> nat {
    ((a - b) % (modulus() as int)) as nat
}

/// `a * b` in the field.
pub open spec fn mul_v(a: nat, b: nat) -> nat {
    (a * b) % modulus()
}

/// `z^k` in the field.
pub open spec fn pow_v(z: nat, k: nat) -> nat {
    (pow(z as int, k) % (modulus() as int)) as nat
}

/// The first of the first `k` domain points equal to `z`, if any.
pub open spec fn first_match(dom: Seq<Fr>, z: nat, k: nat) -> Option<nat>
    decreases k,
{
    if k == 0 {
        None
    } else {
        match first_match(dom, z, (k - 1) as nat) {
            Some(i) => Some(i),
            None => if dom[k - 1].value() == z {
                Some((k - 1) as nat)
            } else {
                None
            },
        }
    }
}

/// The barycentric sum `sum p_i * w_i / (z - w_i)` over the first `k` points.
pub open spec fn bary_sum(p: Seq<Fr>, dom: Seq<Fr>, z: nat, k: nat) -> nat
    decreases k,
{
    if k == 0 {
        0
    } else {
        let i = k - 1;
        add_v(
            bary_sum(p, dom, z, (k - 1) as nat),
            mul_v(mul_v(p[i].value(), dom[i].value()), inv_spec(sub_v(z, dom[i].value()))),
        )
    }
}

/// The value at `z` of the polynomial that takes `p[i]` at the domain point
/// `dom[i]`: `p[i]` where `z` is `dom[i]`, else the barycentric formula
/// `(z^n - 1) / n * sum p_i * w_i / (z - w_i)`.
pub open spec fn eval_spec(p: Seq<Fr>, dom: Seq<Fr>, z: nat) -> nat {
    match first_match(dom, z, dom.len()) {
        Some(i) => p[i as int].value(),
        None => mul_v(
            mul_v(bary_sum(p, dom, z, dom.len()), sub_v(pow_v(z, dom.len()), 1)),
            inv_spec(dom.len() % modulus()),
        ),
    }
}

/// Coefficient `i` of the quotient `(p(X) - y) / (X - z)` in evaluation form,
/// for `i` not the domain point `z`: `(p_i - y) / (w_i - z)`.
pub open spec fn quotient_off(p: Seq<Fr>, dom: Seq<Fr>, z: nat, y: nat, i: int) -> nat {
    mul_v(sub_v(p[i].value(), y), inv_spec(sub_v(dom[i].value(), z)))
}

/// The term of row `i` in the quotient's coefficient at the domain point `z`:
/// `(p_i - y) * w_i / (z * (z - w_i))`.
pub open spec fn quotient_on_term(p: Seq<Fr>, dom: Seq<Fr>, z: nat, y: nat, i: int) -> nat {
    mul_v(
        mul_v(sub_v(p[i].value(), y), dom[i].value()),
        inv_spec(mul_v(sub_v(z, dom[i].value()), z)),
    )
}

/// The sum of the terms of rows `0..k` other than `m`.
pub open spec fn quotient_on_sum(p: Seq<Fr>, dom: Seq<Fr>, z: nat, y: nat, m: nat, k: nat) -> nat
    decreases k,
{
    if k == 0 {
        0
    } else if k - 1 == m {
        quotient_on_sum(p, dom, z, y, m, (k - 1) as nat)
    } else {
        add_v(quotient_on_sum(p, dom, z, y, m, (k - 1) as nat), quotient_on_term(p, dom, z, y, k - 1))
    }
}

/// The quotient `(p(X) - y) / (X - z)` in evaluation form over `dom`.
pub open spec fn quotient_spec(p: Seq<Fr>, dom: Seq<Fr>, z: nat, y: nat) -> Seq<nat> {
    Seq::new(
        dom.len(),
        |i: int|
            match first_match(dom, z, dom.len()) {
                Some(m) => if i == m {
                    quotient_on_sum(p, dom, z, y, m, dom.len())
                } else {
                    quotient_off(p, dom, z, y, i)
                },
                None => quotient_off(p, dom, z, y, i),
            },
    )
}

proof fn lemma_first_match_stays(dom: Seq<Fr>, z: nat, k: nat, j: nat)
    requires
        first_match(dom, z, k) is Some,
        k <= j,
    ensures
        first_match(dom, z, j) == first_match(dom, z, k),
    decreases j,
{
    if j > k {
        lemma_first_match_stays(dom, z, k, (j - 1) as nat);
    }
}

proof fn lemma_first_match_bound(dom: Seq<Fr>, z: nat, k: nat)
    ensures
        first_match(dom, z, k) matches Some(i) ==> i < k && dom[i as int].value() == z,
    decreases k,
{
    if k > 0 {
        lemma_first_match_bound(dom, z, (k - 1) as nat);
    }
}

/// The index of the first domain point equal to `z`, if any.
fn find_in_domain(dom: &Vec<Fr>, z: &Fr) -> (r: Option<usize>)
    ensures
        match r {
            Some(i) => first_match(dom@, z.value(), dom@.len()) == Some(i as nat),
            None => first_match(dom@, z.value(), dom@.len()) is None,
        },
{
    let mut i: usize = 0;
    while i < dom.len()
        invariant
            i <= dom@.len(),
            first_match(dom@, z.value(), i as nat) is None,
        decreases dom@.len() - i,
    {
        if be_equal(&dom[i], z) {
            proof {
                lemma_first_match_stays(dom@, z.value(), (i + 1) as nat, dom@.len());
            }
            return Some(i);
        }
        i = i + 1;
    }
    None
}

/// Whether two field elements have the same value.
fn be_equal(a: &Fr, b: &Fr) -> (r: bool)
    ensures
        r == (a.value() == b.value()),
{
    let x = crate::fr::be_less(&a.bytes, &b.bytes);
    let y = crate::fr::be_less(&b.bytes, &a.bytes);
    !x && !y
}

/// `z^k` in the field.
fn fr_pow<A: FrArith>(arith: &A, z: &Fr, k: usize) -> (r: Fr)
    requires
        z.wf(),
    ensures
        r.wf(),
        r.value() == pow_v(z.value(), k as nat),
{
    proof {
        crate::fr::lemma_modulus_pos();
        vstd::arithmetic::power::lemma_pow0(z.value() as int);
        vstd::arithmetic::div_mod::lemma_small_mod(1, modulus());
    }
    let mut acc = Fr::from_u64(1);
    let mut i: usize = 0;
    while i < k
        invariant
            i <= k,
            z.wf(),
            acc.wf(),
            modulus() > 0,
            acc.value() == pow_v(z.value(), i as nat),
        decreases k - i,
    {
        let next = arith.fr_mul(&acc, z);
        proof {
            let m = modulus() as int;
            let p = pow(z.value() as int, i as nat);
            assert(pow(z.value() as int, (i + 1) as nat) == z.value() * p) by {
                reveal(pow);
            }
            vstd::arithmetic::div_mod::lemma_mul_mod_noop_left(p, z.value() as int, m);
            assert(p * z.value() == z.value() * p) by (nonlinear_arith);
        }
        acc = next;
        i = i + 1;
    }
    acc
}

/// The value at `z` of the polynomial that takes `p[i]` at the domain point
/// `dom[i]`.
pub fn evaluate_polynomial_in_evaluation_form<A: FrArith>(
    arith: &A,
    p: &Vec<Fr>,
    dom: &Vec<Fr>,
    z: &Fr,
) -> (r: Fr)
    requires
        p@.len() == dom@.len(),
        forall|i: int| 0 <= i < p@.len() ==> (#[trigger] p@[i]).wf(),
        forall|i: int| 0 <= i < dom@.len() ==> (#[trigger] dom@[i]).wf(),
        z.wf(),
    ensures
        r.wf(),
        r.value() == eval_spec(p@, dom@, z.value()),
{
    proof {
        crate::fr::lemma_modulus_pos();
    }
    match find_in_domain(dom, z) {
        Some(i) => {
            proof {
                lemma_first_match_bound(dom@, z.value(), dom@.len());
            }
            return p[i];
        },
        None => {},
    }
    let n = dom.len();
    let mut sum = Fr::zero();
    let mut i: usize = 0;
    while i < n
        invariant
            n == dom@.len(),
            p@.len() == n,
            i <= n,
            forall|k: int| 0 <= k < n ==> (#[trigger] p@[k]).wf(),
            forall|k: int| 0 <= k < n ==> (#[trigger] dom@[k]).wf(),
            z.wf(),
            sum.wf(),
            modulus() > 0x1_0000_0000_0000_0000,
            first_match(dom@, z.value(), n as nat) is None,
            sum.value() == bary_sum(p@, dom@, z.value(), i as nat),
        decreases n - i,
    {
        let den = arith.fr_sub(z, &dom[i]);
        let inv = arith.fr_inv(&den);
        let pw = arith.fr_mul(&p[i], &dom[i]);
        let t = arith.fr_mul(&pw, &inv);
        sum = arith.fr_add(&sum, &t);
        i = i + 1;
    }
    let zn = fr_pow(arith, z, n);
    let one = Fr::from_u64(1);
    let zn1 = arith.fr_sub(&zn, &one);
    let width = Fr::from_u64(n as u64);
    proof {
        vstd::arithmetic::div_mod::lemma_small_mod(n as nat, modulus());
    }
    let ninv = arith.fr_inv(&width);
    let s1 = arith.fr_mul(&sum, &zn1);
    arith.fr_mul(&s1, &ninv)
}

/// The quotient `(p(X) - y) / (X - z)` in evaluation form over `dom`, where `y`
/// is the polynomial's value at `z`.
pub fn compute_quotient<A: FrArith>(arith: &A, p: &Vec<Fr>, dom: &Vec<Fr>, z: &Fr, y: &Fr) -> (r:
    Vec<Fr>)
    requires
        p@.len() == dom@.len(),
        forall|i: int| 0 <= i < p@.len() ==> (#[trigger] p@[i]).wf(),
        forall|i: int| 0 <= i < dom@.len() ==> (#[trigger] dom@[i]).wf(),
        z.wf(),
        y.wf(),
    ensures
        r@.len() == dom@.len(),
        forall|i: int| 0 <= i < r@.len() ==> (#[trigger] r@[i]).wf(),
        values(r@) == quotient_spec(p@, dom@, z.value(), y.value()),
{
    proof {
        crate::fr::lemma_modulus_pos();
        lemma_first_match_bound(dom@, z.value(), dom@.len());
    }
    let n = dom.len();
    let at = find_in_domain(dom, z);
    let ghost fm = first_match(dom@, z.value(), n as nat);
    let mut q: Vec<Fr> = Vec::with_capacity(n);
    let mut on_sum = Fr::zero();
    let mut i: usize = 0;
    while i < n
        invariant
            n == dom@.len(),
            p@.len() == n,
            i <= n,
            forall|k: int| 0 <= k < n ==> (#[trigger] p@[k]).wf(),
            forall|k: int| 0 <= k < n ==> (#[trigger] dom@[k]).wf(),
            z.wf(),
            y.wf(),
            on_sum.wf(),
            modulus() > 0,
            fm == first_match(dom@, z.value(), n as nat),
            fm matches Some(mm) ==> mm < n && dom@[mm as int].value() == z.value(),
            match at {
                Some(k) => fm == Some(k as nat),
                None => fm is None,
            },
            q@.len() == i,
            forall|k: int| 0 <= k < i ==> (#[trigger] q@[k]).wf(),
            forall|k: int|
                0 <= k < i ==> (#[trigger] q@[k]).value() == match at {
                    Some(mm) => if k == mm {
                        0
                    } else {
                        quotient_off(p@, dom@, z.value(), y.value(), k)
                    },
                    None => quotient_off(p@, dom@, z.value(), y.value(), k),
                },
            at matches Some(mm) ==> on_sum.value() == quotient_on_sum(
                p@,
                dom@,
                z.value(),
                y.value(),
                mm as nat,
                i as nat,
            ),
        decreases n - i,
    {
        let is_at = match at {
            Some(mm) => mm == i,
            None => false,
        };
        if is_at {
            q.push(Fr::zero());
        } else {
            let num = arith.fr_sub(&p[i], y);
            let den = arith.fr_sub(&dom[i], z);
            let inv = arith.fr_inv(&den);
            let qi = arith.fr_mul(&num, &inv);
            q.push(qi);
            if at.is_some() {
                let num2 = arith.fr_mul(&num, &dom[i]);
                let zd = arith.fr_sub(z, &dom[i]);
                let den2 = arith.fr_mul(&zd, z);
                let inv2 = arith.fr_inv(&den2);
                let term = arith.fr_mul(&num2, &inv2);
                on_sum = arith.fr_add(&on_sum, &term);
            }
        }
        i = i + 1;
    }
    if let Some(mm) = at {
        q.set(mm, on_sum);
    }
    assert(values(q@) =~= quotient_spec(p@, dom@, z.value(), y.value()));
    q
}

} // verus!
