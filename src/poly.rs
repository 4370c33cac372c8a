use vstd::prelude::*;

use vstd::arithmetic::power::pow;

use crate::fr::{modulus, Fr};

verus! {

/// Arithmetic of the scalar field, as the curve backend provides it.
pub trait FrArith {
    /// `a + b` in the field.
    fn fr_add(&self, a: &Fr, b: &Fr) -> (r: Fr)
        requires
            a.wf(),
            b.wf(),
        ensures
            r.wf(),
            r.value() == (a.value() + b.value()) % modulus(),
    ;

    /// `a - b` in the field.
    fn fr_sub(&self, a: &Fr, b: &Fr) -> (r: Fr)
        requires
            a.wf(),
            b.wf(),
        ensures
            r.wf(),
            r.value() == (a.value() - b.value()) % (modulus() as int),
    ;

    /// `a * b` in the field.
    fn fr_mul(&self, a: &Fr, b: &Fr) -> (r: Fr)
        requires
            a.wf(),
            b.wf(),
        ensures
            r.wf(),
            r.value() == (a.value() * b.value()) % modulus(),
    ;

    /// The inverse of `a`; zero for zero.
    fn fr_inv(&self, a: &Fr) -> (r: Fr)
        requires
            a.wf(),
        ensures
            r.wf(),
            a.value() != 0 ==> (r.value() * a.value()) % modulus() == 1,
            r.value() == inv_spec(a.value()),
    ;
}

/// The inverse of `a` in the field, by Fermat: `a^(r - 2) mod r`.
pub open spec fn inv_spec(a: nat) -> nat {
    (pow(a as int, (modulus() - 2) as nat) % (modulus() as int)) as nat
}

/// Why a division failed.
#[derive(Clone, Copy, Debug, PartialEq, Eq)]
pub enum PolyError {
    /// The divisor is the zero polynomial.
    DivisionByZero,
}

/// The number of coefficients of `s` up to its last non-zero one.
pub open spec fn trimmed_len(s: Seq<Fr>) -> nat
    decreases s.len(),
{
    if s.len() == 0 {
        0
    } else if s.last().value() == 0 {
        trimmed_len(s.drop_last())
    } else {
        s.len()
    }
}

/// For every `x`, `num(x) = q(x) * den(x) + rem(x)` in the field.
pub open spec fn division_identity(num: Seq<Fr>, q: Seq<Fr>, den: Seq<Fr>, rem: Seq<Fr>) -> bool {
    forall|x: nat|
        #[trigger] horner(num, x) % modulus() == (horner(q, x) * horner(den, x) + horner(rem, x))
            % modulus()
}

/// The value at `x` of the polynomial with coefficients `c`, lowest first, over
/// the integers: `c[0] + x * (c[1] + x * (...))`.
pub open spec fn horner(c: Seq<Fr>, x: nat) -> nat
    decreases c.len(),
{
    if c.len() == 0 {
        0
    } else {
        c[0].value() + x * horner(c.skip(1), x)
    }
}

/// A polynomial over the scalar field, as its coefficients in the monomial
/// basis, lowest degree first.
#[derive(Debug)]
pub struct Poly {
    pub coeffs: Vec<Fr>,
}

impl Poly {
    /// Every coefficient is a canonical field element.
    pub open spec fn wf(&self) -> bool {
        forall|i: int| 0 <= i < self.coeffs@.len() ==> #[trigger] self.coeffs@[i].wf()
    }

    /// The zero polynomial with `size` coefficients.
    pub fn new(size: usize) -> (r: Poly)
        ensures
            r.wf(),
            r.coeffs@.len() == size,
            forall|i: int| 0 <= i < size ==> (#[trigger] r.coeffs@[i]).value() == 0,
    {
        let mut coeffs: Vec<Fr> = Vec::with_capacity(size);
        let mut i: usize = 0;
        while i < size
            invariant
                i <= size,
                coeffs@.len() == i,
                forall|k: int| 0 <= k < i ==> (#[trigger] coeffs@[k]).wf() && coeffs@[k].value() == 0,
            decreases size - i,
        {
            coeffs.push(Fr::zero());
            i = i + 1;
        }
        Poly { coeffs }
    }

    /// The number of coefficients.
    pub fn len(&self) -> (r: usize)
        ensures
            r == self.coeffs@.len(),
    {
        self.coeffs.len()
    }

    /// The coefficient of `x^i`.
    pub fn get_coeff_at(&self, i: usize) -> (r: Fr)
        requires
            i < self.coeffs@.len(),
        ensures
            r == self.coeffs@[i as int],
    {
        self.coeffs[i]
    }

    /// Sets the coefficient of `x^i` to `x`.
    pub fn set_coeff_at(&mut self, i: usize, x: &Fr)
        requires
            i < old(self).coeffs@.len(),
        ensures
            final(self).coeffs@ == old(self).coeffs@.update(i as int, *x),
    {
        self.coeffs.set(i, *x);
    }

    /// The polynomial with `out_length` coefficients: the first ones of `self`,
    /// then zeros.
    pub fn pad(&self, out_length: usize) -> (r: Poly)
        ensures
            r.coeffs@.len() == out_length,
            forall|i: int|
                0 <= i < out_length && i < self.coeffs@.len() ==> #[trigger] r.coeffs@[i]
                    == self.coeffs@[i],
            forall|i: int|
                self.coeffs@.len() <= i < out_length ==> #[trigger] r.coeffs@[i].wf()
                    && r.coeffs@[i].value() == 0,
    {
        let mut coeffs: Vec<Fr> = Vec::with_capacity(out_length);
        let mut i: usize = 0;
        while i < out_length
            invariant
                i <= out_length,
                coeffs@.len() == i,
                forall|k: int|
                    0 <= k < i && k < self.coeffs@.len() ==> #[trigger] coeffs@[k]
                        == self.coeffs@[k],
                forall|k: int|
                    self.coeffs@.len() <= k < i ==> #[trigger] coeffs@[k].wf() && coeffs@[k].value()
                        == 0,
            decreases out_length - i,
        {
            if i < self.coeffs.len() {
                coeffs.push(self.coeffs[i]);
            } else {
                coeffs.push(Fr::zero());
            }
            i = i + 1;
        }
        Poly { coeffs }
    }

    /// The value of the polynomial at `x`, by Horner's rule.
    pub fn eval<A: FrArith>(&self, x: &Fr, arith: &A) -> (r: Fr)
        requires
            self.wf(),
            x.wf(),
        ensures
            r.wf(),
            r.value() == horner(self.coeffs@, x.value()) % modulus(),
    {
        proof {
            crate::fr::lemma_modulus_pos();
        }
        let c = &self.coeffs;
        let mut acc = Fr::zero();
        let mut i: usize = c.len();
        assert(c@.skip(c@.len() as int) =~= Seq::<Fr>::empty());
        while i > 0
            invariant
                i <= c@.len(),
                c@ == self.coeffs@,
                self.wf(),
                x.wf(),
                acc.wf(),
                modulus() > 0,
                acc.value() == horner(c@.skip(i as int), x.value()) % modulus(),
            decreases i,
        {
            i = i - 1;
            let t = arith.fr_mul(&acc, x);
            let coeff = c[i];
            assert(coeff.wf());
            acc = arith.fr_add(&t, &coeff);
            proof {
                let m = modulus() as int;
                let h = horner(c@.skip(i + 1), x.value()) as int;
                let xv = x.value() as int;
                let cv = coeff.value() as int;
                assert(c@.skip(i as int).skip(1) =~= c@.skip(i + 1));
                assert(c@.skip(i as int)[0] == coeff);
                assert(horner(c@.skip(i as int), x.value()) == cv + xv * h);
                vstd::arithmetic::div_mod::lemma_mul_mod_noop_left(h, xv, m);
                assert(h * xv == xv * h) by (nonlinear_arith);
                vstd::arithmetic::div_mod::lemma_add_mod_noop(xv * h, cv, m);
                vstd::arithmetic::div_mod::lemma_small_mod(cv as nat, m as nat);
                assert(t.value() == (xv * h) % m);
            }
        }
        assert(c@.skip(0) =~= c@);
        acc
    }
}

/// Adding the same to two numbers congruent modulo `m` keeps them congruent.
proof fn lemma_cong_add(a: int, b: int, c: int, m: int)
    requires
        m > 0,
        a % m == b % m,
    ensures
        (a + c) % m == (b + c) % m,
{
    vstd::arithmetic::div_mod::lemma_add_mod_noop(a, c, m);
    vstd::arithmetic::div_mod::lemma_add_mod_noop(b, c, m);
}

/// Multiplying two numbers congruent modulo `m` by the same keeps them congruent.
proof fn lemma_cong_mul(a: int, b: int, c: int, m: int)
    requires
        m > 0,
        a % m == b % m,
    ensures
        (a * c) % m == (b * c) % m,
{
    vstd::arithmetic::div_mod::lemma_mul_mod_noop_left(a, c, m);
    vstd::arithmetic::div_mod::lemma_mul_mod_noop_left(b, c, m);
}

/// Changing coefficient `j` changes the value by the difference times `x^j`.
proof fn lemma_horner_update(c: Seq<Fr>, j: int, v: Fr, x: nat)
    requires
        0 <= j < c.len(),
    ensures
        horner(c.update(j, v), x) == horner(c, x) + (v.value() - c[j].value()) * pow(
            x as int,
            j as nat,
        ),
    decreases j,
{
    let u = c.update(j, v);
    if j == 0 {
        assert(u.skip(1) =~= c.skip(1));
        assert(pow(x as int, 0) == 1) by {
            vstd::arithmetic::power::lemma_pow0(x as int);
        }
    } else {
        assert(u.skip(1) =~= c.skip(1).update(j - 1, v));
        lemma_horner_update(c.skip(1), j - 1, v, x);
        let d = v.value() - c[j].value();
        let p = pow(x as int, (j - 1) as nat);
        assert(pow(x as int, j as nat) == x * p) by {
            reveal(pow);
        }
        let h = horner(c.skip(1), x) as int;
        assert(x * (h + d * p) == x * h + d * (x * p)) by (nonlinear_arith);
    }
}

/// Appending a coefficient adds it times `x` to the power of its place.
proof fn lemma_horner_push(s: Seq<Fr>, e: Fr, x: nat)
    ensures
        horner(s.push(e), x) == horner(s, x) + e.value() * pow(x as int, s.len()),
    decreases s.len(),
{
    if s.len() == 0 {
        assert(s.push(e).skip(1) =~= Seq::<Fr>::empty());
        assert(pow(x as int, 0) == 1) by {
            vstd::arithmetic::power::lemma_pow0(x as int);
        }
        assert(s.push(e)[0] == e);
        assert(horner(s.push(e), x) == e.value() + x * horner(s.push(e).skip(1), x));
        assert(horner(s.push(e).skip(1), x) == 0);
        assert(x * horner(s.push(e).skip(1), x) == 0) by (nonlinear_arith)
            requires
                horner(s.push(e).skip(1), x) == 0,
        ;
        assert(horner(s, x) == 0);
        assert(horner(s.push(e), x) == e.value());
    } else {
        assert(s.push(e).skip(1) =~= s.skip(1).push(e));
        assert(s.push(e)[0] == s[0]);
        lemma_horner_push(s.skip(1), e, x);
        let p = pow(x as int, (s.len() - 1) as nat);
        assert(pow(x as int, s.len()) == x * p) by {
            reveal(pow);
        }
        let h = horner(s.skip(1), x) as int;
        assert(x * (h + e.value() * p) == x * h + e.value() * (x * p)) by (nonlinear_arith);
        assert(horner(s.push(e), x) == s[0].value() + x * horner(s.skip(1).push(e), x));
        assert(horner(s.skip(1).push(e), x) == h + e.value() * p);
        assert(horner(s, x) == s[0].value() + x * h);
    }
}

/// Coefficients that are zero from place `k` on do not change the value.
proof fn lemma_horner_trailing_zeros(s: Seq<Fr>, k: nat, x: nat)
    requires
        k <= s.len(),
        forall|i: int| k <= i < s.len() ==> (#[trigger] s[i]).value() == 0,
    ensures
        horner(s, x) == horner(s.take(k as int), x),
    decreases s.len(),
{
    if s.len() > k {
        let t = s.drop_last();
        assert(t.take(k as int) =~= s.take(k as int));
        lemma_horner_trailing_zeros(t, k, x);
        assert(t.push(s.last()) =~= s);
        lemma_horner_push(t, s.last(), x);
        assert(s[s.len() - 1].value() == 0);
    } else {
        assert(s.take(k as int) =~= s);
    }
}

/// What `trimmed_len` leaves out is zero, and what it keeps ends in a non-zero
/// coefficient.
proof fn lemma_trimmed_len(s: Seq<Fr>)
    ensures
        trimmed_len(s) <= s.len(),
        forall|i: int| trimmed_len(s) <= i < s.len() ==> (#[trigger] s[i]).value() == 0,
        trimmed_len(s) > 0 ==> s[trimmed_len(s) - 1].value() != 0,
    decreases s.len(),
{
    if s.len() > 0 && s.last().value() == 0 {
        let t = s.drop_last();
        lemma_trimmed_len(t);
        assert forall|i: int| trimmed_len(s) <= i < s.len() implies (#[trigger] s[i]).value()
            == 0 by {
            if i < s.len() - 1 {
                assert(s[i] == t[i]);
            }
        }
        if trimmed_len(s) > 0 {
            assert(s[trimmed_len(s) - 1] == t[trimmed_len(t) - 1]);
        }
    }
}

/// A polynomial whose coefficients are all zero is zero everywhere.
proof fn lemma_horner_all_zero(s: Seq<Fr>, x: nat)
    requires
        forall|i: int| 0 <= i < s.len() ==> (#[trigger] s[i]).value() == 0,
    ensures
        horner(s, x) == 0,
{
    lemma_horner_trailing_zeros(s, 0, x);
    assert(s.take(0) =~= Seq::<Fr>::empty());
}

/// One step of the inner loop of `long_div`: subtracting `c * den[i] * x^(d + i)`
/// from a value congruent to `start - c * x^d * den_i(x)` gives one congruent to
/// `start - c * x^d * den_(i+1)(x)`.
proof fn lemma_sub_step(
    a_cur: int,
    a_start: int,
    v: int,
    w: int,
    e: int,
    c: int,
    xd: int,
    xi: int,
    hd: int,
    di: int,
    m: int,
)
    requires
        m > 0,
        0 <= w < m,
        a_cur % m == (a_start - c * xd * hd) % m,
        v == (w - e % m) % m,
        e == c * di,
    ensures
        (a_cur + (v - w) * (xd * xi)) % m == (a_start - c * xd * (hd + di * xi)) % m,
{
    vstd::arithmetic::div_mod::lemma_sub_mod_noop(w, e, m);
    vstd::arithmetic::div_mod::lemma_small_mod(w as nat, m as nat);
    vstd::arithmetic::div_mod::lemma_mod_twice(w - e % m, m);
    assert(v % m == (w - e) % m);
    lemma_cong_add(v, w - e, -w, m);
    assert((v - w) % m == (-e) % m);
    lemma_cong_mul(v - w, -e, xd * xi, m);
    lemma_cong_add(a_cur, a_start - c * xd * hd, (v - w) * (xd * xi), m);
    lemma_cong_add((v - w) * (xd * xi), (-e) * (xd * xi), a_start - c * xd * hd, m);
    assert(a_start - c * xd * hd + (-e) * (xd * xi) == a_start - c * xd * (hd + di * xi))
        by (nonlinear_arith)
        requires
            e == c * di,
    ;
}

/// The leading coefficient vanishes: `w - ((w * inv) mod m) * lead` is zero
/// modulo `m` where `inv * lead` is one.
proof fn lemma_top_cancels(w: int, inv: int, lead: int, m: int)
    requires
        m > 0,
        0 <= w < m,
        (inv * lead) % m == 1,
    ensures
        (w - (((w * inv) % m) * lead) % m) % m == 0,
{
    vstd::arithmetic::div_mod::lemma_mul_mod_noop_left(w * inv, lead, m);
    assert((w * inv) * lead == w * (inv * lead)) by (nonlinear_arith);
    vstd::arithmetic::div_mod::lemma_mul_mod_noop_right(w, inv * lead, m);
    assert(w * 1 == w);
    vstd::arithmetic::div_mod::lemma_small_mod(w as nat, m as nat);
    assert((((w * inv) % m) * lead) % m == w);
    assert(w - w == 0);
}

impl Poly {
    /// The quotient of `self` by `divisor`, by schoolbook division after the
    /// divisor's leading zeros are dropped. Fails where the divisor is zero.
    /// The quotient `q` has `n - b + 1` coefficients, `n` and `b` being the
    /// lengths of `self` and of the trimmed divisor (none where `n < b`), and
    /// some remainder with fewer than `b` coefficients makes up the difference:
    /// `self(x) = q(x) * divisor(x) + rem(x)` at every `x`.
    #[verifier::rlimit(50)]
    pub fn long_div<A: FrArith>(&self, divisor: &Poly, arith: &A) -> (r: Result<Poly, PolyError>)
        requires
            self.wf(),
            divisor.wf(),
        ensures
            r is Err <==> trimmed_len(divisor.coeffs@) == 0,
            r matches Ok(q) ==> {
                &&& q.wf()
                &&& q.coeffs@.len() == if self.coeffs@.len() >= trimmed_len(divisor.coeffs@) {
                    self.coeffs@.len() - trimmed_len(divisor.coeffs@) + 1
                } else {
                    0
                }
                &&& exists|rem: Seq<Fr>|
                    rem.len() < trimmed_len(divisor.coeffs@) && division_identity(
                        self.coeffs@,
                        q.coeffs@,
                        divisor.coeffs@,
                        rem,
                    )
            },
    {
        proof {
            crate::fr::lemma_modulus_pos();
            lemma_trimmed_len(divisor.coeffs@);
        }
        let ghost m: nat = modulus();
        let den = &divisor.coeffs;
        let mut b: usize = den.len();
        assert(den@.take(b as int) =~= den@);
        while b > 0 && den[b - 1].is_zero()
            invariant
                b <= den@.len(),
                trimmed_len(den@.take(b as int)) == trimmed_len(den@),
            decreases b,
        {
            assert(den@.take(b as int).drop_last() =~= den@.take(b - 1));
            b = b - 1;
        }
        proof {
            if b > 0 {
                assert(den@.take(b as int).last() == den@[b - 1]);
            }
            assert(trimmed_len(den@.take(b as int)) == b);
        }
        if b == 0 {
            return Err(PolyError::DivisionByZero);
        }
        let num = &self.coeffs;
        let n = num.len();
        if n < b {
            let q = Poly::new(0);
            proof {
                assert forall|x: nat| #[trigger] horner(num@, x) % m == (horner(q.coeffs@, x)
                    * horner(den@, x) + horner(num@, x)) % m by {
                    assert(q.coeffs@ =~= Seq::<Fr>::empty());
                    assert(horner(q.coeffs@, x) == 0);
                    assert(0 * horner(den@, x) == 0) by (nonlinear_arith);
                }
                assert(division_identity(self.coeffs@, q.coeffs@, divisor.coeffs@, self.coeffs@));
                assert(self.coeffs@.len() < trimmed_len(divisor.coeffs@));
                assert(q.wf());
                assert(q.coeffs@.len() == 0);
            }
            return Ok(q);
        }
        let ghost denb = den@.take(b as int);
        proof {
            assert forall|x: nat| horner(den@, x) == horner(denb, x) by {
                lemma_horner_trailing_zeros(den@, b as nat, x);
            }
        }
        let lead_inv = arith.fr_inv(&den[b - 1]);
        let mut a = copy_coeffs(num);
        let mut out = Poly::new(n - b + 1).coeffs;
        let mut t: usize = n - b + 1;
        proof {
            assert forall|x: nat| #[trigger] horner(num@, x) % m == (horner(out@, x) * horner(
                denb,
                x,
            ) + horner(a@, x)) % m by {
                lemma_horner_all_zero(out@, x);
                assert(horner(out@, x) * horner(denb, x) == 0) by (nonlinear_arith)
                    requires
                        horner(out@, x) == 0,
                ;
            }
        }
        while t > 0
            invariant
                m == modulus(),
                m > 0,
                1 <= b <= den@.len(),
                b == trimmed_len(divisor.coeffs@),
                b <= n,
                n == num@.len(),
                self.wf(),
                divisor.wf(),
                den@ == divisor.coeffs@,
                num@ == self.coeffs@,
                denb == den@.take(b as int),
                den@[b - 1].value() != 0,
                lead_inv.wf(),
                (lead_inv.value() * den@[b - 1].value()) % m == 1,
                t <= n - b + 1,
                a@.len() == n,
                out@.len() == n - b + 1,
                forall|k: int| 0 <= k < n ==> (#[trigger] a@[k]).wf(),
                forall|k: int| 0 <= k < n - b + 1 ==> (#[trigger] out@[k]).wf(),
                forall|k: int| 0 <= k < t ==> (#[trigger] out@[k]).value() == 0,
                forall|k: int| t + b - 1 <= k < n ==> (#[trigger] a@[k]).value() == 0,
                forall|x: nat|
                    #[trigger] horner(num@, x) % m == (horner(out@, x) * horner(denb, x) + horner(
                        a@,
                        x,
                    )) % m,
            decreases t,
        {
            let d = t - 1;
            let top = a[d + b - 1];
            let c = arith.fr_mul(&top, &lead_inv);
            let ghost a_start = a@;
            let mut i: usize = 0;
            proof {
                assert forall|x: nat| #[trigger] horner(a@, x) as int % (m as int) == (horner(
                    a_start,
                    x,
                ) - c.value() * pow(x as int, d as nat) * horner(den@.take(0), x)) % (m as int) by {
                    assert(den@.take(0) =~= Seq::<Fr>::empty());
                    assert(horner(den@.take(0), x) == 0);
                    assert(c.value() * pow(x as int, d as nat) * 0 == 0) by (nonlinear_arith);
                }
            }
            while i < b
                invariant
                    m == modulus(),
                    m > 0,
                    1 <= b <= den@.len(),
                    divisor.wf(),
                    den@ == divisor.coeffs@,
                    d + b <= n,
                    n == a_start.len(),
                    a@.len() == n,
                    i <= b,
                    c.wf(),
                    forall|k: int| 0 <= k < n ==> (#[trigger] a_start[k]).wf(),
                    forall|k: int| 0 <= k < n ==> (#[trigger] a@[k]).wf(),
                    forall|k: int| 0 <= k < n && !(d <= k < d + i) ==> #[trigger] a@[k] == a_start[k],
                    forall|k: int|
                        d <= k < d + i ==> (#[trigger] a@[k]).value() as int == (a_start[k].value()
                            - (c.value() * den@[k - d].value()) % m) % (m as int),
                    forall|x: nat|
                        #[trigger] horner(a@, x) as int % (m as int) == (horner(a_start, x) - c.value()
                            * pow(x as int, d as nat) * horner(den@.take(i as int), x)) % (
                        m as int),
                decreases b - i,
            {
                let e = arith.fr_mul(&c, &den[i]);
                let v = arith.fr_sub(&a[d + i], &e);
                proof {
                    let k = (d + i) as int;
                    let w = a@[k].value() as int;
                    assert(a@[k] == a_start[k]);
                    assert(den@.take(i + 1) =~= den@.take(i as int).push(den@[i as int]));
                    assert forall|x: nat| #[trigger] horner(a@.update(k, v), x) as int % (m as int)
                        == (horner(a_start, x) - c.value() * pow(x as int, d as nat) * horner(
                        den@.take(i + 1),
                        x,
                    )) % (m as int) by {
                        lemma_horner_update(a@, k, v, x);
                        lemma_horner_push(den@.take(i as int), den@[i as int], x);
                        vstd::arithmetic::power::lemma_pow_adds(x as int, d as nat, i as nat);
                        lemma_sub_step(
                            horner(a@, x) as int,
                            horner(a_start, x) as int,
                            v.value() as int,
                            w,
                            (c.value() * den@[i as int].value()) as int,
                            c.value() as int,
                            pow(x as int, d as nat),
                            pow(x as int, i as nat),
                            horner(den@.take(i as int), x) as int,
                            den@[i as int].value() as int,
                            m as int,
                        );
                    }
                }
                a.set(d + i, v);
                i = i + 1;
            }
            proof {
                let k = (d + b - 1) as int;
                lemma_top_cancels(
                    top.value() as int,
                    lead_inv.value() as int,
                    den@[b - 1].value() as int,
                    m as int,
                );
                assert(a@[k].value() == 0);
            }
            let ghost out_start = out@;
            out.set(d, c);
            proof {
                assert forall|x: nat| #[trigger] horner(num@, x) % m == (horner(out@, x) * horner(
                    denb,
                    x,
                ) + horner(a@, x)) % m by {
                    let xd = pow(x as int, d as nat);
                    let hd = horner(denb, x) as int;
                    let ho = horner(out_start, x) as int;
                    lemma_horner_update(out_start, d as int, c, x);
                    assert(horner(out@, x) == ho + c.value() * xd);
                    assert((ho + c.value() * xd) * hd == ho * hd + c.value() * xd * hd)
                        by (nonlinear_arith);
                    lemma_cong_add(
                        horner(a@, x) as int,
                        horner(a_start, x) - c.value() * xd * hd,
                        ho * hd + c.value() * xd * hd,
                        m as int,
                    );
                }
            }
            t = d;
        }
        let ghost rem = a@.take(b - 1);
        proof {
            assert forall|x: nat| #[trigger] horner(num@, x) % m == (horner(out@, x) * horner(
                den@,
                x,
            ) + horner(rem, x)) % m by {
                lemma_horner_trailing_zeros(a@, (b - 1) as nat, x);
            }
            assert(division_identity(self.coeffs@, out@, divisor.coeffs@, rem));
            assert(rem.len() < trimmed_len(divisor.coeffs@));
            assert(out@.len() == self.coeffs@.len() - trimmed_len(divisor.coeffs@) + 1);
        }
        let q = Poly { coeffs: out };
        assert(q.wf());
        Ok(q)
    }
}

/// A copy of the coefficients `c`.
fn copy_coeffs(c: &Vec<Fr>) -> (r: Vec<Fr>)
    ensures
        r@ == c@,
{
    crate::settings::copy_vec(c)
}

/// The product term of row `i` in coefficient `k`: `a[i] * b[k - i]` where both
/// exist, else zero.
pub open spec fn conv_term(a: Seq<Fr>, b: Seq<Fr>, k: int, i: int) -> nat {
    if 0 <= i < a.len() && 0 <= k - i < b.len() {
        a[i].value() * b[k - i].value()
    } else {
        0
    }
}

/// The sum of the product terms of rows `0..i` in coefficient `k`.
pub open spec fn conv_partial(a: Seq<Fr>, b: Seq<Fr>, k: int, i: nat) -> nat
    decreases i,
{
    if i == 0 {
        0
    } else {
        conv_partial(a, b, k, (i - 1) as nat) + conv_term(a, b, k, i - 1)
    }
}

/// Coefficient `k` of the product of `a` and `b`, over the integers.
pub open spec fn conv(a: Seq<Fr>, b: Seq<Fr>, k: int) -> nat {
    conv_partial(a, b, k, a.len())
}

/// Rows from `k + 1` on add nothing to coefficient `k`.
proof fn lemma_conv_partial_stable(a: Seq<Fr>, b: Seq<Fr>, k: int, i: nat, j: nat)
    requires
        0 <= k < i <= j,
    ensures
        conv_partial(a, b, k, j) == conv_partial(a, b, k, i),
    decreases j,
{
    if j > i {
        lemma_conv_partial_stable(a, b, k, i, (j - 1) as nat);
    }
}

impl Poly {
    /// The product of `self` and `multiplier`, truncated to `output_len`
    /// coefficients: coefficient `k` is the sum of `self[i] * multiplier[k - i]`.
    pub fn mul_direct<A: FrArith>(&self, multiplier: &Poly, output_len: usize, arith: &A) -> (r:
        Poly)
        requires
            self.wf(),
            multiplier.wf(),
        ensures
            r.wf(),
            r.coeffs@.len() == output_len,
            forall|k: int|
                0 <= k < output_len ==> (#[trigger] r.coeffs@[k]).value() == conv(
                    self.coeffs@,
                    multiplier.coeffs@,
                    k,
                ) % modulus(),
    {
        proof {
            crate::fr::lemma_modulus_pos();
        }
        let ghost m: nat = modulus();
        let a = &self.coeffs;
        let b = &multiplier.coeffs;
        let a_degree = if a.len() < output_len {
            a.len()
        } else {
            output_len
        };
        let b_degree = if b.len() < output_len {
            b.len()
        } else {
            output_len
        };
        let mut out = Poly::new(output_len).coeffs;
        let mut i: usize = 0;
        while i < a_degree
            invariant
                m == modulus(),
                m > 0,
                self.wf(),
                multiplier.wf(),
                a@ == self.coeffs@,
                b@ == multiplier.coeffs@,
                a_degree <= a@.len(),
                a_degree <= output_len,
                b_degree <= output_len,
                b_degree == b@.len() || b_degree == output_len,
                b_degree <= b@.len(),
                i <= a_degree,
                out@.len() == output_len,
                forall|k: int| 0 <= k < output_len ==> (#[trigger] out@[k]).wf(),
                forall|k: int|
                    0 <= k < output_len ==> (#[trigger] out@[k]).value() == conv_partial(
                        a@,
                        b@,
                        k,
                        i as nat,
                    ) % m,
            decreases a_degree - i,
        {
            let mut j: usize = 0;
            while j < b_degree
                invariant
                    m == modulus(),
                    m > 0,
                    self.wf(),
                    multiplier.wf(),
                    a@ == self.coeffs@,
                    b@ == multiplier.coeffs@,
                    i < a_degree,
                    a_degree <= a@.len(),
                    a_degree <= output_len,
                    b_degree <= output_len,
                    b_degree <= b@.len(),
                    j <= b_degree,
                    out@.len() == output_len,
                    forall|k: int| 0 <= k < output_len ==> (#[trigger] out@[k]).wf(),
                    forall|k: int|
                        0 <= k < output_len ==> (#[trigger] out@[k]).value() == (conv_partial(
                            a@,
                            b@,
                            k,
                            i as nat,
                        ) + if i <= k < i + j {
                            conv_term(a@, b@, k, i as int)
                        } else {
                            0
                        }) % m,
                decreases b_degree - j,
            {
                if j < output_len - i {
                    let t = arith.fr_mul(&a[i], &b[j]);
                    let old = out[i + j];
                    let sum = arith.fr_add(&old, &t);
                    proof {
                        let k = (i + j) as int;
                        let p = conv_partial(a@, b@, k, i as nat);
                        let x = a@[i as int].value() * b@[j as int].value();
                        assert(conv_term(a@, b@, k, i as int) == x);
                        assert(old.value() == p % m);
                        vstd::arithmetic::div_mod::lemma_add_mod_noop(p as int, x as int, m as int);
                        vstd::arithmetic::div_mod::lemma_mod_twice(p as int, m as int);
                    }
                    out.set(i + j, sum);
                }
                j = j + 1;
            }
            proof {
                assert forall|k: int| 0 <= k < output_len implies (#[trigger] out@[k]).value()
                    == conv_partial(a@, b@, k, (i + 1) as nat) % m by {
                    if i <= k && k - i < b@.len() {
                        assert(k - i < b_degree);
                    }
                    assert(conv_partial(a@, b@, k, (i + 1) as nat) == conv_partial(
                        a@,
                        b@,
                        k,
                        i as nat,
                    ) + conv_term(a@, b@, k, i as int));
                }
            }
            i = i + 1;
        }
        proof {
            assert forall|k: int| 0 <= k < output_len implies (#[trigger] out@[k]).value() == conv(
                a@,
                b@,
                k,
            ) % m by {
                if a_degree < a@.len() {
                    lemma_conv_partial_stable(a@, b@, k, a_degree as nat, a@.len());
                }
            }
        }
        Poly { coeffs: out }
    }
}

/// The empty polynomial is zero everywhere.
pub proof fn lemma_eval_empty(x: nat)
    ensures
        horner(Seq::<Fr>::empty(), x) == 0,
{
}

/// At zero a polynomial takes the value of its constant coefficient.
pub proof fn lemma_eval_at_zero(c: Seq<Fr>)
    requires
        c.len() > 0,
        c[0].wf(),
    ensures
        horner(c, 0) % modulus() == c[0].value(),
{
    vstd::arithmetic::div_mod::lemma_small_mod(c[0].value(), modulus());
}

/// At one, a polynomial whose coefficients run `a, a + 1, ...` takes their sum.
proof fn lemma_eval_at_one_run(c: Seq<Fr>, a: nat)
    requires
        forall|i: int| 0 <= i < c.len() ==> #[trigger] c[i].value() == a + i,
    ensures
        2 * horner(c, 1) == c.len() * (2 * a + c.len() - 1),
    decreases c.len(),
{
    if c.len() > 0 {
        let n = c.len();
        let t = c.skip(1);
        assert forall|i: int| 0 <= i < t.len() implies #[trigger] t[i].value() == (a + 1) + i by {
            assert(t[i] == c[i + 1]);
        }
        lemma_eval_at_one_run(t, a + 1);
        assert(2 * horner(t, 1) == (n - 1) * (2 * (a + 1) + (n - 1) - 1));
        assert(2 * horner(c, 1) == 2 * a + 2 * horner(t, 1));
        assert(2 * a + (n - 1) * (2 * a + n) == n * (2 * a + n - 1)) by (nonlinear_arith);
    }
}

/// At one, the polynomial `1 + 2x + 3x^2 + ... + n x^(n-1)` takes `n(n+1)/2`.
pub proof fn lemma_eval_at_one_sum(c: Seq<Fr>)
    requires
        forall|i: int| 0 <= i < c.len() ==> #[trigger] c[i].value() == i + 1,
    ensures
        horner(c, 1) == c.len() * (c.len() + 1) / 2,
{
    lemma_eval_at_one_run(c, 1);
}

} // verus!
