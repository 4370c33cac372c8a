use kzg_blob::fr::Fr;
use kzg_blob::poly::{FrArith, Poly, PolyError};

/// The arithmetic of the BLS12-381 scalar field on four 64-bit limbs, least
/// significant first: a slow but plain stand-in for a curve backend.
struct BlsArith;

const R: [u64; 4] = [
    0xffffffff00000001,
    0x53bda402fffe5bfe,
    0x3339d80809a1d805,
    0x73eda753299d7d48,
];

fn limbs(f: &Fr) -> [u64; 4] {
    let mut l = [0u64; 4];
    for k in 0..4 {
        let start = 32 - 8 * (k + 1);
        l[k] = u64::from_be_bytes(f.bytes[start..start + 8].try_into().unwrap());
    }
    l
}

fn from_limbs(l: [u64; 4]) -> Fr {
    let mut bytes = [0u8; 32];
    for k in 0..4 {
        let start = 32 - 8 * (k + 1);
        bytes[start..start + 8].copy_from_slice(&l[k].to_be_bytes());
    }
    Fr { bytes }
}

fn geq(a: &[u64; 4], b: &[u64; 4]) -> bool {
    for k in (0..4).rev() {
        if a[k] != b[k] {
            return a[k] > b[k];
        }
    }
    true
}

fn add_raw(a: &[u64; 4], b: &[u64; 4]) -> [u64; 4] {
    let mut r = [0u64; 4];
    let mut carry = 0u128;
    for k in 0..4 {
        let s = a[k] as u128 + b[k] as u128 + carry;
        r[k] = s as u64;
        carry = s >> 64;
    }
    r
}

fn sub_raw(a: &[u64; 4], b: &[u64; 4]) -> [u64; 4] {
    let mut r = [0u64; 4];
    let mut borrow = 0u64;
    for k in 0..4 {
        let (d1, o1) = a[k].overflowing_sub(b[k]);
        let (d2, o2) = d1.overflowing_sub(borrow);
        r[k] = d2;
        borrow = (o1 || o2) as u64;
    }
    r
}

fn add_mod(a: &[u64; 4], b: &[u64; 4]) -> [u64; 4] {
    let s = add_raw(a, b);
    if geq(&s, &R) {
        sub_raw(&s, &R)
    } else {
        s
    }
}

fn mul_mod(a: &[u64; 4], b: &[u64; 4]) -> [u64; 4] {
    let mut acc = [0u64; 4];
    for i in (0..256).rev() {
        acc = add_mod(&acc, &acc);
        if (b[i / 64] >> (i % 64)) & 1 == 1 {
            acc = add_mod(&acc, a);
        }
    }
    acc
}

impl FrArith for BlsArith {
    fn fr_add(&self, a: &Fr, b: &Fr) -> Fr {
        from_limbs(add_mod(&limbs(a), &limbs(b)))
    }

    fn fr_sub(&self, a: &Fr, b: &Fr) -> Fr {
        let (a, b) = (limbs(a), limbs(b));
        if geq(&a, &b) {
            from_limbs(sub_raw(&a, &b))
        } else {
            from_limbs(sub_raw(&add_raw(&a, &R), &b))
        }
    }

    fn fr_mul(&self, a: &Fr, b: &Fr) -> Fr {
        from_limbs(mul_mod(&limbs(a), &limbs(b)))
    }

    fn fr_inv(&self, a: &Fr) -> Fr {
        let e = sub_raw(&R, &[2, 0, 0, 0]);
        let a = limbs(a);
        let mut acc = [1u64, 0, 0, 0];
        for i in (0..256).rev() {
            acc = mul_mod(&acc, &acc);
            if (e[i / 64] >> (i % 64)) & 1 == 1 {
                acc = mul_mod(&acc, &a);
            }
        }
        from_limbs(acc)
    }
}

fn fr_of_i64(v: i64) -> Fr {
    if v >= 0 {
        Fr::from_u64(v as u64)
    } else {
        BlsArith.fr_sub(&Fr::zero(), &Fr::from_u64(v.unsigned_abs()))
    }
}

fn new_test_poly(coeffs: &[i64]) -> Poly {
    Poly { coeffs: coeffs.iter().map(|c| fr_of_i64(*c)).collect() }
}

fn test_data(a: usize, b: usize) -> Vec<i64> {
    // (x^2 - 1) / (x + 1) = x - 1
    let test_0 = [vec![-1, 0, 1], vec![1, 1], vec![-1, 1]];
    // (12x^3 - 11x^2 + 9x + 18) / (4x + 3) = 3x^2 - 5x + 6
    let test_1 = [vec![18, 9, -11, 12], vec![3, 4], vec![6, -5, 3]];
    // (x + 1) / (x^2 - 1) = nil
    let test_2 = [vec![1, 1], vec![-1, 0, 2], vec![]];
    // (10x^2 + 20x + 30) / 10 = x^2 + 2x + 3
    let test_3 = [vec![30, 20, 10], vec![10], vec![3, 2, 1]];
    // (x^2 + x) / (x + 1) = x
    let test_4 = [vec![0, 1, 1], vec![1, 1], vec![0, 1]];
    // (x^2 + x + 1) / 1 = x^2 + x + 1
    let test_5 = [vec![1, 1, 1], vec![1], vec![1, 1, 1]];
    // (x^2 + x + 1) / (0x + 1) = x^2 + x + 1
    let test_6 = [vec![1, 1, 1], vec![1, 0], vec![1, 1, 1]];
    // (x^3) / (x) = (x^2)
    let test_7 = [vec![0, 0, 0, 1], vec![0, 1], vec![0, 0, 1]];
    let test_8 = [
        vec![236, 945, -297698, 2489425, -18556462, -301325440, 2473062655, -20699887353],
        vec![4, 11, -5000, 45541, -454533],
        vec![59, 74, -878, 45541],
    ];
    // (x^4 + 2x^3 + 3x^2 + 2x + 1) / (-x^2 -x -1) = (-x^2 -x -1)
    let test_9 = [vec![1, 2, 3, 2, 1], vec![-1, -1, -1], vec![-1, -1, -1]];
    let all = [test_0, test_1, test_2, test_3, test_4, test_5, test_6, test_7, test_8, test_9];
    all[a][b].clone()
}

/// A deterministic stream of numbers for the randomised cases.
struct Lcg(u64);

impl Lcg {
    fn next_u64(&mut self) -> u64 {
        self.0 = self.0.wrapping_mul(6364136223846793005).wrapping_add(1442695040888963407);
        self.0 >> 11
    }
}

#[test]
fn create_poly_of_length_ten() {
    let poly = Poly::new(10);
    assert_eq!(poly.len(), 10);
    for i in 0..10 {
        assert_eq!(poly.get_coeff_at(i), Fr::zero());
    }
}

#[test]
fn poly_pad_works_rand() {
    let mut rng = Lcg(0);
    for _k in 0..256 {
        let poly_length: usize = (1 + (rng.next_u64() % 1000)) as usize;
        let mut poly = Poly::new(poly_length);
        for i in 0..poly.len() {
            poly.set_coeff_at(i, &Fr::from_u64(rng.next_u64()));
        }

        let padded_poly = poly.pad(1000);
        assert_eq!(padded_poly.len(), 1000);
        for i in 0..poly_length {
            assert_eq!(padded_poly.get_coeff_at(i), poly.get_coeff_at(i));
        }
        for i in poly_length..1000 {
            assert_eq!(padded_poly.get_coeff_at(i), Fr::zero());
        }
    }
}

#[test]
fn pad_shorter_truncates() {
    let mut poly = Poly::new(4);
    for i in 0..4 {
        poly.set_coeff_at(i, &Fr::from_u64(i as u64 + 1));
    }
    let cut = poly.pad(2);
    assert_eq!(cut.coeffs, vec![Fr::from_u64(1), Fr::from_u64(2)]);
}

#[test]
fn poly_eval_check() {
    let n: usize = 10;
    let mut poly = Poly::new(n);
    for i in 0..n {
        let fr = Fr::from_u64((i + 1) as u64);
        poly.set_coeff_at(i, &fr);
    }
    let expected = Fr::from_u64((n * (n + 1) / 2) as u64);
    let actual = poly.eval(&Fr::one(), &BlsArith);
    assert_eq!(expected, actual);
}

#[test]
fn poly_eval_0_check() {
    let n: usize = 7;
    let a: usize = 597;
    let mut poly = Poly::new(n);
    for i in 0..n {
        let fr = Fr::from_u64((i + a) as u64);
        poly.set_coeff_at(i, &fr);
    }
    let expected = Fr::from_u64(a as u64);
    let actual = poly.eval(&Fr::zero(), &BlsArith);
    assert_eq!(expected, actual);
}

#[test]
fn poly_eval_nil_check() {
    let n: usize = 0;
    let poly = Poly::new(n);
    let actual = poly.eval(&Fr::one(), &BlsArith);
    assert_eq!(actual, Fr::zero());
}

#[test]
fn poly_eval_at_two() {
    // 3 + 2x + x^2 at 2
    let poly = Poly { coeffs: vec![Fr::from_u64(3), Fr::from_u64(2), Fr::from_u64(1)] };
    assert_eq!(poly.eval(&Fr::from_u64(2), &BlsArith), Fr::from_u64(11));
}

#[test]
fn fr_from_u64_encoding() {
    let f = Fr::from_u64(0x0102030405060708);
    let mut expected = [0u8; 32];
    expected[24..].copy_from_slice(&[1, 2, 3, 4, 5, 6, 7, 8]);
    assert_eq!(f.bytes, expected);
    assert_eq!(Fr::from_u64(1), Fr::one());
    assert_eq!(Fr::from_u64(0), Fr::zero());
}

#[test]
fn field_stand_in_inverts() {
    let a = Fr::from_u64(12345);
    let inv = BlsArith.fr_inv(&a);
    assert_eq!(BlsArith.fr_mul(&inv, &a), Fr::one());
}

#[test]
fn poly_div_long_test() {
    for i in 0..10 {
        let dividend = new_test_poly(&test_data(i, 0));
        let divisor = new_test_poly(&test_data(i, 1));
        let expected = new_test_poly(&test_data(i, 2));

        let actual = dividend.long_div(&divisor, &BlsArith).unwrap();

        assert_eq!(expected.len(), actual.len());
        for j in 0..actual.len() {
            assert_eq!(expected.get_coeff_at(j), actual.get_coeff_at(j));
        }
    }
}

#[test]
fn poly_div_identity_at_points() {
    let dividend = new_test_poly(&[5, -3, 0, 7, 2, -9]);
    let divisor = new_test_poly(&[2, 1, -4]);
    let q = dividend.long_div(&divisor, &BlsArith).unwrap();
    assert_eq!(q.len(), 4);
    // the remainder has fewer than three coefficients: check at three points
    let rem_at = |x: u64| {
        let x = Fr::from_u64(x);
        let prod = BlsArith.fr_mul(&q.eval(&x, &BlsArith), &divisor.eval(&x, &BlsArith));
        BlsArith.fr_sub(&dividend.eval(&x, &BlsArith), &prod)
    };
    let r0 = rem_at(0);
    let r1 = rem_at(1);
    let r2 = rem_at(2);
    // r(x) = r0 + r1' x: the second difference vanishes
    let d1 = BlsArith.fr_sub(&r1, &r0);
    let d2 = BlsArith.fr_sub(&r2, &r1);
    assert_eq!(d1, d2);
}

#[test]
fn test_poly_div_by_zero() {
    let mut dividend = Poly::new(2);

    dividend.set_coeff_at(0, &Fr::from_u64(1));
    dividend.set_coeff_at(1, &Fr::from_u64(1));

    let divisor = Poly::new(0);

    let dummy = dividend.long_div(&divisor, &BlsArith);
    assert!(dummy.is_err());

    let zeros = Poly::new(3);
    assert_eq!(dividend.long_div(&zeros, &BlsArith).err(), Some(PolyError::DivisionByZero));
}

#[test]
fn poly_mul_direct_test() {
    for i in 0..10 {
        // the quotient of case 2 is empty, so its product is zero and not the dividend
        if i == 2 {
            continue;
        }
        let coeffs1 = test_data(i, 2);
        let coeffs2 = test_data(i, 1);
        let coeffs3 = test_data(i, 0);

        let multiplicand = new_test_poly(&coeffs1);
        let multiplier = new_test_poly(&coeffs2);
        let expected = new_test_poly(&coeffs3);

        let result0 = multiplicand.mul_direct(&multiplier, coeffs3.len(), &BlsArith);
        assert_eq!(result0.len(), coeffs3.len());
        for j in 0..result0.len() {
            assert_eq!(expected.get_coeff_at(j), result0.get_coeff_at(j));
        }

        // Check commutativity
        let result1 = multiplier.mul_direct(&multiplicand, coeffs3.len(), &BlsArith);
        for j in 0..result1.len() {
            assert_eq!(expected.get_coeff_at(j), result1.get_coeff_at(j));
        }
    }
}

#[test]
fn poly_mul_direct_truncates_and_pads() {
    // (1 + 2x)(3 + x) = 3 + 7x + 2x^2
    let a = new_test_poly(&[1, 2]);
    let b = new_test_poly(&[3, 1]);
    let short = a.mul_direct(&b, 2, &BlsArith);
    assert_eq!(short.coeffs, vec![Fr::from_u64(3), Fr::from_u64(7)]);
    let long = a.mul_direct(&b, 5, &BlsArith);
    assert_eq!(
        long.coeffs,
        vec![Fr::from_u64(3), Fr::from_u64(7), Fr::from_u64(2), Fr::zero(), Fr::zero()]
    );
    let empty = Poly::new(0).mul_direct(&b, 3, &BlsArith);
    assert_eq!(empty.coeffs, vec![Fr::zero(); 3]);
}
