use vstd::prelude::*;

verus! {

/// Bytes of a scalar in its external encoding.
pub const BYTES_PER_FIELD_ELEMENT: usize = 32;

/// The order of the BLS12-381 scalar field, as 32 big-endian bytes.
pub const MODULUS_BE: [u8; 32] = [
    0x73, 0xed, 0xa7, 0x53, 0x29, 0x9d, 0x7d, 0x48, 0x33, 0x39, 0xd8, 0x08, 0x09, 0xa1, 0xd8, 0x05,
    0x53, 0xbd, 0xa4, 0x02, 0xff, 0xfe, 0x5b, 0xfe, 0xff, 0xff, 0xff, 0xff, 0x00, 0x00, 0x00, 0x01,
];

/// The unsigned integer that the bytes `s` encode, most significant byte first.
pub open spec fn be_nat(s: Seq<u8>) -> nat
    decreases s.len(),
{
    if s.len() == 0 {
        0
    } else {
        be_nat(s.drop_last()) * 256 + s.last() as nat
    }
}

/// The order of the scalar field.
pub open spec fn modulus() -> nat {
    be_nat(MODULUS_BE@)
}

/// The 32 big-endian bytes `s` encode an integer below the field's order.
pub open spec fn is_canonical(s: Seq<u8>) -> bool {
    s.len() == 32 && be_nat(s) < modulus()
}

proof fn lemma_be_nat_step(s: Seq<u8>, i: int)
    requires
        0 <= i < s.len(),
    ensures
        be_nat(s.take(i + 1)) == be_nat(s.take(i)) * 256 + s[i],
{
    assert(s.take(i + 1).drop_last() =~= s.take(i));
}

/// Whether `a` encodes a smaller integer than `b`, both most significant byte first.
pub fn be_less(a: &[u8], b: &[u8]) -> (r: bool)
    requires
        a@.len() == b@.len(),
    ensures
        r == (be_nat(a@) < be_nat(b@)),
{
    // order of the prefixes read so far: 0 equal, 1 less, 2 greater
    let mut order: u8 = 0;
    let mut i: usize = 0;
    assert(a@.take(0).len() == 0 && b@.take(0).len() == 0);
    while i < a.len()
        invariant
            a@.len() == b@.len(),
            i <= a@.len(),
            order <= 2,
            order == 0 <==> be_nat(a@.take(i as int)) == be_nat(b@.take(i as int)),
            order == 1 <==> be_nat(a@.take(i as int)) < be_nat(b@.take(i as int)),
            order == 2 <==> be_nat(a@.take(i as int)) > be_nat(b@.take(i as int)),
        decreases a@.len() - i,
    {
        let x = a[i];
        let y = b[i];
        proof {
            lemma_be_nat_step(a@, i as int);
            lemma_be_nat_step(b@, i as int);
            let pa = be_nat(a@.take(i as int));
            let pb = be_nat(b@.take(i as int));
            if pa < pb {
                assert(pa * 256 + x < pb * 256 + y) by (nonlinear_arith)
                    requires
                        pa < pb,
                        x < 256,
                ;
            } else if pa > pb {
                assert(pa * 256 + x > pb * 256 + y) by (nonlinear_arith)
                    requires
                        pa > pb,
                        y < 256,
                ;
            }
        }
        if order == 0 {
            if x < y {
                order = 1;
            } else if x > y {
                order = 2;
            }
        }
        i = i + 1;
    }
    assert(a@.take(a@.len() as int) =~= a@);
    assert(b@.take(b@.len() as int) =~= b@);
    order == 1
}

/// `256^e`.
pub open spec fn pow256(e: nat) -> nat
    decreases e,
{
    if e == 0 {
        1
    } else {
        256 * pow256((e - 1) as nat)
    }
}

/// `|s|` bytes encode an integer below `256^|s|`.
pub proof fn lemma_be_nat_bound(s: Seq<u8>)
    ensures
        be_nat(s) < pow256(s.len()),
    decreases s.len(),
{
    if s.len() > 0 {
        lemma_be_nat_bound(s.drop_last());
        let p = be_nat(s.drop_last());
        let q = pow256(s.drop_last().len());
        assert(p * 256 + s.last() < q * 256) by (nonlinear_arith)
            requires
                p < q,
                s.last() < 256,
        ;
    }
}

/// A byte put in front counts `256^|s|` times its value.
pub proof fn lemma_be_nat_prepend(x: u8, s: Seq<u8>)
    ensures
        be_nat(seq![x] + s) == x * pow256(s.len()) + be_nat(s),
    decreases s.len(),
{
    let t = seq![x] + s;
    if s.len() == 0 {
        assert(t.drop_last() =~= Seq::<u8>::empty());
        assert(t.last() == x);
        assert(be_nat(t) == be_nat(t.drop_last()) * 256 + x);
        assert(pow256(0) == 1);
        assert(be_nat(s) == 0);
    } else {
        assert(t.drop_last() =~= seq![x] + s.drop_last());
        assert(t.last() == s.last());
        lemma_be_nat_prepend(x, s.drop_last());
        let q = pow256(s.drop_last().len());
        assert(pow256(s.len()) == 256 * q);
        assert(be_nat(t) == be_nat(t.drop_last()) * 256 + t.last());
        assert(be_nat(s) == be_nat(s.drop_last()) * 256 + s.last());
        assert(be_nat(t.drop_last()) == x * q + be_nat(s.drop_last()));
        assert((x * q + be_nat(s.drop_last())) * 256 + s.last() == x * (256 * q) + (be_nat(
            s.drop_last(),
        ) * 256 + s.last())) by (nonlinear_arith);
    }
}

/// `a - b`, all three most significant byte first, where `a` is at least `b`.
pub fn be_sub(a: &[u8; 32], b: &[u8; 32]) -> (r: [u8; 32])
    requires
        be_nat(a@) >= be_nat(b@),
    ensures
        be_nat(r@) == be_nat(a@) - be_nat(b@),
{
    let mut r = [0u8; 32];
    let mut borrow: u8 = 0;
    let mut i: usize = 32;
    assert(a@.skip(32) =~= Seq::<u8>::empty());
    assert(b@.skip(32) =~= Seq::<u8>::empty());
    assert(r@.skip(32) =~= Seq::<u8>::empty());
    while i > 0
        invariant
            i <= 32,
            borrow <= 1,
            r@.len() == 32,
            be_nat(a@.skip(i as int)) - be_nat(b@.skip(i as int)) == be_nat(r@.skip(i as int))
                - borrow * pow256((32 - i) as nat),
        decreases i,
    {
        let ghost r_before = r@;
        i = i - 1;
        let x = a[i];
        let y = b[i];
        let o: u8;
        let next: u8;
        if (x as u16) >= (y as u16) + (borrow as u16) {
            o = x - y - borrow;
            next = 0;
        } else {
            o = ((x as u16) + 256 - (y as u16) - (borrow as u16)) as u8;
            next = 1;
        }
        r[i] = o;
        proof {
            let ii = i as int;
            assert(a@.skip(ii) =~= seq![x] + a@.skip(ii + 1));
            assert(b@.skip(ii) =~= seq![y] + b@.skip(ii + 1));
            assert(r@.skip(ii) =~= seq![o] + r_before.skip(ii + 1));
            assert(r@.skip(ii + 1) =~= r_before.skip(ii + 1));
            lemma_be_nat_prepend(x, a@.skip(ii + 1));
            lemma_be_nat_prepend(y, b@.skip(ii + 1));
            lemma_be_nat_prepend(o, r@.skip(ii + 1));
            let p = pow256((32 - (ii + 1)) as nat);
            assert(pow256((32 - ii) as nat) == 256 * p);
            assert(x * p - y * p - borrow * p == o * p - next * (256 * p)) by (nonlinear_arith)
                requires
                    x - y - borrow == o - 256 * next,
            ;
        }
        borrow = next;
    }
    proof {
        assert(a@.skip(0) =~= a@);
        assert(b@.skip(0) =~= b@);
        assert(r@.skip(0) =~= r@);
        lemma_be_nat_bound(r@);
        if borrow == 1 {
            assert(pow256(32) == 1 * pow256(32));
        }
    }
    r
}

/// The field's order is at least `256^31`: its leading byte is not zero.
pub proof fn lemma_modulus_pos()
    ensures
        modulus() >= pow256(31),
        modulus() > 0x1_0000_0000_0000_0000,
{
    let m = MODULUS_BE@;
    assert(m =~= seq![m[0]] + m.skip(1));
    lemma_be_nat_prepend(m[0], m.skip(1));
    assert(m[0] == 0x73);
    assert(pow256(31) > 0) by {
        lemma_pow256_pos(31);
    }
    assert(m[0] * pow256(31) >= pow256(31)) by (nonlinear_arith)
        requires
            m[0] == 0x73,
            pow256(31) > 0,
    ;
    assert(pow256(31) > 0x1_0000_0000_0000_0000) by {
        reveal_with_fuel(pow256, 32);
    }
}

/// Powers of 256 are positive.
pub proof fn lemma_pow256_pos(e: nat)
    ensures
        pow256(e) > 0,
    decreases e,
{
    if e > 0 {
        lemma_pow256_pos((e - 1) as nat);
    }
}

/// The field element of a 32-byte digest: the digest read most significant byte
/// first, reduced modulo the field's order.
pub fn hash_to_fr(digest: &[u8; 32]) -> (r: Fr)
    ensures
        r.wf(),
        r.value() == be_nat(digest@) % modulus(),
{
    proof {
        lemma_modulus_pos();
    }
    let mut x: [u8; 32] = *digest;
    while !be_less(&x, &MODULUS_BE)
        invariant
            modulus() > 0,
            x@.len() == 32,
            be_nat(x@) % modulus() == be_nat(digest@) % modulus(),
        decreases be_nat(x@),
    {
        let next = be_sub(&x, &MODULUS_BE);
        proof {
            vstd::arithmetic::div_mod::lemma_mod_sub_multiples_vanish(
                be_nat(x@) as int,
                modulus() as int,
            );
        }
        x = next;
    }
    proof {
        vstd::arithmetic::div_mod::lemma_small_mod(be_nat(x@), modulus());
    }
    Fr { bytes: x }
}

/// The eight big-endian bytes of `v`.
pub open spec fn u64_be(v: nat) -> Seq<u8> {
    Seq::new(8, |i: int| ((v / pow256((7 - i) as nat)) % 256) as u8)
}

/// The eight big-endian bytes of `v`.
pub fn u64_to_be_bytes(v: u64) -> (r: [u8; 8])
    ensures
        r@ == u64_be(v as nat),
{
    let mut r = [0u8; 8];
    let mut p: u64 = 0x0100_0000_0000_0000;
    let mut i: usize = 0;
    assert(pow256(7) == 0x0100_0000_0000_0000) by {
        reveal_with_fuel(pow256, 8);
    }
    while i < 8
        invariant
            i <= 8,
            r@.len() == 8,
            i < 8 ==> p == pow256((7 - i) as nat),
            forall|k: int| 0 <= k < i ==> r@[k] == u64_be(v as nat)[k],
        decreases 8 - i,
    {
        proof {
            lemma_pow256_pos((7 - i) as nat);
        }
        r[i] = ((v / p) % 256) as u8;
        if i < 7 {
            assert(pow256((7 - i) as nat) == 256 * pow256((7 - i - 1) as nat));
            p = p / 256;
        }
        i = i + 1;
    }
    assert(r@ =~= u64_be(v as nat));
    r
}

/// Bytes that are all zero encode zero.
proof fn lemma_be_nat_zeros(s: Seq<u8>)
    requires
        forall|i: int| 0 <= i < s.len() ==> s[i] == 0,
    ensures
        be_nat(s) == 0,
    decreases s.len(),
{
    if s.len() > 0 {
        lemma_be_nat_zeros(s.drop_last());
    }
}

/// Bytes that encode zero are all zero.
proof fn lemma_be_nat_zero_bytes(s: Seq<u8>)
    requires
        be_nat(s) == 0,
    ensures
        forall|i: int| 0 <= i < s.len() ==> s[i] == 0,
    decreases s.len(),
{
    if s.len() > 0 {
        lemma_be_nat_zero_bytes(s.drop_last());
        assert forall|i: int| 0 <= i < s.len() implies s[i] == 0 by {
            if i < s.len() - 1 {
                assert(s[i] == s.drop_last()[i]);
            }
        }
    }
}

/// 24 zero bytes followed by the eight big-endian bytes of `v` encode `v`.
proof fn lemma_be_nat_u64(v: u64, b: Seq<u8>, k: nat)
    requires
        b.len() == 32,
        k <= 8,
        forall|i: int| 0 <= i < 24 ==> b[i] == 0,
        forall|i: int| 0 <= i < 8 ==> b[24 + i] == u64_be(v as nat)[i],
    ensures
        be_nat(b.take(24 + k as int)) == v as nat / pow256((8 - k) as nat),
    decreases k,
{
    if k == 0 {
        lemma_be_nat_zeros(b.take(24));
        assert(pow256(8) == 0x1_0000_0000_0000_0000) by {
            reveal_with_fuel(pow256, 9);
        }
    } else {
        lemma_be_nat_u64(v, b, (k - 1) as nat);
        lemma_pow256_pos((8 - k) as nat);
        let p = pow256((8 - k) as nat);
        let q = v as nat / p;
        assert(b.take(24 + k as int).drop_last() =~= b.take(24 + k - 1));
        assert(b[24 + (k - 1)] == u64_be(v as nat)[k - 1]);
        assert(u64_be(v as nat)[k - 1] == ((v as nat / pow256((7 - (k - 1)) as nat)) % 256) as u8);
        assert((7 - (k - 1)) as nat == (8 - k) as nat);
        assert(b[24 + k - 1] == (q % 256) as u8);
        assert(pow256((8 - (k - 1)) as nat) == 256 * p);
        vstd::arithmetic::div_mod::lemma_div_denominator(v as int, p as int, 256);
        assert(q == (q / 256) * 256 + q % 256);
    }
}

/// The `N` bytes of `s` that start at `start`, as an array.
pub fn bytes_at<const N: usize>(s: &[u8], start: usize) -> (r: [u8; N])
    requires
        start + N <= s@.len(),
    ensures
        r@ == s@.subrange(start as int, start + N),
{
    let n = s.len();
    let mut r = [0u8; N];
    let mut j: usize = 0;
    while j < N
        invariant
            start + N <= s@.len(),
            j <= N,
            n == s@.len(),
            r@.len() == N,
            forall|k: int| 0 <= k < j ==> r@[k] == s@[start + k],
        decreases N - j,
    {
        r[j] = s[start + j];
        j = j + 1;
    }
    assert(r@ =~= s@.subrange(start as int, start + N));
    r
}

/// An element of the BLS12-381 scalar field, held in its canonical encoding:
/// 32 bytes, most significant first.
#[derive(Clone, Copy, Debug, PartialEq, Eq)]
pub struct Fr {
    pub bytes: [u8; 32],
}

impl Fr {
    /// The encoding is canonical: it names an integer below the field's order.
    pub open spec fn wf(&self) -> bool {
        is_canonical(self.bytes@)
    }

    /// The field element as an integer in `[0, modulus)`.
    pub open spec fn value(&self) -> nat {
        be_nat(self.bytes@)
    }

    /// Decodes 32 big-endian bytes; `None` where they encode an integer at or
    /// above the field's order.
    pub fn from_bytes(bytes: &[u8; 32]) -> (r: Option<Fr>)
        ensures
            r is Some <==> is_canonical(bytes@),
            r matches Some(f) ==> f.bytes@ == bytes@ && f.wf(),
    {
        if be_less(bytes, &MODULUS_BE) {
            Some(Fr { bytes: *bytes })
        } else {
            None
        }
    }

    /// The field's zero.
    pub fn zero() -> (r: Fr)
        ensures
            r.wf(),
            r.value() == 0,
    {
        let r = Fr { bytes: [0u8; 32] };
        proof {
            lemma_be_nat_zeros(r.bytes@);
            lemma_modulus_pos();
        }
        r
    }

    /// The field element `v`.
    pub fn from_u64(v: u64) -> (r: Fr)
        ensures
            r.wf(),
            r.value() == v,
    {
        let be = u64_to_be_bytes(v);
        let mut bytes = [0u8; 32];
        let mut i: usize = 0;
        while i < 8
            invariant
                i <= 8,
                be@ == u64_be(v as nat),
                forall|k: int| 0 <= k < 24 ==> bytes@[k] == 0,
                forall|k: int| 0 <= k < i ==> bytes@[24 + k] == be@[k],
            decreases 8 - i,
        {
            bytes[24 + i] = be[i];
            i = i + 1;
        }
        proof {
            lemma_be_nat_u64(v, bytes@, 8);
            assert(bytes@.take(32) =~= bytes@);
            assert(pow256(0) == 1);
            assert(v as nat / 1 == v);
            lemma_modulus_pos();
        }
        Fr { bytes }
    }

    /// Whether this is the field's zero.
    pub fn is_zero(&self) -> (r: bool)
        ensures
            r == (self.value() == 0),
    {
        let mut i: usize = 0;
        while i < 32
            invariant
                i <= 32,
                forall|k: int| 0 <= k < i ==> self.bytes@[k] == 0,
            decreases 32 - i,
        {
            if self.bytes[i] != 0 {
                proof {
                    if self.value() == 0 {
                        lemma_be_nat_zero_bytes(self.bytes@);
                    }
                }
                return false;
            }
            i = i + 1;
        }
        proof {
            lemma_be_nat_zeros(self.bytes@);
        }
        true
    }

    /// The encoding of the field's one.
    pub open spec fn one_bytes() -> Seq<u8> {
        Seq::new(32, |i: int| if i == 31 { 1u8 } else { 0u8 })
    }

    /// The field's one.
    pub fn one() -> (r: Fr)
        ensures
            r.bytes@ == Fr::one_bytes(),
    {
        let mut bytes = [0u8; 32];
        bytes[31] = 1;
        assert(bytes@ =~= Fr::one_bytes());
        Fr { bytes }
    }

    /// The canonical 32-byte big-endian encoding.
    pub fn to_bytes(&self) -> (r: [u8; 32])
        ensures
            r@ == self.bytes@,
    {
        self.bytes
    }
}

} // verus!
