use std::collections::BTreeMap;
use std::sync::Arc;

use vstd::prelude::*;

use crate::domain::{bit_reversed, is_pow2, reverse_bit_order, FftError};
use crate::fr::Fr;

verus! {

/// Bytes of a compressed G1 point.
pub const BYTES_PER_G1: usize = 48;

/// Bytes of a compressed G2 point.
pub const BYTES_PER_G2: usize = 96;

/// A point of G1 in its compressed encoding.
#[derive(Clone, Copy, Debug, PartialEq, Eq)]
pub struct G1 {
    pub bytes: [u8; 48],
}

/// A point of G2 in its compressed encoding.
#[derive(Clone, Copy, Debug, PartialEq, Eq)]
pub struct G2 {
    pub bytes: [u8; 96],
}

/// The tables of the evaluation domain.
#[derive(Debug)]
pub struct FftSettings {
    pub max_width: usize,
    /// The second entry of `expanded_roots_of_unity`.
    pub root_of_unity: Fr,
    /// The roots in bit-reversed order, followed by one: entry `i` is the domain
    /// point of a blob's field element `i`.
    pub expanded_roots_of_unity: Vec<Fr>,
    /// `expanded_roots_of_unity` back to front.
    pub reverse_roots_of_unity: Vec<Fr>,
    /// The roots of unity in canonical order: entry `i` is `w^i`.
    pub roots_of_unity: Vec<Fr>,
}

impl FftSettings {
    /// The tables agree: the expanded table is the roots in bit-reversed order
    /// followed by one, the reverse table is it back to front, and the
    /// `root_of_unity` field is its second entry.
    pub open spec fn wf(&self) -> bool {
        &&& self.max_width == self.roots_of_unity@.len()
        &&& self.max_width > 0
        &&& is_pow2(self.max_width as nat)
        &&& tables_match(self.roots_of_unity@, self.expanded_roots_of_unity@)
        &&& self.reverse_roots_of_unity@ == self.expanded_roots_of_unity@.reverse()
        &&& self.root_of_unity == self.expanded_roots_of_unity@[1]
    }
}

/// `expanded` is `roots` in bit-reversed order followed by the field's one.
pub open spec fn tables_match(roots: Seq<Fr>, expanded: Seq<Fr>) -> bool {
    &&& expanded.len() == roots.len() + 1
    &&& expanded.drop_last() == bit_reversed(roots)
    &&& expanded.last().bytes@ == Fr::one_bytes()
}

/// The setup as the C interface holds it.
#[derive(Debug)]
pub struct CKzgSettings {
    pub max_width: u64,
    /// The roots of unity in canonical order: entry `i` is `w^i`.
    pub roots_of_unity: Vec<Fr>,
    /// The G1 points of the setup in the Lagrange basis.
    pub g1_values: Vec<G1>,
    /// The G2 points of the setup in the monomial basis.
    pub g2_values: Vec<G2>,
}

impl CKzgSettings {
    /// The stated width is the number of roots, a power of two.
    pub open spec fn width_ok(&self) -> bool {
        &&& self.max_width == self.roots_of_unity@.len()
        &&& self.max_width > 0
        &&& is_pow2(self.max_width as nat)
    }

    /// A released setup: nothing is left in it.
    pub open spec fn is_released(&self) -> bool {
        &&& self.max_width == 0
        &&& self.roots_of_unity@.len() == 0
        &&& self.g1_values@.len() == 0
        &&& self.g2_values@.len() == 0
    }
}

/// The setup as the KZG operations read it: the domain tables, the points, and
/// the precomputed MSM table of its G1 points, if one was made.
pub struct KzgSettings<P> {
    pub fs: FftSettings,
    pub secret_g1: Vec<G1>,
    pub secret_g2: Vec<G2>,
    pub precomputation: Option<Arc<P>>,
}

/// A copy of `v`.
pub fn copy_vec<T: Copy>(v: &Vec<T>) -> (r: Vec<T>)
    ensures
        r@ == v@,
{
    let mut r: Vec<T> = Vec::with_capacity(v.len());
    let mut i: usize = 0;
    while i < v.len()
        invariant
            i <= v@.len(),
            r@ == v@.take(i as int),
        decreases v@.len() - i,
    {
        r.push(v[i]);
        i = i + 1;
        assert(r@ =~= v@.take(i as int));
    }
    assert(v@.take(v@.len() as int) =~= v@);
    r
}

/// `s` back to front.
fn reversed<T: Copy>(s: &Vec<T>) -> (r: Vec<T>)
    ensures
        r@ == s@.reverse(),
{
    let mut r: Vec<T> = Vec::with_capacity(s.len());
    let mut i: usize = s.len();
    while i > 0
        invariant
            i <= s@.len(),
            r@.len() == s@.len() - i,
            forall|j: int| 0 <= j < r@.len() ==> #[trigger] r@[j] == s@[s@.len() - 1 - j],
        decreases i,
    {
        i = i - 1;
        r.push(s[i]);
    }
    assert(r@ =~= s@.reverse());
    r
}

/// Builds the domain tables from the roots of `c_settings`. Fails
/// where `max_width` does not give the number of roots, or is zero or not a
/// power of two.
pub fn fft_settings_to_rust(c_settings: &CKzgSettings) -> (r: Result<FftSettings, FftError>)
    ensures
        r == Err::<FftSettings, FftError>(FftError::WidthMismatch) <==> c_settings.max_width
            != c_settings.roots_of_unity@.len(),
        r is Ok <==> c_settings.max_width == c_settings.roots_of_unity@.len() && c_settings.max_width
            > 0 && is_pow2(c_settings.max_width as nat),
        r matches Ok(fs) ==> fs.wf() && fs.roots_of_unity@ == c_settings.roots_of_unity@,
{
    if c_settings.max_width != c_settings.roots_of_unity.len() as u64 {
        return Err(FftError::WidthMismatch);
    }
    let roots_of_unity = copy_vec(&c_settings.roots_of_unity);
    let mut expanded_roots_of_unity = copy_vec(&roots_of_unity);
    match reverse_bit_order(&mut expanded_roots_of_unity) {
        Ok(()) => {},
        Err(e) => {
            return Err(e);
        },
    }
    let one = Fr::one();
    proof {
        assert(one.bytes@ == Fr::one_bytes());
    }
    expanded_roots_of_unity.push(one);
    let reverse_roots_of_unity = reversed(&expanded_roots_of_unity);
    let root_of_unity = expanded_roots_of_unity[1];
    assert(expanded_roots_of_unity@.drop_last() =~= bit_reversed(roots_of_unity@));
    Ok(
        FftSettings {
            max_width: c_settings.max_width as usize,
            root_of_unity,
            expanded_roots_of_unity,
            reverse_roots_of_unity,
            roots_of_unity,
        },
    )
}

/// Reads the C form of a setup: its domain tables rebuilt from the roots, its
/// points copied, and the precomputed table kept for it in `tables`, if any.
pub fn kzg_settings_to_rust<P>(
    c_settings: &CKzgSettings,
    tables: &PrecomputationTableManager<P>,
) -> (r: Result<KzgSettings<P>, FftError>)
    ensures
        r is Ok <==> c_settings.max_width == c_settings.roots_of_unity@.len() && c_settings.max_width
            > 0 && is_pow2(c_settings.max_width as nat),
        r matches Ok(s) ==> {
            &&& s.fs.wf()
            &&& s.fs.roots_of_unity@ == c_settings.roots_of_unity@
            &&& s.secret_g1@ == c_settings.g1_values@
            &&& s.secret_g2@ == c_settings.g2_values@
            &&& s.precomputation == if tables@.contains_key(setup_key(c_settings)) {
                Some(tables@[setup_key(c_settings)])
            } else {
                None
            }
        },
{
    let fs = match fft_settings_to_rust(c_settings) {
        Ok(fs) => fs,
        Err(e) => {
            return Err(e);
        },
    };
    let secret_g1 = copy_vec(&c_settings.g1_values);
    let secret_g2 = copy_vec(&c_settings.g2_values);
    let precomputation = tables.get_precomputation(c_settings);
    Ok(KzgSettings { fs, secret_g1, secret_g2, precomputation })
}

/// The C form of a setup: its width, its roots and its points.
pub fn kzg_settings_to_c<P>(rust_settings: &KzgSettings<P>) -> (r: CKzgSettings)
    ensures
        r.max_width == rust_settings.fs.max_width,
        r.roots_of_unity@ == rust_settings.fs.roots_of_unity@,
        r.g1_values@ == rust_settings.secret_g1@,
        r.g2_values@ == rust_settings.secret_g2@,
{
    CKzgSettings {
        max_width: rust_settings.fs.max_width as u64,
        roots_of_unity: copy_vec(&rust_settings.fs.roots_of_unity),
        g1_values: copy_vec(&rust_settings.secret_g1),
        g2_values: copy_vec(&rust_settings.secret_g2),
    }
}

/// Two sets of well-formed domain tables over the same roots are the same: the
/// roots fix every other table.
pub proof fn lemma_tables_fixed_by_roots(a: &FftSettings, b: &FftSettings)
    requires
        a.wf(),
        b.wf(),
        a.roots_of_unity@ == b.roots_of_unity@,
    ensures
        a.max_width == b.max_width,
        a.expanded_roots_of_unity@ == b.expanded_roots_of_unity@,
        a.reverse_roots_of_unity@ == b.reverse_roots_of_unity@,
        a.root_of_unity == b.root_of_unity,
{
    let ea = a.expanded_roots_of_unity@;
    let eb = b.expanded_roots_of_unity@;
    assert(ea.last() == eb.last()) by {
        broadcast use vstd::array::axiom_array_ext_equal;

        assert(ea.last().bytes =~= eb.last().bytes);
    }
    assert(ea =~= eb) by {
        assert forall|i: int| 0 <= i < ea.len() implies ea[i] == eb[i] by {
            if i < ea.len() - 1 {
                assert(ea[i] == ea.drop_last()[i]);
                assert(eb[i] == eb.drop_last()[i]);
            }
        }
    }
}

/// Converting a setup to its C form and back gives the same domain tables and
/// the same points.
pub proof fn lemma_settings_round_trip<P>(s: &KzgSettings<P>, c: &CKzgSettings, t: &KzgSettings<P>)
    requires
        s.fs.wf(),
        c.max_width == s.fs.max_width,
        c.roots_of_unity@ == s.fs.roots_of_unity@,
        c.g1_values@ == s.secret_g1@,
        c.g2_values@ == s.secret_g2@,
        t.fs.wf(),
        t.fs.roots_of_unity@ == c.roots_of_unity@,
        t.secret_g1@ == c.g1_values@,
        t.secret_g2@ == c.g2_values@,
    ensures
        t.fs.max_width == s.fs.max_width,
        t.fs.root_of_unity == s.fs.root_of_unity,
        t.fs.roots_of_unity@ == s.fs.roots_of_unity@,
        t.fs.expanded_roots_of_unity@ == s.fs.expanded_roots_of_unity@,
        t.fs.reverse_roots_of_unity@ == s.fs.reverse_roots_of_unity@,
        t.secret_g1@ == s.secret_g1@,
        t.secret_g2@ == s.secret_g2@,
{
    lemma_tables_fixed_by_roots(&s.fs, &t.fs);
}

/// Releases a setup: drops its precomputed table from `tables` and empties it.
/// A setup released already is left alone, and so is `tables`.
pub fn free_trusted_setup<P>(s: &mut CKzgSettings, tables: &mut PrecomputationTableManager<P>)
    ensures
        final(s).is_released(),
        final(tables)@ == if old(s).is_released() {
            old(tables)@
        } else {
            old(tables)@.remove(setup_key(old(s)))
        },
{
    if s.max_width == 0 && s.roots_of_unity.len() == 0 && s.g1_values.len() == 0
        && s.g2_values.len() == 0 {
        return ;
    }
    tables.remove_precomputation(s);
    s.roots_of_unity = Vec::new();
    s.g1_values = Vec::new();
    s.g2_values = Vec::new();
    s.max_width = 0;
}

/// What `SipHasher::new().hash(b)` returns: SipHash-2-4 of `b` under the all-zero key.
pub uninterp spec fn siphash_zero_key(b: Seq<u8>) -> u64;

/// Relies on `siphasher::sip::SipHasher::new` and `SipHasher::hash`: a function of
/// the bytes alone, the keys being fixed at zero.
#[verifier::external_body]
fn sip_hash(b: &Vec<u8>) -> (r: u64)
    ensures
        r == siphash_zero_key(b@),
{
    siphasher::sip::SipHasher::new().hash(b.as_slice())
}

/// The bytes of the points `g`, one after another.
pub open spec fn g1_image(g: Seq<G1>) -> Seq<u8>
    decreases g.len(),
{
    if g.len() == 0 {
        Seq::empty()
    } else {
        g1_image(g.drop_last()) + g.last().bytes@
    }
}

/// The key under which the precomputed table of a setup is kept: a keyed hash
/// of the bytes of its G1 points.
pub open spec fn setup_key(c: &CKzgSettings) -> u64 {
    siphash_zero_key(g1_image(c.g1_values@))
}

fn g1_bytes(g: &Vec<G1>) -> (r: Vec<u8>)
    ensures
        r@ == g1_image(g@),
{
    let mut r: Vec<u8> = Vec::new();
    let mut i: usize = 0;
    while i < g.len()
        invariant
            i <= g@.len(),
            r@ == g1_image(g@.take(i as int)),
        decreases g@.len() - i,
    {
        let p = g[i];
        let ghost before = r@;
        let mut j: usize = 0;
        while j < BYTES_PER_G1
            invariant
                j <= BYTES_PER_G1,
                r@ == before + p.bytes@.take(j as int),
            decreases BYTES_PER_G1 - j,
        {
            r.push(p.bytes[j]);
            j = j + 1;
            assert(r@ =~= before + p.bytes@.take(j as int));
        }
        assert(g@.take(i + 1).drop_last() =~= g@.take(i as int));
        assert(p.bytes@.take(48) =~= p.bytes@);
        i = i + 1;
    }
    assert(g@.take(g@.len() as int) =~= g@);
    r
}

/// The store of precomputed MSM tables, at most one per setup, under the setup's
/// key.
pub struct PrecomputationTableManager<P> {
    tables: BTreeMap<u64, Arc<P>>,
}

impl<P> View for PrecomputationTableManager<P> {
    type V = Map<u64, Arc<P>>;

    closed spec fn view(&self) -> Map<u64, Arc<P>> {
        self.tables@
    }
}

impl<P> PrecomputationTableManager<P> {
    /// An empty store.
    pub fn new() -> (r: Self)
        ensures
            r@ == Map::<u64, Arc<P>>::empty(),
    {
        PrecomputationTableManager { tables: BTreeMap::new() }
    }

    /// Moves the table out of `settings`, if it holds one, into the store under
    /// the key of `c_settings`.
    pub fn save_precomputation(&mut self, settings: &mut KzgSettings<P>, c_settings: &CKzgSettings)
        ensures
            final(settings).precomputation is None,
            final(settings).fs == old(settings).fs,
            final(settings).secret_g1 == old(settings).secret_g1,
            final(settings).secret_g2 == old(settings).secret_g2,
            final(self)@ == match old(settings).precomputation {
                Some(t) => old(self)@.insert(setup_key(c_settings), t),
                None => old(self)@,
            },
    {
        broadcast use vstd::laws_cmp::group_laws_cmp;

        if let Some(precomputation) = settings.precomputation.take() {
            self.tables.insert(Self::get_key(c_settings), precomputation);
        }
    }

    /// Keeps `table` under the key of `c_settings`.
    pub fn insert_precomputation(&mut self, c_settings: &CKzgSettings, table: Arc<P>)
        ensures
            final(self)@ == old(self)@.insert(setup_key(c_settings), table),
    {
        broadcast use vstd::laws_cmp::group_laws_cmp;

        self.tables.insert(Self::get_key(c_settings), table);
    }

    /// Drops the table kept under the key of `c_settings`.
    pub fn remove_precomputation(&mut self, c_settings: &CKzgSettings)
        ensures
            final(self)@ == old(self)@.remove(setup_key(c_settings)),
    {
        broadcast use vstd::laws_cmp::group_laws_cmp;
        broadcast use vstd::std_specs::btree::group_btree_axioms;

        self.tables.remove(&Self::get_key(c_settings));
    }

    /// The table kept under the key of `c_settings`, shared.
    pub fn get_precomputation(&self, c_settings: &CKzgSettings) -> (r: Option<Arc<P>>)
        ensures
            r == (if self@.contains_key(setup_key(c_settings)) {
                Some(self@[setup_key(c_settings)])
            } else {
                None
            }),
    {
        broadcast use vstd::laws_cmp::group_laws_cmp;
        broadcast use vstd::std_specs::btree::group_btree_axioms;

        match self.tables.get(&Self::get_key(c_settings)) {
            Some(t) => Some(share(t)),
            None => None,
        }
    }

    fn get_key(settings: &CKzgSettings) -> (r: u64)
        ensures
            r == setup_key(settings),
    {
        sip_hash(&g1_bytes(&settings.g1_values))
    }
}

/// Relies on `Arc::clone`: another pointer to the same value.
#[verifier::external_body]
fn share<P>(t: &Arc<P>) -> (r: Arc<P>)
    ensures
        r == *t,
{
    Arc::clone(t)
}

} // verus!
