use vstd::prelude::*;

use crate::fr::{bytes_at, is_canonical, Fr, BYTES_PER_FIELD_ELEMENT};

verus! {

/// Field elements in a blob.
pub const FIELD_ELEMENTS_PER_BLOB: usize = 4096;

/// Bytes in a blob.
pub const BYTES_PER_BLOB: usize = 131072;

/// A blob: `FIELD_ELEMENTS_PER_BLOB` scalars, each as 32 big-endian bytes. Field
/// element `i` is the evaluation at the `i`-th point of the bit-reversed domain.
#[derive(Clone, Debug, PartialEq, Eq)]
pub struct Blob {
    pub bytes: Vec<u8>,
}

/// The 32-byte window of field element `i` in the bytes `s`.
pub open spec fn window(s: Seq<u8>, i: int) -> Seq<u8> {
    s.subrange(32 * i, 32 * i + 32)
}

/// The bytes `s` form a valid blob: the right length, and each window canonical.
pub open spec fn blob_valid(s: Seq<u8>) -> bool {
    &&& s.len() == BYTES_PER_BLOB
    &&& forall|i: int| 0 <= i < FIELD_ELEMENTS_PER_BLOB ==> #[trigger] is_canonical(window(s, i))
}

/// The field element whose encoding is the 32 bytes `b`.
pub open spec fn fr_of(b: Seq<u8>) -> Fr {
    Fr { bytes: choose|a: [u8; 32]| a@ == b }
}

/// A field element is the one its encoding names.
pub proof fn lemma_fr_of(f: Fr)
    ensures
        fr_of(f.bytes@) == f,
{
    broadcast use vstd::array::axiom_array_ext_equal;

    let b = f.bytes@;
    let a = choose|a: [u8; 32]| a@ == b;
    assert(a@ == b);
    assert(a =~= f.bytes);
    assert(fr_of(b).bytes == a);
    assert(f == Fr { bytes: a });
}

/// The field elements of the blob bytes `s`, one per window.
pub open spec fn decode_blob(s: Seq<u8>) -> Seq<Fr> {
    Seq::new(FIELD_ELEMENTS_PER_BLOB as nat, |i: int| fr_of(window(s, i)))
}

/// Decodes a blob into its field elements; `None` where the blob has the wrong
/// length or one of its windows encodes an integer at or above the field's order.
pub fn deserialize_blob(blob: &Blob) -> (r: Option<Vec<Fr>>)
    ensures
        r is Some <==> blob_valid(blob.bytes@),
        r matches Some(v) ==> {
            &&& v@ == decode_blob(blob.bytes@)
            &&& v@.len() == FIELD_ELEMENTS_PER_BLOB
            &&& forall|i: int|
                0 <= i < FIELD_ELEMENTS_PER_BLOB ==> #[trigger] v@[i].bytes@ == window(
                    blob.bytes@,
                    i,
                ) && v@[i].wf()
        },
{
    if blob.bytes.len() != BYTES_PER_BLOB {
        return None;
    }
    let mut out: Vec<Fr> = Vec::new();
    let mut i: usize = 0;
    while i < FIELD_ELEMENTS_PER_BLOB
        invariant
            blob.bytes@.len() == BYTES_PER_BLOB,
            i <= FIELD_ELEMENTS_PER_BLOB,
            out@.len() == i,
            forall|k: int|
                0 <= k < i ==> #[trigger] out@[k].bytes@ == window(blob.bytes@, k) && out@[k].wf(),
            forall|k: int| 0 <= k < i ==> #[trigger] is_canonical(window(blob.bytes@, k)),
        decreases FIELD_ELEMENTS_PER_BLOB - i,
    {
        assert(i * BYTES_PER_FIELD_ELEMENT + 32 <= BYTES_PER_BLOB) by (nonlinear_arith)
            requires
                i < FIELD_ELEMENTS_PER_BLOB,
        ;
        let chunk: [u8; 32] = bytes_at(blob.bytes.as_slice(), i * BYTES_PER_FIELD_ELEMENT);
        match Fr::from_bytes(&chunk) {
            Some(f) => {
                out.push(f);
            },
            None => {
                assert(!is_canonical(window(blob.bytes@, i as int)));
                return None;
            },
        }
        i = i + 1;
    }
    assert(out@ =~= decode_blob(blob.bytes@)) by {
        broadcast use vstd::array::axiom_array_ext_equal;

        assert forall|k: int| 0 <= k < FIELD_ELEMENTS_PER_BLOB implies out@[k] == decode_blob(
            blob.bytes@,
        )[k] by {
            let w = window(blob.bytes@, k);
            assert(out@[k].bytes@ == w);
            let a = choose|a: [u8; 32]| a@ == w;
            assert(a@ == w);
            assert(a =~= out@[k].bytes);
            assert(decode_blob(blob.bytes@)[k] == fr_of(w));
            assert(fr_of(w).bytes == a);
            assert(out@[k] == Fr { bytes: a });
        }
    }
    Some(out)
}

} // verus!
