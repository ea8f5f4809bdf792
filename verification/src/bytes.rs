//! Native-endian byte encodings of 64-bit numbers.
use vstd::prelude::*;

verus! {

/// The little-endian bytes of `v`.
pub open spec fn le_bytes(v: u64) -> Seq<u8> {
    Seq::new(8, |i: int| ((v >> (8 * i) as u64) & 0xffu64) as u8)
}

/// Whether `bytes` is `v` in native byte order: little- or big-endian, as the machine
/// has it.
pub open spec fn native_encoding(v: u64, bytes: Seq<u8>) -> bool {
    bytes == le_bytes(v) || bytes == le_bytes(v).reverse()
}

/// Calls `u64::to_ne_bytes`: the memory representation of `v` in native byte order.
#[verifier::external_body]
fn u64_ne_bytes(v: u64) -> (r: [u8; 8])
    ensures
        native_encoding(v, r@),
{
    v.to_ne_bytes()
}

/// Calls `i64::to_ne_bytes`: the memory representation of `v` in native byte order,
/// which is that of its two's complement bits.
#[verifier::external_body]
fn i64_ne_bytes(v: i64) -> (r: [u8; 8])
    ensures
        native_encoding(v as u64, r@),
{
    v.to_ne_bytes()
}

fn array_to_vec(a: [u8; 8]) -> (r: Vec<u8>)
    ensures
        r@ == a@,
{
    let mut r: Vec<u8> = Vec::new();
    let mut i: usize = 0;
    while i < 8
        invariant
            i <= 8,
            a@.len() == 8,
            r@ == a@.subrange(0, i as int),
        decreases 8 - i,
    {
        r.push(a[i]);
        assert(r@ =~= a@.subrange(0, i + 1));
        i = i + 1;
    }
    assert(a@.subrange(0, 8) =~= a@);
    r
}

/// The native-endian bytes of `v`.
pub fn i64_bytes(v: i64) -> (r: Vec<u8>)
    ensures
        native_encoding(v as u64, r@),
{
    array_to_vec(i64_ne_bytes(v))
}

/// The native-endian bytes of `v`.
pub fn u64_bytes(v: u64) -> (r: Vec<u8>)
    ensures
        native_encoding(v, r@),
{
    array_to_vec(u64_ne_bytes(v))
}

/// Whether `bytes` is `values` in order, each number in native byte order.
pub open spec fn all_native(values: Seq<u64>, bytes: Seq<u8>) -> bool {
    &&& bytes.len() == 8 * values.len()
    &&& forall|k: int| 0 <= k < values.len() ==> #[trigger] native_encoding(values[k], bytes.subrange(8 * k, 8 * k + 8))
}

/// The numbers of `values`, each in native byte order, one after the other.
pub fn u64s_bytes(values: &Vec<u64>) -> (r: Vec<u8>)
    ensures
        all_native(values@, r@),
{
    let mut r: Vec<u8> = Vec::new();
    let mut i: usize = 0;
    while i < values.len()
        invariant
            i <= values.len(),
            all_native(values@.subrange(0, i as int), r@),
        decreases values.len() - i,
    {
        let b = u64_bytes(values[i]);
        let ghost prev = r@;
        let mut j: usize = 0;
        while j < 8
            invariant
                j <= 8,
                b@.len() == 8,
                r@ == prev + b@.subrange(0, j as int),
            decreases 8 - j,
        {
            r.push(b[j]);
            assert(r@ =~= prev + b@.subrange(0, j + 1));
            j = j + 1;
        }
        proof {
            assert(b@.subrange(0, 8) =~= b@);
            let vs = values@.subrange(0, i + 1);
            assert forall|k: int| 0 <= k < vs.len() implies #[trigger] native_encoding(vs[k], r@.subrange(8 * k, 8 * k + 8)) by {
                if k < i {
                    assert(vs[k] == values@.subrange(0, i as int)[k]);
                    assert(r@.subrange(8 * k, 8 * k + 8) =~= prev.subrange(8 * k, 8 * k + 8));
                } else {
                    assert(r@.subrange(8 * k, 8 * k + 8) =~= b@);
                }
            }
        }
        i = i + 1;
    }
    assert(values@.subrange(0, values.len() as int) =~= values@);
    r
}

/// The numbers of `values`, each in native byte order, one after the other.
pub fn i64s_bytes(values: &Vec<i64>) -> (r: Vec<u8>)
    ensures
        all_native(Seq::new(values@.len(), |k: int| values@[k] as u64), r@),
{
    let mut bits: Vec<u64> = Vec::new();
    let mut i: usize = 0;
    while i < values.len()
        invariant
            i <= values.len(),
            bits@ == Seq::new(i as nat, |k: int| values@[k] as u64),
        decreases values.len() - i,
    {
        bits.push(values[i] as u64);
        assert(bits@ =~= Seq::new((i + 1) as nat, |k: int| values@[k] as u64));
        i = i + 1;
    }
    u64s_bytes(&bits)
}

} // verus!
