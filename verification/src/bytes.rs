//! Small operations on byte strings.

use vstd::prelude::*;
use vstd::slice::slice_subrange;

verus! {

/// Appends `tail` to `out`.
pub fn append_bytes(out: &mut Vec<u8>, tail: &[u8])
    ensures
        final(out)@ == old(out)@ + tail@,
{
    out.extend_from_slice(tail);
    assert(out@ =~= old(out)@ + tail@);
}

/// A copy of `data[from..to]`.
pub fn copy_range(data: &[u8], from: usize, to: usize) -> (out: Vec<u8>)
    requires
        from <= to <= data@.len(),
    ensures
        out@ == data@.subrange(from as int, to as int),
{
    let mut out: Vec<u8> = Vec::new();
    append_bytes(&mut out, slice_subrange(data, from, to));
    assert(out@ =~= data@.subrange(from as int, to as int));
    out
}

/// A copy of the whole of `data`.
pub fn copy_bytes(data: &[u8]) -> (out: Vec<u8>)
    ensures
        out@ == data@,
{
    let mut out: Vec<u8> = Vec::new();
    append_bytes(&mut out, data);
    assert(out@ =~= data@);
    out
}

/// Whether two byte strings are equal.
pub fn bytes_equal(a: &[u8], b: &[u8]) -> (equal: bool)
    ensures
        equal == (a@ == b@),
{
    if a.len() != b.len() {
        return false;
    }
    let mut i: usize = 0;
    while i < a.len()
        invariant
            i <= a@.len(),
            a@.len() == b@.len(),
            forall|j: int| 0 <= j < i ==> a@[j] == b@[j],
        decreases a@.len() - i,
    {
        if a[i] != b[i] {
            return false;
        }
        i += 1;
    }
    assert(a@ =~= b@);
    true
}

/// The 32 bytes of `data` from `at` on.
pub fn copy_array_32(data: &[u8], at: usize) -> (out: [u8; 32])
    requires
        at + 32 <= data@.len(),
    ensures
        out@ == data@.subrange(at as int, at + 32),
{
    let mut out = [0u8; 32];
    let mut i: usize = 0;
    while i < 32
        invariant
            i <= 32,
            at + 32 <= data.len(),
            forall|j: int| 0 <= j < i ==> out@[j] == data@[at + j],
        decreases 32 - i,
    {
        out[i] = data[at + i];
        i += 1;
    }
    assert(out@ =~= data@.subrange(at as int, at + 32));
    out
}

/// The number that bytes spell, the first one the highest.
pub open spec fn be_number(bytes: Seq<u8>) -> nat
    decreases bytes.len(),
{
    if bytes.len() == 0 {
        0
    } else {
        be_number(bytes.drop_last()) * 256 + bytes.last() as nat
    }
}

pub(crate) proof fn lemma_be_number_8(b: Seq<u8>)
    requires
        b.len() == 8,
    ensures
        be_number(b) == b[0] * 0x0100_0000_0000_0000 + b[1] * 0x0001_0000_0000_0000 + b[2]
            * 0x0000_0100_0000_0000 + b[3] * 0x0000_0001_0000_0000 + b[4] * 0x0000_0000_0100_0000
            + b[5] * 0x0000_0000_0001_0000 + b[6] * 0x0000_0000_0000_0100 + b[7],
{
    reveal_with_fuel(be_number, 9);
    assert(be_number(b) == be_number(b.take(7)) * 256 + b[7]) by {
        assert(b.drop_last() =~= b.take(7));
    }
    assert(be_number(b.take(7)) == be_number(b.take(6)) * 256 + b[6]) by {
        assert(b.take(7).drop_last() =~= b.take(6));
    }
    assert(be_number(b.take(6)) == be_number(b.take(5)) * 256 + b[5]) by {
        assert(b.take(6).drop_last() =~= b.take(5));
    }
    assert(be_number(b.take(5)) == be_number(b.take(4)) * 256 + b[4]) by {
        assert(b.take(5).drop_last() =~= b.take(4));
    }
    lemma_be_number_4(b.take(4));
}

pub(crate) proof fn lemma_be_number_4(b: Seq<u8>)
    requires
        b.len() == 4,
    ensures
        be_number(b) == b[0] * 0x100_0000 + b[1] * 0x1_0000 + b[2] * 0x100 + b[3],
        be_number(b) <= u32::MAX,
{
    assert(be_number(b) == be_number(b.take(3)) * 256 + b[3]) by {
        assert(b.drop_last() =~= b.take(3));
    }
    assert(be_number(b.take(3)) == be_number(b.take(2)) * 256 + b[2]) by {
        assert(b.take(3).drop_last() =~= b.take(2));
    }
    lemma_be_number_2(b.take(2));
}

pub(crate) proof fn lemma_be_number_2(b: Seq<u8>)
    requires
        b.len() == 2,
    ensures
        be_number(b) == b[0] * 0x100 + b[1],
{
    assert(be_number(b) == be_number(b.take(1)) * 256 + b[1]) by {
        assert(b.drop_last() =~= b.take(1));
    }
    assert(be_number(b.take(1)) == be_number(b.take(0)) * 256 + b[0]) by {
        assert(b.take(1).drop_last() =~= b.take(0));
    }
    assert(be_number(b.take(0)) == 0);
}

/// The number that two runs of bytes spell one after the other.
pub(crate) proof fn lemma_be_number_split(high: Seq<u8>, low: Seq<u8>)
    ensures
        be_number(high + low) == be_number(high) * pow256(low.len()) + be_number(low),
    decreases low.len(),
{
    if low.len() == 0 {
        assert(high + low =~= high);
        assert(be_number(high) * 1 == be_number(high));
    } else {
        assert((high + low).drop_last() =~= high + low.drop_last());
        lemma_be_number_split(high, low.drop_last());
        let p = pow256((low.len() - 1) as nat) as int;
        let h = be_number(high) as int;
        assert((h * p) * 256 == h * (p * 256)) by (nonlinear_arith);
    }
}

/// 256 to the power of `n`.
pub open spec fn pow256(n: nat) -> nat
    decreases n,
{
    if n == 0 {
        1
    } else {
        pow256((n - 1) as nat) * 256
    }
}

} // verus!
