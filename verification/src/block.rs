//! Blocks of bytes, XOR on them, and the PKCS#7 padding rule.
use vstd::prelude::*;

verus! {

/// Size in bytes of a cipher block (AES has 16-byte blocks).
pub const BLOCK_SIZE: usize = 16;

/// A cipher block: an IV, a ciphertext block or an intermediate value.
pub type Block = [u8; BLOCK_SIZE];

/// Byte-wise XOR of `a` with `b`; the result is as long as `a`.
pub open spec fn xor_bytes(a: Seq<u8>, b: Seq<u8>) -> Seq<u8> {
    Seq::new(a.len(), |i: int| a[i] ^ b[i])
}

/// PKCS#7 validity: the last byte is some `k` with `1 <= k <= len`, and the
/// last `k` bytes all hold `k`.
pub open spec fn valid_padding(data: Seq<u8>) -> bool {
    &&& data.len() > 0
    &&& 1 <= data.last() <= data.len()
    &&& forall|i: int| data.len() - data.last() <= i < data.len() ==> data[i] == data.last()
}

/// XOR of two blocks.
pub fn xor_blocks(a: &Block, b: &Block) -> (out: Block)
    ensures
        out@ == xor_bytes(a@, b@),
{
    let mut out: Block = [0u8; BLOCK_SIZE];
    let mut i: usize = 0;
    while i < BLOCK_SIZE
        invariant
            i <= BLOCK_SIZE,
            forall|j: int| 0 <= j < i ==> out@[j] == a@[j] ^ b@[j],
        decreases BLOCK_SIZE - i,
    {
        out[i] = a[i] ^ b[i];
        i += 1;
    }
    assert(out@ =~= xor_bytes(a@, b@));
    out
}

/// Whether `data` ends in valid PKCS#7 padding.
pub fn has_valid_padding(data: &[u8]) -> (valid: bool)
    ensures
        valid == valid_padding(data@),
{
    let len = data.len();
    if len == 0 {
        return false;
    }
    let last = data[len - 1];
    let count = last as usize;
    if count == 0 || count > len {
        return false;
    }
    let mut i: usize = len - count;
    while i < len
        invariant
            len == data@.len(),
            len - count <= i <= len,
            1 <= count <= len,
            last == data@.last(),
            count == last,
            forall|j: int| len - count <= j < i ==> data@[j] == last,
        decreases len - i,
    {
        if data[i] != last {
            return false;
        }
        i += 1;
    }
    true
}

} // verus!
