//! What the guest program reveals when it has rendered its image: the
//! image's address and size in the guest's memory, and its SHA-256 digest.
//! The runner reads the image back and checks it against that digest.

use sha2::Digest;
use vstd::prelude::*;

verus! {

/// Offset of the image's address (little-endian `u32`) in the public values.
pub const PV_PTR_OFF: usize = 0;

/// Offset of the image's size in bytes (little-endian `u32`).
pub const PV_SIZE_OFF: usize = 4;

/// Offset of the image's SHA-256 digest.
pub const PV_HASH_OFF: usize = 8;

/// Length of the digest.
pub const PV_HASH_LEN: usize = 32;

/// How many public values the runner asks the VM for.
pub const NUM_PUBLIC_VALUES: usize = 64;

/// The public values, decoded.
pub struct PublicValues {
    pub ptr: u32,
    pub size: u32,
    pub hash: Vec<u8>,
}

/// Why the guest's output was refused.
pub enum OutputError {
    /// The guest left its image's address or size at zero.
    NotPopulated { ptr: u32, size: u32 },
    /// The image's SHA-256 digest differs from the one the guest revealed.
    HashMismatch { computed: Vec<u8> },
}

/// The little-endian `u32` at `off`.
pub open spec fn le_u32(bytes: Seq<u8>, off: int) -> int {
    bytes[off] + 0x100 * bytes[off + 1] + 0x1_0000 * bytes[off + 2] + 0x100_0000 * bytes[off + 3]
}

/// The SHA-256 digest of some bytes, as the `sha2` crate computes it.
pub uninterp spec fn sha256_digest(data: Seq<u8>) -> Seq<u8>;

/// Calls `sha2::Sha256::digest` on `data`. The contract claims that the
/// digest is a function of the bytes and is 32 bytes long, as SHA-256 is.
#[verifier::external_body]
fn sha256(data: &[u8]) -> (digest: Vec<u8>)
    ensures
        digest@ == sha256_digest(data@),
        digest@.len() == 32,
{
    sha2::Sha256::digest(data).to_vec()
}

/// Reads the little-endian `u32` at `off`.
fn read_le_u32(bytes: &[u8], off: usize) -> (v: u32)
    requires
        off + 4 <= bytes@.len(),
    ensures
        v as int == le_u32(bytes@, off as int),
{
    let b0 = bytes[off] as u32;
    let b1 = bytes[off + 1] as u32;
    let b2 = bytes[off + 2] as u32;
    let b3 = bytes[off + 3] as u32;
    b0 + 0x100 * b1 + 0x1_0000 * b2 + 0x100_0000 * b3
}

/// Decodes the public values: the image's address, its size and the digest.
pub fn decode_public_values(pvs: &[u8]) -> (pv: PublicValues)
    requires
        pvs@.len() >= PV_HASH_OFF + PV_HASH_LEN,
    ensures
        pv.ptr as int == le_u32(pvs@, PV_PTR_OFF as int),
        pv.size as int == le_u32(pvs@, PV_SIZE_OFF as int),
        pv.hash@ == pvs@.subrange(PV_HASH_OFF as int, PV_HASH_OFF + PV_HASH_LEN),
{
    let ptr = read_le_u32(pvs, PV_PTR_OFF);
    let size = read_le_u32(pvs, PV_SIZE_OFF);
    let mut hash: Vec<u8> = Vec::new();
    let mut i: usize = PV_HASH_OFF;
    while i < PV_HASH_OFF + PV_HASH_LEN
        invariant
            PV_HASH_OFF <= i <= PV_HASH_OFF + PV_HASH_LEN,
            pvs@.len() >= PV_HASH_OFF + PV_HASH_LEN,
            hash@ == pvs@.subrange(PV_HASH_OFF as int, i as int),
        decreases PV_HASH_OFF + PV_HASH_LEN - i,
    {
        hash.push(pvs[i]);
        assert(pvs@.subrange(PV_HASH_OFF as int, i + 1) =~= pvs@.subrange(
            PV_HASH_OFF as int,
            i as int,
        ).push(pvs@[i as int]));
        i += 1;
    }
    PublicValues { ptr, size, hash }
}

/// The guest must have populated both the image's address and its size.
pub fn check_populated(pv: &PublicValues) -> (res: Result<(), OutputError>)
    ensures
        res is Ok <==> pv.size != 0 && pv.ptr != 0,
        res matches Err(e) ==> e == (OutputError::NotPopulated { ptr: pv.ptr, size: pv.size }),
{
    if pv.size == 0 || pv.ptr == 0 {
        Err(OutputError::NotPopulated { ptr: pv.ptr, size: pv.size })
    } else {
        Ok(())
    }
}

/// Whether two digests are the same bytes.
pub fn digests_match(computed: &[u8], revealed: &[u8]) -> (same: bool)
    ensures
        same == (computed@ == revealed@),
{
    if computed.len() != revealed.len() {
        return false;
    }
    let mut i: usize = 0;
    while i < computed.len()
        invariant
            computed@.len() == revealed@.len(),
            i <= computed@.len(),
            forall|j: int| 0 <= j < i ==> computed@[j] == revealed@[j],
        decreases computed@.len() - i,
    {
        if computed[i] != revealed[i] {
            return false;
        }
        i += 1;
    }
    assert(computed@ =~= revealed@);
    true
}

/// Checks the image read back from the guest against the digest it revealed.
pub fn check_image(image: &[u8], revealed: &[u8]) -> (res: Result<(), OutputError>)
    ensures
        res is Ok <==> sha256_digest(image@) == revealed@,
        res matches Err(e) ==> e matches OutputError::HashMismatch { computed } && computed@
            == sha256_digest(image@),
{
    let computed = sha256(image);
    if digests_match(computed.as_slice(), revealed) {
        Ok(())
    } else {
        Err(OutputError::HashMismatch { computed })
    }
}

} // verus!
