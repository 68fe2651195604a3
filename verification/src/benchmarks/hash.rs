//! The hashing benchmarks' work: a CRC32 (IEEE) checksum, a SHA-256 digest
//! and std's default SipHash, each over a small counting buffer.
use vstd::prelude::*;
use vstd::std_specs::hash::DefaultHasherAdditionalSpecFns;
use std::collections::hash_map::DefaultHasher;
use std::hash::Hasher;

verus! {

/// `n` bytes counting up from zero and wrapping at 256.
pub fn counting_bytes(n: usize) -> (data: Vec<u8>)
    ensures
        data@.len() == n,
        forall|i: int| 0 <= i < n ==> #[trigger] data@[i] == (i % 256) as u8,
{
    let mut data: Vec<u8> = Vec::new();
    let mut i: usize = 0;
    while i < n
        invariant
            i <= n,
            data@.len() == i,
            forall|k: int| 0 <= k < i ==> #[trigger] data@[k] == (k % 256) as u8,
        decreases n - i,
    {
        data.push((i % 256) as u8);
        i = i + 1;
    }
    data
}

/// Eight steps of the reflected CRC-32 shift register, polynomial 0xEDB88320.
pub open spec fn crc_shift(c: u32, k: nat) -> u32
    decreases k,
{
    if k == 0 {
        c
    } else {
        crc_shift(
            if c & 1 == 1 {
                (c >> 1u32) ^ 0xEDB8_8320u32
            } else {
                c >> 1u32
            },
            (k - 1) as nat,
        )
    }
}

/// The CRC-32 register after the bytes of `data`.
pub open spec fn crc_register(c: u32, data: Seq<u8>) -> u32
    decreases data.len(),
{
    if data.len() == 0 {
        c
    } else {
        crc_register(crc_shift(c ^ (data[0] as u32), 8), data.drop_first())
    }
}

/// CRC-32 (IEEE 802.3): register preset to all ones, reflected, the result
/// inverted.
pub open spec fn crc32_ieee(data: Seq<u8>) -> u32 {
    crc_register(0xFFFF_FFFFu32, data) ^ 0xFFFF_FFFFu32
}

/// `crc32fast::hash`: the CRC-32 (IEEE) checksum of the bytes, the same as a
/// new `crc32fast::Hasher` updated with them and finalized.
#[verifier::external_body]
fn crc32fast_hash(data: &[u8]) -> (c: u32)
    ensures
        c == crc32_ieee(data@),
{
    crc32fast::hash(data)
}

/// The CRC-32 checksum of the bytes.
pub fn crc32(data: &[u8]) -> (c: u32)
    ensures
        c == crc32_ieee(data@),
{
    crc32fast_hash(data)
}

/// The SHA-256 digest that `sha2` computes of `data`.
pub uninterp spec fn sha256_digest(data: Seq<u8>) -> Seq<u8>;

/// `<sha2::Sha256 as sha2::Digest>::digest`: the 32-byte SHA-256 digest.
#[verifier::external_body]
fn sha2_digest(data: &[u8]) -> (d: Vec<u8>)
    ensures
        d@ == sha256_digest(data@),
        d@.len() == 32,
{
    <sha2::Sha256 as sha2::Digest>::digest(data).to_vec()
}

/// The SHA-256 digest of the bytes.
pub fn sha256(data: &[u8]) -> (d: Vec<u8>)
    ensures
        d@ == sha256_digest(data@),
        d@.len() == 32,
{
    sha2_digest(data)
}

/// std's default SipHash of the bytes, by a new hasher fed them once.
pub fn siphash(data: &[u8]) -> (h: u64)
    ensures
        h == DefaultHasher::spec_finish(seq![data@]),
{
    let mut hasher = DefaultHasher::new();
    hasher.write(data);
    hasher.finish()
}

} // verus!
