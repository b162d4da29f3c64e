//! The wire format: magic byte, frame layout, big-endian length field and
//! truncated SHA-256 checksums.

use vstd::prelude::*;
use sha2::Digest;

verus! {

/// Sentinel byte that marks a candidate frame start.  It is only a resync
/// heuristic; frame integrity rests on the checksums.
pub const MAGIC_BYTE: u8 = 0xA9;

/// Total size of a frame that carries `msg_len` payload bytes, with a
/// length field of `p` bytes and a payload checksum of `c` bytes:
/// one magic byte, the length, the length checksum (also `p` bytes wide),
/// the payload, and the payload checksum.
pub open spec fn spec_frame_size(p: nat, c: nat, msg_len: nat) -> nat {
    1 + 2 * p + msg_len + c
}

/// 256 to the power `w`: the number of values a `w`-byte length field can hold.
pub open spec fn pow256(w: nat) -> nat
    decreases w,
{
    if w == 0 {
        1
    } else {
        256 * pow256((w - 1) as nat)
    }
}

/// The value `v` written big-endian into exactly `w` bytes (high bits beyond
/// `w` bytes are dropped, as a fixed-width store does).
pub open spec fn spec_be_bytes(v: nat, w: nat) -> Seq<u8>
    decreases w,
{
    if w == 0 {
        Seq::empty()
    } else {
        spec_be_bytes(v / 256, (w - 1) as nat).push((v % 256) as u8)
    }
}

/// The unsigned value of a big-endian byte string.
pub open spec fn spec_be_val(s: Seq<u8>) -> nat
    decreases s.len(),
{
    if s.len() == 0 {
        0
    } else {
        spec_be_val(s.drop_last()) * 256 + s.last() as nat
    }
}

/// The SHA-256 digest of `data`, as the outside hash routine computes it.
/// Nothing is assumed about its bytes; `spec_digest32` below fixes its length.
pub uninterp spec fn spec_sha256(data: Seq<u8>) -> Seq<u8>;

/// The SHA-256 digest of `data`, normalized to its documented width of
/// exactly 32 bytes.
pub open spec fn spec_digest32(data: Seq<u8>) -> Seq<u8> {
    Seq::new(32, |i: int| if 0 <= i < spec_sha256(data).len() {
        spec_sha256(data)[i]
    } else {
        0
    })
}

/// A truncated checksum: the first `k` bytes of the SHA-256 digest of `data`.
pub open spec fn spec_checksum(data: Seq<u8>, k: nat) -> Seq<u8> {
    spec_digest32(data).take(k as int)
}

/// The frame that carries payload `msg`:
/// `MAGIC | LENGTH | LENGTH_CHECKSUM | PAYLOAD | PAYLOAD_CHECKSUM`.
pub open spec fn spec_frame(p: nat, c: nat, msg: Seq<u8>) -> Seq<u8> {
    seq![MAGIC_BYTE] + spec_be_bytes(msg.len(), p) + spec_checksum(spec_be_bytes(msg.len(), p), p)
        + msg + spec_checksum(msg, c)
}

pub proof fn lemma_checksum_len(data: Seq<u8>, k: nat)
    requires
        k <= 32,
    ensures
        spec_checksum(data, k).len() == k,
{
}

pub proof fn lemma_be_bytes_len(v: nat, w: nat)
    ensures
        spec_be_bytes(v, w).len() == w,
    decreases w,
{
    if w > 0 {
        lemma_be_bytes_len(v / 256, (w - 1) as nat);
    }
}

/// A value below `256^w` is recovered exactly from its `w`-byte big-endian form.
pub proof fn lemma_be_round_trip(v: nat, w: nat)
    requires
        v < pow256(w),
    ensures
        spec_be_val(spec_be_bytes(v, w)) == v,
    decreases w,
{
    if w > 0 {
        lemma_be_bytes_len(v / 256, (w - 1) as nat);
        lemma_be_round_trip(v / 256, (w - 1) as nat);
        let s = spec_be_bytes(v, w);
        assert(s.drop_last() =~= spec_be_bytes(v / 256, (w - 1) as nat));
    }
}

pub proof fn lemma_be_val_bound(s: Seq<u8>)
    ensures
        spec_be_val(s) < pow256(s.len()),
    decreases s.len(),
{
    if s.len() > 0 {
        lemma_be_val_bound(s.drop_last());
    }
}

pub proof fn lemma_pow256_le_u64(w: nat)
    ensures
        w <= 8 ==> pow256(w) <= 0x1_0000_0000_0000_0000,
    decreases w,
{
    if w > 0 {
        lemma_pow256_le_u64((w - 1) as nat);
        reveal_with_fuel(pow256, 9);
    }
}

pub proof fn lemma_pow256_mono(a: nat, b: nat)
    requires
        a <= b,
    ensures
        pow256(a) <= pow256(b),
    decreases b,
{
    if a < b && b > 0 {
        lemma_pow256_mono(a, (b - 1) as nat);
    }
}

/// The length of a whole frame, phrased over the payload length.
pub proof fn lemma_frame_len(p: nat, c: nat, msg: Seq<u8>)
    requires
        p <= 32,
        c <= 32,
    ensures
        spec_frame(p, c, msg).len() == spec_frame_size(p, c, msg.len()),
{
    lemma_be_bytes_len(msg.len(), p);
}

/// Total size in bytes of a frame carrying a payload of `MSG_BYTES` bytes.
#[allow(non_snake_case)]
pub fn calcMsgSize(LEN_PREFIX_BYTES: usize, CHECKSUM_BYTES: usize, MSG_BYTES: usize) -> (r: usize)
    requires
        1 + 2 * (LEN_PREFIX_BYTES as int) + MSG_BYTES + CHECKSUM_BYTES <= usize::MAX,
    ensures
        r == spec_frame_size(LEN_PREFIX_BYTES as nat, CHECKSUM_BYTES as nat, MSG_BYTES as nat),
{
    1 + LEN_PREFIX_BYTES + LEN_PREFIX_BYTES + MSG_BYTES + CHECKSUM_BYTES
}

/// Relies on `sha2::Sha256::digest`: the SHA-256 digest of the input, a
/// function of the input bytes alone, documented to be exactly 32 bytes long
/// (which is why it coincides with its 32-byte normalization `spec_digest32`).
#[verifier::external_body]
fn sha256(data: &[u8]) -> (r: Vec<u8>)
    ensures
        r@ == spec_sha256(data@),
        r@ == spec_digest32(data@),
{
    sha2::Sha256::digest(data).to_vec()
}

/// The first `k` bytes of the SHA-256 digest of `data`.
pub fn compute_checksum(data: &[u8], k: usize) -> (r: Vec<u8>)
    requires
        k <= 32,
    ensures
        r@ == spec_checksum(data@, k as nat),
        r@.len() == k,
{
    let mut d = sha256(data);
    d.truncate(k);
    d
}

/// Write `value` big-endian into exactly `width` bytes.
pub fn encode_len(value: u64, width: usize) -> (r: Vec<u8>)
    ensures
        r@ == spec_be_bytes(value as nat, width as nat),
        r@.len() == width,
{
    let mut buf: Vec<u8> = vec![0u8; width];
    let mut v: u64 = value;
    let mut i: usize = width;
    proof {
        lemma_be_bytes_len(value as nat, width as nat);
        assert(spec_be_bytes(value as nat, width as nat) =~= spec_be_bytes(
            v as nat,
            i as nat,
        ) + buf@.skip(i as int));
    }
    while i > 0
        invariant
            i <= width,
            buf@.len() == width,
            spec_be_bytes(value as nat, width as nat) == spec_be_bytes(v as nat, i as nat)
                + buf@.skip(i as int),
        decreases i,
    {
        let ghost old_buf = buf@;
        let ghost old_v = v as nat;
        let b: u8 = (v % 256) as u8;
        buf[i - 1] = b;
        v = v / 256;
        i = i - 1;
        proof {
            assert(spec_be_bytes(old_v, (i + 1) as nat) == spec_be_bytes(v as nat, i as nat).push(
                b,
            ));
            assert(buf@.skip(i as int) =~= seq![b] + old_buf.skip(i + 1));
            assert(spec_be_bytes(v as nat, i as nat) + buf@.skip(i as int) =~= spec_be_bytes(
                v as nat,
                i as nat,
            ).push(b) + old_buf.skip(i + 1));
        }
    }
    proof {
        assert(buf@.skip(0) =~= buf@);
    }
    buf
}

/// Read the unsigned big-endian value of at most eight bytes.
pub fn decode_len(bytes: &[u8]) -> (r: u64)
    requires
        bytes@.len() <= 8,
    ensures
        r as nat == spec_be_val(bytes@),
{
    let mut r: u64 = 0;
    let mut i: usize = 0;
    proof {
        assert(bytes@.take(0) =~= Seq::<u8>::empty());
    }
    while i < bytes.len()
        invariant
            i <= bytes@.len() <= 8,
            r as nat == spec_be_val(bytes@.take(i as int)),
            (r as nat) < pow256(i as nat),
        decreases bytes@.len() - i,
    {
        proof {
            lemma_be_val_bound(bytes@.take(i as int));
            lemma_pow256_le_u64((i + 1) as nat);
            assert(pow256((i + 1) as nat) == 256 * pow256(i as nat));
            assert(bytes@.take(i + 1).drop_last() =~= bytes@.take(i as int));
            assert(bytes@.take(i + 1).last() == bytes@[i as int]);
        }
        r = r * 256 + (bytes[i] as u64);
        i = i + 1;
    }
    proof {
        assert(bytes@.take(bytes@.len() as int) =~= bytes@);
    }
    r
}

} // verus!
