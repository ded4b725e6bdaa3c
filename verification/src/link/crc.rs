//! CRC-32 (ISO-HDLC: the Ethernet / ZIP polynomial), appended big-endian.
use vstd::prelude::*;

verus! {

/// One bit of the reflected CRC-32 register: shift right, and XOR the
/// reflected polynomial 0xEDB88320 (0x04C11DB7 bit-reversed) when a one
/// bit falls out.
pub open spec fn crc32_shift(c: u32) -> u32 {
    if c & 1u32 == 1u32 {
        ((c >> 1u32) ^ 0xEDB8_8320u32) as u32
    } else {
        (c >> 1u32) as u32
    }
}

/// The register after taking in byte `b`, least significant bit first.
pub open spec fn crc32_byte(c: u32, b: u8) -> u32 {
    let x = (c ^ (b as u32)) as u32;
    crc32_shift(crc32_shift(crc32_shift(crc32_shift(crc32_shift(crc32_shift(crc32_shift(
        crc32_shift(x),
    )))))))
}

/// The register after taking in `data`, from the initial value 0xFFFFFFFF.
pub open spec fn crc32_register(data: Seq<u8>) -> u32
    decreases data.len(),
{
    if data.len() == 0 {
        0xFFFF_FFFFu32
    } else {
        crc32_byte(crc32_register(data.drop_last()), data.last())
    }
}

/// CRC-32/ISO-HDLC, the Ethernet and ZIP CRC: reflected input and output,
/// polynomial 0x04C11DB7, initial value and final XOR 0xFFFFFFFF.
#[verifier::opaque]
pub open spec fn crc32_iso_hdlc(data: Seq<u8>) -> u32 {
    (crc32_register(data) ^ 0xFFFF_FFFFu32) as u32
}

/// Calls `crc::Crc::<u32>::checksum` with the `CRC_32_ISO_HDLC` algorithm.
/// Claimed: the result is `crc32_iso_hdlc` of the bytes, the algorithm that
/// `crc-catalog` defines under that name (width 32, poly 0x04c11db7, init
/// 0xffffffff, refin and refout, xorout 0xffffffff; check value 0xcbf43926).
#[verifier::external_body]
fn crc32_checksum(data: &[u8]) -> (c: u32)
    ensures
        c == crc32_iso_hdlc(data@),
{
    crc::Crc::<u32>::new(&crc::CRC_32_ISO_HDLC).checksum(data)
}

/// `x` as four bytes, most significant first.
pub open spec fn be_bytes(x: u32) -> Seq<u8> {
    seq![(x >> 24u32) as u8, (x >> 16u32) as u8, (x >> 8u32) as u8, x as u8]
}

/// The big-endian value of four bytes.
pub open spec fn be_u32(b0: u8, b1: u8, b2: u8, b3: u8) -> u32 {
    ((b0 as u32) << 24u32) | ((b1 as u32) << 16u32) | ((b2 as u32) << 8u32) | (b3 as u32)
}

/// The big-endian value stored in the four bytes of `s` starting at `i`.
pub open spec fn be_u32_at(s: Seq<u8>, i: int) -> u32 {
    be_u32(s[i], s[i + 1], s[i + 2], s[i + 3])
}

/// Whether `crc_bytes` starts with the big-endian CRC-32 of `data`.
pub open spec fn crc_matches(data: Seq<u8>, crc_bytes: Seq<u8>) -> bool {
    crc_bytes.len() >= 4 && be_u32_at(crc_bytes, 0) == crc32_iso_hdlc(data)
}

/// `data` followed by its big-endian CRC-32.
pub open spec fn with_crc(data: Seq<u8>) -> Seq<u8> {
    data + be_bytes(crc32_iso_hdlc(data))
}

/// Reading four big-endian bytes back gives the value that was written.
pub proof fn lemma_be_roundtrip(x: u32)
    ensures
        be_u32(be_bytes(x)[0], be_bytes(x)[1], be_bytes(x)[2], be_bytes(x)[3]) == x,
{
    assert(((((x >> 24u32) as u8) as u32) << 24u32) | ((((x >> 16u32) as u8) as u32) << 16u32) | ((((
    x >> 8u32) as u8) as u32) << 8u32) | ((x as u8) as u32) == x) by (bit_vector);
}

/// Writing a big-endian value back as bytes gives the bytes that were read.
pub proof fn lemma_be_bytes_of_u32(b0: u8, b1: u8, b2: u8, b3: u8)
    ensures
        be_bytes(be_u32(b0, b1, b2, b3)) == seq![b0, b1, b2, b3],
{
    let x = be_u32(b0, b1, b2, b3);
    assert((((((b0 as u32) << 24u32) | ((b1 as u32) << 16u32) | ((b2 as u32) << 8u32) | (b3 as u32))
        >> 24u32) as u8) == b0) by (bit_vector);
    assert((((((b0 as u32) << 24u32) | ((b1 as u32) << 16u32) | ((b2 as u32) << 8u32) | (b3 as u32))
        >> 16u32) as u8) == b1) by (bit_vector);
    assert((((((b0 as u32) << 24u32) | ((b1 as u32) << 16u32) | ((b2 as u32) << 8u32) | (b3 as u32))
        >> 8u32) as u8) == b2) by (bit_vector);
    assert(((((b0 as u32) << 24u32) | ((b1 as u32) << 16u32) | ((b2 as u32) << 8u32) | (b3 as u32))
        as u8) == b3) by (bit_vector);
    assert(be_bytes(x) =~= seq![b0, b1, b2, b3]);
}

/// Read the big-endian `u32` at `i`.
pub(crate) fn read_be_u32(s: &[u8], i: usize) -> (x: u32)
    requires
        i + 4 <= s@.len(),
    ensures
        x == be_u32_at(s@, i as int),
{
    ((s[i] as u32) << 24) | ((s[i + 1] as u32) << 16) | ((s[i + 2] as u32) << 8) | (s[i + 3] as u32)
}

/// Append the big-endian bytes of `x`.
pub(crate) fn push_be_u32(v: &mut Vec<u8>, x: u32)
    ensures
        final(v)@ == old(v)@ + be_bytes(x),
{
    v.push((x >> 24) as u8);
    v.push((x >> 16) as u8);
    v.push((x >> 8) as u8);
    v.push(x as u8);
    assert(final(v)@ =~= old(v)@ + be_bytes(x));
}

/// The CRC-32 of `data`.
pub fn compute_crc32(data: &[u8]) -> (c: u32)
    ensures
        c == crc32_iso_hdlc(data@),
{
    crc32_checksum(data)
}

/// Append the big-endian CRC-32 of the current contents.
pub fn compute_and_append_crc(data: &mut Vec<u8>)
    ensures
        final(data)@ == with_crc(old(data)@),
{
    let crc = compute_crc32(data.as_slice());
    push_be_u32(data, crc);
}

/// Check the trailing four bytes as the big-endian CRC-32 of what precedes
/// them; on a match strip them and return true, else leave `data` as it was.
pub fn verify_and_strip_crc(data: &mut Vec<u8>) -> (ok: bool)
    ensures
        ok == (old(data)@.len() >= 4 && crc_matches(
            old(data)@.subrange(0, old(data)@.len() - 4),
            old(data)@.subrange(old(data)@.len() - 4, old(data)@.len() as int),
        )),
        ok ==> final(data)@ == old(data)@.subrange(0, old(data)@.len() - 4),
        !ok ==> final(data)@ == old(data)@,
{
    if data.len() < 4 {
        return false;
    }
    let payload_len = data.len() - 4;
    let stored_crc = read_be_u32(data.as_slice(), payload_len);
    let computed = compute_crc32(vstd::slice::slice_subrange(data.as_slice(), 0, payload_len));
    let ghost tail = data@.subrange(payload_len as int, data@.len() as int);
    assert(be_u32_at(tail, 0) == be_u32_at(data@, payload_len as int));
    if computed == stored_crc {
        data.truncate(payload_len);
        assert(data@ =~= old(data)@.subrange(0, old(data)@.len() - 4));
        true
    } else {
        false
    }
}

/// Whether the first four bytes of `crc_bytes` are the big-endian CRC-32 of
/// `data` (false when fewer than four bytes are given).
pub fn verify_crc32(data: &[u8], crc_bytes: &[u8]) -> (ok: bool)
    ensures
        ok == crc_matches(data@, crc_bytes@),
{
    if crc_bytes.len() < 4 {
        return false;
    }
    let stored = read_be_u32(crc_bytes, 0);
    compute_crc32(data) == stored
}

/// What `compute_and_append_crc` appends, `verify_and_strip_crc` accepts and
/// removes: the data comes back unchanged.
pub proof fn lemma_append_then_strip(data: Seq<u8>)
    ensures
        with_crc(data).len() >= 4,
        with_crc(data).subrange(0, with_crc(data).len() - 4) == data,
        crc_matches(
            with_crc(data).subrange(0, with_crc(data).len() - 4),
            with_crc(data).subrange(with_crc(data).len() - 4, with_crc(data).len() as int),
        ),
{
    let w = with_crc(data);
    assert(w.subrange(0, w.len() - 4) =~= data);
    assert(w.subrange(w.len() - 4, w.len() as int) =~= be_bytes(crc32_iso_hdlc(data)));
    lemma_be_roundtrip(crc32_iso_hdlc(data));
}

/// The big-endian CRC-32 of some data verifies against that data.
pub proof fn lemma_crc_bytes_verify(data: Seq<u8>)
    ensures
        crc_matches(data, be_bytes(crc32_iso_hdlc(data))),
{
    lemma_be_roundtrip(crc32_iso_hdlc(data));
}

} // verus!
