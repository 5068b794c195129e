//! Little-endian counters packed into the opaque tag bytes of an edge.
use vstd::prelude::*;

verus! {

/// The value of the first four bytes of `b`, read little-endian.
pub open spec fn le_u32_value(b: Seq<u8>) -> nat
    recommends
        b.len() >= 4,
{
    (b[0] as nat) + 256 * (b[1] as nat) + 65536 * (b[2] as nat) + 16777216 * (b[3] as nat)
}

/// The value of the first eight bytes of `b`, read little-endian.
pub open spec fn le_u64_value(b: Seq<u8>) -> nat
    recommends
        b.len() >= 8,
{
    le_u32_value(b) + 4294967296 * le_u32_value(b.subrange(4, 8))
}

/// The product count that an edge tag carries: its first four bytes read
/// little-endian, or zero for a tag too short to hold a count.
pub open spec fn tag_count(tag: Seq<u8>) -> nat {
    if tag.len() >= 4 {
        le_u32_value(tag)
    } else {
        0
    }
}

/// The tag that carries the count `n`: its four little-endian bytes.
pub open spec fn count_tag(n: u32) -> Seq<u8> {
    seq![(n % 256) as u8, (n / 256 % 256) as u8, (n / 65536 % 256) as u8, (n / 16777216) as u8]
}

/// The four little-endian bytes of `n`.
pub fn encode_count(n: u32) -> (r: Vec<u8>)
    ensures
        r@ == count_tag(n),
        le_u32_value(r@) == n as nat,
        tag_count(r@) == n as nat,
{
    let w0: u32 = n & 0xff;
    let w1: u32 = (n >> 8u32) & 0xff;
    let w2: u32 = (n >> 16u32) & 0xff;
    let w3: u32 = (n >> 24u32) & 0xff;
    assert(w0 < 256 && w1 < 256 && w2 < 256 && w3 < 256 && n == w0 + 256 * w1 + 65536 * w2
        + 16777216 * w3 && w0 == n % 256 && w1 == n / 256 % 256 && w2 == n / 65536 % 256 && w3
        == n / 16777216) by (bit_vector)
        requires
            w0 == n & 0xff,
            w1 == (n >> 8u32) & 0xff,
            w2 == (n >> 16u32) & 0xff,
            w3 == (n >> 24u32) & 0xff,
    ;
    let b0 = w0 as u8;
    let b1 = w1 as u8;
    let b2 = w2 as u8;
    let b3 = w3 as u8;
    let r = vec![b0, b1, b2, b3];
    assert(r@ =~= count_tag(n));
    r
}

/// The four bytes of `b` from `at`, read little-endian.
fn read_u32_le(b: &[u8], at: usize) -> (r: u32)
    requires
        at + 4 <= b@.len(),
    ensures
        r as nat == le_u32_value(b@.subrange(at as int, at + 4)),
{
    let b0 = b[at] as u32;
    let b1 = b[at + 1] as u32;
    let b2 = b[at + 2] as u32;
    let b3 = b[at + 3] as u32;
    assert((b0 | (b1 << 8u32) | (b2 << 16u32) | (b3 << 24u32)) == b0 + 256 * b1 + 65536 * b2
        + 16777216 * b3) by (bit_vector)
        requires
            b0 < 256 && b1 < 256 && b2 < 256 && b3 < 256,
    ;
    b0 | (b1 << 8u32) | (b2 << 16u32) | (b3 << 24u32)
}

/// Reads the product count out of an edge tag. A tag of fewer than four
/// bytes is malformed and reads as zero; bytes past the fourth are ignored.
pub fn decode_count(tag: &[u8]) -> (r: u32)
    ensures
        r as nat == tag_count(tag@),
{
    if tag.len() < 4 {
        return 0;
    }
    read_u32_le(tag, 0)
}

/// The eight little-endian bytes of `n`.
pub open spec fn u64_tag(n: u64) -> Seq<u8> {
    count_tag((n % 0x1_0000_0000) as u32) + count_tag((n / 0x1_0000_0000) as u32)
}

/// The eight bytes of `b` from `at`, read little-endian.
fn read_u64_le(b: &[u8], at: usize) -> (r: u64)
    requires
        at + 8 <= b@.len(),
    ensures
        r as nat == le_u64_value(b@.subrange(at as int, at + 8)),
{
    let lo = read_u32_le(b, at) as u64;
    // The slice's length is a `usize`, so `at + 4` cannot overflow.
    let _len = b.len();
    let hi = read_u32_le(b, at + 4) as u64;
    assert(b@.subrange(at as int, at + 8).subrange(4, 8) =~= b@.subrange(at + 4, at + 8));
    assert(b@.subrange(at as int, at + 8).subrange(0, 4) =~= b@.subrange(at as int, at + 4));
    assert(lo | (hi << 32u64) == lo + 0x1_0000_0000 * hi) by (bit_vector)
        requires
            lo < 0x1_0000_0000 && hi < 0x1_0000_0000,
    ;
    lo | (hi << 32u64)
}

fn encode_u64(n: u64) -> (r: Vec<u8>)
    ensures
        r@ == u64_tag(n),
{
    let lo = (n & 0xffff_ffff) as u32;
    let hi = (n >> 32u64) as u32;
    assert((n & 0xffff_ffff) == n % 0x1_0000_0000 && (n >> 32u64) == n / 0x1_0000_0000)
        by (bit_vector);
    let mut r = encode_count(lo);
    let mut high = encode_count(hi);
    r.append(&mut high);
    r
}

/// A cart line's quantity and the time it was last changed, packed into
/// sixteen tag bytes. The quantity is kept as the IEEE-754 double-precision
/// bit pattern of the amount, so unit counts and weights both fit.
pub struct CartQuantityTag {
    pub quantity_bits: u64,
    pub timestamp: u64,
}

impl CartQuantityTag {
    /// The quantity's eight little-endian bytes, then the timestamp's.
    pub fn to_bytes(&self) -> (r: Vec<u8>)
        ensures
            r@ == u64_tag(self.quantity_bits) + u64_tag(self.timestamp),
    {
        let mut r = encode_u64(self.quantity_bits);
        let mut time = encode_u64(self.timestamp);
        r.append(&mut time);
        r
    }

    /// The quantity's bit pattern and the timestamp read back from a tag;
    /// both zero for a tag of fewer than sixteen bytes.
    pub fn from_bytes(bytes: &[u8]) -> (r: (u64, u64))
        ensures
            bytes@.len() >= 16 ==> r.0 as nat == le_u64_value(bytes@.subrange(0, 8)) && r.1 as nat
                == le_u64_value(bytes@.subrange(8, 16)),
            bytes@.len() < 16 ==> r == (0u64, 0u64),
    {
        if bytes.len() < 16 {
            return (0, 0);
        }
        (read_u64_le(bytes, 0), read_u64_le(bytes, 8))
    }
}

/// Reading back the eight bytes of `n` gives `n`.
pub proof fn lemma_u64_round_trip(n: u64)
    ensures
        le_u64_value(u64_tag(n)) == n as nat,
{
    let lo = (n % 0x1_0000_0000) as u32;
    let hi = (n / 0x1_0000_0000) as u32;
    let t = u64_tag(n);
    lemma_count_round_trip(lo);
    lemma_count_round_trip(hi);
    assert(t.subrange(0, 4) =~= count_tag(lo));
    assert(t.subrange(4, 8) =~= count_tag(hi));
    assert(le_u32_value(t) == le_u32_value(t.subrange(0, 4)));
}

/// A cart tag read back gives the quantity and timestamp it was written
/// with.
pub proof fn lemma_cart_tag_round_trip(quantity_bits: u64, timestamp: u64)
    ensures
        ({
            let b = u64_tag(quantity_bits) + u64_tag(timestamp);
            &&& b.len() == 16
            &&& le_u64_value(b.subrange(0, 8)) == quantity_bits as nat
            &&& le_u64_value(b.subrange(8, 16)) == timestamp as nat
        }),
{
    let b = u64_tag(quantity_bits) + u64_tag(timestamp);
    assert(b.subrange(0, 8) =~= u64_tag(quantity_bits));
    assert(b.subrange(8, 16) =~= u64_tag(timestamp));
    lemma_u64_round_trip(quantity_bits);
    lemma_u64_round_trip(timestamp);
}

/// The count read back from a tag is the count it was written with.
pub proof fn lemma_count_round_trip(n: u32)
    ensures
        tag_count(count_tag(n)) == n as nat,
{
    let t = count_tag(n);
    assert(le_u32_value(t) == n as nat) by (nonlinear_arith)
        requires
            t == count_tag(n),
            t.len() == 4,
            t[0] == (n % 256) as u8,
            t[1] == (n / 256 % 256) as u8,
            t[2] == (n / 65536 % 256) as u8,
            t[3] == (n / 16777216) as u8,
    ;
}

} // verus!
