//! Frame codec: every message on the wire is a 4-byte big-endian length
//! prefix followed by that many payload bytes.
use vstd::prelude::*;

verus! {

/// The four big-endian bytes of a 32-bit length.
pub open spec fn be_bytes_of(n: u32) -> Seq<u8> {
    seq![
        (n / 0x1000000) as u8,
        ((n / 0x10000) % 0x100) as u8,
        ((n / 0x100) % 0x100) as u8,
        (n % 0x100) as u8,
    ]
}

/// The 32-bit value read back from four big-endian bytes.
pub open spec fn be_u32_of(s: Seq<u8>) -> u32
    recommends
        s.len() == 4,
{
    (s[0] * 0x1000000 + s[1] * 0x10000 + s[2] * 0x100 + s[3]) as u32
}

/// An encoded frame: length prefix, then the payload itself.
pub open spec fn frame_of(payload: Seq<u8>) -> Seq<u8> {
    be_bytes_of(payload.len() as u32) + payload
}

/// Encode one frame: the payload length as a 4-byte big-endian prefix,
/// followed by the payload bytes.
pub fn encode_frame(payload: &Vec<u8>) -> (r: Vec<u8>)
    requires
        payload@.len() <= u32::MAX,
    ensures
        r@ == frame_of(payload@),
        r@.len() == payload@.len() + 4,
{
    let n: u32 = payload.len() as u32;
    let mut r: Vec<u8> = Vec::new();
    r.push((n / 0x1000000) as u8);
    r.push(((n / 0x10000) % 0x100) as u8);
    r.push(((n / 0x100) % 0x100) as u8);
    r.push((n % 0x100) as u8);
    let mut i: usize = 0;
    while i < payload.len()
        invariant
            i <= payload@.len(),
            r@ == be_bytes_of(n) + payload@.subrange(0, i as int),
        decreases payload@.len() - i,
    {
        r.push(payload[i]);
        i = i + 1;
        proof {
            assert(payload@.subrange(0, i as int)
                == payload@.subrange(0, i - 1).push(payload@[i - 1]));
        }
    }
    proof {
        assert(payload@.subrange(0, payload@.len() as int) == payload@);
        assert(r@ == frame_of(payload@));
    }
    r
}

/// Read a frame length back out of its 4-byte big-endian prefix.
pub fn decode_len(header: &Vec<u8>) -> (r: u32)
    requires
        header@.len() == 4,
    ensures
        r == be_u32_of(header@),
{
    let b0 = header[0] as u32;
    let b1 = header[1] as u32;
    let b2 = header[2] as u32;
    let b3 = header[3] as u32;
    b0 * 0x1000000 + b1 * 0x10000 + b2 * 0x100 + b3
}

/// A length prefix decodes to the length it was built from, so a receiver
/// that reads the prefix of an encoded frame learns the exact payload size.
pub proof fn lemma_frame_round_trip(payload: Seq<u8>)
    requires
        payload.len() <= u32::MAX,
    ensures
        be_u32_of(frame_of(payload).subrange(0, 4)) == payload.len(),
        frame_of(payload).subrange(4, frame_of(payload).len() as int) == payload,
{
    let n = payload.len() as u32;
    let f = frame_of(payload);
    assert(f.subrange(0, 4) =~= be_bytes_of(n));
    assert(f.subrange(4, f.len() as int) =~= payload);
    assert(be_u32_of(be_bytes_of(n)) == n) by {
        assert((n / 0x1000000) * 0x1000000 + ((n / 0x10000) % 0x100) * 0x10000
            + ((n / 0x100) % 0x100) * 0x100 + (n % 0x100) == n) by (bit_vector);
    };
}

} // verus!
