//! Bedrock "batched packet" framing.
//!
//! After the RakNet handshake completes, game packets are wrapped in a
//! single 0xfe frame that contains multiple length-prefixed packets.
//! Only the uncompressed path is implemented.
//!
//! ```text
//!   [0xfe] [varint len] [packet bytes], repeated
//! ```

use vstd::prelude::*;
use crate::varint::{lemma_var_decode_within, read_var_u32, write_var_u32, var_decode, var_encoding, VarStatus, pow2_32, law_var_u32_roundtrip};
use crate::bytes::append_bytes;

verus! {

/// Payload size beyond which a batch should be compressed (compression is
/// not enabled).
pub const COMPRESSION_THRESHOLD: usize = 256;

#[derive(Debug, Clone, Copy, PartialEq, Eq, Structural)]
pub enum BatchError {
    Empty,
    BadMagic(u8),
    Truncated,
}

/// One packet inside a batch: its length as a VarInt, then its bytes.
pub open spec fn batch_entry(p: Seq<u8>) -> Seq<u8> {
    var_encoding((p.len() % pow2_32()) as nat) + p
}

pub open spec fn batch_entries(ps: Seq<Seq<u8>>) -> Seq<u8>
    decreases ps.len(),
{
    if ps.len() == 0 {
        Seq::empty()
    } else {
        batch_entries(ps.drop_last()) + batch_entry(ps.last())
    }
}

/// The bytes of a batch: 0xfe, then each packet with its length.
pub open spec fn batch_encoding(ps: Seq<Seq<u8>>) -> Seq<u8> {
    seq![0xfeu8] + batch_entries(ps)
}

/// The packets of the entries from `pos` to the end of `s`.
pub open spec fn decode_entries(s: Seq<u8>, pos: int) -> Result<Seq<Seq<u8>>, BatchError>
    decreases s.len() - pos,
{
    if pos < 0 || pos >= s.len() {
        Ok(Seq::empty())
    } else {
        let d = var_decode(s, pos, 5);
        let cur = pos + d.1;
        let len = d.2 % pow2_32();
        if d.0 != VarStatus::Done || d.1 == 0 {
            Err(BatchError::Truncated)
        } else if cur + len > s.len() {
            Err(BatchError::Truncated)
        } else {
            match decode_entries(s, cur + len) {
                Ok(rest) => Ok(seq![s.subrange(cur, cur + len)] + rest),
                Err(e) => Err(e),
            }
        }
    }
}

/// Decoding a batch: the packets it holds, or the error.
pub open spec fn decode_batch_spec(raw: Seq<u8>) -> Result<Seq<Seq<u8>>, BatchError> {
    if raw.len() == 0 {
        Err(BatchError::Empty)
    } else if raw[0] != 0xfe {
        Err(BatchError::BadMagic(raw[0]))
    } else {
        decode_entries(raw, 1)
    }
}

/// The byte views of borrowed packets.
pub open spec fn slice_views(v: Seq<&[u8]>) -> Seq<Seq<u8>> {
    v.map_values(|x: &[u8]| x@)
}

/// The byte views of owned packets.
pub open spec fn vec_views(v: Seq<Vec<u8>>) -> Seq<Seq<u8>> {
    v.map_values(|x: Vec<u8>| x@)
}

/// Encode a batch of pre-encoded Bedrock packets into a 0xfe wrapper
/// (uncompressed). Each inner packet is prefixed with its length as an
/// unsigned VarInt.
pub fn encode_batch(packets: &[Vec<u8>]) -> (r: Vec<u8>)
    ensures
        r@ == batch_encoding(vec_views(packets@)),
{
    let mut body: Vec<u8> = Vec::new();
    let mut i: usize = 0;
    while i < packets.len()
        invariant
            i <= packets@.len(),
            body@ == batch_entries(vec_views(packets@).take(i as int)),
        decreases packets@.len() - i,
    {
        let pkt = &packets[i];
        let n = pkt.len() as u64;
        let low = (n & 0xffff_ffff) as u32;
        assert(low as nat == n % 0x1_0000_0000) by (bit_vector)
            requires low == (n & 0xffff_ffff) as u32;
        write_var_u32(&mut body, low);
        append_bytes(&mut body, pkt.as_slice());
        proof {
            let vs = vec_views(packets@);
            assert(vs.take(i + 1).drop_last() == vs.take(i as int));
            assert(vs.take(i + 1).last() == pkt@);
        }
        i = i + 1;
    }
    assert(vec_views(packets@).take(i as int) == vec_views(packets@));
    let mut out = Vec::new();
    out.push(0xfe);
    append_bytes(&mut out, body.as_slice());
    out
}

/// Decode an uncompressed 0xfe batch into individual packet bodies.
/// The returned slices include the packet ID byte but not the length
/// prefix.
pub fn decode_batch(raw: &[u8]) -> (r: Result<Vec<&[u8]>, BatchError>)
    ensures
        match decode_batch_spec(raw@) {
            Ok(ps) => r matches Ok(v) && slice_views(v@) == ps,
            Err(e) => r == Err::<Vec<&[u8]>, BatchError>(e),
        },
{
    if raw.len() == 0 {
        return Err(BatchError::Empty);
    }
    if raw[0] != 0xfe {
        return Err(BatchError::BadMagic(raw[0]));
    }
    let mut pos: usize = 1;
    let mut out: Vec<&[u8]> = Vec::new();
    while pos < raw.len()
        invariant
            1 <= pos <= raw@.len(),
            raw@.len() > 0 && raw@[0] == 0xfe,
            decode_batch_spec(raw@) == match decode_entries(raw@, pos as int) {
                Ok(rest) => Ok::<Seq<Seq<u8>>, BatchError>(slice_views(out@) + rest),
                Err(e) => Err::<Seq<Seq<u8>>, BatchError>(e),
            },
        decreases raw@.len() - pos,
    {
        let mut cur = pos;
        proof {
            lemma_var_decode_within(raw@, pos as int, 5);
        }
        let len = match read_var_u32(raw, &mut cur) {
            Ok(v) => v as usize,
            Err(_) => {
                return Err(BatchError::Truncated);
            },
        };
        if len > raw.len() - cur {
            return Err(BatchError::Truncated);
        }
        let ghost old_out = out@;
        out.push(&raw[cur..cur + len]);
        proof {
            assert(slice_views(out@) == slice_views(old_out).push(raw@.subrange(cur as int, cur + len)));
            let rest = decode_entries(raw@, cur + len);
            if rest is Ok {
                assert(slice_views(old_out) + (seq![raw@.subrange(cur as int, cur + len)] + rest->Ok_0)
                    == slice_views(out@) + rest->Ok_0);
            }
        }
        pos = cur + len;
    }
    assert(slice_views(out@) + Seq::<Seq<u8>>::empty() == slice_views(out@));
    Ok(out)
}

proof fn lemma_batch_entries_front(p: Seq<u8>, ps: Seq<Seq<u8>>)
    ensures
        batch_entries(seq![p] + ps) == batch_entry(p) + batch_entries(ps),
    decreases ps.len(),
{
    if ps.len() == 0 {
        assert((seq![p] + ps).drop_last() =~= Seq::<Seq<u8>>::empty());
        assert((seq![p] + ps).last() == p);
        assert(batch_entries(Seq::<Seq<u8>>::empty()) == Seq::<u8>::empty());
        assert(batch_entries(ps) == Seq::<u8>::empty());
        assert(batch_entries(seq![p] + ps) =~= batch_entry(p) + batch_entries(ps));
    } else {
        assert((seq![p] + ps).drop_last() =~= seq![p] + ps.drop_last());
        lemma_batch_entries_front(p, ps.drop_last());
        assert(batch_entries(seq![p] + ps) =~= batch_entry(p) + batch_entries(ps));
    }
}

proof fn lemma_entries_roundtrip(pre: Seq<u8>, ps: Seq<Seq<u8>>)
    requires
        forall|i: int| 0 <= i < ps.len() ==> (#[trigger] ps[i]).len() < pow2_32(),
    ensures
        decode_entries(pre + batch_entries(ps), pre.len() as int) == Ok::<Seq<Seq<u8>>, BatchError>(ps),
    decreases ps.len(),
{
    let s = pre + batch_entries(ps);
    if ps.len() == 0 {
        assert(s.len() == pre.len());
        assert(ps =~= Seq::<Seq<u8>>::empty());
    } else {
        let p = ps[0];
        let rest = ps.drop_first();
        assert(ps == seq![p] + rest);
        lemma_batch_entries_front(p, rest);
        assert(p.len() < pow2_32());
        vstd::arithmetic::div_mod::lemma_small_mod(p.len(), pow2_32());
        law_var_u32_roundtrip(pre, p.len() as u32, p + batch_entries(rest));
        let e = var_encoding(p.len());
        assert(s == pre + e + (p + batch_entries(rest)));
        let cur = pre.len() + e.len();
        assert(s.subrange(cur as int, (cur + p.len()) as int) == p);
        let pre2 = pre + batch_entry(p);
        assert(s == pre2 + batch_entries(rest));
        assert forall|i: int| 0 <= i < rest.len() implies (#[trigger] rest[i]).len() < pow2_32() by {
            assert(rest[i] == ps[i + 1]);
        }
        lemma_entries_roundtrip(pre2, rest);
    }
}

/// Decoding an encoded batch gives its packets back, when each is shorter
/// than 2^32 bytes.
pub proof fn law_batch_roundtrip(ps: Seq<Seq<u8>>)
    requires
        forall|i: int| 0 <= i < ps.len() ==> (#[trigger] ps[i]).len() < pow2_32(),
    ensures
        decode_batch_spec(batch_encoding(ps)) == Ok::<Seq<Seq<u8>>, BatchError>(ps),
{
    lemma_entries_roundtrip(seq![0xfeu8], ps);
}

} // verus!
