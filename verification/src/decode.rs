//! Chunk decoding for parsing received Bedrock subchunk data.

use vstd::prelude::*;
use crate::bytes::{le_value, read_le};
use crate::palette::{local_index, zeros};
use crate::chunk::{
    word_capacity, lemma_capacity, valid_bits, zero_blocks, bits_for, pack_word, packed_words,
    word_bytes, word_count, id_bytes, subchunk_encoding,
};
use crate::bytes::{le_bytes, lemma_le_roundtrip, lemma_le_bytes_len};
use crate::varint::{var_encoding, law_var_u32_roundtrip};
use crate::interaction::var_u32_at;
use crate::varint::{read_var_u32, var_decode, VarStatus, pow2_32};

verus! {

/// Decoded subchunk data.
#[derive(Debug, Clone)]
pub struct DecodedSubChunk {
    /// Version byte
    pub version: u8,
    /// Block palette (runtime IDs)
    pub palette: Vec<u32>,
    /// Decoded block indices (4096 entries)
    pub blocks: Vec<u16>,
}

/// Chunk decoding errors.
#[derive(Debug, Clone, PartialEq, Eq, Structural)]
pub enum ChunkDecodeError {
    UnexpectedEnd,
    UnsupportedStorageCount(u8),
    PaletteReadError,
    InvalidVersion(u8),
    UnsupportedBitsPerBlock(u8),
}

/// The message of a chunk decoding error.
pub open spec fn decode_error_text(e: ChunkDecodeError) -> Seq<char> {
    match e {
        ChunkDecodeError::UnexpectedEnd => "unexpected end of data"@,
        ChunkDecodeError::UnsupportedStorageCount(n) => "unsupported storage count: "@ + crate::text::digits(n as nat),
        ChunkDecodeError::PaletteReadError => "failed to read palette"@,
        ChunkDecodeError::InvalidVersion(v) => "invalid subchunk version: "@ + crate::text::digits(v as nat),
        ChunkDecodeError::UnsupportedBitsPerBlock(n) => "unsupported bits per block: "@ + crate::text::digits(n as nat),
    }
}

impl ChunkDecodeError {
    /// The error's message.
    pub fn message(&self) -> (r: String)
        ensures
            r@ == decode_error_text(*self),
    {
        match self {
            ChunkDecodeError::UnexpectedEnd => crate::text::owned("unexpected end of data"),
            ChunkDecodeError::UnsupportedStorageCount(n) => {
                let mut s = crate::text::owned("unsupported storage count: ");
                crate::text::push_digits(&mut s, *n as u64);
                s
            },
            ChunkDecodeError::PaletteReadError => crate::text::owned("failed to read palette"),
            ChunkDecodeError::InvalidVersion(v) => {
                let mut s = crate::text::owned("invalid subchunk version: ");
                crate::text::push_digits(&mut s, *v as u64);
                s
            },
            ChunkDecodeError::UnsupportedBitsPerBlock(n) => {
                let mut s = crate::text::owned("unsupported bits per block: ");
                crate::text::push_digits(&mut s, *n as u64);
                s
            },
        }
    }
}

/// The runtime id at block index `i`: the palette entry its index names,
/// 0 where the index or the entry is missing.
pub open spec fn lookup_block(palette: Seq<u32>, blocks: Seq<u16>, i: int) -> u32 {
    let pi = if 0 <= i < blocks.len() { blocks[i] as int } else { 0 };
    if pi < palette.len() { palette[pi] } else { 0 }
}

impl DecodedSubChunk {
    /// Get block runtime ID at local coordinates.
    pub fn get_block(&self, lx: u8, ly: u8, lz: u8) -> (r: u32)
        ensures
            r == lookup_block(self.palette@, self.blocks@, local_index(lx, ly, lz)),
    {
        let idx = Self::local_to_index(lx, ly, lz);
        let palette_idx: usize = if idx < self.blocks.len() { self.blocks[idx] as usize } else { 0 };
        if palette_idx < self.palette.len() {
            self.palette[palette_idx]
        } else {
            0
        }
    }

    fn local_to_index(lx: u8, ly: u8, lz: u8) -> (r: usize)
        ensures
            r == local_index(lx, ly, lz),
    {
        (ly as usize) * 16 * 16 + (lz as usize) * 16 + (lx as usize)
    }
}

/// How many words the decoder reads: enough for 4096 blocks at
/// `word_capacity(bpb)` blocks to a word.
pub open spec fn words_needed(bpb: nat) -> nat {
    word_count(4096, word_capacity(bpb))
}

/// The `t`-th word of the block data, little-endian after the three
/// header bytes.
pub open spec fn data_word(d: Seq<u8>, t: int) -> u32 {
    le_value(d.subrange(3 + 4 * t, 3 + 4 * t + 4)) as u32
}

/// The `j`-th field of `bpb` bits of a word.
pub open spec fn unpack(w: u32, bpb: nat, j: nat) -> u16 {
    ((w >> ((j * bpb) as u32)) & field_mask(bpb)) as u16
}

/// The low `bpb` bits set (all 32 for a width of 32 or more).
pub open spec fn field_mask(bpb: nat) -> u32 {
    if bpb >= 32 {
        0xffff_ffffu32
    } else {
        ((1u32 << (bpb as u32)) - 1) as u32
    }
}

/// The blocks read from the first `n` fields, `word_capacity(bpb)` fields
/// to a word.
pub open spec fn read_blocks(d: Seq<u8>, bpb: nat, n: nat) -> Seq<u16> {
    let k = word_capacity(bpb);
    Seq::new(n, |i: int| unpack(data_word(d, i / k as int), bpb, (i % k as int) as nat))
}

/// The decoded blocks: fields from the words read, zeros past them.
pub open spec fn decoded_blocks(d: Seq<u8>, bpb: nat) -> Seq<u16> {
    let k = word_capacity(bpb);
    let have = words_needed(bpb) * k;
    Seq::new(
        4096,
        |i: int|
            if i < have {
                unpack(data_word(d, i / k as int), bpb, (i % k as int) as nat)
            } else {
                0u16
            },
    )
}

/// `count` unsigned VarInts read one after another from `pos`.
pub open spec fn read_ids(d: Seq<u8>, pos: int, count: nat) -> Option<Seq<u32>>
    decreases count,
{
    if count == 0 {
        Some(Seq::empty())
    } else {
        let (v, n) = var_u32_at(d, pos);
        match v {
            None => None,
            Some(x) => match read_ids(d, pos + n, (count - 1) as nat) {
                Some(rest) => Some(seq![x] + rest),
                None => None,
            },
        }
    }
}

/// What decoding `d` gives: the version, the palette and the blocks, or
/// the error.
pub open spec fn decode_subchunk_spec(d: Seq<u8>) -> Result<(u8, Seq<u32>, Seq<u16>), ChunkDecodeError> {
    if d.len() < 2 {
        Err(ChunkDecodeError::UnexpectedEnd)
    } else if d[1] != 1 {
        Err(ChunkDecodeError::UnsupportedStorageCount(d[1]))
    } else if d.len() < 3 {
        Err(ChunkDecodeError::UnexpectedEnd)
    } else if d[2] == 0 {
        Ok((d[0], seq![0u32], zero_blocks()))
    } else if d[2] > 32 {
        Err(ChunkDecodeError::UnsupportedBitsPerBlock(d[2]))
    } else {
        let bpb = d[2] as nat;
        let p = 3 + 4 * words_needed(bpb);
        if p > d.len() {
            Err(ChunkDecodeError::UnexpectedEnd)
        } else {
            let (n, c) = var_u32_at(d, p as int);
            match n {
                None => Err(ChunkDecodeError::PaletteReadError),
                Some(n) => match read_ids(d, (p + c) as int, n as nat) {
                    None => Err(ChunkDecodeError::PaletteReadError),
                    Some(palette) => Ok((d[0], palette, decoded_blocks(d, bpb))),
                },
            }
        }
    }
}

/// The decoded subchunk as the value `decode_subchunk_spec` describes.
pub open spec fn decoded_view(s: DecodedSubChunk) -> (u8, Seq<u32>, Seq<u16>) {
    (s.version, s.palette@, s.blocks@)
}



proof fn lemma_mask(b: u32)
    requires
        b < 32,
    ensures
        (1u32 << b) >= 1,
{
    assert(b < 32 ==> (1u32 << b) >= 1) by (bit_vector);
}

/// Decode a subchunk from network format.
pub fn decode_subchunk(data: &[u8]) -> (r: Result<DecodedSubChunk, ChunkDecodeError>)
    ensures
        match r {
            Ok(s) => decode_subchunk_spec(data@) == Ok::<(u8, Seq<u32>, Seq<u16>), ChunkDecodeError>(
                decoded_view(s),
            ),
            Err(e) => decode_subchunk_spec(data@) == Err::<(u8, Seq<u32>, Seq<u16>), ChunkDecodeError>(
                e,
            ),
        },
{
    if data.len() < 2 {
        return Err(ChunkDecodeError::UnexpectedEnd);
    }
    let mut pos: usize = 0;
    let version = data[pos];
    pos = pos + 1;
    let num_storages = data[pos];
    pos = pos + 1;
    if num_storages != 1 {
        return Err(ChunkDecodeError::UnsupportedStorageCount(num_storages));
    }
    if data.len() < 3 {
        return Err(ChunkDecodeError::UnexpectedEnd);
    }
    let bits_byte = data[pos];
    let bits_per_block = bits_byte as usize;
    pos = pos + 1;
    if bits_per_block == 0 {
        let mut palette: Vec<u32> = Vec::new();
        palette.push(0);
        let blocks = zeros(4096);
        return Ok(DecodedSubChunk { version, palette, blocks });
    }
    if bits_per_block > 32 {
        return Err(ChunkDecodeError::UnsupportedBitsPerBlock(bits_byte));
    }
    proof {
        assert(1 <= 32usize / bits_per_block <= 32) by (nonlinear_arith)
            requires
                1 <= bits_per_block <= 32,
        ;
    }
    let blocks_per_word = 32 / bits_per_block;
    proof {
        assert((4096 + blocks_per_word - 1) as int / blocks_per_word as int <= 4096) by (nonlinear_arith)
            requires
                1 <= blocks_per_word,
        ;
    }
    let words = (4096 + blocks_per_word - 1) / blocks_per_word;
    let ghost bpb = bits_per_block as nat;
    let ghost k = word_capacity(bpb);
    let ghost d = data@;
    let b32 = bits_per_block as u32;
    let mask: u32 = if b32 >= 32 {
        0xffff_ffff
    } else {
        proof {
            lemma_mask(b32);
        }
        (1u32 << b32) - 1
    };
    let mut blocks: Vec<u16> = Vec::new();
    let mut t: usize = 0;
    while t < words
        invariant
            d == data@,
            d.len() >= 3,
            d[1] == 1,
            d[2] == bpb,
            version == d[0],
            1 <= bpb <= 32,
            b32 == bpb,
            bits_per_block == bpb,
            mask == field_mask(bpb),
            k == word_capacity(bpb),
            words == words_needed(bpb),
            words <= 4096,
            t <= words,
            pos == 3 + 4 * t,
            pos <= d.len(),
            blocks@.len() == (if t * k <= 4096 { t * k } else { 4096 }),
            blocks@ == read_blocks(d, bpb, blocks@.len()),
        decreases words - t,
    {
        if pos + 4 > data.len() {
            return Err(ChunkDecodeError::UnexpectedEnd);
        }
        let word = read_le(data, pos, 4) as u32;
        assert(word == data_word(d, t as int));
        pos = pos + 4;
        proof {
            lemma_capacity(bpb, 0);
        }
        let ghost start = blocks@.len();
        let mut bits_read: usize = 0;
        let ghost mut j: nat = 0;
        while bits_read + bits_per_block <= 32 && blocks.len() < 4096
            invariant
                d == data@,
                1 <= bpb <= 32,
                b32 == bpb,
                bits_per_block == bpb,
                mask == field_mask(bpb),
                k == word_capacity(bpb),
                word == data_word(d, t as int),
                j <= k,
                bits_read == j * bpb,
                bits_read <= 32,
                blocks@.len() == (if t * k + j <= 4096 { t * k + j } else { 4096 }),
                blocks@ == read_blocks(d, bpb, blocks@.len()),
            decreases k - j,
        {
            proof {
                lemma_capacity(bpb, j);
                lemma_capacity(bpb, j + 1);
                assert((j + 1) * bpb == j * bpb + bpb) by (nonlinear_arith);
                vstd::arithmetic::div_mod::lemma_fundamental_div_mod_converse(
                    (t * k + j) as int,
                    k as int,
                    t as int,
                    j as int,
                );
            }
            let idx = (word >> (bits_read as u32)) & mask;
            let ghost m = blocks@.len();
            blocks.push(idx as u16);
            proof {
                assert(blocks@ =~= read_blocks(d, bpb, (m + 1) as nat));
                j = j + 1;
            }
            bits_read = bits_read + bits_per_block;
        }
        proof {
            lemma_capacity(bpb, j);
            assert((t + 1) * k == t * k + k) by (nonlinear_arith);
        }
        t = t + 1;
    }
    let ghost have = blocks@.len();
    assert(blocks@ =~= decoded_blocks(d, bpb).take(have as int)) by {
        assert forall|i: int| 0 <= i < have implies blocks@[i] == decoded_blocks(d, bpb)[i] by {
            assert(i < words_needed(bpb) * k);
        }
    }
    while blocks.len() < 4096
        invariant
            d == data@,
            d.len() >= 3,
            d[1] == 1,
            d[2] == bpb,
            bpb >= 1,
            version == d[0],
            pos == 3 + 4 * words,
            pos <= d.len(),
            blocks@.len() <= 4096,
            blocks@.len() >= have,
            have == (if words * k <= 4096 { words * k } else { 4096 }),
            words == words_needed(bpb),
            k == word_capacity(bpb),
            blocks@ == decoded_blocks(d, bpb).take(blocks@.len() as int),
        decreases 4096 - blocks@.len(),
    {
        let ghost m = blocks@.len();
        blocks.push(0);
        assert(blocks@ =~= decoded_blocks(d, bpb).take((m + 1) as int));
    }
    assert(blocks@ =~= decoded_blocks(d, bpb));
    let ghost p0 = pos;
    let palette_len = match read_var_u32(data, &mut pos) {
        Ok(v) => v,
        Err(_) => {
            return Err(ChunkDecodeError::PaletteReadError);
        },
    };
    let ghost ids_start = pos;
    let ghost outcome = match read_ids(d, ids_start as int, palette_len as nat) {
        None => Err(ChunkDecodeError::PaletteReadError),
        Some(pal) => Ok((d[0], pal, decoded_blocks(d, bpb))),
    };
    assert(decode_subchunk_spec(d) == outcome);
    let mut palette: Vec<u32> = Vec::new();
    let mut i: u32 = 0;
    while i < palette_len
        invariant
            d == data@,
            decode_subchunk_spec(d) == outcome,
            outcome == (match read_ids(d, ids_start as int, palette_len as nat) {
                None => Err(ChunkDecodeError::PaletteReadError),
                Some(pal) => Ok((d[0], pal, decoded_blocks(d, bpb))),
            }),
            blocks@ == decoded_blocks(d, bpb),
            version == d[0],
            i <= palette_len,
            read_ids(d, ids_start as int, palette_len as nat) == (match read_ids(
                d,
                pos as int,
                (palette_len - i) as nat,
            ) {
                Some(rest) => Some(palette@ + rest),
                None => None,
            }),
        decreases palette_len - i,
    {
        let ghost before = pos;
        match read_var_u32(data, &mut pos) {
            Ok(id) => {
                proof {
                    let rest = read_ids(d, pos as int, (palette_len - i - 1) as nat);
                    if rest is Some {
                        assert(palette@.push(id) + rest->0 =~= palette@ + (seq![id] + rest->0));
                    }
                }
                palette.push(id);
            },
            Err(_) => {
                assert(read_ids(d, before as int, (palette_len - i) as nat) is None);
                return Err(ChunkDecodeError::PaletteReadError);
            },
        }
        i = i + 1;
    }
    assert(palette@ + Seq::<u32>::empty() =~= palette@);
    Ok(DecodedSubChunk { version, palette, blocks })
}


proof fn lemma_or_low(w: u32, x: u32, sc: u32, sj: u32, b: u32)
    requires
        w < (1u32 << sc),
        sj + b <= sc,
        sc < 32,
        1 <= b <= 16,
    ensures
        ((w | (x << sc)) >> sj) & (((1u32 << b) - 1) as u32) == (w >> sj) & (((1u32 << b) - 1) as u32),
{
    assert(((w | (x << sc)) >> sj) & (((1u32 << b) - 1) as u32) == (w >> sj) & (((1u32 << b) - 1) as u32))
        by (bit_vector)
        requires
            w < (1u32 << sc),
            sj + b <= sc,
            sc < 32,
            1 <= b <= 16,
    ;
}

proof fn lemma_or_high(w: u32, x: u32, sc: u32, b: u32)
    requires
        w < (1u32 << sc),
        x < (1u32 << b),
        sc + b <= 32,
        1 <= b <= 16,
    ensures
        ((w | (x << sc)) >> sc) & (((1u32 << b) - 1) as u32) == x,
{
    assert(((w | (x << sc)) >> sc) & (((1u32 << b) - 1) as u32) == x) by (bit_vector)
        requires
            w < (1u32 << sc),
            x < (1u32 << b),
            sc + b <= 32,
            1 <= b <= 16,
    ;
}

proof fn lemma_or_bound(w: u32, x: u32, sc: u32, b: u32)
    requires
        w < (1u32 << sc),
        x < (1u32 << b),
        sc + b < 32,
        1 <= b <= 16,
    ensures
        (w | (x << sc)) < (1u32 << ((sc + b) as u32)),
{
    assert((w | (x << sc)) < (1u32 << ((sc + b) as u32))) by (bit_vector)
        requires
            w < (1u32 << sc),
            x < (1u32 << b),
            sc + b < 32,
            1 <= b <= 16,
    ;
}

/// Every block of the range fits in `bpb` bits.
pub open spec fn fits_bits(b: Seq<u16>, s: int, c: nat, bpb: nat) -> bool {
    forall|i: int| s <= i < s + c ==> (#[trigger] b[i] as u32) < (1u32 << (bpb as u32))
}

proof fn lemma_pack_bound(b: Seq<u16>, s: int, c: nat, bpb: nat)
    requires
        1 <= bpb <= 16,
        c * bpb < 32,
        fits_bits(b, s, c, bpb),
    ensures
        pack_word(b, s, c, bpb) < (1u32 << ((c * bpb) as u32)),
    decreases c,
{
    if c == 0 {
        assert((0u32) < (1u32 << 0u32)) by (bit_vector);
        assert(c * bpb == 0) by (nonlinear_arith)
            requires
                c == 0,
        ;
        assert(((c * bpb) as u32) == 0u32);
    } else {
        let c1 = (c - 1) as nat;
        assert(c1 * bpb + bpb == c * bpb) by (nonlinear_arith)
            requires
                c1 == c - 1,
        ;
        lemma_pack_bound(b, s, c1, bpb);
        assert(s <= s + c1 < s + c);
        lemma_or_bound(pack_word(b, s, c1, bpb), b[s + c1] as u32, (c1 * bpb) as u32, bpb as u32);
        assert((((c1 * bpb) as u32) + (bpb as u32)) as u32 == (c * bpb) as u32);
        assert(pack_word(b, s, c, bpb) == pack_word(b, s, c1, bpb) | ((b[s + c1] as u32) << ((c1
            * bpb) as u32)));
    }
}

proof fn lemma_pack_unpack(b: Seq<u16>, s: int, c: nat, bpb: nat, j: nat)
    requires
        1 <= bpb <= 16,
        c * bpb <= 32,
        j < c,
        fits_bits(b, s, c, bpb),
    ensures
        unpack(pack_word(b, s, c, bpb), bpb, j) == b[s + j],
    decreases c,
{
    let c1 = (c - 1) as nat;
    assert(c1 * bpb + bpb == c * bpb) by (nonlinear_arith)
        requires
            c1 == c - 1,
    ;
    assert(fits_bits(b, s, c1, bpb));
    lemma_pack_bound(b, s, c1, bpb);
    let w = pack_word(b, s, c1, bpb);
    let x = b[s + c1] as u32;
    assert(s <= s + c1 < s + c);
    if j == c1 {
        lemma_or_high(w, x, (c1 * bpb) as u32, bpb as u32);
        assert((b[s + c1] as u32) as u16 == b[s + c1]);
    } else {
        assert(j * bpb + bpb <= c1 * bpb) by (nonlinear_arith)
            requires
                j < c1,
        ;
        lemma_or_low(w, x, (c1 * bpb) as u32, (j * bpb) as u32, bpb as u32);
        lemma_pack_unpack(b, s, c1, bpb, j);
    }
}

/// The bytes of word `t` in a run of little-endian words.
proof fn lemma_word_bytes_at(ws: Seq<u32>, t: int)
    requires
        0 <= t < ws.len(),
    ensures
        word_bytes(ws).len() == 4 * ws.len(),
        word_bytes(ws).subrange(4 * t, 4 * t + 4) == le_bytes(ws[t] as nat, 4),
    decreases ws.len(),
{
    lemma_le_bytes_len(ws.last() as nat, 4);
    if t < ws.len() - 1 {
        lemma_word_bytes_at(ws.drop_last(), t);
        assert(word_bytes(ws).subrange(4 * t, 4 * t + 4) =~= word_bytes(ws.drop_last()).subrange(
            4 * t,
            4 * t + 4,
        ));
    } else {
        lemma_word_bytes_len(ws.drop_last());
        assert(word_bytes(ws).subrange(4 * t, 4 * t + 4) =~= le_bytes(ws[t] as nat, 4));
    }
}

proof fn lemma_word_bytes_len(ws: Seq<u32>)
    ensures
        word_bytes(ws).len() == 4 * ws.len(),
    decreases ws.len(),
{
    if ws.len() > 0 {
        lemma_word_bytes_len(ws.drop_last());
        lemma_le_bytes_len(ws.last() as nat, 4);
    }
}

proof fn lemma_id_bytes_front(p: Seq<u32>)
    requires
        p.len() > 0,
    ensures
        id_bytes(p) == var_encoding(p[0] as nat) + id_bytes(p.drop_first()),
    decreases p.len(),
{
    if p.len() > 1 {
        lemma_id_bytes_front(p.drop_last());
        assert(p.drop_last().drop_first() =~= p.drop_first().drop_last());
        assert(p.drop_first().last() == p.last());
        assert(id_bytes(p) =~= var_encoding(p[0] as nat) + id_bytes(p.drop_first()));
    } else {
        assert(p.drop_last() =~= Seq::<u32>::empty());
        assert(p.drop_first() =~= Seq::<u32>::empty());
        assert(id_bytes(p) =~= var_encoding(p[0] as nat) + id_bytes(p.drop_first()));
    }
}

/// Reading back the ids written one after another gives them all.
proof fn lemma_read_ids(pre: Seq<u8>, p: Seq<u32>, post: Seq<u8>)
    ensures
        read_ids(pre + id_bytes(p) + post, pre.len() as int, p.len()) == Some(p),
    decreases p.len(),
{
    if p.len() == 0 {
        assert(p =~= Seq::<u32>::empty());
    } else {
        lemma_id_bytes_front(p);
        let e = var_encoding(p[0] as nat);
        let rest = p.drop_first();
        let whole = pre + id_bytes(p) + post;
        assert(whole =~= pre + e + (id_bytes(rest) + post));
        law_var_u32_roundtrip(pre, p[0], id_bytes(rest) + post);
        assert(whole =~= (pre + e) + id_bytes(rest) + post);
        lemma_read_ids(pre + e, rest, post);
        assert(seq![p[0]] + rest =~= p);
    }
}

/// The facts about a width that `bits_for` produces: its field mask is
/// `2^bpb - 1`, a word holds at least one field, and the words read cover
/// all 4096 blocks.
proof fn lemma_width(bpb: nat)
    requires
        valid_bits(bpb),
    ensures
        field_mask(bpb) as nat + 1 == vstd::arithmetic::power::pow(2, bpb),
        word_capacity(bpb) >= 1,
        word_capacity(bpb) * bpb <= 32,
        words_needed(bpb) * word_capacity(bpb) >= 4096,
        var_encoding(bpb) == seq![bpb as u8],
{
    reveal_with_fuel(vstd::arithmetic::power::pow, 17);
    assert((1u32 << 1u32) == 2 && (1u32 << 2u32) == 4 && (1u32 << 3u32) == 8 && (1u32 << 4u32)
        == 16 && (1u32 << 5u32) == 32 && (1u32 << 6u32) == 64 && (1u32 << 7u32) == 128 && (1u32
        << 8u32) == 256 && (1u32 << 16u32) == 65536) by (bit_vector);
    lemma_capacity(bpb, 0);
    let k = word_capacity(bpb);
    vstd::arithmetic::div_mod::lemma_fundamental_div_mod((4096 + k - 1) as int, k as int);
    let w = words_needed(bpb);
    let r = (4096 + k - 1) as int % k as int;
    assert(w * k >= 4096) by (nonlinear_arith)
        requires
            4096 + k - 1 == k * w + r,
            0 <= r < k,
    ;
}

/// Decoding what `encode_subchunk` writes gives back version 8, the
/// palette and the blocks, for a subchunk of 4096 blocks that all index
/// its palette.
pub proof fn law_subchunk_roundtrip(palette: Seq<u32>, blocks: Seq<u16>)
    requires
        blocks.len() == 4096,
        palette.len() < pow2_32(),
        forall|i: int| 0 <= i < 4096 ==> (blocks[i] as nat) < palette.len(),
    ensures
        decode_subchunk_spec(subchunk_encoding(palette, blocks)) == Ok::<
            (u8, Seq<u32>, Seq<u16>),
            ChunkDecodeError,
        >((8u8, palette, blocks)),
{
    let bpb = bits_for(palette.len());
    lemma_width(bpb);
    assert(valid_bits(bpb));
    let k = word_capacity(bpb);
    let w = words_needed(bpb);
    let ws = packed_words(blocks, bpb);
    let wb = word_bytes(ws);
    let hdr = seq![8u8, 1u8] + var_encoding(bpb);
    let plen = palette.len() as u32;
    assert((palette.len() % pow2_32()) as nat == plen as nat);
    let e = subchunk_encoding(palette, blocks);
    assert(e =~= hdr + wb + var_encoding(plen as nat) + id_bytes(palette));
    lemma_word_bytes_len(ws);
    assert(ws.len() == w);
    assert(hdr.len() == 3);
    assert(e[0] == 8 && e[1] == 1 && e[2] == bpb);
    assert forall|i: int| 0 <= i < 4096 implies (#[trigger] blocks[i] as u32) < (1u32 << (
    bpb as u32)) by {
        reveal_with_fuel(vstd::arithmetic::power::pow, 17);
        lemma_mask(bpb as u32);
        assert(blocks[i] as u32 <= field_mask(bpb));
    }
    assert forall|i: int| 0 <= i < 4096 implies #[trigger] decoded_blocks(e, bpb)[i] == blocks[i] by {
        let t = i / k as int;
        let j = i % k as int;
        vstd::arithmetic::div_mod::lemma_fundamental_div_mod(i, k as int);
        assert(0 <= t < w && t * k <= i) by (nonlinear_arith)
            requires
                i == k * t + j,
                0 <= j < k,
                0 <= i < 4096,
                w * k >= 4096,
                k > 0,
        ;
        assert(t * k == k * t) by (nonlinear_arith);
        let cnt: nat = if t * k + k <= 4096 { k } else { (4096 - t * k) as nat };
        assert(j < cnt && cnt * bpb <= 32) by (nonlinear_arith)
            requires
                i == t * k + j,
                0 <= j < k,
                i < 4096,
                cnt == (if t * k + k <= 4096 { k } else { (4096 - t * k) as nat }),
                k * bpb <= 32,
        ;
        lemma_word_bytes_at(ws, t);
        assert(e.subrange(3 + 4 * t, 3 + 4 * t + 4) =~= wb.subrange(4 * t, 4 * t + 4));
        lemma_le_roundtrip(ws[t] as nat, 4);
        reveal_with_fuel(vstd::arithmetic::power::pow, 5);
        assert(vstd::arithmetic::power::pow(256, 4) == 0x1_0000_0000);
        vstd::arithmetic::div_mod::lemma_small_mod(ws[t] as nat, 0x1_0000_0000);
        assert(le_value(le_bytes(ws[t] as nat, 4)) == ws[t] as nat);
        assert(e.subrange(3 + 4 * t, 3 + 4 * t + 4) == le_bytes(ws[t] as nat, 4));
        assert(data_word(e, t) == ws[t]);
        assert(ws[t] == pack_word(blocks, t * k, cnt, bpb));
        assert(fits_bits(blocks, t * k, cnt, bpb));
        lemma_pack_unpack(blocks, t * k, cnt, bpb, j as nat);
    }
    assert(decoded_blocks(e, bpb) =~= blocks);
    let pre = hdr + wb;
    assert(pre.len() == 3 + 4 * w);
    law_var_u32_roundtrip(pre, plen, id_bytes(palette));
    lemma_read_ids(pre + var_encoding(plen as nat), palette, Seq::empty());
    assert(pre + var_encoding(plen as nat) + id_bytes(palette) + Seq::<u8>::empty() =~= e);
}

} // verus!
