//! Bedrock chunk encoding for network transmission.
//!
//! A chunk column is sixteen 16x16x16 subchunks. Each subchunk keeps a
//! palette of runtime ids and, for each of its 4096 blocks, an index into
//! that palette; on the wire the indices are packed into 32-bit words.

use vstd::prelude::*;
use crate::palette::{
    palette_with, palette_index, find_first, local_index, place, fill, palette_fold, visit_order,
    zeros,
};
use crate::bytes::{le_bytes, push_le};
use crate::varint::{var_encoding, write_var_u32, write_var_i32, pow2_32, zigzag32};
use crate::codec::{write_packet, packet_bytes};
use crate::packet_id;

verus! {

/// Number of blocks in a subchunk.
pub const SUBCHUNK_BLOCKS: usize = 4096;

/// A 16x16x16 subchunk for network encoding.
#[derive(Debug, Clone)]
pub struct SubChunk {
    /// Block palette mapping indices to runtime IDs
    pub palette: Vec<u32>,
    /// Block data stored as indices into palette (4096 entries for 16^3)
    pub blocks: Vec<u16>,
}

/// 4096 zero indices.
pub open spec fn zero_blocks() -> Seq<u16> {
    Seq::new(4096, |i: int| 0u16)
}


impl SubChunk {
    /// Create a new empty (air) subchunk.
    pub fn new() -> (r: Self)
        ensures
            r.palette@ == seq![0u32],
            r.blocks@ == zero_blocks(),
    {
        let mut palette: Vec<u32> = Vec::new();
        palette.push(0);
        SubChunk { palette, blocks: zeros(SUBCHUNK_BLOCKS) }
    }

    /// Create a subchunk filled with a single block type.
    pub fn filled(runtime_id: u32) -> (r: Self)
        ensures
            r.palette@ == seq![runtime_id],
            r.blocks@ == zero_blocks(),
    {
        let mut palette: Vec<u32> = Vec::new();
        palette.push(runtime_id);
        SubChunk { palette, blocks: zeros(SUBCHUNK_BLOCKS) }
    }

    fn local_to_index(lx: u8, ly: u8, lz: u8) -> (r: usize)
        ensures
            r == local_index(lx, ly, lz),
    {
        (ly as usize) * 16 * 16 + (lz as usize) * 16 + (lx as usize)
    }

    /// Set block at local coordinates (0-15): the id joins the palette if
    /// it is missing, and the block takes its palette index.
    pub fn set_block(&mut self, lx: u8, ly: u8, lz: u8, runtime_id: u32)
        requires
            local_index(lx, ly, lz) < old(self).blocks@.len(),
        ensures
            final(self).palette@ == palette_with(old(self).palette@, runtime_id),
            final(self).blocks@ == old(self).blocks@.update(
                local_index(lx, ly, lz),
                palette_index(old(self).palette@, runtime_id) as u16,
            ),
    {
        let idx = Self::local_to_index(lx, ly, lz);
        place(&mut self.palette, &mut self.blocks, idx, runtime_id);
    }
}

impl Default for SubChunk {
    fn default() -> (r: Self)
        ensures
            r.palette@ == seq![0u32],
            r.blocks@ == zero_blocks(),
    {
        Self::new()
    }
}

/// Bits per block needed for a palette of the given size.
pub open spec fn bits_for(palette_size: nat) -> nat {
    if palette_size <= 2 {
        1
    } else if palette_size <= 4 {
        2
    } else if palette_size <= 8 {
        3
    } else if palette_size <= 16 {
        4
    } else if palette_size <= 32 {
        5
    } else if palette_size <= 64 {
        6
    } else if palette_size <= 128 {
        7
    } else if palette_size <= 256 {
        8
    } else {
        16
    }
}

/// Calculate bits per block needed for given palette size.
pub fn calculate_bits_per_block(palette_size: usize) -> (r: usize)
    ensures
        r == bits_for(palette_size as nat),
{
    if palette_size <= 1 {
        1
    } else if palette_size <= 2 {
        1
    } else if palette_size <= 4 {
        2
    } else if palette_size <= 8 {
        3
    } else if palette_size <= 16 {
        4
    } else if palette_size <= 32 {
        5
    } else if palette_size <= 64 {
        6
    } else if palette_size <= 128 {
        7
    } else if palette_size <= 256 {
        8
    } else {
        16
    }
}


/// The bit widths that `bits_for` produces.
pub open spec fn valid_bits(bpb: nat) -> bool {
    (1 <= bpb <= 8) || bpb == 16
}

/// How many blocks go into one 32-bit word: as many whole fields of
/// `bpb` bits as fit; no block straddles two words.
pub open spec fn word_capacity(bpb: nat) -> nat {
    (32nat / bpb) as nat
}

/// Number of words for `n` blocks, `k` to a word.
pub open spec fn word_count(n: nat, k: nat) -> nat {
    ((n + k - 1) as int / k as int) as nat
}

/// The word holding `count` blocks from `start`: the j-th is shifted
/// left by `j * bpb` bits, cut to 32 bits, and or-ed in.
pub open spec fn pack_word(b: Seq<u16>, start: int, count: nat, bpb: nat) -> u32
    decreases count,
{
    if count == 0 {
        0
    } else {
        pack_word(b, start, (count - 1) as nat, bpb) | ((b[start + count - 1] as u32) << (((
        count - 1) * bpb) as u32))
    }
}

/// The words that pack the blocks `b`.
pub open spec fn packed_words(b: Seq<u16>, bpb: nat) -> Seq<u32> {
    let k = word_capacity(bpb);
    Seq::new(
        word_count(b.len(), k),
        |w: int|
            pack_word(b, w * k, if w * k + k <= b.len() { k } else { (b.len() - w * k) as nat }, bpb),
    )
}

/// Words as bytes, each little-endian.
pub open spec fn word_bytes(ws: Seq<u32>) -> Seq<u8>
    decreases ws.len(),
{
    if ws.len() == 0 {
        Seq::empty()
    } else {
        word_bytes(ws.drop_last()) + le_bytes(ws.last() as nat, 4)
    }
}

/// Runtime ids as consecutive unsigned VarInts.
pub open spec fn id_bytes(p: Seq<u32>) -> Seq<u8>
    decreases p.len(),
{
    if p.len() == 0 {
        Seq::empty()
    } else {
        id_bytes(p.drop_last()) + var_encoding(p.last() as nat)
    }
}

/// A subchunk on the wire (version 8, one storage): the bits per block,
/// the packed words, the palette size and the palette's ids.
pub open spec fn subchunk_encoding(palette: Seq<u32>, blocks: Seq<u16>) -> Seq<u8> {
    let bpb = bits_for(palette.len());
    seq![8u8, 1u8] + var_encoding(bpb) + word_bytes(packed_words(blocks, bpb)) + var_encoding(
        palette.len() % pow2_32(),
    ) + id_bytes(palette)
}

proof fn lemma_word_bytes_push(ws: Seq<u32>, x: u32)
    ensures
        word_bytes(ws.push(x)) == word_bytes(ws) + le_bytes(x as nat, 4),
{
    assert(ws.push(x).drop_last() =~= ws);
}

proof fn lemma_id_bytes_push(p: Seq<u32>, x: u32)
    ensures
        id_bytes(p.push(x)) == id_bytes(p) + var_encoding(x as nat),
{
    assert(p.push(x).drop_last() =~= p);
}

/// A word has room for one more field after `c` exactly when `c` is
/// below its capacity.
pub proof fn lemma_capacity(bpb: nat, c: nat)
    requires
        1 <= bpb <= 32,
    ensures
        word_capacity(bpb) >= 1,
        bpb <= 16 ==> word_capacity(bpb) >= 2,
        word_capacity(bpb) * bpb <= 32,
        c < word_capacity(bpb) <==> c * bpb + bpb <= 32,
{
    let k = word_capacity(bpb);
    vstd::arithmetic::div_mod::lemma_fundamental_div_mod(32, bpb as int);
    let r = 32int % bpb as int;
    assert(32 == bpb * k + r);
    assert(0 <= r < bpb);
    assert(k >= 1 && (bpb <= 16 ==> k >= 2) && k * bpb <= 32) by (nonlinear_arith)
        requires
            32 == bpb * k + r,
            0 <= r < bpb,
            1 <= bpb <= 32,
    ;
    assert(c < k <==> c * bpb + bpb <= 32) by (nonlinear_arith)
        requires
            32 == bpb * k + r,
            0 <= r < bpb,
            bpb > 0,
    ;
}

/// Where `n = w * k + c` with `c < k`: the word count, and that each of
/// the first `w` words is full.
proof fn lemma_word_layout(n: nat, k: nat, w: nat, c: nat)
    requires
        k > 0,
        c < k,
        n == w * k + c,
    ensures
        word_count(n, k) == (if c > 0 { w + 1 } else { w }),
{
    if c == 0 {
        vstd::arithmetic::div_mod::lemma_fundamental_div_mod_converse(
            (n + k - 1) as int,
            k as int,
            w as int,
            (k - 1) as int,
        );
    } else {
        assert(n + k - 1 == (w + 1) * k + (c - 1)) by (nonlinear_arith)
            requires
                n == w * k + c,
        ;
        vstd::arithmetic::div_mod::lemma_fundamental_div_mod_converse(
            (n + k - 1) as int,
            k as int,
            (w + 1) as int,
            (c - 1) as int,
        );
    }
}

/// A word before the `w`-th is full.
proof fn lemma_full_word(n: nat, k: nat, w: nat, v: int)
    requires
        0 <= v < w,
        w * k <= n,
    ensures
        v * k + k <= n,
{
    vstd::arithmetic::mul::lemma_mul_inequality(v + 1, w as int, k as int);
    assert((v + 1) * k == v * k + k) by (nonlinear_arith);
}

/// Encode a single subchunk into Bedrock subchunk format (version 8).
pub fn encode_subchunk(subchunk: &SubChunk) -> (r: Vec<u8>)
    ensures
        r@ == subchunk_encoding(subchunk.palette@, subchunk.blocks@),
{
    let mut data: Vec<u8> = Vec::new();
    data.push(8);
    data.push(1);
    let palette_size = subchunk.palette.len();
    let bits_per_block = calculate_bits_per_block(palette_size);
    write_var_u32(&mut data, bits_per_block as u32);
    let bpb = bits_per_block as u32;
    let ghost b = subchunk.blocks@;
    let ghost k = word_capacity(bpb as nat);
    let ghost hdr = data@;
    proof {
        lemma_capacity(bpb as nat, 0);
    }
    let mut current_word: u32 = 0;
    let mut bits_in_word: u32 = 0;
    let ghost mut w: nat = 0;
    let ghost mut c: nat = 0;
    let n = subchunk.blocks.len();
    let mut i: usize = 0;
    while i < n
        invariant
            n == b.len(),
            b == subchunk.blocks@,
            i <= n,
            bpb as nat == bits_for(palette_size as nat),
            valid_bits(bpb as nat),
            k == word_capacity(bpb as nat),
            i == w * k + c,
            c < k,
            bits_in_word == c * bpb,
            current_word == pack_word(b, (w * k) as int, c, bpb as nat),
            data@ == hdr + word_bytes(Seq::new(w, |v: int| pack_word(b, v * k, k, bpb as nat))),
        decreases n - i,
    {
        proof {
            lemma_capacity(bpb as nat, c);
            lemma_capacity(bpb as nat, c + 1);
            assert((c + 1) * bpb == c * bpb + bpb) by (nonlinear_arith);
        }
        let block_idx = subchunk.blocks[i];
        current_word = current_word | ((block_idx as u32) << bits_in_word);
        bits_in_word = bits_in_word + bpb;
        proof {
            c = c + 1;
        }
        if bits_in_word + bpb > 32 {
            proof {
                assert(c == k);
                lemma_word_bytes_push(Seq::new(w, |v: int| pack_word(b, v * k, k, bpb as nat)), current_word);
                assert(Seq::new(w + 1, |v: int| pack_word(b, v * k, k, bpb as nat)) =~= Seq::new(
                    w,
                    |v: int| pack_word(b, v * k, k, bpb as nat),
                ).push(current_word));
                assert((w + 1) * k == w * k + k) by (nonlinear_arith);
            }
            push_le(&mut data, current_word as u64, 4);
            current_word = 0;
            bits_in_word = 0;
            proof {
                w = w + 1;
                c = 0;
            }
        }
        i = i + 1;
    }
    let ghost full = Seq::new(w, |v: int| pack_word(b, v * k, k, bpb as nat));
    proof {
        lemma_word_layout(n as nat, k, w, c);
        assert forall|v: int| 0 <= v < w implies full[v] == packed_words(b, bpb as nat)[v] by {
            lemma_full_word(n as nat, k, w, v);
        }
    }
    if bits_in_word > 0 {
        proof {
            lemma_word_bytes_push(full, current_word);
            assert(full.push(current_word) =~= packed_words(b, bpb as nat));
        }
        push_le(&mut data, current_word as u64, 4);
    } else {
        proof {
            assert(c == 0) by (nonlinear_arith)
                requires
                    c * bpb == 0,
                    bpb > 0,
            ;
            assert(full =~= packed_words(b, bpb as nat));
        }
    }
    assert(data@ == hdr + word_bytes(packed_words(b, bpb as nat)));
    let ghost mid = data@;
    write_var_u32(&mut data, palette_size as u32);
    proof {
        assert((palette_size as u32) as nat == palette_size as nat % pow2_32()) by (bit_vector);
    }
    let ghost mid2 = data@;
    let mut j: usize = 0;
    while j < palette_size
        invariant
            palette_size == subchunk.palette@.len(),
            j <= palette_size,
            data@ == mid2 + id_bytes(subchunk.palette@.take(j as int)),
        decreases palette_size - j,
    {
        proof {
            lemma_id_bytes_push(subchunk.palette@.take(j as int), subchunk.palette@[j as int]);
            assert(subchunk.palette@.take(j + 1) =~= subchunk.palette@.take(j as int).push(
                subchunk.palette@[j as int],
            ));
        }
        write_var_u32(&mut data, subchunk.palette[j]);
        j = j + 1;
    }
    assert(subchunk.palette@.take(palette_size as int) =~= subchunk.palette@);
    data
}


/// Integer division by 16 rounding toward zero, as Rust's `/` does.
pub open spec fn div16(v: int) -> int {
    if v >= 0 { v / 16 } else { -((-v) / 16) }
}

/// The block at height `ly` of the terrain subchunk for the given
/// surface height: bedrock at world y 0, stone up to five below the
/// surface, then dirt, grass at the surface, and air above. The subchunk
/// is the one that holds the surface, so its lowest world y is
/// `16 * div16(surface_world_y)`.
pub open spec fn terrain_id(surface_world_y: int, ly: int) -> u32 {
    let world_y = div16(surface_world_y) * 16 + ly;
    if world_y == 0 {
        10
    } else if world_y < surface_world_y - 5 {
        1
    } else if world_y < surface_world_y {
        3
    } else if world_y == surface_world_y {
        2
    } else {
        0
    }
}

/// The id of every block of a terrain subchunk, by block index.
pub open spec fn terrain_ids(surface_world_y: int) -> Seq<u32> {
    Seq::new(4096, |i: int| terrain_id(surface_world_y, i / 256))
}

fn terrain_block(world_y: i64, surface: i64) -> (r: u32)
    requires
        -0x1_0000_0000 < surface < 0x1_0000_0000,
    ensures
        r == (if world_y == 0 {
            10u32
        } else if world_y < surface - 5 {
            1u32
        } else if world_y < surface {
            3u32
        } else if world_y == surface {
            2u32
        } else {
            0u32
        }),
{
    if world_y == 0 {
        10
    } else if world_y < surface - 5 {
        1
    } else if world_y < surface {
        3
    } else if world_y == surface {
        2
    } else {
        0
    }
}

impl SubChunk {
    /// Create a terrain subchunk with simple height-based block types
    /// (see `terrain_id`); the palette starts with air and takes each
    /// other id when it is first met.
    pub fn with_terrain(surface_world_y: i32) -> (r: Self)
        ensures
            r.palette@ == palette_fold(seq![0u32], visit_order(terrain_ids(surface_world_y as int))),
            r.blocks@.len() == 4096,
            forall|i: int|
                0 <= i < 4096 ==> find_first(r.palette@, #[trigger] terrain_ids(
                    surface_world_y as int,
                )[i]) == Some(r.blocks@[i] as nat),
    {
        let s = surface_world_y as i64;
        let a: u64 = if s >= 0 { s as u64 } else { (-s) as u64 };
        let q = (a / 16) as i64;
        let base_y = if s >= 0 { q } else { -q };
        proof {
            assert(base_y == div16(surface_world_y as int));
            assert(-0x1_0000_0000 < base_y < 0x1_0000_0000);
        }
        let ghost ids = terrain_ids(surface_world_y as int);
        let mut src: Vec<u32> = Vec::new();
        let mut i: usize = 0;
        while i < SUBCHUNK_BLOCKS
            invariant
                i <= 4096,
                src@ == ids.take(i as int),
                ids == terrain_ids(surface_world_y as int),
                base_y == div16(surface_world_y as int),
                -0x1_0000_0000 < base_y < 0x1_0000_0000,
                s == surface_world_y,
            decreases 4096 - i,
        {
            let ly = (i / 256) as i64;
            let id = terrain_block(base_y * 16 + ly, s);
            proof {
                assert(ids[i as int] == id);
                assert(ids.take(i + 1) =~= ids.take(i as int).push(id));
            }
            src.push(id);
            i = i + 1;
        }
        assert(ids.take(4096) =~= ids);
        let mut subchunk = SubChunk::new();
        fill(&mut subchunk.palette, &mut subchunk.blocks, src.as_slice());
        subchunk
    }
}

/// Build the sixteen subchunks of a column from raw runtime ids, each
/// filled in the same visiting order as a terrain subchunk.
pub fn build_chunk_subchunks(blocks: &[[u32; 4096]; 16]) -> (r: Vec<SubChunk>)
    ensures
        r@.len() == 16,
        forall|y: int|
            #![trigger r@[y]]
            0 <= y < 16 ==> {
                &&& r@[y].palette@ == palette_fold(seq![0u32], visit_order(blocks@[y]@))
                &&& r@[y].blocks@.len() == 4096
                &&& forall|i: int|
                    0 <= i < 4096 ==> find_first(r@[y].palette@, #[trigger] blocks@[y]@[i]) == Some(
                        r@[y].blocks@[i] as nat,
                    )
            },
{
    let mut subchunks: Vec<SubChunk> = Vec::new();
    let mut y: usize = 0;
    while y < 16
        invariant
            y <= 16,
            subchunks@.len() == y,
            forall|t: int|
                #![trigger subchunks@[t]]
                0 <= t < y ==> {
                    &&& subchunks@[t].palette@ == palette_fold(seq![0u32], visit_order(blocks@[t]@))
                    &&& subchunks@[t].blocks@.len() == 4096
                    &&& forall|i: int|
                        0 <= i < 4096 ==> find_first(
                            subchunks@[t].palette@,
                            #[trigger] blocks@[t]@[i],
                        ) == Some(subchunks@[t].blocks@[i] as nat)
                },
        decreases 16 - y,
    {
        let mut subchunk = SubChunk::new();
        fill(&mut subchunk.palette, &mut subchunk.blocks, blocks[y].as_slice());
        subchunks.push(subchunk);
        y = y + 1;
    }
    subchunks
}

/// Every block resolves to air: its index names a palette entry, and
/// that entry is air's id.
pub open spec fn all_air(palette: Seq<u32>, b: Seq<u16>) -> bool {
    forall|i: int| 0 <= i < b.len() ==> (b[i] as int) < palette.len() && palette[b[i] as int] == 0
}

/// How many subchunks to send: up to the highest one that is not all
/// air, and at least one.
pub open spec fn needed_height(subs: Seq<SubChunk>) -> nat
    decreases subs.len(),
{
    if subs.len() == 0 {
        1
    } else if !all_air(subs.last().palette@, subs.last().blocks@) {
        subs.len()
    } else {
        needed_height(subs.drop_last())
    }
}

/// Check if a subchunk is completely empty (all air).
pub fn is_subchunk_empty(subchunk: &SubChunk) -> (r: bool)
    ensures
        r == all_air(subchunk.palette@, subchunk.blocks@),
{
    let mut i: usize = 0;
    while i < subchunk.blocks.len()
        invariant
            i <= subchunk.blocks@.len(),
            forall|j: int|
                0 <= j < i ==> (subchunk.blocks@[j] as int) < subchunk.palette@.len()
                    && subchunk.palette@[subchunk.blocks@[j] as int] == 0,
        decreases subchunk.blocks@.len() - i,
    {
        let idx = subchunk.blocks[i] as usize;
        if idx >= subchunk.palette.len() || subchunk.palette[idx] != 0 {
            return false;
        }
        i = i + 1;
    }
    true
}

/// Calculate how many subchunks we need to send (find highest non-empty).
pub fn calculate_needed_height(subchunks: &[SubChunk]) -> (r: usize)
    ensures
        r == needed_height(subchunks@),
        1 <= r,
        r <= subchunks@.len() || r == 1,
{
    let mut i = subchunks.len();
    assert(subchunks@.take(i as int) =~= subchunks@);
    while i > 0
        invariant
            i <= subchunks@.len(),
            needed_height(subchunks@) == needed_height(subchunks@.take(i as int)),
        decreases i,
    {
        let ghost pre = subchunks@.take(i as int);
        assert(pre.drop_last() =~= subchunks@.take(i - 1));
        if !is_subchunk_empty(&subchunks[i - 1]) {
            return i;
        }
        i = i - 1;
    }
    assert(subchunks@.take(0) =~= Seq::<SubChunk>::empty());
    1
}

/// The encoding of an all-air subchunk: one bit per block, 128 zero
/// words, and a palette holding only air.
pub open spec fn empty_subchunk_encoding() -> Seq<u8> {
    seq![8u8, 1u8, 1u8] + Seq::new(512, |i: int| 0u8) + seq![1u8, 0u8]
}

/// Encode an empty subchunk (all air).
pub fn encode_empty_subchunk() -> (r: Vec<u8>)
    ensures
        r@ == empty_subchunk_encoding(),
{
    let mut data: Vec<u8> = Vec::new();
    data.push(8);
    data.push(1);
    data.push(1);
    let mut i: usize = 0;
    while i < 512
        invariant
            i <= 512,
            data@ == seq![8u8, 1u8, 1u8] + Seq::new(i as nat, |j: int| 0u8),
        decreases 512 - i,
    {
        data.push(0);
        i = i + 1;
        assert(data@ =~= seq![8u8, 1u8, 1u8] + Seq::new(i as nat, |j: int| 0u8));
    }
    data.push(1);
    data.push(0);
    assert(data@ =~= empty_subchunk_encoding());
    data
}

/// The bytes of the `i`-th subchunk of a column: its own encoding, or
/// that of an empty one past the end of `subs`.
pub open spec fn column_subchunk(subs: Seq<SubChunk>, i: int) -> Seq<u8> {
    if i < subs.len() {
        subchunk_encoding(subs[i].palette@, subs[i].blocks@)
    } else {
        empty_subchunk_encoding()
    }
}

/// The first `m` subchunks of a column, each after its length as four
/// little-endian bytes.
pub open spec fn column_entries(subs: Seq<SubChunk>, m: nat) -> Seq<u8>
    decreases m,
{
    if m == 0 {
        Seq::empty()
    } else {
        let e = column_subchunk(subs, m - 1);
        column_entries(subs, (m - 1) as nat) + le_bytes(e.len(), 4) + e
    }
}

/// The LevelChunk payload: the column's coordinates as signed VarInts,
/// the subchunk count, the cache flag, the subchunks, then a zero blob
/// hash, a zero border and a zero cache status.
pub open spec fn chunk_column_payload(
    chunk_x: i32,
    chunk_z: i32,
    subs: Seq<SubChunk>,
    cache_enabled: bool,
) -> Seq<u8> {
    let n = needed_height(subs);
    var_encoding(zigzag32(chunk_x as int) as nat) + var_encoding(zigzag32(chunk_z as int) as nat)
        + le_bytes(n, 4) + seq![if cache_enabled { 1u8 } else { 0u8 }] + column_entries(subs, n)
        + le_bytes(0, 8) + le_bytes(0, 4) + seq![0u8]
}

/// Encode a full chunk column into Bedrock network format (a LevelChunk
/// packet).
pub fn encode_chunk_column(chunk_x: i32, chunk_z: i32, subchunks: &[SubChunk], cache_enabled: bool) -> (r: Vec<u8>)
    ensures
        r@ == packet_bytes(
            packet_id::LEVEL_CHUNK,
            chunk_column_payload(chunk_x, chunk_z, subchunks@, cache_enabled),
        ),
{
    let mut payload: Vec<u8> = Vec::new();
    write_var_i32(&mut payload, chunk_x);
    write_var_i32(&mut payload, chunk_z);
    let needed = calculate_needed_height(subchunks);
    push_le(&mut payload, needed as u64, 4);
    payload.push(if cache_enabled { 1 } else { 0 });
    let ghost start = payload@;
    let mut i: usize = 0;
    while i < needed
        invariant
            i <= needed,
            needed == needed_height(subchunks@),
            payload@ == start + column_entries(subchunks@, i as nat),
        decreases needed - i,
    {
        let sub_data = if i < subchunks.len() {
            encode_subchunk(&subchunks[i])
        } else {
            encode_empty_subchunk()
        };
        push_le(&mut payload, sub_data.len() as u64, 4);
        crate::bytes::append_bytes(&mut payload, sub_data.as_slice());
        i = i + 1;
    }
    push_le(&mut payload, 0, 8);
    push_le(&mut payload, 0, 4);
    payload.push(0);
    write_packet(packet_id::LEVEL_CHUNK, payload.as_slice())
}

/// The NetworkChunkPublisherUpdate payload: the centre as three signed
/// VarInts, the radius as four little-endian bytes, and no saved chunks.
pub open spec fn publisher_update_payload(coords: (i32, i32, i32), radius: u32) -> Seq<u8> {
    var_encoding(zigzag32(coords.0 as int) as nat) + var_encoding(zigzag32(coords.1 as int) as nat)
        + var_encoding(zigzag32(coords.2 as int) as nat) + le_bytes(radius as nat, 4) + le_bytes(0, 4)
}

/// Network chunk publisher update packet (0x79).
pub fn network_chunk_publisher_update(coords: (i32, i32, i32), radius: u32) -> (r: Vec<u8>)
    ensures
        r@ == packet_bytes(
            packet_id::NETWORK_CHUNK_PUBLISHER_UPDATE,
            publisher_update_payload(coords, radius),
        ),
{
    let mut payload: Vec<u8> = Vec::new();
    write_var_i32(&mut payload, coords.0);
    write_var_i32(&mut payload, coords.1);
    write_var_i32(&mut payload, coords.2);
    push_le(&mut payload, radius as u64, 4);
    push_le(&mut payload, 0, 4);
    write_packet(packet_id::NETWORK_CHUNK_PUBLISHER_UPDATE, payload.as_slice())
}

/// Chunk radius updated packet (0x46): the radius as a signed VarInt.
pub fn chunk_radius_updated(radius: i32) -> (r: Vec<u8>)
    ensures
        r@ == packet_bytes(
            packet_id::CHUNK_RADIUS_UPDATED,
            var_encoding(zigzag32(radius as int) as nat),
        ),
{
    let mut payload: Vec<u8> = Vec::new();
    write_var_i32(&mut payload, radius);
    write_packet(packet_id::CHUNK_RADIUS_UPDATED, payload.as_slice())
}

} // verus!
