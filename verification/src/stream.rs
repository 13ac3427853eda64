//! What the server sends to players: the chunk columns around a player,
//! and the packets game outputs turn into for spawned players.

use vstd::prelude::*;
use crate::chunk::{SubChunk as WireSubChunk, encode_chunk_column, chunk_column_payload, needed_height,
    column_entries, column_subchunk};
use crate::codec::packet_bytes;
use crate::game::GameOutput;
use crate::login::{set_time, be_i32};
use crate::packet_id;
use crate::raknet_packet::NetAddress;
use crate::session::SessionState;
use crate::world::{World, WorldGenerator, SubChunk, Chunk, key_of, chunk_fresh, chunk_view, law_chunk_key_injective};
use std::sync::Arc;

verus! {

broadcast use vstd::std_specs::hash::group_hash_axioms;

/// The wire subchunks holding the same palettes and blocks as a chunk's.
pub open spec fn wire_subchunks(subs: Seq<SubChunk>) -> Seq<WireSubChunk> {
    subs.map_values(|s: SubChunk| WireSubChunk { palette: s.palette, blocks: s.blocks })
}

/// Each wire subchunk holds the palette and blocks of the chunk's
/// subchunk at its position.
pub open spec fn same_blocks(a: Seq<WireSubChunk>, b: Seq<SubChunk>) -> bool {
    &&& a.len() == b.len()
    &&& forall|i: int| 0 <= i < a.len() ==> (#[trigger] a[i]).palette@ == b[i].palette@ && a[i].blocks@ == b[i].blocks@
}

/// The LevelChunk packet for the column at (`cx`, `cz`) holding `subs`,
/// without the blob cache.
pub open spec fn chunk_packet(cx: i32, cz: i32, subs: Seq<SubChunk>) -> Seq<u8> {
    packet_bytes(packet_id::LEVEL_CHUNK, chunk_column_payload(cx, cz, wire_subchunks(subs), false))
}

proof fn lemma_needed_same(a: Seq<WireSubChunk>, b: Seq<WireSubChunk>)
    requires
        a.len() == b.len(),
        forall|i: int| 0 <= i < a.len() ==> (#[trigger] a[i]).palette@ == b[i].palette@ && a[i].blocks@ == b[i].blocks@,
    ensures
        needed_height(a) == needed_height(b),
    decreases a.len(),
{
    if a.len() > 0 {
        let (ta, tb) = (a.drop_last(), b.drop_last());
        assert forall|i: int| 0 <= i < ta.len() implies (#[trigger] ta[i]).palette@ == tb[i].palette@ && ta[i].blocks@ == tb[i].blocks@ by {
            assert(ta[i] == a[i] && tb[i] == b[i]);
        }
        lemma_needed_same(ta, tb);
        assert(a.last().blocks@ == b.last().blocks@);
    }
}

proof fn lemma_entries_same(a: Seq<WireSubChunk>, b: Seq<WireSubChunk>, m: nat)
    requires
        a.len() == b.len(),
        forall|i: int| 0 <= i < a.len() ==> (#[trigger] a[i]).palette@ == b[i].palette@ && a[i].blocks@ == b[i].blocks@,
    ensures
        column_entries(a, m) == column_entries(b, m),
    decreases m,
{
    if m > 0 {
        lemma_entries_same(a, b, (m - 1) as nat);
        if m - 1 < a.len() {
            assert(a[m - 1].palette@ == b[m - 1].palette@ && a[m - 1].blocks@ == b[m - 1].blocks@);
        }
        assert(column_subchunk(a, m - 1) == column_subchunk(b, m - 1));
    }
}

/// Columns whose subchunks hold the same palettes and blocks encode alike.
proof fn lemma_payload_same(cx: i32, cz: i32, a: Seq<WireSubChunk>, b: Seq<SubChunk>)
    requires
        same_blocks(a, b),
    ensures
        chunk_column_payload(cx, cz, a, false) == chunk_column_payload(cx, cz, wire_subchunks(b), false),
{
    let w = wire_subchunks(b);
    assert forall|i: int| 0 <= i < a.len() implies (#[trigger] a[i]).palette@ == w[i].palette@ && a[i].blocks@ == w[i].blocks@ by {
        assert(w[i] == (WireSubChunk { palette: b[i].palette, blocks: b[i].blocks }));
    }
    lemma_needed_same(a, w);
    lemma_entries_same(a, w, needed_height(a));
}

/// The wire form of a chunk's subchunks.
pub fn wire_form(subs: &Vec<SubChunk>) -> (r: Vec<WireSubChunk>)
    ensures
        same_blocks(r@, subs@),
{
    let mut out: Vec<WireSubChunk> = Vec::new();
    let mut i: usize = 0;
    while i < subs.len()
        invariant
            i <= subs@.len(),
            out@.len() == i,
            forall|k: int| 0 <= k < i ==> (#[trigger] out@[k]).palette@ == subs@[k].palette@ && out@[k].blocks@ == subs@[k].blocks@,
        decreases subs@.len() - i,
    {
        let s = &subs[i];
        let palette = vstd::slice::slice_to_vec(s.palette.as_slice());
        let blocks = vstd::slice::slice_to_vec(s.blocks.as_slice());
        out.push(WireSubChunk { palette, blocks });
        i = i + 1;
    }
    out
}

/// The chunk columns around (`chunk_x`, `chunk_z`) within `radius`,
/// column by column: x offset from `-radius` up, and for each the z offset
/// from `-radius` up.
pub open spec fn around(chunk_x: i32, chunk_z: i32, radius: i32) -> Seq<(i32, i32)> {
    let w = 2 * radius + 1;
    Seq::new((w * w) as nat, |k: int| ((chunk_x - radius + k / w) as i32, (chunk_z - radius + k % w) as i32))
}

/// The columns around a centre are exactly those within `radius` of it on
/// both axes, each once: every column listed lies within the radius, and
/// every column within the radius (the centre among them) is listed at
/// its place.
pub proof fn law_around_square(chunk_x: i32, chunk_z: i32, radius: i32, cx: i32, cz: i32)
    requires
        radius >= 0,
        chunk_x - radius >= i32::MIN,
        chunk_x + radius <= i32::MAX,
        chunk_z - radius >= i32::MIN,
        chunk_z + radius <= i32::MAX,
    ensures
        around(chunk_x, chunk_z, radius).len() == (2 * radius + 1) * (2 * radius + 1),
        forall|k: int|
            0 <= k < around(chunk_x, chunk_z, radius).len() ==> {
                let c = #[trigger] around(chunk_x, chunk_z, radius)[k];
                &&& chunk_x - radius <= c.0 <= chunk_x + radius
                &&& chunk_z - radius <= c.1 <= chunk_z + radius
            },
        chunk_x - radius <= cx <= chunk_x + radius && chunk_z - radius <= cz <= chunk_z + radius ==> {
            let k = (cx - chunk_x + radius) * (2 * radius + 1) + (cz - chunk_z + radius);
            &&& 0 <= k < around(chunk_x, chunk_z, radius).len()
            &&& around(chunk_x, chunk_z, radius)[k] == (cx, cz)
        },
        around(chunk_x, chunk_z, radius)[radius * (2 * radius + 1) + radius] == (chunk_x, chunk_z),
{
    let w = 2 * radius + 1;
    let cols = around(chunk_x, chunk_z, radius);
    assert(w * w >= 0) by (nonlinear_arith);
    assert forall|k: int| 0 <= k < cols.len() implies {
        let c = #[trigger] cols[k];
        &&& chunk_x - radius <= c.0 <= chunk_x + radius
        &&& chunk_z - radius <= c.1 <= chunk_z + radius
    } by {
        assert(0 <= k / w < w && 0 <= k % w < w) by (nonlinear_arith)
            requires
                0 <= k < w * w,
                w > 0,
        ;
    }
    if chunk_x - radius <= cx <= chunk_x + radius && chunk_z - radius <= cz <= chunk_z + radius {
        let a = cx - chunk_x + radius;
        let b = cz - chunk_z + radius;
        let k = a * w + b;
        assert(0 <= k < w * w && k / w == a && k % w == b) by (nonlinear_arith)
            requires
                0 <= a < w,
                0 <= b < w,
                k == a * w + b,
                w > 0,
        ;
    }
    let kc = radius * w + radius;
    assert(0 <= kc < w * w && kc / w == radius && kc % w == radius) by (nonlinear_arith)
        requires
            kc == radius * w + radius,
            w == 2 * radius + 1,
            radius >= 0,
    ;
}

/// `p` is the LevelChunk packet of the column `c` as `chunks` holds it.
pub open spec fn column_ok(p: Seq<u8>, chunks: Map<u64, Chunk>, c: (i32, i32)) -> bool {
    &&& chunks.contains_key(key_of(c.0, c.1))
    &&& p == chunk_packet(c.0, c.1, chunks[key_of(c.0, c.1)].subchunks@)
}

/// Each packet is that of the column at its position in `cols`.
pub open spec fn packets_ok(ps: Seq<Vec<u8>>, chunks: Map<u64, Chunk>, cols: Seq<(i32, i32)>) -> bool {
    forall|k: int| 0 <= k < ps.len() ==> #[trigger] column_ok(ps[k]@, chunks, cols[k])
}

/// Each column of `cols` that `before` lacked is in `after` as the
/// generator `g` makes it: at its coordinates, fresh, and as
/// `generate_gives` states.
pub open spec fn generated_ok<G: WorldGenerator + ?Sized>(
    before: Map<u64, Chunk>,
    after: Map<u64, Chunk>,
    g: Arc<G>,
    cols: Seq<(i32, i32)>,
) -> bool {
    forall|j: int|
        0 <= j < cols.len() && !before.contains_key(key_of(#[trigger] cols[j].0, cols[j].1)) ==> {
            let k = key_of(cols[j].0, cols[j].1);
            &&& after.contains_key(k)
            &&& after[k].x == cols[j].0
            &&& after[k].z == cols[j].1
            &&& chunk_fresh(after[k])
            &&& g.generate_gives(cols[j].0, cols[j].1, chunk_view(after[k]))
        }
}

/// Every key of `after` was in `before` or is that of a column of `cols`.
pub open spec fn only_cols_added(before: Map<u64, Chunk>, after: Map<u64, Chunk>, cols: Seq<(i32, i32)>) -> bool {
    forall|k: u64|
        #[trigger] after.contains_key(k) ==> before.contains_key(k) || exists|j: int|
            0 <= j < cols.len() && key_of(#[trigger] cols[j].0, cols[j].1) == k
}

/// Load (generating where needed) every chunk column within `radius` of
/// the column (`chunk_x`, `chunk_z`), and return their LevelChunk packets
/// in the order `around` gives. Columns already loaded stay as they were;
/// the others are the generator's; nothing else is loaded.
pub fn chunk_packets_around<G: WorldGenerator + ?Sized>(
    world: &mut World<G>,
    chunk_x: i32,
    chunk_z: i32,
    radius: i32,
) -> (r: Vec<Vec<u8>>)
    requires
        radius >= 0,
        chunk_x - radius >= i32::MIN,
        chunk_x + radius <= i32::MAX,
        chunk_z - radius >= i32::MIN,
        chunk_z + radius <= i32::MAX,
    ensures
        final(world).name == old(world).name,
        final(world).seed == old(world).seed,
        final(world).generator == old(world).generator,
        final(world).spawn_position == old(world).spawn_position,
        forall|k: u64| #[trigger] old(world).chunks@.contains_key(k) ==> final(world).chunks@.contains_key(k)
            && final(world).chunks@[k] == old(world).chunks@[k],
        generated_ok(old(world).chunks@, final(world).chunks@, old(world).generator, around(chunk_x, chunk_z, radius)),
        only_cols_added(old(world).chunks@, final(world).chunks@, around(chunk_x, chunk_z, radius)),
        r@.len() == around(chunk_x, chunk_z, radius).len(),
        packets_ok(r@, final(world).chunks@, around(chunk_x, chunk_z, radius)),
{
    let ghost w = 2 * radius + 1;
    let mut out: Vec<Vec<u8>> = Vec::new();
    let mut dx: i64 = -(radius as i64);
    assert((dx + radius) * w == 0) by (nonlinear_arith)
        requires dx + radius == 0;
    while dx <= radius as i64
        invariant
            radius >= 0,
            w == 2 * radius + 1,
            chunk_x - radius >= i32::MIN,
            chunk_x + radius <= i32::MAX,
            chunk_z - radius >= i32::MIN,
            chunk_z + radius <= i32::MAX,
            -radius <= dx <= radius + 1,
            out@.len() == (dx + radius) * w,
            world.name == old(world).name,
            world.seed == old(world).seed,
            world.generator == old(world).generator,
            world.spawn_position == old(world).spawn_position,
            forall|k: u64| #[trigger] old(world).chunks@.contains_key(k) ==> world.chunks@.contains_key(k)
                && world.chunks@[k] == old(world).chunks@[k],
            packets_ok(out@, world.chunks@, around(chunk_x, chunk_z, radius)),
            generated_ok(old(world).chunks@, world.chunks@, old(world).generator, around(chunk_x, chunk_z, radius).take(out@.len() as int)),
            only_cols_added(old(world).chunks@, world.chunks@, around(chunk_x, chunk_z, radius).take(out@.len() as int)),
        decreases radius + 1 - dx,
    {
        let mut dz: i64 = -(radius as i64);
        while dz <= radius as i64
            invariant
                radius >= 0,
                w == 2 * radius + 1,
                chunk_x - radius >= i32::MIN,
                chunk_x + radius <= i32::MAX,
                chunk_z - radius >= i32::MIN,
                chunk_z + radius <= i32::MAX,
                -radius <= dx <= radius,
                -radius <= dz <= radius + 1,
                out@.len() == (dx + radius) * w + (dz + radius),
                world.name == old(world).name,
                world.seed == old(world).seed,
                world.generator == old(world).generator,
                world.spawn_position == old(world).spawn_position,
                forall|k: u64| #[trigger] old(world).chunks@.contains_key(k) ==> world.chunks@.contains_key(k)
                    && world.chunks@[k] == old(world).chunks@[k],
                packets_ok(out@, world.chunks@, around(chunk_x, chunk_z, radius)),
                generated_ok(old(world).chunks@, world.chunks@, old(world).generator, around(chunk_x, chunk_z, radius).take(out@.len() as int)),
                only_cols_added(old(world).chunks@, world.chunks@, around(chunk_x, chunk_z, radius).take(out@.len() as int)),
            decreases radius + 1 - dz,
        {
            let cx = (chunk_x as i64 + dx) as i32;
            let cz = (chunk_z as i64 + dz) as i32;
            let ghost before = world.chunks@;
            let ghost n = out@.len();
            let chunk = world.get_chunk(cx, cz);
            let subs = wire_form(&chunk.subchunks);
            let packet = encode_chunk_column(cx, cz, subs.as_slice(), false);
            proof {
                lemma_payload_same(cx, cz, subs@, chunk.subchunks@);
            }
            let ghost prev = out@;
            out.push(packet);
            proof {
                let a = dx + radius;
                let b = dz + radius;
                assert(n == a * w + b);
                assert((a * w + b) / w == a && (a * w + b) % w == b) by (nonlinear_arith)
                    requires
                        w > 0,
                        0 <= b < w,
                        a >= 0,
                ;
                assert(n < w * w) by (nonlinear_arith)
                    requires
                        w > 0,
                        0 <= b < w,
                        0 <= a < w,
                        n == a * w + b,
                ;
                assert(around(chunk_x, chunk_z, radius)[n as int] == (cx, cz));
                assert forall|k: int| 0 <= k < out@.len() implies #[trigger] column_ok(out@[k]@, world.chunks@, around(chunk_x, chunk_z, radius)[k]) by {
                    let c = around(chunk_x, chunk_z, radius)[k];
                    if k < n {
                        assert(out@[k] == prev[k]);
                        assert(column_ok(prev[k]@, before, c));
                        assert(before.contains_key(key_of(c.0, c.1)));
                        assert(world.chunks@[key_of(c.0, c.1)] == before[key_of(c.0, c.1)]);
                    }
                }
                let cols = around(chunk_x, chunk_z, radius);
                let t0 = cols.take(n as int);
                let t1 = cols.take((n + 1) as int);
                assert forall|j: int|
                    0 <= j < t1.len() && !old(world).chunks@.contains_key(key_of(#[trigger] t1[j].0, t1[j].1)) implies {
                        let k = key_of(t1[j].0, t1[j].1);
                        &&& world.chunks@.contains_key(k)
                        &&& world.chunks@[k].x == t1[j].0
                        &&& world.chunks@[k].z == t1[j].1
                        &&& chunk_fresh(world.chunks@[k])
                        &&& old(world).generator.generate_gives(t1[j].0, t1[j].1, chunk_view(world.chunks@[k]))
                    } by {
                    if j < n {
                        assert(t1[j] == t0[j]);
                        let k = key_of(t0[j].0, t0[j].1);
                        assert(before.contains_key(k));
                        assert(world.chunks@[k] == before[k]);
                    } else {
                        assert(t1[j] == (cx, cz));
                        let k = key_of(cx, cz);
                        if before.contains_key(k) {
                            let j2 = choose|j2: int| 0 <= j2 < t0.len() && key_of(#[trigger] t0[j2].0, t0[j2].1) == k;
                            law_chunk_key_injective(t0[j2].0, t0[j2].1, cx, cz);
                            assert(world.chunks@[k] == before[k]);
                        }
                    }
                }
                assert forall|k: u64| #[trigger] world.chunks@.contains_key(k) implies old(world).chunks@.contains_key(k)
                    || exists|j: int| 0 <= j < t1.len() && key_of(#[trigger] t1[j].0, t1[j].1) == k by {
                    if !old(world).chunks@.contains_key(k) {
                        if before.contains_key(k) {
                            assert(exists|j: int| 0 <= j < t0.len() && key_of(#[trigger] t0[j].0, t0[j].1) == k);
                            let j = choose|j: int| 0 <= j < t0.len() && key_of(#[trigger] t0[j].0, t0[j].1) == k;
                            assert(t1[j] == t0[j]);
                            assert(0 <= j < t1.len() && key_of(t1[j].0, t1[j].1) == k);
                        } else {
                            assert(k == key_of(cx, cz));
                            assert(t1[n as int] == (cx, cz));
                            assert(key_of(t1[n as int].0, t1[n as int].1) == k);
                        }
                    }
                }
            }
            dz = dz + 1;
        }
        proof {
            assert((dx + 1 + radius) * w == (dx + radius) * w + w) by (nonlinear_arith);
        }
        dx = dx + 1;
    }
    proof {
        assert((dx + radius) * w == w * w) by (nonlinear_arith)
            requires dx == radius + 1, w == 2 * radius + 1;
        assert(around(chunk_x, chunk_z, radius).take(out@.len() as int) =~= around(chunk_x, chunk_z, radius));
    }
    out
}

/// The packet a game output sends to every spawned player: a chunk's data
/// as it is, the time as a SetTime packet. Other outputs send nothing.
pub open spec fn output_packet_spec(o: GameOutput) -> Option<Seq<u8>> {
    match o {
        GameOutput::ChunkData { chunk_x: _, chunk_z: _, data } => Some(data@),
        GameOutput::TimeUpdate { time } => Some(packet_bytes(packet_id::SET_TIME, be_i32(time as i32))),
        _ => None,
    }
}

/// The packet a game output sends to every spawned player, if any.
pub fn output_packet(o: &GameOutput) -> (r: Option<Vec<u8>>)
    ensures
        match r {
            Some(p) => output_packet_spec(*o) == Some(p@),
            None => output_packet_spec(*o) is None,
        },
{
    match o {
        GameOutput::ChunkData { chunk_x: _, chunk_z: _, data } => Some(vstd::slice::slice_to_vec(data.as_slice())),
        GameOutput::TimeUpdate { time } => Some(set_time(*time as i32)),
        _ => None,
    }
}

/// The addresses of the spawned players, in order.
pub open spec fn spawned_addrs(ss: Seq<(NetAddress, SessionState)>) -> Seq<NetAddress>
    decreases ss.len(),
{
    if ss.len() == 0 {
        Seq::empty()
    } else if ss.last().1 == SessionState::Spawned {
        spawned_addrs(ss.drop_last()).push(ss.last().0)
    } else {
        spawned_addrs(ss.drop_last())
    }
}

/// The addresses of the sessions that have spawned, in order.
pub fn spawned_targets(sessions: &Vec<(NetAddress, SessionState)>) -> (r: Vec<NetAddress>)
    ensures
        r@ == spawned_addrs(sessions@),
{
    let mut out: Vec<NetAddress> = Vec::new();
    let mut i: usize = 0;
    while i < sessions.len()
        invariant
            i <= sessions@.len(),
            out@ == spawned_addrs(sessions@.take(i as int)),
        decreases sessions@.len() - i,
    {
        let (a, st) = sessions[i];
        proof {
            assert(sessions@.take(i + 1).drop_last() == sessions@.take(i as int));
            assert(sessions@.take(i + 1).last() == (a, st));
        }
        if st == SessionState::Spawned {
            out.push(a);
        }
        i = i + 1;
    }
    assert(sessions@.take(i as int) == sessions@);
    out
}

} // verus!
