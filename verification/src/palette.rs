//! Block palettes: a list of runtime ids that block entries index into,
//! and the layout of a 16x16x16 subchunk's block array.

use vstd::prelude::*;

verus! {

/// The first index at which `v` occurs in `s`.
pub open spec fn find_first(s: Seq<u32>, v: u32) -> Option<nat>
    decreases s.len(),
{
    if s.len() == 0 {
        None
    } else if s[0] == v {
        Some(0)
    } else {
        match find_first(s.drop_first(), v) {
            Some(i) => Some(i + 1),
            None => None,
        }
    }
}

pub proof fn lemma_find_first(s: Seq<u32>, v: u32)
    ensures
        find_first(s, v) matches Some(i) ==> i < s.len() && s[i as int] == v && forall|j: int|
            0 <= j < i ==> s[j] != v,
        find_first(s, v) is None ==> forall|j: int| 0 <= j < s.len() ==> s[j] != v,
    decreases s.len(),
{
    if s.len() > 0 {
        lemma_find_first(s.drop_first(), v);
        if s[0] != v {
            assert forall|j: int| 1 <= j < s.len() implies s[j] == s.drop_first()[j - 1] by {}
        }
    }
}

/// The palette after adding `v` if it is missing.
pub open spec fn palette_with(p: Seq<u32>, v: u32) -> Seq<u32> {
    if find_first(p, v) is Some { p } else { p.push(v) }
}

/// The index of `v` in the palette after adding it.
pub open spec fn palette_index(p: Seq<u32>, v: u32) -> nat {
    match find_first(p, v) {
        Some(i) => i,
        None => p.len(),
    }
}

/// Index of the first entry equal to `v`, if any.
pub fn position(p: &Vec<u32>, v: u32) -> (r: Option<usize>)
    ensures
        r matches Some(i) ==> find_first(p@, v) == Some(i as nat),
        r is None ==> find_first(p@, v) is None,
{
    proof {
        lemma_find_first(p@, v);
    }
    let mut i: usize = 0;
    while i < p.len()
        invariant
            i <= p@.len(),
            forall|j: int| 0 <= j < i ==> p@[j] != v,
        decreases p@.len() - i,
    {
        if p[i] == v {
            proof {
                lemma_first_is(p@, v, i as nat);
            }
            return Some(i);
        }
        i = i + 1;
    }
    proof {
        lemma_none_if_absent(p@, v);
    }
    None
}

proof fn lemma_first_is(s: Seq<u32>, v: u32, i: nat)
    requires
        i < s.len(),
        s[i as int] == v,
        forall|j: int| 0 <= j < i ==> s[j] != v,
    ensures
        find_first(s, v) == Some(i),
    decreases i,
{
    if i > 0 {
        assert forall|j: int| 0 <= j < i - 1 implies s.drop_first()[j] != v by {
            assert(s.drop_first()[j] == s[j + 1]);
        }
        lemma_first_is(s.drop_first(), v, (i - 1) as nat);
    }
}

proof fn lemma_none_if_absent(s: Seq<u32>, v: u32)
    requires
        forall|j: int| 0 <= j < s.len() ==> s[j] != v,
    ensures
        find_first(s, v) is None,
    decreases s.len(),
{
    if s.len() > 0 {
        assert forall|j: int| 0 <= j < s.drop_first().len() implies s.drop_first()[j] != v by {
            assert(s.drop_first()[j] == s[j + 1]);
        }
        lemma_none_if_absent(s.drop_first(), v);
    }
}

/// Find `v` in the palette, adding it at the end when missing; returns
/// its index.
pub fn palette_add(p: &mut Vec<u32>, v: u32) -> (r: usize)
    ensures
        final(p)@ == palette_with(old(p)@, v),
        r == palette_index(old(p)@, v),
        r < final(p)@.len(),
        final(p)@[r as int] == v,
{
    proof {
        lemma_find_first(p@, v);
    }
    match position(p, v) {
        Some(i) => i,
        None => {
            let i = p.len();
            p.push(v);
            i
        },
    }
}

/// A palette lists each id once.
pub open spec fn palette_distinct(p: Seq<u32>) -> bool {
    forall|i: int, j: int| 0 <= i < j < p.len() ==> p[i] != p[j]
}

/// Adding to a palette keeps its entries distinct, keeps what it held, and
/// the index of an id is where it stands.
pub proof fn lemma_palette_with(p: Seq<u32>, v: u32)
    ensures
        palette_distinct(p) ==> palette_distinct(palette_with(p, v)),
        palette_index(p, v) < palette_with(p, v).len(),
        palette_with(p, v)[palette_index(p, v) as int] == v,
        palette_with(p, v).len() <= p.len() + 1,
        forall|i: int| 0 <= i < p.len() ==> palette_with(p, v)[i] == p[i],
{
    lemma_find_first(p, v);
}


/// Appending keeps the first occurrence of what the palette held, and
/// finds a new id at the end.
pub proof fn lemma_find_first_push(p: Seq<u32>, x: u32, u: u32)
    ensures
        find_first(p.push(x), u) == (if find_first(p, u) is Some {
            find_first(p, u)
        } else if x == u {
            Some(p.len())
        } else {
            None
        }),
    decreases p.len(),
{
    if p.len() == 0 {
        assert(p.push(x)[0] == x);
        assert(p.push(x).drop_first() =~= Seq::<u32>::empty());
    } else {
        assert(p.push(x)[0] == p[0]);
        assert(p.push(x).drop_first() =~= p.drop_first().push(x));
        lemma_find_first_push(p.drop_first(), x, u);
        assert(p.drop_first().len() + 1 == p.len());
    }
}

/// After adding `v`, it is found at its palette index, and every id found
/// before is found where it was.
pub proof fn lemma_palette_with_find(p: Seq<u32>, v: u32, u: u32)
    ensures
        find_first(palette_with(p, v), v) == Some(palette_index(p, v)),
        find_first(p, u) is Some ==> find_first(palette_with(p, v), u) == find_first(p, u),
{
    lemma_find_first_push(p, v, v);
    lemma_find_first_push(p, v, u);
}

/// The index of local coordinates in a subchunk's block array.
pub open spec fn local_index(lx: u8, ly: u8, lz: u8) -> int {
    ly as int * 256 + lz as int * 16 + lx as int
}

/// The block visited at step `k` of a fill, which walks x outermost, then
/// z, then y innermost.
pub open spec fn visit_index(k: int) -> int {
    (k % 16) * 256 + ((k / 16) % 16) * 16 + k / 256
}

/// The ids of `src` in the order a fill visits them.
pub open spec fn visit_order(src: Seq<u32>) -> Seq<u32> {
    Seq::new(4096, |k: int| src[visit_index(k)])
}

/// The palette after adding each of `ids` in turn.
pub open spec fn palette_fold(p: Seq<u32>, ids: Seq<u32>) -> Seq<u32>
    decreases ids.len(),
{
    if ids.len() == 0 {
        p
    } else {
        palette_with(palette_fold(p, ids.drop_last()), ids.last())
    }
}

/// The visit order swaps x and y, so it is its own inverse.
pub proof fn lemma_visit(k: int)
    requires
        0 <= k < 4096,
    ensures
        0 <= visit_index(k) < 4096,
        visit_index(visit_index(k)) == k,
        visit_index(k) == local_index((k / 256) as u8, (k % 16) as u8, ((k / 16) % 16) as u8),
{
    let x = k / 256;
    let z = (k / 16) % 16;
    let y = k % 16;
    assert(k == x * 256 + z * 16 + y) by (nonlinear_arith)
        requires
            x == k / 256,
            z == (k / 16) % 16,
            y == k % 16,
            0 <= k,
    ;
    assert(0 <= x < 16 && 0 <= z < 16 && 0 <= y < 16) by (nonlinear_arith)
        requires
            x == k / 256,
            z == (k / 16) % 16,
            y == k % 16,
            0 <= k < 4096,
    ;
    let v = y * 256 + z * 16 + x;
    assert(v % 16 == x && (v / 16) % 16 == z && v / 256 == y) by (nonlinear_arith)
        requires
            v == y * 256 + z * 16 + x,
            0 <= x < 16,
            0 <= z < 16,
            0 <= y < 16,
    ;
}

/// `n` zero palette indices.
pub fn zeros(n: usize) -> (r: Vec<u16>)
    ensures
        r@ == Seq::new(n as nat, |i: int| 0u16),
{
    let mut v: Vec<u16> = Vec::new();
    let mut i: usize = 0;
    while i < n
        invariant
            i <= n,
            v@ == Seq::new(i as nat, |k: int| 0u16),
        decreases n - i,
    {
        v.push(0);
        i = i + 1;
    }
    v
}

/// Block index `idx` takes the palette index of `v`, which joins the
/// palette if it is missing.
pub fn place(palette: &mut Vec<u32>, blocks: &mut Vec<u16>, idx: usize, v: u32)
    requires
        idx < old(blocks)@.len(),
    ensures
        final(palette)@ == palette_with(old(palette)@, v),
        final(blocks)@ == old(blocks)@.update(idx as int, palette_index(old(palette)@, v) as u16),
{
    let palette_idx = palette_add(palette, v);
    blocks.set(idx, palette_idx as u16);
}

/// Each of the 4096 blocks takes the palette index of the id `src` holds
/// for it; blocks are visited x outermost, then z, then y, and each id
/// joins the palette when it is first seen.
pub fn fill(palette: &mut Vec<u32>, blocks: &mut Vec<u16>, src: &[u32])
    requires
        old(blocks)@.len() == 4096,
        src@.len() == 4096,
        old(palette)@.len() <= 4096,
    ensures
        final(palette)@ == palette_fold(old(palette)@, visit_order(src@)),
        final(palette)@.len() <= old(palette)@.len() + 4096,
        final(blocks)@.len() == 4096,
        forall|i: int|
            0 <= i < 4096 ==> find_first(final(palette)@, #[trigger] src@[i]) == Some(
                final(blocks)@[i] as nat,
            ),
        forall|i: int|
            0 <= i < 4096 ==> (#[trigger] final(blocks)@[i] as nat) < final(palette)@.len()
                && final(palette)@[final(blocks)@[i] as int] == src@[i],
{
    let ghost p0 = palette@;
    let ghost order = visit_order(src@);
    let mut k: usize = 0;
    while k < 4096
        invariant
            k <= 4096,
            src@.len() == 4096,
            order == visit_order(src@),
            blocks@.len() == 4096,
            p0.len() <= 4096,
            palette@ == palette_fold(p0, order.take(k as int)),
            palette@.len() <= p0.len() + k,
            forall|i: int|
                0 <= i < 4096 && visit_index(i) < k ==> find_first(palette@, #[trigger] src@[i])
                    == Some(blocks@[i] as nat),
        decreases 4096 - k,
    {
        let lx = (k / 256) as u8;
        let lz = ((k / 16) % 16) as u8;
        let ly = (k % 16) as u8;
        proof {
            lemma_visit(k as int);
        }
        let idx = (ly as usize) * 256 + (lz as usize) * 16 + (lx as usize);
        let v = src[idx];
        let ghost pal = palette@;
        proof {
            lemma_palette_with(pal, v);
            assert(order[k as int] == v);
            assert(order.take(k + 1).drop_last() =~= order.take(k as int));
        }
        place(palette, blocks, idx, v);
        proof {
            assert forall|i: int|
                0 <= i < 4096 && visit_index(i) < k + 1 implies find_first(
                palette@,
                #[trigger] src@[i],
            ) == Some(blocks@[i] as nat) by {
                lemma_visit(i);
                lemma_palette_with_find(pal, v, src@[i]);
                if i == idx {
                } else {
                    assert(visit_index(i) != k);
                }
            }
        }
        k = k + 1;
    }
    assert(order.take(4096) =~= order);
    assert forall|i: int|
        0 <= i < 4096 implies find_first(palette@, #[trigger] src@[i]) == Some(
        blocks@[i] as nat,
    ) by {
        lemma_visit(i);
    }
    assert forall|i: int|
        0 <= i < 4096 implies (#[trigger] blocks@[i] as nat) < palette@.len() && palette@[blocks@[i] as int]
        == src@[i] by {
        lemma_find_first(palette@, src@[i]);
    }
}

} // verus!
