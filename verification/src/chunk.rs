//! A chunk of rendered positions: each position with the bytes its fractal plugin encoded for
//! it, all the bytes kept in one buffer.
use vstd::prelude::*;

use crate::interface::RColor;

verus! {

/// Rendered positions, each with a segment of `data`: entry `i` holds the position and where its
/// segment starts; the segment runs to the next entry's start, the last one to the end.
#[derive(Debug, Clone)]
pub struct RChunk {
    pos_indexes: Vec<([u32; 2], usize)>,
    data: Vec<u8>,
}

impl RChunk {
    /// The positions with the starts of their segments.
    pub closed spec fn entries(&self) -> Seq<([u32; 2], usize)> {
        self.pos_indexes@
    }

    /// All the encoded bytes.
    pub closed spec fn bytes(&self) -> Seq<u8> {
        self.data@
    }

    /// The segments start in order and inside the bytes.
    pub open spec fn wf(&self) -> bool {
        &&& forall|i: int, j: int|
            0 <= i <= j < self.entries().len() ==> #[trigger] self.entries()[i].1 <= #[trigger] self.entries()[j].1
        &&& forall|i: int| 0 <= i < self.entries().len() ==> #[trigger] self.entries()[i].1 <= self.bytes().len()
    }

    /// Where segment `i` ends.
    pub open spec fn segment_end(&self, i: int) -> int {
        if i + 1 < self.entries().len() {
            self.entries()[i + 1].1 as int
        } else {
            self.bytes().len() as int
        }
    }

    /// The bytes encoded for entry `i`.
    pub open spec fn segment(&self, i: int) -> Seq<u8> {
        self.bytes().subrange(self.entries()[i].1 as int, self.segment_end(i))
    }

    /// A chunk with no positions.
    pub fn new() -> (r: Self)
        ensures
            r.wf(),
            r.entries().len() == 0,
            r.bytes().len() == 0,
    {
        RChunk { pos_indexes: Vec::new(), data: Vec::new() }
    }

    /// The number of positions.
    pub fn len(&self) -> (r: usize)
        ensures
            r == self.entries().len(),
    {
        self.pos_indexes.len()
    }

    /// Position `i`.
    pub fn pos_at(&self, i: usize) -> (r: [u32; 2])
        requires
            i < self.entries().len(),
        ensures
            r == self.entries()[i as int].0,
    {
        self.pos_indexes[i].0
    }

    /// Position `i` with its encoded bytes.
    pub fn get(&self, i: usize) -> (r: ([u32; 2], &[u8]))
        requires
            self.wf(),
            i < self.entries().len(),
        ensures
            r.0 == self.entries()[i as int].0,
            r.1@ == self.segment(i as int),
    {
        let (pos, start) = self.pos_indexes[i];
        let end = if i < self.pos_indexes.len() - 1 {
            self.pos_indexes[i + 1].1
        } else {
            self.data.len()
        };
        (pos, &self.data.as_slice()[start..end])
    }

    /// Appends a position with its encoded bytes.
    pub fn push(&mut self, pos: [u32; 2], encoded: Vec<u8>)
        requires
            old(self).wf(),
        ensures
            final(self).wf(),
            final(self).entries().len() == old(self).entries().len() + 1,
            final(self).entries().last().0 == pos,
            final(self).segment(old(self).entries().len() as int) == encoded@,
            forall|i: int|
                0 <= i < old(self).entries().len() ==> #[trigger] final(self).entries()[i] == old(self).entries()[i]
                    && final(self).segment(i) == old(self).segment(i),
    {
        let start = self.data.len();
        let ghost enc = encoded@;
        let mut encoded = encoded;
        self.data.append(&mut encoded);
        self.pos_indexes.push((pos, start));
        proof {
            let n = old(self).entries().len() as int;
            assert forall|i: int| 0 <= i < n implies #[trigger] self.entries()[i] == old(self).entries()[i]
                && self.segment(i) == old(self).segment(i) by {
                assert(self.entries()[i] == old(self).entries()[i]);
                if i + 1 < n {
                    assert(self.segment_end(i) == old(self).segment_end(i));
                } else {
                    assert(self.segment_end(i) == start);
                }
                assert(self.segment(i) =~= old(self).segment(i));
            }
            assert(self.segment(n) =~= enc);
        }
    }
}

/// Encodes what `encode` computes for each of `positions` into one chunk, in order.
pub fn compute_cells_rmp<F: Fn([u32; 2]) -> Vec<u8>>(positions: &[[u32; 2]], encode: F) -> (r: RChunk)
    requires
        forall|i: int| 0 <= i < positions@.len() ==> call_requires(encode, (#[trigger] positions@[i],)),
    ensures
        r.wf(),
        r.entries().len() == positions@.len(),
        forall|i: int|
            0 <= i < positions@.len() ==> {
                &&& (#[trigger] r.entries()[i]).0 == positions@[i]
                &&& exists|e: Vec<u8>| e@ == r.segment(i) && call_ensures(encode, (positions@[i],), e)
            },
{
    let mut chunk = RChunk::new();
    let n = positions.len();
    let mut k: usize = 0;
    while k < n
        invariant
            n == positions@.len(),
            k <= n,
            forall|i: int| 0 <= i < positions@.len() ==> call_requires(encode, (#[trigger] positions@[i],)),
            chunk.wf(),
            chunk.entries().len() == k,
            forall|i: int|
                0 <= i < k ==> {
                    &&& (#[trigger] chunk.entries()[i]).0 == positions@[i]
                    &&& exists|e: Vec<u8>| e@ == chunk.segment(i) && call_ensures(encode, (positions@[i],), e)
                },
        decreases n - k,
    {
        let pos = positions[k];
        let encoded = encode(pos);
        let ghost e = encoded;
        let ghost before = chunk;
        chunk.push(pos, encoded);
        proof {
            assert forall|i: int| 0 <= i < k + 1 implies {
                &&& (#[trigger] chunk.entries()[i]).0 == positions@[i]
                &&& exists|e: Vec<u8>| e@ == chunk.segment(i) && call_ensures(encode, (positions@[i],), e)
            } by {
                if i < k {
                    assert(chunk.entries()[i] == before.entries()[i]);
                    assert(chunk.segment(i) == before.segment(i));
                } else {
                    assert(chunk.segment(i) == e@);
                }
            }
        }
        k = k + 1;
    }
    chunk
}

/// The colour `color_of` gives each position of `chunk` from its encoded bytes, in order.
pub fn compute_colors_rmp<F: Fn(&[u8]) -> [u8; 3]>(chunk: &RChunk, color_of: F) -> (r: Vec<RColor>)
    requires
        chunk.wf(),
        forall|s: &[u8]| call_requires(color_of, (s,)),
    ensures
        r@.len() == chunk.entries().len(),
        forall|i: int|
            0 <= i < r@.len() ==> {
                &&& (#[trigger] r@[i]).pos == chunk.entries()[i].0
                &&& exists|s: &[u8]| s@ == chunk.segment(i) && call_ensures(color_of, (s,), r@[i].rgb)
            },
{
    let mut colors: Vec<RColor> = Vec::new();
    let n = chunk.len();
    let mut k: usize = 0;
    while k < n
        invariant
            n == chunk.entries().len(),
            chunk.wf(),
            forall|s: &[u8]| call_requires(color_of, (s,)),
            k <= n,
            colors@.len() == k,
            forall|i: int|
                0 <= i < k ==> {
                    &&& (#[trigger] colors@[i]).pos == chunk.entries()[i].0
                    &&& exists|s: &[u8]| s@ == chunk.segment(i) && call_ensures(color_of, (s,), colors@[i].rgb)
                },
        decreases n - k,
    {
        let (pos, data) = chunk.get(k);
        let rgb = color_of(data);
        colors.push(RColor { pos, rgb });
        proof {
            assert(colors@[k as int].rgb == rgb);
            assert(data@ == chunk.segment(k as int) && call_ensures(color_of, (data,), colors@[k as int].rgb));
            assert forall|i: int| 0 <= i < k + 1 implies {
                &&& (#[trigger] colors@[i]).pos == chunk.entries()[i].0
                &&& exists|s: &[u8]| s@ == chunk.segment(i) && call_ensures(color_of, (s,), colors@[i].rgb)
            } by {
                if i == k {
                    assert(data@ == chunk.segment(i) && call_ensures(color_of, (data,), colors@[i].rgb));
                }
            }
        }
        k = k + 1;
    }
    colors
}

/// Colouring a chunk that [`compute_cells_rmp`] encoded gives each position, in order, the
/// colour of what was encoded for it. Where `encode` gives the bytes `code(p)` for each
/// position `p`, and `color_of` gives `shade(b)` for bytes `b`, the colours that
/// [`compute_colors_rmp`] computes of that chunk are, position by position, `positions[i]`
/// with `shade(code(positions[i]))`.
pub proof fn lemma_colors_of_encoded_cells<F: Fn([u32; 2]) -> Vec<u8>, G: Fn(&[u8]) -> [u8; 3]>(
    positions: Seq<[u32; 2]>,
    encode: F,
    code: spec_fn([u32; 2]) -> Seq<u8>,
    chunk: RChunk,
    color_of: G,
    shade: spec_fn(Seq<u8>) -> [u8; 3],
    colors: Seq<RColor>,
)
    requires
        forall|p: [u32; 2], e: Vec<u8>| #[trigger] call_ensures(encode, (p,), e) ==> e@ == code(p),
        forall|b: &[u8], c: [u8; 3]| #[trigger] call_ensures(color_of, (b,), c) ==> c == shade(b@),
        chunk.wf(),
        chunk.entries().len() == positions.len(),
        forall|i: int|
            0 <= i < positions.len() ==> {
                &&& (#[trigger] chunk.entries()[i]).0 == positions[i]
                &&& exists|e: Vec<u8>| e@ == chunk.segment(i) && call_ensures(encode, (positions[i],), e)
            },
        colors.len() == chunk.entries().len(),
        forall|i: int|
            0 <= i < colors.len() ==> {
                &&& (#[trigger] colors[i]).pos == chunk.entries()[i].0
                &&& exists|b: &[u8]| b@ == chunk.segment(i) && call_ensures(color_of, (b,), colors[i].rgb)
            },
    ensures
        colors.len() == positions.len(),
        forall|i: int|
            0 <= i < positions.len() ==> #[trigger] colors[i] == (RColor {
                pos: positions[i],
                rgb: shade(code(positions[i])),
            }),
{
    assert forall|i: int| 0 <= i < positions.len() implies #[trigger] colors[i] == (RColor {
        pos: positions[i],
        rgb: shade(code(positions[i])),
    }) by {
        assert(chunk.entries()[i].0 == positions[i]);
        let e = choose|e: Vec<u8>| e@ == chunk.segment(i) && call_ensures(encode, (positions[i],), e);
        assert(e@ == code(positions[i]));
        assert(colors[i].pos == chunk.entries()[i].0);
        let b = choose|b: &[u8]| b@ == chunk.segment(i) && call_ensures(color_of, (b,), colors[i].rgb);
        assert(colors[i].rgb == shade(b@));
    }
}

} // verus!
