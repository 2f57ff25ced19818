//! The meshing core: hidden-surface culling over the opaque bitset, then a
//! per-face greedy merge of visible same-material cells into quads.

use vstd::prelude::*;

use crate::CS;
use crate::CS_2;
use crate::CS_P;
use crate::CS_P2;
use crate::CS_P3;
use crate::data::rle::bit64;
use crate::data::rle::mask_bit;
use crate::zxy_index;

verus! {

broadcast use vstd::array::group_array_axioms;

/// One merged rectangle, packed for the rendering boundary.
///
/// `quad_data1` holds the geometry in five 6-bit fields: local x in bits
/// 0..=5, y in 6..=11, z in 12..=17, width in 18..=23, height in 24..=29.
/// `quad_data2` holds the material id. This layout is a wire contract and
/// must not change.
#[derive(Clone, Copy, Debug, PartialEq, Eq, Structural)]
pub struct QuadData {
    pub quad_data1: u32,
    pub quad_data2: u32,
}

impl Default for QuadData {
    /// The all-zero record used to prefill scratch buffers.
    fn default() -> (q: QuadData)
        ensures
            q.quad_data1 == 0,
            q.quad_data2 == 0,
    {
        QuadData { quad_data1: 0, quad_data2: 0 }
    }
}

/// The packed first word of a quad record, as mixed-radix arithmetic.
pub open spec fn quad_word(x: u32, y: u32, z: u32, w: u32, h: u32) -> u32 {
    (x + y * 0x40 + z * 0x1000 + w * 0x40000 + h * 0x1000000) as u32
}

/// Geometry fields read back from a packed quad word.
pub open spec fn quad_x(q: QuadData) -> u32 {
    (q.quad_data1 % 0x40) as u32
}

pub open spec fn quad_y(q: QuadData) -> u32 {
    ((q.quad_data1 / 0x40) % 0x40) as u32
}

pub open spec fn quad_z(q: QuadData) -> u32 {
    ((q.quad_data1 / 0x1000) % 0x40) as u32
}

pub open spec fn quad_w(q: QuadData) -> u32 {
    ((q.quad_data1 / 0x40000) % 0x40) as u32
}

pub open spec fn quad_h(q: QuadData) -> u32 {
    ((q.quad_data1 / 0x1000000) % 0x40) as u32
}

/// Packing is exact: each field of a packed record reads back unchanged, and
/// the five 6-bit fields leave the two topmost bits clear.
pub proof fn lemma_quad_word_fields(x: u32, y: u32, z: u32, w: u32, h: u32)
    by (bit_vector)
    requires
        x < 0x40,
        y < 0x40,
        z < 0x40,
        w < 0x40,
        h < 0x40,
    ensures
        quad_word(x, y, z, w, h) % 0x40 == x,
        (quad_word(x, y, z, w, h) / 0x40) % 0x40 == y,
        (quad_word(x, y, z, w, h) / 0x1000) % 0x40 == z,
        (quad_word(x, y, z, w, h) / 0x40000) % 0x40 == w,
        (quad_word(x, y, z, w, h) / 0x1000000) % 0x40 == h,
        quad_word(x, y, z, w, h) < 0x4000_0000,
{
}

/// Packs merged-rectangle geometry and a material id into the two-word quad
/// record. All geometric fields must fit in 6 bits.
fn get_quad(x: u32, y: u32, z: u32, w: u32, h: u32, ty: u32) -> (q: QuadData)
    requires
        x < 0x40,
        y < 0x40,
        z < 0x40,
        w < 0x40,
        h < 0x40,
    ensures
        q.quad_data1 == quad_word(x, y, z, w, h),
        q.quad_data2 == ty,
{
    proof {
        assert((h << 24) | (w << 18) | (z << 12) | (y << 6) | x
            == x + y * 0x40 + z * 0x1000 + w * 0x40000 + h * 0x1000000) by (bit_vector)
            requires
                x < 0x40 && y < 0x40 && z < 0x40 && w < 0x40 && h < 0x40,
        ;
    }
    let quad_data1 = (h << 24) | (w << 18) | (z << 12) | (y << 6) | x;
    QuadData { quad_data1, quad_data2: ty }
}

/// A quad whose geometry stays within the interior bounds: coordinates at
/// most `CS`, extents between 1 and `CS`, and the two bits above the five
/// 6-bit fields clear.
pub open spec fn quad_geom_wf(q: QuadData) -> bool {
    &&& quad_x(q) <= 62
    &&& quad_y(q) <= 62
    &&& quad_z(q) <= 62
    &&& 1 <= quad_w(q) <= 62
    &&& 1 <= quad_h(q) <= 62
    &&& q.quad_data1 < 0x4000_0000
}

/// Per-chunk meshing workspace: the opaque bitset input, the derived
/// face-visibility masks, the greedy-merge run counters, and the emitted
/// quads with their per-face ranges.
#[derive(Debug)]
pub struct MeshData {
    /// Six groups of `CS_2` visibility words, one group per face direction.
    pub face_masks: Vec<u64>,
    /// `CS_P2` words, one per padded column; bit `i % 64` of word `i / 64`
    /// marks cell `i` as non-empty.
    pub opaque_mask: Vec<u64>,
    /// Forward-run counters: one per lateral bit position for the lateral
    /// sweeps, one per `(right, vertical)` pair for the vertical sweeps.
    pub forward_merged: Vec<u8>,
    /// Right-run counters for the vertical sweeps, one per vertical position.
    pub right_merged: Vec<u8>,
    /// The emitted quads, grouped by face.
    pub vertices: Vec<QuadData>,
    /// First quad index of each face's group.
    pub face_vertex_begin: [usize; 6],
    /// Quad count of each face's group.
    pub face_vertex_length: [usize; 6],
}

impl MeshData {
    /// The buffer lengths every meshing call relies on.
    pub open spec fn wf(self) -> bool {
        &&& self.face_masks.len() == 6 * CS_2
        &&& self.opaque_mask.len() == CS_P2
        &&& self.forward_merged.len() == CS_2
        &&& self.right_merged.len() == CS
    }

    /// A fresh workspace with zeroed masks and counters and room for
    /// `initial_quads` quad records.
    pub fn new(initial_quads: usize) -> (m: MeshData)
        ensures
            m.wf(),
            forall|w: int| 0 <= w < CS_P2 ==> m.opaque_mask@[w] == 0u64,
            forall|w: int| 0 <= w < 6 * CS_2 ==> m.face_masks@[w] == 0u64,
            forall|i: int| 0 <= i < CS_2 ==> m.forward_merged@[i] == 0u8,
            forall|i: int| 0 <= i < CS ==> m.right_merged@[i] == 0u8,
            m.vertices.len() == initial_quads,
            forall|k: int|
                0 <= k < initial_quads ==> m.vertices@[k] == (QuadData {
                    quad_data1: 0,
                    quad_data2: 0,
                }),
            forall|f: int| 0 <= f < 6 ==> m.face_vertex_begin[f] == 0,
            forall|f: int| 0 <= f < 6 ==> m.face_vertex_length[f] == 0,
    {
        MeshData {
            face_masks: zeroed_u64_vec(6 * CS_2),
            opaque_mask: zeroed_u64_vec(CS_P2),
            forward_merged: zeroed_u8_vec(CS_2),
            right_merged: zeroed_u8_vec(CS),
            vertices: zeroed_quad_vec(initial_quads),
            face_vertex_begin: [0; 6],
            face_vertex_length: [0; 6],
        }
    }

    /// Clears everything a meshing pass writes, keeping the allocations and
    /// leaving the opaque bitset untouched for the caller to refill.
    pub fn clear_runtime(&mut self)
        requires
            old(self).wf(),
        ensures
            final(self).wf(),
            final(self).opaque_mask@ == old(self).opaque_mask@,
            final(self).vertices.len() == old(self).vertices.len(),
            forall|k: int|
                0 <= k < final(self).vertices.len() ==> final(self).vertices@[k] == (QuadData {
                    quad_data1: 0,
                    quad_data2: 0,
                }),
            forall|w: int| 0 <= w < 6 * CS_2 ==> final(self).face_masks@[w] == 0u64,
            forall|i: int| 0 <= i < CS_2 ==> final(self).forward_merged@[i] == 0u8,
            forall|i: int| 0 <= i < CS ==> final(self).right_merged@[i] == 0u8,
            forall|f: int| 0 <= f < 6 ==> final(self).face_vertex_begin[f] == 0,
            forall|f: int| 0 <= f < 6 ==> final(self).face_vertex_length[f] == 0,
    {
        let quad_count = self.vertices.len();
        let mut k: usize = 0;
        while k < quad_count
            invariant
                k <= quad_count,
                old(self).wf(),
                self.wf(),
                self.vertices.len() == quad_count,
                self.opaque_mask@ == old(self).opaque_mask@,
                forall|i: int|
                    0 <= i < k ==> self.vertices@[i] == (QuadData {
                        quad_data1: 0,
                        quad_data2: 0,
                    }),
            decreases quad_count - k,
        {
            self.vertices.set(k, QuadData { quad_data1: 0, quad_data2: 0 });
            k = k + 1;
        }
        let mask_count = self.face_masks.len();
        let mut w: usize = 0;
        while w < mask_count
            invariant
                w <= mask_count,
                old(self).wf(),
                self.wf(),
                self.face_masks.len() == mask_count,
                self.vertices.len() == quad_count,
                self.opaque_mask@ == old(self).opaque_mask@,
                forall|i: int|
                    0 <= i < quad_count ==> self.vertices@[i] == (QuadData {
                        quad_data1: 0,
                        quad_data2: 0,
                    }),
                forall|i: int| 0 <= i < w ==> self.face_masks@[i] == 0u64,
            decreases mask_count - w,
        {
            self.face_masks.set(w, 0u64);
            w = w + 1;
        }
        let fwd_count = self.forward_merged.len();
        let mut i: usize = 0;
        while i < fwd_count
            invariant
                i <= fwd_count,
                old(self).wf(),
                self.wf(),
                self.forward_merged.len() == fwd_count,
                self.vertices.len() == quad_count,
                self.opaque_mask@ == old(self).opaque_mask@,
                forall|j: int|
                    0 <= j < quad_count ==> self.vertices@[j] == (QuadData {
                        quad_data1: 0,
                        quad_data2: 0,
                    }),
                forall|j: int| 0 <= j < 6 * CS_2 ==> self.face_masks@[j] == 0u64,
                forall|j: int| 0 <= j < i ==> self.forward_merged@[j] == 0u8,
            decreases fwd_count - i,
        {
            self.forward_merged.set(i, 0u8);
            i = i + 1;
        }
        let right_count = self.right_merged.len();
        let mut r: usize = 0;
        while r < right_count
            invariant
                r <= right_count,
                old(self).wf(),
                self.wf(),
                self.right_merged.len() == right_count,
                self.vertices.len() == quad_count,
                self.opaque_mask@ == old(self).opaque_mask@,
                forall|j: int|
                    0 <= j < quad_count ==> self.vertices@[j] == (QuadData {
                        quad_data1: 0,
                        quad_data2: 0,
                    }),
                forall|j: int| 0 <= j < 6 * CS_2 ==> self.face_masks@[j] == 0u64,
                forall|j: int| 0 <= j < CS_2 ==> self.forward_merged@[j] == 0u8,
                forall|j: int| 0 <= j < r ==> self.right_merged@[j] == 0u8,
            decreases right_count - r,
        {
            self.right_merged.set(r, 0u8);
            r = r + 1;
        }
        self.face_vertex_begin = [0; 6];
        self.face_vertex_length = [0; 6];
    }
}

/// A vector of `n` zero words.
fn zeroed_u64_vec(n: usize) -> (v: Vec<u64>)
    ensures
        v.len() == n,
        forall|i: int| 0 <= i < n ==> v@[i] == 0u64,
{
    let mut v: Vec<u64> = Vec::new();
    let mut k: usize = 0;
    while k < n
        invariant
            k <= n,
            v.len() == k,
            forall|i: int| 0 <= i < k ==> v@[i] == 0u64,
        decreases n - k,
    {
        v.push(0u64);
        k = k + 1;
    }
    v
}

/// A vector of `n` zero bytes.
fn zeroed_u8_vec(n: usize) -> (v: Vec<u8>)
    ensures
        v.len() == n,
        forall|i: int| 0 <= i < n ==> v@[i] == 0u8,
{
    let mut v: Vec<u8> = Vec::new();
    let mut k: usize = 0;
    while k < n
        invariant
            k <= n,
            v.len() == k,
            forall|i: int| 0 <= i < k ==> v@[i] == 0u8,
        decreases n - k,
    {
        v.push(0u8);
        k = k + 1;
    }
    v
}

/// A vector of `n` zero quad records.
fn zeroed_quad_vec(n: usize) -> (v: Vec<QuadData>)
    ensures
        v.len() == n,
        forall|i: int|
            0 <= i < n ==> v@[i] == (QuadData { quad_data1: 0, quad_data2: 0 }),
{
    let mut v: Vec<QuadData> = Vec::new();
    let mut k: usize = 0;
    while k < n
        invariant
            k <= n,
            v.len() == k,
            forall|i: int| 0 <= i < k ==> v@[i] == (QuadData { quad_data1: 0, quad_data2: 0 }),
        decreases n - k,
    {
        v.push(QuadData { quad_data1: 0, quad_data2: 0 });
        k = k + 1;
    }
    v
}

/// Mask that drops the two halo bits (positions 0 and 63) of a column word.
pub const P_MASK: u64 = 0x7FFF_FFFF_FFFF_FFFE;

/// The visibility word the culling pass derives for one face and one column.
///
/// `c` is the in-word column index and `l` the outer column index of the
/// face's `CS x CS` mask table; bit `i` of the result marks an interior cell
/// exposed in that face's direction. Faces 0 and 1 look one column over along
/// the layer axis, faces 2 and 3 along the row axis (with the table
/// transposed), and faces 4 and 5 along the depth axis folded into the word
/// itself.
pub open spec fn cull_word(om: Seq<u64>, face: int, c: int, l: int) -> u64 {
    if face == 0 {
        ((om[(l + 1) * 64 + (c + 1)] & P_MASK) & !om[(l + 2) * 64 + (c + 1)]) >> 1u64
    } else if face == 1 {
        ((om[(l + 1) * 64 + (c + 1)] & P_MASK) & !om[l * 64 + (c + 1)]) >> 1u64
    } else if face == 2 {
        ((om[(c + 1) * 64 + (l + 1)] & P_MASK) & !om[(c + 1) * 64 + (l + 2)]) >> 1u64
    } else if face == 3 {
        ((om[(c + 1) * 64 + (l + 1)] & P_MASK) & !om[(c + 1) * 64 + l]) >> 1u64
    } else if face == 4 {
        (om[(l + 1) * 64 + (c + 1)] & P_MASK) & !(om[(l + 1) * 64 + (c + 1)] >> 1u64)
    } else {
        (om[(l + 1) * 64 + (c + 1)] & P_MASK) & !(om[(l + 1) * 64 + (c + 1)] << 1u64)
    }
}

/// A lateral-sweep visibility word never has bits 62 or 63 set.
pub open spec fn mask_lateral_wf(v: u64) -> bool {
    forall|j: u64| 62 <= j < 64 ==> !bit64(v, j)
}

/// A vertical-sweep visibility word never has its halo bits 0 or 63 set.
pub open spec fn mask_vertical_wf(v: u64) -> bool {
    !bit64(v, 0) && !bit64(v, 63)
}

proof fn lemma_cull_lateral_wf(y: u64, z: u64)
    by (bit_vector)
    ensures
        forall|j: u64|
            62 <= j < 64 ==> (((((y & 0x7FFF_FFFF_FFFF_FFFEu64) & z) >> 1u64) >> j) & 1) != 1,
{
}

proof fn lemma_cull_vertical_wf(y: u64, z: u64)
    by (bit_vector)
    ensures
        ((((y & 0x7FFF_FFFF_FFFF_FFFEu64) & z) >> 0u64) & 1) != 1,
        ((((y & 0x7FFF_FFFF_FFFF_FFFEu64) & z) >> 63u64) & 1) != 1,
{
}

proof fn lemma_shifted_cull_bits(y: u64, n: u64, p: u64)
    by (bit_vector)
    requires
        p < 64,
    ensures
        bit64(((y & 0x7FFF_FFFF_FFFF_FFFEu64) & !n) >> 1u64, p) <==> (p < 62 && bit64(
            y,
            (p + 1) as u64,
        ) && !bit64(n, (p + 1) as u64)),
{
}

proof fn lemma_vertical_up_bits(y: u64, p: u64)
    by (bit_vector)
    requires
        p < 64,
    ensures
        bit64((y & 0x7FFF_FFFF_FFFF_FFFEu64) & !(y >> 1u64), p) <==> (1 <= p <= 62 && bit64(y, p)
            && !bit64(y, (p + 1) as u64)),
{
}

proof fn lemma_vertical_down_bits(y: u64, p: u64)
    by (bit_vector)
    requires
        p < 64,
    ensures
        bit64((y & 0x7FFF_FFFF_FFFF_FFFEu64) & !(y << 1u64), p) <==> (1 <= p <= 62 && bit64(y, p)
            && !bit64(y, (p - 1) as u64)),
{
}

/// What a visibility bit means at the voxel level: when the opaque bitset
/// marks exactly the non-empty cells of a volume, bit `p` of the face-`face`
/// cull word for column `(c, l)` is set exactly when the interior cell it
/// names is non-empty and its neighbor in that face's direction is empty.
/// No halo cell's bit is ever set.
pub proof fn lemma_cull_word_semantics(
    om: Seq<u64>,
    v: Seq<u8>,
    face: int,
    c: int,
    l: int,
    p: u64,
)
    requires
        om.len() == CS_P2,
        v.len() == CS_P3,
        forall|i: int| 0 <= i < CS_P3 ==> (mask_bit(om, i) <==> v[i] != 0),
        0 <= face < 6,
        0 <= c < 62,
        0 <= l < 62,
        p < 64,
    ensures
        face == 0 ==> (bit64(cull_word(om, face, c, l), p) <==> (p < 62 && v[zxy_index(
            c + 1,
            l + 1,
            p + 1,
        )] != 0 && v[zxy_index(c + 1, l + 2, p + 1)] == 0)),
        face == 1 ==> (bit64(cull_word(om, face, c, l), p) <==> (p < 62 && v[zxy_index(
            c + 1,
            l + 1,
            p + 1,
        )] != 0 && v[zxy_index(c + 1, l, p + 1)] == 0)),
        face == 2 ==> (bit64(cull_word(om, face, c, l), p) <==> (p < 62 && v[zxy_index(
            l + 1,
            c + 1,
            p + 1,
        )] != 0 && v[zxy_index(l + 2, c + 1, p + 1)] == 0)),
        face == 3 ==> (bit64(cull_word(om, face, c, l), p) <==> (p < 62 && v[zxy_index(
            l + 1,
            c + 1,
            p + 1,
        )] != 0 && v[zxy_index(l, c + 1, p + 1)] == 0)),
        face == 4 ==> (bit64(cull_word(om, face, c, l), p) <==> (1 <= p <= 62 && v[zxy_index(
            c + 1,
            l + 1,
            p as int,
        )] != 0 && v[zxy_index(c + 1, l + 1, p + 1)] == 0)),
        face == 5 ==> (bit64(cull_word(om, face, c, l), p) <==> (1 <= p <= 62 && v[zxy_index(
            c + 1,
            l + 1,
            p as int,
        )] != 0 && v[zxy_index(c + 1, l + 1, p - 1)] == 0)),
{
    if face == 0 || face == 1 {
        let w1 = (l + 1) * 64 + (c + 1);
        let w2 = if face == 0 {
            (l + 2) * 64 + (c + 1)
        } else {
            l * 64 + (c + 1)
        };
        lemma_shifted_cull_bits(om[w1], om[w2], p);
        if p < 62 {
            crate::data::rle::lemma_word_of_idx(w1, p + 1);
            crate::data::rle::lemma_word_of_idx(w2, p + 1);
            assert(mask_bit(om, w1 * 64 + (p + 1)) <==> v[w1 * 64 + (p + 1)] != 0);
            assert(mask_bit(om, w2 * 64 + (p + 1)) <==> v[w2 * 64 + (p + 1)] != 0);
        }
    } else if face == 2 || face == 3 {
        let w1 = (c + 1) * 64 + (l + 1);
        let w2 = if face == 2 {
            (c + 1) * 64 + (l + 2)
        } else {
            (c + 1) * 64 + l
        };
        lemma_shifted_cull_bits(om[w1], om[w2], p);
        if p < 62 {
            crate::data::rle::lemma_word_of_idx(w1, p + 1);
            crate::data::rle::lemma_word_of_idx(w2, p + 1);
            assert(mask_bit(om, w1 * 64 + (p + 1)) <==> v[w1 * 64 + (p + 1)] != 0);
            assert(mask_bit(om, w2 * 64 + (p + 1)) <==> v[w2 * 64 + (p + 1)] != 0);
        }
    } else {
        let w1 = (l + 1) * 64 + (c + 1);
        if face == 4 {
            lemma_vertical_up_bits(om[w1], p);
        } else {
            lemma_vertical_down_bits(om[w1], p);
        }
        if 1 <= p <= 62 {
            crate::data::rle::lemma_word_of_idx(w1, p as int);
            assert(mask_bit(om, w1 * 64 + p) <==> v[w1 * 64 + p] != 0);
            if face == 4 {
                crate::data::rle::lemma_word_of_idx(w1, p + 1);
                assert(mask_bit(om, w1 * 64 + (p + 1)) <==> v[w1 * 64 + (p + 1)] != 0);
            } else {
                crate::data::rle::lemma_word_of_idx(w1, p - 1);
                assert(mask_bit(om, w1 * 64 + (p - 1)) <==> v[w1 * 64 + (p - 1)] != 0);
            }
        }
    }
}

/// Which `(face, c, l)` mask entries a culling sweep that has reached outer
/// index `a` and inner index `b` has already written.
pub open spec fn cull_written(face: int, c: int, l: int, a: int, b: int) -> bool {
    if face == 2 || face == 3 {
        c < a - 1 || (c == a - 1 && l < b - 1)
    } else {
        l < a - 1 || (l == a - 1 && c < b - 1)
    }
}

/// Derives the six face-visibility mask tables from the opaque bitset: for
/// every interior column, each face's word marks the cells whose neighbor in
/// that direction is empty, shifted so bit 0 is interior depth 1. The result
/// is a function of the opaque bitset alone.
pub fn build_face_masks(face_masks: &mut Vec<u64>, opaque_mask: &Vec<u64>)
    requires
        old(face_masks).len() == 6 * CS_2,
        opaque_mask.len() == CS_P2,
    ensures
        final(face_masks).len() == 6 * CS_2,
        forall|face: int, c: int, l: int|
            0 <= face < 6 && 0 <= c < 62 && 0 <= l < 62 ==> final(face_masks)@[face * 3844 + l * 62
                + c] == #[trigger] cull_word(opaque_mask@, face, c, l),
        forall|w: int| 0 <= w < 4 * 3844 ==> mask_lateral_wf(#[trigger] final(face_masks)@[w]),
        forall|w: int|
            4 * 3844 <= w < 6 * 3844 ==> mask_vertical_wf(#[trigger] final(face_masks)@[w]),
{
    let mut a: usize = 1;
    while a < CS_P - 1
        invariant
            opaque_mask.len() == CS_P2,
            face_masks.len() == 6 * CS_2,
            1 <= a <= 63,
            forall|face: int, c: int, l: int|
                0 <= face < 6 && 0 <= c < 62 && 0 <= l < 62 && cull_written(
                    face,
                    c,
                    l,
                    a as int,
                    1,
                ) ==> face_masks@[face * 3844 + l * 62 + c] == #[trigger] cull_word(
                    opaque_mask@,
                    face,
                    c,
                    l,
                ),
        decreases CS_P - 1 - a,
    {
        let a_cs_p = a * CS_P;
        let mut b: usize = 1;
        while b < CS_P - 1
            invariant
                opaque_mask.len() == CS_P2,
                face_masks.len() == 6 * CS_2,
                1 <= a <= 62,
                1 <= b <= 63,
                a_cs_p == a * CS_P,
                forall|face: int, c: int, l: int|
                    0 <= face < 6 && 0 <= c < 62 && 0 <= l < 62 && cull_written(
                        face,
                        c,
                        l,
                        a as int,
                        b as int,
                    ) ==> face_masks@[face * 3844 + l * 62 + c] == #[trigger] cull_word(
                        opaque_mask@,
                        face,
                        c,
                        l,
                    ),
            decreases CS_P - 1 - b,
        {
            let column_bits = opaque_mask[a_cs_p + b] & P_MASK;
            let ba_index = (b - 1) + (a - 1) * CS;
            let ab_index = (a - 1) + (b - 1) * CS;

            face_masks.set(ba_index, (column_bits & !opaque_mask[a_cs_p + CS_P + b]) >> 1u64);
            face_masks.set(
                ba_index + CS_2,
                (column_bits & !opaque_mask[a_cs_p - CS_P + b]) >> 1u64,
            );
            face_masks.set(
                ab_index + 2 * CS_2,
                (column_bits & !opaque_mask[a_cs_p + (b + 1)]) >> 1u64,
            );
            face_masks.set(
                ab_index + 3 * CS_2,
                (column_bits & !opaque_mask[a_cs_p + (b - 1)]) >> 1u64,
            );
            face_masks.set(ba_index + 4 * CS_2, column_bits & !(opaque_mask[a_cs_p + b] >> 1u64));
            face_masks.set(ba_index + 5 * CS_2, column_bits & !(opaque_mask[a_cs_p + b] << 1u64));

            proof {
                let av = a as int;
                let bv = b as int;
                assert forall|face: int, c: int, l: int|
                    0 <= face < 6 && 0 <= c < 62 && 0 <= l < 62 && cull_written(
                        face,
                        c,
                        l,
                        av,
                        bv + 1,
                    ) implies face_masks@[face * 3844 + l * 62 + c] == #[trigger] cull_word(
                    opaque_mask@,
                    face,
                    c,
                    l,
                ) by {
                    if !cull_written(face, c, l, av, bv) {
                        if face == 2 || face == 3 {
                            assert(c == av - 1 && l == bv - 1);
                        } else {
                            assert(l == av - 1 && c == bv - 1);
                        }
                    }
                }
            }
            b = b + 1;
        }
        a = a + 1;
    }
    proof {
        assert forall|w: int| 0 <= w < 4 * 3844 implies mask_lateral_wf(
            #[trigger] face_masks@[w],
        ) by {
            lemma_face_word_decomp(w);
            let face = w / 3844;
            let l = (w % 3844) / 62;
            let c = (w % 3844) % 62;
            assert(face_masks@[face * 3844 + l * 62 + c] == cull_word(opaque_mask@, face, c, l));
            let om = opaque_mask@;
            if face == 0 {
                lemma_cull_lateral_wf(om[(l + 1) * 64 + (c + 1)], !om[(l + 2) * 64 + (c + 1)]);
            } else if face == 1 {
                lemma_cull_lateral_wf(om[(l + 1) * 64 + (c + 1)], !om[l * 64 + (c + 1)]);
            } else if face == 2 {
                lemma_cull_lateral_wf(om[(c + 1) * 64 + (l + 1)], !om[(c + 1) * 64 + (l + 2)]);
            } else {
                lemma_cull_lateral_wf(om[(c + 1) * 64 + (l + 1)], !om[(c + 1) * 64 + l]);
            }
        }
        assert forall|w: int| 4 * 3844 <= w < 6 * 3844 implies mask_vertical_wf(
            #[trigger] face_masks@[w],
        ) by {
            lemma_face_word_decomp(w);
            let face = w / 3844;
            let l = (w % 3844) / 62;
            let c = (w % 3844) % 62;
            assert(face_masks@[face * 3844 + l * 62 + c] == cull_word(opaque_mask@, face, c, l));
            let om = opaque_mask@;
            if face == 4 {
                lemma_cull_vertical_wf(om[(l + 1) * 64 + (c + 1)], !(om[(l + 1) * 64 + (c + 1)]
                    >> 1u64));
            } else {
                lemma_cull_vertical_wf(om[(l + 1) * 64 + (c + 1)], !(om[(l + 1) * 64 + (c + 1)]
                    << 1u64));
            }
        }
    }
}

/// Splits a flat mask-table index into its face, outer and in-word parts.
proof fn lemma_face_word_decomp(w: int)
    requires
        0 <= w < 6 * 3844,
    ensures
        w == (w / 3844) * 3844 + ((w % 3844) / 62) * 62 + ((w % 3844) % 62),
        0 <= w / 3844 < 6,
        0 <= (w % 3844) / 62 < 62,
        0 <= (w % 3844) % 62 < 62,
{
    vstd::arithmetic::div_mod::lemma_fundamental_div_mod(w, 3844);
    vstd::arithmetic::div_mod::lemma_fundamental_div_mod(w % 3844, 62);
}

/// Clearing one bit keeps every other bit and strictly shrinks the word when
/// the bit was set.
proof fn lemma_clear_bit(a: u64, p: u64)
    by (bit_vector)
    requires
        p < 64,
    ensures
        forall|j: u64|
            #![trigger bit64(a & !(1u64 << p), j)]
            j < 64 ==> (bit64(a & !(1u64 << p), j) <==> (bit64(a, j) && j != p)),
        bit64(a, p) ==> (a & !(1u64 << p)) < a,
{
}

/// Clearing all bits below `k` keeps the bits from `k` up and strictly
/// shrinks the word when some bit below `k` was set.
proof fn lemma_clear_low(a: u64, k: u64, p: u64)
    by (bit_vector)
    requires
        k <= 63,
        p < k,
        bit64(a, p),
    ensures
        forall|j: u64|
            #![trigger bit64(a & !(((1u64 << k) - 1) as u64), j)]
            j < 64 ==> (bit64(a & !(((1u64 << k) - 1) as u64), j) <==> (bit64(a, j) && j >= k)),
        (a & !(((1u64 << k) - 1) as u64)) < a,
{
}

/// The lowest set bit of a non-zero lateral visibility word: it exists, it is
/// at most 61, and it really is set.
proof fn lowest_bit_facts(v: u64, tz: u32)
    requires
        v != 0,
        tz == vstd::std_specs::bits::u64_trailing_zeros(v),
    ensures
        tz < 64,
        bit64(v, tz as u64),
        mask_lateral_wf(v) ==> tz <= 61,
        mask_vertical_wf(v) ==> 1 <= tz <= 62,
{
    vstd::std_specs::bits::axiom_u64_trailing_zeros(v);
    assert(bit64(v, tz as u64));
    if mask_lateral_wf(v) {
        if tz >= 62 {
            assert(!bit64(v, tz as u64));
        }
    }
    if mask_vertical_wf(v) {
        if tz == 0 || tz == 63 {
            assert(!bit64(v, tz as u64));
        }
        if tz >= 63 {
            assert(!bit64(v, 63u64));
        }
    }
}

/// Linear voxel index for a sweep: which padded coordinate each sweep
/// variable stands for depends on the face's axis.
pub open spec fn axis_index(axis: int, a: int, b: int, c: int) -> int {
    if axis == 0 {
        b + a * 64 + c * 4096
    } else if axis == 1 {
        b + c * 64 + a * 4096
    } else {
        c + a * 64 + b * 4096
    }
}

/// Number of set bits below position `n` of a word.
pub open spec fn pop_below(w: u64, n: int) -> int
    decreases n,
{
    if n <= 0 {
        0
    } else {
        pop_below(w, n - 1) + if bit64(w, (n - 1) as u64) {
            1int
        } else {
            0int
        }
    }
}

/// Popcount of a word.
pub open spec fn pop64(w: u64) -> int {
    pop_below(w, 64)
}

/// Total popcount of the words `lo .. lo + n` of a mask table.
pub open spec fn masks_pop(ms: Seq<u64>, lo: int, n: int) -> int
    decreases n,
{
    if n <= 0 {
        0
    } else {
        masks_pop(ms, lo, n - 1) + pop64(ms[lo + n - 1])
    }
}

/// Total area of the quads `lo .. hi` of a quad list.
pub open spec fn area_sum(qs: Seq<QuadData>, lo: int, hi: int) -> int
    decreases hi - lo,
{
    if hi <= lo {
        0
    } else {
        area_sum(qs, lo, hi - 1) + quad_w(qs[hi - 1]) * quad_h(qs[hi - 1])
    }
}

/// Sum of the first `n` run counters.
pub open spec fn sum_bytes(fm: Seq<u8>, n: int) -> int
    decreases n,
{
    if n <= 0 {
        0
    } else {
        sum_bytes(fm, n - 1) + fm[n - 1]
    }
}

/// Clearing one set bit lowers the popcount by exactly one.
proof fn lemma_pop_clear_bit(a: u64, b: u64, p: u64, n: int)
    requires
        p < 64,
        bit64(a, p),
        forall|j: u64| j < 64 ==> (bit64(b, j) <==> (bit64(a, j) && j != p)),
        0 <= n <= 64,
    ensures
        pop_below(b, n) == pop_below(a, n) - (if (p as int) < n {
            1int
        } else {
            0int
        }),
    decreases n,
{
    if n > 0 {
        lemma_pop_clear_bit(a, b, p, n - 1);
    }
}

/// Clearing everything below `k` removes exactly the bits counted below `k`.
proof fn lemma_pop_clear_low(a: u64, b: u64, k: u64, n: int)
    requires
        k <= 63,
        forall|j: u64| j < 64 ==> (bit64(b, j) <==> (bit64(a, j) && j >= k)),
        0 <= n <= 64,
    ensures
        n <= k ==> pop_below(b, n) == 0,
        n >= k ==> pop_below(b, n) == pop_below(a, n) - pop_below(a, k as int),
    decreases n,
{
    if n > 0 {
        lemma_pop_clear_low(a, b, k, n - 1);
    }
}

/// A word whose bits form one run starting at `lo` counts its length below
/// the run's end.
proof fn lemma_pop_interval(a: u64, lo: int, hi: int)
    requires
        0 <= lo <= hi <= 64,
        forall|j: u64| j < lo ==> !bit64(a, j),
        forall|j: u64| lo <= j < hi ==> bit64(a, j),
    ensures
        pop_below(a, hi) == hi - lo,
    decreases hi,
{
    if hi <= lo {
        lemma_pop_below_none(a, lo, hi);
    } else {
        lemma_pop_interval(a, lo, hi - 1);
    }
}

/// No bit below `n` set means nothing counted below `n`.
proof fn lemma_pop_below_none(a: u64, lo: int, n: int)
    requires
        0 <= n <= lo,
        forall|j: u64| j < lo ==> !bit64(a, j),
    ensures
        pop_below(a, n) == 0,
    decreases n,
{
    if n > 0 {
        lemma_pop_below_none(a, lo, n - 1);
    }
}

/// The popcount of a zero word is zero.
proof fn lemma_pop_zero(n: int)
    requires
        0 <= n <= 64,
    ensures
        pop_below(0u64, n) == 0,
    decreases n,
{
    if n > 0 {
        lemma_pop_zero(n - 1);
        assert(forall|j: u64| j < 64 ==> ((0u64 >> j) & 1) != 1) by (bit_vector);
    }
}

/// Updating one counter shifts the sum by the difference.
proof fn lemma_sum_bytes_update(pre: Seq<u8>, post: Seq<u8>, i: int, v: u8, n: int)
    requires
        0 <= i < pre.len(),
        n <= pre.len(),
        post == pre.update(i, v),
    ensures
        i < n ==> sum_bytes(post, n) == sum_bytes(pre, n) - pre[i] + v,
        i >= n ==> sum_bytes(post, n) == sum_bytes(pre, n),
    decreases n,
{
    if n > 0 {
        lemma_sum_bytes_update(pre, post, i, v, n - 1);
    }
}

/// All-zero counters sum to zero.
proof fn lemma_sum_bytes_zero(fm: Seq<u8>, n: int)
    requires
        0 <= n <= fm.len(),
        forall|j: int| 0 <= j < n ==> fm[j] == 0,
    ensures
        sum_bytes(fm, n) == 0,
    decreases n,
{
    if n > 0 {
        lemma_sum_bytes_zero(fm, n - 1);
    }
}

/// Appending one quad adds its area.
proof fn lemma_area_sum_push(pre: Seq<QuadData>, post: Seq<QuadData>, lo: int, q: QuadData)
    requires
        0 <= lo <= pre.len(),
        post == pre.push(q),
    ensures
        area_sum(post, lo, post.len() as int) == area_sum(pre, lo, pre.len() as int) + quad_w(q)
            * quad_h(q),
{
    lemma_area_sum_prefix(pre, post, lo, pre.len() as int);
}

/// The area of a range depends only on the quads in it.
proof fn lemma_area_sum_prefix(pre: Seq<QuadData>, post: Seq<QuadData>, lo: int, hi: int)
    requires
        0 <= lo,
        hi <= pre.len(),
        hi <= post.len(),
        forall|k: int| lo <= k < hi ==> post[k] == pre[k],
    ensures
        area_sum(post, lo, hi) == area_sum(pre, lo, hi),
    decreases hi - lo,
{
    if hi > lo {
        lemma_area_sum_prefix(pre, post, lo, hi - 1);
    }
}

/// The material at the head of a merge run: the cell the sweep reads at the
/// current forward row, bit position `p` and layer `lay`.
pub open spec fn head_cell(v: Seq<u8>, axis: int, p: int, lay: int, forward: int) -> u8 {
    v[axis_index(axis, forward + 1, p + 1, lay + 1)]
}

/// The run at bit position `p` holds material `ty` in every row it has
/// merged so far, up to and including the current forward row.
pub open spec fn col_run_matches(
    v: Seq<u8>,
    axis: int,
    p: int,
    lay: int,
    forward: int,
    len: int,
    ty: u8,
) -> bool {
    forall|fa: int|
        forward + 1 - len <= fa <= forward + 1 ==> #[trigger] v[axis_index(axis, fa, p + 1, lay + 1)]
            == ty
}

/// The forward-run counter of the vertical sweep at column `r` and vertical
/// bit position `p`.
pub open spec fn fm_at(fm: Seq<u8>, r: int, p: int) -> u8 {
    fm[r * 62 + p - 1]
}

/// The right-run counter of the vertical sweep at vertical bit position `p`.
pub open spec fn rm_at(rm: Seq<u8>, p: int) -> u8 {
    rm[p - 1]
}

/// Updating one forward-run counter leaves every other `(column, bit)`
/// counter unchanged.
proof fn lemma_fm_update_other(pre: Seq<u8>, post: Seq<u8>, r0: int, p0: int, v: u8)
    requires
        pre.len() == 3844,
        0 <= r0 < 62,
        1 <= p0 <= 62,
        post == pre.update(r0 * 62 + p0 - 1, v),
    ensures
        fm_at(post, r0, p0) == v,
        forall|r: int, p: int|
            0 <= r < 62 && 1 <= p <= 62 && !(r == r0 && p == p0) ==> #[trigger] fm_at(post, r, p)
                == fm_at(pre, r, p),
{
    assert forall|r: int, p: int|
        0 <= r < 62 && 1 <= p <= 62 && !(r == r0 && p == p0) implies #[trigger] fm_at(post, r, p)
        == fm_at(pre, r, p) by {
        if r * 62 + p - 1 == r0 * 62 + p0 - 1 {
            assert((r - r0) * 62 == p0 - p) by (nonlinear_arith)
                requires
                    r * 62 + p - 1 == r0 * 62 + p0 - 1,
            ;
            assert(false);
        }
    }
}

/// Updating one right-run counter leaves every other bit's counter unchanged.
proof fn lemma_rm_update_other(pre: Seq<u8>, post: Seq<u8>, p0: int, v: u8)
    requires
        pre.len() == 62,
        1 <= p0 <= 62,
        post == pre.update(p0 - 1, v),
    ensures
        rm_at(post, p0) == v,
        forall|p: int|
            1 <= p <= 62 && p != p0 ==> #[trigger] rm_at(post, p) == rm_at(pre, p),
{
}

/// One live right-run's pending area, anchored at column `right`: `rm`
/// consumed columns of `fm + 1` rows each.
pub open spec fn pc_term(rm: Seq<u8>, fm: Seq<u8>, right: int, p: int) -> int {
    (rm_at(rm, p) as int) * (fm_at(fm, right, p) as int + 1)
}

/// One live right-run's pending area in the middle of a column's word: a run
/// whose bit is still set anchors at this column's counter, a processed one
/// at the next column's.
pub open spec fn pm_term(rm: Seq<u8>, fm: Seq<u8>, right: int, bits: u64, p: int) -> int {
    (rm_at(rm, p) as int) * (if bit64(bits, p as u64) {
        fm_at(fm, right, p) as int + 1
    } else {
        fm_at(fm, right + 1, p) as int + 1
    })
}

/// Total pending right-run area at the start of column `right`.
pub open spec fn pending_col(rm: Seq<u8>, fm: Seq<u8>, right: int, n: int) -> int
    decreases n,
{
    if n <= 0 {
        0
    } else {
        pending_col(rm, fm, right, n - 1) + pc_term(rm, fm, right, n)
    }
}

/// Total pending right-run area in the middle of a column's word.
pub open spec fn pending_mixed(rm: Seq<u8>, fm: Seq<u8>, right: int, bits: u64, n: int) -> int
    decreases n,
{
    if n <= 0 {
        0
    } else {
        pending_mixed(rm, fm, right, bits, n - 1) + pm_term(rm, fm, right, bits, n)
    }
}

/// Two pending sums whose per-run terms agree everywhere but at one position
/// differ by exactly that term's change.
proof fn lemma_pending_mixed_one_term(
    rm1: Seq<u8>,
    fm1: Seq<u8>,
    bits1: u64,
    rm2: Seq<u8>,
    fm2: Seq<u8>,
    bits2: u64,
    right: int,
    p0: int,
    n: int,
)
    requires
        forall|p: int|
            1 <= p <= n && p != p0 ==> #[trigger] pm_term(rm1, fm1, right, bits1, p) == pm_term(
                rm2,
                fm2,
                right,
                bits2,
                p,
            ),
    ensures
        pending_mixed(rm2, fm2, right, bits2, n) - pending_mixed(rm1, fm1, right, bits1, n) == (
        if 1 <= p0 <= n {
            pm_term(rm2, fm2, right, bits2, p0) - pm_term(rm1, fm1, right, bits1, p0)
        } else {
            0
        }),
    decreases n,
{
    if n > 0 {
        lemma_pending_mixed_one_term(rm1, fm1, bits1, rm2, fm2, bits2, right, p0, n - 1);
    }
}

/// At a column's start every live run's bit is still set, so the mixed sum is
/// the column-anchored one; and runs that have not started contribute
/// nothing.
proof fn lemma_pending_mixed_eq_col(rm: Seq<u8>, fm: Seq<u8>, right: int, bits: u64, n: int)
    requires
        forall|p: int| 1 <= p <= n && #[trigger] rm_at(rm, p) != 0 ==> bit64(bits, p as u64),
    ensures
        pending_mixed(rm, fm, right, bits, n) == pending_col(rm, fm, right, n),
    decreases n,
{
    if n > 0 {
        lemma_pending_mixed_eq_col(rm, fm, right, bits, n - 1);
    }
}

/// At a column's end every live run has moved on, so the mixed sum is the
/// next column's anchored one.
proof fn lemma_pending_mixed_eq_next(rm: Seq<u8>, fm: Seq<u8>, right: int, bits: u64, n: int)
    requires
        forall|p: int| 1 <= p <= n && #[trigger] rm_at(rm, p) != 0 ==> !bit64(bits, p as u64),
    ensures
        pending_mixed(rm, fm, right, bits, n) == pending_col(rm, fm, right + 1, n),
    decreases n,
{
    if n > 0 {
        lemma_pending_mixed_eq_next(rm, fm, right, bits, n - 1);
    }
}

/// With no live run the pending area is zero.
proof fn lemma_pending_col_zero(rm: Seq<u8>, fm: Seq<u8>, right: int, n: int)
    requires
        forall|p: int| 1 <= p <= n ==> #[trigger] rm_at(rm, p) == 0,
    ensures
        pending_col(rm, fm, right, n) == 0,
    decreases n,
{
    if n > 0 {
        lemma_pending_col_zero(rm, fm, right, n - 1);
    }
}

/// The material at the head of a vertical-sweep run: the cell at column `r`,
/// the current forward row, and vertical bit position `p`.
pub open spec fn vhead_cell(v: Seq<u8>, r: int, p: int, forward: int) -> u8 {
    v[axis_index(2, r + 1, forward + 1, p)]
}

/// The vertical-sweep run at column `r` and bit `p` holds material `ty` in
/// every forward row it has merged so far, up to the current one.
pub open spec fn vcol_run_matches(
    v: Seq<u8>,
    r: int,
    p: int,
    forward: int,
    len: int,
    ty: u8,
) -> bool {
    forall|fa: int|
        forward + 1 - len <= fa <= forward + 1 ==> #[trigger] v[axis_index(2, r + 1, fa, p)] == ty
}

/// First sweep coordinate of the cells a quad covers, minus one: the quad
/// spans `quad_a_lo + 1 ..= quad_a_lo + quad_w`. Faces on the positive side
/// of a pair store the far edge, so the low edge is recovered by width.
pub open spec fn quad_a_lo(face: int, q: QuadData) -> int {
    if face == 0 {
        quad_x(q) as int
    } else if face == 1 {
        quad_x(q) - quad_w(q)
    } else if face == 2 {
        quad_y(q) - quad_w(q)
    } else if face == 3 {
        quad_y(q) as int
    } else if face == 4 {
        quad_x(q) - quad_w(q)
    } else {
        quad_x(q) as int
    }
}

/// Second sweep coordinate of the cells a quad covers, minus one: the quad
/// spans `quad_b_lo + 1 ..= quad_b_lo + quad_h`.
pub open spec fn quad_b_lo(face: int, q: QuadData) -> int {
    if face < 4 {
        quad_z(q) as int
    } else {
        quad_y(q) as int
    }
}

/// The fixed third sweep coordinate of the cells a quad covers.
pub open spec fn quad_layer_arg(face: int, q: QuadData) -> int {
    if face == 0 {
        quad_y(q) as int
    } else if face == 1 {
        quad_y(q) + 1
    } else if face == 2 {
        quad_x(q) as int
    } else if face == 3 {
        quad_x(q) + 1
    } else if face == 4 {
        quad_z(q) as int
    } else {
        quad_z(q) + 1
    }
}

/// A merge never spans a material boundary: every cell a quad covers holds
/// exactly the quad's material.
pub open spec fn quad_material_ok(face: int, q: QuadData, v: Seq<u8>) -> bool {
    forall|aa: int, bb: int|
        #![trigger v[axis_index(face / 2, aa, bb, quad_layer_arg(face, q))]]
        quad_a_lo(face, q) < aa <= quad_a_lo(face, q) + quad_w(q) && quad_b_lo(face, q) < bb
            <= quad_b_lo(face, q) + quad_h(q) ==> v[axis_index(
            face / 2,
            aa,
            bb,
            quad_layer_arg(face, q),
        )] as u32 == q.quad_data2
}

/// Whether quad `q` of face `face` covers bit `p` of word `i` of that face's
/// visibility-mask table. For a lateral face the word's outer part is the
/// quad's layer and its inner part a forward row; for a vertical face the
/// outer part is a forward row, the inner part a column, and the bit is the
/// quad's fixed vertical position.
pub open spec fn quad_covers_bit(face: int, q: QuadData, i: int, p: int) -> bool {
    if face < 4 {
        &&& i / 62 == quad_layer_arg(face, q) - 1
        &&& quad_a_lo(face, q) <= i % 62 < quad_a_lo(face, q) + quad_w(q)
        &&& quad_b_lo(face, q) <= p < quad_b_lo(face, q) + quad_h(q)
    } else {
        &&& quad_b_lo(face, q) <= i / 62 < quad_b_lo(face, q) + quad_h(q)
        &&& quad_a_lo(face, q) <= i % 62 < quad_a_lo(face, q) + quad_w(q)
        &&& p == quad_layer_arg(face, q)
    }
}

/// Every mask bit a quad covers is a set visibility bit: quads sit on
/// visible cells only.
pub open spec fn quad_bits_visible(face: int, q: QuadData, ms: Seq<u64>) -> bool {
    forall|i: int, p: int|
        0 <= i < 3844 && 0 <= p < 64 && #[trigger] quad_covers_bit(face, q, i, p) ==> bit64(
            ms[face * 3844 + i],
            p as u64,
        )
}

/// The run at bit position `p` of a lateral sweep is visible in every row it
/// has merged so far, up to and including the current forward row. `base` is
/// the mask-table index of the layer's row zero.
pub open spec fn mask_col_run(ms: Seq<u64>, base: int, p: int, forward: int, len: int) -> bool {
    forall|wi: int|
        base + forward - len <= wi <= base + forward ==> #[trigger] bit64(ms[wi], p as u64)
}

/// The visibility word of a vertical sweep at forward row `fw` and column
/// `r` of face `face`.
pub open spec fn vword(ms: Seq<u64>, face: int, fw: int, r: int) -> u64 {
    ms[face * 3844 + fw * 62 + r]
}

/// The vertical-sweep run at column `r` and bit `p` is visible in every
/// forward row it has merged so far, up to and including the current one.
pub open spec fn vmask_run(ms: Seq<u64>, face: int, r: int, p: int, forward: int, len: int) -> bool {
    forall|fw: int|
        forward - len <= fw <= forward ==> #[trigger] bit64(vword(ms, face, fw, r), p as u64)
}

/// A quad whose covered cells all lie strictly inside the chunk: both sweep
/// ranges within `1 ..= CS` and the fixed third coordinate too, so no
/// footprint cell ever touches the one-cell halo shell.
pub open spec fn quad_in_interior(face: int, q: QuadData) -> bool {
    &&& 0 <= quad_a_lo(face, q)
    &&& quad_a_lo(face, q) + quad_w(q) <= 62
    &&& 0 <= quad_b_lo(face, q)
    &&& quad_b_lo(face, q) + quad_h(q) <= 62
    &&& 1 <= quad_layer_arg(face, q) <= 62
}

/// Greedy merge for one of the four lateral faces (directions along the layer
/// and row axes). Sweeps each layer's visibility words, first extending runs
/// forward, then sideways across bit positions, and emits one quad per
/// maximal run. Emitted quads are appended to `vertices`; every one stays
/// within the interior bounds, sits only on set visibility bits, and covers
/// cells of its own material only; the appended areas sum to the face's
/// visibility popcount, and a face with no visible cell emits nothing.
#[verifier::rlimit(100)]
#[verifier::spinoff_prover]
fn merge_lateral_faces(
    face: usize,
    voxels: &Vec<u8>,
    face_masks: &Vec<u64>,
    forward_merged: &mut Vec<u8>,
    vertices: &mut Vec<QuadData>,
)
    requires
        face < 4,
        voxels.len() == CS_P3,
        face_masks.len() == 6 * CS_2,
        old(forward_merged).len() == CS_2,
        forall|w: int| 0 <= w < 4 * 3844 ==> mask_lateral_wf(#[trigger] face_masks@[w]),
    ensures
        final(forward_merged).len() == CS_2,
        final(vertices).len() >= old(vertices).len(),
        final(vertices)@.take(old(vertices).len() as int) == old(vertices)@,
        forall|k: int|
            old(vertices).len() <= k < final(vertices).len() ==> quad_geom_wf(
                #[trigger] final(vertices)@[k],
            ) && quad_material_ok(face as int, final(vertices)@[k], voxels@)
                && quad_in_interior(face as int, final(vertices)@[k]) && quad_bits_visible(
                face as int,
                final(vertices)@[k],
                face_masks@,
            ),
        area_sum(final(vertices)@, old(vertices).len() as int, final(vertices).len() as int)
            == masks_pop(face_masks@, face * 3844, 3844),
        (forall|w: int| face * 3844 <= w < (face + 1) * 3844 ==> face_masks@[w] == 0u64)
            ==> final(vertices).len() == old(vertices).len(),
{
    let axis = face / 2;
    let mut layer: usize = 0;
    while layer < CS
        invariant
            face < 4,
            axis == face / 2,
            voxels.len() == CS_P3,
            face_masks.len() == 6 * CS_2,
            forward_merged.len() == CS_2,
            forall|w: int| 0 <= w < 4 * 3844 ==> mask_lateral_wf(#[trigger] face_masks@[w]),
            layer <= CS,
            vertices.len() >= old(vertices).len(),
            vertices@.take(old(vertices).len() as int) == old(vertices)@,
            forall|k: int|
                old(vertices).len() <= k < vertices.len() ==> quad_geom_wf(
                    #[trigger] vertices@[k],
                ) && quad_material_ok(face as int, vertices@[k], voxels@) && quad_in_interior(
                    face as int,
                    vertices@[k],
                ) && quad_bits_visible(face as int, vertices@[k], face_masks@),
            area_sum(vertices@, old(vertices).len() as int, vertices.len() as int) == masks_pop(
                face_masks@,
                face * 3844,
                layer * 62,
            ),
            (forall|w: int| face * 3844 <= w < (face + 1) * 3844 ==> face_masks@[w] == 0u64)
                ==> vertices.len() == old(vertices).len(),
        decreases CS - layer,
    {
        // Each layer's sweep starts with clean forward-run counters.
        let mut zz: usize = 0;
        while zz < CS
            invariant
                zz <= CS,
                forward_merged.len() == CS_2,
                forall|p: int| 0 <= p < zz ==> forward_merged@[p] == 0u8,
            decreases CS - zz,
        {
            forward_merged.set(zz, 0u8);
            zz = zz + 1;
        }
        proof {
            lemma_sum_bytes_zero(forward_merged@, 62);
        }

        let bits_location = layer * CS + face * CS_2;
        let mut forward: usize = 0;
        while forward < CS
            invariant
                face < 4,
                axis == face / 2,
                voxels.len() == CS_P3,
                face_masks.len() == 6 * CS_2,
                forward_merged.len() == CS_2,
                forall|w: int| 0 <= w < 4 * 3844 ==> mask_lateral_wf(#[trigger] face_masks@[w]),
                layer < CS,
                forward <= CS,
                bits_location == layer * 62 + face * 3844,
                forall|p: int| 0 <= p < 62 ==> forward_merged@[p] <= forward,
                area_sum(vertices@, old(vertices).len() as int, vertices.len() as int)
                    + sum_bytes(forward_merged@, 62) == masks_pop(
                    face_masks@,
                    face * 3844,
                    layer * 62 + forward,
                ),
                forall|p: int|
                    0 <= p < 62 && #[trigger] forward_merged@[p] != 0 ==> forward < CS && bit64(
                        face_masks@[(forward + bits_location) as int],
                        p as u64,
                    ) && col_run_matches(
                        voxels@,
                        axis as int,
                        p,
                        layer as int,
                        forward as int,
                        forward_merged@[p] as int,
                        head_cell(voxels@, axis as int, p, layer as int, forward as int),
                    ) && mask_col_run(
                        face_masks@,
                        bits_location as int,
                        p,
                        forward as int,
                        forward_merged@[p] as int,
                    ),
                vertices.len() >= old(vertices).len(),
                vertices@.take(old(vertices).len() as int) == old(vertices)@,
                forall|k: int|
                    old(vertices).len() <= k < vertices.len() ==> quad_geom_wf(
                        #[trigger] vertices@[k],
                    ) && quad_material_ok(face as int, vertices@[k], voxels@) && quad_in_interior(
                    face as int,
                    vertices@[k],
                ) && quad_bits_visible(face as int, vertices@[k], face_masks@),
                (forall|w: int| face * 3844 <= w < (face + 1) * 3844 ==> face_masks@[w] == 0u64)
                    ==> vertices.len() == old(vertices).len(),
            decreases CS - forward,
        {
            let bits_here_init = face_masks[forward + bits_location];
            if bits_here_init == 0 {
                proof {
                    assert(forall|j: u64| j < 64 ==> (0u64 >> j) & 1 != 1) by (bit_vector);
                    assert forall|p: int| 0 <= p < 62 implies forward_merged@[p] == 0 by {
                        assert(!bit64(bits_here_init, p as u64));
                    }
                    lemma_pop_zero(64);
                    assert(masks_pop(face_masks@, face * 3844, layer * 62 + forward + 1)
                        == masks_pop(face_masks@, face * 3844, layer * 62 + forward) + pop64(
                        face_masks@[(forward + bits_location) as int],
                    ));
                }
            }
            if bits_here_init != 0 {
                let bits_next = if forward + 1 < CS {
                    face_masks[(forward + 1) + bits_location]
                } else {
                    0
                };
                let mut bits_here = bits_here_init;
                let mut right_merged_run: u8 = 1;
                proof {
                    assert(mask_lateral_wf(face_masks@[(forward + bits_location) as int]));
                }
                while bits_here != 0
                    invariant
                        face < 4,
                        axis == face / 2,
                        voxels.len() == CS_P3,
                        face_masks.len() == 6 * CS_2,
                        forward_merged.len() == CS_2,
                        layer < CS,
                        forward < CS,
                        bits_location == layer * 62 + face * 3844,
                        bits_here_init == face_masks@[(forward + bits_location) as int],
                        bits_here_init != 0,
                        mask_lateral_wf(bits_here),
                        right_merged_run == 1,
                        forward + 1 < CS ==> bits_next == face_masks@[(forward + 1
                            + bits_location) as int],
                        forward + 1 >= CS ==> bits_next == 0,
                        area_sum(vertices@, old(vertices).len() as int, vertices.len() as int)
                            + sum_bytes(forward_merged@, 62) + pop64(bits_here) == masks_pop(
                            face_masks@,
                            face * 3844,
                            layer * 62 + forward,
                        ) + pop64(bits_here_init),
                        forall|p: u64|
                            p < 64 && #[trigger] bit64(bits_here, p) ==> bit64(bits_here_init, p),
                        forall|p: u64|
                            p < 62 && #[trigger] bit64(bits_here, p) ==> forward_merged@[p as int]
                                <= forward,
                        forall|p: int| 0 <= p < 62 ==> forward_merged@[p] <= forward + 1,
                        forall|p: u64|
                            p < 62 && #[trigger] bit64(bits_here, p) ==> col_run_matches(
                                voxels@,
                                axis as int,
                                p as int,
                                layer as int,
                                forward as int,
                                forward_merged@[p as int] as int,
                                head_cell(
                                    voxels@,
                                    axis as int,
                                    p as int,
                                    layer as int,
                                    forward as int,
                                ),
                            ) && mask_col_run(
                                face_masks@,
                                bits_location as int,
                                p as int,
                                forward as int,
                                forward_merged@[p as int] as int,
                            ),
                        forall|p: int|
                            0 <= p < 62 && !bit64(bits_here, p as u64)
                                && #[trigger] forward_merged@[p] != 0 ==> forward + 1 < CS
                                && bit64(bits_next, p as u64) && col_run_matches(
                                voxels@,
                                axis as int,
                                p,
                                layer as int,
                                forward as int + 1,
                                forward_merged@[p] as int,
                                head_cell(voxels@, axis as int, p, layer as int, forward as int
                                    + 1),
                            ) && mask_col_run(
                                face_masks@,
                                bits_location as int,
                                p,
                                forward as int + 1,
                                forward_merged@[p] as int,
                            ),
                        vertices.len() >= old(vertices).len(),
                        vertices@.take(old(vertices).len() as int) == old(vertices)@,
                        forall|k: int|
                            old(vertices).len() <= k < vertices.len() ==> quad_geom_wf(
                                #[trigger] vertices@[k],
                            ) && quad_material_ok(face as int, vertices@[k], voxels@) && quad_in_interior(
                    face as int,
                    vertices@[k],
                ) && quad_bits_visible(face as int, vertices@[k], face_masks@),
                        (forall|w: int|
                            face * 3844 <= w < (face + 1) * 3844 ==> face_masks@[w] == 0u64)
                            ==> vertices.len() == old(vertices).len(),
                    decreases bits_here,
                {
                    let bit_pos = bits_here.trailing_zeros() as usize;
                    proof {
                        lowest_bit_facts(bits_here, bits_here.trailing_zeros());
                    }
                    let ty = voxels[get_axis_index(axis, forward + 1, bit_pos + 1, layer + 1)];
                    let fm_val = forward_merged[bit_pos];

                    let merge_forward = if forward + 1 < CS && ((bits_next >> (bit_pos as u64))
                        & 1) == 1 {
                        ty == voxels[get_axis_index(axis, forward + 2, bit_pos + 1, layer + 1)]
                    } else {
                        false
                    };

                    if merge_forward {
                        // The run continues on the next forward step; the
                        // next row's cell was checked against the head, so
                        // the extended run stays uniform.
                        let ghost pre_fm = forward_merged@;
                        forward_merged.set(bit_pos, fm_val + 1);
                        proof {
                            lemma_clear_bit(bits_here, bit_pos as u64);
                            lemma_sum_bytes_update(
                                pre_fm,
                                forward_merged@,
                                bit_pos as int,
                                (fm_val + 1) as u8,
                                62,
                            );
                            lemma_pop_clear_bit(
                                bits_here,
                                bits_here & !(1u64 << (bit_pos as u64)),
                                bit_pos as u64,
                                64,
                            );
                            let av = axis as int;
                            let pv = bit_pos as int;
                            let lv = layer as int;
                            let fv = forward as int;
                            assert(ty == head_cell(voxels@, av, pv, lv, fv + 1));
                            assert forall|fa: int|
                                fv + 2 - (fm_val + 1) <= fa <= fv + 2 implies #[trigger] voxels@[
                                axis_index(av, fa, pv + 1, lv + 1)] == head_cell(
                                voxels@,
                                av,
                                pv,
                                lv,
                                fv + 1,
                            ) by {
                                if fa <= fv + 1 {
                                    assert(voxels@[axis_index(av, fa, pv + 1, lv + 1)] == head_cell(
                                        voxels@,
                                        av,
                                        pv,
                                        lv,
                                        fv,
                                    ));
                                }
                            }
                            assert(col_run_matches(
                                voxels@,
                                av,
                                pv,
                                lv,
                                fv + 1,
                                (fm_val + 1) as int,
                                head_cell(voxels@, av, pv, lv, fv + 1),
                            ));
                            assert(mask_col_run(
                                face_masks@,
                                bits_location as int,
                                pv,
                                fv,
                                fm_val as int,
                            ));
                            assert forall|wi: int|
                                bits_location + (fv + 1) - (fm_val + 1) <= wi <= bits_location + (
                                fv + 1) implies #[trigger] bit64(face_masks@[wi], pv as u64) by {
                                if wi <= bits_location + fv {
                                    assert(bit64(face_masks@[wi], pv as u64));
                                } else {
                                    assert(bit64(bits_next, pv as u64));
                                }
                            }
                            assert(mask_col_run(
                                face_masks@,
                                bits_location as int,
                                pv,
                                fv + 1,
                                (fm_val + 1) as int,
                            ));
                        }
                        bits_here = bits_here & !(1u64 << (bit_pos as u64));
                    } else {
                        // Extend sideways while visibility, run length and
                        // material all match.
                        let ghost s0 = sum_bytes(forward_merged@, 62);
                        let ghost a0 = area_sum(
                            vertices@,
                            old(vertices).len() as int,
                            vertices.len() as int,
                        );
                        proof {
                            assert(ty == head_cell(
                                voxels@,
                                axis as int,
                                bit_pos as int,
                                layer as int,
                                forward as int,
                            ));
                            assert(col_run_matches(
                                voxels@,
                                axis as int,
                                bit_pos as int,
                                layer as int,
                                forward as int,
                                fm_val as int,
                                ty,
                            ));
                            assert(mask_col_run(
                                face_masks@,
                                bits_location as int,
                                bit_pos as int,
                                forward as int,
                                fm_val as int,
                            ));
                        }
                        let mut right = bit_pos + 1;
                        while right < CS
                            invariant
                                face < 4,
                                axis == face / 2,
                                voxels.len() == CS_P3,
                                face_masks.len() == 6 * CS_2,
                                forward_merged.len() == CS_2,
                                layer < CS,
                                forward < CS,
                                bit_pos < 62,
                                bit_pos + 1 <= right <= CS,
                                right_merged_run as int == right - bit_pos,
                                fm_val <= forward,
                                mask_lateral_wf(bits_here),
                                bit64(bits_here, bit_pos as u64),
                                bits_location == layer * 62 + face * 3844,
                                forward + 1 < CS ==> bits_next == face_masks@[(forward + 1
                                    + bits_location) as int],
                                forward + 1 >= CS ==> bits_next == 0,
                                ty == head_cell(
                                    voxels@,
                                    axis as int,
                                    bit_pos as int,
                                    layer as int,
                                    forward as int,
                                ),
                                forall|p: u64|
                                    p < 62 && #[trigger] bit64(bits_here, p)
                                        ==> forward_merged@[p as int] <= forward,
                                forall|p: int| 0 <= p < 62 ==> forward_merged@[p] <= forward
                                    + 1,
                                forall|p: u64|
                                    p < 62 && #[trigger] bit64(bits_here, p) ==> col_run_matches(
                                        voxels@,
                                        axis as int,
                                        p as int,
                                        layer as int,
                                        forward as int,
                                        forward_merged@[p as int] as int,
                                        head_cell(
                                            voxels@,
                                            axis as int,
                                            p as int,
                                            layer as int,
                                            forward as int,
                                        ),
                                    ) && mask_col_run(
                                        face_masks@,
                                        bits_location as int,
                                        p as int,
                                        forward as int,
                                        forward_merged@[p as int] as int,
                                    ),
                                forall|p: int|
                                    0 <= p < 62 && !bit64(bits_here, p as u64)
                                        && #[trigger] forward_merged@[p] != 0 ==> forward + 1 < CS
                                        && bit64(bits_next, p as u64) && col_run_matches(
                                        voxels@,
                                        axis as int,
                                        p,
                                        layer as int,
                                        forward as int + 1,
                                        forward_merged@[p] as int,
                                        head_cell(
                                            voxels@,
                                            axis as int,
                                            p,
                                            layer as int,
                                            forward as int + 1,
                                        ),
                                    ) && mask_col_run(
                                        face_masks@,
                                        bits_location as int,
                                        p,
                                        forward as int + 1,
                                        forward_merged@[p] as int,
                                    ),
                                forall|q: int|
                                    bit_pos <= q < right ==> #[trigger] col_run_matches(
                                        voxels@,
                                        axis as int,
                                        q,
                                        layer as int,
                                        forward as int,
                                        fm_val as int,
                                        ty,
                                    ),
                                forall|q: int|
                                    bit_pos <= q < right ==> #[trigger] mask_col_run(
                                        face_masks@,
                                        bits_location as int,
                                        q,
                                        forward as int,
                                        fm_val as int,
                                    ),
                                forall|q: int| bit_pos < q < right ==> forward_merged@[q] == 0,
                                forward_merged@[bit_pos as int] == fm_val,
                                forall|q: u64| bit_pos <= q < right ==> #[trigger] bit64(
                                    bits_here,
                                    q,
                                ),
                                forall|j: u64| j < bit_pos ==> !bit64(bits_here, j),
                                sum_bytes(forward_merged@, 62) == s0 - fm_val * (right - (bit_pos
                                    + 1)),
                                a0 == area_sum(
                                    vertices@,
                                    old(vertices).len() as int,
                                    vertices.len() as int,
                                ),
                                a0 + s0 + pop64(bits_here) == masks_pop(
                                    face_masks@,
                                    face * 3844,
                                    layer * 62 + forward,
                                ) + pop64(bits_here_init),
                            decreases CS - right,
                        {
                            if (bits_here >> (right as u64)) & 1 != 1 {
                                break ;
                            }
                            if forward_merged[right] != fm_val {
                                break ;
                            }
                            if ty != voxels[get_axis_index(axis, forward + 1, right + 1, layer
                                + 1)] {
                                break ;
                            }
                            proof {
                                let av = axis as int;
                                let rv = right as int;
                                let lv = layer as int;
                                let fv = forward as int;
                                assert(bit64(bits_here, right as u64));
                                assert(col_run_matches(
                                    voxels@,
                                    av,
                                    rv,
                                    lv,
                                    fv,
                                    fm_val as int,
                                    head_cell(voxels@, av, rv, lv, fv),
                                ));
                                assert(head_cell(voxels@, av, rv, lv, fv) == ty);
                                assert forall|fa: int|
                                    fv + 1 - fm_val <= fa <= fv + 1 implies #[trigger] voxels@[
                                    axis_index(av, fa, rv + 1, lv + 1)] == ty by {
                                    assert(voxels@[axis_index(av, fa, rv + 1, lv + 1)]
                                        == head_cell(voxels@, av, rv, lv, fv));
                                }
                                assert(col_run_matches(voxels@, av, rv, lv, fv, fm_val as int, ty));
                                assert(mask_col_run(
                                    face_masks@,
                                    bits_location as int,
                                    rv,
                                    fv,
                                    fm_val as int,
                                ));
                            }
                            let ghost pre_fm = forward_merged@;
                            forward_merged.set(right, 0u8);
                            proof {
                                lemma_sum_bytes_update(
                                    pre_fm,
                                    forward_merged@,
                                    right as int,
                                    0u8,
                                    62,
                                );
                                assert(fm_val as int * ((right + 1) - (bit_pos + 1)) == fm_val
                                    as int * (right - (bit_pos + 1)) + fm_val)
                                    by (nonlinear_arith);
                            }
                            right_merged_run = right_merged_run + 1;
                            right = right + 1;
                        }

                        let mesh_width = right_merged_run as usize;
                        proof {
                            lemma_clear_low(
                                bits_here,
                                (bit_pos + mesh_width) as u64,
                                bit_pos as u64,
                            );
                            assert((bit_pos + mesh_width) as u64 <= 63 ==> 1u64 << ((bit_pos
                                + mesh_width) as u64) >= 1) by (bit_vector);
                            lemma_pop_clear_low(
                                bits_here,
                                bits_here & !((((1u64 << ((bit_pos + mesh_width) as u64))
                                    - 1)) as u64),
                                (bit_pos + mesh_width) as u64,
                                64,
                            );
                            lemma_pop_interval(
                                bits_here,
                                bit_pos as int,
                                bit_pos + mesh_width,
                            );
                        }
                        bits_here = bits_here & !((1u64 << ((bit_pos + mesh_width) as u64)) - 1);

                        let mesh_front = forward - (fm_val as usize);
                        let mesh_length = (fm_val as usize) + 1;
                        let mesh_up = layer + (if face % 2 == 0 {
                            1
                        } else {
                            0
                        });

                        let ghost pre_fm2 = forward_merged@;
                        forward_merged.set(bit_pos, 0u8);
                        proof {
                            lemma_sum_bytes_update(
                                pre_fm2,
                                forward_merged@,
                                bit_pos as int,
                                0u8,
                                62,
                            );
                        }
                        right_merged_run = 1;

                        let quad = if face < 2 {
                            get_quad(
                                (mesh_front + (if face == 1 {
                                    mesh_length
                                } else {
                                    0
                                })) as u32,
                                mesh_up as u32,
                                bit_pos as u32,
                                mesh_length as u32,
                                mesh_width as u32,
                                ty as u32,
                            )
                        } else {
                            get_quad(
                                mesh_up as u32,
                                (mesh_front + (if face == 2 {
                                    mesh_length
                                } else {
                                    0
                                })) as u32,
                                bit_pos as u32,
                                mesh_length as u32,
                                mesh_width as u32,
                                ty as u32,
                            )
                        };
                        let ghost pre_push = vertices@;
                        vertices.push(quad);
                        proof {
                            lemma_quad_word_fields(
                                if face < 2 {
                                    (mesh_front + (if face == 1 {
                                        mesh_length as int
                                    } else {
                                        0
                                    })) as u32
                                } else {
                                    mesh_up as u32
                                },
                                if face < 2 {
                                    mesh_up as u32
                                } else {
                                    (mesh_front + (if face == 2 {
                                        mesh_length as int
                                    } else {
                                        0
                                    })) as u32
                                },
                                bit_pos as u32,
                                mesh_length as u32,
                                mesh_width as u32,
                            );
                            assert(quad_geom_wf(quad));
                            lemma_area_sum_push(
                                pre_push,
                                vertices@,
                                old(vertices).len() as int,
                                quad,
                            );
                            assert((fm_val + 1) as int * (mesh_width as int) - fm_val as int * (
                            mesh_width as int - 1) - fm_val as int - mesh_width as int == 0)
                                by (nonlinear_arith);
                            let fc = face as int;
                            assert(quad_a_lo(fc, quad) == mesh_front as int);
                            assert(quad_b_lo(fc, quad) == bit_pos as int);
                            assert(quad_layer_arg(fc, quad) == layer as int + 1);
                            assert(quad_in_interior(fc, quad));
                            assert forall|i: int, p: int|
                                0 <= i < 3844 && 0 <= p < 64 && #[trigger] quad_covers_bit(
                                    fc,
                                    quad,
                                    i,
                                    p,
                                ) implies bit64(face_masks@[fc * 3844 + i], p as u64) by {
                                vstd::arithmetic::div_mod::lemma_fundamental_div_mod(i, 62);
                                assert(mask_col_run(
                                    face_masks@,
                                    bits_location as int,
                                    p,
                                    forward as int,
                                    fm_val as int,
                                ));
                                assert(bit64(face_masks@[bits_location + (i % 62)], p as u64));
                            }
                            assert(quad_bits_visible(fc, quad, face_masks@));
                            assert forall|aa: int, bb: int|
                                #![trigger voxels@[axis_index(fc / 2, aa, bb, quad_layer_arg(fc, quad))]]
                                quad_a_lo(fc, quad) < aa <= quad_a_lo(fc, quad) + quad_w(quad)
                                    && quad_b_lo(fc, quad) < bb <= quad_b_lo(fc, quad) + quad_h(
                                    quad,
                                ) implies voxels@[axis_index(
                                fc / 2,
                                aa,
                                bb,
                                quad_layer_arg(fc, quad),
                            )] as u32 == quad.quad_data2 by {
                                assert(col_run_matches(
                                    voxels@,
                                    axis as int,
                                    bb - 1,
                                    layer as int,
                                    forward as int,
                                    fm_val as int,
                                    ty,
                                ));
                                assert(voxels@[axis_index(
                                    axis as int,
                                    aa,
                                    (bb - 1) + 1,
                                    layer as int + 1,
                                )] == ty);
                            }
                            assert(quad_material_ok(fc, quad, voxels@));
                            assert(vertices@.take(old(vertices).len() as int) =~= pre_push.take(
                                old(vertices).len() as int,
                            ));
                            if (forall|w: int|
                                face * 3844 <= w < (face + 1) * 3844 ==> face_masks@[w]
                                    == 0u64) {
                                assert(face_masks@[(forward + bits_location) as int] == 0u64);
                                assert(false);
                            }
                        }
                    }
                }
                proof {
                    assert(forall|j: u64| j < 64 ==> (0u64 >> j) & 1 != 1) by (bit_vector);
                    lemma_pop_zero(64);
                    assert(masks_pop(face_masks@, face * 3844, layer * 62 + forward + 1)
                        == masks_pop(face_masks@, face * 3844, layer * 62 + forward) + pop64(
                        face_masks@[(forward + bits_location) as int],
                    ));
                    assert forall|p: int|
                        0 <= p < 62 && #[trigger] forward_merged@[p] != 0 implies bit64(
                        face_masks@[(forward + 1 + bits_location) as int],
                        p as u64,
                    ) && col_run_matches(
                        voxels@,
                        axis as int,
                        p,
                        layer as int,
                        forward as int + 1,
                        forward_merged@[p] as int,
                        head_cell(voxels@, axis as int, p, layer as int, forward as int + 1),
                    ) && mask_col_run(
                        face_masks@,
                        bits_location as int,
                        p,
                        forward as int + 1,
                        forward_merged@[p] as int,
                    ) by {
                        assert(!bit64(bits_here, p as u64));
                    }
                }
            }
            forward = forward + 1;
        }
        proof {
            assert forall|p: int| 0 <= p < 62 implies forward_merged@[p] == 0 by {}
            lemma_sum_bytes_zero(forward_merged@, 62);
            assert(layer * 62 + 62 == (layer + 1) * 62);
        }
        layer = layer + 1;
    }
}

/// Greedy merge for one of the two vertical faces (directions along the depth
/// axis). The two lateral sweep coordinates are the horizontal axes and the
/// bit position inside a word is the vertical coordinate itself, so the
/// forward-run bookkeeping is two-dimensional and the bit position carries a
/// built-in one-cell offset. Emitted quads are appended to `vertices`; every
/// one stays within the interior bounds, sits only on set visibility bits,
/// and covers cells of its own material only; the appended areas sum to the
/// face's visibility popcount; the run counters are zero again on return;
/// and a face with no visible cell emits nothing.
#[verifier::rlimit(100)]
#[verifier::spinoff_prover]
fn merge_vertical_faces(
    face: usize,
    voxels: &Vec<u8>,
    face_masks: &Vec<u64>,
    forward_merged: &mut Vec<u8>,
    right_merged: &mut Vec<u8>,
    vertices: &mut Vec<QuadData>,
)
    requires
        4 <= face < 6,
        voxels.len() == CS_P3,
        face_masks.len() == 6 * CS_2,
        old(forward_merged).len() == CS_2,
        old(right_merged).len() == CS,
        forall|w: int|
            4 * 3844 <= w < 6 * 3844 ==> mask_vertical_wf(#[trigger] face_masks@[w]),
    ensures
        final(forward_merged).len() == CS_2,
        final(right_merged).len() == CS,
        forall|idx: int| 0 <= idx < CS_2 ==> final(forward_merged)@[idx] == 0u8,
        forall|q: int| 0 <= q < CS ==> final(right_merged)@[q] == 0u8,
        final(vertices).len() >= old(vertices).len(),
        final(vertices)@.take(old(vertices).len() as int) == old(vertices)@,
        forall|k: int|
            old(vertices).len() <= k < final(vertices).len() ==> quad_geom_wf(
                #[trigger] final(vertices)@[k],
            ) && quad_material_ok(face as int, final(vertices)@[k], voxels@)
                && quad_in_interior(face as int, final(vertices)@[k]) && quad_bits_visible(
                face as int,
                final(vertices)@[k],
                face_masks@,
            ),
        area_sum(final(vertices)@, old(vertices).len() as int, final(vertices).len() as int)
            == masks_pop(face_masks@, face * 3844, 3844),
        (forall|w: int| face * 3844 <= w < (face + 1) * 3844 ==> face_masks@[w] == 0u64)
            ==> final(vertices).len() == old(vertices).len(),
{
    let axis = face / 2;

    // This face's sweep starts with clean forward-run counters.
    let mut zz: usize = 0;
    while zz < CS_2
        invariant
            zz <= CS_2,
            forward_merged.len() == CS_2,
            forall|p: int| 0 <= p < zz ==> forward_merged@[p] == 0u8,
        decreases CS_2 - zz,
    {
        forward_merged.set(zz, 0u8);
        zz = zz + 1;
    }
    proof {
        assert forall|r: int, p: int| 0 <= r < 62 && 1 <= p <= 62 implies #[trigger] fm_at(
            forward_merged@,
            r,
            p,
        ) == 0 by {
            assert(forward_merged@[r * 62 + p - 1] == 0);
        }
        lemma_sum_bytes_zero(forward_merged@, 3844);
    }

    let mut forward: usize = 0;
    while forward < CS
        invariant
            4 <= face < 6,
            axis == face / 2,
            voxels.len() == CS_P3,
            face_masks.len() == 6 * CS_2,
            forward_merged.len() == CS_2,
            right_merged.len() == CS,
            forall|w: int|
                4 * 3844 <= w < 6 * 3844 ==> mask_vertical_wf(#[trigger] face_masks@[w]),
            forward <= CS,
            forall|idx: int| 0 <= idx < 3844 ==> forward_merged@[idx] <= forward,
            forward > 0 ==> forall|q: int| 0 <= q < 62 ==> right_merged@[q] == 0u8,
            area_sum(vertices@, old(vertices).len() as int, vertices.len() as int) + sum_bytes(
                forward_merged@,
                3844,
            ) == masks_pop(face_masks@, face * 3844, forward * 62),
            forall|r: int, p: int|
                0 <= r < 62 && 1 <= p <= 62 && #[trigger] fm_at(forward_merged@, r, p) != 0
                    ==> forward < CS && bit64(
                    face_masks@[(r + forward * 62 + face * 3844) as int],
                    p as u64,
                ) && vcol_run_matches(
                    voxels@,
                    r,
                    p,
                    forward as int,
                    fm_at(forward_merged@, r, p) as int,
                    vhead_cell(voxels@, r, p, forward as int),
                ) && vmask_run(
                    face_masks@,
                    face as int,
                    r,
                    p,
                    forward as int,
                    fm_at(forward_merged@, r, p) as int,
                ),
            vertices.len() >= old(vertices).len(),
            vertices@.take(old(vertices).len() as int) == old(vertices)@,
            forall|k: int|
                old(vertices).len() <= k < vertices.len() ==> quad_geom_wf(
                    #[trigger] vertices@[k],
                ) && quad_material_ok(face as int, vertices@[k], voxels@) && quad_in_interior(
                    face as int,
                    vertices@[k],
                ) && quad_bits_visible(face as int, vertices@[k], face_masks@),
            (forall|w: int| face * 3844 <= w < (face + 1) * 3844 ==> face_masks@[w] == 0u64)
                ==> vertices.len() == old(vertices).len(),
        decreases CS - forward,
    {
        // Each row's sweep starts with clean right-run counters.
        let mut zr: usize = 0;
        while zr < CS
            invariant
                zr <= CS,
                right_merged.len() == CS,
                forall|q: int| 0 <= q < zr ==> right_merged@[q] == 0u8,
            decreases CS - zr,
        {
            right_merged.set(zr, 0u8);
            zr = zr + 1;
        }
        proof {
            assert forall|p: int| 1 <= p <= 62 implies #[trigger] rm_at(right_merged@, p)
                == 0 by {
                assert(right_merged@[p - 1] == 0);
            }
            lemma_pending_col_zero(right_merged@, forward_merged@, 0, 62);
        }

        let bits_location = forward * CS + face * CS_2;
        let mut right: usize = 0;
        while right < CS
            invariant
                4 <= face < 6,
                axis == face / 2,
                voxels.len() == CS_P3,
                face_masks.len() == 6 * CS_2,
                forward_merged.len() == CS_2,
                right_merged.len() == CS,
                forall|w: int|
                    4 * 3844 <= w < 6 * 3844 ==> mask_vertical_wf(#[trigger] face_masks@[w]),
                forward < CS,
                right <= CS,
                bits_location == forward * 62 + face * 3844,
                forall|idx: int| right * 62 <= idx < 3844 ==> forward_merged@[idx] <= forward,
                forall|idx: int| 0 <= idx < right * 62 ==> forward_merged@[idx] <= forward + 1,
                forall|q: int| 0 <= q < 62 ==> right_merged@[q] <= right,
                area_sum(vertices@, old(vertices).len() as int, vertices.len() as int)
                    + sum_bytes(forward_merged@, 3844) + pending_col(
                    right_merged@,
                    forward_merged@,
                    right as int,
                    62,
                ) == masks_pop(face_masks@, face * 3844, forward * 62 + right),
                forall|r: int, p: int|
                    right <= r < 62 && 1 <= p <= 62 && #[trigger] fm_at(forward_merged@, r, p)
                        != 0 ==> bit64(face_masks@[(r + bits_location) as int], p as u64)
                        && vcol_run_matches(
                        voxels@,
                        r,
                        p,
                        forward as int,
                        fm_at(forward_merged@, r, p) as int,
                        vhead_cell(voxels@, r, p, forward as int),
                    ) && vmask_run(
                        face_masks@,
                        face as int,
                        r,
                        p,
                        forward as int,
                        fm_at(forward_merged@, r, p) as int,
                    ),
                forall|r: int, p: int|
                    0 <= r < right && 1 <= p <= 62 && #[trigger] fm_at(forward_merged@, r, p)
                        != 0 ==> forward + 1 < CS && bit64(
                        face_masks@[(r + (forward + 1) * 62 + face * 3844) as int],
                        p as u64,
                    ) && vcol_run_matches(
                        voxels@,
                        r,
                        p,
                        forward as int + 1,
                        fm_at(forward_merged@, r, p) as int,
                        vhead_cell(voxels@, r, p, forward as int + 1),
                    ) && vmask_run(
                        face_masks@,
                        face as int,
                        r,
                        p,
                        forward as int + 1,
                        fm_at(forward_merged@, r, p) as int,
                    ),
                forall|p: int|
                    1 <= p <= 62 && #[trigger] rm_at(right_merged@, p) != 0 ==> right < 62
                        && bit64(face_masks@[(right + bits_location) as int], p as u64) && (
                    forall|r2: int|
                        right - rm_at(right_merged@, p) <= r2 < right
                            ==> #[trigger] vcol_run_matches(
                            voxels@,
                            r2,
                            p,
                            forward as int,
                            fm_at(forward_merged@, right as int, p) as int,
                            vhead_cell(voxels@, right as int, p, forward as int),
                        )) && (forall|r2: int|
                        right - rm_at(right_merged@, p) <= r2 < right ==> #[trigger] vmask_run(
                            face_masks@,
                            face as int,
                            r2,
                            p,
                            forward as int,
                            fm_at(forward_merged@, right as int, p) as int,
                        )),
                vertices.len() >= old(vertices).len(),
                vertices@.take(old(vertices).len() as int) == old(vertices)@,
                forall|k: int|
                    old(vertices).len() <= k < vertices.len() ==> quad_geom_wf(
                        #[trigger] vertices@[k],
                    ) && quad_material_ok(face as int, vertices@[k], voxels@) && quad_in_interior(
                    face as int,
                    vertices@[k],
                ) && quad_bits_visible(face as int, vertices@[k], face_masks@),
                (forall|w: int| face * 3844 <= w < (face + 1) * 3844 ==> face_masks@[w] == 0u64)
                    ==> vertices.len() == old(vertices).len(),
            decreases CS - right,
        {
            let bits_here_init = face_masks[right + bits_location];
            if bits_here_init == 0 {
                proof {
                    assert(forall|j: u64| j < 64 ==> (0u64 >> j) & 1 != 1) by (bit_vector);
                    assert forall|p: int| 1 <= p <= 62 implies fm_at(
                        forward_merged@,
                        right as int,
                        p,
                    ) == 0 by {
                        if fm_at(forward_merged@, right as int, p) != 0 {
                            assert(bit64(
                                face_masks@[(right + bits_location) as int],
                                p as u64,
                            ));
                        }
                    }
                    assert forall|p: int| 1 <= p <= 62 implies rm_at(right_merged@, p) == 0 by {
                        if rm_at(right_merged@, p) != 0 {
                            assert(bit64(
                                face_masks@[(right + bits_location) as int],
                                p as u64,
                            ));
                        }
                    }
                    lemma_pending_col_zero(
                        right_merged@,
                        forward_merged@,
                        right as int,
                        62,
                    );
                    lemma_pending_col_zero(
                        right_merged@,
                        forward_merged@,
                        right as int + 1,
                        62,
                    );
                    lemma_pop_zero(64);
                    assert(masks_pop(face_masks@, face * 3844, forward * 62 + right + 1)
                        == masks_pop(face_masks@, face * 3844, forward * 62 + right) + pop64(
                        face_masks@[(right + bits_location) as int],
                    ));
                }
            }
            if bits_here_init != 0 {
                let bits_forward = if forward + 1 < CS {
                    face_masks[right + (forward + 1) * CS + face * CS_2]
                } else {
                    0
                };
                let bits_right = if right + 1 < CS {
                    face_masks[(right + 1) + bits_location]
                } else {
                    0
                };
                let right_cs = right * CS;
                let mut bits_here = bits_here_init;
                proof {
                    assert(mask_vertical_wf(face_masks@[(right + bits_location) as int]));
                    assert forall|p: int|
                        1 <= p <= 62 && #[trigger] rm_at(right_merged@, p) != 0 implies bit64(
                        bits_here,
                        p as u64,
                    ) by {}
                    lemma_pending_mixed_eq_col(
                        right_merged@,
                        forward_merged@,
                        right as int,
                        bits_here,
                        62,
                    );
                }
                while bits_here != 0
                    invariant
                        4 <= face < 6,
                        axis == face / 2,
                        voxels.len() == CS_P3,
                        face_masks.len() == 6 * CS_2,
                        forward_merged.len() == CS_2,
                        right_merged.len() == CS,
                        forward < CS,
                        right < CS,
                        right_cs == right * 62,
                        bits_location == forward * 62 + face * 3844,
                        bits_here_init == face_masks@[(right + bits_location) as int],
                        bits_here_init != 0,
                        mask_vertical_wf(bits_here),
                        forward + 1 < CS ==> bits_forward == face_masks@[(right + (forward + 1)
                            * 62 + face * 3844) as int],
                        forward + 1 >= CS ==> bits_forward == 0,
                        right + 1 < CS ==> bits_right == face_masks@[(right + 1
                            + bits_location) as int],
                        right + 1 >= CS ==> bits_right == 0,
                        forall|p: u64|
                            1 <= p <= 62 && #[trigger] bit64(bits_here, p) ==> forward_merged@[
                                right * 62 + p - 1
                            ] <= forward,
                        forall|p: u64|
                            1 <= p <= 62 && #[trigger] bit64(bits_here, p) ==> right_merged@[
                                p - 1
                            ] <= right,
                        forall|idx: int|
                            (right + 1) * 62 <= idx < 3844 ==> forward_merged@[idx] <= forward,
                        forall|idx: int|
                            0 <= idx < (right + 1) * 62 ==> forward_merged@[idx] <= forward
                                + 1,
                        forall|q: int| 0 <= q < 62 ==> right_merged@[q] <= right + 1,
                        area_sum(vertices@, old(vertices).len() as int, vertices.len() as int)
                            + sum_bytes(forward_merged@, 3844) + pending_mixed(
                            right_merged@,
                            forward_merged@,
                            right as int,
                            bits_here,
                            62,
                        ) + pop64(bits_here) == masks_pop(
                            face_masks@,
                            face * 3844,
                            forward * 62 + right,
                        ) + pop64(bits_here_init),
                        forall|p: u64|
                            1 <= p <= 62 && #[trigger] bit64(bits_here, p) ==> vcol_run_matches(
                                voxels@,
                                right as int,
                                p as int,
                                forward as int,
                                fm_at(forward_merged@, right as int, p as int) as int,
                                vhead_cell(voxels@, right as int, p as int, forward as int),
                            ) && vmask_run(
                                face_masks@,
                                face as int,
                                right as int,
                                p as int,
                                forward as int,
                                fm_at(forward_merged@, right as int, p as int) as int,
                            ),
                        forall|p: int|
                            1 <= p <= 62 && !bit64(bits_here, p as u64) && #[trigger] fm_at(
                                forward_merged@,
                                right as int,
                                p,
                            ) != 0 ==> forward + 1 < CS && bit64(bits_forward, p as u64)
                                && vcol_run_matches(
                                voxels@,
                                right as int,
                                p,
                                forward as int + 1,
                                fm_at(forward_merged@, right as int, p) as int,
                                vhead_cell(voxels@, right as int, p, forward as int + 1),
                            ) && vmask_run(
                                face_masks@,
                                face as int,
                                right as int,
                                p,
                                forward as int + 1,
                                fm_at(forward_merged@, right as int, p) as int,
                            ),
                        forall|r: int, p: int|
                            right + 1 <= r < 62 && 1 <= p <= 62 && #[trigger] fm_at(
                                forward_merged@,
                                r,
                                p,
                            ) != 0 ==> bit64(face_masks@[(r + bits_location) as int], p as u64)
                                && vcol_run_matches(
                                voxels@,
                                r,
                                p,
                                forward as int,
                                fm_at(forward_merged@, r, p) as int,
                                vhead_cell(voxels@, r, p, forward as int),
                            ) && vmask_run(
                                face_masks@,
                                face as int,
                                r,
                                p,
                                forward as int,
                                fm_at(forward_merged@, r, p) as int,
                            ),
                        forall|r: int, p: int|
                            0 <= r < right && 1 <= p <= 62 && #[trigger] fm_at(
                                forward_merged@,
                                r,
                                p,
                            ) != 0 ==> forward + 1 < CS && bit64(
                                face_masks@[(r + (forward + 1) * 62 + face * 3844) as int],
                                p as u64,
                            ) && vcol_run_matches(
                                voxels@,
                                r,
                                p,
                                forward as int + 1,
                                fm_at(forward_merged@, r, p) as int,
                                vhead_cell(voxels@, r, p, forward as int + 1),
                            ) && vmask_run(
                                face_masks@,
                                face as int,
                                r,
                                p,
                                forward as int + 1,
                                fm_at(forward_merged@, r, p) as int,
                            ),
                        forall|p: int|
                            1 <= p <= 62 && bit64(bits_here, p as u64) && #[trigger] rm_at(
                                right_merged@,
                                p,
                            ) != 0 ==> (forall|r2: int|
                                right - rm_at(right_merged@, p) <= r2 < right
                                    ==> #[trigger] vcol_run_matches(
                                    voxels@,
                                    r2,
                                    p,
                                    forward as int,
                                    fm_at(forward_merged@, right as int, p) as int,
                                    vhead_cell(voxels@, right as int, p, forward as int),
                                )) && (forall|r2: int|
                                right - rm_at(right_merged@, p) <= r2 < right
                                    ==> #[trigger] vmask_run(
                                    face_masks@,
                                    face as int,
                                    r2,
                                    p,
                                    forward as int,
                                    fm_at(forward_merged@, right as int, p) as int,
                                )),
                        forall|p: int|
                            1 <= p <= 62 && !bit64(bits_here, p as u64) && #[trigger] rm_at(
                                right_merged@,
                                p,
                            ) != 0 ==> right + 1 < CS && bit64(bits_right, p as u64) && (
                            forall|r2: int|
                                right + 1 - rm_at(right_merged@, p) <= r2 < right + 1
                                    ==> #[trigger] vcol_run_matches(
                                    voxels@,
                                    r2,
                                    p,
                                    forward as int,
                                    fm_at(forward_merged@, right as int + 1, p) as int,
                                    vhead_cell(voxels@, right as int + 1, p, forward as int),
                                )) && (forall|r2: int|
                                right + 1 - rm_at(right_merged@, p) <= r2 < right + 1
                                    ==> #[trigger] vmask_run(
                                    face_masks@,
                                    face as int,
                                    r2,
                                    p,
                                    forward as int,
                                    fm_at(forward_merged@, right as int + 1, p) as int,
                                )),
                        vertices.len() >= old(vertices).len(),
                        vertices@.take(old(vertices).len() as int) == old(vertices)@,
                        forall|k: int|
                            old(vertices).len() <= k < vertices.len() ==> quad_geom_wf(
                                #[trigger] vertices@[k],
                            ) && quad_material_ok(face as int, vertices@[k], voxels@) && quad_in_interior(
                    face as int,
                    vertices@[k],
                ) && quad_bits_visible(face as int, vertices@[k], face_masks@),
                        (forall|w: int|
                            face * 3844 <= w < (face + 1) * 3844 ==> face_masks@[w] == 0u64)
                            ==> vertices.len() == old(vertices).len(),
                    decreases bits_here,
                {
                    let bit_pos = bits_here.trailing_zeros() as usize;
                    proof {
                        lowest_bit_facts(bits_here, bits_here.trailing_zeros());
                        lemma_clear_bit(bits_here, bit_pos as u64);
                    }

                    let ty = voxels[get_axis_index(axis, right + 1, forward + 1, bit_pos)];
                    let f_idx = right_cs + (bit_pos - 1);
                    let fm_val = forward_merged[f_idx];
                    let rm_val = right_merged[bit_pos - 1];

                    let ghost bits0 = bits_here;
                    let ghost fm0 = forward_merged@;
                    let ghost rm0 = right_merged@;
                    // Record what the invariants say about this bit's runs
                    // before the bit is cleared and the counters change.
                    proof {
                        let rv = right as int;
                        let pv = bit_pos as int;
                        let fv = forward as int;
                        assert(bit64(bits_here, pv as u64));
                        assert(fm_at(forward_merged@, rv, pv) == fm_val);
                        assert(rm_at(right_merged@, pv) == rm_val);
                        assert(ty == vhead_cell(voxels@, rv, pv, fv));
                        assert(vcol_run_matches(voxels@, rv, pv, fv, fm_val as int, ty));
                        assert(vmask_run(face_masks@, face as int, rv, pv, fv, fm_val as int));
                        if rm_val != 0 {
                            assert forall|r2: int|
                                rv - rm_val <= r2 < rv implies #[trigger] vcol_run_matches(
                                voxels@,
                                r2,
                                pv,
                                fv,
                                fm_val as int,
                                ty,
                            ) by {
                                assert(vcol_run_matches(
                                    voxels@,
                                    r2,
                                    pv,
                                    fv,
                                    fm_at(forward_merged@, rv, pv) as int,
                                    vhead_cell(voxels@, rv, pv, fv),
                                ));
                            }
                            assert forall|r2: int|
                                rv - rm_val <= r2 < rv implies #[trigger] vmask_run(
                                face_masks@,
                                face as int,
                                r2,
                                pv,
                                fv,
                                fm_val as int,
                            ) by {
                                assert(vmask_run(
                                    face_masks@,
                                    face as int,
                                    r2,
                                    pv,
                                    fv,
                                    fm_at(forward_merged@, rv, pv) as int,
                                ));
                            }
                        }
                    }
                    bits_here = bits_here & !(1u64 << (bit_pos as u64));
                    proof {
                        lemma_pop_clear_bit(bits0, bits_here, bit_pos as u64, 64);
                    }

                    let merge_forward = if rm_val == 0 && forward + 1 < CS && ((bits_forward >> (
                    bit_pos as u64)) & 1) == 1 {
                        ty == voxels[get_axis_index(axis, right + 1, forward + 2, bit_pos)]
                    } else {
                        false
                    };

                    if merge_forward {
                        // The run continues on the next forward row; the next
                        // row's cell was checked against the head, so the
                        // extended run stays uniform.
                        let ghost pre_fm = forward_merged@;
                        forward_merged.set(f_idx, fm_val + 1);
                        proof {
                            let rv = right as int;
                            let pv = bit_pos as int;
                            let fv = forward as int;
                            lemma_fm_update_other(
                                pre_fm,
                                forward_merged@,
                                rv,
                                pv,
                                (fm_val + 1) as u8,
                            );
                            assert(ty == vhead_cell(voxels@, rv, pv, fv + 1));
                            assert forall|fa: int|
                                fv + 2 - (fm_val + 1) <= fa <= fv + 2 implies #[trigger] voxels@[
                                axis_index(2, rv + 1, fa, pv)] == vhead_cell(
                                voxels@,
                                rv,
                                pv,
                                fv + 1,
                            ) by {
                                if fa <= fv + 1 {
                                    assert(voxels@[axis_index(2, rv + 1, fa, pv)] == ty);
                                }
                            }
                            assert(vcol_run_matches(
                                voxels@,
                                rv,
                                pv,
                                fv + 1,
                                (fm_val + 1) as int,
                                vhead_cell(voxels@, rv, pv, fv + 1),
                            ));
                            assert forall|fw: int|
                                (fv + 1) - (fm_val + 1) <= fw <= fv + 1 implies #[trigger] bit64(
                                vword(face_masks@, face as int, fw, rv),
                                pv as u64,
                            ) by {
                                if fw <= fv {
                                    assert(bit64(
                                        vword(face_masks@, face as int, fw, rv),
                                        pv as u64,
                                    ));
                                } else {
                                    assert(bit64(bits_forward, pv as u64));
                                }
                            }
                            assert(vmask_run(
                                face_masks@,
                                face as int,
                                rv,
                                pv,
                                fv + 1,
                                (fm_val + 1) as int,
                            ));
                            assert(fm_at(forward_merged@, rv, pv) == fm_val + 1);
                            lemma_sum_bytes_update(
                                pre_fm,
                                forward_merged@,
                                f_idx as int,
                                (fm_val + 1) as u8,
                                3844,
                            );
                            assert forall|p: int|
                                1 <= p <= 62 && p != pv implies #[trigger] pm_term(
                                rm0,
                                fm0,
                                rv,
                                bits0,
                                p,
                            ) == pm_term(right_merged@, forward_merged@, rv, bits_here, p) by {
                                if rm_at(rm0, p) != 0 {
                                    if !bit64(bits0, p as u64) {
                                        assert(fm_at(forward_merged@, rv + 1, p) == fm_at(
                                            fm0,
                                            rv + 1,
                                            p,
                                        ));
                                    } else {
                                        assert(fm_at(forward_merged@, rv, p) == fm_at(
                                            fm0,
                                            rv,
                                            p,
                                        ));
                                    }
                                }
                            }
                            lemma_pending_mixed_one_term(
                                rm0,
                                fm0,
                                bits0,
                                right_merged@,
                                forward_merged@,
                                bits_here,
                                rv,
                                pv,
                                62,
                            );
                            assert(pm_term(rm0, fm0, rv, bits0, pv) == 0);
                            assert(pm_term(right_merged@, forward_merged@, rv, bits_here, pv)
                                == 0);
                        }
                    } else {
                        let next_forward_merged = if right + 1 < CS {
                            forward_merged[(right_cs + CS) + (bit_pos - 1)]
                        } else {
                            0
                        };
                        let merge_right = if right + 1 < CS && ((bits_right >> (bit_pos as u64))
                            & 1) == 1 && fm_val == next_forward_merged {
                            ty == voxels[get_axis_index(axis, right + 2, forward + 1, bit_pos)]
                        } else {
                            false
                        };
                        if merge_right {
                            // The run continues on the next right column: the
                            // next column's run length and head material were
                            // both checked against this one's.
                            let ghost pre_fm = forward_merged@;
                            let ghost pre_rm = right_merged@;
                            forward_merged.set(f_idx, 0u8);
                            right_merged.set(bit_pos - 1, rm_val + 1);
                            proof {
                                let rv = right as int;
                                let pv = bit_pos as int;
                                let fv = forward as int;
                                lemma_fm_update_other(pre_fm, forward_merged@, rv, pv, 0u8);
                                lemma_rm_update_other(
                                    pre_rm,
                                    right_merged@,
                                    pv,
                                    (rm_val + 1) as u8,
                                );
                                assert(ty == vhead_cell(voxels@, rv + 1, pv, fv));
                                assert(fm_at(forward_merged@, rv + 1, pv)
                                    == next_forward_merged);
                                assert forall|r2: int|
                                    rv + 1 - (rm_val + 1) <= r2 < rv + 1
                                        implies #[trigger] vcol_run_matches(
                                    voxels@,
                                    r2,
                                    pv,
                                    fv,
                                    fm_at(forward_merged@, rv + 1, pv) as int,
                                    vhead_cell(voxels@, rv + 1, pv, fv),
                                ) by {
                                    assert(vcol_run_matches(
                                        voxels@,
                                        r2,
                                        pv,
                                        fv,
                                        fm_val as int,
                                        ty,
                                    ));
                                }
                                assert(rm_at(right_merged@, pv) == rm_val + 1);
                                lemma_sum_bytes_update(
                                    pre_fm,
                                    forward_merged@,
                                    f_idx as int,
                                    0u8,
                                    3844,
                                );
                                assert forall|p: int|
                                    1 <= p <= 62 && p != pv implies #[trigger] pm_term(
                                    rm0,
                                    fm0,
                                    rv,
                                    bits0,
                                    p,
                                ) == pm_term(right_merged@, forward_merged@, rv, bits_here, p) by {
                                    if rm_at(rm0, p) != 0 {
                                        if !bit64(bits0, p as u64) {
                                            assert(fm_at(forward_merged@, rv + 1, p) == fm_at(
                                                fm0,
                                                rv + 1,
                                                p,
                                            ));
                                        } else {
                                            assert(fm_at(forward_merged@, rv, p) == fm_at(
                                                fm0,
                                                rv,
                                                p,
                                            ));
                                        }
                                    }
                                }
                                lemma_pending_mixed_one_term(
                                    rm0,
                                    fm0,
                                    bits0,
                                    right_merged@,
                                    forward_merged@,
                                    bits_here,
                                    rv,
                                    pv,
                                    62,
                                );
                                assert(pm_term(rm0, fm0, rv, bits0, pv) == (rm_val as int) * (
                                fm_val as int + 1));
                                assert(fm_at(forward_merged@, rv + 1, pv) == fm_val);
                                assert(pm_term(right_merged@, forward_merged@, rv, bits_here, pv)
                                    == (rm_val as int + 1) * (fm_val as int + 1));
                                assert((rm_val as int + 1) * (fm_val as int + 1) - (rm_val as int)
                                    * (fm_val as int + 1) == fm_val as int + 1)
                                    by (nonlinear_arith);
                            }
                        } else {
                            // Emit one maximal quad.
                            let mesh_left = right - (rm_val as usize);
                            let mesh_front = forward - (fm_val as usize);
                            let mesh_up = bit_pos - 1 + (if face == 4 {
                                1
                            } else {
                                0
                            });
                            let mesh_width = 1 + (rm_val as usize);
                            let mesh_length = 1 + (fm_val as usize);

                            let ghost pre_fm = forward_merged@;
                            let ghost pre_rm = right_merged@;
                            forward_merged.set(f_idx, 0u8);
                            right_merged.set(bit_pos - 1, 0u8);
                            proof {
                                lemma_fm_update_other(
                                    pre_fm,
                                    forward_merged@,
                                    right as int,
                                    bit_pos as int,
                                    0u8,
                                );
                                lemma_rm_update_other(
                                    pre_rm,
                                    right_merged@,
                                    bit_pos as int,
                                    0u8,
                                );
                                let rv = right as int;
                                let pv = bit_pos as int;
                                lemma_sum_bytes_update(
                                    pre_fm,
                                    forward_merged@,
                                    f_idx as int,
                                    0u8,
                                    3844,
                                );
                                assert forall|p: int|
                                    1 <= p <= 62 && p != pv implies #[trigger] pm_term(
                                    rm0,
                                    fm0,
                                    rv,
                                    bits0,
                                    p,
                                ) == pm_term(right_merged@, forward_merged@, rv, bits_here, p) by {
                                    assert(rm_at(right_merged@, p) == rm_at(rm0, p));
                                    assert(bit64(bits_here, p as u64) == bit64(
                                        bits0,
                                        p as u64,
                                    ));
                                    if rm_at(rm0, p) != 0 {
                                        if !bit64(bits0, p as u64) {
                                            assert(fm_at(forward_merged@, rv + 1, p) == fm_at(
                                                fm0,
                                                rv + 1,
                                                p,
                                            ));
                                        } else {
                                            assert(fm_at(forward_merged@, rv, p) == fm_at(
                                                fm0,
                                                rv,
                                                p,
                                            ));
                                        }
                                    } else {
                                        assert(pm_term(rm0, fm0, rv, bits0, p) == 0);
                                        assert(pm_term(
                                            right_merged@,
                                            forward_merged@,
                                            rv,
                                            bits_here,
                                            p,
                                        ) == 0);
                                    }
                                }
                                lemma_pending_mixed_one_term(
                                    rm0,
                                    fm0,
                                    bits0,
                                    right_merged@,
                                    forward_merged@,
                                    bits_here,
                                    rv,
                                    pv,
                                    62,
                                );
                                assert(bit64(bits0, pv as u64));
                                assert(!bit64(bits_here, pv as u64));
                                assert(rm_at(rm0, pv) == rm_val);
                                assert(fm_at(fm0, rv, pv) == fm_val);
                                assert(pm_term(rm0, fm0, rv, bits0, pv) == (rm_val as int) * (
                                fm_val as int + 1));
                                assert(rm_at(right_merged@, pv) == 0);
                                assert(pm_term(right_merged@, forward_merged@, rv, bits_here, pv)
                                    == 0);
                                let fv = forward as int;
                                assert forall|r2: int|
                                    rv - rm_val <= r2 <= rv implies #[trigger] vmask_run(
                                    face_masks@,
                                    face as int,
                                    r2,
                                    pv,
                                    fv,
                                    fm_val as int,
                                ) by {
                                    if r2 < rv {
                                        assert(vmask_run(
                                            face_masks@,
                                            face as int,
                                            r2,
                                            pv,
                                            fv,
                                            fm_val as int,
                                        ));
                                    }
                                }
                            }

                            let x = mesh_left + (if face == 4 {
                                mesh_width
                            } else {
                                0
                            });
                            let quad = get_quad(
                                x as u32,
                                mesh_front as u32,
                                mesh_up as u32,
                                mesh_width as u32,
                                mesh_length as u32,
                                ty as u32,
                            );
                            let ghost pre_push = vertices@;
                            vertices.push(quad);
                            proof {
                                lemma_quad_word_fields(
                                    x as u32,
                                    mesh_front as u32,
                                    mesh_up as u32,
                                    mesh_width as u32,
                                    mesh_length as u32,
                                );
                                assert(quad_geom_wf(quad));
                                lemma_area_sum_push(
                                    pre_push,
                                    vertices@,
                                    old(vertices).len() as int,
                                    quad,
                                );
                                assert((rm_val as int + 1) * (fm_val as int + 1) - fm_val as int
                                    - (rm_val as int) * (fm_val as int + 1) - 1 == 0)
                                    by (nonlinear_arith);
                                let fc = face as int;
                                assert(quad_a_lo(fc, quad) == mesh_left as int);
                                assert(quad_b_lo(fc, quad) == mesh_front as int);
                                assert(quad_layer_arg(fc, quad) == bit_pos as int);
                                assert(quad_in_interior(fc, quad));
                                assert forall|i: int, p2: int|
                                    0 <= i < 3844 && 0 <= p2 < 64 && #[trigger] quad_covers_bit(
                                        fc,
                                        quad,
                                        i,
                                        p2,
                                    ) implies bit64(face_masks@[fc * 3844 + i], p2 as u64) by {
                                    vstd::arithmetic::div_mod::lemma_fundamental_div_mod(i, 62);
                                    assert(vmask_run(
                                        face_masks@,
                                        fc,
                                        i % 62,
                                        bit_pos as int,
                                        forward as int,
                                        fm_val as int,
                                    ));
                                    assert(bit64(
                                        vword(face_masks@, fc, i / 62, i % 62),
                                        (bit_pos as int) as u64,
                                    ));
                                }
                                assert(quad_bits_visible(fc, quad, face_masks@));
                                assert forall|aa: int, bb: int|
                                    #![trigger voxels@[axis_index(fc / 2, aa, bb, quad_layer_arg(fc, quad))]]
                                    quad_a_lo(fc, quad) < aa <= quad_a_lo(fc, quad) + quad_w(
                                        quad,
                                    ) && quad_b_lo(fc, quad) < bb <= quad_b_lo(fc, quad)
                                        + quad_h(quad) implies voxels@[axis_index(
                                    fc / 2,
                                    aa,
                                    bb,
                                    quad_layer_arg(fc, quad),
                                )] as u32 == quad.quad_data2 by {
                                    assert(vcol_run_matches(
                                        voxels@,
                                        aa - 1,
                                        bit_pos as int,
                                        forward as int,
                                        fm_val as int,
                                        ty,
                                    ));
                                    assert(voxels@[axis_index(
                                        2,
                                        (aa - 1) + 1,
                                        bb,
                                        bit_pos as int,
                                    )] == ty);
                                }
                                assert(quad_material_ok(fc, quad, voxels@));
                                assert(vertices@.take(old(vertices).len() as int)
                                    =~= pre_push.take(old(vertices).len() as int));
                                if (forall|w: int|
                                    face * 3844 <= w < (face + 1) * 3844 ==> face_masks@[w]
                                        == 0u64) {
                                    assert(face_masks@[(right + bits_location) as int] == 0u64);
                                    assert(false);
                                }
                            }
                        }
                    }
                }
                proof {
                    assert(forall|j: u64| j < 64 ==> (0u64 >> j) & 1 != 1) by (bit_vector);
                    assert forall|p: int|
                        1 <= p <= 62 && #[trigger] rm_at(right_merged@, p) != 0 implies !bit64(
                        bits_here,
                        p as u64,
                    ) by {}
                    lemma_pending_mixed_eq_next(
                        right_merged@,
                        forward_merged@,
                        right as int,
                        bits_here,
                        62,
                    );
                    lemma_pop_zero(64);
                    assert(masks_pop(face_masks@, face * 3844, forward * 62 + right + 1)
                        == masks_pop(face_masks@, face * 3844, forward * 62 + right) + pop64(
                        face_masks@[(right + bits_location) as int],
                    ));
                    assert forall|p: int|
                        1 <= p <= 62 && #[trigger] fm_at(forward_merged@, right as int, p) != 0
                            implies forward + 1 < CS && bit64(
                        face_masks@[(right + (forward + 1) * 62 + face * 3844) as int],
                        p as u64,
                    ) && vcol_run_matches(
                        voxels@,
                        right as int,
                        p,
                        forward as int + 1,
                        fm_at(forward_merged@, right as int, p) as int,
                        vhead_cell(voxels@, right as int, p, forward as int + 1),
                    ) && vmask_run(
                        face_masks@,
                        face as int,
                        right as int,
                        p,
                        forward as int + 1,
                        fm_at(forward_merged@, right as int, p) as int,
                    ) by {
                        assert(!bit64(bits_here, p as u64));
                    }
                    assert forall|p: int|
                        1 <= p <= 62 && #[trigger] rm_at(right_merged@, p) != 0 implies right + 1
                            < 62 && bit64(
                        face_masks@[(right + 1 + bits_location) as int],
                        p as u64,
                    ) && (forall|r2: int|
                        right + 1 - rm_at(right_merged@, p) <= r2 < right + 1
                            ==> #[trigger] vcol_run_matches(
                            voxels@,
                            r2,
                            p,
                            forward as int,
                            fm_at(forward_merged@, right as int + 1, p) as int,
                            vhead_cell(voxels@, right as int + 1, p, forward as int),
                        )) && (forall|r2: int|
                        right + 1 - rm_at(right_merged@, p) <= r2 < right + 1
                            ==> #[trigger] vmask_run(
                            face_masks@,
                            face as int,
                            r2,
                            p,
                            forward as int,
                            fm_at(forward_merged@, right as int + 1, p) as int,
                        )) by {
                        assert(!bit64(bits_here, p as u64));
                    }
                }
            }
            right = right + 1;
        }
        proof {
            assert forall|p: int| 1 <= p <= 62 implies #[trigger] rm_at(right_merged@, p)
                == 0 by {}
            assert forall|q: int| 0 <= q < 62 implies right_merged@[q] == 0u8 by {
                assert(rm_at(right_merged@, q + 1) == 0);
            }
            lemma_pending_col_zero(right_merged@, forward_merged@, right as int, 62);
            assert(forward * 62 + 62 == (forward + 1) * 62);
        }
        forward = forward + 1;
    }
    proof {
        assert forall|idx: int| 0 <= idx < 3844 implies forward_merged@[idx] == 0 by {
            vstd::arithmetic::div_mod::lemma_fundamental_div_mod(idx, 62);
            let r = idx / 62;
            let q = idx % 62;
            assert(fm_at(forward_merged@, r, q + 1) == 0);
        }
        lemma_sum_bytes_zero(forward_merged@, 3844);
    }
}

/// A merge pass only appends: every quad already present keeps its place
/// and value.
proof fn lemma_range_eq(prev: Seq<QuadData>, cur: Seq<QuadData>)
    requires
        cur.len() >= prev.len(),
        cur.take(prev.len() as int) == prev,
    ensures
        forall|k: int| 0 <= k < prev.len() ==> #[trigger] cur[k] == prev[k],
{
    assert forall|k: int| 0 <= k < prev.len() implies #[trigger] cur[k] == prev[k] by {
        assert(cur.take(prev.len() as int)[k] == cur[k]);
    }
}

/// A merge pass that appends only well-formed quads to a vector of
/// well-formed quads leaves every quad well-formed.
proof fn lemma_wf_extend(prev: Seq<QuadData>, cur: Seq<QuadData>)
    requires
        cur.len() >= prev.len(),
        cur.take(prev.len() as int) == prev,
        forall|k: int| 0 <= k < prev.len() ==> quad_geom_wf(#[trigger] prev[k]),
        forall|k: int| prev.len() <= k < cur.len() ==> quad_geom_wf(#[trigger] cur[k]),
    ensures
        forall|k: int| 0 <= k < cur.len() ==> quad_geom_wf(#[trigger] cur[k]),
{
    assert forall|k: int| 0 <= k < cur.len() implies quad_geom_wf(#[trigger] cur[k]) by {
        if k < prev.len() {
            assert(cur.take(prev.len() as int)[k] == cur[k]);
        }
    }
}

proof fn lemma_cull_zero_word()
    by (bit_vector)
    ensures
        forall|z: u64| ((0u64 & 0x7FFF_FFFF_FFFF_FFFEu64) & !z) >> 1u64 == 0u64,
        forall|z: u64| #![trigger (0u64 & 0x7FFF_FFFF_FFFF_FFFEu64) & z] (0u64
            & 0x7FFF_FFFF_FFFF_FFFEu64) & z == 0u64,
{
}

/// Meshes one decoded chunk: derives the six face-visibility tables from the
/// workspace's opaque bitset, greedily merges each face's visible
/// same-material cells, and leaves the quads in `mesh_data.vertices` grouped
/// face by face, with `face_vertex_begin` and `face_vertex_length` marking
/// each face's group.
///
/// Every emitted quad stays within the interior bounds, sits only on set
/// visibility bits of its face (so never on a hidden or halo cell), and
/// covers cells of exactly its own material; each face's quad areas sum to
/// the popcount of that face's visibility masks; the merge-run counters are
/// all zero again on return; and an all-empty opaque bitset yields no quad
/// on any face.
#[verifier::rlimit(100)]
#[verifier::spinoff_prover]
pub fn mesh(voxels: &Vec<u8>, mesh_data: &mut MeshData)
    requires
        voxels.len() == CS_P3,
        old(mesh_data).wf(),
    ensures
        final(mesh_data).wf(),
        final(mesh_data).opaque_mask@ == old(mesh_data).opaque_mask@,
        forall|idx: int| 0 <= idx < CS_2 ==> final(mesh_data).forward_merged@[idx] == 0u8,
        forall|q: int| 0 <= q < CS ==> final(mesh_data).right_merged@[q] == 0u8,
        forall|face: int, c: int, l: int|
            0 <= face < 6 && 0 <= c < 62 && 0 <= l < 62 ==> final(mesh_data).face_masks@[face
                * 3844 + l * 62 + c] == #[trigger] cull_word(
                old(mesh_data).opaque_mask@,
                face,
                c,
                l,
            ),
        final(mesh_data).face_vertex_begin[0] == 0,
        forall|f: int|
            0 <= f < 5 ==> #[trigger] final(mesh_data).face_vertex_begin[f]
                + final(mesh_data).face_vertex_length[f]
                == final(mesh_data).face_vertex_begin[f + 1],
        final(mesh_data).face_vertex_begin[5] + final(mesh_data).face_vertex_length[5]
            == final(mesh_data).vertices.len(),
        forall|k: int|
            0 <= k < final(mesh_data).vertices.len() ==> quad_geom_wf(
                #[trigger] final(mesh_data).vertices@[k],
            ),
        forall|k: int|
            final(mesh_data).face_vertex_begin[0] <= k < final(mesh_data).face_vertex_begin[0]
                + final(mesh_data).face_vertex_length[0] ==> quad_material_ok(
                0,
                #[trigger] final(mesh_data).vertices@[k],
                voxels@,
            ) && quad_in_interior(0, final(mesh_data).vertices@[k]) && quad_bits_visible(
                0,
                final(mesh_data).vertices@[k],
                final(mesh_data).face_masks@,
            ),
        forall|k: int|
            final(mesh_data).face_vertex_begin[1] <= k < final(mesh_data).face_vertex_begin[1]
                + final(mesh_data).face_vertex_length[1] ==> quad_material_ok(
                1,
                #[trigger] final(mesh_data).vertices@[k],
                voxels@,
            ) && quad_in_interior(1, final(mesh_data).vertices@[k]) && quad_bits_visible(
                1,
                final(mesh_data).vertices@[k],
                final(mesh_data).face_masks@,
            ),
        forall|k: int|
            final(mesh_data).face_vertex_begin[2] <= k < final(mesh_data).face_vertex_begin[2]
                + final(mesh_data).face_vertex_length[2] ==> quad_material_ok(
                2,
                #[trigger] final(mesh_data).vertices@[k],
                voxels@,
            ) && quad_in_interior(2, final(mesh_data).vertices@[k]) && quad_bits_visible(
                2,
                final(mesh_data).vertices@[k],
                final(mesh_data).face_masks@,
            ),
        forall|k: int|
            final(mesh_data).face_vertex_begin[3] <= k < final(mesh_data).face_vertex_begin[3]
                + final(mesh_data).face_vertex_length[3] ==> quad_material_ok(
                3,
                #[trigger] final(mesh_data).vertices@[k],
                voxels@,
            ) && quad_in_interior(3, final(mesh_data).vertices@[k]) && quad_bits_visible(
                3,
                final(mesh_data).vertices@[k],
                final(mesh_data).face_masks@,
            ),
        forall|k: int|
            final(mesh_data).face_vertex_begin[4] <= k < final(mesh_data).face_vertex_begin[4]
                + final(mesh_data).face_vertex_length[4] ==> quad_material_ok(
                4,
                #[trigger] final(mesh_data).vertices@[k],
                voxels@,
            ) && quad_in_interior(4, final(mesh_data).vertices@[k]) && quad_bits_visible(
                4,
                final(mesh_data).vertices@[k],
                final(mesh_data).face_masks@,
            ),
        forall|k: int|
            final(mesh_data).face_vertex_begin[5] <= k < final(mesh_data).face_vertex_begin[5]
                + final(mesh_data).face_vertex_length[5] ==> quad_material_ok(
                5,
                #[trigger] final(mesh_data).vertices@[k],
                voxels@,
            ) && quad_in_interior(5, final(mesh_data).vertices@[k]) && quad_bits_visible(
                5,
                final(mesh_data).vertices@[k],
                final(mesh_data).face_masks@,
            ),
        area_sum(
            final(mesh_data).vertices@,
            final(mesh_data).face_vertex_begin[0] as int,
            final(mesh_data).face_vertex_begin[0] + final(mesh_data).face_vertex_length[0],
        ) == masks_pop(final(mesh_data).face_masks@, 0, 3844),
        area_sum(
            final(mesh_data).vertices@,
            final(mesh_data).face_vertex_begin[1] as int,
            final(mesh_data).face_vertex_begin[1] + final(mesh_data).face_vertex_length[1],
        ) == masks_pop(final(mesh_data).face_masks@, 3844, 3844),
        area_sum(
            final(mesh_data).vertices@,
            final(mesh_data).face_vertex_begin[2] as int,
            final(mesh_data).face_vertex_begin[2] + final(mesh_data).face_vertex_length[2],
        ) == masks_pop(final(mesh_data).face_masks@, (2 * 3844) as int, 3844),
        area_sum(
            final(mesh_data).vertices@,
            final(mesh_data).face_vertex_begin[3] as int,
            final(mesh_data).face_vertex_begin[3] + final(mesh_data).face_vertex_length[3],
        ) == masks_pop(final(mesh_data).face_masks@, (3 * 3844) as int, 3844),
        area_sum(
            final(mesh_data).vertices@,
            final(mesh_data).face_vertex_begin[4] as int,
            final(mesh_data).face_vertex_begin[4] + final(mesh_data).face_vertex_length[4],
        ) == masks_pop(final(mesh_data).face_masks@, (4 * 3844) as int, 3844),
        area_sum(
            final(mesh_data).vertices@,
            final(mesh_data).face_vertex_begin[5] as int,
            final(mesh_data).face_vertex_begin[5] + final(mesh_data).face_vertex_length[5],
        ) == masks_pop(final(mesh_data).face_masks@, (5 * 3844) as int, 3844),
        (forall|w: int| 0 <= w < CS_P2 ==> old(mesh_data).opaque_mask@[w] == 0u64)
            ==> final(mesh_data).vertices.len() == 0,
{
    mesh_data.vertices.clear();
    build_face_masks(&mut mesh_data.face_masks, &mesh_data.opaque_mask);
    proof {
        if forall|w: int| 0 <= w < CS_P2 ==> mesh_data.opaque_mask@[w] == 0u64 {
            lemma_cull_zero_word();
            assert forall|w: int| 0 <= w < 6 * 3844 implies mesh_data.face_masks@[w] == 0u64 by {
                lemma_face_word_decomp(w);
                let face = w / 3844;
                let c = (w % 3844) % 62;
                let l = (w % 3844) / 62;
                assert(mesh_data.face_masks@[face * 3844 + l * 62 + c] == cull_word(
                    mesh_data.opaque_mask@,
                    face,
                    c,
                    l,
                ));
                assert(cull_word(mesh_data.opaque_mask@, face, c, l) == 0u64);
            }
        }
    }

    let ghost v0 = mesh_data.vertices@;
    merge_lateral_faces(
        0,
        voxels,
        &mesh_data.face_masks,
        &mut mesh_data.forward_merged,
        &mut mesh_data.vertices,
    );
    proof {
        lemma_wf_extend(v0, mesh_data.vertices@);
    }
    let e0 = mesh_data.vertices.len();
    let ghost v1 = mesh_data.vertices@;
    merge_lateral_faces(
        1,
        voxels,
        &mesh_data.face_masks,
        &mut mesh_data.forward_merged,
        &mut mesh_data.vertices,
    );
    proof {
        lemma_wf_extend(v1, mesh_data.vertices@);
    }
    let e1 = mesh_data.vertices.len();
    let ghost v2 = mesh_data.vertices@;
    merge_lateral_faces(
        2,
        voxels,
        &mesh_data.face_masks,
        &mut mesh_data.forward_merged,
        &mut mesh_data.vertices,
    );
    proof {
        lemma_wf_extend(v2, mesh_data.vertices@);
    }
    let e2 = mesh_data.vertices.len();
    let ghost v3 = mesh_data.vertices@;
    merge_lateral_faces(
        3,
        voxels,
        &mesh_data.face_masks,
        &mut mesh_data.forward_merged,
        &mut mesh_data.vertices,
    );
    proof {
        lemma_wf_extend(v3, mesh_data.vertices@);
    }
    let e3 = mesh_data.vertices.len();
    let ghost v4 = mesh_data.vertices@;
    merge_vertical_faces(
        4,
        voxels,
        &mesh_data.face_masks,
        &mut mesh_data.forward_merged,
        &mut mesh_data.right_merged,
        &mut mesh_data.vertices,
    );
    proof {
        lemma_wf_extend(v4, mesh_data.vertices@);
    }
    let e4 = mesh_data.vertices.len();
    let ghost v5 = mesh_data.vertices@;
    merge_vertical_faces(
        5,
        voxels,
        &mesh_data.face_masks,
        &mut mesh_data.forward_merged,
        &mut mesh_data.right_merged,
        &mut mesh_data.vertices,
    );
    proof {
        lemma_wf_extend(v5, mesh_data.vertices@);
    }
    let e5 = mesh_data.vertices.len();

    proof {
        lemma_range_eq(v1, v2);
        lemma_range_eq(v2, v3);
        lemma_range_eq(v3, v4);
        lemma_range_eq(v4, v5);
        lemma_range_eq(v5, mesh_data.vertices@);
        lemma_area_sum_prefix(v1, mesh_data.vertices@, 0, e0 as int);
        lemma_area_sum_prefix(v2, mesh_data.vertices@, e0 as int, e1 as int);
        lemma_area_sum_prefix(v3, mesh_data.vertices@, e1 as int, e2 as int);
        lemma_area_sum_prefix(v4, mesh_data.vertices@, e2 as int, e3 as int);
        lemma_area_sum_prefix(v5, mesh_data.vertices@, e3 as int, e4 as int);
    }
    mesh_data.face_vertex_begin = [0, e0, e1, e2, e3, e4];
    mesh_data.face_vertex_length = [e0, e1 - e0, e2 - e1, e3 - e2, e4 - e3, e5 - e4];
}

/// Maps sweep coordinates to the linear voxel index of the cell they name.
fn get_axis_index(axis: usize, a: usize, b: usize, c: usize) -> (r: usize)
    requires
        axis < 3,
        a < CS_P,
        b < CS_P,
        c < CS_P,
    ensures
        r == axis_index(axis as int, a as int, b as int, c as int),
        r < CS_P3,
{
    if axis == 0 {
        b + (a * CS_P) + (c * CS_P2)
    } else if axis == 1 {
        b + (c * CS_P) + (a * CS_P2)
    } else {
        c + (a * CS_P) + (b * CS_P2)
    }
}

} // verus!
