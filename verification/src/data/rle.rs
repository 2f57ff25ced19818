//! Run-length codec for chunk payloads.
//!
//! A payload is a stream of `(material, run_length)` byte pairs describing a
//! prefix of the `CS_P3`-cell voxel buffer; the trailing all-empty run is
//! omitted. Decoding fills the voxel buffer and, in the same pass, an opaque
//! bitset of `CS_P2` 64-bit words in which bit `i % 64` of word `i / 64` is
//! set exactly when cell `i` holds a non-empty material.

use vstd::prelude::*;

use crate::CS_P2;
use crate::CS_P3;

verus! {

/// Bit `j` of the 64-bit word `w`.
pub open spec fn bit64(w: u64, j: u64) -> bool {
    (w >> j) & 1 == 1
}

/// Bit `i` of an opaque bitset, addressed as a bit stream over the words.
pub open spec fn mask_bit(m: Seq<u64>, i: int) -> bool {
    bit64(m[i / 64], (i % 64) as u64)
}

/// The voxels a run-length stream describes: each `(material, length)` pair
/// contributes `length` copies of `material`. A trailing lone byte
/// contributes nothing.
pub open spec fn rle_decoded(rle: Seq<u8>) -> Seq<u8>
    decreases rle.len(),
{
    if rle.len() < 2 {
        Seq::empty()
    } else {
        Seq::new(rle[1] as nat, |i: int| rle[0]) + rle_decoded(rle.skip(2))
    }
}

/// Cell `i` of the decoded volume, with the omitted trailing run restored as
/// empty cells.
pub open spec fn decoded_cell(rle: Seq<u8>, i: int) -> u8 {
    if 0 <= i < rle_decoded(rle).len() {
        rle_decoded(rle)[i]
    } else {
        0
    }
}

/// Why a run-length payload was rejected.
#[derive(Clone, Copy, Debug, PartialEq, Eq, Structural)]
pub enum RleError {
    /// The stream ends in a lone material byte with no run length.
    OddLength,
    /// The runs describe more than `CS_P3` cells.
    Overflow,
}

/// Appending one `(material, length)` pair extends the decoded volume by one
/// run.
pub proof fn lemma_decoded_push_pair(rle: Seq<u8>, ty: u8, len: u8)
    requires
        rle.len() % 2 == 0,
    ensures
        rle_decoded(rle.push(ty).push(len)) == rle_decoded(rle) + Seq::new(len as nat, |i: int| ty),
    decreases rle.len(),
{
    let ext = rle.push(ty).push(len);
    if rle.len() == 0 {
        assert(ext.skip(2) =~= Seq::<u8>::empty());
        assert(Seq::new(len as nat, |i: int| ty) + rle_decoded(ext.skip(2))
            =~= Seq::new(len as nat, |i: int| ty));
        assert(rle_decoded(rle) + Seq::new(len as nat, |i: int| ty)
            =~= Seq::new(len as nat, |i: int| ty));
    } else {
        assert(ext.skip(2) =~= rle.skip(2).push(ty).push(len));
        lemma_decoded_push_pair(rle.skip(2), ty, len);
        assert(rle_decoded(ext)
            == Seq::new(rle[1] as nat, |i: int| rle[0])
                + (rle_decoded(rle.skip(2)) + Seq::new(len as nat, |i: int| ty)));
        assert(Seq::new(rle[1] as nat, |i: int| rle[0])
            + (rle_decoded(rle.skip(2)) + Seq::new(len as nat, |i: int| ty))
            =~= rle_decoded(rle) + Seq::new(len as nat, |i: int| ty));
    }
}

/// Consuming one pair from the front peels one run off the decoded volume.
pub proof fn lemma_decoded_take_step(rle: Seq<u8>, p: int)
    requires
        0 <= p,
        p % 2 == 0,
        p + 2 <= rle.len(),
    ensures
        rle_decoded(rle.take(p + 2))
            == rle_decoded(rle.take(p)) + Seq::new(rle[p + 1] as nat, |i: int| rle[p]),
{
    assert(rle.take(p + 2) =~= rle.take(p).push(rle[p]).push(rle[p + 1]));
    lemma_decoded_push_pair(rle.take(p), rle[p], rle[p + 1]);
}

/// Decoding the whole stream splits at any even position.
pub proof fn lemma_decoded_split(rle: Seq<u8>, p: int)
    requires
        0 <= p,
        p % 2 == 0,
        p <= rle.len(),
    ensures
        rle_decoded(rle) == rle_decoded(rle.take(p)) + rle_decoded(rle.skip(p)),
    decreases p,
{
    if p == 0 {
        assert(rle.take(0) =~= Seq::<u8>::empty());
        assert(rle.skip(0) =~= rle);
        assert(rle_decoded(rle.take(0)) + rle_decoded(rle.skip(0)) =~= rle_decoded(rle));
    } else {
        lemma_decoded_split(rle, p - 2);
        lemma_decoded_take_step(rle, p - 2);
        assert(rle.skip(p - 2).len() >= 2);
        assert(rle.skip(p - 2)[0] == rle[p - 2]);
        assert(rle.skip(p - 2)[1] == rle[p - 1]);
        assert(rle.skip(p - 2).skip(2) =~= rle.skip(p));
        assert(rle_decoded(rle.skip(p - 2))
            == Seq::new(rle[p - 1] as nat, |i: int| rle[p - 2]) + rle_decoded(rle.skip(p)));
        assert(rle_decoded(rle.take(p)) + rle_decoded(rle.skip(p))
            =~= (rle_decoded(rle.take(p - 2)) + Seq::new(rle[p - 1] as nat, |i: int| rle[p - 2]))
                + rle_decoded(rle.skip(p)));
        assert(rle_decoded(rle.take(p - 2)) + rle_decoded(rle.skip(p - 2))
            =~= rle_decoded(rle.take(p)) + rle_decoded(rle.skip(p)));
    }
}

/// A word whose bits `low ..= high` are set and all others clear.
fn get_bit_range(low: u8, high: u8) -> (r: u64)
    requires
        low <= high,
        high <= 63,
    ensures
        forall|j: u64| j < 64 ==> (bit64(r, j) <==> low <= j && j <= high),
{
    let width: u64 = (high - low) as u64 + 1;
    proof {
        assert(width <= 63 ==> 1u64 << width >= 1) by (bit_vector);
    }
    let r: u64 = if low == 0 && high == 63 {
        u64::MAX
    } else {
        ((1u64 << width) - 1) << (low as u64)
    };
    proof {
        lemma_bit_range_bits(low as u64, high as u64, width, r);
    }
    r
}

proof fn lemma_bit_range_bits(lo: u64, hi: u64, wid: u64, r: u64)
    by (bit_vector)
    requires
        lo <= hi,
        hi <= 63,
        wid == hi - lo + 1,
        lo == 0 && hi == 63 ==> r == 0xFFFF_FFFF_FFFF_FFFFu64,
        !(lo == 0 && hi == 63) ==> r == (((1u64 << wid) - 1) as u64) << lo,
    ensures
        forall|j: u64| j < 64 ==> (((r >> j) & 1 == 1) <==> lo <= j && j <= hi),
{
}

/// Bits of a bitwise or.
proof fn lemma_or_bits(a: u64, b: u64)
    by (bit_vector)
    ensures
        forall|j: u64| j < 64 ==> (((a | b) >> j) & 1 == 1 <==> ((a >> j) & 1 == 1 || (b >> j) & 1
            == 1)),
{
}

/// Every bit of an all-ones word is set; no bit of a zero word is.
proof fn lemma_const_bits()
    by (bit_vector)
    ensures
        forall|j: u64| j < 64 ==> (0xFFFF_FFFF_FFFF_FFFFu64 >> j) & 1 == 1,
        forall|j: u64| j < 64 ==> (0u64 >> j) & 1 == 0,
{
}

/// How a bit-stream index splits into a word index and a bit offset.
pub(crate) proof fn lemma_word_of_idx(mi: int, j: int)
    by (nonlinear_arith)
    requires
        0 <= j < 64,
        0 <= mi,
    ensures
        (mi * 64 + j) / 64 == mi,
        (mi * 64 + j) % 64 == j,
{
}

/// The inverse direction: an index lies in the word `i / 64`.
pub(crate) proof fn lemma_idx_in_word(i: int)
    requires
        0 <= i,
    ensures
        i == (i / 64) * 64 + (i % 64),
        0 <= i % 64 < 64,
        0 <= i / 64,
{
    vstd::arithmetic::div_mod::lemma_fundamental_div_mod(i, 64);
}

/// Or-ing a bit range into one word sets exactly the stream bits
/// `mi * 64 + lo ..= mi * 64 + hi` and leaves every other bit alone.
proof fn lemma_mask_or_range(m1: Seq<u64>, m2: Seq<u64>, mi: int, lo: u64, hi: u64, range: u64)
    requires
        0 <= mi < m1.len(),
        m2 == m1.update(mi, m1[mi] | range),
        lo <= hi < 64,
        forall|j: u64| j < 64 ==> (bit64(range, j) <==> lo <= j && j <= hi),
    ensures
        forall|i: int|
            0 <= i < m2.len() * 64 ==> (mask_bit(m2, i) <==> (mask_bit(m1, i) || (mi * 64 + lo <= i
                <= mi * 64 + hi))),
{
    assert forall|i: int| 0 <= i < m2.len() * 64 implies (mask_bit(m2, i) <==> (mask_bit(m1, i) || (
    mi * 64 + lo <= i <= mi * 64 + hi))) by {
        lemma_idx_in_word(i);
        let wi = i / 64;
        let j = (i % 64) as u64;
        assert(i == wi * 64 + j);
        if wi == mi {
            assert(m2[wi] == m1[mi] | range);
            lemma_or_bits(m1[mi], range);
            assert(((m1[mi] | range) >> j) & 1 == 1 <==> ((m1[mi] >> j) & 1 == 1 || (range >> j) & 1
                == 1));
            assert(bit64(range, j) <==> lo <= j && j <= hi);
            assert((mi * 64 + lo <= i <= mi * 64 + hi) <==> (lo <= j && j <= hi));
        } else {
            assert(m2[wi] == m1[wi]);
            assert(!(mi * 64 + lo <= i <= mi * 64 + hi));
        }
    }
}

/// Setting one word to all ones sets exactly its 64 stream bits.
proof fn lemma_mask_set_full(m1: Seq<u64>, m2: Seq<u64>, mi: int)
    requires
        0 <= mi < m1.len(),
        m2 == m1.update(mi, 0xFFFF_FFFF_FFFF_FFFFu64),
    ensures
        forall|i: int|
            0 <= i < m2.len() * 64 ==> (mask_bit(m2, i) <==> (mask_bit(m1, i) || (mi * 64 <= i < mi
                * 64 + 64))),
{
    assert forall|i: int| 0 <= i < m2.len() * 64 implies (mask_bit(m2, i) <==> (mask_bit(m1, i) || (
    mi * 64 <= i < mi * 64 + 64))) by {
        lemma_idx_in_word(i);
        lemma_const_bits();
        if i / 64 == mi {
            assert(bit64(0xFFFF_FFFF_FFFF_FFFFu64, (i % 64) as u64));
        } else {
            assert(m2[i / 64] == m1[i / 64]);
        }
    }
}

/// Expands a run-length payload into the voxel buffer and the opaque bitset.
///
/// Both output buffers must be pre-zeroed by the caller; the decoder only
/// writes the positions the stream covers. The payload is rejected before
/// anything is written when it ends in a lone byte or when its runs describe
/// more than `CS_P3` cells.
pub fn decompress_to_voxels_and_opaque_mask(
    rle: &Vec<u8>,
    voxels: &mut Vec<u8>,
    opaque_mask: &mut Vec<u64>,
) -> (res: Result<(), RleError>)
    requires
        old(voxels).len() == CS_P3,
        old(opaque_mask).len() == CS_P2,
        forall|i: int| 0 <= i < CS_P3 ==> old(voxels)@[i] == 0u8,
        forall|w: int| 0 <= w < CS_P2 ==> old(opaque_mask)@[w] == 0u64,
    ensures
        final(voxels).len() == CS_P3,
        final(opaque_mask).len() == CS_P2,
        res is Ok <==> (rle@.len() % 2 == 0 && rle_decoded(rle@).len() <= CS_P3),
        res == Result::<(), RleError>::Err(RleError::OddLength) <==> rle@.len() % 2 != 0,
        res == Result::<(), RleError>::Err(RleError::Overflow) <==> (rle@.len() % 2 == 0
            && rle_decoded(rle@).len() > CS_P3),
        res is Err ==> final(voxels)@ == old(voxels)@ && final(opaque_mask)@ == old(opaque_mask)@,
        res is Ok ==> forall|i: int|
            0 <= i < CS_P3 ==> final(voxels)@[i] == decoded_cell(rle@, i),
        res is Ok ==> forall|i: int|
            0 <= i < CS_P3 ==> (mask_bit(final(opaque_mask)@, i) <==> decoded_cell(rle@, i) != 0),
{
    let n = rle.len();
    if n % 2 != 0 {
        return Err(RleError::OddLength);
    }
    // First pass: measure the decoded length, failing closed before any write.
    let mut total: usize = 0;
    let mut p: usize = 0;
    while p < n
        invariant
            n == rle@.len(),
            n % 2 == 0,
            p % 2 == 0,
            p <= n,
            total == rle_decoded(rle@.take(p as int)).len(),
            total <= CS_P3,
            voxels@ == old(voxels)@,
            opaque_mask@ == old(opaque_mask)@,
            voxels.len() == CS_P3,
            opaque_mask.len() == CS_P2,
        decreases n - p,
    {
        let len = rle[p + 1] as usize;
        proof {
            lemma_decoded_take_step(rle@, p as int);
        }
        if total + len > CS_P3 {
            proof {
                lemma_decoded_split(rle@, (p + 2) as int);
            }
            return Err(RleError::Overflow);
        }
        total = total + len;
        p = p + 2;
    }
    proof {
        assert(rle@.take(n as int) =~= rle@);
    }

    // Second pass: fill the voxel prefix and write the opaque bits through a
    // bit-stream cursor of word index and bit offset.
    let ghost whole = rle_decoded(rle@);
    proof {
        lemma_const_bits();
        assert forall|i: int| 0 <= i < CS_P3 implies !mask_bit(opaque_mask@, i) by {
            lemma_idx_in_word(i);
            assert(opaque_mask@[i / 64] == 0u64);
            assert((0u64 >> ((i % 64) as u64)) & 1 == 0);
        }
    }
    let mut u_i: usize = 0;
    let mut mask_index: usize = 0;
    let mut bit_off: usize = 0;
    p = 0;
    while p < n
        invariant
            n == rle@.len(),
            n % 2 == 0,
            p % 2 == 0,
            p <= n,
            whole == rle_decoded(rle@),
            whole.len() <= CS_P3,
            voxels.len() == CS_P3,
            opaque_mask.len() == CS_P2,
            u_i == rle_decoded(rle@.take(p as int)).len(),
            u_i <= whole.len(),
            rle_decoded(rle@.take(p as int)) == whole.take(u_i as int),
            mask_index * 64 + bit_off == u_i,
            bit_off < 64,
            forall|i: int| 0 <= i < u_i ==> voxels@[i] == whole[i],
            forall|i: int| u_i <= i < CS_P3 ==> voxels@[i] == 0u8,
            forall|i: int| 0 <= i < u_i ==> (mask_bit(opaque_mask@, i) <==> whole[i] != 0),
            forall|i: int| u_i <= i < CS_P3 ==> !mask_bit(opaque_mask@, i),
        decreases n - p,
    {
        let ty = rle[p];
        let len = rle[p + 1] as usize;
        p = p + 2;
        proof {
            lemma_decoded_take_step(rle@, (p - 2) as int);
            lemma_decoded_split(rle@, p as int);
            assert(rle_decoded(rle@.take(p as int)).len() == u_i + len);
            assert(u_i + len <= whole.len());
            assert(rle_decoded(rle@.take(p as int)) =~= whole.take((u_i + len) as int));
        }
        if len > 0 {
            let ghost u0 = u_i as int;
            assert(forall|i: int| u0 <= i < u0 + len ==> whole[i] == ty);

            // Fill the voxel cells of this run.
            let mut k: usize = 0;
            while k < len
                invariant
                    k <= len,
                    u_i + len <= CS_P3,
                    u0 == u_i as int,
                    u0 + len <= whole.len(),
                    voxels.len() == CS_P3,
                    whole == rle_decoded(rle@),
                    whole.len() <= CS_P3,
                    forall|i: int| 0 <= i < u0 ==> voxels@[i] == whole[i],
                    forall|i: int| u0 <= i < u0 + k ==> voxels@[i] == ty,
                    forall|i: int| u0 + k <= i < CS_P3 ==> voxels@[i] == 0u8,
                decreases len - k,
            {
                voxels.set(u_i + k, ty);
                k = k + 1;
            }

            // Write the opaque bits of this run through the bit cursor.
            let mut remaining: usize = len;
            while remaining > 0
                invariant
                    remaining <= len,
                    u_i + len <= CS_P3,
                    u0 == u_i as int,
                    u0 + len <= whole.len(),
                    whole.len() <= CS_P3,
                    opaque_mask.len() == CS_P2,
                    mask_index * 64 + bit_off == u0 + len - remaining,
                    bit_off < 64,
                    forall|i: int| 0 <= i < u0 ==> (mask_bit(opaque_mask@, i) <==> whole[i] != 0),
                    forall|i: int|
                        u0 <= i < u0 + len - remaining ==> (mask_bit(opaque_mask@, i) <==> ty
                            != 0),
                    forall|i: int|
                        u0 + len - remaining <= i < CS_P3 ==> !mask_bit(opaque_mask@, i),
                decreases remaining,
            {
                let ghost c = u0 + len - remaining;
                let ghost m1 = opaque_mask@;
                assert(mask_index < CS_P2);
                let rem_bits = 64 - bit_off;
                if remaining < rem_bits {
                    if ty != 0 {
                        let range = get_bit_range(
                            bit_off as u8,
                            (bit_off + remaining - 1) as u8,
                        );
                        let w = opaque_mask[mask_index];
                        opaque_mask.set(mask_index, w | range);
                        proof {
                            lemma_mask_or_range(
                                m1,
                                opaque_mask@,
                                mask_index as int,
                                bit_off as u64,
                                (bit_off + remaining - 1) as u64,
                                range,
                            );
                        }
                    }
                    bit_off = bit_off + remaining;
                    remaining = 0;
                } else if remaining >= 64 && bit_off == 0 {
                    let count = remaining / 64;
                    proof {
                        lemma_idx_in_word(remaining as int);
                    }
                    assert(count >= 1 && count * 64 <= remaining);
                    assert((mask_index + count) * 64 <= CS_P3);
                    if ty != 0 {
                        let mut j: usize = 0;
                        while j < count
                            invariant
                                ty != 0,
                                j <= count,
                                count >= 1,
                                bit_off == 0,
                                u0 == u_i as int,
                                u0 + len <= whole.len(),
                                whole.len() <= CS_P3,
                                c == u0 + len - remaining,
                                c == mask_index * 64,
                                opaque_mask.len() == CS_P2,
                                mask_index + count <= CS_P2,
                                count * 64 <= remaining,
                                remaining <= len,
                                u_i + len <= CS_P3,
                                forall|i: int|
                                    0 <= i < u0 ==> (mask_bit(opaque_mask@, i) <==> whole[i]
                                        != 0),
                                forall|i: int|
                                    u0 <= i < c + j * 64 ==> (mask_bit(opaque_mask@, i) <==> ty
                                        != 0),
                                forall|i: int| c + j * 64 <= i < CS_P3 ==> !mask_bit(
                                    opaque_mask@,
                                    i,
                                ),
                            decreases count - j,
                        {
                            let ghost mj = opaque_mask@;
                            opaque_mask.set(mask_index + j, u64::MAX);
                            proof {
                                lemma_mask_set_full(mj, opaque_mask@, (mask_index + j) as int);
                                assert((mask_index + j) * 64 == c + j * 64);
                                assert((mask_index + j) * 64 + 64 == c + (j + 1) * 64);
                            }
                            j = j + 1;
                        }
                    }
                    mask_index = mask_index + count;
                    remaining = remaining - count * 64;
                } else {
                    if ty != 0 {
                        let range = get_bit_range(bit_off as u8, 63);
                        let w = opaque_mask[mask_index];
                        opaque_mask.set(mask_index, w | range);
                        proof {
                            lemma_mask_or_range(
                                m1,
                                opaque_mask@,
                                mask_index as int,
                                bit_off as u64,
                                63u64,
                                range,
                            );
                        }
                    }
                    remaining = remaining - rem_bits;
                    mask_index = mask_index + 1;
                    bit_off = 0;
                }
            }
            u_i = u_i + len;
        } else {
            proof {
                assert(rle_decoded(rle@.take(p as int)) =~= whole.take(u_i as int));
            }
        }
    }
    proof {
        assert(rle@.take(n as int) =~= rle@);
    }
    Ok(())
}

/// The volume's length once the trailing run of empty cells is trimmed:
/// the index just past the last non-empty cell.
pub open spec fn trimmed_len(v: Seq<u8>) -> nat
    decreases v.len(),
{
    if v.len() == 0 {
        0
    } else if v[v.len() - 1] == 0 {
        trimmed_len(v.drop_last())
    } else {
        v.len()
    }
}

/// Everything at or past the trimmed length is an empty cell, and the cell
/// just before it is non-empty.
pub proof fn lemma_trimmed_zeros(v: Seq<u8>)
    ensures
        trimmed_len(v) <= v.len(),
        forall|i: int| trimmed_len(v) <= i < v.len() ==> v[i] == 0,
        trimmed_len(v) > 0 ==> v[trimmed_len(v) - 1] != 0,
    decreases v.len(),
{
    if v.len() > 0 && v[v.len() - 1] == 0 {
        lemma_trimmed_zeros(v.drop_last());
        assert(forall|i: int| 0 <= i < v.len() - 1 ==> v[i] == v.drop_last()[i]);
    }
}

/// A canonically encoded stream: whole pairs, no empty run, adjacent pairs
/// of one material only where the first run is full, and no trailing
/// all-empty run.
pub open spec fn rle_canonical(out: Seq<u8>) -> bool {
    &&& out.len() % 2 == 0
    &&& (forall|k: int| 0 <= k < out.len() && k % 2 == 1 ==> out[k] >= 1)
    &&& (forall|k: int|
        #![trigger out[k], out[k + 2]]
        0 <= k && k + 3 < out.len() && k % 2 == 0 ==> (out[k] != out[k + 2] || out[k + 1] == 255))
    &&& (out.len() >= 2 ==> out[out.len() - 2] != 0)
}

/// Encodes a voxel volume as `(material, run_length)` pairs with maximal runs
/// of at most 255 cells, omitting the trailing all-empty run. The result is
/// the canonical encoding: it decodes back to the volume and emits minimal
/// runs.
pub fn rle_encode_sparse_trailing_zeros(voxels: &Vec<u8>) -> (out: Vec<u8>)
    requires
        voxels.len() == CS_P3,
    ensures
        out@.len() % 2 == 0,
        rle_decoded(out@).len() == trimmed_len(voxels@),
        forall|i: int| 0 <= i < CS_P3 ==> decoded_cell(out@, i) == voxels@[i],
        rle_canonical(out@),
{
    // Find the index just past the last non-empty cell.
    let mut end: usize = voxels.len();
    proof {
        assert(voxels@.take(end as int) =~= voxels@);
    }
    while end > 0 && voxels[end - 1] == 0
        invariant
            end <= CS_P3,
            voxels.len() == CS_P3,
            trimmed_len(voxels@) == trimmed_len(voxels@.take(end as int)),
        decreases end,
    {
        proof {
            assert(voxels@.take(end as int).drop_last() =~= voxels@.take(end - 1));
        }
        end = end - 1;
    }
    proof {
        if end == 0 {
            assert(voxels@.take(0) =~= Seq::<u8>::empty());
        }
        assert(end == trimmed_len(voxels@));
        lemma_trimmed_zeros(voxels@);
    }

    let mut out: Vec<u8> = Vec::new();
    let mut i: usize = 0;
    proof {
        assert(rle_decoded(out@) =~= voxels@.take(0));
    }
    while i < end
        invariant
            i <= end,
            end <= CS_P3,
            voxels.len() == CS_P3,
            end == trimmed_len(voxels@),
            out@.len() % 2 == 0,
            rle_decoded(out@) == voxels@.take(i as int),
            forall|k: int| 0 <= k < out@.len() && k % 2 == 1 ==> out@[k] >= 1,
            forall|k: int|
                #![trigger out@[k], out@[k + 2]]
                0 <= k && k + 3 < out@.len() && k % 2 == 0 ==> (out@[k] != out@[k + 2] || out@[k
                    + 1] == 255),
            i < end && out@.len() >= 2 ==> (out@[out@.len() - 2] != voxels@[i as int] || out@[
                out@.len() - 1
            ] == 255),
            i >= end && out@.len() >= 2 ==> out@[out@.len() - 2] != 0,
        decreases end - i,
    {
        let ty = voxels[i];
        let mut run: usize = 1;
        while i + run < end && run < 255 && voxels[i + run] == ty
            invariant
                1 <= run <= 255,
                i + run <= end,
                end <= CS_P3,
                voxels.len() == CS_P3,
                ty == voxels@[i as int],
                forall|k: int| i <= k < i + run ==> voxels@[k] == ty,
            decreases end - (i + run),
        {
            run = run + 1;
        }
        proof {
            lemma_decoded_push_pair(out@, ty, run as u8);
        }
        let ghost pre = out@;
        out.push(ty);
        out.push(run as u8);
        proof {
            assert(rle_decoded(out@) =~= voxels@.take((i + run) as int));
            // The new pair keeps the stream canonical: it only follows a
            // pair of another material or a full run, and if it ends the
            // stream its material is the last non-empty cell's.
            assert(out@[out@.len() - 2] == ty && out@[out@.len() - 1] == run as u8);
            assert(forall|k: int| 0 <= k < pre.len() ==> out@[k] == pre[k]);
            if i + run >= end {
                lemma_trimmed_zeros(voxels@);
                assert(voxels@[end - 1] == ty);
            }
        }
        i = i + run;
    }
    proof {
        assert(forall|k: int| 0 <= k < end ==> voxels@.take(end as int)[k] == voxels@[k]);
    }
    out
}

/// Round trip: a voxel volume decoded back from its own run-length encoding
/// is reproduced exactly, cell for cell.
///
/// `enc` is what the encoder guarantees about its output and `redecoded` is
/// what the decoder guarantees about a pre-zeroed buffer filled from `enc`.
pub proof fn lemma_rle_round_trip(v: Seq<u8>, enc: Seq<u8>, redecoded: Seq<u8>)
    requires
        v.len() == CS_P3,
        redecoded.len() == CS_P3,
        forall|i: int| 0 <= i < CS_P3 ==> decoded_cell(enc, i) == v[i],
        forall|i: int| 0 <= i < CS_P3 ==> redecoded[i] == decoded_cell(enc, i),
    ensures
        redecoded == v,
{
    assert(redecoded =~= v);
}

/// Empty chunk: an opaque bitset that marks exactly the non-empty cells of an
/// all-empty volume — as decoding one produces — is zero in every word, the
/// premise under which `mesh` emits no quad on any face.
pub proof fn lemma_empty_chunk(v: Seq<u8>, m: Seq<u64>)
    requires
        v.len() == CS_P3,
        m.len() == CS_P2,
        forall|i: int| 0 <= i < CS_P3 ==> (mask_bit(m, i) <==> v[i] != 0),
        forall|i: int| 0 <= i < CS_P3 ==> v[i] == 0,
    ensures
        forall|w: int| 0 <= w < CS_P2 ==> m[w] == 0u64,
{
    assert forall|w: int| 0 <= w < CS_P2 implies m[w] == 0u64 by {
        assert forall|j: u64| j < 64 implies !((m[w] >> j) & 1 == 1) by {
            lemma_word_of_idx(w, j as int);
            assert(!mask_bit(m, w * 64 + j));
        }
        if m[w] != 0u64 {
            let tz = vstd::std_specs::bits::u64_trailing_zeros(m[w]);
            vstd::std_specs::bits::axiom_u64_trailing_zeros(m[w]);
            assert((m[w] >> (tz as u64)) & 1 == 1);
            assert(false);
        }
    }
}

/// Whether the linear cell index `i` lies in the chunk interior, with no
/// halo coordinate on any axis.
pub open spec fn is_interior(i: int) -> bool {
    &&& 1 <= i % 64 <= 62
    &&& 1 <= (i / 64) % 64 <= 62
    &&& 1 <= i / 4096 <= 62
}

/// Number of interior cells among `0 .. n` whose voxel is non-empty.
pub open spec fn count_opaque_interior(v: Seq<u8>, n: int) -> int
    decreases n,
{
    if n <= 0 {
        0
    } else {
        count_opaque_interior(v, n - 1) + if is_interior(n - 1) && v[n - 1] != 0 {
            1int
        } else {
            0int
        }
    }
}

/// Number of interior cells among `0 .. n` whose opaque bit is set: the
/// bitset's popcount restricted to the non-halo range.
pub open spec fn count_mask_interior(m: Seq<u64>, n: int) -> int
    decreases n,
{
    if n <= 0 {
        0
    } else {
        count_mask_interior(m, n - 1) + if is_interior(n - 1) && mask_bit(m, n - 1) {
            1int
        } else {
            0int
        }
    }
}

/// Bitset/voxel consistency: when bit `i` of the opaque bitset marks exactly
/// the non-empty cells, the bitset's popcount over the non-halo range equals
/// the number of non-empty interior voxels.
pub proof fn lemma_bitset_voxel_consistency(v: Seq<u8>, m: Seq<u64>, n: int)
    requires
        v.len() == CS_P3,
        m.len() == CS_P2,
        0 <= n <= CS_P3,
        forall|i: int| 0 <= i < CS_P3 ==> (mask_bit(m, i) <==> v[i] != 0),
    ensures
        count_mask_interior(m, n) == count_opaque_interior(v, n),
    decreases n,
{
    if n > 0 {
        lemma_bitset_voxel_consistency(v, m, n - 1);
    }
}

} // verus!
