//! Deterministic helpers for producing level files: the integer hash chain
//! the terrain generator draws from, and the assembly of a level buffer out
//! of per-chunk run-length payloads.

use vstd::prelude::*;

use crate::data::level_file::entry_begin_at;
use crate::data::level_file::entry_key_at;
use crate::data::level_file::entry_size_at;
use crate::data::level_file::le32_at;
use crate::xyz_key;

verus! {

/// The splitmix64 finalizer: one wrapping-arithmetic mixing round.
pub open spec fn spec_splitmix64(x: u64) -> u64 {
    let a = vstd::wrapping::u64_specs::wrapping_add(x, 0x9E3779B97F4A7C15);
    let b = vstd::wrapping::u64_specs::wrapping_mul(a ^ (a >> 30u64), 0xBF58476D1CE4E5B9);
    let c = vstd::wrapping::u64_specs::wrapping_mul(b ^ (b >> 27u64), 0x94D049BB133111EB);
    c ^ (c >> 31u64)
}

/// Mixes a 64-bit value through the splitmix64 finalizer.
pub fn splitmix64(x: u64) -> (r: u64)
    ensures
        r == spec_splitmix64(x),
{
    let a = x.wrapping_add(0x9E3779B97F4A7C15);
    let mut z = a;
    z = (z ^ (z >> 30u64)).wrapping_mul(0xBF58476D1CE4E5B9);
    z = (z ^ (z >> 27u64)).wrapping_mul(0x94D049BB133111EB);
    z ^ (z >> 31u64)
}

/// The seeded 2-coordinate hash behind the terrain noise lattice.
pub open spec fn spec_hash2(seed: u64, x: i32, y: i32) -> u64 {
    let v1 = seed ^ vstd::wrapping::u64_specs::wrapping_mul(
        ((x as u32) as u64),
        0xA24BAED4963EE407,
    );
    let v2 = v1 ^ vstd::wrapping::u64_specs::wrapping_mul(
        ((y as u32) as u64),
        0x9FB21C651E98DF25,
    );
    spec_splitmix64(v2)
}

/// Hashes a lattice coordinate pair under a seed.
pub fn hash2(seed: u64, x: i32, y: i32) -> (r: u64)
    ensures
        r == spec_hash2(seed, x, y),
{
    let mut v = seed;
    v = v ^ ((#[verifier::truncate] (x as u32)) as u64).wrapping_mul(0xA24BAED4963EE407);
    v = v ^ ((#[verifier::truncate] (y as u32)) as u64).wrapping_mul(0x9FB21C651E98DF25);
    splitmix64(v)
}

/// Total byte count of a list of run-length payloads.
pub open spec fn total_rle_len(rles: Seq<Seq<u8>>) -> int
    decreases rles.len(),
{
    if rles.len() == 0 {
        0
    } else {
        total_rle_len(rles.drop_last()) + rles.last().len()
    }
}

/// Where chunk `i`'s payload begins in a level buffer built from `rles`.
pub open spec fn data_begin_of(rles: Seq<Seq<u8>>, i: int) -> int {
    1 + rles.len() * 12 + total_rle_len(rles.take(i))
}

/// A payload laid down at byte offset `begin` of a buffer.
pub open spec fn chunk_data_at(b: Seq<u8>, begin: int, rle: Seq<u8>) -> bool {
    forall|j: int| 0 <= j < rle.len() ==> b[begin + j] == rle[j]
}

/// One more payload adds its length to the running total.
proof fn lemma_total_take_step(rles: Seq<Seq<u8>>, i: int)
    requires
        0 <= i < rles.len(),
    ensures
        total_rle_len(rles.take(i + 1)) == total_rle_len(rles.take(i)) + rles[i].len(),
{
    assert(rles.take(i + 1).drop_last() =~= rles.take(i));
    assert(rles.take(i + 1).last() == rles[i]);
}

/// Payload totals are never negative.
proof fn lemma_total_nonneg(rles: Seq<Seq<u8>>)
    ensures
        total_rle_len(rles) >= 0,
    decreases rles.len(),
{
    if rles.len() > 0 {
        lemma_total_nonneg(rles.drop_last());
    }
}

/// A longer prefix of payloads never totals fewer bytes.
proof fn lemma_total_mono(rles: Seq<Seq<u8>>, i: int, j: int)
    requires
        0 <= i <= j <= rles.len(),
    ensures
        total_rle_len(rles.take(i)) <= total_rle_len(rles.take(j)),
    decreases j - i,
{
    if i < j {
        lemma_total_take_step(rles, j - 1);
        lemma_total_mono(rles, i, j - 1);
    }
}

/// The deep view of a payload list indexes to each payload's own view.
proof fn lemma_deep_elem(v: &Vec<Vec<u8>>, i: int)
    requires
        0 <= i < v@.len(),
    ensures
        v.deep_view()[i] == v@[i]@,
{
    assert(v.deep_view()[i] =~= v@[i]@);
}

/// Appends the four little-endian bytes of `v`.
fn push_le_u32(bytes: &mut Vec<u8>, v: u32)
    ensures
        final(bytes)@.len() == old(bytes)@.len() + 4,
        forall|i: int| 0 <= i < old(bytes)@.len() ==> final(bytes)@[i] == old(bytes)@[i],
        le32_at(final(bytes)@, old(bytes)@.len() as int) == v,
{
    proof {
        assert((v & 0xFF) < 0x100 && ((v >> 8) & 0xFF) < 0x100 && ((v >> 16) & 0xFF) < 0x100 && ((v
            >> 24) & 0xFF) < 0x100 && v == (v & 0xFF) + ((v >> 8) & 0xFF) * 0x100 + ((v >> 16)
            & 0xFF) * 0x10000 + ((v >> 24) & 0xFF) * 0x1000000) by (bit_vector);
    }
    bytes.push((v & 0xFF) as u8);
    bytes.push(((v >> 8) & 0xFF) as u8);
    bytes.push(((v >> 16) & 0xFF) as u8);
    bytes.push(((v >> 24) & 0xFF) as u8);
}

/// Assembles a level buffer out of per-chunk run-length payloads, laid out as
/// the level-file format asks: the side count byte, then one 12-byte table
/// entry per chunk keyed by its `(x, 0, z)` position in row-major order, then
/// every payload at the offset its entry declares.
pub fn build_level_bytes(chunk_rles: &Vec<Vec<u8>>, chunks_per_side: u8) -> (bytes: Vec<u8>)
    requires
        chunk_rles@.len() == (chunks_per_side as int) * (chunks_per_side as int),
        1 + chunk_rles@.len() * 12 + total_rle_len(chunk_rles.deep_view()) < 0x1_0000_0000,
    ensures
        bytes@.len() == 1 + chunk_rles@.len() * 12 + total_rle_len(chunk_rles.deep_view()),
        bytes@[0] == chunks_per_side,
        forall|i: int|
            0 <= i < chunk_rles@.len() ==> #[trigger] entry_key_at(bytes@, i) == xyz_key(
                (i % (chunks_per_side as int)) as u8,
                0,
                (i / (chunks_per_side as int)) as u8,
            ),
        forall|i: int|
            0 <= i < chunk_rles@.len() ==> #[trigger] entry_begin_at(bytes@, i) == data_begin_of(
                chunk_rles.deep_view(),
                i,
            ),
        forall|i: int|
            0 <= i < chunk_rles@.len() ==> #[trigger] entry_size_at(bytes@, i)
                == chunk_rles@[i]@.len(),
        forall|i: int|
            0 <= i < chunk_rles@.len() ==> #[trigger] chunk_data_at(
                bytes@,
                data_begin_of(chunk_rles.deep_view(), i),
                chunk_rles@[i]@,
            ),
{
    let ghost deep = chunk_rles.deep_view();
    let size = chunks_per_side as usize;
    let table_len = chunk_rles.len();
    let mut bytes: Vec<u8> = Vec::new();
    bytes.push(chunks_per_side);

    // First the chunk table: key, payload offset, payload length per chunk.
    proof {
        lemma_total_nonneg(deep);
        assert(deep.take(0) =~= Seq::<Seq<u8>>::empty());
    }
    let mut data_off: usize = 1 + table_len * 12;
    let mut i: usize = 0;
    while i < table_len
        invariant
            table_len == chunk_rles@.len(),
            deep == chunk_rles.deep_view(),
            deep.len() == table_len,
            size == chunks_per_side as int,
            table_len == size * size,
            i <= table_len,
            1 + table_len * 12 + total_rle_len(deep) < 0x1_0000_0000,
            data_off == data_begin_of(deep, i as int),
            bytes@.len() == 1 + i * 12,
            bytes@[0] == chunks_per_side,
            forall|k: int|
                0 <= k < i ==> #[trigger] entry_key_at(bytes@, k) == xyz_key(
                    (k % (chunks_per_side as int)) as u8,
                    0,
                    (k / (chunks_per_side as int)) as u8,
                ),
            forall|k: int|
                0 <= k < i ==> #[trigger] entry_begin_at(bytes@, k) == data_begin_of(deep, k),
            forall|k: int|
                0 <= k < i ==> #[trigger] entry_size_at(bytes@, k) == chunk_rles@[k]@.len(),
        decreases table_len - i,
    {
        proof {
            lemma_total_nonneg(deep.take(i as int));
            lemma_total_take_step(deep, i as int);
            lemma_total_mono(deep, i as int + 1, deep.len() as int);
            assert(deep.take(deep.len() as int) =~= deep);
        }
        let cx = i % size;
        let cz = i / size;
        proof {
            vstd::arithmetic::div_mod::lemma_fundamental_div_mod(i as int, size as int);
            assert(cx < size && cz < size) by (nonlinear_arith)
                requires
                    cx == i as int % (size as int),
                    cz == i as int / (size as int),
                    size > 0,
                    i < size * size,
            ;
        }
        let key = crate::get_xyz_key(cx as u8, 0, cz as u8);
        let ghost b0 = bytes@;
        push_le_u32(&mut bytes, key);
        push_le_u32(&mut bytes, data_off as u32);
        let rle_len = chunk_rles[i].len();
        proof {
            lemma_deep_elem(chunk_rles, i as int);
        }
        push_le_u32(&mut bytes, rle_len as u32);
        proof {
            let iv = i as int;
            assert forall|k: int|
                0 <= k < iv + 1 implies #[trigger] entry_key_at(bytes@, k) == xyz_key(
                (k % (chunks_per_side as int)) as u8,
                0,
                (k / (chunks_per_side as int)) as u8,
            ) by {
                if k < iv {
                    assert(entry_key_at(b0, k) == xyz_key(
                        (k % (chunks_per_side as int)) as u8,
                        0,
                        (k / (chunks_per_side as int)) as u8,
                    ));
                    assert(entry_key_at(bytes@, k) == entry_key_at(b0, k));
                } else {
                    assert(entry_key_at(bytes@, iv) == key);
                }
            }
            assert forall|k: int|
                0 <= k < iv + 1 implies #[trigger] entry_begin_at(bytes@, k) == data_begin_of(
                deep,
                k,
            ) by {
                if k < iv {
                    assert(entry_begin_at(b0, k) == data_begin_of(deep, k));
                    assert(entry_begin_at(bytes@, k) == entry_begin_at(b0, k));
                } else {
                    assert(entry_begin_at(bytes@, iv) == data_off as u32);
                }
            }
            assert forall|k: int|
                0 <= k < iv + 1 implies #[trigger] entry_size_at(bytes@, k)
                == chunk_rles@[k]@.len() by {
                if k < iv {
                    assert(entry_size_at(b0, k) == chunk_rles@[k]@.len());
                    assert(entry_size_at(bytes@, k) == entry_size_at(b0, k));
                } else {
                    assert(rle_len == deep[iv].len());
                    assert(rle_len <= total_rle_len(deep));
                    assert(entry_size_at(bytes@, iv) == rle_len as u32);
                }
            }
        }
        data_off = data_off + rle_len;
        i = i + 1;
    }

    // Then every payload, in table order.
    let mut c: usize = 0;
    proof {
        assert(deep.take(0) =~= Seq::<Seq<u8>>::empty());
    }
    while c < table_len
        invariant
            table_len == chunk_rles@.len(),
            deep == chunk_rles.deep_view(),
            deep.len() == table_len,
            c <= table_len,
            1 + table_len * 12 + total_rle_len(deep) < 0x1_0000_0000,
            bytes@.len() == data_begin_of(deep, c as int),
            bytes@[0] == chunks_per_side,
            forall|k: int|
                0 <= k < table_len ==> #[trigger] entry_key_at(bytes@, k) == xyz_key(
                    (k % (chunks_per_side as int)) as u8,
                    0,
                    (k / (chunks_per_side as int)) as u8,
                ),
            forall|k: int|
                0 <= k < table_len ==> #[trigger] entry_begin_at(bytes@, k) == data_begin_of(
                    deep,
                    k,
                ),
            forall|k: int|
                0 <= k < table_len ==> #[trigger] entry_size_at(bytes@, k)
                    == chunk_rles@[k]@.len(),
            forall|k: int|
                0 <= k < c ==> #[trigger] chunk_data_at(bytes@, data_begin_of(deep, k), deep[k]),
        decreases table_len - c,
    {
        proof {
            lemma_total_nonneg(deep.take(c as int));
            lemma_total_take_step(deep, c as int);
            lemma_total_mono(deep, c as int + 1, deep.len() as int);
            assert(deep.take(deep.len() as int) =~= deep);
        }
        let ghost pre = bytes@;
        proof {
            lemma_deep_elem(chunk_rles, c as int);
        }
        let rle_len = chunk_rles[c].len();
        let mut j: usize = 0;
        while j < rle_len
            invariant
                c < table_len,
                table_len == chunk_rles@.len(),
                deep == chunk_rles.deep_view(),
                deep.len() == table_len,
                rle_len == deep[c as int].len(),
                j <= rle_len,
                bytes@.len() == pre.len() + j,
                pre.len() + rle_len < 0x1_0000_0000,
                forall|t: int| 0 <= t < pre.len() ==> bytes@[t] == pre[t],
                forall|t: int| 0 <= t < j ==> bytes@[pre.len() + t] == deep[c as int][t],
            decreases rle_len - j,
        {
            let byte = chunk_rles[c][j];
            proof {
                lemma_deep_elem(chunk_rles, c as int);
            }
            bytes.push(byte);
            j = j + 1;
        }
        proof {
            assert forall|k: int|
                0 <= k < c + 1 implies #[trigger] chunk_data_at(
                bytes@,
                data_begin_of(deep, k),
                deep[k],
            ) by {
                if k < c {
                    assert(chunk_data_at(pre, data_begin_of(deep, k), deep[k]));
                    lemma_total_mono(deep, k + 1, c as int);
                    lemma_total_take_step(deep, k);
                    lemma_total_nonneg(deep.take(k));
                }
            }
            assert forall|k: int|
                0 <= k < table_len implies #[trigger] entry_key_at(bytes@, k) == xyz_key(
                (k % (chunks_per_side as int)) as u8,
                0,
                (k / (chunks_per_side as int)) as u8,
            ) by {
                assert(entry_key_at(pre, k) == xyz_key(
                    (k % (chunks_per_side as int)) as u8,
                    0,
                    (k / (chunks_per_side as int)) as u8,
                ));
                assert(entry_key_at(pre, k) == entry_key_at(bytes@, k));
            }
            assert forall|k: int|
                0 <= k < table_len implies #[trigger] entry_begin_at(bytes@, k) == data_begin_of(
                deep,
                k,
            ) by {
                assert(entry_begin_at(pre, k) == data_begin_of(deep, k));
                assert(entry_begin_at(pre, k) == entry_begin_at(bytes@, k));
            }
            assert forall|k: int|
                0 <= k < table_len implies #[trigger] entry_size_at(bytes@, k)
                == chunk_rles@[k]@.len() by {
                assert(entry_size_at(pre, k) == chunk_rles@[k]@.len());
                assert(entry_size_at(pre, k) == entry_size_at(bytes@, k));
            }
        }
        c = c + 1;
    }
    proof {
        assert(deep.take(table_len as int) =~= deep);
        assert forall|i: int|
            0 <= i < chunk_rles@.len() implies #[trigger] chunk_data_at(
            bytes@,
            data_begin_of(chunk_rles.deep_view(), i),
            chunk_rles@[i]@,
        ) by {
            lemma_deep_elem(chunk_rles, i);
            assert(chunk_data_at(bytes@, data_begin_of(deep, i), deep[i]));
        }
    }
    bytes
}

} // verus!
