//! The level-file container: a one-byte side length, a table of
//! `chunks_per_side^2` chunk entries of 12 little-endian bytes each
//! (`key, rle_begin, rle_len`), and the concatenated run-length payloads the
//! entries point into.

use vstd::prelude::*;

verus! {

/// One chunk-table record: the packed chunk key and the byte range of the
/// chunk's run-length payload inside the level buffer.
#[derive(Clone, Copy, Debug, PartialEq, Eq, Structural)]
pub struct ChunkTableEntry {
    pub key: u32,
    pub rle_data_begin: u32,
    pub rle_data_size: u32,
}

/// Why a level buffer was rejected.
#[derive(Clone, Copy, Debug, PartialEq, Eq, Structural)]
pub enum LevelError {
    /// The buffer holds no bytes at all.
    EmptyFile,
    /// The buffer ends before the chunk table does.
    TruncatedTable,
    /// Some table entry's payload range runs past the end of the buffer.
    ChunkDataOutOfBounds,
}

/// The 32-bit little-endian integer stored at byte offset `off`.
pub open spec fn le32_at(b: Seq<u8>, off: int) -> u32 {
    (b[off] + b[off + 1] * 0x100 + b[off + 2] * 0x10000 + b[off + 3] * 0x1000000) as u32
}

/// How many chunk-table entries the buffer's first byte announces.
pub open spec fn table_len_of(b: Seq<u8>) -> int {
    (b[0] as int) * (b[0] as int)
}

/// The key field of table entry `i`.
pub open spec fn entry_key_at(b: Seq<u8>, i: int) -> u32 {
    le32_at(b, 1 + i * 12)
}

/// The payload-offset field of table entry `i`.
pub open spec fn entry_begin_at(b: Seq<u8>, i: int) -> u32 {
    le32_at(b, 5 + i * 12)
}

/// The payload-length field of table entry `i`.
pub open spec fn entry_size_at(b: Seq<u8>, i: int) -> u32 {
    le32_at(b, 9 + i * 12)
}

/// Whether table entry `i` points at a payload range inside the buffer.
pub open spec fn entry_in_bounds(b: Seq<u8>, i: int) -> bool {
    le32_at(b, 5 + i * 12) + le32_at(b, 9 + i * 12) <= b.len()
}

/// Whether the buffer is long enough to hold its own chunk table.
pub open spec fn table_fits(b: Seq<u8>) -> bool {
    b.len() >= 1 + table_len_of(b) * 12
}

/// A loaded level file: the chunk table decoded from the header and the raw
/// buffer the entries point into.
#[derive(Debug)]
pub struct LevelFile {
    pub chunk_table: Vec<ChunkTableEntry>,
    pub buffer: Vec<u8>,
    pub size: u8,
}

/// Reads the 32-bit little-endian integer at byte offset `off`.
fn read_le_u32(b: &Vec<u8>, off: usize) -> (r: u32)
    requires
        off + 4 <= b.len(),
    ensures
        r == le32_at(b@, off as int),
{
    let r = (b[off] as u32) | ((b[off + 1] as u32) << 8) | ((b[off + 2] as u32) << 16) | ((b[off
        + 3] as u32) << 24);
    proof {
        let x0 = b@[off as int] as u32;
        let x1 = b@[off as int + 1] as u32;
        let x2 = b@[off as int + 2] as u32;
        let x3 = b@[off as int + 3] as u32;
        assert(x0 < 0x100 && x1 < 0x100 && x2 < 0x100 && x3 < 0x100 ==> (x0 | (x1 << 8) | (x2
            << 16) | (x3 << 24)) == x0 + x1 * 0x100 + x2 * 0x10000 + x3 * 0x1000000)
            by (bit_vector);
    }
    r
}

impl Default for LevelFile {
    /// An empty level: no chunks, no buffer.
    fn default() -> (l: LevelFile)
        ensures
            l.chunk_table.len() == 0,
            l.buffer.len() == 0,
            l.size == 0,
    {
        LevelFile { chunk_table: Vec::new(), buffer: Vec::new(), size: 0 }
    }
}

impl LevelFile {
    /// Every table entry's payload range lies inside the buffer.
    pub open spec fn wf(self) -> bool {
        forall|i: int|
            0 <= i < self.chunk_table.len()
                ==> (#[trigger] self.chunk_table@[i]).rle_data_begin
                + self.chunk_table@[i].rle_data_size <= self.buffer.len()
    }

    pub fn size(&self) -> (s: u8)
        ensures
            s == self.size,
    {
        self.size
    }

    /// Decodes a level buffer: reads the side count, rejects a truncated
    /// table or an entry whose payload range leaves the buffer, and keeps the
    /// decoded table together with the buffer. A rejected buffer leaves the
    /// level untouched.
    pub fn load_from_bytes(&mut self, bytes: Vec<u8>) -> (res: Result<(), LevelError>)
        ensures
            res is Ok <==> (bytes@.len() >= 1 && table_fits(bytes@) && (forall|i: int|
                0 <= i < table_len_of(bytes@) ==> entry_in_bounds(bytes@, i))),
            res == Result::<(), LevelError>::Err(LevelError::EmptyFile) <==> bytes@.len() == 0,
            res == Result::<(), LevelError>::Err(LevelError::TruncatedTable) <==> (bytes@.len() >= 1
                && !table_fits(bytes@)),
            res == Result::<(), LevelError>::Err(LevelError::ChunkDataOutOfBounds) <==> (
            bytes@.len() >= 1 && table_fits(bytes@) && (exists|i: int|
                0 <= i < table_len_of(bytes@) && !entry_in_bounds(bytes@, i))),
            res is Err ==> {
                &&& final(self).chunk_table@ == old(self).chunk_table@
                &&& final(self).buffer@ == old(self).buffer@
                &&& final(self).size == old(self).size
            },
            res is Ok ==> {
                &&& final(self).buffer@ == bytes@
                &&& final(self).size == bytes@[0]
                &&& final(self).chunk_table.len() == table_len_of(bytes@)
                &&& (forall|i: int|
                    0 <= i < table_len_of(bytes@) ==> {
                        &&& (#[trigger] final(self).chunk_table@[i]).key == le32_at(
                            bytes@,
                            1 + i * 12,
                        )
                        &&& final(self).chunk_table@[i].rle_data_begin == le32_at(
                            bytes@,
                            5 + i * 12,
                        )
                        &&& final(self).chunk_table@[i].rle_data_size == le32_at(
                            bytes@,
                            9 + i * 12,
                        )
                    })
                &&& final(self).wf()
            },
    {
        if bytes.len() == 0 {
            return Err(LevelError::EmptyFile);
        }
        let size = bytes[0];
        let s = size as usize;
        proof {
            assert(s <= 255 ==> s * s <= 65025) by (nonlinear_arith);
        }
        let table_len: usize = s * s;
        let table_bytes: usize = table_len * 12;
        if bytes.len() < 1 + table_bytes {
            return Err(LevelError::TruncatedTable);
        }

        let mut table: Vec<ChunkTableEntry> = Vec::new();
        let mut i: usize = 0;
        while i < table_len
            invariant
                i <= table_len,
                table_len == table_len_of(bytes@),
                table_bytes == table_len * 12,
                bytes@.len() >= 1 + table_bytes,
                table.len() == i,
                forall|k: int|
                    0 <= k < i ==> {
                        &&& (#[trigger] table@[k]).key == le32_at(bytes@, 1 + k * 12)
                        &&& table@[k].rle_data_begin == le32_at(bytes@, 5 + k * 12)
                        &&& table@[k].rle_data_size == le32_at(bytes@, 9 + k * 12)
                        &&& entry_in_bounds(bytes@, k)
                    },
            decreases table_len - i,
        {
            let base = 1 + i * 12;
            let key = read_le_u32(&bytes, base);
            let rle_data_begin = read_le_u32(&bytes, base + 4);
            let rle_data_size = read_le_u32(&bytes, base + 8);
            if rle_data_begin as u64 + rle_data_size as u64 > bytes.len() as u64 {
                proof {
                    assert((i as int) < table_len_of(bytes@) && !entry_in_bounds(
                        bytes@,
                        i as int,
                    ));
                }
                return Err(LevelError::ChunkDataOutOfBounds);
            }
            table.push(ChunkTableEntry { key, rle_data_begin, rle_data_size });
            i = i + 1;
        }

        proof {
            assert forall|k: int| 0 <= k < table_len_of(bytes@) implies entry_in_bounds(
                bytes@,
                k,
            ) by {
                assert(table@[k].key == le32_at(bytes@, 1 + k * 12));
            }
        }
        self.size = size;
        self.chunk_table = table;
        self.buffer = bytes;
        Ok(())
    }

    /// Copies out the run-length payload of chunk `i`, as the byte range its
    /// table entry declares.
    pub fn chunk_rle_bytes(&self, i: usize) -> (r: Vec<u8>)
        requires
            self.wf(),
            i < self.chunk_table.len(),
        ensures
            r@ == self.buffer@.subrange(
                self.chunk_table@[i as int].rle_data_begin as int,
                self.chunk_table@[i as int].rle_data_begin as int
                    + self.chunk_table@[i as int].rle_data_size as int,
            ),
    {
        let entry = self.chunk_table[i];
        let begin = entry.rle_data_begin as usize;
        let len = entry.rle_data_size as usize;
        let mut r: Vec<u8> = Vec::new();
        let mut k: usize = 0;
        while k < len
            invariant
                k <= len,
                begin + len <= self.buffer.len(),
                r.len() == k,
                forall|j: int| 0 <= j < k ==> r@[j] == self.buffer@[begin + j],
            decreases len - k,
        {
            r.push(self.buffer[begin + k]);
            k = k + 1;
        }
        proof {
            assert(r@ =~= self.buffer@.subrange(begin as int, begin as int + len as int));
        }
        r
    }
}

} // verus!
