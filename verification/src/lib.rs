//! Binary greedy meshing core: turns a dense voxel chunk into a minimal set
//! of axis-aligned quads using per-face hidden-surface culling and greedy
//! run-merging over 64-bit column bitmasks.
//!
//! A chunk is a cube of side `CS_P = CS + 2`: the interior `CS = 62` cells per
//! axis plus a one-cell halo shell used only to detect boundary exposure.
//! Cells are stored in a fixed linear order, `depth + row * CS_P +
//! layer * CS_P * CS_P`.

use vstd::prelude::*;

pub mod data;
pub mod levelgen;
pub mod mesher;
pub mod rendering;

verus! {

/// Interior chunk side length.
pub const CS: usize = 62;

/// Padded side length including the one-cell halo on each side.
pub const CS_P: usize = 64;

/// `CS * CS`: one entry per interior column of a face.
pub const CS_2: usize = 3844;

/// `CS_P * CS_P`: one 64-bit word per padded column.
pub const CS_P2: usize = 4096;

/// `CS_P^3`: cell count of the padded chunk.
pub const CS_P3: usize = 262144;

/// Linear cell index of the padded coordinate `(x, y, z)`, where `z` is the
/// depth axis, `x` the row axis and `y` the layer axis.
pub open spec fn zxy_index(x: int, y: int, z: int) -> int {
    z + x * 64 + y * 4096
}

pub fn get_zxy_index(x: usize, y: usize, z: usize) -> (r: usize)
    requires
        x < CS_P,
        y < CS_P,
        z < CS_P,
    ensures
        r == zxy_index(x as int, y as int, z as int),
        r < CS_P3,
{
    z + (x * CS_P) + (y * CS_P2)
}

/// Packed 32-bit chunk key: `(z << 16) | (y << 8) | x`, one byte per
/// coordinate.
pub open spec fn xyz_key(x: u8, y: u8, z: u8) -> u32 {
    (x + y * 0x100 + z * 0x10000) as u32
}

pub fn get_xyz_key(x: u8, y: u8, z: u8) -> (key: u32)
    ensures
        key == xyz_key(x, y, z),
        key < 0x1000000,
{
    proof {
        assert(((z as u32) << 16) | ((y as u32) << 8) | (x as u32)
            == (x as u32) + (y as u32) * 0x100 + (z as u32) * 0x10000) by (bit_vector);
        assert((x as u32) + (y as u32) * 0x100 + (z as u32) * 0x10000 < 0x1000000);
    }
    ((z as u32) << 16) | ((y as u32) << 8) | (x as u32)
}

/// Inverse of [`get_xyz_key`]: recovers `(x, y, z)` from a packed key.
pub fn parse_xyz_key(key: u32) -> (r: (u8, u8, u8))
    ensures
        r.0 == key % 0x100,
        r.1 == (key / 0x100) % 0x100,
        r.2 == (key / 0x10000) % 0x100,
{
    proof {
        assert((key & 0xFF) == key % 0x100 && (key & 0xFF) < 0x100) by (bit_vector);
        assert(((key >> 8) & 0xFF) == (key / 0x100) % 0x100 && ((key >> 8) & 0xFF) < 0x100)
            by (bit_vector);
        assert(((key >> 16) & 0xFF) == (key / 0x10000) % 0x100 && ((key >> 16) & 0xFF) < 0x100)
            by (bit_vector);
    }
    ((key & 0xFF) as u8, ((key >> 8) & 0xFF) as u8, ((key >> 16) & 0xFF) as u8)
}

/// A packed key decodes back to the coordinates it was built from.
pub proof fn lemma_xyz_key_round_trip(x: u8, y: u8, z: u8)
    ensures
        xyz_key(x, y, z) % 0x100 == x,
        (xyz_key(x, y, z) / 0x100) % 0x100 == y,
        (xyz_key(x, y, z) / 0x10000) % 0x100 == z,
{
    let k = xyz_key(x, y, z);
    assert(k == (x as u32) + (y as u32) * 0x100 + (z as u32) * 0x10000);
    assert(((x as u32) + (y as u32) * 0x100 + (z as u32) * 0x10000) % 0x100 == x
        && (((x as u32) + (y as u32) * 0x100 + (z as u32) * 0x10000) / 0x100) % 0x100 == y
        && (((x as u32) + (y as u32) * 0x100 + (z as u32) * 0x10000) / 0x10000) % 0x100 == z)
        by (bit_vector);
}

} // verus!
