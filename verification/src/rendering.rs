//! The wire records handed to the rendering boundary: one indirect draw
//! command per non-empty face of a meshed chunk.

use vstd::prelude::*;

verus! {

/// An indexed indirect draw command, laid out as the graphics API consumes
/// it: six indices per quad, one instance, and a base-instance word that
/// carries the chunk key and the face index to the shader.
#[derive(Clone, Copy, Debug, PartialEq, Eq, Structural)]
pub struct DrawElementsIndirectCommand {
    pub index_count: u32,
    pub instance_count: u32,
    pub first_index: u32,
    pub base_vertex: u32,
    pub base_instance: u32,
}

impl Default for DrawElementsIndirectCommand {
    /// The all-zero command.
    fn default() -> (c: DrawElementsIndirectCommand)
        ensures
            c.index_count == 0,
            c.instance_count == 0,
            c.first_index == 0,
            c.base_vertex == 0,
            c.base_instance == 0,
    {
        DrawElementsIndirectCommand {
            index_count: 0,
            instance_count: 0,
            first_index: 0,
            base_vertex: 0,
            base_instance: 0,
        }
    }
}

/// Builds the draw command for one face's quad group: six indices per quad,
/// and the chunk key packed with the face index into the base instance as
/// `(face << 24) | key`.
pub fn make_draw_command(quad_count: u32, base_vertex: u32, key: u32, face: u32) -> (c:
    DrawElementsIndirectCommand)
    requires
        quad_count <= 0x2AAA_AAAA,
        key < 0x1000000,
        face < 6,
    ensures
        c.index_count == quad_count * 6,
        c.instance_count == 1,
        c.first_index == 0,
        c.base_vertex == base_vertex,
        c.base_instance == key + face * 0x1000000,
{
    proof {
        assert(key < 0x1000000 && face < 6 ==> ((face << 24) | key) == key + face * 0x1000000)
            by (bit_vector);
    }
    DrawElementsIndirectCommand {
        index_count: quad_count * 6,
        instance_count: 1,
        first_index: 0,
        base_vertex,
        base_instance: (face << 24) | key,
    }
}

} // verus!
