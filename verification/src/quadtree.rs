//! The discrete decisions of the Barnes-Hut quadtree: quadrant numbering and
//! when a node keeps a body instead of passing it to a child.
use vstd::prelude::*;

verus! {

/// The quadrant number of a point: bit 0 is set for the right half (x at or
/// beyond the center), bit 1 for the bottom half (y below the center).
pub open spec fn quadrant_number(right: bool, below: bool) -> usize {
    if right && below {
        3
    } else if below {
        2
    } else if right {
        1
    } else {
        0
    }
}

/// Computes the quadrant number of a point from the halves it lies in.
pub fn quadrant_index(right: bool, below: bool) -> (quadrant: usize)
    ensures
        quadrant == quadrant_number(right, below),
        quadrant < 4,
{
    let r: usize = if right {
        1
    } else {
        0
    };
    let b: usize = if below {
        1
    } else {
        0
    };
    assert((r | (b << 1usize)) == r + 2 * b) by (bit_vector)
        requires
            r <= 1,
            b <= 1,
    ;
    r | (b << 1)
}

/// The halves a quadrant number stands for: (right, below).
pub fn quadrant_sides(quadrant: usize) -> (sides: (bool, bool))
    ensures
        sides.0 == ((quadrant & 1) != 0),
        sides.1 == ((quadrant & 2) != 0),
{
    ((quadrant & 1) != 0, (quadrant & 2) != 0)
}

/// Numbering quadrants and reading their halves back are inverse: the child
/// box a body is routed to lies on the body's side of the center.
pub proof fn lemma_quadrant_round_trip(right: bool, below: bool)
    ensures
        ((quadrant_number(right, below) & 1) != 0) == right,
        ((quadrant_number(right, below) & 2) != 0) == below,
        quadrant_number(right, below) < 4,
{
    assert((0usize & 1) == 0 && (0usize & 2) == 0) by (bit_vector);
    assert((1usize & 1) == 1 && (1usize & 2) == 0) by (bit_vector);
    assert((2usize & 1) == 0 && (2usize & 2) == 2) by (bit_vector);
    assert((3usize & 1) == 1 && (3usize & 2) == 2) by (bit_vector);
}

/// Whether a quadtree node keeps an inserted body itself: it does at the
/// maximum depth, or while it has room and has not been split yet.
pub fn keeps_body(depth: usize, max_depth: usize, body_count: usize, max_bodies_per_node: usize, split: bool) -> (keep: bool)
    ensures
        keep == (depth >= max_depth || (body_count < max_bodies_per_node && !split)),
{
    depth >= max_depth || (body_count < max_bodies_per_node && !split)
}

} // verus!
