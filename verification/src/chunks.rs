//! What a host that draws the world in chunks keeps in sight: the radius
//! within which chunks are loaded, and the labels by which it orders the work
//! of one frame.

use vstd::prelude::*;

verus! {

/// The side of a chunk, in cells.
pub const CHUNK_LENGTH: i32 = 32;

/// The view distance, in chunks.
#[derive(Clone, Copy, Debug, PartialEq, Eq, Structural)]
pub struct ChunkLoadRadius {
    pub horizontal: i32,
    pub vertical: i32,
}

/// Label of the stage that loads and unloads chunks.
#[derive(Clone, Copy, Debug, PartialEq, Eq, PartialOrd, Ord, Hash)]
pub struct ChunkLoadingSet;

/// Label of the stage that generates terrain.
#[derive(Clone, Copy, Debug, PartialEq, Eq, PartialOrd, Ord, Hash)]
pub struct TerrainGenSet;

/// Label of the stage that renders the world.
#[derive(Clone, Copy, Debug, PartialEq, Eq, PartialOrd, Ord, Hash)]
pub struct RenderSet;

/// Label of the stage that animates chunks as they appear.
#[derive(Clone, Copy, Debug, PartialEq, Eq, PartialOrd, Ord, Hash)]
pub struct ChunkAppearanceAnimatorSet;

impl ChunkLoadRadius {
    /// The chunk at the offset (`x`, `y`, `z`), counted in chunks from the
    /// viewer's own, is in sight: within the vertical range and inside the
    /// circle of the horizontal radius.
    pub open spec fn in_sight(self, x: int, y: int, z: int) -> bool {
        &&& -self.horizontal <= x < self.horizontal
        &&& -self.horizontal <= z < self.horizontal
        &&& -self.vertical <= y < self.vertical
        &&& x * x + z * z < self.horizontal * self.horizontal
    }

    /// The chunk at the offset (`dx`, `dy`, `dz`), counted in cells from the
    /// viewer's own, lies beyond the view distance.
    pub open spec fn beyond(self, dx: int, dy: int, dz: int) -> bool {
        ||| dx * dx + dz * dz > (self.horizontal * self.horizontal) * (CHUNK_LENGTH
            * CHUNK_LENGTH)
        ||| dy * dy > (self.vertical * self.vertical) * (CHUNK_LENGTH * CHUNK_LENGTH)
    }

    /// Says whether the chunk at an offset counted in chunks is to be loaded.
    pub fn wants_loaded(&self, x: i32, y: i32, z: i32) -> (b: bool)
        ensures
            b == self.in_sight(x as int, y as int, z as int),
    {
        let h: i128 = self.horizontal as i128;
        let v: i128 = self.vertical as i128;
        let x: i128 = x as i128;
        let y: i128 = y as i128;
        let z: i128 = z as i128;
        assert(0 <= x * x <= 0x8000_0000 * 0x8000_0000 && 0 <= z * z <= 0x8000_0000 * 0x8000_0000
            && 0 <= h * h <= 0x8000_0000 * 0x8000_0000) by (nonlinear_arith)
            requires
                -0x8000_0000 <= x <= 0x8000_0000,
                -0x8000_0000 <= z <= 0x8000_0000,
                -0x8000_0000 <= h <= 0x8000_0000,
        ;
        -h <= x && x < h && -h <= z && z < h && -v <= y && y < v && x * x + z * z < h * h
    }

    /// Says whether the loaded chunk at an offset counted in cells is to be
    /// unloaded.
    pub fn wants_unloaded(&self, dx: i32, dy: i32, dz: i32) -> (b: bool)
        ensures
            b == self.beyond(dx as int, dy as int, dz as int),
    {
        let h: i128 = self.horizontal as i128;
        let v: i128 = self.vertical as i128;
        let dx: i128 = dx as i128;
        let dy: i128 = dy as i128;
        let dz: i128 = dz as i128;
        let side: i128 = 1024;
        assert(0 <= dx * dx <= 0x8000_0000 * 0x8000_0000 && 0 <= dz * dz <= 0x8000_0000
            * 0x8000_0000 && 0 <= dy * dy <= 0x8000_0000 * 0x8000_0000 && 0 <= h * h
            <= 0x8000_0000 * 0x8000_0000 && 0 <= v * v <= 0x8000_0000 * 0x8000_0000)
            by (nonlinear_arith)
            requires
                -0x8000_0000 <= dx <= 0x8000_0000,
                -0x8000_0000 <= dy <= 0x8000_0000,
                -0x8000_0000 <= dz <= 0x8000_0000,
                -0x8000_0000 <= h <= 0x8000_0000,
                -0x8000_0000 <= v <= 0x8000_0000,
        ;
        let hh: i128 = h * h;
        let vv: i128 = v * v;
        dx * dx + dz * dz > hh * side || dy * dy > vv * side
    }
}

/// A chunk that is in sight does not lie beyond the view distance: nothing is
/// loaded and unloaded in one frame.
pub proof fn lemma_in_sight_is_not_beyond(radius: ChunkLoadRadius, x: int, y: int, z: int)
    requires
        radius.in_sight(x, y, z),
    ensures
        !radius.beyond(x * CHUNK_LENGTH, y * CHUNK_LENGTH, z * CHUNK_LENGTH),
{
    let h = radius.horizontal as int;
    let v = radius.vertical as int;
    let l = CHUNK_LENGTH as int;
    assert((x * l) * (x * l) + (z * l) * (z * l) == (x * x + z * z) * (l * l))
        by (nonlinear_arith);
    assert((x * x + z * z) * (l * l) <= (h * h) * (l * l)) by (nonlinear_arith)
        requires
            x * x + z * z < h * h,
    ;
    assert(y * y <= v * v) by (nonlinear_arith)
        requires
            -v <= y < v,
    ;
    assert((y * l) * (y * l) == (y * y) * (l * l)) by (nonlinear_arith);
    assert((y * y) * (l * l) <= (v * v) * (l * l)) by (nonlinear_arith)
        requires
            y * y <= v * v,
    ;
}

} // verus!
