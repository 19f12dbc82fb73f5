use vstd::prelude::*;

use crate::coord::IVec3;

verus! {

/// The lowest terrain height a column can have.
pub const MIN_HEIGHT: i32 = 1;

/// The highest terrain height a column can have.
pub const MAX_HEIGHT: i32 = 30;

pub const CHUNK_SIDE_SIZE: i32 = 32;

pub const CHUNK_SIDE_SIZE_SQR: i32 = CHUNK_SIDE_SIZE * CHUNK_SIDE_SIZE;

pub const CHUNK_SIZE: i32 = CHUNK_SIDE_SIZE * CHUNK_SIDE_SIZE * CHUNK_SIDE_SIZE;

/// The largest chunk coordinate, in absolute value, whose voxels all have
/// `i32` coordinates.
pub const MAX_CHUNK_COORD: i32 = 67108863;

/// A generated cube of voxels: `texture[x + y * side + z * side^2]` is 1 for
/// a solid voxel and 0 for an empty one.
pub struct Chunk {
    pub texture: Vec<u8>,
    pub position: IVec3,
}

/// Every voxel of the chunk at `p` has `i32` coordinates.
pub open spec fn coord_in_range(p: IVec3) -> bool {
    &&& -MAX_CHUNK_COORD <= p.x <= MAX_CHUNK_COORD
    &&& -MAX_CHUNK_COORD <= p.y <= MAX_CHUNK_COORD
    &&& -MAX_CHUNK_COORD <= p.z <= MAX_CHUNK_COORD
}

/// The absolute height of the chunk's lowest voxel layer.
pub open spec fn slab_start(position: IVec3) -> int {
    position.z * CHUNK_SIDE_SIZE
}

/// The absolute x of column `c` (`c = x + y * side`) of the chunk.
pub open spec fn column_x(position: IVec3, c: int) -> int {
    position.x * CHUNK_SIDE_SIZE + c % CHUNK_SIDE_SIZE as int
}

/// The absolute y of column `c` of the chunk.
pub open spec fn column_y(position: IVec3, c: int) -> int {
    position.y * CHUNK_SIDE_SIZE + c / CHUNK_SIDE_SIZE as int
}

/// The voxel at index `i` is solid when its height is at most its column's.
pub open spec fn voxel(position: IVec3, heights: Seq<i32>, i: int) -> u8 {
    let column = i % CHUNK_SIDE_SIZE_SQR as int;
    let layer = i / CHUNK_SIDE_SIZE_SQR as int;
    if slab_start(position) + layer <= heights[column] {
        1
    } else {
        0
    }
}

/// The voxels of the chunk at `position` over columns of the given heights.
pub open spec fn chunk_texture(position: IVec3, heights: Seq<i32>) -> Seq<u8> {
    Seq::new(CHUNK_SIZE as nat, |i: int| voxel(position, heights, i))
}

/// Some column rises into the chunk's slab.
pub open spec fn reaches_slab(position: IVec3, heights: Seq<i32>) -> bool {
    exists|c: int| 0 <= c < CHUNK_SIDE_SIZE_SQR && #[trigger] heights[c] >= slab_start(position)
}

/// What generation yields: the voxels, or nothing when no column reaches the
/// slab and the chunk would be empty.
pub open spec fn generated(position: IVec3, heights: Seq<i32>) -> Option<Seq<u8>> {
    if reaches_slab(position, heights) {
        Some(chunk_texture(position, heights))
    } else {
        None
    }
}

/// The voxels of a chunk that may be absent.
pub open spec fn chunk_view(chunk: Option<Box<Chunk>>) -> Option<Seq<u8>> {
    match chunk {
        Some(c) => Some(c.texture@),
        None => None,
    }
}

/// `heights` holds, column by column, a height that `terrain` may give for
/// the chunk at `position`.
pub open spec fn terrain_heights<F: Fn(i32, i32) -> i32>(
    terrain: F,
    position: IVec3,
    heights: Seq<i32>,
) -> bool {
    &&& heights.len() == CHUNK_SIDE_SIZE_SQR
    &&& forall|c: int|
        0 <= c < CHUNK_SIDE_SIZE_SQR ==> terrain.ensures(
            (column_x(position, c) as i32, column_y(position, c) as i32),
            #[trigger] heights[c],
        )
}

/// `chunk` is what generation yields at `position` for heights that
/// `terrain` may give.
pub open spec fn generated_by<F: Fn(i32, i32) -> i32>(
    terrain: F,
    position: IVec3,
    chunk: Option<Box<Chunk>>,
) -> bool {
    &&& exists|heights: Seq<i32>|
        terrain_heights(terrain, position, heights) && chunk_view(chunk) == generated(
            position,
            heights,
        )
    &&& chunk is Some ==> chunk->0.position == position
}

impl Chunk {
    /// Generates the chunk at `position`, asking `terrain` for the height of
    /// each of its columns by absolute voxel coordinates.
    pub fn new<F: Fn(i32, i32) -> i32>(position: IVec3, terrain: &F) -> (r: Option<Box<Chunk>>)
        requires
            coord_in_range(position),
            forall|x: i32, y: i32| terrain.requires((x, y)),
        ensures
            generated_by(*terrain, position, r),
    {
        let mut heights: Vec<i32> = Vec::new();
        let mut c: usize = 0;
        while c < CHUNK_SIDE_SIZE_SQR as usize
            invariant
                c <= CHUNK_SIDE_SIZE_SQR,
                heights@.len() == c,
                coord_in_range(position),
                forall|x: i32, y: i32| terrain.requires((x, y)),
                forall|k: int|
                    0 <= k < c ==> terrain.ensures(
                        (column_x(position, k) as i32, column_y(position, k) as i32),
                        #[trigger] heights@[k],
                    ),
            decreases CHUNK_SIDE_SIZE_SQR - c,
        {
            let x = position.x * CHUNK_SIDE_SIZE + (c % CHUNK_SIDE_SIZE as usize) as i32;
            let y = position.y * CHUNK_SIDE_SIZE + (c / CHUNK_SIDE_SIZE as usize) as i32;
            let h = terrain(x, y);
            heights.push(h);
            c = c + 1;
        }
        let r = Self::from_heights(position, &heights);
        assert(terrain_heights(*terrain, position, heights@));
        r
    }

    /// The chunk at `position` over columns of the given heights (column
    /// `x + y * side` first), or nothing when no column reaches its slab.
    pub fn from_heights(position: IVec3, heights: &Vec<i32>) -> (r: Option<Box<Chunk>>)
        requires
            coord_in_range(position),
            heights@.len() == CHUNK_SIDE_SIZE_SQR,
        ensures
            chunk_view(r) == generated(position, heights@),
            r is Some ==> r->0.position == position,
    {
        let z_start = position.z * CHUNK_SIDE_SIZE;
        let mut not_empty = false;
        let mut c: usize = 0;
        while c < CHUNK_SIDE_SIZE_SQR as usize
            invariant
                c <= CHUNK_SIDE_SIZE_SQR,
                heights@.len() == CHUNK_SIDE_SIZE_SQR,
                z_start == slab_start(position),
                not_empty <==> exists|k: int| 0 <= k < c && #[trigger] heights@[k] >= z_start,
            decreases CHUNK_SIDE_SIZE_SQR - c,
        {
            if heights[c] >= z_start {
                not_empty = true;
            }
            c = c + 1;
        }
        if !not_empty {
            return None;
        }
        let mut texture: Vec<u8> = Vec::new();
        let mut i: usize = 0;
        while i < CHUNK_SIZE as usize
            invariant
                i <= CHUNK_SIZE,
                heights@.len() == CHUNK_SIDE_SIZE_SQR,
                z_start == slab_start(position),
                -0x7fff_ffe0 <= z_start <= 0x7fff_ffe0,
                texture@ == chunk_texture(position, heights@).take(i as int),
            decreases CHUNK_SIZE - i,
        {
            assert(i / 1024 < 32);
            let z = (i / CHUNK_SIDE_SIZE_SQR as usize) as i32;
            let column = i % CHUNK_SIDE_SIZE_SQR as usize;
            let solid: u8 = if z_start + z <= heights[column] {
                1
            } else {
                0
            };
            texture.push(solid);
            proof {
                assert(texture@ =~= chunk_texture(position, heights@).take(i + 1));
            }
            i = i + 1;
        }
        assert(texture@ =~= chunk_texture(position, heights@));
        Some(Box::new(Chunk { texture, position }))
    }
}

/// The voxel at `(x, y, z)` of a materialised chunk, stored at
/// `x + y * side + z * side^2`, is solid exactly when its absolute height
/// is at most its column's.
pub proof fn lemma_chunk_voxel(position: IVec3, heights: Seq<i32>, x: int, y: int, z: int)
    requires
        heights.len() == CHUNK_SIDE_SIZE_SQR,
        0 <= x < CHUNK_SIDE_SIZE,
        0 <= y < CHUNK_SIDE_SIZE,
        0 <= z < CHUNK_SIDE_SIZE,
        generated(position, heights) is Some,
    ensures
        generated(position, heights)->0[x + y * CHUNK_SIDE_SIZE + z * CHUNK_SIDE_SIZE_SQR] == (if slab_start(
            position,
        ) + z <= heights[x + y * CHUNK_SIDE_SIZE] {
            1u8
        } else {
            0u8
        }),
{
    let i = x + y * 32 + z * 1024;
    assert(i % 1024 == x + y * 32 && i / 1024 == z) by (nonlinear_arith)
        requires
            i == x + y * 32 + z * 1024,
            0 <= x < 32,
            0 <= y < 32,
            0 <= z < 32,
    ;
}

/// A chunk whose slab starts above the highest terrain is never
/// materialised.
pub proof fn lemma_chunk_above_terrain_is_absent(position: IVec3, heights: Seq<i32>)
    requires
        heights.len() == CHUNK_SIDE_SIZE_SQR,
        forall|c: int| 0 <= c < CHUNK_SIDE_SIZE_SQR ==> #[trigger] heights[c] <= MAX_HEIGHT,
        slab_start(position) > MAX_HEIGHT,
    ensures
        generated(position, heights) is None,
{
}

/// A chunk that some column reaches is materialised with a solid voxel, and
/// each column is solid from the bottom of the chunk up to its height with
/// no gaps: a solid voxel has a solid voxel below it.
pub proof fn lemma_chunk_at_surface_is_filled(position: IVec3, heights: Seq<i32>, c: int)
    requires
        heights.len() == CHUNK_SIDE_SIZE_SQR,
        0 <= c < CHUNK_SIDE_SIZE_SQR,
        heights[c] >= slab_start(position),
    ensures
        generated(position, heights) is Some,
        generated(position, heights)->0[c] == 1,
        forall|i: int|
            0 <= i && i + CHUNK_SIDE_SIZE_SQR < CHUNK_SIZE && #[trigger] generated(
                position,
                heights,
            )->0[i + CHUNK_SIDE_SIZE_SQR] == 1 ==> generated(position, heights)->0[i] == 1,
{
    let t = chunk_texture(position, heights);
    assert(heights[c] >= slab_start(position));
    assert(t[c] == voxel(position, heights, c));
    assert forall|i: int|
        0 <= i && i + CHUNK_SIDE_SIZE_SQR < CHUNK_SIZE && #[trigger] t[i + CHUNK_SIDE_SIZE_SQR]
            == 1 implies t[i] == 1 by {
        let j = i + CHUNK_SIDE_SIZE_SQR;
        assert(j / 1024 == i / 1024 + 1);
        assert(j % 1024 == i % 1024);
    }
}

} // verus!
