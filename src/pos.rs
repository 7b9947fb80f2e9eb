use vstd::prelude::*;

verus! {

/// The three dimensions of a world; the numbers are the on-disk values.
#[derive(Debug, Copy, Clone, Hash, PartialEq, Eq, Structural)]
pub enum Dimension {
    Overworld,
    Nether,
    End,
}

/// A 16 x 256 x 16 column of the world.
#[derive(Debug, Copy, Clone, Hash, PartialEq, Eq, Structural)]
pub struct ChunkPos {
    pub x: i32,
    pub z: i32,
    pub dimension: Dimension,
}

/// One voxel of the world.
#[derive(Debug, Copy, Clone, Hash, PartialEq, Eq, Structural)]
pub struct WorldPos {
    pub x: i32,
    pub y: u8,
    pub z: i32,
    pub dimension: Dimension,
}

/// One 16 x 16 x 16 cell of a chunk; `subchunk` is its height index.
#[derive(Debug, Copy, Clone, Hash, PartialEq, Eq, Structural)]
pub struct SubchunkPos {
    pub x: i32,
    pub z: i32,
    pub subchunk: u8,
    pub dimension: Dimension,
}

/// Number of subchunks stacked in a chunk.
pub const NUM_SUBCHUNKS: u8 = 16;

/// Number of voxels in one subchunk layer.
pub const SUBCHUNK_VOLUME: usize = 4096;

/// Division rounding toward negative infinity (spec `/` is Euclidean, which
/// is flooring for a positive divisor).
pub open spec fn floor_div(n: int, k: int) -> int {
    n / k
}

/// `n` divided by `k`, rounded toward negative infinity.
pub fn flooring_divide(n: i32, k: u32) -> (r: i32)
    requires
        0 < k <= i32::MAX,
    ensures
        r as int == floor_div(n as int, k as int),
        k as int * r <= n < k as int * (r + 1),
{
    let k = k as i32;
    let div = n / k;
    proof {
        if n >= 0 {
            assert(div as int == n as int / k as int);
            assert(0 <= div * k <= n) by (nonlinear_arith)
                requires div == n as int / k as int, n >= 0, k > 0;
        } else {
            let m = -n as int;
            assert(div as int == -(m / k as int));
            assert(n <= div * k <= 0) by (nonlinear_arith)
                requires div == -(m / k as int), m == -n, m > 0, k > 0;
        }
    }
    let rem = n - div * k;
    // no need for fancy rounding if the remainder is 0
    if rem == 0 {
        assert(floor_div(n as int, k as int) == div && k * div <= n < k * (div + 1))
            by (nonlinear_arith)
            requires n == k * div, k > 0;
        return div;
    }
    // otherwise fix up the negative numbers so that the rounding goes to
    // negative infinity instead of zero
    if n < 0 {
        proof {
            let m = -n as int;
            assert(-k < rem < 0) by (nonlinear_arith)
                requires div == -(m / k as int), m == -n, m > 0, k > 0, rem == n - div * k, rem != 0;
            assert(div > i32::MIN) by (nonlinear_arith)
                requires k * div > n, k >= 1, div <= 0, n >= i32::MIN;
            assert(floor_div(n as int, k as int) == div - 1
                && k * (div - 1) <= n < k * div) by (nonlinear_arith)
                requires n == k * div + rem, k > 0, -k < rem < 0;
        }
        div - 1
    } else {
        proof {
            assert(0 < rem < k) by (nonlinear_arith)
                requires div == n as int / k as int, n >= 0, k > 0, rem == n - div * k, rem != 0;
            assert(floor_div(n as int, k as int) == div && k * div <= n < k * (div + 1))
                by (nonlinear_arith)
                requires n == k * div + rem, k > 0, 0 < rem < k;
        }
        div
    }
}

impl Dimension {
    /// The number that stands for the dimension on disk.
    pub open spec fn code(self) -> u32 {
        match self {
            Dimension::Overworld => 0,
            Dimension::Nether => 1,
            Dimension::End => 2,
        }
    }

    pub fn to_code(&self) -> (r: u32)
        ensures
            r == self.code(),
    {
        match self {
            Dimension::Overworld => 0,
            Dimension::Nether => 1,
            Dimension::End => 2,
        }
    }
}

impl WorldPos {
    pub open spec fn spec_chunk_pos(self) -> ChunkPos {
        ChunkPos {
            x: floor_div(self.x as int, 16) as i32,
            z: floor_div(self.z as int, 16) as i32,
            dimension: self.dimension,
        }
    }

    pub open spec fn spec_subchunk_y(self) -> int {
        self.y as int / 16
    }

    /// `256 * (x mod 16) + 16 * (z mod 16) + (y mod 16)`, every `mod` in `[0, 16)`.
    pub open spec fn spec_subchunk_offset(self) -> int {
        256 * (self.x as int % 16) + 16 * (self.z as int % 16) + (self.y as int % 16)
    }

    /// The chunk that holds this voxel.
    pub fn chunk_pos(&self) -> (r: ChunkPos)
        ensures
            r == self.spec_chunk_pos(),
            16 * (r.x as int) <= self.x < 16 * (r.x as int + 1),
            16 * (r.z as int) <= self.z < 16 * (r.z as int + 1),
    {
        ChunkPos {
            x: flooring_divide(self.x, 16),
            z: flooring_divide(self.z, 16),
            dimension: self.dimension,
        }
    }

    /// The height index of the subchunk that holds this voxel.
    pub fn subchunk_y(&self) -> (r: usize)
        ensures
            r == self.spec_subchunk_y(),
            r < 16,
    {
        let sub_y = self.y / 16;
        sub_y as usize
    }

    /// The place of this voxel in its subchunk layer.
    pub fn subchunk_offset(&self) -> (r: usize)
        ensures
            r == self.spec_subchunk_offset(),
            r < 4096,
    {
        let inner_y = (self.y % 16) as i32;
        let inner_x = self.x - flooring_divide(self.x, 16) * 16;
        let inner_z = self.z - flooring_divide(self.z, 16) * 16;
        assert(0 <= inner_x < 16 && 0 <= inner_z < 16 && 0 <= inner_y < 16);
        assert(inner_x == self.x as int % 16);
        assert(inner_z == self.z as int % 16);
        let (ox, oz, oy) = (inner_x as usize, inner_z as usize, inner_y as usize);
        256 * ox + 16 * oz + oy
    }
}

impl ChunkPos {
    pub open spec fn spec_subchunk_pos(self, subchunk: u8) -> SubchunkPos {
        SubchunkPos { x: self.x, z: self.z, subchunk, dimension: self.dimension }
    }

    /// The position of the subchunk at height index `subchunk` in this chunk.
    pub fn subchunk_pos(&self, subchunk: u8) -> (r: SubchunkPos)
        ensures
            r == self.spec_subchunk_pos(subchunk),
    {
        SubchunkPos { x: self.x, z: self.z, subchunk, dimension: self.dimension }
    }
}

impl SubchunkPos {
    pub open spec fn spec_chunk_pos(self) -> ChunkPos {
        ChunkPos { x: self.x, z: self.z, dimension: self.dimension }
    }

    /// The chunk that this subchunk belongs to.
    pub fn chunk_pos(&self) -> (r: ChunkPos)
        ensures
            r == self.spec_chunk_pos(),
    {
        ChunkPos { x: self.x, z: self.z, dimension: self.dimension }
    }
}

} // verus!
