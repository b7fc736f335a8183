use vstd::prelude::*;
use crate::config::MAX_CELLS;

verus! {

/// Biome classes of the generated world. The generator assigns them
/// outside the core; the engine only consumes the derived traversability
/// and livability values.
#[derive(Clone, Copy, Debug, PartialEq, Eq, Structural)]
pub enum BiomeType {
    Ocean,
    Tundra,
    Taiga,
    TemperateGrassland,
    TemperateForest,
    TemperateRainforest,
    TropicalSavanna,
    TropicalForest,
    TropicalRainforest,
    Desert,
    Mountain,
    Ice,
    ColdDesert,
    HotDesert,
}

/// Read-only world artifact consumed by the engine: per-cell terrain
/// factors in permille and the water/mountain masks, stored row-major.
#[derive(Clone, Debug)]
pub struct WorldMap {
    pub width: usize,
    pub height: usize,
    /// Terrain cost factor in [0, 1000]; higher eases expansion.
    pub traversability: Vec<u64>,
    /// Terrain quality factor in [0, 1000]; feeds the periodic area bonus.
    pub livability: Vec<u64>,
    pub water: Vec<bool>,
    pub mountain: Vec<bool>,
}

impl WorldMap {
    pub open spec fn wf(&self) -> bool {
        &&& 1 <= self.width
        &&& 1 <= self.height
        &&& self.width * self.height <= MAX_CELLS
        &&& self.traversability@.len() == self.width * self.height
        &&& self.livability@.len() == self.width * self.height
        &&& self.water@.len() == self.width * self.height
        &&& self.mountain@.len() == self.width * self.height
        &&& forall|i: int|
            0 <= i < self.traversability@.len() ==> #[trigger] self.traversability@[i] <= 1000
        &&& forall|i: int| 0 <= i < self.livability@.len() ==> #[trigger] self.livability@[i] <= 1000
    }

    pub open spec fn spec_trav(&self, x: int, y: int) -> u64 {
        self.traversability@[y * self.width + x]
    }

    pub open spec fn spec_liv(&self, x: int, y: int) -> u64 {
        self.livability@[y * self.width + x]
    }

    pub open spec fn spec_water(&self, x: int, y: int) -> bool {
        self.water@[y * self.width + x]
    }

    pub open spec fn spec_mountain(&self, x: int, y: int) -> bool {
        self.mountain@[y * self.width + x]
    }

    pub open spec fn in_bounds(&self, x: int, y: int) -> bool {
        0 <= x < self.width && 0 <= y < self.height
    }

    proof fn lemma_index(&self, x: int, y: int)
        requires
            self.wf(),
            self.in_bounds(x, y),
        ensures
            0 <= y * self.width + x < self.width * self.height,
    {
        assert(y * self.width + x < self.width * self.height) by (nonlinear_arith)
            requires
                0 <= x < self.width,
                0 <= y < self.height,
        ;
        assert(0 <= y * self.width) by (nonlinear_arith)
            requires
                0 <= y,
                0 <= self.width,
        ;
    }

    /// An empty world of the given dimensions: zero terrain factors and
    /// no terrain obstacles, for the loader to fill in.
    pub fn new(width: usize, height: usize) -> (r: WorldMap)
        requires
            1 <= width,
            1 <= height,
            width * height <= MAX_CELLS,
        ensures
            r.wf(),
            r.width == width,
            r.height == height,
    {
        WorldMap::uniform(width, height, 0, 0)
    }

    /// A uniform world with the given terrain factors and no terrain
    /// obstacles; the terrain-free testing world.
    pub fn uniform(width: usize, height: usize, trav: u64, liv: u64) -> (r: WorldMap)
        requires
            1 <= width,
            1 <= height,
            width * height <= MAX_CELLS,
            trav <= 1000,
            liv <= 1000,
        ensures
            r.wf(),
            r.width == width,
            r.height == height,
            forall|i: int| 0 <= i < width * height ==> #[trigger] r.traversability@[i] == trav,
            forall|i: int| 0 <= i < width * height ==> #[trigger] r.livability@[i] == liv,
            forall|i: int| 0 <= i < width * height ==> !(#[trigger] r.water@[i]),
            forall|i: int| 0 <= i < width * height ==> !(#[trigger] r.mountain@[i]),
    {
        let n: usize = width * height;
        let mut traversability: Vec<u64> = Vec::new();
        let mut livability: Vec<u64> = Vec::new();
        let mut water: Vec<bool> = Vec::new();
        let mut mountain: Vec<bool> = Vec::new();
        let mut i: usize = 0;
        while i < n
            invariant
                i <= n,
                traversability@.len() == i,
                livability@.len() == i,
                water@.len() == i,
                mountain@.len() == i,
                forall|j: int| 0 <= j < i ==> #[trigger] traversability@[j] == trav,
                forall|j: int| 0 <= j < i ==> #[trigger] livability@[j] == liv,
                forall|j: int| 0 <= j < i ==> !(#[trigger] water@[j]),
                forall|j: int| 0 <= j < i ==> !(#[trigger] mountain@[j]),
            decreases n - i,
        {
            traversability.push(trav);
            livability.push(liv);
            water.push(false);
            mountain.push(false);
            i = i + 1;
        }
        WorldMap { width, height, traversability, livability, water, mountain }
    }

    /// Traversability of a cell, in permille.
    pub fn trav_at(&self, x: usize, y: usize) -> (r: u64)
        requires
            self.wf(),
            self.in_bounds(x as int, y as int),
        ensures
            r == self.spec_trav(x as int, y as int),
            r <= 1000,
    {
        proof {
            self.lemma_index(x as int, y as int);
        }
        self.traversability[y * self.width + x]
    }

    /// Livability of a cell, in permille.
    pub fn liv_at(&self, x: usize, y: usize) -> (r: u64)
        requires
            self.wf(),
            self.in_bounds(x as int, y as int),
        ensures
            r == self.spec_liv(x as int, y as int),
            r <= 1000,
    {
        proof {
            self.lemma_index(x as int, y as int);
        }
        self.livability[y * self.width + x]
    }

    pub fn water_at(&self, x: usize, y: usize) -> (r: bool)
        requires
            self.wf(),
            self.in_bounds(x as int, y as int),
        ensures
            r == self.spec_water(x as int, y as int),
    {
        proof {
            self.lemma_index(x as int, y as int);
        }
        self.water[y * self.width + x]
    }

    pub fn mountain_at(&self, x: usize, y: usize) -> (r: bool)
        requires
            self.wf(),
            self.in_bounds(x as int, y as int),
        ensures
            r == self.spec_mountain(x as int, y as int),
    {
        proof {
            self.lemma_index(x as int, y as int);
        }
        self.mountain[y * self.width + x]
    }
}

} // verus!
