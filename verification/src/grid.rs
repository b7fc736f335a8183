use vstd::prelude::*;
use vstd::set_lib::{lemma_len_subset, set_int_range, lemma_int_range};
use crate::config::MAX_CELLS;
use crate::MAX_PLAYER_ID;

verus! {

/// Ownership tag of one grid cell. Water and Mountain are fixed once the
/// world is built; play only moves cells between Available and PlayerId.
#[derive(Clone, Copy, Debug, PartialEq, Eq, Structural)]
pub enum GridCell {
    Water,
    Mountain,
    Available,
    PlayerId(u32),
}

impl GridCell {
    /// Decode a cell from its signed integer code.
    pub fn from_i32(value: i32) -> (r: Self)
        requires
            value >= -2,
        ensures
            r == GridCell::spec_from_i32(value),
    {
        if value == -1 {
            GridCell::Water
        } else if value == -2 {
            GridCell::Mountain
        } else if value == 0 {
            GridCell::Available
        } else {
            GridCell::PlayerId(value as u32)
        }
    }

    /// Meaning of the signed integer code.
    pub open spec fn spec_from_i32(value: i32) -> GridCell {
        if value == -1 {
            GridCell::Water
        } else if value == -2 {
            GridCell::Mountain
        } else if value == 0 {
            GridCell::Available
        } else {
            GridCell::PlayerId(value as u32)
        }
    }

    /// Signed integer code of a cell.
    pub fn to_i32(&self) -> (r: i32)
        requires
            self is PlayerId ==> self->PlayerId_0 <= MAX_PLAYER_ID,
        ensures
            r == self.spec_to_i32(),
    {
        match self {
            GridCell::Water => -1,
            GridCell::Mountain => -2,
            GridCell::Available => 0,
            GridCell::PlayerId(id) => *id as i32,
        }
    }

    pub open spec fn spec_to_i32(&self) -> i32 {
        match self {
            GridCell::Water => -1i32,
            GridCell::Mountain => -2i32,
            GridCell::Available => 0i32,
            GridCell::PlayerId(id) => *id as i32,
        }
    }

    /// A cell that play can move: not terrain.
    pub open spec fn is_open(&self) -> bool {
        self is Available || self is PlayerId
    }
}

/// Distinct in-bounds coordinates never outnumber the cells.
pub proof fn lemma_distinct_pixels_bound(s: Seq<(usize, usize)>, w: int, h: int)
    requires
        1 <= w,
        1 <= h,
        forall|i: int, j: int| 0 <= i < j < s.len() ==> s[i] != s[j],
        forall|i: int| 0 <= i < s.len() ==> (#[trigger] s[i]).0 < w && s[i].1 < h,
    ensures
        s.len() <= w * h,
{
    let t = Seq::new(s.len(), |i: int| s[i].1 * w + s[i].0);
    assert forall|i: int, j: int| 0 <= i < j < t.len() implies t[i] != t[j] by {
        assert(s[i].1 * w + s[i].0 != s[j].1 * w + s[j].0) by (nonlinear_arith)
            requires
                s[i].0 < w,
                s[j].0 < w,
                0 <= s[i].0,
                0 <= s[j].0,
                0 <= s[i].1,
                0 <= s[j].1,
                s[i].0 != s[j].0 || s[i].1 != s[j].1,
        ;
    }
    assert(t.no_duplicates());
    t.unique_seq_to_set();
    assert forall|x: int| #[trigger] t.to_set().contains(x) implies set_int_range(
        0,
        w * h,
    ).contains(x) by {
        let i = choose|i: int| 0 <= i < t.len() && t[i] == x;
        assert(0 <= s[i].1 * w + s[i].0 < w * h) by (nonlinear_arith)
            requires
                0 <= s[i].0 < w,
                0 <= s[i].1 < h,
        ;
    }
    assert(t.to_set().subset_of(set_int_range(0, w * h)));
    lemma_int_range(0, w * h);
    lemma_len_subset(t.to_set(), set_int_range(0, w * h));
}

/// Number of cells of `s` owned by player `id`.
pub open spec fn count_owned(s: Seq<GridCell>, id: u32) -> int
    decreases s.len(),
{
    if s.len() == 0 {
        0
    } else {
        count_owned(s.drop_last(), id) + if s.last() == GridCell::PlayerId(id) {
            1int
        } else {
            0int
        }
    }
}

pub proof fn lemma_count_owned_nonneg(s: Seq<GridCell>, id: u32)
    ensures
        0 <= count_owned(s, id) <= s.len(),
    decreases s.len(),
{
    if s.len() > 0 {
        lemma_count_owned_nonneg(s.drop_last(), id);
    }
}

/// Updating one cell changes the count by the difference at that cell.
pub proof fn lemma_count_owned_update(s: Seq<GridCell>, i: int, c: GridCell, id: u32)
    requires
        0 <= i < s.len(),
    ensures
        count_owned(s.update(i, c), id) == count_owned(s, id) - (if s[i] == GridCell::PlayerId(id) {
            1int
        } else {
            0int
        }) + (if c == GridCell::PlayerId(id) {
            1int
        } else {
            0int
        }),
    decreases s.len(),
{
    if i == s.len() - 1 {
        assert(s.update(i, c).drop_last() =~= s.drop_last());
    } else {
        assert(s.update(i, c).drop_last() =~= s.drop_last().update(i, c));
        lemma_count_owned_update(s.drop_last(), i, c, id);
    }
}

/// Two grids that agree cellwise on ownership by `id` have the same count.
pub proof fn lemma_count_owned_pointwise(s1: Seq<GridCell>, s2: Seq<GridCell>, id: u32)
    requires
        s1.len() == s2.len(),
        forall|i: int|
            0 <= i < s1.len() ==> ((s1[i] == GridCell::PlayerId(id)) <==> (s2[i]
                == GridCell::PlayerId(id))),
    ensures
        count_owned(s1, id) == count_owned(s2, id),
    decreases s1.len(),
{
    if s1.len() > 0 {
        assert(s1[s1.len() - 1] == s1.last());
        lemma_count_owned_pointwise(s1.drop_last(), s2.drop_last(), id);
    }
}

/// The playing field: a rectangular array of cells, stored row-major.
#[derive(Clone, Debug)]
pub struct Grid {
    pub width: usize,
    pub height: usize,
    pub cells: Vec<GridCell>,
}

impl Grid {
    pub open spec fn wf(&self) -> bool {
        &&& 1 <= self.width
        &&& 1 <= self.height
        &&& self.width * self.height <= MAX_CELLS
        &&& self.cells@.len() == self.width * self.height
    }

    /// Cell at column `x`, row `y`.
    pub open spec fn spec_cell(&self, x: int, y: int) -> GridCell {
        self.cells@[y * self.width + x]
    }

    pub open spec fn in_bounds(&self, x: int, y: int) -> bool {
        0 <= x < self.width && 0 <= y < self.height
    }

    /// Row-major index of a coordinate, with the bound that makes indexing safe.
    pub proof fn lemma_index(&self, x: int, y: int)
        requires
            self.wf(),
            self.in_bounds(x, y),
        ensures
            0 <= y * self.width + x < self.cells@.len(),
            y * self.width + x < self.width * self.height,
    {
        assert(y * self.width + x < self.width * self.height) by (nonlinear_arith)
            requires
                0 <= x < self.width,
                0 <= y < self.height,
        ;
        assert(0 <= y * self.width) by (nonlinear_arith)
            requires
                0 <= y,
                0 <= self.width,
        ;
    }

    /// Distinct coordinates have distinct row-major indices.
    pub proof fn lemma_index_injective(&self, x1: int, y1: int, x2: int, y2: int)
        requires
            self.wf(),
            self.in_bounds(x1, y1),
            self.in_bounds(x2, y2),
            (x1, y1) != (x2, y2),
        ensures
            y1 * self.width + x1 != y2 * self.width + x2,
    {
        assert(y1 * self.width + x1 != y2 * self.width + x2) by (nonlinear_arith)
            requires
                0 <= x1 < self.width,
                0 <= x2 < self.width,
                0 <= y1,
                0 <= y2,
                x1 != x2 || y1 != y2,
        ;
    }

    /// Build a grid with every cell Available.
    pub fn new(width: usize, height: usize) -> (r: Grid)
        requires
            1 <= width,
            1 <= height,
            width * height <= MAX_CELLS,
        ensures
            r.wf(),
            r.width == width,
            r.height == height,
            forall|i: int| 0 <= i < r.cells@.len() ==> r.cells@[i] == GridCell::Available,
    {
        let n: usize = width * height;
        let mut cells: Vec<GridCell> = Vec::new();
        let mut i: usize = 0;
        while i < n
            invariant
                i <= n,
                cells@.len() == i,
                forall|j: int| 0 <= j < i ==> cells@[j] == GridCell::Available,
            decreases n - i,
        {
            cells.push(GridCell::Available);
            i = i + 1;
        }
        Grid { width, height, cells }
    }

    pub fn get(&self, x: usize, y: usize) -> (r: GridCell)
        requires
            self.wf(),
            self.in_bounds(x as int, y as int),
        ensures
            r == self.spec_cell(x as int, y as int),
    {
        proof {
            self.lemma_index(x as int, y as int);
        }
        self.cells[y * self.width + x]
    }

    pub fn set(&mut self, x: usize, y: usize, c: GridCell)
        requires
            old(self).wf(),
            old(self).in_bounds(x as int, y as int),
        ensures
            final(self).wf(),
            final(self).width == old(self).width,
            final(self).height == old(self).height,
            final(self).cells@ == old(self).cells@.update(y * old(self).width + x, c),
            final(self).spec_cell(x as int, y as int) == c,
    {
        proof {
            self.lemma_index(x as int, y as int);
        }
        let i: usize = y * self.width + x;
        self.cells.set(i, c);
    }

    /// Revert every cell owned by `id` to Available.
    pub fn revert_owner(&mut self, id: u32)
        requires
            old(self).wf(),
        ensures
            final(self).wf(),
            final(self).width == old(self).width,
            final(self).height == old(self).height,
            final(self).cells@.len() == old(self).cells@.len(),
            forall|i: int|
                0 <= i < old(self).cells@.len() ==> final(self).cells@[i] == (if old(
                    self,
                ).cells@[i] == GridCell::PlayerId(id) {
                    GridCell::Available
                } else {
                    old(self).cells@[i]
                }),
    {
        let len: usize = self.cells.len();
        let mut i: usize = 0;
        while i < len
            invariant
                len == self.cells@.len(),
                len == old(self).cells@.len(),
                self.width == old(self).width,
                self.height == old(self).height,
                i <= len,
                forall|j: int|
                    0 <= j < i ==> self.cells@[j] == (if old(self).cells@[j] == GridCell::PlayerId(
                        id,
                    ) {
                        GridCell::Available
                    } else {
                        old(self).cells@[j]
                    }),
                forall|j: int| i <= j < len ==> self.cells@[j] == old(self).cells@[j],
            decreases len - i,
        {
            let c: GridCell = self.cells[i];
            if c == (GridCell::PlayerId(id)) {
                self.cells.set(i, GridCell::Available);
            }
            i = i + 1;
        }
    }

    /// Count the cells owned by `id` with a full scan.
    pub fn count_owner(&self, id: u32) -> (n: usize)
        requires
            self.wf(),
        ensures
            n == count_owned(self.cells@, id),
    {
        let len: usize = self.cells.len();
        let mut n: usize = 0;
        let mut i: usize = 0;
        while i < len
            invariant
                i <= len,
                len == self.cells@.len(),
                n <= i,
                n == count_owned(self.cells@.take(i as int), id),
            decreases len - i,
        {
            proof {
                assert(self.cells@.take(i + 1int).drop_last() =~= self.cells@.take(i as int));
                assert(self.cells@.take(i + 1int).last() == self.cells@[i as int]);
            }
            let c: GridCell = self.cells[i];
            if c == (GridCell::PlayerId(id)) {
                n = n + 1;
            }
            i = i + 1;
        }
        proof {
            assert(self.cells@.take(len as int) =~= self.cells@);
        }
        n
    }
}

} // verus!
