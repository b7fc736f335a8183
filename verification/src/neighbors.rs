use vstd::prelude::*;
use vstd::seq_lib::lemma_seq_contains_after_push;
use crate::attack::MoveTarget;
use crate::grid::{Grid, GridCell};

verus! {

/// An unordered adjacency between two territories (a player or empty
/// space), stored normalized: the side with the smaller key first.
#[derive(Clone, Copy, Debug, PartialEq, Eq, Structural)]
pub struct NeighborPair {
    pub source: MoveTarget,
    pub target: MoveTarget,
}

/// Total order on territory tags used for normalization.
pub open spec fn target_key(t: MoveTarget) -> int {
    match t {
        MoveTarget::EmptySpace => 0,
        MoveTarget::Enemy(id) => id + 1,
    }
}

/// The territory tag of a cell; terrain carries none.
pub open spec fn cell_target(c: GridCell) -> Option<MoveTarget> {
    match c {
        GridCell::Available => Some(MoveTarget::EmptySpace),
        GridCell::PlayerId(id) => Some(MoveTarget::Enemy(id)),
        GridCell::Water => None,
        GridCell::Mountain => None,
    }
}

/// A sample position of the strided scan.
pub open spec fn spec_sampled(x: int, y: int, stride: int, g: Grid) -> bool {
    &&& 0 <= x < g.width
    &&& 0 <= y < g.height
    &&& x % stride == 0
    &&& y % stride == 0
}

/// The pair found by probing from sample `(x, y)` in direction `d`
/// (0: right by one stride, 1: up by one stride), normalized; nothing if
/// either end is terrain or out of bounds, or both ends agree.
pub open spec fn spec_probe(g: Grid, stride: int, x: int, y: int, d: int) -> Option<NeighborPair> {
    let nx = if d == 0 { x + stride } else { x };
    let ny = if d == 0 { y } else { y - stride };
    if !(0 <= nx < g.width && 0 <= ny < g.height) {
        None
    } else {
        match (cell_target(g.spec_cell(x, y)), cell_target(g.spec_cell(nx, ny))) {
            (Some(a), Some(b)) => {
                if target_key(a) < target_key(b) {
                    Some(NeighborPair { source: a, target: b })
                } else if target_key(b) < target_key(a) {
                    Some(NeighborPair { source: b, target: a })
                } else {
                    None
                }
            },
            _ => None,
        }
    }
}

/// A pair belongs to the sampled neighbor graph if some probe finds it.
pub open spec fn spec_pair_in_graph(g: Grid, stride: int, pr: NeighborPair) -> bool {
    exists|x: int, y: int, d: int|
        {
            &&& spec_sampled(x, y, stride, g)
            &&& 0 <= d < 2
            &&& spec_probe(g, stride, x, y, d) == Some(pr)
        }
}

/// A pair found by a probe strictly before `(Y, X, D)` in scan order.
pub open spec fn spec_pair_upto(
    g: Grid,
    stride: int,
    pr: NeighborPair,
    yy: int,
    xx: int,
    dd: int,
) -> bool {
    exists|x: int, y: int, d: int|
        {
            &&& spec_sampled(x, y, stride, g)
            &&& 0 <= d < 2
            &&& y < yy || (y == yy && (x < xx || (x == xx && d < dd)))
            &&& spec_probe(g, stride, x, y, d) == Some(pr)
        }
}

/// The probe, executably.
fn probe(g: &Grid, stride: usize, x: usize, y: usize, d: usize) -> (r: Option<NeighborPair>)
    requires
        g.wf(),
        1 <= stride,
        x < g.width,
        y < g.height,
        d < 2,
    ensures
        r == spec_probe(*g, stride as int, x as int, y as int, d as int),
{
    let in_bounds: bool = if d == 0 {
        x <= usize::MAX - stride && x + stride < g.width
    } else {
        y >= stride
    };
    if !in_bounds {
        proof {
            if d == 0 && x > usize::MAX - stride {
                assert(x + stride >= g.width);
            }
        }
        return None;
    }
    let nx: usize = if d == 0 {
        x + stride
    } else {
        x
    };
    let ny: usize = if d == 0 {
        y
    } else {
        y - stride
    };
    let a: GridCell = g.get(x, y);
    let b: GridCell = g.get(nx, ny);
    let ta: Option<MoveTarget> = cell_target_exec(a);
    let tb: Option<MoveTarget> = cell_target_exec(b);
    match (ta, tb) {
        (Some(a), Some(b)) => {
            let ka: u64 = target_key_exec(a);
            let kb: u64 = target_key_exec(b);
            if ka < kb {
                Some(NeighborPair { source: a, target: b })
            } else if kb < ka {
                Some(NeighborPair { source: b, target: a })
            } else {
                None
            }
        },
        _ => None,
    }
}

fn cell_target_exec(c: GridCell) -> (r: Option<MoveTarget>)
    ensures
        r == cell_target(c),
{
    match c {
        GridCell::Available => Some(MoveTarget::EmptySpace),
        GridCell::PlayerId(id) => Some(MoveTarget::Enemy(id)),
        GridCell::Water => None,
        GridCell::Mountain => None,
    }
}

fn target_key_exec(t: MoveTarget) -> (r: u64)
    ensures
        r == target_key(t),
{
    match t {
        MoveTarget::EmptySpace => 0,
        MoveTarget::Enemy(id) => (id as u64) + 1,
    }
}

/// Linear scan for a pair.
fn contains_np(v: &Vec<NeighborPair>, pr: NeighborPair) -> (r: bool)
    ensures
        r == v@.contains(pr),
{
    let mut i: usize = 0;
    while i < v.len()
        invariant
            i <= v@.len(),
            forall|j: int| 0 <= j < i ==> v@[j] != pr,
        decreases v@.len() - i,
    {
        if v[i] == pr {
            assert(v@[i as int] == pr);
            return true;
        }
        i = i + 1;
    }
    false
}

/// Rebuild the sampled neighbor graph from the grid: every stride-th cell
/// is probed one stride right and one stride up; the deduplicated,
/// normalized set of adjacent territory pairs across non-terrain cells
/// comes back. Advisory only: it gates candidate selection and is stale
/// between refreshes.
pub fn find_all_possible_targets(grid: &Grid, stride: usize) -> (r: Vec<NeighborPair>)
    requires
        grid.wf(),
        1 <= stride,
    ensures
        forall|pr: NeighborPair| r@.contains(pr) <==> spec_pair_in_graph(*grid, stride as int, pr),
        forall|i: int, j: int| 0 <= i < j < r@.len() ==> r@[i] != r@[j],
{
    broadcast use lemma_seq_contains_after_push;

    let mut r: Vec<NeighborPair> = Vec::new();
    let mut y: usize = 0;
    while y < grid.height
        invariant
            grid.wf(),
            1 <= stride,
            y <= grid.height,
            forall|pr: NeighborPair|
                r@.contains(pr) <==> spec_pair_upto(*grid, stride as int, pr, y as int, 0, 0),
            forall|i: int, j: int| 0 <= i < j < r@.len() ==> r@[i] != r@[j],
        decreases grid.height - y,
    {
        let mut x: usize = 0;
        while x < grid.width
            invariant
                grid.wf(),
                1 <= stride,
                y < grid.height,
                x <= grid.width,
                forall|pr: NeighborPair|
                    r@.contains(pr) <==> spec_pair_upto(
                        *grid,
                        stride as int,
                        pr,
                        y as int,
                        x as int,
                        0,
                    ),
                forall|i: int, j: int| 0 <= i < j < r@.len() ==> r@[i] != r@[j],
            decreases grid.width - x,
        {
            if x % stride == 0 && y % stride == 0 {
                let mut d: usize = 0;
                while d < 2
                    invariant
                        grid.wf(),
                        1 <= stride,
                        y < grid.height,
                        x < grid.width,
                        x % stride == 0,
                        y % stride == 0,
                        d <= 2,
                        forall|pr: NeighborPair|
                            r@.contains(pr) <==> spec_pair_upto(
                                *grid,
                                stride as int,
                                pr,
                                y as int,
                                x as int,
                                d as int,
                            ),
                        forall|i: int, j: int| 0 <= i < j < r@.len() ==> r@[i] != r@[j],
                    decreases 2 - d,
                {
                    let ghost r0 = r@;
                    match probe(grid, stride, x, y, d) {
                        Some(pr) => {
                            if !contains_np(&r, pr) {
                                r.push(pr);
                            }
                            proof {
                                lemma_pair_upto_step(
                                    *grid,
                                    stride as int,
                                    y as int,
                                    x as int,
                                    d as int,
                                    pr,
                                );
                                assert forall|w: NeighborPair|
                                    r@.contains(w) <==> spec_pair_upto(
                                        *grid,
                                        stride as int,
                                        w,
                                        y as int,
                                        x as int,
                                        d + 1int,
                                    ) by {
                                    if r0.contains(pr) {
                                        assert(r@ == r0);
                                    } else {
                                        lemma_seq_contains_after_push(r0, pr, w);
                                    }
                                }
                            }
                        },
                        None => {
                            proof {
                                lemma_pair_upto_skip(
                                    *grid,
                                    stride as int,
                                    y as int,
                                    x as int,
                                    d as int,
                                );
                            }
                        },
                    }
                    d = d + 1;
                }
                proof {
                    lemma_pair_upto_cell_done(*grid, stride as int, y as int, x as int);
                }
            } else {
                proof {
                    lemma_pair_upto_unsampled(*grid, stride as int, y as int, x as int);
                }
            }
            x = x + 1;
        }
        proof {
            lemma_pair_upto_row_done(*grid, stride as int, y as int);
        }
        y = y + 1;
    }
    proof {
        assert forall|pr: NeighborPair| #[trigger]
            spec_pair_in_graph(*grid, stride as int, pr) implies spec_pair_upto(
            *grid,
            stride as int,
            pr,
            grid.height as int,
            0,
            0,
        ) by {
            let (x, y, d) = choose|x: int, y: int, d: int|
                {
                    &&& spec_sampled(x, y, stride as int, *grid)
                    &&& 0 <= d < 2
                    &&& spec_probe(*grid, stride as int, x, y, d) == Some(pr)
                };
            assert(spec_pair_upto(*grid, stride as int, pr, grid.height as int, 0, 0));
        }
        assert forall|pr: NeighborPair| #[trigger]
            spec_pair_upto(*grid, stride as int, pr, grid.height as int, 0, 0) implies
            spec_pair_in_graph(*grid, stride as int, pr) by {
            let (x, y, d) = choose|x: int, y: int, d: int|
                {
                    &&& spec_sampled(x, y, stride as int, *grid)
                    &&& 0 <= d < 2
                    &&& y < grid.height || (y == grid.height && (x < 0 || (x == 0 && d < 0)))
                    &&& spec_probe(*grid, stride as int, x, y, d) == Some(pr)
                };
            assert(spec_pair_in_graph(*grid, stride as int, pr));
        }
    }
    r
}

/// Probe `(y, x, d)` found `pr`: the pairs seen so far grow by `pr`.
proof fn lemma_pair_upto_step(g: Grid, stride: int, yy: int, xx: int, dd: int, pr: NeighborPair)
    requires
        spec_sampled(xx, yy, stride, g),
        0 <= dd < 2,
        spec_probe(g, stride, xx, yy, dd) == Some(pr),
    ensures
        forall|w: NeighborPair|
            spec_pair_upto(g, stride, w, yy, xx, dd + 1) <==> (spec_pair_upto(
                g,
                stride,
                w,
                yy,
                xx,
                dd,
            ) || w == pr),
{
    assert forall|w: NeighborPair| #[trigger]
        spec_pair_upto(g, stride, w, yy, xx, dd + 1) implies (spec_pair_upto(
        g,
        stride,
        w,
        yy,
        xx,
        dd,
    ) || w == pr) by {
        let (x, y, d) = choose|x: int, y: int, d: int|
            {
                &&& spec_sampled(x, y, stride, g)
                &&& 0 <= d < 2
                &&& y < yy || (y == yy && (x < xx || (x == xx && d < dd + 1)))
                &&& spec_probe(g, stride, x, y, d) == Some(w)
            };
        if y == yy && x == xx && d == dd {
            assert(w == pr);
        } else {
            assert(spec_pair_upto(g, stride, w, yy, xx, dd));
        }
    }
    assert forall|w: NeighborPair|
        spec_pair_upto(g, stride, w, yy, xx, dd) || w == pr implies #[trigger] spec_pair_upto(
        g,
        stride,
        w,
        yy,
        xx,
        dd + 1,
    ) by {
        if w == pr {
            assert(spec_pair_upto(g, stride, w, yy, xx, dd + 1));
        } else {
            let (x, y, d) = choose|x: int, y: int, d: int|
                {
                    &&& spec_sampled(x, y, stride, g)
                    &&& 0 <= d < 2
                    &&& y < yy || (y == yy && (x < xx || (x == xx && d < dd)))
                    &&& spec_probe(g, stride, x, y, d) == Some(w)
                };
            assert(spec_pair_upto(g, stride, w, yy, xx, dd + 1));
        }
    }
}

/// Probe `(y, x, d)` found nothing: the pairs seen so far are unchanged.
proof fn lemma_pair_upto_skip(g: Grid, stride: int, yy: int, xx: int, dd: int)
    requires
        0 <= dd < 2,
        spec_probe(g, stride, xx, yy, dd) is None,
    ensures
        forall|w: NeighborPair|
            spec_pair_upto(g, stride, w, yy, xx, dd + 1) <==> spec_pair_upto(
                g,
                stride,
                w,
                yy,
                xx,
                dd,
            ),
{
    assert forall|w: NeighborPair| #[trigger]
        spec_pair_upto(g, stride, w, yy, xx, dd + 1) implies spec_pair_upto(
        g,
        stride,
        w,
        yy,
        xx,
        dd,
    ) by {
        let (x, y, d) = choose|x: int, y: int, d: int|
            {
                &&& spec_sampled(x, y, stride, g)
                &&& 0 <= d < 2
                &&& y < yy || (y == yy && (x < xx || (x == xx && d < dd + 1)))
                &&& spec_probe(g, stride, x, y, d) == Some(w)
            };
        if y == yy && x == xx && d == dd {
            assert(false);
        } else {
            assert(spec_pair_upto(g, stride, w, yy, xx, dd));
        }
    }
    assert forall|w: NeighborPair| #[trigger]
        spec_pair_upto(g, stride, w, yy, xx, dd) implies spec_pair_upto(
        g,
        stride,
        w,
        yy,
        xx,
        dd + 1,
    ) by {
        let (x, y, d) = choose|x: int, y: int, d: int|
            {
                &&& spec_sampled(x, y, stride, g)
                &&& 0 <= d < 2
                &&& y < yy || (y == yy && (x < xx || (x == xx && d < dd)))
                &&& spec_probe(g, stride, x, y, d) == Some(w)
            };
        assert(spec_pair_upto(g, stride, w, yy, xx, dd + 1));
    }
}

/// Both probes of sample `(y, x)` done: same as standing on column `x+1`.
proof fn lemma_pair_upto_cell_done(g: Grid, stride: int, yy: int, xx: int)
    ensures
        forall|w: NeighborPair|
            spec_pair_upto(g, stride, w, yy, xx, 2) <==> spec_pair_upto(
                g,
                stride,
                w,
                yy,
                xx + 1,
                0,
            ),
{
    assert forall|w: NeighborPair| #[trigger]
        spec_pair_upto(g, stride, w, yy, xx, 2) implies spec_pair_upto(
        g,
        stride,
        w,
        yy,
        xx + 1,
        0,
    ) by {
        let (x, y, d) = choose|x: int, y: int, d: int|
            {
                &&& spec_sampled(x, y, stride, g)
                &&& 0 <= d < 2
                &&& y < yy || (y == yy && (x < xx || (x == xx && d < 2)))
                &&& spec_probe(g, stride, x, y, d) == Some(w)
            };
        assert(spec_pair_upto(g, stride, w, yy, xx + 1, 0));
    }
    assert forall|w: NeighborPair| #[trigger]
        spec_pair_upto(g, stride, w, yy, xx + 1, 0) implies spec_pair_upto(
        g,
        stride,
        w,
        yy,
        xx,
        2,
    ) by {
        let (x, y, d) = choose|x: int, y: int, d: int|
            {
                &&& spec_sampled(x, y, stride, g)
                &&& 0 <= d < 2
                &&& y < yy || (y == yy && x < xx + 1)
                &&& spec_probe(g, stride, x, y, d) == Some(w)
            };
        assert(spec_pair_upto(g, stride, w, yy, xx, 2));
    }
}

/// An unsampled column adds nothing.
proof fn lemma_pair_upto_unsampled(g: Grid, stride: int, yy: int, xx: int)
    requires
        !(xx % stride == 0 && yy % stride == 0),
    ensures
        forall|w: NeighborPair|
            spec_pair_upto(g, stride, w, yy, xx, 0) <==> spec_pair_upto(
                g,
                stride,
                w,
                yy,
                xx + 1,
                0,
            ),
{
    assert forall|w: NeighborPair| #[trigger]
        spec_pair_upto(g, stride, w, yy, xx + 1, 0) implies spec_pair_upto(
        g,
        stride,
        w,
        yy,
        xx,
        0,
    ) by {
        let (x, y, d) = choose|x: int, y: int, d: int|
            {
                &&& spec_sampled(x, y, stride, g)
                &&& 0 <= d < 2
                &&& y < yy || (y == yy && x < xx + 1)
                &&& spec_probe(g, stride, x, y, d) == Some(w)
            };
        assert(!(x == xx && y == yy));
        assert(spec_pair_upto(g, stride, w, yy, xx, 0));
    }
    assert forall|w: NeighborPair| #[trigger]
        spec_pair_upto(g, stride, w, yy, xx, 0) implies spec_pair_upto(
        g,
        stride,
        w,
        yy,
        xx + 1,
        0,
    ) by {
        let (x, y, d) = choose|x: int, y: int, d: int|
            {
                &&& spec_sampled(x, y, stride, g)
                &&& 0 <= d < 2
                &&& y < yy || (y == yy && x < xx)
                &&& spec_probe(g, stride, x, y, d) == Some(w)
            };
        assert(spec_pair_upto(g, stride, w, yy, xx + 1, 0));
    }
}

/// A finished row is the start of the next one.
proof fn lemma_pair_upto_row_done(g: Grid, stride: int, yy: int)
    ensures
        forall|w: NeighborPair|
            spec_pair_upto(g, stride, w, yy, g.width as int, 0) <==> spec_pair_upto(
                g,
                stride,
                w,
                yy + 1,
                0,
                0,
            ),
{
    assert forall|w: NeighborPair| #[trigger]
        spec_pair_upto(g, stride, w, yy, g.width as int, 0) implies spec_pair_upto(
        g,
        stride,
        w,
        yy + 1,
        0,
        0,
    ) by {
        let (x, y, d) = choose|x: int, y: int, d: int|
            {
                &&& spec_sampled(x, y, stride, g)
                &&& 0 <= d < 2
                &&& y < yy || (y == yy && (x < g.width || (x == g.width && d < 0)))
                &&& spec_probe(g, stride, x, y, d) == Some(w)
            };
        assert(spec_pair_upto(g, stride, w, yy + 1, 0, 0));
    }
    assert forall|w: NeighborPair| #[trigger]
        spec_pair_upto(g, stride, w, yy + 1, 0, 0) implies spec_pair_upto(
        g,
        stride,
        w,
        yy,
        g.width as int,
        0,
    ) by {
        let (x, y, d) = choose|x: int, y: int, d: int|
            {
                &&& spec_sampled(x, y, stride, g)
                &&& 0 <= d < 2
                &&& y < yy + 1
                &&& spec_probe(g, stride, x, y, d) == Some(w)
            };
        assert(x < g.width);
        assert(spec_pair_upto(g, stride, w, yy, g.width as int, 0));
    }
}

/// The territories adjacent to player `id` in the pair list, in order of
/// appearance: the other side of every pair that names the player.
pub open spec fn spec_neighbors_of(pairs: Seq<NeighborPair>, id: u32) -> Seq<MoveTarget>
    decreases pairs.len(),
{
    if pairs.len() == 0 {
        Seq::empty()
    } else {
        let rest = spec_neighbors_of(pairs.drop_last(), id);
        let pr = pairs.last();
        if pr.source == MoveTarget::Enemy(id) {
            rest.push(pr.target)
        } else if pr.target == MoveTarget::Enemy(id) {
            rest.push(pr.source)
        } else {
            rest
        }
    }
}

/// The neighbor-graph slice of one player: for every pair naming the
/// player, the other side, empty space included.
pub fn get_neighbors(neighbor_pairs: &Vec<NeighborPair>, player_id: u32) -> (r: Vec<MoveTarget>)
    ensures
        r@ == spec_neighbors_of(neighbor_pairs@, player_id),
{
    let mut r: Vec<MoveTarget> = Vec::new();
    let mut i: usize = 0;
    let len: usize = neighbor_pairs.len();
    while i < len
        invariant
            i <= len,
            len == neighbor_pairs@.len(),
            r@ == spec_neighbors_of(neighbor_pairs@.take(i as int), player_id),
        decreases len - i,
    {
        let pr: NeighborPair = neighbor_pairs[i];
        proof {
            assert(neighbor_pairs@.take(i + 1int).drop_last() =~= neighbor_pairs@.take(i as int));
            assert(neighbor_pairs@.take(i + 1int).last() == neighbor_pairs@[i as int]);
        }
        if pr.source == (MoveTarget::Enemy(player_id)) {
            r.push(pr.target);
        } else if pr.target == (MoveTarget::Enemy(player_id)) {
            r.push(pr.source);
        }
        i = i + 1;
    }
    proof {
        assert(neighbor_pairs@.take(len as int) =~= neighbor_pairs@);
    }
    r
}

} // verus!
