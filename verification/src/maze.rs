//! Maze generation by the recursive-backtracker algorithm.
//!
//! `Maze::generate` carves a rectangular grid of cells, each holding a
//! 4-bit mask of open passages, by a depth-first spanning-tree walk driven
//! by a fixed linear-congruential generator. The result is a perfect maze:
//! its open passages form a spanning tree of the grid.

use vstd::prelude::*;

verus! {

/// Passage bit toward the cell above (smaller y).
pub const NORTH: u8 = 0b0001;

/// Passage bit toward the cell below (larger y).
pub const SOUTH: u8 = 0b0010;

/// Passage bit toward the cell to the right (larger x).
pub const EAST: u8 = 0b0100;

/// Passage bit toward the cell to the left (smaller x).
pub const WEST: u8 = 0b1000;

/// Multiplier of the linear-congruential generator.
pub const LCG_MULTIPLIER: u64 = 6364136223846793005;

/// Increment of the linear-congruential generator.
pub const LCG_INCREMENT: u64 = 1442695040888963407;

/// A single maze cell storing which walls are open as a bitmask.
#[derive(Clone, Copy, Debug, PartialEq, Eq, Structural)]
pub struct Cell {
    pub passages: u8,
}

impl Cell {
    /// Returns true if the given direction is open.
    pub fn is_open(&self, direction: u8) -> (r: bool)
        ensures
            r == (self.passages & direction != 0),
    {
        self.passages & direction != 0
    }
}

impl Default for Cell {
    /// A cell with all four walls closed.
    fn default() -> (c: Cell)
        ensures
            c.passages == 0,
    {
        Cell { passages: 0 }
    }
}

/// Whether `d` is one of the four passage bits.
pub open spec fn is_dir(d: u8) -> bool {
    d == NORTH || d == SOUTH || d == EAST || d == WEST
}

/// The passage bit of the opposite direction.
pub open spec fn opposite(d: u8) -> u8 {
    if d == NORTH {
        SOUTH
    } else if d == SOUTH {
        NORTH
    } else if d == EAST {
        WEST
    } else {
        EAST
    }
}

/// The x coordinate of the neighbor one step in direction `d`.
pub open spec fn step_x(d: u8, x: int) -> int {
    if d == EAST {
        x + 1
    } else if d == WEST {
        x - 1
    } else {
        x
    }
}

/// The y coordinate of the neighbor one step in direction `d`.
pub open spec fn step_y(d: u8, y: int) -> int {
    if d == NORTH {
        y - 1
    } else if d == SOUTH {
        y + 1
    } else {
        y
    }
}

/// Whether `(x, y)` lies within a grid of the given dimensions.
pub open spec fn in_bounds(w: int, h: int, x: int, y: int) -> bool {
    0 <= x < w && 0 <= y < h
}

/// Row-major index of `(x, y)` in the flattened grid.
pub open spec fn grid_index(w: int, x: int, y: int) -> int {
    y * w + x
}

/// Simple linear-congruential pseudo-random number generator.
pub struct Rng(pub u64);

/// The generator's state after one advance.
#[verifier::opaque]
pub open spec fn rng_next(s: u64) -> u64 {
    vstd::wrapping::u64_specs::wrapping_add(
        vstd::wrapping::u64_specs::wrapping_mul(s, LCG_MULTIPLIER),
        LCG_INCREMENT,
    )
}

/// The index in `[0, max)` drawn from the advanced state's upper bits.
#[verifier::opaque]
pub open spec fn rng_pick(s: u64, max: int) -> int {
    ((rng_next(s) >> 33) as int) % max
}

/// The drawn index stays in `[0, max)`.
pub proof fn lemma_rng_pick_bounds(s: u64, max: int)
    requires
        max > 0,
    ensures
        0 <= rng_pick(s, max) < max,
{
    reveal(rng_pick);
}

impl Rng {
    /// Creates a new generator from the given seed.
    pub fn new(seed: u64) -> (r: Rng)
        ensures
            r.0 == seed,
    {
        Rng(seed)
    }

    /// Advances the state once and returns a pseudo-random index in
    /// `[0, max)` derived from the upper bits of the new state.
    pub fn next_usize(&mut self, max: usize) -> (r: usize)
        requires
            max > 0,
        ensures
            final(self).0 == rng_next(old(self).0),
            r == rng_pick(old(self).0, max as int),
            r < max,
    {
        proof {
            reveal(rng_next);
            reveal(rng_pick);
        }
        self.0 = self.0.wrapping_mul(LCG_MULTIPLIER).wrapping_add(LCG_INCREMENT);
        let advanced: u64 = self.0;
        let hi: u64 = advanced >> 33;
        proof {
            assert(advanced >> 33 < 0x8000_0000u64) by (bit_vector);
        }
        (hi as usize) % max
    }
}

/// A row-major grid index stays within the flattened grid.
pub proof fn lemma_grid_index_bounds(w: int, h: int, x: int, y: int)
    requires
        in_bounds(w, h, x, y),
    ensures
        0 <= grid_index(w, x, y) < w * h,
{
    assert(0 <= y * w + x < w * h) by (nonlinear_arith)
        requires
            0 <= x < w,
            0 <= y < h,
    ;
}

/// Distinct in-bounds coordinates have distinct row-major indices.
pub proof fn lemma_grid_index_injective(w: int, h: int, x1: int, y1: int, x2: int, y2: int)
    requires
        in_bounds(w, h, x1, y1),
        in_bounds(w, h, x2, y2),
        grid_index(w, x1, y1) == grid_index(w, x2, y2),
    ensures
        x1 == x2 && y1 == y2,
{
    assert(x1 == x2 && y1 == y2) by (nonlinear_arith)
        requires
            0 <= x1 < w,
            0 <= y1 < h,
            0 <= x2 < w,
            0 <= y2 < h,
            y1 * w + x1 == y2 * w + x2,
    ;
}

/// The unvisited grid-adjacent neighbors of `(x, y)`, enumerated in the
/// fixed order north, south, east, west. Each entry carries the neighbor's
/// coordinates, the direction bit from `(x, y)` toward it, and the
/// opposite bit.
#[verifier::opaque]
pub open spec fn spec_neighbors(w: int, h: int, visited: Seq<bool>, x: int, y: int) -> Seq<
    (usize, usize, u8, u8),
> {
    (if y > 0 && !visited[grid_index(w, x, y - 1)] {
        seq![((x as usize), ((y - 1) as usize), NORTH, SOUTH)]
    } else {
        Seq::empty()
    }) + (if y + 1 < h && !visited[grid_index(w, x, y + 1)] {
        seq![((x as usize), ((y + 1) as usize), SOUTH, NORTH)]
    } else {
        Seq::empty()
    }) + (if x + 1 < w && !visited[grid_index(w, x + 1, y)] {
        seq![(((x + 1) as usize), (y as usize), EAST, WEST)]
    } else {
        Seq::empty()
    }) + (if x > 0 && !visited[grid_index(w, x - 1, y)] {
        seq![(((x - 1) as usize), (y as usize), WEST, EAST)]
    } else {
        Seq::empty()
    })
}

/// Returns all unvisited neighbors of `(x, y)` with direction flags.
pub fn unvisited_neighbors(
    x: usize,
    y: usize,
    visited: &Vec<bool>,
    width: usize,
    height: usize,
) -> (r: Vec<(usize, usize, u8, u8)>)
    requires
        visited@.len() == width * height,
        x < width,
        y < height,
    ensures
        r@ == spec_neighbors(width as int, height as int, visited@, x as int, y as int),
{
    let mut neighbors: Vec<(usize, usize, u8, u8)> = Vec::new();
    let total: usize = visited.len();
    assert(width * height == total);
    proof {
        if y > 0 {
            lemma_grid_index_bounds(width as int, height as int, x as int, y - 1);
        }
        if y + 1 < height {
            lemma_grid_index_bounds(width as int, height as int, x as int, y + 1);
        }
        if x + 1 < width {
            lemma_grid_index_bounds(width as int, height as int, x + 1, y as int);
        }
        if x > 0 {
            lemma_grid_index_bounds(width as int, height as int, x - 1, y as int);
        }
        lemma_grid_index_bounds(width as int, height as int, x as int, y as int);
    }
    if y > 0 && !visited[(y - 1) * width + x] {
        neighbors.push((x, y - 1, NORTH, SOUTH));
    }
    if y + 1 < height && !visited[(y + 1) * width + x] {
        neighbors.push((x, y + 1, SOUTH, NORTH));
    }
    if x + 1 < width && !visited[y * width + x + 1] {
        neighbors.push((x + 1, y, EAST, WEST));
    }
    if x > 0 && !visited[y * width + x - 1] {
        neighbors.push((x - 1, y, WEST, EAST));
    }
    proof {
        reveal(spec_neighbors);
        assert(neighbors@ =~= spec_neighbors(
            width as int,
            height as int,
            visited@,
            x as int,
            y as int,
        ));
    }
    neighbors
}

/// Every entry of the neighbor enumeration is an in-bounds, unvisited
/// cell one step away, paired with the direction toward it and that
/// direction's opposite.
pub proof fn lemma_neighbors_entries(w: int, h: int, visited: Seq<bool>, x: int, y: int)
    requires
        in_bounds(w, h, x, y),
        visited.len() == w * h,
        w <= usize::MAX,
        h <= usize::MAX,
    ensures
        forall|k: int|
            0 <= k < spec_neighbors(w, h, visited, x, y).len() ==> {
                let e = #[trigger] spec_neighbors(w, h, visited, x, y)[k];
                &&& is_dir(e.2)
                &&& e.3 == opposite(e.2)
                &&& e.0 == step_x(e.2, x)
                &&& e.1 == step_y(e.2, y)
                &&& in_bounds(w, h, e.0 as int, e.1 as int)
                &&& !visited[grid_index(w, e.0 as int, e.1 as int)]
            },
{
    reveal(spec_neighbors);
    let ns = spec_neighbors(w, h, visited, x, y);
    let sn = (if y > 0 && !visited[grid_index(w, x, y - 1)] {
        seq![((x as usize), ((y - 1) as usize), NORTH, SOUTH)]
    } else {
        Seq::empty()
    });
    let ss = (if y + 1 < h && !visited[grid_index(w, x, y + 1)] {
        seq![((x as usize), ((y + 1) as usize), SOUTH, NORTH)]
    } else {
        Seq::empty()
    });
    let se = (if x + 1 < w && !visited[grid_index(w, x + 1, y)] {
        seq![(((x + 1) as usize), (y as usize), EAST, WEST)]
    } else {
        Seq::empty()
    });
    let sw = (if x > 0 && !visited[grid_index(w, x - 1, y)] {
        seq![(((x - 1) as usize), (y as usize), WEST, EAST)]
    } else {
        Seq::empty()
    });
    assert(ns == sn + ss + se + sw);
    assert forall|k: int| 0 <= k < ns.len() implies {
        let e = #[trigger] ns[k];
        &&& is_dir(e.2)
        &&& e.3 == opposite(e.2)
        &&& e.0 == step_x(e.2, x)
        &&& e.1 == step_y(e.2, y)
        &&& in_bounds(w, h, e.0 as int, e.1 as int)
        &&& !visited[grid_index(w, e.0 as int, e.1 as int)]
    } by {
        let e = ns[k];
        if k < sn.len() {
            assert(e == sn[k]);
        } else if k < sn.len() + ss.len() {
            assert(e == ss[k - sn.len()]);
        } else if k < sn.len() + ss.len() + se.len() {
            assert(e == se[k - sn.len() - ss.len()]);
        } else {
            assert(e == sw[k - sn.len() - ss.len() - se.len()]);
        }
    }
}

/// An empty neighbor enumeration means every in-bounds neighbor of
/// `(x, y)` is already visited.
pub proof fn lemma_neighbors_empty(w: int, h: int, visited: Seq<bool>, x: int, y: int)
    requires
        in_bounds(w, h, x, y),
        spec_neighbors(w, h, visited, x, y).len() == 0,
    ensures
        forall|d: u8|
            is_dir(d) && in_bounds(w, h, step_x(d, x), step_y(d, y)) ==> visited[#[trigger] grid_index(
                w,
                step_x(d, x),
                step_y(d, y),
            )],
{
    reveal(spec_neighbors);
    assert forall|d: u8|
        is_dir(d) && in_bounds(w, h, step_x(d, x), step_y(d, y)) implies visited[#[trigger] grid_index(
        w,
        step_x(d, x),
        step_y(d, y),
    )] by {
        if d == NORTH {
            assert(visited[grid_index(w, x, y - 1)]);
        } else if d == SOUTH {
            assert(visited[grid_index(w, x, y + 1)]);
        } else if d == EAST {
            assert(visited[grid_index(w, x + 1, y)]);
        } else {
            assert(visited[grid_index(w, x - 1, y)]);
        }
    }
}

/// How many cells of the grid are still unvisited.
pub open spec fn unvisited_count(v: Seq<bool>) -> nat
    decreases v.len(),
{
    if v.len() == 0 {
        0
    } else {
        unvisited_count(v.drop_last()) + (if v.last() {
            0nat
        } else {
            1nat
        })
    }
}

/// Marking one unvisited cell visited lowers the unvisited count by one.
pub proof fn lemma_unvisited_update(v: Seq<bool>, i: int)
    requires
        0 <= i < v.len(),
        !v[i],
    ensures
        unvisited_count(v) == unvisited_count(v.update(i, true)) + 1,
    decreases v.len(),
{
    let u = v.update(i, true);
    if i == v.len() - 1 {
        assert(u.drop_last() =~= v.drop_last());
    } else {
        assert(u.drop_last() =~= v.drop_last().update(i, true));
        lemma_unvisited_update(v.drop_last(), i);
    }
}

/// A fully visited grid has no unvisited cell.
pub proof fn lemma_unvisited_none(v: Seq<bool>)
    requires
        forall|i: int| 0 <= i < v.len() ==> v[i],
    ensures
        unvisited_count(v) == 0,
    decreases v.len(),
{
    if v.len() > 0 {
        lemma_unvisited_none(v.drop_last());
    }
}

/// The unvisited count of a visited map whose origin alone is visited:
/// every cell but the origin.
pub proof fn lemma_unvisited_init(v: Seq<bool>)
    requires
        v.len() >= 1,
        v[0],
        forall|i: int| 1 <= i < v.len() ==> !v[i],
    ensures
        unvisited_count(v) == v.len() - 1,
    decreases v.len(),
{
    if v.len() > 1 {
        assert(!v.last());
        lemma_unvisited_init(v.drop_last());
        assert(unvisited_count(v) == unvisited_count(v.drop_last()) + 1);
    } else {
        assert(v.last());
        assert(unvisited_count(v) == unvisited_count(v.drop_last()));
        assert(unvisited_count(v.drop_last()) == 0);
    }
}

/// How many of the counted passage bits (east and south) a mask holds.
/// Each open passage pair is counted exactly once over the grid: a
/// horizontal pair by its west cell's east bit, a vertical pair by its
/// north cell's south bit.
pub open spec fn es_count(m: u8) -> int {
    (if m & EAST != 0 {
        1int
    } else {
        0int
    }) + (if m & SOUTH != 0 {
        1int
    } else {
        0int
    })
}

/// Total number of open passage pairs in the grid.
pub open spec fn pair_count(cells: Seq<Cell>) -> int
    decreases cells.len(),
{
    if cells.len() == 0 {
        0
    } else {
        pair_count(cells.drop_last()) + es_count(cells.last().passages)
    }
}

/// Replacing one cell changes the pair count by the difference of the
/// counted bits.
pub proof fn lemma_pair_count_update(cells: Seq<Cell>, i: int, c: Cell)
    requires
        0 <= i < cells.len(),
    ensures
        pair_count(cells.update(i, c)) == pair_count(cells) - es_count(cells[i].passages)
            + es_count(c.passages),
    decreases cells.len(),
{
    let u = cells.update(i, c);
    if i == cells.len() - 1 {
        assert(u.drop_last() =~= cells.drop_last());
    } else {
        assert(u.drop_last() =~= cells.drop_last().update(i, c));
        lemma_pair_count_update(cells.drop_last(), i, c);
    }
}

/// A grid of fully closed cells has no open passage pair.
pub proof fn lemma_pair_count_zero(cells: Seq<Cell>)
    requires
        forall|i: int| 0 <= i < cells.len() ==> (#[trigger] cells[i]).passages == 0,
    ensures
        pair_count(cells) == 0,
    decreases cells.len(),
{
    if cells.len() > 0 {
        lemma_mask_zero(EAST);
        lemma_mask_zero(SOUTH);
        lemma_pair_count_zero(cells.drop_last());
    }
}

/// Setting one direction bit: the combined mask has a direction open
/// exactly when the old mask had it open or it is the bit just set.
pub proof fn lemma_mask_or(m: u8, d: u8, e: u8)
    requires
        is_dir(d),
        is_dir(e),
    ensures
        ((m | d) & e != 0) == ((m & e != 0) || d == e),
{
    assert(((m | d) & e != 0) == ((m & e != 0) || d == e)) by (bit_vector)
        requires
            d == 1 || d == 2 || d == 4 || d == 8,
            e == 1 || e == 2 || e == 4 || e == 8,
    ;
}

/// A closed mask has no direction open.
pub proof fn lemma_mask_zero(e: u8)
    ensures
        (0u8 & e) == 0,
{
    assert((0u8 & e) == 0) by (bit_vector);
}

/// The whole state of the generation walk: the grid carved so far, the
/// visited map, the depth-first stack, and the random generator's state.
pub ghost struct GenState {
    pub cells: Seq<Cell>,
    pub visited: Seq<bool>,
    pub stack: Seq<(usize, usize)>,
    pub rng: u64,
}

/// Shape of a generation state over a `w` by `h` grid.
pub open spec fn gen_wf(w: int, h: int, s: GenState) -> bool {
    &&& 1 <= w && 1 <= h
    &&& s.cells.len() == w * h
    &&& s.visited.len() == w * h
    &&& forall|i: int|
        0 <= i < s.stack.len() ==> in_bounds(
            w,
            h,
            (#[trigger] s.stack[i]).0 as int,
            s.stack[i].1 as int,
        )
}

/// Termination measure of the walk: every iteration either visits a new
/// cell (pushing once) or pops.
pub open spec fn gen_measure(s: GenState) -> int {
    2 * (unvisited_count(s.visited) as int) + s.stack.len()
}

/// One iteration of the walk, on a state with a non-empty stack: if the
/// top cell has no unvisited neighbor, pop it; otherwise pick one of its
/// unvisited neighbors with the random generator, open the passage between
/// the two cells in both masks, mark the neighbor visited and push it.
pub open spec fn gen_step(w: int, h: int, s: GenState) -> GenState
    recommends
        s.stack.len() > 0,
{
    let top = s.stack.last();
    let ns = spec_neighbors(w, h, s.visited, top.0 as int, top.1 as int);
    if ns.len() == 0 {
        GenState { cells: s.cells, visited: s.visited, stack: s.stack.drop_last(), rng: s.rng }
    } else {
        let e = ns[rng_pick(s.rng, ns.len() as int)];
        let ci = grid_index(w, top.0 as int, top.1 as int);
        let ni = grid_index(w, e.0 as int, e.1 as int);
        let carved = s.cells.update(ci, Cell { passages: s.cells[ci].passages | e.2 });
        GenState {
            cells: carved.update(ni, Cell { passages: carved[ni].passages | e.3 }),
            visited: s.visited.update(ni, true),
            stack: s.stack.push((e.0, e.1)),
            rng: rng_next(s.rng),
        }
    }
}

/// The walk's state keeps its shape across one iteration, and the
/// termination measure strictly drops: popping shortens the stack, and
/// choosing a neighbor trades one unvisited cell for one stack entry.
pub proof fn lemma_step_wf_measure(w: int, h: int, s: GenState)
    requires
        gen_wf(w, h, s),
        s.stack.len() > 0,
        w * h <= usize::MAX,
    ensures
        gen_wf(w, h, gen_step(w, h, s)),
        gen_measure(gen_step(w, h, s)) < gen_measure(s),
{
    assert(w <= w * h && h <= w * h) by (nonlinear_arith)
        requires
            1 <= w,
            1 <= h,
    ;
    let top = s.stack.last();
    assert(top == s.stack[s.stack.len() - 1]);
    assert(in_bounds(w, h, top.0 as int, top.1 as int));
    let ns = spec_neighbors(w, h, s.visited, top.0 as int, top.1 as int);
    let s2 = gen_step(w, h, s);
    if ns.len() == 0 {
        assert(s2.visited == s.visited && s2.cells == s.cells);
        assert(s2.stack == s.stack.drop_last());
        assert(gen_measure(s2) < gen_measure(s));
        assert forall|i: int| 0 <= i < s2.stack.len() implies in_bounds(
            w,
            h,
            (#[trigger] s2.stack[i]).0 as int,
            s2.stack[i].1 as int,
        ) by {
            assert(s2.stack[i] == s.stack[i]);
        }
        assert(s2.cells.len() == w * h);
        assert(s2.visited.len() == w * h);
        assert(gen_wf(w, h, s2));
    } else {
        lemma_neighbors_entries(w, h, s.visited, top.0 as int, top.1 as int);
        let k = rng_pick(s.rng, ns.len() as int);
        lemma_rng_pick_bounds(s.rng, ns.len() as int);
        assert(0 <= k < ns.len());
        let e = ns[k];
        assert(in_bounds(w, h, e.0 as int, e.1 as int));
        let ni = grid_index(w, e.0 as int, e.1 as int);
        lemma_grid_index_bounds(w, h, e.0 as int, e.1 as int);
        lemma_grid_index_bounds(w, h, top.0 as int, top.1 as int);
        assert(s2.visited == s.visited.update(ni, true));
        lemma_unvisited_update(s.visited, ni);
        assert(unvisited_count(s2.visited) + 1 == unvisited_count(s.visited));
        assert(s2.stack == s.stack.push((e.0, e.1)));
        assert(gen_measure(s2) < gen_measure(s));
        assert forall|i: int| 0 <= i < s2.stack.len() implies in_bounds(
            w,
            h,
            (#[trigger] s2.stack[i]).0 as int,
            s2.stack[i].1 as int,
        ) by {
            if i < s.stack.len() {
                assert(s2.stack[i] == s.stack[i]);
            } else {
                assert(s2.stack[i] == (e.0, e.1));
            }
        }
        assert(s2.cells.len() == w * h);
        assert(s2.visited.len() == w * h);
        assert(gen_wf(w, h, s2));
    }
}

/// The generation walk run to completion: iterate `gen_step` until the
/// stack is empty.
pub open spec fn gen_run(w: int, h: int, s: GenState) -> GenState
    decreases gen_measure(s),
        when gen_wf(w, h, s) && w * h <= usize::MAX
    via gen_run_decreases
{
    if s.stack.len() == 0 {
        s
    } else {
        gen_run(w, h, gen_step(w, h, s))
    }
}

#[via_fn]
proof fn gen_run_decreases(w: int, h: int, s: GenState) {
    if s.stack.len() > 0 {
        lemma_step_wf_measure(w, h, s);
    }
}

/// The state the walk starts from: a fully closed grid, the origin alone
/// visited and on the stack, the generator holding the seed.
pub open spec fn gen_init(w: int, h: int, seed: u64) -> GenState {
    GenState {
        cells: Seq::new((w * h) as nat, |i: int| Cell { passages: 0 }),
        visited: Seq::new((w * h) as nat, |i: int| i == 0),
        stack: seq![(0usize, 0usize)],
        rng: seed,
    }
}

/// The grid that generation produces from the given seed and dimensions.
pub open spec fn spec_generate(seed: u64, w: int, h: int) -> Seq<Cell> {
    gen_run(w, h, gen_init(w, h, seed)).cells
}

/// Whether the cell at `(x, y)` has the passage bit `d` open.
pub open spec fn open_at(w: int, cells: Seq<Cell>, x: int, y: int, d: u8) -> bool {
    cells[grid_index(w, x, y)].passages & d != 0
}

/// Whether `(x, y)` can be reached from the origin within `n` steps
/// through open passages.
pub open spec fn reach_n(w: int, h: int, cells: Seq<Cell>, x: int, y: int, n: nat) -> bool
    decreases n,
{
    (x == 0 && y == 0) || (n > 0 && exists|d: u8|
        {
            &&& #[trigger] is_dir(d)
            &&& in_bounds(w, h, step_x(d, x), step_y(d, y))
            &&& open_at(w, cells, step_x(d, x), step_y(d, y), opposite(d))
            &&& reach_n(w, h, cells, step_x(d, x), step_y(d, y), (n - 1) as nat)
        })
}

/// Whether `(x, y)` can be reached from the origin through open passages.
pub open spec fn reachable(w: int, h: int, cells: Seq<Cell>, x: int, y: int) -> bool {
    exists|n: nat| reach_n(w, h, cells, x, y, n)
}

/// Every passage of `c1` is open in `c2` as well.
pub open spec fn opens_le(w: int, h: int, c1: Seq<Cell>, c2: Seq<Cell>) -> bool {
    forall|x: int, y: int, d: u8|
        in_bounds(w, h, x, y) && is_dir(d) && #[trigger] open_at(w, c1, x, y, d) ==> open_at(
            w,
            c2,
            x,
            y,
            d,
        )
}

/// Opening further passages never breaks an existing route to the origin.
pub proof fn lemma_reach_monotonic(
    w: int,
    h: int,
    c1: Seq<Cell>,
    c2: Seq<Cell>,
    x: int,
    y: int,
    n: nat,
)
    requires
        opens_le(w, h, c1, c2),
        reach_n(w, h, c1, x, y, n),
    ensures
        reach_n(w, h, c2, x, y, n),
    decreases n,
{
    if !(x == 0 && y == 0) {
        let d = choose|d: u8|
            {
                &&& #[trigger] is_dir(d)
                &&& in_bounds(w, h, step_x(d, x), step_y(d, y))
                &&& open_at(w, c1, step_x(d, x), step_y(d, y), opposite(d))
                &&& reach_n(w, h, c1, step_x(d, x), step_y(d, y), (n - 1) as nat)
            };
        lemma_reach_monotonic(w, h, c1, c2, step_x(d, x), step_y(d, y), (n - 1) as nat);
        assert(is_dir(opposite(d)));
        assert(open_at(w, c2, step_x(d, x), step_y(d, y), opposite(d)));
        assert(reach_n(w, h, c2, x, y, n));
    }
}

/// Whether an open passage joins `a` to the adjacent cell `b`.
pub open spec fn passage_between(
    w: int,
    h: int,
    cells: Seq<Cell>,
    a: (int, int),
    b: (int, int),
) -> bool {
    &&& in_bounds(w, h, a.0, a.1)
    &&& in_bounds(w, h, b.0, b.1)
    &&& exists|d: u8|
        {
            &&& #[trigger] is_dir(d)
            &&& b == (step_x(d, a.0), step_y(d, a.1))
            &&& open_at(w, cells, a.0, a.1, d)
        }
}

/// The successor of position `i` on a closed walk of length `len`.
pub open spec fn cycle_next(i: int, len: int) -> int {
    if i + 1 == len {
        0
    } else {
        i + 1
    }
}

/// A simple cycle among open passages: at least three distinct cells,
/// consecutive ones (the last and first included) joined by open
/// passages.
pub open spec fn is_cycle(w: int, h: int, cells: Seq<Cell>, p: Seq<(int, int)>) -> bool {
    &&& p.len() >= 3
    &&& forall|i: int|
        0 <= i < p.len() ==> passage_between(w, h, cells, #[trigger] p[i], p[
            cycle_next(i, p.len() as int)
        ])
    &&& forall|i: int, j: int| 0 <= i < j < p.len() ==> #[trigger] p[i] != #[trigger] p[j]
}

/// No simple cycle exists among the open passages.
pub open spec fn acyclic(w: int, h: int, cells: Seq<Cell>) -> bool {
    forall|p: Seq<(int, int)>| !is_cycle(w, h, cells, p)
}

/// A fully closed grid has no cycle: it has no passage at all.
pub proof fn lemma_acyclic_closed(w: int, h: int, cells: Seq<Cell>)
    requires
        forall|i: int| 0 <= i < cells.len() ==> (#[trigger] cells[i]).passages == 0,
        cells.len() == w * h,
    ensures
        acyclic(w, h, cells),
{
    assert forall|p: Seq<(int, int)>| !is_cycle(w, h, cells, p) by {
        if is_cycle(w, h, cells, p) {
            assert(passage_between(w, h, cells, p[0], p[cycle_next(0, p.len() as int)]));
            let d = choose|d: u8|
                {
                    &&& #[trigger] is_dir(d)
                    &&& p[cycle_next(0, p.len() as int)] == (step_x(d, p[0].0), step_y(d, p[0].1))
                    &&& open_at(w, cells, p[0].0, p[0].1, d)
                };
            lemma_grid_index_bounds(w, h, p[0].0, p[0].1);
            lemma_mask_zero(d);
        }
    }
}

/// Whether some stack entry holds the coordinates `(x, y)`.
pub open spec fn on_stack(stack: Seq<(usize, usize)>, x: int, y: int) -> bool {
    exists|i: int| 0 <= i < stack.len() && (#[trigger] stack[i]).0 == x && stack[i].1 == y
}

/// Stack entries denote distinct visited cells.
pub open spec fn inv_stack(w: int, h: int, visited: Seq<bool>, stack: Seq<(usize, usize)>) -> bool {
    &&& forall|i: int|
        0 <= i < stack.len() ==> visited[grid_index(
            w,
            (#[trigger] stack[i]).0 as int,
            stack[i].1 as int,
        )]
    &&& forall|i: int, j: int|
        0 <= i < j < stack.len() ==> #[trigger] stack[i] != #[trigger] stack[j]
}

/// Every open passage bit has its mirror: the neighbor it points at has
/// the opposite bit open.
pub open spec fn inv_sym(w: int, h: int, cells: Seq<Cell>) -> bool {
    forall|x: int, y: int, d: u8|
        in_bounds(w, h, x, y) && is_dir(d) && #[trigger] open_at(w, cells, x, y, d) ==> in_bounds(
            w,
            h,
            step_x(d, x),
            step_y(d, y),
        ) && open_at(w, cells, step_x(d, x), step_y(d, y), opposite(d))
}

/// Every open passage bit points at an in-bounds visited cell.
pub open spec fn inv_bits(w: int, h: int, cells: Seq<Cell>, visited: Seq<bool>) -> bool {
    forall|x: int, y: int, d: u8|
        in_bounds(w, h, x, y) && is_dir(d) && #[trigger] open_at(w, cells, x, y, d) ==> in_bounds(
            w,
            h,
            step_x(d, x),
            step_y(d, y),
        ) && visited[grid_index(w, step_x(d, x), step_y(d, y))]
}

/// Unvisited cells are still fully closed.
pub open spec fn inv_unvisited_zero(w: int, h: int, cells: Seq<Cell>, visited: Seq<bool>) -> bool {
    forall|x: int, y: int|
        in_bounds(w, h, x, y) && !visited[#[trigger] grid_index(w, x, y)] ==> cells[grid_index(
            w,
            x,
            y,
        )].passages == 0
}

/// A visited cell that is no longer on the stack has all of its in-bounds
/// neighbors visited: the walk only leaves a cell for good once nothing
/// around it remains to visit.
pub open spec fn inv_closure(
    w: int,
    h: int,
    visited: Seq<bool>,
    stack: Seq<(usize, usize)>,
) -> bool {
    forall|x: int, y: int|
        in_bounds(w, h, x, y) && visited[#[trigger] grid_index(w, x, y)] && !on_stack(stack, x, y)
            ==> (forall|d: u8|
            is_dir(d) && in_bounds(w, h, step_x(d, x), step_y(d, y)) ==> visited[#[trigger] grid_index(
                w,
                step_x(d, x),
                step_y(d, y),
            )])
}

/// The number of open passage pairs is one less than the number of
/// visited cells.
pub open spec fn inv_count(w: int, h: int, cells: Seq<Cell>, visited: Seq<bool>) -> bool {
    pair_count(cells) == w * h - unvisited_count(visited) - 1
}

/// Every visited cell is connected to the origin through open passages.
pub open spec fn inv_reach(w: int, h: int, cells: Seq<Cell>, visited: Seq<bool>) -> bool {
    forall|x: int, y: int|
        in_bounds(w, h, x, y) && visited[#[trigger] grid_index(w, x, y)] ==> reachable(
            w,
            h,
            cells,
            x,
            y,
        )
}

/// Everything the walk maintains from start to finish.
pub open spec fn gen_inv(w: int, h: int, s: GenState) -> bool {
    &&& gen_wf(w, h, s)
    &&& w * h <= usize::MAX
    &&& s.visited[0]
    &&& inv_stack(w, h, s.visited, s.stack)
    &&& inv_sym(w, h, s.cells)
    &&& inv_bits(w, h, s.cells, s.visited)
    &&& inv_unvisited_zero(w, h, s.cells, s.visited)
    &&& inv_closure(w, h, s.visited, s.stack)
    &&& inv_count(w, h, s.cells, s.visited)
    &&& inv_reach(w, h, s.cells, s.visited)
    &&& acyclic(w, h, s.cells)
}

/// Opening the passage between a visited cell and an unvisited in-bounds
/// neighbor keeps every grid invariant and visits the neighbor.
pub proof fn lemma_carve_inv(
    w: int,
    h: int,
    cells: Seq<Cell>,
    visited: Seq<bool>,
    x: int,
    y: int,
    d: u8,
)
    requires
        1 <= w,
        1 <= h,
        cells.len() == w * h,
        visited.len() == w * h,
        in_bounds(w, h, x, y),
        is_dir(d),
        in_bounds(w, h, step_x(d, x), step_y(d, y)),
        visited[grid_index(w, x, y)],
        !visited[grid_index(w, step_x(d, x), step_y(d, y))],
        inv_sym(w, h, cells),
        inv_bits(w, h, cells, visited),
        inv_unvisited_zero(w, h, cells, visited),
        inv_count(w, h, cells, visited),
        inv_reach(w, h, cells, visited),
    ensures
        ({
            let ci = grid_index(w, x, y);
            let ni = grid_index(w, step_x(d, x), step_y(d, y));
            let c1 = cells.update(ci, Cell { passages: cells[ci].passages | d });
            let cells2 = c1.update(ni, Cell { passages: c1[ni].passages | opposite(d) });
            let visited2 = visited.update(ni, true);
            &&& opens_le(w, h, cells, cells2)
            &&& inv_sym(w, h, cells2)
            &&& inv_bits(w, h, cells2, visited2)
            &&& inv_unvisited_zero(w, h, cells2, visited2)
            &&& inv_count(w, h, cells2, visited2)
            &&& inv_reach(w, h, cells2, visited2)
        }),
{
    let nx = step_x(d, x);
    let ny = step_y(d, y);
    let od = opposite(d);
    let ci = grid_index(w, x, y);
    let ni = grid_index(w, nx, ny);
    lemma_grid_index_bounds(w, h, x, y);
    lemma_grid_index_bounds(w, h, nx, ny);
    assert(ci != ni);
    let c1 = cells.update(ci, Cell { passages: cells[ci].passages | d });
    let cells2 = c1.update(ni, Cell { passages: c1[ni].passages | od });
    let visited2 = visited.update(ni, true);
    assert(is_dir(od) && opposite(od) == d && step_x(od, nx) == x && step_y(od, ny) == y);
    assert(cells[ni].passages == 0);
    assert(cells2[ci].passages == cells[ci].passages | d);
    assert(cells2[ni].passages == 0u8 | od);
    assert(forall|i: int|
        0 <= i < cells.len() && i != ci && i != ni ==> #[trigger] cells2[i] == cells[i]);
    // the passage toward the unvisited neighbor was still closed
    assert(!open_at(w, cells, x, y, d));
    // every old passage stays open
    assert forall|x2: int, y2: int, e: u8|
        in_bounds(w, h, x2, y2) && is_dir(e) && #[trigger] open_at(w, cells, x2, y2, e)
            implies open_at(w, cells2, x2, y2, e) by {
        let gi = grid_index(w, x2, y2);
        lemma_grid_index_bounds(w, h, x2, y2);
        if gi == ci {
            lemma_mask_or(cells[ci].passages, d, e);
        } else if gi == ni {
            lemma_mask_zero(e);
        }
    }
    assert(opens_le(w, h, cells, cells2));
    // symmetry
    assert forall|x2: int, y2: int, e: u8|
        in_bounds(w, h, x2, y2) && is_dir(e) && #[trigger] open_at(w, cells2, x2, y2, e)
            implies in_bounds(w, h, step_x(e, x2), step_y(e, y2)) && open_at(
        w,
        cells2,
        step_x(e, x2),
        step_y(e, y2),
        opposite(e),
    ) by {
        let gi = grid_index(w, x2, y2);
        lemma_grid_index_bounds(w, h, x2, y2);
        if gi == ci {
            lemma_grid_index_injective(w, h, x2, y2, x, y);
            lemma_mask_or(cells[ci].passages, d, e);
            if e == d {
                lemma_mask_or(0u8, od, od);
                assert(open_at(w, cells2, nx, ny, od));
            } else {
                assert(open_at(w, cells, x2, y2, e));
            }
        } else if gi == ni {
            lemma_grid_index_injective(w, h, x2, y2, nx, ny);
            lemma_mask_zero(e);
            lemma_mask_or(0u8, od, e);
            assert(e == od);
            lemma_mask_or(cells[ci].passages, d, d);
            assert(open_at(w, cells2, x, y, d));
        } else {
            assert(open_at(w, cells, x2, y2, e));
        }
    }
    assert(inv_sym(w, h, cells2));
    // open bits keep pointing at visited cells
    assert forall|x2: int, y2: int, e: u8|
        in_bounds(w, h, x2, y2) && is_dir(e) && #[trigger] open_at(w, cells2, x2, y2, e)
            implies in_bounds(w, h, step_x(e, x2), step_y(e, y2)) && visited2[grid_index(
        w,
        step_x(e, x2),
        step_y(e, y2),
    )] by {
        let gi = grid_index(w, x2, y2);
        lemma_grid_index_bounds(w, h, x2, y2);
        if gi == ci {
            lemma_grid_index_injective(w, h, x2, y2, x, y);
            lemma_mask_or(cells[ci].passages, d, e);
            if e == d {
                assert(visited2[ni]);
            } else {
                assert(open_at(w, cells, x2, y2, e));
                lemma_grid_index_bounds(w, h, step_x(e, x2), step_y(e, y2));
            }
        } else if gi == ni {
            lemma_grid_index_injective(w, h, x2, y2, nx, ny);
            lemma_mask_zero(e);
            lemma_mask_or(0u8, od, e);
            assert(e == od);
            assert(visited2[ci] == visited[ci]);
        } else {
            assert(open_at(w, cells, x2, y2, e));
            lemma_grid_index_bounds(w, h, step_x(e, x2), step_y(e, y2));
        }
    }
    assert(inv_bits(w, h, cells2, visited2));
    // unvisited cells stay closed
    assert forall|x2: int, y2: int|
        in_bounds(w, h, x2, y2) && !visited2[#[trigger] grid_index(w, x2, y2)]
            implies cells2[grid_index(w, x2, y2)].passages == 0 by {
        let gi = grid_index(w, x2, y2);
        lemma_grid_index_bounds(w, h, x2, y2);
        assert(gi != ni && gi != ci);
    }
    assert(inv_unvisited_zero(w, h, cells2, visited2));
    // the pair count grows by exactly one
    lemma_pair_count_update(cells, ci, Cell { passages: cells[ci].passages | d });
    lemma_pair_count_update(c1, ni, Cell { passages: c1[ni].passages | od });
    lemma_mask_or(cells[ci].passages, d, EAST);
    lemma_mask_or(cells[ci].passages, d, SOUTH);
    lemma_mask_zero(EAST);
    lemma_mask_zero(SOUTH);
    lemma_mask_or(0u8, od, EAST);
    lemma_mask_or(0u8, od, SOUTH);
    assert(es_count(cells2[ci].passages) + es_count(cells2[ni].passages) == es_count(
        cells[ci].passages,
    ) + es_count(cells[ni].passages) + 1);
    lemma_unvisited_update(visited, ni);
    assert(pair_count(cells2) == pair_count(cells) + 1);
    assert(inv_count(w, h, cells2, visited2));
    // every visited cell, the fresh neighbor included, reaches the origin
    assert forall|x2: int, y2: int|
        in_bounds(w, h, x2, y2) && visited2[#[trigger] grid_index(w, x2, y2)]
            implies reachable(w, h, cells2, x2, y2) by {
        let gi = grid_index(w, x2, y2);
        lemma_grid_index_bounds(w, h, x2, y2);
        if gi == ni {
            lemma_grid_index_injective(w, h, x2, y2, nx, ny);
            assert(reachable(w, h, cells, x, y));
            let n = choose|n: nat| reach_n(w, h, cells, x, y, n);
            lemma_reach_monotonic(w, h, cells, cells2, x, y, n);
            lemma_mask_or(cells[ci].passages, d, d);
            assert(open_at(w, cells2, x, y, d));
            assert(is_dir(od) && in_bounds(w, h, step_x(od, nx), step_y(od, ny)) && open_at(
                w,
                cells2,
                step_x(od, nx),
                step_y(od, ny),
                opposite(od),
            ) && reach_n(w, h, cells2, step_x(od, nx), step_y(od, ny), n));
            assert(reach_n(w, h, cells2, nx, ny, n + 1));
            assert(reachable(w, h, cells2, x2, y2));
        } else {
            assert(visited[gi]);
            assert(reachable(w, h, cells, x2, y2));
            let n = choose|n: nat| reach_n(w, h, cells, x2, y2, n);
            lemma_reach_monotonic(w, h, cells, cells2, x2, y2, n);
            assert(reachable(w, h, cells2, x2, y2));
        }
    }
    assert(inv_reach(w, h, cells2, visited2));
}

/// Opening a passage toward a cell that had none keeps the grid
/// acyclic: a simple cycle would have to pass through that cell twice
/// over its single passage.
pub proof fn lemma_carve_acyclic(
    w: int,
    h: int,
    cells: Seq<Cell>,
    visited: Seq<bool>,
    x: int,
    y: int,
    d: u8,
)
    requires
        1 <= w,
        1 <= h,
        cells.len() == w * h,
        visited.len() == w * h,
        in_bounds(w, h, x, y),
        is_dir(d),
        in_bounds(w, h, step_x(d, x), step_y(d, y)),
        visited[grid_index(w, x, y)],
        !visited[grid_index(w, step_x(d, x), step_y(d, y))],
        cells[grid_index(w, step_x(d, x), step_y(d, y))].passages == 0,
        inv_bits(w, h, cells, visited),
        acyclic(w, h, cells),
    ensures
        ({
            let ci = grid_index(w, x, y);
            let ni = grid_index(w, step_x(d, x), step_y(d, y));
            let c1 = cells.update(ci, Cell { passages: cells[ci].passages | d });
            let cells2 = c1.update(ni, Cell { passages: c1[ni].passages | opposite(d) });
            acyclic(w, h, cells2)
        }),
{
    let nx = step_x(d, x);
    let ny = step_y(d, y);
    let od = opposite(d);
    let ci = grid_index(w, x, y);
    let ni = grid_index(w, nx, ny);
    lemma_grid_index_bounds(w, h, x, y);
    lemma_grid_index_bounds(w, h, nx, ny);
    assert(ci != ni);
    let c1 = cells.update(ci, Cell { passages: cells[ci].passages | d });
    let cells2 = c1.update(ni, Cell { passages: c1[ni].passages | od });
    assert(cells2[ni].passages == 0u8 | od);
    assert(cells2[ci].passages == cells[ci].passages | d);
    assert(is_dir(od) && opposite(od) == d && step_x(od, nx) == x && step_y(od, ny) == y);
    assert forall|p: Seq<(int, int)>| !is_cycle(w, h, cells2, p) by {
        if is_cycle(w, h, cells2, p) {
            let len = p.len() as int;
            if exists|i: int| 0 <= i < len && #[trigger] p[i] == (nx, ny) {
                let i = choose|i: int| 0 <= i < len && #[trigger] p[i] == (nx, ny);
                let ip = if i == 0 {
                    len - 1
                } else {
                    i - 1
                };
                let inx = cycle_next(i, len);
                assert(cycle_next(ip, len) == i);
                assert(ip != i && inx != i && ip != inx);
                // the one passage out of the fresh cell leads to (x, y)
                assert(passage_between(w, h, cells2, p[i], p[inx]));
                let d1 = choose|d1: u8|
                    {
                        &&& #[trigger] is_dir(d1)
                        &&& p[inx] == (step_x(d1, nx), step_y(d1, ny))
                        &&& open_at(w, cells2, nx, ny, d1)
                    };
                lemma_mask_zero(d1);
                lemma_mask_or(0u8, od, d1);
                assert(d1 == od);
                assert(p[inx] == (x, y));
                // the passage into the fresh cell comes from (x, y) too
                assert(passage_between(w, h, cells2, p[ip], p[i]));
                let d2 = choose|d2: u8|
                    {
                        &&& #[trigger] is_dir(d2)
                        &&& p[i] == (step_x(d2, p[ip].0), step_y(d2, p[ip].1))
                        &&& open_at(w, cells2, p[ip].0, p[ip].1, d2)
                    };
                let gip = grid_index(w, p[ip].0, p[ip].1);
                lemma_grid_index_bounds(w, h, p[ip].0, p[ip].1);
                if gip == ni {
                    lemma_grid_index_injective(w, h, p[ip].0, p[ip].1, nx, ny);
                    assert(p[ip] == p[i]);
                    assert(false);
                } else if gip == ci {
                    lemma_grid_index_injective(w, h, p[ip].0, p[ip].1, x, y);
                    assert(p[ip] == (x, y));
                } else {
                    lemma_mask_zero(d2);
                    assert(open_at(w, cells, p[ip].0, p[ip].1, d2));
                    assert(visited[grid_index(w, step_x(d2, p[ip].0), step_y(d2, p[ip].1))]);
                    assert(false);
                }
                assert(p[ip] == p[inx]);
                assert(p[ip] != p[inx]);
                assert(false);
            } else {
                // the cycle avoids the fresh cell, so it ran before the carve
                assert forall|i2: int| 0 <= i2 < len implies passage_between(
                    w,
                    h,
                    cells,
                    #[trigger] p[i2],
                    p[cycle_next(i2, len)],
                ) by {
                    assert(passage_between(w, h, cells2, p[i2], p[cycle_next(i2, len)]));
                    let dd = choose|dd: u8|
                        {
                            &&& #[trigger] is_dir(dd)
                            &&& p[cycle_next(i2, len)] == (
                                step_x(dd, p[i2].0),
                                step_y(dd, p[i2].1),
                            )
                            &&& open_at(w, cells2, p[i2].0, p[i2].1, dd)
                        };
                    let gii = grid_index(w, p[i2].0, p[i2].1);
                    lemma_grid_index_bounds(w, h, p[i2].0, p[i2].1);
                    if gii == ni {
                        lemma_grid_index_injective(w, h, p[i2].0, p[i2].1, nx, ny);
                        assert(p[i2] == (nx, ny));
                        assert(false);
                    } else if gii == ci {
                        lemma_grid_index_injective(w, h, p[i2].0, p[i2].1, x, y);
                        lemma_mask_or(cells[ci].passages, d, dd);
                        if dd == d {
                            assert(p[cycle_next(i2, len)] == (nx, ny));
                            assert(false);
                        }
                        assert(open_at(w, cells, p[i2].0, p[i2].1, dd));
                    } else {
                        assert(open_at(w, cells, p[i2].0, p[i2].1, dd));
                    }
                }
                assert(is_cycle(w, h, cells, p));
                assert(false);
            }
        }
    }
}

/// One iteration keeps every invariant of the walk.
pub proof fn lemma_step_inv(w: int, h: int, s: GenState)
    requires
        gen_inv(w, h, s),
        s.stack.len() > 0,
    ensures
        gen_inv(w, h, gen_step(w, h, s)),
        gen_measure(gen_step(w, h, s)) < gen_measure(s),
{
    lemma_step_wf_measure(w, h, s);
    let top = s.stack.last();
    assert(top == s.stack[s.stack.len() - 1]);
    let x = top.0 as int;
    let y = top.1 as int;
    assert(in_bounds(w, h, x, y));
    lemma_grid_index_bounds(w, h, x, y);
    if spec_neighbors(w, h, s.visited, x, y).len() == 0 {
        lemma_step_inv_pop(w, h, s);
    } else {
        lemma_step_inv_push(w, h, s);
    }
}

/// The popping case of `lemma_step_inv`: the top cell has no unvisited
/// neighbor left.
proof fn lemma_step_inv_pop(w: int, h: int, s: GenState)
    requires
        gen_inv(w, h, s),
        s.stack.len() > 0,
        spec_neighbors(
            w,
            h,
            s.visited,
            s.stack.last().0 as int,
            s.stack.last().1 as int,
        ).len() == 0,
    ensures
        gen_inv(w, h, gen_step(w, h, s)),
{
    lemma_step_wf_measure(w, h, s);
    let top = s.stack.last();
    assert(top == s.stack[s.stack.len() - 1]);
    let x = top.0 as int;
    let y = top.1 as int;
    assert(in_bounds(w, h, x, y));
    assert(s.visited[grid_index(w, x, y)]);
    lemma_grid_index_bounds(w, h, x, y);
    let ns = spec_neighbors(w, h, s.visited, x, y);
    let s2 = gen_step(w, h, s);
    {
        assert(s2.cells == s.cells && s2.visited == s.visited && s2.stack == s.stack.drop_last());
        assert forall|i: int| 0 <= i < s2.stack.len() implies s.visited[grid_index(
            w,
            (#[trigger] s2.stack[i]).0 as int,
            s2.stack[i].1 as int,
        )] by {
            assert(s2.stack[i] == s.stack[i]);
        }
        assert forall|i: int, j: int| 0 <= i < j < s2.stack.len() implies #[trigger] s2.stack[i]
            != #[trigger] s2.stack[j] by {
            assert(s2.stack[i] == s.stack[i] && s2.stack[j] == s.stack[j]);
        }
        lemma_neighbors_empty(w, h, s.visited, x, y);
        assert forall|x2: int, y2: int|
            in_bounds(w, h, x2, y2) && s2.visited[#[trigger] grid_index(w, x2, y2)] && !on_stack(
                s2.stack,
                x2,
                y2,
            ) implies (forall|d: u8|
            is_dir(d) && in_bounds(w, h, step_x(d, x2), step_y(d, y2)) ==> s2.visited[#[trigger] grid_index(
                w,
                step_x(d, x2),
                step_y(d, y2),
            )]) by {
            lemma_grid_index_bounds(w, h, x2, y2);
            if x2 == x && y2 == y {
                assert(forall|d: u8|
                    is_dir(d) && in_bounds(w, h, step_x(d, x2), step_y(d, y2))
                        ==> s.visited[#[trigger] grid_index(w, step_x(d, x2), step_y(d, y2))]);
            } else {
                assert(!on_stack(s.stack, x2, y2)) by {
                    if on_stack(s.stack, x2, y2) {
                        let i = choose|i: int|
                            0 <= i < s.stack.len() && (#[trigger] s.stack[i]).0 == x2
                                && s.stack[i].1 == y2;
                        if i < s.stack.len() - 1 {
                            assert(s2.stack[i] == s.stack[i]);
                            assert(on_stack(s2.stack, x2, y2));
                        }
                    }
                }
            }
        }
        assert(inv_closure(w, h, s2.visited, s2.stack));
    }
}

/// The carving case of `lemma_step_inv`: an unvisited neighbor is chosen
/// and visited.
#[verifier::rlimit(60)]
proof fn lemma_step_inv_push(w: int, h: int, s: GenState)
    requires
        gen_inv(w, h, s),
        s.stack.len() > 0,
        spec_neighbors(w, h, s.visited, s.stack.last().0 as int, s.stack.last().1 as int).len()
            > 0,
    ensures
        gen_inv(w, h, gen_step(w, h, s)),
{
    lemma_step_wf_measure(w, h, s);
    assert(w <= w * h && h <= w * h) by (nonlinear_arith)
        requires
            1 <= w,
            1 <= h,
    ;
    let top = s.stack.last();
    assert(top == s.stack[s.stack.len() - 1]);
    let x = top.0 as int;
    let y = top.1 as int;
    assert(in_bounds(w, h, x, y));
    assert(s.visited[grid_index(w, x, y)]);
    lemma_grid_index_bounds(w, h, x, y);
    let ns = spec_neighbors(w, h, s.visited, x, y);
    let s2 = gen_step(w, h, s);
    {
        lemma_neighbors_entries(w, h, s.visited, x, y);
        let k = rng_pick(s.rng, ns.len() as int);
        lemma_rng_pick_bounds(s.rng, ns.len() as int);
        let e = ns[k];
        let d = e.2;
        assert(is_dir(d) && e.3 == opposite(d) && e.0 == step_x(d, x) && e.1 == step_y(d, y));
        assert(in_bounds(w, h, e.0 as int, e.1 as int));
        assert(!s.visited[grid_index(w, e.0 as int, e.1 as int)]);
        let ni = grid_index(w, step_x(d, x), step_y(d, y));
        lemma_grid_index_bounds(w, h, step_x(d, x), step_y(d, y));
        lemma_carve_inv(w, h, s.cells, s.visited, x, y, d);
        assert(s.cells[ni].passages == 0);
        lemma_carve_acyclic(w, h, s.cells, s.visited, x, y, d);
        assert(s2.visited == s.visited.update(ni, true));
        assert(s2.stack == s.stack.push((e.0, e.1)));
        let ci = grid_index(w, x, y);
        let c1 = s.cells.update(ci, Cell { passages: s.cells[ci].passages | d });
        let cells2 = c1.update(ni, Cell { passages: c1[ni].passages | opposite(d) });
        assert(s2.cells == cells2);
        // origin stays visited
        assert(s2.visited[0]);
        // stack entries stay visited, distinct, in bounds
        assert forall|i: int| 0 <= i < s2.stack.len() implies s2.visited[grid_index(
            w,
            (#[trigger] s2.stack[i]).0 as int,
            s2.stack[i].1 as int,
        )] by {
            if i < s.stack.len() {
                assert(s2.stack[i] == s.stack[i]);
                assert(s.visited[grid_index(w, s.stack[i].0 as int, s.stack[i].1 as int)]);
                lemma_grid_index_bounds(w, h, s.stack[i].0 as int, s.stack[i].1 as int);
            } else {
                assert(s2.stack[i] == (e.0, e.1));
            }
        }
        assert forall|i: int, j: int| 0 <= i < j < s2.stack.len() implies #[trigger] s2.stack[i]
            != #[trigger] s2.stack[j] by {
            assert(s2.stack[i] == s.stack[i]);
            if j < s.stack.len() {
                assert(s2.stack[j] == s.stack[j]);
            } else {
                assert(s2.stack[j] == (e.0, e.1));
                assert(s.visited[grid_index(w, s.stack[i].0 as int, s.stack[i].1 as int)]);
            }
        }
        assert(inv_stack(w, h, s2.visited, s2.stack));
        // a popped-for-good cell keeps its surroundings visited
        assert forall|x2: int, y2: int|
            in_bounds(w, h, x2, y2) && s2.visited[#[trigger] grid_index(w, x2, y2)] && !on_stack(
                s2.stack,
                x2,
                y2,
            ) implies (forall|d2: u8|
            is_dir(d2) && in_bounds(w, h, step_x(d2, x2), step_y(d2, y2)) ==> s2.visited[#[trigger] grid_index(
                w,
                step_x(d2, x2),
                step_y(d2, y2),
            )]) by {
            let gi = grid_index(w, x2, y2);
            lemma_grid_index_bounds(w, h, x2, y2);
            if gi == ni {
                lemma_grid_index_injective(w, h, x2, y2, step_x(d, x), step_y(d, y));
                assert(s2.stack[s.stack.len() as int] == (e.0, e.1));
                assert(on_stack(s2.stack, x2, y2));
            } else {
                assert(s.visited[gi]);
                assert(!on_stack(s.stack, x2, y2)) by {
                    if on_stack(s.stack, x2, y2) {
                        let i = choose|i: int|
                            0 <= i < s.stack.len() && (#[trigger] s.stack[i]).0 == x2
                                && s.stack[i].1 == y2;
                        assert(s2.stack[i] == s.stack[i]);
                        assert(on_stack(s2.stack, x2, y2));
                    }
                }
                assert(forall|d2: u8|
                    is_dir(d2) && in_bounds(w, h, step_x(d2, x2), step_y(d2, y2))
                        ==> s.visited[#[trigger] grid_index(w, step_x(d2, x2), step_y(d2, y2))]);
                assert forall|d2: u8|
                    is_dir(d2) && in_bounds(w, h, step_x(d2, x2), step_y(d2, y2))
                        implies s2.visited[#[trigger] grid_index(
                    w,
                    step_x(d2, x2),
                    step_y(d2, y2),
                )] by {
                    lemma_grid_index_bounds(w, h, step_x(d2, x2), step_y(d2, y2));
                }
            }
        }
        assert(inv_closure(w, h, s2.visited, s2.stack));
    }
}

/// The invariants hold of the walk's starting state.
pub proof fn lemma_init_inv(w: int, h: int, seed: u64)
    requires
        1 <= w,
        1 <= h,
        w * h <= usize::MAX,
    ensures
        gen_inv(w, h, gen_init(w, h, seed)),
{
    assert(1 <= w * h) by (nonlinear_arith)
        requires
            1 <= w,
            1 <= h,
    ;
    let s = gen_init(w, h, seed);
    assert(s.visited[0]);
    assert(grid_index(w, 0, 0) == 0);
    assert(s.stack[0] == (0usize, 0usize));
    assert(in_bounds(w, h, 0, 0));
    // all masks are closed
    assert forall|x: int, y: int, d: u8|
        in_bounds(w, h, x, y) && is_dir(d) implies !open_at(w, s.cells, x, y, d) by {
        lemma_grid_index_bounds(w, h, x, y);
        assert(s.cells[grid_index(w, x, y)].passages == 0);
        lemma_mask_zero(d);
    }
    assert(inv_sym(w, h, s.cells));
    assert(inv_bits(w, h, s.cells, s.visited));
    assert forall|x: int, y: int|
        in_bounds(w, h, x, y) && !s.visited[#[trigger] grid_index(w, x, y)]
            implies s.cells[grid_index(w, x, y)].passages == 0 by {
        lemma_grid_index_bounds(w, h, x, y);
    }
    assert(inv_unvisited_zero(w, h, s.cells, s.visited));
    // only the origin is visited, and it sits on the stack
    assert forall|x: int, y: int|
        in_bounds(w, h, x, y) && s.visited[#[trigger] grid_index(w, x, y)] implies x == 0 && y
            == 0 by {
        lemma_grid_index_bounds(w, h, x, y);
        lemma_grid_index_injective(w, h, x, y, 0, 0);
    }
    assert(on_stack(s.stack, 0, 0));
    assert(inv_closure(w, h, s.visited, s.stack));
    assert(inv_stack(w, h, s.visited, s.stack));
    // counts
    assert forall|i: int| 0 <= i < s.cells.len() implies (#[trigger] s.cells[i]).passages
        == 0 by {}
    lemma_pair_count_zero(s.cells);
    lemma_acyclic_closed(w, h, s.cells);
    lemma_unvisited_init(s.visited);
    assert(inv_count(w, h, s.cells, s.visited));
    // the origin reaches itself
    assert(reach_n(w, h, s.cells, 0, 0, 0));
    assert(inv_reach(w, h, s.cells, s.visited));
}

/// With the stack empty and the surroundings of every visited cell
/// visited, the whole grid is visited: walk back toward the origin.
pub proof fn lemma_closed_all_visited(w: int, h: int, visited: Seq<bool>, x: int, y: int)
    requires
        1 <= w,
        1 <= h,
        visited.len() == w * h,
        visited[0],
        forall|x2: int, y2: int|
            in_bounds(w, h, x2, y2) && visited[#[trigger] grid_index(w, x2, y2)] ==> (forall|
                d: u8,
            |
                is_dir(d) && in_bounds(w, h, step_x(d, x2), step_y(d, y2)) ==> visited[#[trigger] grid_index(
                    w,
                    step_x(d, x2),
                    step_y(d, y2),
                )]),
        in_bounds(w, h, x, y),
    ensures
        visited[grid_index(w, x, y)],
    decreases x + y,
{
    if x > 0 {
        lemma_closed_all_visited(w, h, visited, x - 1, y);
        assert(step_x(EAST, x - 1) == x && step_y(EAST, y) == y);
        assert(visited[grid_index(w, step_x(EAST, x - 1), step_y(EAST, y))]);
    } else if y > 0 {
        lemma_closed_all_visited(w, h, visited, 0, y - 1);
        assert(step_x(SOUTH, 0) == 0 && step_y(SOUTH, y - 1) == y);
        assert(visited[grid_index(w, step_x(SOUTH, 0), step_y(SOUTH, y - 1))]);
    } else {
        assert(grid_index(w, 0, 0) == 0);
    }
}

/// Every flattened index comes from exactly one in-bounds coordinate
/// pair.
pub proof fn lemma_index_to_coords(w: int, h: int, i: int)
    requires
        1 <= w,
        1 <= h,
        0 <= i < w * h,
    ensures
        in_bounds(w, h, i % w, i / w),
        grid_index(w, i % w, i / w) == i,
{
    vstd::arithmetic::div_mod::lemma_fundamental_div_mod(i, w);
    vstd::arithmetic::div_mod::lemma_mod_bound(i, w);
    let q = i / w;
    let r = i % w;
    assert(0 <= q < h && q * w + r == i) by (nonlinear_arith)
        requires
            i == w * q + r,
            0 <= r < w,
            0 <= i < w * h,
            1 <= w,
    ;
}

/// When the walk ends, the grid is a perfect maze: every cell is visited
/// and reaches the origin, and the open passage pairs number one less
/// than the cells.
pub proof fn lemma_final_inv(w: int, h: int, s: GenState)
    requires
        gen_inv(w, h, s),
        s.stack.len() == 0,
    ensures
        pair_count(s.cells) == w * h - 1,
        forall|x: int, y: int|
            in_bounds(w, h, x, y) ==> s.visited[#[trigger] grid_index(w, x, y)],
        forall|x: int, y: int| in_bounds(w, h, x, y) ==> reachable(w, h, s.cells, x, y),
        inv_sym(w, h, s.cells),
        acyclic(w, h, s.cells),
{
    assert forall|x2: int, y2: int|
        in_bounds(w, h, x2, y2) && s.visited[#[trigger] grid_index(w, x2, y2)] implies (forall|
        d: u8,
    |
        is_dir(d) && in_bounds(w, h, step_x(d, x2), step_y(d, y2)) ==> s.visited[#[trigger] grid_index(
            w,
            step_x(d, x2),
            step_y(d, y2),
        )]) by {
        assert(!on_stack(s.stack, x2, y2));
    }
    assert forall|x: int, y: int| in_bounds(w, h, x, y) implies s.visited[#[trigger] grid_index(
        w,
        x,
        y,
    )] by {
        lemma_closed_all_visited(w, h, s.visited, x, y);
    }
    assert forall|i: int| 0 <= i < s.visited.len() implies s.visited[i] by {
        lemma_index_to_coords(w, h, i);
        assert(s.visited[grid_index(w, i % w, i / w)]);
    }
    lemma_unvisited_none(s.visited);
    assert forall|x: int, y: int| in_bounds(w, h, x, y) implies reachable(w, h, s.cells, x, y) by {
        lemma_grid_index_bounds(w, h, x, y);
        assert(s.visited[grid_index(w, x, y)]);
    }
}

/// The invariants carry from any state to the walk's end, where the
/// stack is empty.
pub proof fn lemma_run_inv(w: int, h: int, s: GenState)
    requires
        gen_inv(w, h, s),
    ensures
        gen_inv(w, h, gen_run(w, h, s)),
        gen_run(w, h, s).stack.len() == 0,
    decreases gen_measure(s),
{
    if s.stack.len() > 0 {
        lemma_step_inv(w, h, s);
        lemma_run_inv(w, h, gen_step(w, h, s));
        assert(gen_run(w, h, s) == gen_run(w, h, gen_step(w, h, s)));
    }
}

/// The perfect-maze property of generation: for any seed and any
/// positive dimensions, the generated grid has exactly one open passage
/// pair less than it has cells, every cell reaches the origin through
/// open passages, and every open passage is mirrored by its neighbor.
/// (A connected graph on `w * h` vertices with `w * h - 1` edges is a
/// spanning tree.)
pub proof fn lemma_generate_perfect(seed: u64, w: int, h: int)
    requires
        1 <= w,
        1 <= h,
        w * h <= usize::MAX,
    ensures
        pair_count(spec_generate(seed, w, h)) == w * h - 1,
        forall|x: int, y: int|
            in_bounds(w, h, x, y) ==> reachable(w, h, spec_generate(seed, w, h), x, y),
        inv_sym(w, h, spec_generate(seed, w, h)),
        acyclic(w, h, spec_generate(seed, w, h)),
        spec_generate(seed, w, h).len() == w * h,
{
    lemma_init_inv(w, h, seed);
    lemma_run_inv(w, h, gen_init(w, h, seed));
    lemma_final_inv(w, h, gen_run(w, h, gen_init(w, h, seed)));
}

/// Determinism of generation: the grid is a function of the seed and the
/// dimensions alone, so two runs with identical arguments agree cell for
/// cell.
pub proof fn lemma_generate_deterministic(c1: Seq<Cell>, c2: Seq<Cell>, seed: u64, w: int, h: int)
    requires
        c1 == spec_generate(seed, w, h),
        c2 == spec_generate(seed, w, h),
    ensures
        c1 == c2,
{
}

/// The full maze grid: `width * height` cells in row-major order.
pub struct Maze {
    pub width: usize,
    pub height: usize,
    pub cells: Vec<Cell>,
}

impl Maze {
    /// The grid holds exactly one cell per coordinate pair.
    pub open spec fn wf(self) -> bool {
        &&& 1 <= self.width && 1 <= self.height
        &&& self.width * self.height <= usize::MAX
        &&& self.cells@.len() == self.width * self.height
    }

    /// The cell at `(x, y)`.
    pub open spec fn spec_cell(self, x: int, y: int) -> Cell {
        self.cells@[grid_index(self.width as int, x, y)]
    }

    /// Reads the cell at `(x, y)`.
    pub fn cell(&self, x: usize, y: usize) -> (c: Cell)
        requires
            self.wf(),
            x < self.width,
            y < self.height,
        ensures
            c == self.spec_cell(x as int, y as int),
    {
        proof {
            lemma_grid_index_bounds(
                self.width as int,
                self.height as int,
                x as int,
                y as int,
            );
        }
        self.cells[y * self.width + x]
    }

    /// Generates a maze by the recursive backtracker: depth-first from
    /// the origin, carving toward a randomly chosen unvisited neighbor
    /// and backtracking from cells with none left.
    ///
    /// The result is exactly the grid `spec_generate` describes — the
    /// same seed and dimensions always reproduce it bit for bit — and it
    /// is a perfect maze: `width * height - 1` open passage pairs, every
    /// cell connected to the origin, every passage mirrored by its
    /// neighbor.
    #[verifier::rlimit(100)]
    pub fn generate(seed: u64, width: usize, height: usize) -> (m: Maze)
        requires
            1 <= width,
            1 <= height,
            width * height <= usize::MAX,
        ensures
            m.width == width,
            m.height == height,
            m.wf(),
            m.cells@ == spec_generate(seed, width as int, height as int),
            pair_count(m.cells@) == width * height - 1,
            inv_sym(width as int, height as int, m.cells@),
            acyclic(width as int, height as int, m.cells@),
            forall|x: int, y: int|
                in_bounds(width as int, height as int, x, y) ==> reachable(
                    width as int,
                    height as int,
                    m.cells@,
                    x,
                    y,
                ),
    {
        let ghost w = width as int;
        let ghost h = height as int;
        let total: usize = width * height;
        let mut cells: Vec<Cell> = Vec::new();
        let mut visited: Vec<bool> = Vec::new();
        let mut i: usize = 0;
        while i < total
            invariant
                i <= total,
                cells@.len() == i,
                visited@.len() == i,
                forall|j: int| 0 <= j < i ==> (#[trigger] cells@[j]).passages == 0,
                forall|j: int| 0 <= j < i ==> visited@[j] == (j == 0),
            decreases total - i,
        {
            cells.push(Cell { passages: 0 });
            visited.push(i == 0);
            i = i + 1;
        }
        let mut stack: Vec<(usize, usize)> = Vec::new();
        stack.push((0, 0));
        let mut rng = Rng::new(seed);
        proof {
            lemma_init_inv(w, h, seed);
            let st0 = GenState { cells: cells@, visited: visited@, stack: stack@, rng: rng.0 };
            assert(st0.cells =~= gen_init(w, h, seed).cells);
            assert(st0.visited =~= gen_init(w, h, seed).visited);
            assert(st0.stack =~= gen_init(w, h, seed).stack);
            assert(st0 == gen_init(w, h, seed));
        }
        while stack.len() > 0
            invariant
                w == width as int,
                h == height as int,
                1 <= width,
                1 <= height,
                width * height == total,
                cells@.len() == total,
                visited@.len() == total,
                gen_inv(
                    w,
                    h,
                    GenState { cells: cells@, visited: visited@, stack: stack@, rng: rng.0 },
                ),
                gen_run(
                    w,
                    h,
                    GenState { cells: cells@, visited: visited@, stack: stack@, rng: rng.0 },
                ) == gen_run(w, h, gen_init(w, h, seed)),
            decreases gen_measure(
                GenState { cells: cells@, visited: visited@, stack: stack@, rng: rng.0 },
            ),
        {
            let ghost st0 = GenState {
                cells: cells@,
                visited: visited@,
                stack: stack@,
                rng: rng.0,
            };
            let top = stack[stack.len() - 1];
            let x = top.0;
            let y = top.1;
            proof {
                assert(st0.stack.last() == top);
                assert(in_bounds(w, h, x as int, y as int));
            }
            let neighbors = unvisited_neighbors(x, y, &visited, width, height);
            if neighbors.len() == 0 {
                stack.pop();
                proof {
                    let st1 = GenState {
                        cells: cells@,
                        visited: visited@,
                        stack: stack@,
                        rng: rng.0,
                    };
                    assert(st1.stack =~= st0.stack.drop_last());
                    assert(st1 == gen_step(w, h, st0));
                    lemma_step_inv(w, h, st0);
                    assert(gen_run(w, h, st0) == gen_run(w, h, st1));
                }
            } else {
                let k = rng.next_usize(neighbors.len());
                let ghost rng0 = st0.rng;
                let e = neighbors[k];
                let nx = e.0;
                let ny = e.1;
                let d = e.2;
                let od = e.3;
                proof {
                    lemma_neighbors_entries(w, h, visited@, x as int, y as int);
                    lemma_grid_index_bounds(w, h, x as int, y as int);
                    lemma_grid_index_bounds(w, h, nx as int, ny as int);
                }
                let ci = y * width + x;
                let ni = ny * width + nx;
                let cur = cells[ci];
                cells.set(ci, Cell { passages: cur.passages | d });
                let nb = cells[ni];
                cells.set(ni, Cell { passages: nb.passages | od });
                visited.set(ni, true);
                stack.push((nx, ny));
                proof {
                    let st1 = GenState {
                        cells: cells@,
                        visited: visited@,
                        stack: stack@,
                        rng: rng.0,
                    };
                    assert(k == rng_pick(rng0, neighbors@.len() as int));
                    assert(st1 == gen_step(w, h, st0));
                    lemma_step_inv(w, h, st0);
                    assert(gen_run(w, h, st0) == gen_run(w, h, st1));
                }
            }
        }
        proof {
            let stf = GenState { cells: cells@, visited: visited@, stack: stack@, rng: rng.0 };
            assert(gen_run(w, h, stf) == stf);
            assert(cells@ == spec_generate(seed, w, h));
            lemma_final_inv(w, h, stf);
        }
        Maze { width, height, cells }
    }
}

} // verus!
