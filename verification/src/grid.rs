//! The square tile grid: a flat row-major array of cell values, with 0 as
//! the empty sentinel, together with the directional swipe that compacts
//! every row or column, the random-position spawner, and the occupancy and
//! game-over queries.

use vstd::arithmetic::div_mod::lemma_fundamental_div_mod_converse;
use vstd::prelude::*;

use crate::line::compact_line;
use crate::line::lemma_all_zero_sum;
use crate::line::lemma_seq_sum_nonneg;
use crate::line::lemma_seq_sum_split;
use crate::line::lemma_seq_sum_update;
use crate::line::seq_sum;
use crate::line::slid;
use crate::line::slide_score;

verus! {

/// A swipe direction.  It selects the axis that is scanned (rows for
/// `Left`/`Right`, columns for `Up`/`Down`) and the target edge that tiles
/// slide toward (index 0 for `Left`/`Up`, the far edge for `Right`/`Down`).
#[derive(Clone, Copy, PartialEq, Eq, Structural)]
pub enum Direction {
    Left,
    Right,
    Up,
    Down,
}

/// A 2D cell coordinate, 0-indexed, with `x` the column and `y` the row.
#[derive(Debug, Clone, Copy, PartialEq, Eq, Structural)]
pub struct GridCoord {
    pub x: usize,
    pub y: usize,
}

/// A square grid of tile values.  `grid[y * size + x]` holds the value of
/// cell `(x, y)`; 0 means the cell is empty.
pub struct Grid {
    pub size: usize,
    pub grid: Vec<u32>,
}

impl View for Grid {
    type V = Seq<u32>;

    open spec fn view(&self) -> Seq<u32> {
        self.grid@
    }
}

/// The flat storage index of the `p`-th cell of line `l`, counted from the
/// target edge of the given direction inward.  A line is a row for
/// `Left`/`Right` and a column for `Up`/`Down`.
pub open spec fn lidx(dir: Direction, size: int, l: int, p: int) -> int {
    match dir {
        Direction::Left => l * size + p,
        Direction::Right => l * size + (size - 1 - p),
        Direction::Up => p * size + l,
        Direction::Down => (size - 1 - p) * size + l,
    }
}

/// The line that the flat index `idx` belongs to, for the given direction.
pub open spec fn line_no(dir: Direction, size: int, idx: int) -> int {
    match dir {
        Direction::Left => idx / size,
        Direction::Right => idx / size,
        Direction::Up => idx % size,
        Direction::Down => idx % size,
    }
}

/// The edge-first position of the flat index `idx` within its line.
pub open spec fn pos_no(dir: Direction, size: int, idx: int) -> int {
    match dir {
        Direction::Left => idx % size,
        Direction::Right => size - 1 - idx % size,
        Direction::Up => idx / size,
        Direction::Down => size - 1 - idx / size,
    }
}

/// Line `l` of the grid, read edge-first for the given direction.
pub open spec fn line_of(g: Seq<u32>, dir: Direction, size: int, l: int) -> Seq<u32> {
    Seq::new(size as nat, |p: int| g[lidx(dir, size, l, p)])
}

/// The whole grid after one swipe: every line compacted toward its target
/// edge.
pub open spec fn slid_grid(g: Seq<u32>, dir: Direction, size: int) -> Seq<u32> {
    Seq::new(
        g.len(),
        |idx: int|
            slid(line_of(g, dir, size, line_no(dir, size, idx)))[pos_no(dir, size, idx)],
    )
}

/// The score gained by compacting the first `upto` lines.
pub open spec fn lines_score(g: Seq<u32>, dir: Direction, size: int, upto: int) -> int
    decreases upto,
{
    if upto <= 0 {
        0
    } else {
        lines_score(g, dir, size, upto - 1) + slide_score(line_of(g, dir, size, upto - 1))
    }
}

/// The total score of one swipe: the merge gains of all lines.
pub open spec fn grid_score(g: Seq<u32>, dir: Direction, size: int) -> int {
    lines_score(g, dir, size, size)
}

/// Whether a swipe in the given direction would change the board: the
/// legality verdict of a move.
pub open spec fn swipe_changes(g: Seq<u32>, dir: Direction, size: int) -> bool {
    slid_grid(g, dir, size) != g
}

/// Idempotent second swipe: when swiping the same direction again moves
/// and merges nothing, that second swipe is reported illegal, since the
/// verdict of a swipe is exactly "the board changed".
pub proof fn lemma_second_swipe_illegal(g: Seq<u32>, dir: Direction, size: int)
    requires
        slid_grid(slid_grid(g, dir, size), dir, size) == slid_grid(g, dir, size),
    ensures
        !swipe_changes(slid_grid(g, dir, size), dir, size),
{
}

/// The total mass of the first `upto` lines.
pub open spec fn lines_mass(g: Seq<u32>, dir: Direction, size: int, upto: int) -> int
    decreases upto,
{
    if upto <= 0 {
        0
    } else {
        lines_mass(g, dir, size, upto - 1) + seq_sum(line_of(g, dir, size, upto - 1))
    }
}

/// Line and position determine the flat index, and the index determines
/// them back.
pub proof fn lemma_lidx_bounds(dir: Direction, size: int, l: int, p: int)
    requires
        0 < size,
        0 <= l < size,
        0 <= p < size,
    ensures
        0 <= lidx(dir, size, l, p) < size * size,
        line_no(dir, size, lidx(dir, size, l, p)) == l,
        pos_no(dir, size, lidx(dir, size, l, p)) == p,
{
    let idx = lidx(dir, size, l, p);
    match dir {
        Direction::Left => {
            lemma_fundamental_div_mod_converse(idx, size, l, p);
            assert(l * size + p < size * size) by (nonlinear_arith)
                requires 0 <= l < size && 0 <= p < size;
        },
        Direction::Right => {
            lemma_fundamental_div_mod_converse(idx, size, l, size - 1 - p);
            assert(l * size + (size - 1 - p) < size * size) by (nonlinear_arith)
                requires 0 <= l < size && 0 <= p < size;
        },
        Direction::Up => {
            lemma_fundamental_div_mod_converse(idx, size, p, l);
            assert(p * size + l < size * size) by (nonlinear_arith)
                requires 0 <= l < size && 0 <= p < size;
        },
        Direction::Down => {
            lemma_fundamental_div_mod_converse(idx, size, size - 1 - p, l);
            assert((size - 1 - p) * size + l < size * size) by (nonlinear_arith)
                requires 0 <= l < size && 0 <= p < size;
        },
    }
}

/// Every flat index lies on exactly one line, at one position.
pub proof fn lemma_idx_cover(dir: Direction, size: int, idx: int)
    requires
        0 < size,
        0 <= idx < size * size,
    ensures
        0 <= line_no(dir, size, idx) < size,
        0 <= pos_no(dir, size, idx) < size,
        lidx(dir, size, line_no(dir, size, idx), pos_no(dir, size, idx)) == idx,
{
    let y = idx / size;
    let x = idx % size;
    vstd::arithmetic::div_mod::lemma_fundamental_div_mod(idx, size);
    vstd::arithmetic::div_mod::lemma_mod_pos_bound(idx, size);
    assert(0 <= y) by (nonlinear_arith)
        requires 0 < size && 0 <= idx && idx == size * y + x && 0 <= x < size;
    assert(y < size) by (nonlinear_arith)
        requires 0 < size && idx < size * size && idx == size * y + x && 0 <= x < size;
    assert(y * size + x == idx) by (nonlinear_arith)
        requires idx == size * y + x;
}

impl Grid {
    /// Well-formed: a positive size, exactly size * size cells, and a total
    /// tile mass that fits the score type, so merged values and scores never
    /// overflow.
    pub open spec fn wf(&self) -> bool {
        &&& 0 < self.size
        &&& self.grid@.len() == self.size * self.size
        &&& seq_sum(self.grid@) <= u32::MAX
    }

    /// Returns a grid of the given size with every cell empty.
    pub fn new(size: usize) -> (r: Grid)
        requires
            0 < size,
            size * size <= usize::MAX,
        ensures
            r.wf(),
            r.size == size,
            r@.len() == size * size,
            forall|i: int| 0 <= i < r@.len() ==> r@[i] == 0,
    {
        let n = size * size;
        let mut grid: Vec<u32> = Vec::new();
        let mut i: usize = 0;
        while i < n
            invariant
                i <= n,
                grid@.len() == i,
                forall|q: int| 0 <= q < i ==> grid@[q] == 0,
            decreases n - i,
        {
            grid.push(0);
            i = i + 1;
        }
        proof {
            lemma_all_zero_sum(grid@);
        }
        Grid { size, grid }
    }

    /// Builds a grid of the given size directly from a flat row-major
    /// vector of cell values, 0 meaning empty.
    pub fn new_grid(size: usize, grid: Vec<u32>) -> (r: Grid)
        requires
            0 < size,
            grid@.len() == size * size,
            seq_sum(grid@) <= u32::MAX,
        ensures
            r.wf(),
            r.size == size,
            r@ == grid@,
    {
        Grid { size, grid }
    }

    /// The flat storage index of a coordinate: `y * size + x`, the one
    /// place where the 2D-to-1D mapping is encoded.
    pub fn get_index_from_coord(&self, coord: GridCoord) -> (idx: usize)
        requires
            self.wf(),
            coord.x < self.size,
            coord.y < self.size,
        ensures
            idx == coord.y * self.size + coord.x,
            idx < self@.len(),
    {
        let n = self.grid.len();
        proof {
            assert(coord.y * self.size + coord.x < n) by (nonlinear_arith)
                requires
                    coord.x < self.size && coord.y < self.size && 0 < self.size && n == self.size
                        * self.size;
        }
        coord.y * self.size + coord.x
    }

    /// The value at an in-bounds coordinate; 0 means the cell is empty.
    pub fn value_at(&self, coord: GridCoord) -> (v: u32)
        requires
            self.wf(),
            coord.x < self.size,
            coord.y < self.size,
        ensures
            v == self@[coord.y * self.size + coord.x],
    {
        let idx = self.get_index_from_coord(coord);
        self.grid[idx]
    }

    /// Writes a value at an in-bounds coordinate.  The caller keeps the
    /// total mass within the score type's range.
    pub fn set_value(&mut self, coord: GridCoord, v: u32)
        requires
            old(self).wf(),
            coord.x < old(self).size,
            coord.y < old(self).size,
            seq_sum(old(self)@) - old(self)@[coord.y * old(self).size + coord.x] + v <= u32::MAX,
        ensures
            final(self).wf(),
            final(self).size == old(self).size,
            final(self)@ == old(self)@.update(coord.y * old(self).size + coord.x, v),
    {
        let idx = self.get_index_from_coord(coord);
        proof {
            lemma_seq_sum_update(self.grid@, idx as int, v);
            lemma_seq_sum_nonneg(self.grid@);
        }
        self.grid.set(idx, v);
    }

    /// A copy of the flat cell array, row-major, 0 for an empty cell: the
    /// read accessor a renderer needs.
    pub fn get_grid(&self) -> (r: Vec<u32>)
        ensures
            r@ == self@,
    {
        let n = self.grid.len();
        let mut r: Vec<u32> = Vec::new();
        let mut i: usize = 0;
        while i < n
            invariant
                i <= n,
                n == self.grid@.len(),
                r@.len() == i,
                forall|q: int| 0 <= q < i ==> r@[q] == self.grid@[q],
            decreases n - i,
        {
            r.push(self.grid[i]);
            i = i + 1;
        }
        proof {
            assert(r@ =~= self@);
        }
        r
    }

    /// Applies one swipe: every row or column slides toward the direction's
    /// target edge and equal adjacent tiles merge, at most once per slot.
    /// Returns the score gained and whether anything changed; an unchanged
    /// board means the move was illegal, and the grid is then left exactly
    /// as it was.
    #[verifier::loop_isolation(false)]
    #[verifier::rlimit(100)]
    pub fn move_cells(&mut self, direction: Direction) -> (r: (u32, bool))
        requires
            old(self).wf(),
        ensures
            final(self).wf(),
            final(self).size == old(self).size,
            final(self)@ == slid_grid(old(self)@, direction, old(self).size as int),
            r.0 == grid_score(old(self)@, direction, old(self).size as int),
            r.1 == (final(self)@ != old(self)@),
            r.1 == swipe_changes(old(self)@, direction, old(self).size as int),
            seq_sum(final(self)@) == seq_sum(old(self)@),
    {
        let size = self.size;
        let ghost g0 = self.grid@;
        let ghost sz = size as int;
        let n = self.grid.len();
        // First pull every line out of the grid, emptying it cell by cell,
        // so the mass moved into the buffers is exactly the mass that left
        // the board.
        let mut lines: Vec<Vec<u32>> = Vec::new();
        let mut l: usize = 0;
        while l < size
            invariant
                l <= size,
                self.size == size,
                self.grid@.len() == n,
                lines@.len() == l,
                forall|l2: int| 0 <= l2 < l ==> lines@[l2]@ == line_of(g0, direction, sz, l2),
                forall|idx: int|
                    0 <= idx < n ==> #[trigger] self.grid@[idx] == (if line_no(direction, sz, idx)
                        < l {
                        0u32
                    } else {
                        g0[idx]
                    }),
                seq_sum(self.grid@) == seq_sum(g0) - lines_mass(g0, direction, sz, l as int),
            decreases size - l,
        {
            let mut buf: Vec<u32> = Vec::new();
            let mut p: usize = 0;
            proof {
                assert(buf@ =~= line_of(g0, direction, sz, l as int).take(0));
            }
            while p < size
                invariant
                    p <= size,
                    l < size,
                    self.size == size,
                    self.grid@.len() == n,
                    buf@ == line_of(g0, direction, sz, l as int).take(p as int),
                    forall|idx: int|
                        0 <= idx < n ==> #[trigger] self.grid@[idx] == (if line_no(
                            direction,
                            sz,
                            idx,
                        ) < l || (line_no(direction, sz, idx) == l && 0 <= pos_no(
                            direction,
                            sz,
                            idx,
                        ) < p) {
                            0u32
                        } else {
                            g0[idx]
                        }),
                    seq_sum(self.grid@) == seq_sum(g0) - lines_mass(g0, direction, sz, l as int)
                        - seq_sum(buf@),
                decreases size - p,
            {
                let idx = slot(direction, size, l, p);
                proof {
                    lemma_lidx_bounds(direction, sz, l as int, p as int);
                }
                let v = self.grid[idx];
                let ghost gpre = self.grid@;
                let ghost bpre = buf@;
                buf.push(v);
                self.grid.set(idx, 0);
                proof {
                    lemma_seq_sum_update(gpre, idx as int, 0);
                    assert(v == g0[idx as int]);
                    assert(buf@ =~= line_of(g0, direction, sz, l as int).take(p + 1));
                    lemma_seq_sum_take_succ(line_of(g0, direction, sz, l as int), p as int);
                    assert forall|idx2: int| 0 <= idx2 < n implies #[trigger] self.grid@[idx2] == (
                    if line_no(direction, sz, idx2) < l || (line_no(direction, sz, idx2) == l
                        && 0 <= pos_no(direction, sz, idx2) < p + 1) {
                        0u32
                    } else {
                        g0[idx2]
                    }) by {
                        lemma_idx_cover(direction, sz, idx2);
                        if idx2 != idx {
                            assert(self.grid@[idx2] == gpre[idx2]);
                        }
                    }
                }
                p = p + 1;
            }
            let ghost lw = line_of(g0, direction, sz, l as int);
            proof {
                assert(buf@ =~= lw);
            }
            lines.push(buf);
            l = l + 1;
            proof {
                assert(lines_mass(g0, direction, sz, l as int) == lines_mass(
                    g0,
                    direction,
                    sz,
                    l - 1,
                ) + seq_sum(lw));
                assert forall|idx2: int| 0 <= idx2 < n implies #[trigger] self.grid@[idx2] == (
                if line_no(direction, sz, idx2) < l {
                    0u32
                } else {
                    g0[idx2]
                }) by {
                    lemma_idx_cover(direction, sz, idx2);
                }
            }
        }
        proof {
            assert forall|idx2: int| 0 <= idx2 < n implies #[trigger] self.grid@[idx2] == 0u32 by {
                lemma_idx_cover(direction, sz, idx2);
            }
            lemma_all_zero_sum(self.grid@);
            assert(lines_mass(g0, direction, sz, sz) == seq_sum(g0));
        }
        // Now compact each buffered line with the two-index scan and write
        // it back to the same slots, edge-first.
        let ghost sg = slid_grid(g0, direction, sz);
        let mut score: u32 = 0;
        let mut moved = false;
        let mut l: usize = 0;
        while l < size
            invariant
                l <= size,
                self.size == size,
                self.grid@.len() == n,
                lines@.len() == size,
                forall|l2: int| 0 <= l2 < size ==> lines@[l2]@ == line_of(g0, direction, sz, l2),
                forall|idx: int|
                    0 <= idx < n ==> #[trigger] self.grid@[idx] == (if line_no(direction, sz, idx)
                        < l {
                        sg[idx]
                    } else {
                        0u32
                    }),
                score == lines_score(g0, direction, sz, l as int),
                score <= lines_mass(g0, direction, sz, l as int),
                seq_sum(self.grid@) == lines_mass(g0, direction, sz, l as int),
                moved == exists|l2: int|
                    0 <= l2 < l && slid(line_of(g0, direction, sz, l2)) != line_of(
                        g0,
                        direction,
                        sz,
                        l2,
                    ),
            decreases size - l,
        {
            let ghost lw = line_of(g0, direction, sz, l as int);
            let mut work = copy_vec(&lines[l]);
            proof {
                assert(seq_sum(lw) == lines_mass(g0, direction, sz, l + 1) - lines_mass(
                    g0,
                    direction,
                    sz,
                    l as int,
                ));
                lemma_lines_mass_mono(g0, direction, sz, l + 1, sz);
                lemma_lines_mass_mono(g0, direction, sz, 0, l as int);
                crate::line::lemma_slide_score_bounds(lw);
                crate::line::lemma_slid_len(lw);
            }
            let gained = compact_line(&mut work);
            let changed = !vec_eq(&lines[l], &work);
            score = score + gained;
            if changed {
                moved = true;
            }
            let mut p: usize = 0;
            proof {
                assert(work@.take(0) =~= Seq::<u32>::empty());
            }
            while p < size
                invariant
                    p <= size,
                    l < size,
                    self.size == size,
                    self.grid@.len() == n,
                    work@ == slid(lw),
                    work@.len() == size,
                    forall|idx: int|
                        0 <= idx < n ==> #[trigger] self.grid@[idx] == (if line_no(
                            direction,
                            sz,
                            idx,
                        ) < l {
                            sg[idx]
                        } else if line_no(direction, sz, idx) == l && 0 <= pos_no(
                            direction,
                            sz,
                            idx,
                        ) < p {
                            slid(lw)[pos_no(direction, sz, idx)]
                        } else {
                            0u32
                        }),
                    seq_sum(self.grid@) == lines_mass(g0, direction, sz, l as int) + seq_sum(
                        work@.take(p as int),
                    ),
                decreases size - p,
            {
                let idx = slot(direction, size, l, p);
                proof {
                    lemma_lidx_bounds(direction, sz, l as int, p as int);
                }
                let v = work[p];
                let ghost gpre = self.grid@;
                self.grid.set(idx, v);
                proof {
                    lemma_seq_sum_update(gpre, idx as int, v);
                    lemma_seq_sum_take_succ(work@, p as int);
                    assert forall|idx2: int| 0 <= idx2 < n implies #[trigger] self.grid@[idx2] == (
                    if line_no(direction, sz, idx2) < l {
                        sg[idx2]
                    } else if line_no(direction, sz, idx2) == l && 0 <= pos_no(
                        direction,
                        sz,
                        idx2,
                    ) < p + 1 {
                        slid(lw)[pos_no(direction, sz, idx2)]
                    } else {
                        0u32
                    }) by {
                        lemma_idx_cover(direction, sz, idx2);
                        if idx2 != idx {
                            assert(self.grid@[idx2] == gpre[idx2]);
                        }
                    }
                }
                p = p + 1;
            }
            l = l + 1;
            proof {
                assert(work@.take(sz) =~= work@);
                assert(lines_score(g0, direction, sz, l as int) == lines_score(
                    g0,
                    direction,
                    sz,
                    l - 1,
                ) + slide_score(lw));
                assert(lines_mass(g0, direction, sz, l as int) == lines_mass(
                    g0,
                    direction,
                    sz,
                    l - 1,
                ) + seq_sum(lw));
                assert forall|idx2: int| 0 <= idx2 < n implies #[trigger] self.grid@[idx2] == (
                if line_no(direction, sz, idx2) < l {
                    sg[idx2]
                } else {
                    0u32
                }) by {
                    lemma_idx_cover(direction, sz, idx2);
                    if line_no(direction, sz, idx2) == l - 1 {
                        assert(sg[idx2] == slid(line_of(g0, direction, sz, l - 1))[pos_no(
                            direction,
                            sz,
                            idx2,
                        )]);
                    }
                }
            }
        }
        proof {
            assert forall|idx2: int| 0 <= idx2 < n implies #[trigger] self.grid@[idx2]
                == sg[idx2] by {
                lemma_idx_cover(direction, sz, idx2);
            }
            assert(self.grid@ =~= sg);
            assert(lines_mass(g0, direction, sz, sz) == seq_sum(g0));
            if moved {
                let lc = choose|l2: int|
                    0 <= l2 < size && slid(line_of(g0, direction, sz, l2)) != line_of(
                        g0,
                        direction,
                        sz,
                        l2,
                    );
                let lv = line_of(g0, direction, sz, lc);
                crate::line::lemma_slid_len(lv);
                if forall|p2: int| 0 <= p2 < sz ==> slid(lv)[p2] == lv[p2] {
                    assert(slid(lv) =~= lv);
                    assert(false);
                }
                let pc = choose|p2: int| 0 <= p2 < sz && slid(lv)[p2] != lv[p2];
                lemma_lidx_bounds(direction, sz, lc, pc);
                let ic = lidx(direction, sz, lc, pc);
                assert(sg[ic] == slid(lv)[pc]);
                assert(g0[ic] == lv[pc]);
                assert(self.grid@[ic] != g0[ic]);
            } else {
                assert forall|idx2: int| 0 <= idx2 < n implies sg[idx2] == g0[idx2] by {
                    lemma_idx_cover(direction, sz, idx2);
                    let ln = line_no(direction, sz, idx2);
                    let pn = pos_no(direction, sz, idx2);
                    assert(slid(line_of(g0, direction, sz, ln)) == line_of(g0, direction, sz, ln));
                    assert(line_of(g0, direction, sz, ln)[pn] == g0[idx2]);
                }
                assert(sg =~= g0);
            }
        }
        (score, moved)
    }

    /// The total mass of the board: the sum of all cell values.
    pub fn total(&self) -> (t: u32)
        requires
            self.wf(),
        ensures
            t == seq_sum(self@),
    {
        let n = self.grid.len();
        let mut t: u32 = 0;
        let mut i: usize = 0;
        proof {
            assert(self.grid@.take(0) =~= Seq::<u32>::empty());
        }
        while i < n
            invariant
                i <= n,
                n == self.grid@.len(),
                seq_sum(self.grid@) <= u32::MAX,
                t == seq_sum(self.grid@.take(i as int)),
            decreases n - i,
        {
            proof {
                lemma_seq_sum_take_succ(self.grid@, i as int);
                lemma_seq_sum_split(self.grid@, i + 1);
                lemma_seq_sum_nonneg(self.grid@.skip(i + 1));
                lemma_seq_sum_nonneg(self.grid@.take(i as int));
            }
            t = t + self.grid[i];
            i = i + 1;
        }
        proof {
            assert(self.grid@.take(n as int) =~= self.grid@);
        }
        t
    }
}

/// The flat indices of the empty cells, in ascending (row-major) order.
pub open spec fn empty_idx_seq(g: Seq<u32>) -> Seq<int>
    decreases g.len(),
{
    if g.len() == 0 {
        Seq::empty()
    } else {
        empty_idx_seq(g.drop_last()) + if g.last() == 0 {
            seq![g.len() - 1]
        } else {
            Seq::empty()
        }
    }
}

/// The coordinate of a flat row-major index.
pub open spec fn coord_of(size: int, idx: int) -> GridCoord {
    GridCoord { x: (idx % size) as usize, y: (idx / size) as usize }
}

/// The flat index where a spawn lands: the pick, reduced modulo the number
/// of empty cells, selects one empty cell in row-major order.
pub open spec fn spawn_index(g: Seq<u32>, pick: int) -> int {
    empty_idx_seq(g)[pick % (empty_idx_seq(g).len() as int)]
}

/// Every board is full, or it has an empty cell that the empty list holds.
pub proof fn lemma_empty_idx_props(g: Seq<u32>)
    ensures
        forall|q: int|
            0 <= q < empty_idx_seq(g).len() ==> 0 <= #[trigger] empty_idx_seq(g)[q] < g.len()
                && g[empty_idx_seq(g)[q]] == 0,
    decreases g.len(),
{
    if g.len() > 0 {
        lemma_empty_idx_props(g.drop_last());
        assert(forall|i: int| 0 <= i < g.len() - 1 ==> g.drop_last()[i] == g[i]);
        let e0 = empty_idx_seq(g.drop_last());
        assert forall|q: int| 0 <= q < empty_idx_seq(g).len() implies 0 <= #[trigger] empty_idx_seq(
            g,
        )[q] < g.len() && g[empty_idx_seq(g)[q]] == 0 by {
            if q < e0.len() {
                assert(empty_idx_seq(g)[q] == e0[q]);
            } else {
                assert(empty_idx_seq(g)[q] == g.len() - 1);
            }
        }
    }
}

/// An empty cell always appears in the empty list.
pub proof fn lemma_empty_idx_complete(g: Seq<u32>, i: int)
    requires
        0 <= i < g.len(),
        g[i] == 0,
    ensures
        empty_idx_seq(g).contains(i),
    decreases g.len(),
{
    if i == g.len() - 1 {
        assert(g.last() == g[i]);
        assert(empty_idx_seq(g)[empty_idx_seq(g).len() - 1] == i);
    } else {
        assert(g.drop_last()[i] == g[i]);
        lemma_empty_idx_complete(g.drop_last(), i);
        let q = choose|q: int|
            0 <= q < empty_idx_seq(g.drop_last()).len() && empty_idx_seq(g.drop_last())[q] == i;
        assert(empty_idx_seq(g)[q] == i);
    }
}

/// Scanning one more cell extends the empty list by that cell or not at
/// all.
pub proof fn lemma_empty_idx_take_succ(g: Seq<u32>, i: int)
    requires
        0 <= i < g.len(),
    ensures
        empty_idx_seq(g.take(i + 1)) == empty_idx_seq(g.take(i)) + (if g[i] == 0 {
            seq![i]
        } else {
            Seq::<int>::empty()
        }),
{
    assert(g.take(i + 1).drop_last() =~= g.take(i));
    assert(g.take(i + 1).last() == g[i]);
}

/// Computes the flat index of the `p`-th cell of line `l`, edge-first.
fn slot(dir: Direction, size: usize, l: usize, p: usize) -> (idx: usize)
    requires
        l < size,
        p < size,
        size * size <= usize::MAX,
    ensures
        idx == lidx(dir, size as int, l as int, p as int),
        idx < size * size,
{
    proof {
        lemma_lidx_bounds(dir, size as int, l as int, p as int);
    }
    match dir {
        Direction::Left => l * size + p,
        Direction::Right => l * size + (size - 1 - p),
        Direction::Up => p * size + l,
        Direction::Down => (size - 1 - p) * size + l,
    }
}

/// Copies a vector of cell values.
fn copy_vec(v: &Vec<u32>) -> (r: Vec<u32>)
    ensures
        r@ == v@,
{
    let n = v.len();
    let mut r: Vec<u32> = Vec::new();
    let mut i: usize = 0;
    while i < n
        invariant
            i <= n,
            n == v@.len(),
            r@.len() == i,
            forall|q: int| 0 <= q < i ==> r@[q] == v@[q],
        decreases n - i,
    {
        r.push(v[i]);
        i = i + 1;
    }
    proof {
        assert(r@ =~= v@);
    }
    r
}

/// Compares two equally long vectors of cell values.
fn vec_eq(a: &Vec<u32>, b: &Vec<u32>) -> (r: bool)
    requires
        a@.len() == b@.len(),
    ensures
        r == (a@ == b@),
{
    let n = a.len();
    let mut i: usize = 0;
    while i < n
        invariant
            i <= n,
            n == a@.len(),
            a@.len() == b@.len(),
            forall|q: int| 0 <= q < i ==> a@[q] == b@[q],
        decreases n - i,
    {
        if a[i] != b[i] {
            return false;
        }
        i = i + 1;
    }
    proof {
        assert(a@ =~= b@);
    }
    true
}

/// A full board: no cell is empty.
pub open spec fn full(g: Seq<u32>) -> bool {
    forall|i: int| 0 <= i < g.len() ==> g[i] != 0
}

/// Two horizontally adjacent cells hold the same value somewhere.
pub open spec fn has_pair_h(g: Seq<u32>, size: int) -> bool {
    exists|y: int, x: int|
        0 <= y < size && 0 <= x < size - 1 && #[trigger] g[y * size + x] == g[y * size + x + 1]
}

/// Two vertically adjacent cells hold the same value somewhere.
pub open spec fn has_pair_v(g: Seq<u32>, size: int) -> bool {
    exists|y: int, x: int|
        0 <= y < size - 1 && 0 <= x < size && #[trigger] g[y * size + x] == g[(y + 1) * size + x]
}

/// No move remains: the board is full and no two adjacent cells in any row
/// or column share a value.
pub open spec fn game_over(g: Seq<u32>, size: int) -> bool {
    full(g) && !has_pair_h(g, size) && !has_pair_v(g, size)
}

impl Grid {
    /// The coordinates of all empty cells, in row-major order.  The spawner
    /// draws from this list, and an empty result means the board is full.
    #[verifier::loop_isolation(false)]
    pub fn empty_cells(&self) -> (r: Vec<GridCoord>)
        requires
            self.wf(),
        ensures
            r@.len() == empty_idx_seq(self@).len(),
            forall|q: int|
                0 <= q < r@.len() ==> r@[q] == coord_of(
                    self.size as int,
                    empty_idx_seq(self@)[q],
                ),
    {
        let size = self.size;
        let n = self.grid.len();
        let mut r: Vec<GridCoord> = Vec::new();
        let mut i: usize = 0;
        proof {
            assert(self@.take(0) =~= Seq::<u32>::empty());
        }
        while i < n
            invariant
                i <= n,
                self.size == size,
                n == self@.len(),
                r@.len() == empty_idx_seq(self@.take(i as int)).len(),
                forall|q: int|
                    0 <= q < r@.len() ==> r@[q] == coord_of(
                        size as int,
                        empty_idx_seq(self@.take(i as int))[q],
                    ),
            decreases n - i,
        {
            proof {
                lemma_empty_idx_take_succ(self@, i as int);
            }
            if self.grid[i] == 0 {
                let x = i % size;
                let y = i / size;
                r.push(GridCoord { x, y });
            }
            i = i + 1;
        }
        proof {
            assert(self@.take(n as int) =~= self@);
        }
        r
    }

    /// Places a tile of the given value on the empty cell selected by the
    /// injected random pick, uniformly reduced over the empty cells in
    /// row-major order.  Returns the chosen coordinate, or nothing when the
    /// board has no room: no empty cell, or no mass headroom for the value.
    pub fn add_at_random_position(&mut self, value: u32, pick: usize) -> (r: Option<GridCoord>)
        requires
            old(self).wf(),
            value > 0,
        ensures
            final(self).wf(),
            final(self).size == old(self).size,
            (empty_idx_seq(old(self)@).len() > 0 && seq_sum(old(self)@) + value <= u32::MAX)
                <==> r is Some,
            r is None ==> final(self)@ == old(self)@,
            r is Some ==> r == Some(
                coord_of(old(self).size as int, spawn_index(old(self)@, pick as int)),
            ) && final(self)@ == old(self)@.update(spawn_index(old(self)@, pick as int), value),
    {
        let empties = self.empty_cells();
        if empties.len() == 0 {
            return None;
        }
        let total = self.total();
        if value > u32::MAX - total {
            return None;
        }
        let which = pick % empties.len();
        let c = empties[which];
        proof {
            lemma_empty_idx_props(self@);
            let chosen = empty_idx_seq(self@)[which as int];
            lemma_coord_bounds(self.size as int, chosen);
            assert(self@[chosen] == 0);
        }
        self.set_value(c, value);
        Some(c)
    }

    /// No legal move remains exactly when the board is full and no two
    /// adjacent cells in any row or column hold equal values.
    #[verifier::loop_isolation(false)]
    pub fn is_game_over(&self) -> (r: bool)
        requires
            self.wf(),
        ensures
            r == game_over(self@, self.size as int),
    {
        let size = self.size;
        let sz: Ghost<int> = Ghost(size as int);
        let n = self.grid.len();
        let mut i: usize = 0;
        while i < n
            invariant
                i <= n,
                forall|q: int| 0 <= q < i ==> self@[q] != 0,
            decreases n - i,
        {
            if self.grid[i] == 0 {
                return false;
            }
            i = i + 1;
        }
        let mut y: usize = 0;
        while y < size
            invariant
                y <= size,
                forall|y2: int, x2: int|
                    0 <= y2 < y && 0 <= x2 < size - 1 ==> #[trigger] self@[y2 * sz@ + x2]
                        != self@[y2 * sz@ + x2 + 1],
                forall|y2: int, x2: int|
                    0 <= y2 < y && y2 < size - 1 && 0 <= x2 < size ==> #[trigger] self@[y2 * sz@
                        + x2] != self@[(y2 + 1) * sz@ + x2],
            decreases size - y,
        {
            let mut x: usize = 0;
            while x < size
                invariant
                    x <= size,
                    y < size,
                    forall|x2: int|
                        0 <= x2 < x && x2 < size - 1 ==> #[trigger] self@[y as int * sz@ + x2]
                            != self@[y as int * sz@ + x2 + 1],
                    forall|x2: int|
                        0 <= x2 < x && (y as int) < size - 1 ==> #[trigger] self@[y as int * sz@
                            + x2] != self@[(y as int + 1) * sz@ + x2],
                decreases size - x,
            {
                proof {
                    lemma_row_bounds(sz@, y as int, x as int);
                }
                let idx = y * size + x;
                if x + 1 < size && self.grid[idx] == self.grid[idx + 1] {
                    return false;
                }
                if y + 1 < size {
                    proof {
                        lemma_row_bounds(sz@, y as int + 1, x as int);
                    }
                    if self.grid[idx] == self.grid[idx + size] {
                        return false;
                    }
                }
                x = x + 1;
            }
            y = y + 1;
        }
        proof {
            if has_pair_h(self@, sz@) {
                let (yw, xw) = choose|y2: int, x2: int|
                    0 <= y2 < sz@ && 0 <= x2 < sz@ - 1 && #[trigger] self@[y2 * sz@ + x2]
                        == self@[y2 * sz@ + x2 + 1];
                assert(self@[yw * sz@ + xw] != self@[yw * sz@ + xw + 1]);
            }
            if has_pair_v(self@, sz@) {
                let (yw, xw) = choose|y2: int, x2: int|
                    0 <= y2 < sz@ - 1 && 0 <= x2 < sz@ && #[trigger] self@[y2 * sz@ + x2]
                        == self@[(y2 + 1) * sz@ + x2];
                assert(self@[yw * sz@ + xw] != self@[(yw + 1) * sz@ + xw]);
            }
        }
        true
    }
}

impl Default for Grid {
    /// A fresh empty grid of the canonical size 4.
    fn default() -> (r: Grid)
        ensures
            r.wf(),
            r.size == 4,
            r@.len() == 16,
            forall|i: int| 0 <= i < r@.len() ==> r@[i] == 0,
    {
        Grid::new(4)
    }
}

impl From<(usize, usize)> for GridCoord {
    /// Reads an `(x, y)` pair as a coordinate.
    fn from(t: (usize, usize)) -> (r: GridCoord) {
        GridCoord { x: t.0, y: t.1 }
    }
}

impl vstd::std_specs::convert::FromSpecImpl<(usize, usize)> for GridCoord {
    open spec fn obeys_from_spec() -> bool {
        true
    }

    open spec fn from_spec(t: (usize, usize)) -> GridCoord {
        GridCoord { x: t.0, y: t.1 }
    }
}

/// A coordinate built from an in-range flat index is in bounds and maps
/// back to that index.
pub proof fn lemma_coord_bounds(size: int, idx: int)
    requires
        0 < size <= usize::MAX,
        0 <= idx < size * size,
    ensures
        coord_of(size, idx).x < size,
        coord_of(size, idx).y < size,
        coord_of(size, idx).y * size + coord_of(size, idx).x == idx,
{
    lemma_idx_cover(Direction::Left, size, idx);
}

/// A cell of row `y`, column `x` lies within the flat array.
pub proof fn lemma_row_bounds(size: int, y: int, x: int)
    requires
        0 < size,
        0 <= y < size,
        0 <= x < size,
    ensures
        0 <= y * size + x < size * size,
        x < size - 1 ==> y * size + x + 1 < size * size,
        y < size - 1 ==> y * size + x + size < size * size && y * size + x + size == (y + 1) * size
            + x,
{
    assert((y + 1) * size == y * size + size) by (nonlinear_arith);
    assert(y * size + x < size * size && (x < size - 1 ==> y * size + x + 1 < size * size) && (y
        < size - 1 ==> (y + 1) * size + x < size * size)) by (nonlinear_arith)
        requires 0 < size && 0 <= y < size && 0 <= x < size;
}

/// The mass of a prefix of lines is non-negative and grows with the prefix.
pub proof fn lemma_lines_mass_mono(g: Seq<u32>, dir: Direction, size: int, a: int, b: int)
    requires
        0 <= a <= b,
    ensures
        lines_mass(g, dir, size, a) <= lines_mass(g, dir, size, b),
    decreases b - a,
{
    if a < b {
        lemma_lines_mass_mono(g, dir, size, a, b - 1);
        lemma_seq_sum_nonneg(line_of(g, dir, size, b - 1));
    }
}

/// Extending a prefix by one cell adds that cell's value to its sum.
pub proof fn lemma_seq_sum_take_succ(s: Seq<u32>, i: int)
    requires
        0 <= i < s.len(),
    ensures
        seq_sum(s.take(i + 1)) == seq_sum(s.take(i)) + s[i],
{
    lemma_seq_sum_split(s.take(i + 1), i);
    assert(s.take(i + 1).take(i) =~= s.take(i));
    assert(s.take(i + 1).skip(i) =~= seq![s[i]]);
    crate::line::lemma_seq_sum_one(seq![s[i]]);
}

} // verus!
