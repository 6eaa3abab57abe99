use crate::errors::GenError;
use vstd::arithmetic::div_mod::lemma_div_is_ordered;
use vstd::arithmetic::div_mod::lemma_div_multiples_vanish;
use vstd::arithmetic::div_mod::lemma_fundamental_div_mod;
use vstd::arithmetic::div_mod::lemma_mod_bound;
use vstd::arithmetic::mul::lemma_mul_inequality;
use vstd::prelude::*;

verus! {

/// An integer coordinate on the grid. Out-of-bounds positions are
/// representable on purpose: neighbour arithmetic may step one cell past an
/// edge, and `check_bounds` tells such positions apart.
#[derive(Clone, Copy, PartialEq, Eq, Structural)]
pub struct Pos {
    pub x: i32,
    pub y: i32,
}

/// One grid cell. `id == 0` means unresolved; otherwise `id` is a 1-based
/// tile identifier. `visited` is a transient mark owned by a single
/// propagation pass and reset before the next pass.
#[derive(Clone, Copy, PartialEq, Eq, Structural)]
pub struct Cell {
    pub id: usize,
    pub visited: bool,
}

/// Horizontal part of the `d`-th orthogonal offset, in the fixed
/// exploration order: up, right, down, left.
pub open spec fn offset_dx(d: int) -> int {
    if d == 1 {
        1
    } else if d == 3 {
        -1
    } else {
        0
    }
}

/// Vertical part of the `d`-th orthogonal offset.
pub open spec fn offset_dy(d: int) -> int {
    if d == 0 {
        -1
    } else if d == 2 {
        1
    } else {
        0
    }
}

/// The `d`-th orthogonal neighbour offset as a `Pos`.
pub fn offset_at(d: usize) -> (p: Pos)
    requires
        d < 4,
    ensures
        p.x as int == offset_dx(d as int),
        p.y as int == offset_dy(d as int),
{
    if d == 0 {
        Pos { x: 0, y: -1 }
    } else if d == 1 {
        Pos { x: 1, y: 0 }
    } else if d == 2 {
        Pos { x: 0, y: 1 }
    } else {
        Pos { x: -1, y: 0 }
    }
}

/// Component-wise sum of two positions.
pub fn add_pos(a: &Pos, b: &Pos) -> (r: Pos)
    requires
        i32::MIN <= a.x as int + b.x as int <= i32::MAX,
        i32::MIN <= a.y as int + b.y as int <= i32::MAX,
    ensures
        r.x as int == a.x as int + b.x as int,
        r.y as int == a.y as int + b.y as int,
{
    Pos { x: a.x + b.x, y: a.y + b.y }
}

/// A fixed-size 2D array of cells in row-major order: the cell at `(x, y)`
/// sits at index `y * width + x`.
pub struct Grid {
    pub cells: Vec<Cell>,
    pub width: usize,
    pub height: usize,
}

impl Grid {
    /// Dimensions are positive, small enough for `i32` coordinates, and the
    /// backing vector holds exactly one cell per position.
    pub open spec fn dims_ok(self) -> bool {
        &&& 1 <= self.width
        &&& 1 <= self.height
        &&& self.width as int <= i32::MAX as int
        &&& self.height as int <= i32::MAX as int
        &&& self.cells@.len() == self.width * self.height
    }

    /// Well-formed for a tile set of `n` tiles: every id is in `[0, n]`.
    pub open spec fn wf(self, n: int) -> bool {
        &&& self.dims_ok()
        &&& forall|i: int|
            0 <= i < self.cells@.len() ==> (#[trigger] self.cells@[i]).id as int <= n
    }

    pub open spec fn spec_in_bounds(self, x: int, y: int) -> bool {
        &&& 0 <= x < self.width as int
        &&& 0 <= y < self.height as int
    }

    /// Row-major index of an in-bounds coordinate.
    pub open spec fn spec_index_of(self, x: int, y: int) -> int {
        y * self.width as int + x
    }

    /// Tile id stored at an in-bounds coordinate.
    pub open spec fn id_at(self, x: int, y: int) -> int {
        self.cells@[self.spec_index_of(x, y)].id as int
    }

    /// Tile id seen by a neighbour lookup: `0` (no constraint) when the
    /// coordinate is out of bounds, the stored id otherwise.
    pub open spec fn lookup_id(self, x: int, y: int) -> int {
        if self.spec_in_bounds(x, y) {
            self.id_at(x, y)
        } else {
            0
        }
    }
}

/// A row-major index is within the cell vector.
pub proof fn lemma_index_in_range(g: Grid, x: int, y: int)
    requires
        g.dims_ok(),
        g.spec_in_bounds(x, y),
    ensures
        0 <= g.spec_index_of(x, y) < g.cells@.len(),
{
    let w = g.width as int;
    let h = g.height as int;
    assert(y * w + x < w * h) by (nonlinear_arith)
        requires
            0 <= x < w,
            0 <= y < h,
    ;
    assert(0 <= y * w + x) by (nonlinear_arith)
        requires
            0 <= x,
            0 <= y,
            0 <= w,
    ;
}

/// Row-major indexing is injective over in-bounds coordinates.
pub proof fn lemma_index_injective(g: Grid, x1: int, y1: int, x2: int, y2: int)
    requires
        g.dims_ok(),
        g.spec_in_bounds(x1, y1),
        g.spec_in_bounds(x2, y2),
        g.spec_index_of(x1, y1) == g.spec_index_of(x2, y2),
    ensures
        x1 == x2 && y1 == y2,
{
    let w = g.width as int;
    assert(x1 == x2 && y1 == y2) by (nonlinear_arith)
        requires
            0 <= x1 < w,
            0 <= x2 < w,
            y1 * w + x1 == y2 * w + x2,
    ;
}

/// Returns whether `pos` lies inside a `width` by `height` grid.
pub fn check_bounds(pos: &Pos, width: usize, height: usize) -> (r: bool)
    requires
        width as int <= i32::MAX as int,
        height as int <= i32::MAX as int,
    ensures
        r <==> (0 <= pos.x && (pos.x as int) < width as int && 0 <= pos.y && (pos.y as int)
            < height as int),
{
    !(pos.x >= width as i32 || pos.x < 0 || pos.y >= height as i32 || pos.y < 0)
}

impl Grid {
    /// Exec counterpart of `spec_index_of` for an in-bounds position.
    pub fn index_of(&self, pos: &Pos) -> (i: usize)
        requires
            self.dims_ok(),
            self.spec_in_bounds(pos.x as int, pos.y as int),
        ensures
            i as int == self.spec_index_of(pos.x as int, pos.y as int),
            i < self.cells@.len(),
    {
        let n = self.cells.len();
        proof {
            lemma_index_in_range(*self, pos.x as int, pos.y as int);
        }
        let i = (pos.y as usize) * self.width + (pos.x as usize);
        assert(i < n);
        i
    }

    /// The tile ids in row-major order, as a renderer consumes them.
    pub fn ids(&self) -> (r: Vec<usize>)
        ensures
            r@.len() == self.cells@.len(),
            forall|i: int| 0 <= i < r@.len() ==> r@[i] == (#[trigger] self.cells@[i]).id,
    {
        let mut r: Vec<usize> = Vec::new();
        let n = self.cells.len();
        let mut i: usize = 0;
        while i < n
            invariant
                i <= n,
                n == self.cells@.len(),
                r@.len() == i,
                forall|j: int| 0 <= j < i ==> r@[j] == (#[trigger] self.cells@[j]).id,
            decreases n - i,
        {
            r.push(self.cells[i].id);
            i = i + 1;
        }
        r
    }

    /// Bounds-checked tile id lookup: out-of-bounds positions read as `0`.
    pub fn get_id(&self, pos: &Pos) -> (r: usize)
        requires
            self.dims_ok(),
        ensures
            r as int == self.lookup_id(pos.x as int, pos.y as int),
    {
        if !check_bounds(pos, self.width, self.height) {
            return 0;
        }
        let i = self.index_of(pos);
        self.cells[i].id
    }
}

/// Number of cells not yet carrying the transient `visited` mark.
pub open spec fn count_unvisited(s: Seq<Cell>) -> nat
    decreases s.len(),
{
    if s.len() == 0 {
        0
    } else {
        count_unvisited(s.drop_last()) + (if s.last().visited {
            0nat
        } else {
            1nat
        })
    }
}

/// Number of unresolved cells (`id == 0`).
pub open spec fn count_unresolved(s: Seq<Cell>) -> nat
    decreases s.len(),
{
    if s.len() == 0 {
        0
    } else {
        count_unresolved(s.drop_last()) + (if s.last().id == 0 {
            1nat
        } else {
            0nat
        })
    }
}

/// How both counts change when a single cell is replaced.
pub proof fn lemma_counts_update(s: Seq<Cell>, i: int, c: Cell)
    requires
        0 <= i < s.len(),
    ensures
        count_unvisited(s.update(i, c)) as int == count_unvisited(s) as int - (if s[i].visited {
            0int
        } else {
            1int
        }) + (if c.visited {
            0int
        } else {
            1int
        }),
        count_unresolved(s.update(i, c)) as int == count_unresolved(s) as int - (if s[i].id == 0 {
            1int
        } else {
            0int
        }) + (if c.id == 0 {
            1int
        } else {
            0int
        }),
    decreases s.len(),
{
    let su = s.update(i, c);
    if i == s.len() - 1 {
        assert(su.drop_last() =~= s.drop_last());
        assert(su.last() == c);
    } else {
        assert(su.drop_last() =~= s.drop_last().update(i, c));
        lemma_counts_update(s.drop_last(), i, c);
        assert(su.last() == s.last());
    }
}

/// `count_unresolved` reads only ids: sequences that agree on ids agree on
/// it.
pub proof fn lemma_count_unresolved_same_ids(s1: Seq<Cell>, s2: Seq<Cell>)
    requires
        s1.len() == s2.len(),
        forall|i: int| 0 <= i < s1.len() ==> (#[trigger] s1[i]).id == s2[i].id,
    ensures
        count_unresolved(s1) == count_unresolved(s2),
    decreases s1.len(),
{
    if s1.len() > 0 {
        lemma_count_unresolved_same_ids(s1.drop_last(), s2.drop_last());
    }
}

/// Coordinates of a row-major index: the inverse of `spec_index_of`.
pub proof fn lemma_coords_of_index(g: Grid, i: int)
    requires
        g.dims_ok(),
        0 <= i < g.cells@.len(),
    ensures
        ({
            let w = g.width as int;
            &&& g.spec_in_bounds(i % w, i / w)
            &&& g.spec_index_of(i % w, i / w) == i
        }),
{
    let w = g.width as int;
    let h = g.height as int;
    lemma_fundamental_div_mod(i, w);
    lemma_mod_bound(i, w);
    assert(0 <= i / w < h) by (nonlinear_arith)
        requires
            w >= 1,
            0 <= i,
            i < w * h,
            i == w * (i / w) + i % w,
            0 <= i % w < w,
    ;
    assert(g.spec_in_bounds(i % w, i / w));
    assert((i / w) * w + i % w == i);
    assert(g.spec_index_of(i % w, i / w) == i);
}

/// Dimensions the generator accepts: positive, small enough for `i32`
/// coordinates, with a total cell count that fits in `usize`.
pub open spec fn dims_acceptable(width: int, height: int) -> bool {
    &&& 1 <= width && 1 <= height
    &&& width <= i32::MAX as int
    &&& height <= i32::MAX as int
    &&& width * height <= usize::MAX as int
}

impl Grid {
    /// Allocates a fully unresolved grid, or reports `ArgumentError` for
    /// unusable dimensions.
    pub fn new(width: usize, height: usize) -> (r: Result<Grid, GenError>)
        ensures
            match r {
                Ok(g) => {
                    &&& dims_acceptable(width as int, height as int)
                    &&& g.width == width
                    &&& g.height == height
                    &&& g.dims_ok()
                    &&& forall|i: int|
                        0 <= i < g.cells@.len() ==> #[trigger] g.cells@[i] == (Cell {
                            id: 0,
                            visited: false,
                        })
                },
                Err(e) => {
                    &&& !dims_acceptable(width as int, height as int)
                    &&& e == GenError::ArgumentError
                },
            },
    {
        if width < 1 || height < 1 {
            return Err(GenError::ArgumentError);
        }
        if width > (i32::MAX as usize) || height > (i32::MAX as usize) {
            return Err(GenError::ArgumentError);
        }
        if width > usize::MAX / height {
            proof {
                if width as int * height as int <= usize::MAX as int {
                    lemma_div_is_ordered(
                        width as int * height as int,
                        usize::MAX as int,
                        height as int,
                    );
                    lemma_div_multiples_vanish(width as int, height as int);
                }
            }
            return Err(GenError::ArgumentError);
        }
        proof {
            lemma_mul_inequality(
                width as int,
                usize::MAX as int / height as int,
                height as int,
            );
            lemma_fundamental_div_mod(usize::MAX as int, height as int);
            lemma_mod_bound(usize::MAX as int, height as int);
        }
        let total = width * height;
        let mut cells: Vec<Cell> = Vec::new();
        let mut i: usize = 0;
        while i < total
            invariant
                i <= total,
                cells@.len() == i,
                forall|j: int|
                    0 <= j < i ==> #[trigger] cells@[j] == (Cell { id: 0, visited: false }),
            decreases total - i,
        {
            cells.push(Cell { id: 0, visited: false });
            i = i + 1;
        }
        Ok(Grid { cells, width, height })
    }
}

} // verus!
