use crate::tile::Tile;
use vstd::prelude::*;

verus! {

/// One grid position: resolved to a catalog index, or still holding the
/// catalog indices it may take.
#[derive(Clone, Debug)]
pub struct Cell {
    pub resolved: bool,
    pub chosen: Option<usize>,
    pub available: Vec<usize>,
}

pub struct CellModel {
    pub resolved: bool,
    pub chosen: Option<usize>,
    pub available: Seq<usize>,
}

impl View for Cell {
    type V = CellModel;

    open spec fn view(&self) -> CellModel {
        CellModel { resolved: self.resolved, chosen: self.chosen, available: self.available@ }
    }
}

impl CellModel {
    /// A cell over a catalog of `n` tiles: it is resolved exactly when it has
    /// a chosen index, that index is a catalog index, and its candidates are
    /// distinct catalog indices.
    pub open spec fn wf(self, n: nat) -> bool {
        &&& (self.resolved <==> self.chosen is Some)
        &&& (self.chosen matches Some(t) ==> t < n)
        &&& forall|k: int| 0 <= k < self.available.len() ==> #[trigger] self.available[k] < n
        &&& self.available.no_duplicates()
    }

    /// A cell as it stands before any tick: every catalog index is a candidate.
    pub open spec fn fresh(self, n: nat) -> bool {
        &&& !self.resolved
        &&& self.chosen is None
        &&& self.available == Seq::new(n, |i: int| i as usize)
    }
}

/// A `width` by `height` grid of cells, stored row by row: the cell at
/// column `x`, row `y` is `cells[y * width + x]`.
#[derive(Clone, Debug)]
pub struct Grid {
    pub width: usize,
    pub height: usize,
    pub tile_count: usize,
    pub cells: Vec<Cell>,
}

pub struct GridModel {
    pub width: nat,
    pub height: nat,
    pub tile_count: nat,
    pub cells: Seq<CellModel>,
}

impl View for Grid {
    type V = GridModel;

    open spec fn view(&self) -> GridModel {
        GridModel {
            width: self.width as nat,
            height: self.height as nat,
            tile_count: self.tile_count as nat,
            cells: self.cells@.map_values(|c: Cell| c@),
        }
    }
}

impl GridModel {
    pub open spec fn wf(self) -> bool {
        &&& self.cells.len() == self.width * self.height
        &&& forall|j: int| 0 <= j < self.cells.len() ==> #[trigger] self.cells[j].wf(self.tile_count)
    }

    pub open spec fn index(self, x: int, y: int) -> int {
        y * self.width + x
    }
}

/// The positions, as indices into a `w`-wide row-major grid of height `h`,
/// of the orthogonal neighbours of column `x`, row `y` that lie on the grid:
/// above, below, to the left and to the right, in that order.
pub open spec fn neighbor_seq(w: int, h: int, x: int, y: int) -> Seq<int> {
    let above = if y > 0 { seq![(y - 1) * w + x] } else { Seq::<int>::empty() };
    let below = if y + 1 < h { seq![(y + 1) * w + x] } else { Seq::<int>::empty() };
    let before = if x > 0 { seq![y * w + x - 1] } else { Seq::<int>::empty() };
    let after = if x + 1 < w { seq![y * w + x + 1] } else { Seq::<int>::empty() };
    above + below + before + after
}

/// Whether index `j` of a `w`-wide row-major grid of height `h` is an
/// orthogonal neighbour of column `x`, row `y`.
pub open spec fn is_neighbor(w: int, h: int, x: int, y: int, j: int) -> bool {
    ||| (y > 0 && j == (y - 1) * w + x)
    ||| (y + 1 < h && j == (y + 1) * w + x)
    ||| (x > 0 && j == y * w + x - 1)
    ||| (x + 1 < w && j == y * w + x + 1)
}

/// How many cells of a canvas fit along each side: the canvas sides divided
/// by the tile sides, any remainder left as margin.
pub fn grid_dimensions(canvas_width: usize, canvas_height: usize, tile_width: usize, tile_height: usize) -> (r: (usize, usize))
    requires
        tile_width > 0,
        tile_height > 0,
    ensures
        r.0 == canvas_width / tile_width,
        r.1 == canvas_height / tile_height,
{
    (canvas_width / tile_width, canvas_height / tile_height)
}

impl Grid {
    /// A `width` by `height` grid over an empty catalog: every cell is
    /// unresolved and has no candidates.
    pub fn new(width: usize, height: usize) -> (g: Grid)
        requires
            width * height <= usize::MAX,
        ensures
            g@.wf(),
            g.width == width,
            g.height == height,
            g.tile_count == 0,
            forall|j: int| 0 <= j < g@.cells.len() ==> #[trigger] g@.cells[j].fresh(0),
    {
        let n = width * height;
        let mut cells: Vec<Cell> = Vec::new();
        let mut j: usize = 0;
        while j < n
            invariant
                j <= n,
                cells.len() == j,
                forall|i: int| 0 <= i < j ==> #[trigger] cells@[i]@.fresh(0) && cells@[i]@.wf(0),
            decreases n - j,
        {
            let c = Cell { resolved: false, chosen: None, available: Vec::new() };
            proof {
                assert(c@.available =~= Seq::new(0, |i: int| i as usize));
            }
            let ghost before = cells@;
            cells.push(c);
            assert(forall|i: int| 0 <= i < j ==> cells@[i] == before[i]);
            j += 1;
        }
        let g = Grid { width, height, tile_count: 0, cells };
        proof {
            assert forall|i: int| 0 <= i < g@.cells.len() implies #[trigger] g@.cells[i].fresh(0) && g@.cells[i].wf(0) by {
                assert(g@.cells[i] == g.cells@[i]@);
                assert(g.cells@[i]@.fresh(0));
                assert(g.cells@[i]@.wf(0));
            }
            assert(g@.cells.len() == width * height);
            assert(g@.tile_count == 0);
            assert forall|i: int| 0 <= i < g@.cells.len() implies #[trigger] g@.cells[i].wf(g@.tile_count) by {
                assert(g@.cells[i] == g.cells@[i]@);
                assert(g.cells@[i]@.fresh(0));
            }
        }
        g
    }

    /// The cell at column `x`, row `y`.
    pub fn cell(&self, x: usize, y: usize) -> (c: &Cell)
        requires
            self@.wf(),
            x < self.width,
            y < self.height,
        ensures
            c@ == self@.cells[self@.index(x as int, y as int)],
    {
        let n = self.cells.len();
        proof {
            crate::raster::lemma_cell_index(self.width as int, self.height as int, x as int, y as int);
        }
        &self.cells[y * self.width + x]
    }
}

/// The catalog indices `0..n` in order.
fn all_indices(n: usize) -> (v: Vec<usize>)
    ensures
        v@ == Seq::new(n as nat, |i: int| i as usize),
{
    let mut v: Vec<usize> = Vec::new();
    let mut i: usize = 0;
    while i < n
        invariant
            i <= n,
            v@ == Seq::new(i as nat, |k: int| k as usize),
        decreases n - i,
    {
        v.push(i);
        i += 1;
        assert(v@ =~= Seq::new(i as nat, |k: int| k as usize));
    }
    v
}

/// Gives every cell of the grid the whole catalog as candidates and marks it
/// unresolved.
pub fn init_grid(grid: &mut Grid, tiles: &Vec<Tile>)
    requires
        old(grid)@.wf(),
    ensures
        final(grid)@.wf(),
        final(grid).width == old(grid).width,
        final(grid).height == old(grid).height,
        final(grid).tile_count == tiles.len(),
        forall|j: int| 0 <= j < final(grid)@.cells.len() ==> #[trigger] final(grid)@.cells[j].fresh(tiles.len() as nat),
{
    let n = tiles.len();
    let count = grid.cells.len();
    grid.tile_count = n;
    let mut j: usize = 0;
    while j < count
        invariant
            j <= count,
            count == grid.cells.len(),
            grid.width == old(grid).width,
            grid.height == old(grid).height,
            grid.tile_count == n,
            grid.cells.len() == grid.width * grid.height,
            forall|i: int| 0 <= i < j ==> #[trigger] grid.cells@[i]@.fresh(n as nat),
        decreases count - j,
    {
        let c = Cell { resolved: false, chosen: None, available: all_indices(n) };
        let ghost before = grid.cells@;
        grid.cells[j] = c;
        assert(forall|i: int| 0 <= i < j ==> grid.cells@[i] == before[i]);
        j += 1;
    }
    proof {
        assert forall|j: int| 0 <= j < grid@.cells.len() implies #[trigger] grid@.cells[j].wf(n as nat) && grid@.cells[j].fresh(n as nat) by {
            assert(grid@.cells[j] == grid.cells@[j]@);
            assert(grid@.cells[j].fresh(n as nat));
            assert(grid@.cells[j].available.no_duplicates());
        }
    }
}

} // verus!
