use crate::grid::{is_neighbor, neighbor_seq, Cell, CellModel, Grid, GridModel};
use rand::Rng;
use rand_chacha::ChaCha20Rng;
use vstd::prelude::*;

verus! {

/// `s` without the entries equal to `t`, the others kept in order.
pub open spec fn drop_index(s: Seq<usize>, t: usize) -> Seq<usize> {
    s.filter(|e: usize| e != t)
}

proof fn lemma_drop_index(s: Seq<usize>, t: usize)
    ensures
        drop_index(s, t).len() <= s.len(),
        forall|e: usize| drop_index(s, t).contains(e) <==> (s.contains(e) && e != t),
        s.no_duplicates() ==> drop_index(s, t).no_duplicates(),
    decreases s.len(),
{
    reveal(Seq::filter);
    if s.len() > 0 {
        let p = s.drop_last();
        lemma_drop_index(p, t);
        let rp = drop_index(p, t);
        assert(drop_index(s, t) == if s.last() != t { rp.push(s.last()) } else { rp });
        assert forall|e: usize| s.contains(e) <==> (p.contains(e) || e == s.last()) by {
            if s.contains(e) {
                let i = choose|i: int| 0 <= i < s.len() && s[i] == e;
                if i < s.len() - 1 {
                    assert(p[i] == e);
                }
            }
            if p.contains(e) {
                let i = choose|i: int| 0 <= i < p.len() && p[i] == e;
                assert(s[i] == e);
            }
            if e == s.last() {
                assert(s[s.len() - 1] == e);
            }
        }
        if s.last() != t {
            let r = rp.push(s.last());
            assert forall|e: usize| r.contains(e) <==> (rp.contains(e) || e == s.last()) by {
                if r.contains(e) {
                    let i = choose|i: int| 0 <= i < r.len() && r[i] == e;
                    if i < rp.len() {
                        assert(rp[i] == e);
                    }
                }
                if rp.contains(e) {
                    let i = choose|i: int| 0 <= i < rp.len() && rp[i] == e;
                    assert(r[i] == e);
                }
                if e == s.last() {
                    assert(r[r.len() - 1] == e);
                }
            }
            if s.no_duplicates() {
                assert(!p.contains(s.last())) by {
                    if p.contains(s.last()) {
                        let i = choose|i: int| 0 <= i < p.len() && p[i] == s.last();
                        assert(s[i] == s[s.len() - 1]);
                    }
                }
                assert(p.no_duplicates()) by {
                    assert forall|i: int, j: int| 0 <= i < p.len() && 0 <= j < p.len() && i != j implies p[i] != p[j] by {
                        assert(s[i] == p[i] && s[j] == p[j]);
                    }
                }
                assert(!rp.contains(s.last()));
                assert forall|i: int, j: int| 0 <= i < r.len() && 0 <= j < r.len() && i != j implies r[i] != r[j] by {
                    if i == rp.len() {
                        assert(rp.contains(r[j]));
                    } else if j == rp.len() {
                        assert(rp.contains(r[i]));
                    }
                }
            }
        } else if s.no_duplicates() {
            assert(p.no_duplicates()) by {
                assert forall|i: int, j: int| 0 <= i < p.len() && 0 <= j < p.len() && i != j implies p[i] != p[j] by {
                    assert(s[i] == p[i] && s[j] == p[j]);
                }
            }
        }
    }
}

/// A copy of `v` without the entries equal to `t`.
fn without(v: &Vec<usize>, t: usize) -> (r: Vec<usize>)
    ensures
        r@ == drop_index(v@, t),
{
    let mut r: Vec<usize> = Vec::new();
    let mut i: usize = 0;
    while i < v.len()
        invariant
            i <= v.len(),
            r@ == drop_index(v@.subrange(0, i as int), t),
        decreases v.len() - i,
    {
        proof {
            reveal(Seq::filter);
            assert(v@.subrange(0, i + 1).drop_last() =~= v@.subrange(0, i as int));
            assert(v@.subrange(0, i + 1).last() == v@[i as int]);
        }
        if v[i] != t {
            r.push(v[i]);
        }
        i += 1;
    }
    assert(v@.subrange(0, v.len() as int) =~= v@);
    r
}

/// The cell after the index `t` has been taken from its candidates, unless
/// it is resolved.
pub open spec fn pruned(c: CellModel, t: usize) -> CellModel {
    if c.resolved {
        c
    } else {
        CellModel { resolved: c.resolved, chosen: c.chosen, available: drop_index(c.available, t) }
    }
}

proof fn lemma_pruned_wf(c: CellModel, t: usize, n: nat)
    requires
        c.wf(n),
    ensures
        pruned(c, t).wf(n),
        pruned(c, t).available.len() <= c.available.len(),
        pruned(c, t).resolved == c.resolved,
        pruned(c, t).chosen == c.chosen,
{
    lemma_drop_index(c.available, t);
    let d = drop_index(c.available, t);
    assert forall|k: int| 0 <= k < d.len() implies #[trigger] d[k] < n by {
        assert(d.contains(d[k]));
        assert(c.available.contains(d[k]));
        let i = choose|i: int| 0 <= i < c.available.len() && c.available[i] == d[k];
        assert(c.available[i] < n);
    }
}

/// Takes the index `t` from the candidates of cell `j`, unless it is resolved.
fn prune(grid: &mut Grid, j: usize, t: usize)
    requires
        j < old(grid).cells.len(),
    ensures
        final(grid).cells.len() == old(grid).cells.len(),
        final(grid)@ == (GridModel { cells: old(grid)@.cells.update(j as int, pruned(old(grid)@.cells[j as int], t)), ..old(grid)@ }),
{
    if !grid.cells[j].resolved {
        let available = without(&grid.cells[j].available, t);
        let c = Cell { resolved: false, chosen: grid.cells[j].chosen, available };
        grid.cells[j] = c;
    }
    assert(grid@.cells =~= old(grid)@.cells.update(j as int, pruned(old(grid)@.cells[j as int], t)));
}

/// What one tick did.
#[derive(Clone, Copy, Debug, PartialEq, Eq, Structural)]
pub enum TickOutcome {
    /// Nothing changed: the drawn cell was resolved already, or had a single
    /// candidate.
    Skipped,
    /// Nothing changed: the drawn cell is unresolved and has no candidate
    /// left, so it can never be resolved.
    Contradiction,
    /// The drawn cell was resolved to this catalog index.
    Resolved(usize),
}

/// A cell that a tick may resolve: unresolved, with two candidates or more.
pub open spec fn eligible(c: CellModel) -> bool {
    !c.resolved && c.available.len() > 1
}

/// What a tick that drew column `x`, row `y` and candidate position `pick`
/// does. A draw off the grid, or a position past the candidates, changes
/// nothing.
pub open spec fn tick_outcome(g: GridModel, x: int, y: int, pick: int) -> TickOutcome {
    let c = g.cells[g.index(x, y)];
    if !(0 <= x < g.width && 0 <= y < g.height) {
        TickOutcome::Skipped
    } else if c.resolved || c.available.len() == 1 {
        TickOutcome::Skipped
    } else if c.available.len() == 0 {
        TickOutcome::Contradiction
    } else if !(0 <= pick < c.available.len()) {
        TickOutcome::Skipped
    } else {
        TickOutcome::Resolved(c.available[pick])
    }
}

/// Cell `j` once column `x`, row `y` is resolved to `t`: that cell takes
/// `t`, its unresolved orthogonal neighbours lose `t` from their
/// candidates, and every other cell stays as it was.
pub open spec fn settled(g: GridModel, x: int, y: int, t: usize, j: int) -> CellModel {
    let c = g.cells[j];
    if j == g.index(x, y) {
        CellModel { resolved: true, chosen: Some(t), available: c.available }
    } else if is_neighbor(g.width as int, g.height as int, x, y, j) {
        pruned(c, t)
    } else {
        c
    }
}

/// The grid after a tick that drew column `x`, row `y` and candidate position `pick`.
pub open spec fn ticked(g: GridModel, x: int, y: int, pick: int) -> GridModel {
    match tick_outcome(g, x, y, pick) {
        TickOutcome::Resolved(t) => GridModel {
            cells: Seq::new(g.cells.len(), |j: int| settled(g, x, y, t, j)),
            ..g
        },
        _ => g,
    }
}

/// A draw that a tick can make: a cell of the grid and, where that cell
/// will be resolved, a position among its candidates.
pub open spec fn valid_draw(g: GridModel, x: int, y: int, pick: int) -> bool {
    &&& 0 <= x < g.width
    &&& 0 <= y < g.height
    &&& eligible(g.cells[g.index(x, y)]) ==> 0 <= pick < g.cells[g.index(x, y)].available.len()
}

proof fn lemma_neighbor_indices(w: int, h: int, x: int, y: int)
    requires
        0 <= x < w,
        0 <= y < h,
    ensures
        (y - 1) * w + x == y * w + x - w,
        (y + 1) * w + x == y * w + x + w,
        0 <= y * w + x < w * h,
        y > 0 ==> 0 <= (y - 1) * w + x,
        y + 1 < h ==> (y + 1) * w + x < w * h,
        x + 1 < w ==> y * w + x + 1 < w * h,
{
    assert((y - 1) * w == y * w - w) by (nonlinear_arith);
    assert((y + 1) * w == y * w + w) by (nonlinear_arith);
    crate::raster::lemma_cell_index(w, h, x, y);
    if y + 1 < h {
        crate::raster::lemma_cell_index(w, h, x, y + 1);
    }
    if x + 1 < w {
        crate::raster::lemma_cell_index(w, h, x + 1, y);
    }
}

/// Runs one tick on a drawn cell and candidate position: a resolved cell or
/// one with a single candidate is left alone, a cell with no candidate is
/// reported, and any other cell takes its candidate at `pick`, which is then
/// taken from the candidates of its unresolved orthogonal neighbours.
pub fn step(grid: &mut Grid, x: usize, y: usize, pick: usize) -> (r: TickOutcome)
    requires
        old(grid)@.wf(),
        valid_draw(old(grid)@, x as int, y as int, pick as int),
    ensures
        r == tick_outcome(old(grid)@, x as int, y as int, pick as int),
        final(grid)@ == ticked(old(grid)@, x as int, y as int, pick as int),
        final(grid)@.wf(),
{
    let ghost g = grid@;
    let w = grid.width;
    let h = grid.height;
    let n = grid.cells.len();
    proof {
        lemma_neighbor_indices(w as int, h as int, x as int, y as int);
    }
    let k = y * w + x;
    let len = grid.cells[k].available.len();
    if grid.cells[k].resolved || len == 1 {
        return TickOutcome::Skipped;
    }
    if len == 0 {
        return TickOutcome::Contradiction;
    }
    let t = grid.cells[k].available[pick];
    let available = grid.cells[k].available.clone();
    assert(available@ =~= g.cells[k as int].available);
    grid.cells[k] = Cell { resolved: true, chosen: Some(t), available };
    if y > 0 {
        prune(grid, k - w, t);
    }
    if y + 1 < h {
        prune(grid, k + w, t);
    }
    if x > 0 {
        prune(grid, k - 1, t);
    }
    if x + 1 < w {
        prune(grid, k + 1, t);
    }
    proof {
        let s = Seq::new(g.cells.len(), |j: int| settled(g, x as int, y as int, t, j));
        assert forall|j: int| 0 <= j < s.len() implies grid@.cells[j] == s[j] by {
            if j == k {
            } else if is_neighbor(w as int, h as int, x as int, y as int, j) {
            } else {
            }
        }
        assert(grid@.cells =~= s);
        lemma_ticked_wf(g, x as int, y as int, pick as int);
    }
    TickOutcome::Resolved(t)
}

proof fn lemma_ticked_wf(g: GridModel, x: int, y: int, pick: int)
    requires
        g.wf(),
    ensures
        ticked(g, x, y, pick).wf(),
        ticked(g, x, y, pick).width == g.width,
        ticked(g, x, y, pick).height == g.height,
        ticked(g, x, y, pick).tile_count == g.tile_count,
        ticked(g, x, y, pick).cells.len() == g.cells.len(),
        forall|j: int|
            0 <= j < g.cells.len() && (#[trigger] g.cells[j]).resolved ==> ticked(g, x, y, pick).cells[j]
                == g.cells[j],
        forall|j: int|
            0 <= j < g.cells.len() ==> (#[trigger] ticked(g, x, y, pick).cells[j]).available.len()
                <= g.cells[j].available.len(),
{
    if let TickOutcome::Resolved(t) = tick_outcome(g, x, y, pick) {
        let g2 = ticked(g, x, y, pick);
        crate::raster::lemma_cell_index(g.width as int, g.height as int, x, y);
        let k = g.index(x, y);
        assert(g.cells[k].wf(g.tile_count));
        assert(g.cells[k].available.contains(t));
        assert forall|j: int| 0 <= j < g2.cells.len() implies #[trigger] g2.cells[j].wf(g.tile_count)
            && g2.cells[j].available.len() <= g.cells[j].available.len()
            && (g.cells[j].resolved ==> g2.cells[j] == g.cells[j]) by {
            assert(g.cells[j].wf(g.tile_count));
            lemma_pruned_wf(g.cells[j], t, g.tile_count);
        }
    }
}

#[verifier::external_type_specification]
#[verifier::external_body]
pub struct ExChaCha20Rng(ChaCha20Rng);

/// Relies on rand::Rng::gen_range, which for the non-empty range `0..n`
/// returns a value of that range.
#[verifier::external_body]
fn draw_below(rng: &mut ChaCha20Rng, n: usize) -> (r: usize)
    requires
        n > 0,
    ensures
        r < n,
{
    rng.gen_range(0..n)
}

/// One tick: draws a cell of the whole grid, resolved or not, and, where
/// that cell is unresolved with two candidates or more, a position among its
/// candidates; then runs `step` on the draws.
pub fn collapse(grid: &mut Grid, rng: &mut ChaCha20Rng) -> (r: TickOutcome)
    requires
        old(grid)@.wf(),
        old(grid).width > 0,
        old(grid).height > 0,
    ensures
        final(grid)@.wf(),
        exists|x: int, y: int, pick: int|
            valid_draw(old(grid)@, x, y, pick) && r == tick_outcome(old(grid)@, x, y, pick)
                && final(grid)@ == ticked(old(grid)@, x, y, pick),
{
    let y = draw_below(rng, grid.height);
    let x = draw_below(rng, grid.width);
    let c = grid.cell(x, y);
    let pick = if !c.resolved && c.available.len() > 1 {
        draw_below(rng, c.available.len())
    } else {
        0
    };
    let ghost g = grid@;
    let r = step(grid, x, y, pick);
    assert(valid_draw(g, x as int, y as int, pick as int) && r == tick_outcome(g, x as int, y as int, pick as int)
        && grid@ == ticked(g, x as int, y as int, pick as int));
    r
}

/// The grid after the ticks of `draws` (column, row, candidate position), in order.
pub open spec fn run(g: GridModel, draws: Seq<(int, int, int)>) -> GridModel
    decreases draws.len(),
{
    if draws.len() == 0 {
        g
    } else {
        let d = draws.last();
        ticked(run(g, draws.drop_last()), d.0, d.1, d.2)
    }
}

/// Whatever the draws, ticks keep the grid well formed, so every resolved
/// cell's chosen index stays within the catalog; a resolved cell is never
/// changed again, so it never becomes unresolved; and no cell's candidates
/// ever grow in number.
pub proof fn lemma_ticks_keep_resolved(g: GridModel, draws: Seq<(int, int, int)>)
    requires
        g.wf(),
    ensures
        run(g, draws).wf(),
        run(g, draws).width == g.width,
        run(g, draws).height == g.height,
        run(g, draws).tile_count == g.tile_count,
        run(g, draws).cells.len() == g.cells.len(),
        forall|j: int|
            0 <= j < g.cells.len() && (#[trigger] run(g, draws).cells[j]).resolved ==> (run(
                g,
                draws,
            ).cells[j].chosen matches Some(t) && t < g.tile_count),
        forall|j: int|
            0 <= j < g.cells.len() && (#[trigger] g.cells[j]).resolved ==> run(g, draws).cells[j]
                == g.cells[j],
        forall|j: int|
            0 <= j < g.cells.len() ==> (#[trigger] run(g, draws).cells[j]).available.len()
                <= g.cells[j].available.len(),
    decreases draws.len(),
{
    if draws.len() > 0 {
        let p = draws.drop_last();
        let d = draws.last();
        lemma_ticks_keep_resolved(g, p);
        let g1 = run(g, p);
        lemma_ticked_wf(g1, d.0, d.1, d.2);
        assert forall|j: int| 0 <= j < g.cells.len() implies (#[trigger] run(g, draws).cells[j]).available.len()
            <= g.cells[j].available.len() && (run(g, draws).cells[j].resolved ==> (run(g, draws).cells[j].chosen matches Some(t) && t < g.tile_count)) by {
            assert(run(g, p).cells[j].available.len() <= g.cells[j].available.len());
            assert(run(g, draws).cells[j].wf(g.tile_count));
        }
        assert forall|j: int| 0 <= j < g.cells.len() && (#[trigger] g.cells[j]).resolved implies run(g, draws).cells[j]
            == g.cells[j] by {
            assert(run(g, p).cells[j] == g.cells[j]);
        }
    } else {
        assert forall|j: int| 0 <= j < g.cells.len() && (#[trigger] run(g, draws).cells[j]).resolved implies (run(
            g,
            draws,
        ).cells[j].chosen matches Some(t) && t < g.tile_count) by {
            assert(g.cells[j].wf(g.tile_count));
        }
    }
}

/// In one tick, no cell's candidates grow in number: a cell's candidates
/// only ever shrink.
pub proof fn lemma_candidates_never_grow(g: GridModel, x: int, y: int, pick: int, j: int)
    requires
        g.wf(),
        0 <= j < g.cells.len(),
    ensures
        ticked(g, x, y, pick).cells[j].available.len() <= g.cells[j].available.len(),
{
    lemma_ticked_wf(g, x, y, pick);
}

/// A drawn cell that is unresolved with a single candidate is skipped: the
/// tick changes nothing and resolves nothing.
pub proof fn lemma_single_candidate_skipped(g: GridModel, x: int, y: int, pick: int)
    requires
        g.wf(),
        0 <= x < g.width,
        0 <= y < g.height,
        !g.cells[g.index(x, y)].resolved,
        g.cells[g.index(x, y)].available.len() == 1,
    ensures
        tick_outcome(g, x, y, pick) == TickOutcome::Skipped,
        ticked(g, x, y, pick) == g,
{
}

/// On a grid at least two cells wide and high, a corner cell has exactly two
/// orthogonal neighbours, another cell of the border three, and an inner
/// cell four; the list of them holds each exactly once, lies on the grid,
/// and is exactly the cells that a tick there prunes.
pub proof fn lemma_neighbor_count(w: int, h: int, x: int, y: int)
    requires
        2 <= w,
        2 <= h,
        0 <= x < w,
        0 <= y < h,
    ensures
        neighbor_seq(w, h, x, y).no_duplicates(),
        forall|j: int| neighbor_seq(w, h, x, y).contains(j) <==> is_neighbor(w, h, x, y, j),
        forall|j: int| is_neighbor(w, h, x, y, j) ==> 0 <= j < w * h && j != y * w + x,
        (x == 0 || x == w - 1) && (y == 0 || y == h - 1) ==> neighbor_seq(w, h, x, y).len() == 2,
        (x == 0 || x == w - 1) != (y == 0 || y == h - 1) ==> neighbor_seq(w, h, x, y).len() == 3,
        0 < x < w - 1 && 0 < y < h - 1 ==> neighbor_seq(w, h, x, y).len() == 4,
{
    lemma_neighbor_indices(w, h, x, y);
    let k = y * w + x;
    let above = if y > 0 { seq![(y - 1) * w + x] } else { Seq::<int>::empty() };
    let below = if y + 1 < h { seq![(y + 1) * w + x] } else { Seq::<int>::empty() };
    let before = if x > 0 { seq![y * w + x - 1] } else { Seq::<int>::empty() };
    let after = if x + 1 < w { seq![y * w + x + 1] } else { Seq::<int>::empty() };
    let s = neighbor_seq(w, h, x, y);
    assert(s == above + below + before + after);
    let a = above.len() as int;
    let b = below.len() as int;
    let c = before.len() as int;
    assert forall|i: int| 0 <= i < s.len() implies is_neighbor(w, h, x, y, #[trigger] s[i]) by {
        if i < a {
            assert(s[i] == above[i]);
        } else if i < a + b {
            assert(s[i] == below[i - a]);
        } else if i < a + b + c {
            assert(s[i] == before[i - a - b]);
        } else {
            assert(s[i] == after[i - a - b - c]);
        }
    }
    assert forall|j: int| is_neighbor(w, h, x, y, j) implies s.contains(j) by {
        if y > 0 && j == (y - 1) * w + x {
            assert(s[0] == j);
        } else if y + 1 < h && j == (y + 1) * w + x {
            assert(s[a] == j);
        } else if x > 0 && j == y * w + x - 1 {
            assert(s[a + b] == j);
        } else {
            assert(s[a + b + c] == j);
        }
    }
    assert forall|i: int, i2: int| 0 <= i < s.len() && 0 <= i2 < s.len() && i != i2 implies s[i] != s[i2] by {
        assert(s[i] == if i < a { above[i] } else if i < a + b { below[i - a] } else if i < a + b + c { before[i - a - b] } else { after[i - a - b - c] });
        assert(s[i2] == if i2 < a { above[i2] } else if i2 < a + b { below[i2 - a] } else if i2 < a + b + c { before[i2 - a - b] } else { after[i2 - a - b - c] });
    }
}

} // verus!
