//! The laws of the simulation, stated over the model and proved once and for
//! all: what a successful push does, that a blocked piston changes nothing,
//! what a sticky retraction does with and without a pull source, that a grid
//! of inert tiles is a fixpoint of the tick, and that the base/arm pairing
//! survives every tick.
//!
//! A tick processes cells in row-major order and later cells see earlier
//! writes, so a law about the effect of one device on the whole tick holds
//! when that device is the only active one (no other `Piston` or
//! `PistonBase` anywhere); each law states that side condition explicitly.

use vstd::prelude::*;

use crate::model::{
    lemma_extended_cells, lemma_retracted_cells, lemma_scan_ray_in_bounds,
    lemma_spec_tick_props, on_ray, piston_inv, pull_source_ok, ray_dist, ray_x, ray_y,
    spec_push_end, spec_tick, step_cell, tick_cols, tick_rows, GridModel,
};
use crate::tile::{Direction, Tile};

verus! {

/// Stepping a stretch of cells that all hold inert tiles changes nothing.
proof fn lemma_tick_cols_frozen(h: GridModel, y: int, x0: int, x1: int)
    requires
        0 <= x0 <= x1,
        forall|x: int|
            x0 <= x < x1 ==> (#[trigger] tick_cols(h, y, x0).cell(x, y)).inert(),
    ensures
        tick_cols(h, y, x1) == tick_cols(h, y, x0),
    decreases x1 - x0,
{
    if x1 > x0 {
        lemma_tick_cols_frozen(h, y, x0, x1 - 1);
        let m = tick_cols(h, y, x0);
        assert(tick_cols(h, y, x1) == step_cell(m, x1 - 1, y));
        assert(tick_cols(h, y, x0).cell(x1 - 1, y).inert());
        assert(step_cell(m, x1 - 1, y) == m);
    }
}

/// Processing a stretch of rows whose cells all hold inert tiles changes
/// nothing.
proof fn lemma_tick_rows_frozen(g: GridModel, y0: int, y1: int)
    requires
        g.wf(),
        0 <= y0 <= y1,
        forall|x: int, y: int|
            0 <= x < g.width && y0 <= y < y1 ==> (#[trigger] tick_rows(g, y0).cell(x, y)).inert(),
    ensures
        tick_rows(g, y1) == tick_rows(g, y0),
    decreases y1 - y0,
{
    if y1 > y0 {
        lemma_tick_rows_frozen(g, y0, y1 - 1);
        let m = tick_rows(g, y0);
        assert(tick_rows(g, y1) == tick_cols(tick_rows(g, y1 - 1), y1 - 1, g.width));
        assert(tick_cols(m, y1 - 1, 0) == m);
        assert forall|x: int| 0 <= x < g.width implies (#[trigger] tick_cols(m, y1 - 1, 0).cell(
            x,
            y1 - 1,
        )).inert() by {
            assert(tick_rows(g, y0).cell(x, y1 - 1).inert());
        }
        lemma_tick_cols_frozen(m, y1 - 1, 0, g.width);
    }
}

/// When the only active cell of the grid is `(px, py)`, a full tick comes to
/// that single cell's step: every cell before it is inert in `g`, and every
/// cell after it is inert in the stepped grid.
proof fn lemma_tick_single_active(g: GridModel, px: int, py: int)
    requires
        g.wf(),
        g.in_bounds(px, py),
        step_cell(g, px, py).same_dims(g),
        forall|x: int, y: int|
            g.in_bounds(x, y) && !(x == px && y == py) ==> (#[trigger] g.cell(x, y)).inert(),
        forall|x: int, y: int|
            g.in_bounds(x, y) && (y > py || (y == py && x > px)) ==> (#[trigger] step_cell(
                g,
                px,
                py,
            ).cell(x, y)).inert(),
    ensures
        spec_tick(g) == step_cell(g, px, py),
{
    let h = step_cell(g, px, py);
    assert(tick_rows(g, 0) == g);
    assert forall|x: int, y: int| 0 <= x < g.width && 0 <= y < py implies (#[trigger] tick_rows(
        g,
        0,
    ).cell(x, y)).inert() by {
        assert(g.cell(x, y).inert());
    }
    lemma_tick_rows_frozen(g, 0, py);
    assert(tick_rows(g, py) == g);
    assert(tick_cols(g, py, 0) == g);
    assert forall|x: int| 0 <= x < px implies (#[trigger] tick_cols(g, py, 0).cell(
        x,
        py,
    )).inert() by {
        assert(g.cell(x, py).inert());
    }
    lemma_tick_cols_frozen(g, py, 0, px);
    assert(tick_cols(g, py, px) == g);
    assert(tick_cols(g, py, px + 1) == step_cell(tick_cols(g, py, px), px, py));
    assert(tick_cols(g, py, px + 1) == h);
    assert forall|x: int| px + 1 <= x < g.width implies (#[trigger] tick_cols(g, py, px + 1).cell(
        x,
        py,
    )).inert() by {
        assert(h.cell(x, py).inert());
    }
    lemma_tick_cols_frozen(g, py, px + 1, g.width);
    assert(tick_rows(g, py + 1) == tick_cols(tick_rows(g, py), py, g.width));
    assert(tick_rows(g, py + 1) == h);
    assert forall|x: int, y: int| 0 <= x < g.width && py + 1 <= y < g.height implies (
    #[trigger] tick_rows(g, py + 1).cell(x, y)).inert() by {
        assert(h.cell(x, y).inert());
    }
    lemma_tick_rows_frozen(g, py + 1, g.height);
    assert(spec_tick(g) == tick_rows(g, py + 1));
}

/// A run of tiles the scan walks through, closed off by an empty cell, makes
/// the scan succeed exactly at that empty cell.
proof fn lemma_scan_of_run(g: GridModel, sx: int, sy: int, d: Direction, n: int)
    requires
        g.wf(),
        n >= 1,
        forall|k: int|
            1 <= k < n ==> g.in_bounds(ray_x(sx, d, k), ray_y(sy, d, k)) && (#[trigger] g.cell(
                ray_x(sx, d, k),
                ray_y(sy, d, k),
            )).run_tile(),
        g.in_bounds(ray_x(sx, d, n), ray_y(sy, d, n)),
        g.cell(ray_x(sx, d, n), ray_y(sy, d, n)) is Empty,
    ensures
        spec_push_end(g, sx, sy, d) == Some((ray_x(sx, d, n), ray_y(sy, d, n))),
    decreases n,
{
    let nx = ray_x(sx, d, 1);
    let ny = ray_y(sy, d, 1);
    if n == 1 {
    } else {
        assert(g.cell(ray_x(sx, d, 1), ray_y(sy, d, 1)).run_tile());
        assert forall|k: int|
            1 <= k < n - 1 implies g.in_bounds(ray_x(nx, d, k), ray_y(ny, d, k)) && (
        #[trigger] g.cell(ray_x(nx, d, k), ray_y(ny, d, k))).run_tile() by {
            assert(ray_x(nx, d, k) == ray_x(sx, d, k + 1));
            assert(ray_y(ny, d, k) == ray_y(sy, d, k + 1));
            assert(g.cell(ray_x(sx, d, k + 1), ray_y(sy, d, k + 1)).run_tile());
        }
        assert(ray_x(nx, d, n - 1) == ray_x(sx, d, n));
        assert(ray_y(ny, d, n - 1) == ray_y(sy, d, n));
        lemma_scan_of_run(g, nx, ny, d, n - 1);
    }
}

/// Push determinism: a piston at `(px, py)` facing `d`, with a contiguous
/// run of stones at distances `1 .. n` closed off by an empty cell at
/// distance `n`, and no other active device, extends in one tick: the piston
/// cell becomes the base, the freed adjacent cell the arm, the run slides
/// one step outward, and every cell off the push line keeps its tile.
pub proof fn law_push_moves_run(g: GridModel, px: int, py: int, d: Direction, n: int)
    requires
        g.wf(),
        g.in_bounds(px, py),
        g.cell(px, py) == Tile::Piston(d),
        n >= 1,
        forall|k: int|
            1 <= k < n ==> g.in_bounds(ray_x(px, d, k), ray_y(py, d, k)) && #[trigger] g.cell(
                ray_x(px, d, k),
                ray_y(py, d, k),
            ) == Tile::Stone,
        g.in_bounds(ray_x(px, d, n), ray_y(py, d, n)),
        g.cell(ray_x(px, d, n), ray_y(py, d, n)) == Tile::Empty,
        forall|x: int, y: int|
            g.in_bounds(x, y) && !(x == px && y == py) ==> (#[trigger] g.cell(x, y)).inert(),
    ensures
        spec_tick(g).cell(px, py) == Tile::PistonBase(d),
        spec_tick(g).cell(ray_x(px, d, 1), ray_y(py, d, 1)) == Tile::PistonArm(d),
        forall|k: int|
            2 <= k <= n ==> #[trigger] spec_tick(g).cell(ray_x(px, d, k), ray_y(py, d, k))
                == g.cell(ray_x(px, d, k - 1), ray_y(py, d, k - 1)),
        forall|x: int, y: int|
            g.in_bounds(x, y) && !(on_ray(px, py, d, x, y) && 0 <= ray_dist(px, py, d, x, y) <= n)
                ==> #[trigger] spec_tick(g).cell(x, y) == g.cell(x, y),
{
    assert forall|k: int|
        1 <= k < n implies g.in_bounds(ray_x(px, d, k), ray_y(py, d, k)) && (#[trigger] g.cell(
        ray_x(px, d, k),
        ray_y(py, d, k),
    )).run_tile() by {
        assert(g.cell(ray_x(px, d, k), ray_y(py, d, k)) == Tile::Stone);
    }
    lemma_scan_of_run(g, px, py, d, n);
    let e = (ray_x(px, d, n), ray_y(py, d, n));
    assert(ray_dist(px, py, d, e.0, e.1) == n);
    lemma_scan_ray_in_bounds(g, px, py, d, e);
    lemma_extended_cells(g, px, py, d, n);
    let h = crate::model::extended(g, px, py, d, n);
    assert(step_cell(g, px, py) == h);
    assert forall|x: int, y: int|
        g.in_bounds(x, y) && (y > py || (y == py && x > px)) implies (#[trigger] step_cell(
        g,
        px,
        py,
    ).cell(x, y)).inert() by {
        if on_ray(px, py, d, x, y) && 0 <= ray_dist(px, py, d, x, y) <= n {
            let m = ray_dist(px, py, d, x, y);
            if m == 0 {
                assert(x == px && y == py);
            } else if m == 1 {
                assert(h.cell(x, y) == Tile::PistonArm(d));
            } else {
                assert(h.cell(x, y) == g.cell(ray_x(px, d, m - 1), ray_y(py, d, m - 1)));
                assert(g.cell(ray_x(px, d, m - 1), ray_y(py, d, m - 1)) == Tile::Stone);
            }
        } else {
            assert(h.cell(x, y) == g.cell(x, y));
            assert(g.cell(x, y).inert());
        }
    }
    lemma_tick_single_active(g, px, py);
    assert forall|k: int| 2 <= k <= n implies #[trigger] spec_tick(g).cell(
        ray_x(px, d, k),
        ray_y(py, d, k),
    ) == g.cell(ray_x(px, d, k - 1), ray_y(py, d, k - 1)) by {
        assert(on_ray(px, py, d, ray_x(px, d, k), ray_y(py, d, k)));
        assert(ray_dist(px, py, d, ray_x(px, d, k), ray_y(py, d, k)) == k);
        assert(g.in_bounds(ray_x(px, d, k), ray_y(py, d, k)));
        assert(h.cell(ray_x(px, d, k), ray_y(py, d, k)) == g.cell(
            ray_x(px, d, k - 1),
            ray_y(py, d, k - 1),
        ));
    }
    assert forall|x: int, y: int|
        g.in_bounds(x, y) && !(on_ray(px, py, d, x, y) && 0 <= ray_dist(px, py, d, x, y)
            <= n) implies #[trigger] spec_tick(g).cell(x, y) == g.cell(x, y) by {
        assert(h.cell(x, y) == g.cell(x, y));
    }
}

/// Blocked push: a piston whose scan exits the grid or meets a blocking tile
/// before any empty cell, with no other active device, changes no cell in a
/// tick.
pub proof fn law_blocked_push(g: GridModel, px: int, py: int, d: Direction)
    requires
        g.wf(),
        g.in_bounds(px, py),
        g.cell(px, py) == Tile::Piston(d),
        spec_push_end(g, px, py, d) is None,
        forall|x: int, y: int|
            g.in_bounds(x, y) && !(x == px && y == py) ==> (#[trigger] g.cell(x, y)).inert(),
    ensures
        spec_tick(g) == g,
{
    assert(step_cell(g, px, py) == g);
    assert forall|x: int, y: int|
        g.in_bounds(x, y) && (y > py || (y == py && x > px)) implies (#[trigger] step_cell(
        g,
        px,
        py,
    ).cell(x, y)).inert() by {
        assert(g.cell(x, y).inert());
    }
    lemma_tick_single_active(g, px, py);
}

/// Retraction with a sticky pull: a base at `(px, py)` facing `d`, with its
/// arm beside it and a pullable tile two steps beyond, and no other active
/// device, retracts in one tick: the base cell becomes `Piston(d)`, the
/// former arm cell takes the pulled tile's prior state, the pulled tile's
/// cell is cleared, and every other cell keeps its tile.
pub proof fn law_retract_pulls(g: GridModel, px: int, py: int, d: Direction)
    requires
        g.wf(),
        g.in_bounds(px, py),
        g.cell(px, py) == Tile::PistonBase(d),
        g.in_bounds(ray_x(px, d, 1), ray_y(py, d, 1)),
        g.cell(ray_x(px, d, 1), ray_y(py, d, 1)) == Tile::PistonArm(d),
        g.in_bounds(ray_x(px, d, 2), ray_y(py, d, 2)),
        g.cell(ray_x(px, d, 2), ray_y(py, d, 2)).can_pull(),
        forall|x: int, y: int|
            g.in_bounds(x, y) && !(x == px && y == py) ==> (#[trigger] g.cell(x, y)).inert(),
    ensures
        spec_tick(g).cell(px, py) == Tile::Piston(d),
        spec_tick(g).cell(ray_x(px, d, 1), ray_y(py, d, 1)) == g.cell(
            ray_x(px, d, 2),
            ray_y(py, d, 2),
        ),
        spec_tick(g).cell(ray_x(px, d, 2), ray_y(py, d, 2)) == Tile::Empty,
        forall|x: int, y: int|
            g.in_bounds(x, y) && !(x == px && y == py) && !(x == ray_x(px, d, 1) && y == ray_y(
                py,
                d,
                1,
            )) && !(x == ray_x(px, d, 2) && y == ray_y(py, d, 2)) ==> #[trigger] spec_tick(g).cell(
                x,
                y,
            ) == g.cell(x, y),
{
    lemma_retracted_cells(g, px, py, d);
    let h = crate::model::retracted(g, px, py, d);
    assert(pull_source_ok(g, px, py, d));
    assert(step_cell(g, px, py) == h);
    assert forall|x: int, y: int|
        g.in_bounds(x, y) && (y > py || (y == py && x > px)) implies (#[trigger] step_cell(
        g,
        px,
        py,
    ).cell(x, y)).inert() by {
        if x == px && y == py {
        } else if x == ray_x(px, d, 1) && y == ray_y(py, d, 1) {
            assert(h.cell(x, y) == g.cell(ray_x(px, d, 2), ray_y(py, d, 2)));
            assert(g.cell(ray_x(px, d, 2), ray_y(py, d, 2)).inert());
        } else if x == ray_x(px, d, 2) && y == ray_y(py, d, 2) {
            assert(h.cell(x, y) == Tile::Empty);
        } else {
            assert(h.cell(x, y) == g.cell(x, y));
            assert(g.cell(x, y).inert());
        }
    }
    lemma_tick_single_active(g, px, py);
    assert forall|x: int, y: int|
        g.in_bounds(x, y) && !(x == px && y == py) && !(x == ray_x(px, d, 1) && y == ray_y(
            py,
            d,
            1,
        )) && !(x == ray_x(px, d, 2) && y == ray_y(py, d, 2)) implies #[trigger] spec_tick(g).cell(
            x,
            y,
        ) == g.cell(x, y) by {
        assert(h.cell(x, y) == g.cell(x, y));
    }
}

/// Retraction without a pull target: as [`law_retract_pulls`], but the cell
/// two steps beyond the base is out of range or holds `Bedrock`; the former
/// arm cell is simply cleared and every other cell keeps its tile.
pub proof fn law_retract_without_target(g: GridModel, px: int, py: int, d: Direction)
    requires
        g.wf(),
        g.in_bounds(px, py),
        g.cell(px, py) == Tile::PistonBase(d),
        g.in_bounds(ray_x(px, d, 1), ray_y(py, d, 1)),
        g.cell(ray_x(px, d, 1), ray_y(py, d, 1)) == Tile::PistonArm(d),
        !g.in_bounds(ray_x(px, d, 2), ray_y(py, d, 2)) || g.cell(
            ray_x(px, d, 2),
            ray_y(py, d, 2),
        ) is Bedrock,
        forall|x: int, y: int|
            g.in_bounds(x, y) && !(x == px && y == py) ==> (#[trigger] g.cell(x, y)).inert(),
    ensures
        spec_tick(g).cell(px, py) == Tile::Piston(d),
        spec_tick(g).cell(ray_x(px, d, 1), ray_y(py, d, 1)) == Tile::Empty,
        forall|x: int, y: int|
            g.in_bounds(x, y) && !(x == px && y == py) && !(x == ray_x(px, d, 1) && y == ray_y(
                py,
                d,
                1,
            )) ==> #[trigger] spec_tick(g).cell(x, y) == g.cell(x, y),
{
    lemma_retracted_cells(g, px, py, d);
    let h = crate::model::retracted(g, px, py, d);
    assert(!pull_source_ok(g, px, py, d));
    assert(step_cell(g, px, py) == h);
    assert forall|x: int, y: int|
        g.in_bounds(x, y) && (y > py || (y == py && x > px)) implies (#[trigger] step_cell(
        g,
        px,
        py,
    ).cell(x, y)).inert() by {
        if x == px && y == py {
        } else if x == ray_x(px, d, 1) && y == ray_y(py, d, 1) {
            assert(h.cell(x, y) == Tile::Empty);
        } else {
            assert(h.cell(x, y) == g.cell(x, y));
            assert(g.cell(x, y).inert());
        }
    }
    lemma_tick_single_active(g, px, py);
    assert forall|x: int, y: int|
        g.in_bounds(x, y) && !(x == px && y == py) && !(x == ray_x(px, d, 1) && y == ray_y(
            py,
            d,
            1,
        )) implies #[trigger] spec_tick(g).cell(x, y) == g.cell(x, y) by {
        assert(h.cell(x, y) == g.cell(x, y));
    }
}

/// A grid holding no active device anywhere (every cell `Empty`, `Stone`,
/// `Bedrock`, or a lone `PistonArm`) is a fixpoint of the tick.
pub proof fn law_inert_grid_fixpoint(g: GridModel)
    requires
        g.wf(),
        forall|x: int, y: int| g.in_bounds(x, y) ==> (#[trigger] g.cell(x, y)).inert(),
    ensures
        spec_tick(g) == g,
{
    assert(tick_rows(g, 0) == g);
    assert forall|x: int, y: int| 0 <= x < g.width && 0 <= y < g.height implies (
    #[trigger] tick_rows(g, 0).cell(x, y)).inert() by {
        assert(g.cell(x, y).inert());
    }
    lemma_tick_rows_frozen(g, 0, g.height);
}

/// Invariant preservation: a tick of a well-formed grid in which every
/// `PistonBase(d)` has its `PistonArm(d)` one step away keeps the grid
/// well-formed and keeps that pairing; by induction the pairing holds after
/// any sequence of ticks.
pub proof fn law_tick_preserves_pairing(g: GridModel)
    requires
        g.wf(),
        piston_inv(g),
    ensures
        spec_tick(g).wf(),
        spec_tick(g).same_dims(g),
        piston_inv(spec_tick(g)),
{
    lemma_spec_tick_props(g);
}

} // verus!
