//! The mathematical model of the grid and of one simulation step.
//!
//! A [`GridModel`] is a width, a height, and a row-major sequence of tiles.
//! The per-tick transition is specified here as a fold of a single-cell step
//! over all cells in row-major order (y outer, x inner): later cells in the
//! same pass observe the writes of earlier cells, matching the in-place
//! single-pass semantics of [`crate::grid::Grid::tick`].

use vstd::prelude::*;

use crate::tile::{Direction, Tile};

verus! {

/// The largest width or height a grid may have. It keeps every coordinate
/// arithmetic of the simulation (up to two steps beyond a cell) inside
/// `i32`.
pub const MAX_DIM: usize = 2147483645;

/// The abstract state of a grid: dimensions and a dense row-major tile
/// sequence of length exactly `width * height` (linear index `x + y *
/// width`).
#[verifier::ext_equal]
pub ghost struct GridModel {
    pub width: int,
    pub height: int,
    pub tiles: Seq<Tile>,
}

impl GridModel {
    /// Well-formed: positive dimensions no larger than [`MAX_DIM`], and a
    /// tile sequence of exactly `width * height` cells.
    pub open spec fn wf(self) -> bool {
        &&& 0 < self.width <= MAX_DIM as int
        &&& 0 < self.height <= MAX_DIM as int
        &&& self.tiles.len() == self.width * self.height
    }

    /// True iff `(x, y)` addresses a cell of this grid.
    pub open spec fn in_bounds(self, x: int, y: int) -> bool {
        0 <= x < self.width && 0 <= y < self.height
    }

    /// The linear index of `(x, y)` in the row-major tile sequence.
    pub open spec fn idx(self, x: int, y: int) -> int {
        x + y * self.width
    }

    /// The tile at `(x, y)`.
    pub open spec fn cell(self, x: int, y: int) -> Tile {
        self.tiles[self.idx(x, y)]
    }

    /// This grid with the tile at `(x, y)` replaced by `t`.
    pub open spec fn upd(self, x: int, y: int, t: Tile) -> GridModel {
        GridModel { tiles: self.tiles.update(self.idx(x, y), t), ..self }
    }

    /// Same dimensions (and hence the same addressable cells).
    pub open spec fn same_dims(self, other: GridModel) -> bool {
        self.width == other.width && self.height == other.height
            && self.tiles.len() == other.tiles.len()
    }
}

/// A linear index computed from an in-bounds coordinate lies inside the tile
/// sequence.
pub broadcast proof fn lemma_idx_bounds(g: GridModel, x: int, y: int)
    requires
        g.wf(),
        g.in_bounds(x, y),
    ensures
        0 <= #[trigger] g.idx(x, y) < g.tiles.len(),
{
    assert(x + y * g.width < g.width * g.height && 0 <= x + y * g.width) by (nonlinear_arith)
        requires
            0 <= x < g.width,
            0 <= y < g.height,
    ;
}

/// Distinct in-bounds coordinates have distinct linear indices.
pub broadcast proof fn lemma_idx_injective(g: GridModel, x1: int, y1: int, x2: int, y2: int)
    requires
        g.wf(),
        g.in_bounds(x1, y1),
        g.in_bounds(x2, y2),
    ensures
        #[trigger] g.idx(x1, y1) == #[trigger] g.idx(x2, y2) ==> x1 == x2 && y1 == y2,
{
    assert(x1 + y1 * g.width == x2 + y2 * g.width ==> x1 == x2 && y1 == y2)
        by (nonlinear_arith)
        requires
            0 <= x1 < g.width,
            0 <= x2 < g.width,
            0 <= y1 < g.height,
            0 <= y2 < g.height,
    ;
}

/// How one updated cell reads back: the new tile at the written coordinate,
/// the old tile everywhere else.
pub broadcast proof fn lemma_upd_cell(g: GridModel, x: int, y: int, t: Tile, a: int, b: int)
    requires
        g.wf(),
        g.in_bounds(x, y),
        g.in_bounds(a, b),
    ensures
        #[trigger] g.upd(x, y, t).cell(a, b) == (if a == x && b == y {
            t
        } else {
            g.cell(a, b)
        }),
        g.upd(x, y, t).same_dims(g),
        g.upd(x, y, t).wf(),
{
    lemma_idx_bounds(g, x, y);
    lemma_idx_bounds(g, a, b);
    if a != x || b != y {
        lemma_idx_injective(g, x, y, a, b);
    }
}

/// True iff `(x, y)` lies on the line through `(px, py)` along `direction`.
pub open spec fn on_ray(px: int, py: int, direction: Direction, x: int, y: int) -> bool {
    match direction {
        Direction::Up | Direction::Down => x == px,
        Direction::Left | Direction::Right => y == py,
    }
}

/// The signed number of `direction` steps from `(px, py)` to `(x, y)`
/// (meaningful when `on_ray` holds).
pub open spec fn ray_dist(px: int, py: int, direction: Direction, x: int, y: int) -> int {
    match direction {
        Direction::Up => py - y,
        Direction::Down => y - py,
        Direction::Left => px - x,
        Direction::Right => x - px,
    }
}

/// The x coordinate `k` steps from `px` along `direction`.
pub open spec fn ray_x(px: int, direction: Direction, k: int) -> int {
    match direction {
        Direction::Up | Direction::Down => px,
        Direction::Left => px - k,
        Direction::Right => px + k,
    }
}

/// The y coordinate `k` steps from `py` along `direction`.
pub open spec fn ray_y(py: int, direction: Direction, k: int) -> int {
    match direction {
        Direction::Left | Direction::Right => py,
        Direction::Up => py - k,
        Direction::Down => py + k,
    }
}

/// How many further cells a scan moving along `direction` from `(x, y)` can
/// visit before leaving the grid; a termination measure for
/// [`spec_push_end`].
pub open spec fn remaining(g: GridModel, x: int, y: int, direction: Direction) -> int {
    match direction {
        Direction::Up => y + 1,
        Direction::Down => g.height - y,
        Direction::Left => x + 1,
        Direction::Right => g.width - x,
    }
}

/// Where a push from `(x, y)` along `direction` ends: the first `Empty` cell
/// strictly beyond `(x, y)`, or `None` if the scan leaves the grid or meets
/// a blocking tile (`Bedrock`, `PistonBase`, `PistonArm`) first.
pub open spec fn spec_push_end(g: GridModel, x: int, y: int, direction: Direction) -> Option<
    (int, int),
>
    decreases remaining(g, x, y, direction),
{
    let nx = ray_x(x, direction, 1);
    let ny = ray_y(y, direction, 1);
    if !g.in_bounds(nx, ny) {
        None
    } else if g.cell(nx, ny).blocks_push() {
        None
    } else if g.cell(nx, ny) is Empty {
        Some((nx, ny))
    } else {
        spec_push_end(g, nx, ny, direction)
    }
}

/// The grid after the backward copy pass of an extension: walking from
/// distance `k` down to distance 1 along the ray from `(px, py)`, each cell
/// takes the tile of its neighbour one step closer to the piston. Reads
/// always happen before the cell read is overwritten, so every copied tile
/// is an original one.
pub open spec fn shift_down(g: GridModel, px: int, py: int, d: Direction, k: int) -> GridModel
    decreases k,
{
    if k <= 0 {
        g
    } else {
        let g2 = g.upd(
            ray_x(px, d, k),
            ray_y(py, d, k),
            g.cell(ray_x(px, d, k - 1), ray_y(py, d, k - 1)),
        );
        shift_down(g2, px, py, d, k - 1)
    }
}

/// The grid after a piston at `(px, py)` facing `d` extends, with its push
/// line ending at the empty cell `n` steps away: the line slides one step
/// outward, the piston cell becomes `PistonBase(d)`, and the freed adjacent
/// cell becomes `PistonArm(d)`.
pub open spec fn extended(g: GridModel, px: int, py: int, d: Direction, n: int) -> GridModel {
    shift_down(g, px, py, d, n).upd(px, py, Tile::PistonBase(d)).upd(
        ray_x(px, d, 1),
        ray_y(py, d, 1),
        Tile::PistonArm(d),
    )
}

/// True iff the sticky pull of a base at `(px, py)` facing `d` has a source:
/// the cell two steps beyond the base is in the grid and holds a pullable
/// tile.
pub open spec fn pull_source_ok(g: GridModel, px: int, py: int, d: Direction) -> bool {
    g.in_bounds(ray_x(px, d, 2), ray_y(py, d, 2)) && g.cell(
        ray_x(px, d, 2),
        ray_y(py, d, 2),
    ).can_pull()
}

/// The grid after a base at `(px, py)` facing `d` retracts: the base becomes
/// `Piston(d)` again and the arm cell receives the pulled tile (whose cell
/// is cleared), or `Empty` when there is nothing to pull.
pub open spec fn retracted(g: GridModel, px: int, py: int, d: Direction) -> GridModel {
    let g1 = g.upd(px, py, Tile::Piston(d));
    if pull_source_ok(g, px, py, d) {
        g1.upd(ray_x(px, d, 1), ray_y(py, d, 1), g.cell(ray_x(px, d, 2), ray_y(py, d, 2))).upd(
            ray_x(px, d, 2),
            ray_y(py, d, 2),
            Tile::Empty,
        )
    } else {
        g1.upd(ray_x(px, d, 1), ray_y(py, d, 1), Tile::Empty)
    }
}

/// One cell's transition: a retracted piston extends if its push scan finds
/// an empty end, an extended base retracts, every other tile is inert.
pub open spec fn step_cell(g: GridModel, x: int, y: int) -> GridModel {
    match g.cell(x, y) {
        Tile::Piston(d) => match spec_push_end(g, x, y, d) {
            Option::None => g,
            Option::Some(e) => extended(g, x, y, d, ray_dist(x, y, d, e.0, e.1)),
        },
        Tile::PistonBase(d) => retracted(g, x, y, d),
        _ => g,
    }
}

/// The grid after the cells `(0, y) .. (x-1, y)` of row `y` have taken their
/// steps, in order, starting from `g`.
pub open spec fn tick_cols(g: GridModel, y: int, x: int) -> GridModel
    decreases x,
{
    if x <= 0 {
        g
    } else {
        step_cell(tick_cols(g, y, x - 1), x - 1, y)
    }
}

/// The grid after the first `y` rows have been fully processed, row by row,
/// starting from `g`.
pub open spec fn tick_rows(g: GridModel, y: int) -> GridModel
    decreases y,
{
    if y <= 0 {
        g
    } else {
        tick_cols(tick_rows(g, y - 1), y - 1, g.width)
    }
}

/// One full tick: every cell takes its step, in row-major order (y outer,
/// x inner), each cell seeing the writes of the cells before it.
pub open spec fn spec_tick(g: GridModel) -> GridModel {
    tick_rows(g, g.height)
}

/// The pairing condition at one cell: if `(x, y)` holds `PistonBase(d)`,
/// the cell one step away in `d` is in the grid and holds `PistonArm(d)`.
pub open spec fn base_paired(g: GridModel, x: int, y: int) -> bool {
    match g.cell(x, y) {
        Tile::PistonBase(d) => g.in_bounds(ray_x(x, d, 1), ray_y(y, d, 1)) && g.cell(
            ray_x(x, d, 1),
            ray_y(y, d, 1),
        ) == Tile::PistonArm(d),
        _ => true,
    }
}

/// The structural invariant of the device states: every `PistonBase(d)` cell
/// has a `PistonArm(d)` cell one step away in `d`.
pub open spec fn piston_inv(g: GridModel) -> bool {
    forall|x: int, y: int| g.in_bounds(x, y) ==> #[trigger] base_paired(g, x, y)
}

/// What a successful push scan guarantees: the end cell lies on the ray at
/// some positive distance and is empty, and every strictly nearer ray cell
/// is in the grid and holds a tile the scan walks through (`Stone` or a
/// retracted `Piston`).
pub proof fn lemma_scan_some(g: GridModel, sx: int, sy: int, d: Direction, e: (int, int))
    requires
        g.wf(),
        spec_push_end(g, sx, sy, d) == Some(e),
    ensures
        on_ray(sx, sy, d, e.0, e.1),
        1 <= ray_dist(sx, sy, d, e.0, e.1),
        g.in_bounds(e.0, e.1),
        g.cell(e.0, e.1) is Empty,
        forall|x: int, y: int|
            on_ray(sx, sy, d, x, y) && 1 <= ray_dist(sx, sy, d, x, y) < ray_dist(
                sx,
                sy,
                d,
                e.0,
                e.1,
            ) ==> g.in_bounds(x, y) && (#[trigger] g.cell(x, y)).run_tile(),
    decreases remaining(g, sx, sy, d),
{
    let nx = ray_x(sx, d, 1);
    let ny = ray_y(sy, d, 1);
    if g.cell(nx, ny) is Empty {
    } else {
        lemma_scan_some(g, nx, ny, d, e);
        let n = ray_dist(sx, sy, d, e.0, e.1);
        assert forall|x: int, y: int|
            on_ray(sx, sy, d, x, y) && 1 <= ray_dist(sx, sy, d, x, y) < n implies g.in_bounds(
            x,
            y,
        ) && (#[trigger] g.cell(x, y)).run_tile() by {
            let k = ray_dist(sx, sy, d, x, y);
            if k == 1 {
                assert(x == nx && y == ny);
                assert(g.cell(x, y).run_tile());
            } else {
                assert(on_ray(nx, ny, d, x, y) && 1 <= ray_dist(nx, ny, d, x, y) < ray_dist(
                    nx,
                    ny,
                    d,
                    e.0,
                    e.1,
                ));
            }
        }
    }
}

/// What the backward copy pass does, cell by cell: ray cells at distances
/// `1 ..= k` take the original tile one step nearer the piston; every other
/// cell keeps its tile.
#[verifier::rlimit(50)]
pub proof fn lemma_shift_down_cells(g: GridModel, px: int, py: int, d: Direction, k: int)
    requires
        g.wf(),
        g.in_bounds(px, py),
        forall|j: int| 1 <= j <= k ==> g.in_bounds(#[trigger] ray_x(px, d, j), ray_y(py, d, j)),
    ensures
        shift_down(g, px, py, d, k).same_dims(g),
        shift_down(g, px, py, d, k).wf(),
        forall|x: int, y: int|
            g.in_bounds(x, y) ==> #[trigger] shift_down(g, px, py, d, k).cell(x, y) == (
            if on_ray(px, py, d, x, y) && 1 <= ray_dist(px, py, d, x, y) <= k {
                g.cell(
                    ray_x(px, d, ray_dist(px, py, d, x, y) - 1),
                    ray_y(py, d, ray_dist(px, py, d, x, y) - 1),
                )
            } else {
                g.cell(x, y)
            }),
    decreases k,
{
    broadcast use lemma_upd_cell;

    if k <= 0 {
    } else {
        assert(g.in_bounds(ray_x(px, d, k), ray_y(py, d, k)));
        lemma_idx_bounds(g, ray_x(px, d, k), ray_y(py, d, k));
        let g2 = g.upd(
            ray_x(px, d, k),
            ray_y(py, d, k),
            g.cell(ray_x(px, d, k - 1), ray_y(py, d, k - 1)),
        );
        assert(g2.tiles.len() == g.tiles.len());
        assert(g2.wf() && g2.same_dims(g));
        lemma_shift_down_cells(g2, px, py, d, k - 1);
        assert forall|x: int, y: int| g.in_bounds(x, y) implies #[trigger] shift_down(
            g,
            px,
            py,
            d,
            k,
        ).cell(x, y) == (if on_ray(px, py, d, x, y) && 1 <= ray_dist(px, py, d, x, y) <= k {
            g.cell(
                ray_x(px, d, ray_dist(px, py, d, x, y) - 1),
                ray_y(py, d, ray_dist(px, py, d, x, y) - 1),
            )
        } else {
            g.cell(x, y)
        }) by {
            assert(shift_down(g, px, py, d, k) == shift_down(g2, px, py, d, k - 1));
            assert(shift_down(g2, px, py, d, k - 1).cell(x, y) == (if on_ray(px, py, d, x, y)
                && 1 <= ray_dist(px, py, d, x, y) <= k - 1 {
                g2.cell(
                    ray_x(px, d, ray_dist(px, py, d, x, y) - 1),
                    ray_y(py, d, ray_dist(px, py, d, x, y) - 1),
                )
            } else {
                g2.cell(x, y)
            }));
            if on_ray(px, py, d, x, y) && 1 <= ray_dist(px, py, d, x, y) <= k - 1 {
                let m = ray_dist(px, py, d, x, y);
                assert(g.in_bounds(ray_x(px, d, m - 1), ray_y(py, d, m - 1)));
                assert(g2.cell(ray_x(px, d, m - 1), ray_y(py, d, m - 1)) == g.cell(
                    ray_x(px, d, m - 1),
                    ray_y(py, d, m - 1),
                ));
            }
        }
    }
}

/// What an extension does, cell by cell: the piston cell becomes the base,
/// the adjacent ray cell the arm, ray cells at distances `2 ..= n` take the
/// original tile one step nearer the piston, and every other cell keeps its
/// tile.
#[verifier::rlimit(50)]
pub proof fn lemma_extended_cells(g: GridModel, px: int, py: int, d: Direction, n: int)
    requires
        g.wf(),
        g.in_bounds(px, py),
        n >= 1,
        forall|j: int| 1 <= j <= n ==> g.in_bounds(#[trigger] ray_x(px, d, j), ray_y(py, d, j)),
    ensures
        extended(g, px, py, d, n).same_dims(g),
        extended(g, px, py, d, n).wf(),
        extended(g, px, py, d, n).cell(px, py) == Tile::PistonBase(d),
        extended(g, px, py, d, n).cell(ray_x(px, d, 1), ray_y(py, d, 1)) == Tile::PistonArm(d),
        forall|x: int, y: int|
            g.in_bounds(x, y) && on_ray(px, py, d, x, y) && 2 <= ray_dist(px, py, d, x, y) <= n
                ==> #[trigger] extended(g, px, py, d, n).cell(x, y) == g.cell(
                ray_x(px, d, ray_dist(px, py, d, x, y) - 1),
                ray_y(py, d, ray_dist(px, py, d, x, y) - 1),
            ),
        forall|x: int, y: int|
            g.in_bounds(x, y) && !(on_ray(px, py, d, x, y) && 0 <= ray_dist(px, py, d, x, y)
                <= n) ==> #[trigger] extended(g, px, py, d, n).cell(x, y) == g.cell(x, y),
{
    broadcast use lemma_upd_cell;

    lemma_shift_down_cells(g, px, py, d, n);
    let s = shift_down(g, px, py, d, n);
    let s1 = s.upd(px, py, Tile::PistonBase(d));
    assert(g.in_bounds(ray_x(px, d, 1), ray_y(py, d, 1)));
    assert(s1.cell(px, py) == Tile::PistonBase(d));
    assert(extended(g, px, py, d, n) == s1.upd(
        ray_x(px, d, 1),
        ray_y(py, d, 1),
        Tile::PistonArm(d),
    ));
    assert forall|x: int, y: int|
        g.in_bounds(x, y) && on_ray(px, py, d, x, y) && 2 <= ray_dist(px, py, d, x, y)
            <= n implies #[trigger] extended(g, px, py, d, n).cell(x, y) == g.cell(
        ray_x(px, d, ray_dist(px, py, d, x, y) - 1),
        ray_y(py, d, ray_dist(px, py, d, x, y) - 1),
    ) by {
        assert(s.cell(x, y) == g.cell(
            ray_x(px, d, ray_dist(px, py, d, x, y) - 1),
            ray_y(py, d, ray_dist(px, py, d, x, y) - 1),
        ));
    }
    assert forall|x: int, y: int|
        g.in_bounds(x, y) && !(on_ray(px, py, d, x, y) && 0 <= ray_dist(px, py, d, x, y)
            <= n) implies #[trigger] extended(g, px, py, d, n).cell(x, y) == g.cell(x, y) by {
        assert(s.cell(x, y) == g.cell(x, y));
    }
}

/// What a retraction does, cell by cell: the base cell becomes a retracted
/// piston, the arm cell receives the pulled tile (whose own cell is
/// cleared) or `Empty`, and every other cell keeps its tile.
pub proof fn lemma_retracted_cells(g: GridModel, px: int, py: int, d: Direction)
    requires
        g.wf(),
        g.in_bounds(px, py),
        g.in_bounds(ray_x(px, d, 1), ray_y(py, d, 1)),
    ensures
        retracted(g, px, py, d).same_dims(g),
        retracted(g, px, py, d).wf(),
        retracted(g, px, py, d).cell(px, py) == Tile::Piston(d),
        retracted(g, px, py, d).cell(ray_x(px, d, 1), ray_y(py, d, 1)) == (if pull_source_ok(
            g,
            px,
            py,
            d,
        ) {
            g.cell(ray_x(px, d, 2), ray_y(py, d, 2))
        } else {
            Tile::Empty
        }),
        pull_source_ok(g, px, py, d) ==> retracted(g, px, py, d).cell(
            ray_x(px, d, 2),
            ray_y(py, d, 2),
        ) == Tile::Empty,
        forall|x: int, y: int|
            g.in_bounds(x, y) && !(x == px && y == py) && !(x == ray_x(px, d, 1) && y == ray_y(
                py,
                d,
                1,
            )) && !(pull_source_ok(g, px, py, d) && x == ray_x(px, d, 2) && y == ray_y(py, d, 2))
                ==> #[trigger] retracted(g, px, py, d).cell(x, y) == g.cell(x, y),
{
    broadcast use lemma_upd_cell;

    lemma_idx_bounds(g, px, py);
    lemma_idx_bounds(g, ray_x(px, d, 1), ray_y(py, d, 1));
    if pull_source_ok(g, px, py, d) {
        lemma_idx_bounds(g, ray_x(px, d, 2), ray_y(py, d, 2));
    }
    let g1 = g.upd(px, py, Tile::Piston(d));
    assert(g1.tiles.len() == g.tiles.len());
    if pull_source_ok(g, px, py, d) {
        let g2 = g1.upd(ray_x(px, d, 1), ray_y(py, d, 1), g.cell(ray_x(px, d, 2), ray_y(py, d, 2)));
        assert(g2.tiles.len() == g.tiles.len());
        let g3 = g2.upd(ray_x(px, d, 2), ray_y(py, d, 2), Tile::Empty);
        assert(g3.tiles.len() == g.tiles.len());
        assert(retracted(g, px, py, d) == g3);
    } else {
        let g2 = g1.upd(ray_x(px, d, 1), ray_y(py, d, 1), Tile::Empty);
        assert(g2.tiles.len() == g.tiles.len());
        assert(retracted(g, px, py, d) == g2);
    }
}

/// Every ray cell of a successful push scan, up to and including the empty
/// end at distance `n`, lies in the grid.
pub proof fn lemma_scan_ray_in_bounds(g: GridModel, x: int, y: int, d: Direction, e: (int, int))
    requires
        g.wf(),
        spec_push_end(g, x, y, d) == Some(e),
    ensures
        forall|j: int|
            1 <= j <= ray_dist(x, y, d, e.0, e.1) ==> g.in_bounds(
                #[trigger] ray_x(x, d, j),
                ray_y(y, d, j),
            ),
{
    lemma_scan_some(g, x, y, d, e);
    let n = ray_dist(x, y, d, e.0, e.1);
    assert forall|j: int| 1 <= j <= n implies g.in_bounds(
        #[trigger] ray_x(x, d, j),
        ray_y(y, d, j),
    ) by {
        if j < n {
            assert(on_ray(x, y, d, ray_x(x, d, j), ray_y(y, d, j)));
            assert(ray_dist(x, y, d, ray_x(x, d, j), ray_y(y, d, j)) == j);
            assert(g.cell(ray_x(x, d, j), ray_y(y, d, j)).run_tile());
        } else {
            assert(ray_x(x, d, j) == e.0 && ray_y(y, d, j) == e.1);
        }
    }
}

/// An extension out of a well-formed, well-paired grid leaves every base
/// paired: the new base's arm is written beside it, the copied line holds no
/// base, and no existing arm is overwritten.
#[verifier::rlimit(80)]
proof fn lemma_extend_preserves_inv(g: GridModel, x: int, y: int, d: Direction, e: (int, int))
    requires
        g.wf(),
        piston_inv(g),
        g.in_bounds(x, y),
        g.cell(x, y) == Tile::Piston(d),
        spec_push_end(g, x, y, d) == Some(e),
    ensures
        extended(g, x, y, d, ray_dist(x, y, d, e.0, e.1)).same_dims(g),
        extended(g, x, y, d, ray_dist(x, y, d, e.0, e.1)).wf(),
        piston_inv(extended(g, x, y, d, ray_dist(x, y, d, e.0, e.1))),
{
    lemma_scan_some(g, x, y, d, e);
    lemma_scan_ray_in_bounds(g, x, y, d, e);
    let n = ray_dist(x, y, d, e.0, e.1);
    lemma_extended_cells(g, x, y, d, n);
    let h = extended(g, x, y, d, n);
    assert forall|a: int, b: int| h.in_bounds(a, b) implies #[trigger] base_paired(h, a, b) by {
        match h.cell(a, b) {
            Tile::PistonBase(d2) => {
                let m = ray_dist(x, y, d, a, b);
                if a == x && b == y {
                    assert(h.cell(a, b) == Tile::PistonBase(d));
                    assert(h.cell(ray_x(a, d2, 1), ray_y(b, d2, 1)) == Tile::PistonArm(d2));
                } else if on_ray(x, y, d, a, b) && 1 <= m <= n {
                    if m == 1 {
                        assert(a == ray_x(x, d, 1) && b == ray_y(y, d, 1));
                        assert(h.cell(a, b) == Tile::PistonArm(d));
                    } else {
                        assert(h.cell(a, b) == g.cell(ray_x(x, d, m - 1), ray_y(y, d, m - 1)));
                        assert(on_ray(x, y, d, ray_x(x, d, m - 1), ray_y(y, d, m - 1)));
                        assert(ray_dist(x, y, d, ray_x(x, d, m - 1), ray_y(y, d, m - 1)) == m - 1);
                        assert(g.cell(ray_x(x, d, m - 1), ray_y(y, d, m - 1)).run_tile());
                    }
                } else {
                    assert(h.cell(a, b) == g.cell(a, b));
                    assert(base_paired(g, a, b));
                    let ax = ray_x(a, d2, 1);
                    let ay = ray_y(b, d2, 1);
                    assert(g.cell(ax, ay) == Tile::PistonArm(d2));
                    let mm = ray_dist(x, y, d, ax, ay);
                    if on_ray(x, y, d, ax, ay) && 0 <= mm <= n {
                        if mm == 0 {
                            assert(ax == x && ay == y);
                        } else if mm < n {
                            assert(g.cell(ax, ay).run_tile());
                        } else {
                            assert(ax == e.0 && ay == e.1);
                        }
                    }
                    assert(h.cell(ax, ay) == g.cell(ax, ay));
                }
            },
            _ => {},
        }
    }
}

/// A retraction out of a well-formed, well-paired grid leaves every base
/// paired: the retracting pair dissolves, the pulled tile is movable, and no
/// other arm is touched.
#[verifier::rlimit(80)]
proof fn lemma_retract_preserves_inv(g: GridModel, x: int, y: int, d: Direction)
    requires
        g.wf(),
        piston_inv(g),
        g.in_bounds(x, y),
        g.cell(x, y) == Tile::PistonBase(d),
    ensures
        retracted(g, x, y, d).same_dims(g),
        retracted(g, x, y, d).wf(),
        piston_inv(retracted(g, x, y, d)),
{
    assert(base_paired(g, x, y));
    lemma_retracted_cells(g, x, y, d);
    let h = retracted(g, x, y, d);
    let ax1 = ray_x(x, d, 1);
    let ay1 = ray_y(y, d, 1);
    assert forall|a: int, b: int| h.in_bounds(a, b) implies #[trigger] base_paired(h, a, b) by {
        match h.cell(a, b) {
            Tile::PistonBase(d2) => {
                if a == x && b == y {
                    assert(h.cell(a, b) == Tile::Piston(d));
                } else if a == ax1 && b == ay1 {
                    if pull_source_ok(g, x, y, d) {
                        assert(h.cell(a, b) == g.cell(ray_x(x, d, 2), ray_y(y, d, 2)));
                        assert(g.cell(ray_x(x, d, 2), ray_y(y, d, 2)).can_pull());
                    } else {
                        assert(h.cell(a, b) == Tile::Empty);
                    }
                } else if pull_source_ok(g, x, y, d) && a == ray_x(x, d, 2) && b == ray_y(y, d, 2) {
                    assert(h.cell(a, b) == Tile::Empty);
                } else {
                    assert(h.cell(a, b) == g.cell(a, b));
                    assert(base_paired(g, a, b));
                    let ax = ray_x(a, d2, 1);
                    let ay = ray_y(b, d2, 1);
                    assert(g.cell(ax, ay) == Tile::PistonArm(d2));
                    assert(!(ax == x && ay == y)) by {
                        assert(g.cell(x, y) == Tile::PistonBase(d));
                    }
                    if ax == ax1 && ay == ay1 {
                        assert(g.cell(ax1, ay1) == Tile::PistonArm(d));
                        assert(d2 == d);
                        assert(a == x && b == y);
                    }
                    if pull_source_ok(g, x, y, d) && ax == ray_x(x, d, 2) && ay == ray_y(y, d, 2) {
                        assert(g.cell(ax, ay).can_pull());
                    }
                    assert(h.cell(ax, ay) == g.cell(ax, ay));
                }
            },
            _ => {},
        }
    }
}

/// One cell's step keeps the grid's dimensions, its well-formedness, and the
/// base/arm pairing invariant.
pub proof fn lemma_step_cell_props(g: GridModel, x: int, y: int)
    requires
        g.wf(),
        piston_inv(g),
        g.in_bounds(x, y),
    ensures
        step_cell(g, x, y).same_dims(g),
        step_cell(g, x, y).wf(),
        piston_inv(step_cell(g, x, y)),
{
    match g.cell(x, y) {
        Tile::Piston(d) => {
            match spec_push_end(g, x, y, d) {
                Option::None => {},
                Option::Some(e) => {
                    lemma_extend_preserves_inv(g, x, y, d, e);
                },
            }
        },
        Tile::PistonBase(d) => {
            lemma_retract_preserves_inv(g, x, y, d);
        },
        _ => {},
    }
}

/// Stepping a row's cells left to right keeps the dimensions, the
/// well-formedness, and the base/arm pairing invariant.
pub proof fn lemma_tick_cols_props(g: GridModel, y: int, x: int)
    requires
        g.wf(),
        piston_inv(g),
        0 <= y < g.height,
        0 <= x <= g.width,
    ensures
        tick_cols(g, y, x).same_dims(g),
        tick_cols(g, y, x).wf(),
        piston_inv(tick_cols(g, y, x)),
    decreases x,
{
    if x > 0 {
        lemma_tick_cols_props(g, y, x - 1);
        lemma_step_cell_props(tick_cols(g, y, x - 1), x - 1, y);
    }
}

/// Processing the first `y` rows keeps the dimensions, the well-formedness,
/// and the base/arm pairing invariant.
pub proof fn lemma_tick_rows_props(g: GridModel, y: int)
    requires
        g.wf(),
        piston_inv(g),
        0 <= y <= g.height,
    ensures
        tick_rows(g, y).same_dims(g),
        tick_rows(g, y).wf(),
        piston_inv(tick_rows(g, y)),
    decreases y,
{
    if y > 0 {
        lemma_tick_rows_props(g, y - 1);
        lemma_tick_cols_props(tick_rows(g, y - 1), y - 1, g.width);
    }
}

/// A full tick keeps the dimensions, the well-formedness, and the base/arm
/// pairing invariant.
pub proof fn lemma_spec_tick_props(g: GridModel)
    requires
        g.wf(),
        piston_inv(g),
    ensures
        spec_tick(g).same_dims(g),
        spec_tick(g).wf(),
        piston_inv(spec_tick(g)),
{
    lemma_tick_rows_props(g, g.height);
}

} // verus!
