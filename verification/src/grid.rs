//! The executable grid: bounds-checked indexed access, the push scan, and
//! the per-tick transition pass.

use vstd::prelude::*;

use crate::coord::Coord;
use crate::model::{
    base_paired, extended, lemma_scan_ray_in_bounds, lemma_scan_some, lemma_step_cell_props,
    on_ray, piston_inv, pull_source_ok, ray_dist, ray_x, ray_y, remaining, retracted, shift_down,
    spec_push_end, spec_tick, step_cell, tick_cols, tick_rows, GridModel, MAX_DIM,
};
use crate::tile::{Direction, Tile};

verus! {

broadcast use
    crate::model::lemma_idx_bounds,
    crate::model::lemma_idx_injective,
    crate::model::lemma_upd_cell,
;

/// A fixed-size 2D grid of tiles, stored densely in row-major order.
pub struct Grid {
    width: usize,
    height: usize,
    tiles: Vec<Tile>,
}

impl View for Grid {
    type V = GridModel;

    closed spec fn view(&self) -> GridModel {
        GridModel {
            width: self.width as int,
            height: self.height as int,
            tiles: self.tiles@,
        }
    }
}

impl Grid {
    /// The grid is well-formed as a [`GridModel`].
    pub open spec fn wf(&self) -> bool {
        self@.wf()
    }

    /// Builds a `width` by `height` grid with every cell `Empty`.
    pub fn new(width: usize, height: usize) -> (g: Grid)
        requires
            0 < width <= MAX_DIM,
            0 < height <= MAX_DIM,
            width * height <= usize::MAX,
        ensures
            g.wf(),
            g@.width == width as int,
            g@.height == height as int,
            forall|x: int, y: int| g@.in_bounds(x, y) ==> #[trigger] g@.cell(x, y) == Tile::Empty,
            piston_inv(g@),
    {
        let n = width * height;
        let mut tiles: Vec<Tile> = Vec::new();
        let mut i: usize = 0;
        while i < n
            invariant
                i <= n,
                tiles@.len() == i as int,
                forall|j: int| 0 <= j < i as int ==> tiles@[j] == Tile::Empty,
            decreases n - i,
        {
            tiles.push(Tile::Empty);
            i = i + 1;
        }
        let g = Grid { width, height, tiles };
        proof {
            assert forall|x: int, y: int| g@.in_bounds(x, y) implies #[trigger] g@.cell(x, y)
                == Tile::Empty by {
                crate::model::lemma_idx_bounds(g@, x, y);
            }
            assert forall|x: int, y: int| g@.in_bounds(x, y) implies #[trigger] base_paired(
                g@,
                x,
                y,
            ) by {
                assert(g@.cell(x, y) == Tile::Empty);
            }
        }
        g
    }

    /// The grid's width.
    pub fn width(&self) -> (w: usize)
        ensures
            w as int == self@.width,
    {
        self.width
    }

    /// The grid's height.
    pub fn height(&self) -> (h: usize)
        ensures
            h as int == self@.height,
    {
        self.height
    }

    /// True iff `coord` addresses a cell of this grid.
    pub fn contains(&self, coord: Coord) -> (r: bool)
        ensures
            r == self@.in_bounds(coord.x as int, coord.y as int),
    {
        coord.x >= 0 && coord.y >= 0 && (coord.x as usize) < self.width && (coord.y as usize)
            < self.height
    }

    /// The linear index of the in-range cell `(x, y)`.
    pub fn get_index(&self, x: usize, y: usize) -> (i: usize)
        requires
            self.wf(),
            (x as int) < self@.width,
            (y as int) < self@.height,
        ensures
            i as int == self@.idx(x as int, y as int),
            (i as int) < self@.tiles.len(),
    {
        proof {
            crate::model::lemma_idx_bounds(self@, x as int, y as int);
        }
        let len = self.tiles.len();
        assert(self@.idx(x as int, y as int) < len as int);
        x + y * self.width
    }

    /// The tile at the in-range coordinate `coord`.
    pub fn get(&self, coord: Coord) -> (t: Tile)
        requires
            self.wf(),
            self@.in_bounds(coord.x as int, coord.y as int),
        ensures
            t == self@.cell(coord.x as int, coord.y as int),
    {
        let i = self.get_index(coord.x as usize, coord.y as usize);
        self.tiles[i]
    }

    /// Writes `tile` at the in-range coordinate `coord`.
    pub fn set(&mut self, coord: Coord, tile: Tile)
        requires
            old(self).wf(),
            old(self)@.in_bounds(coord.x as int, coord.y as int),
        ensures
            final(self)@ == old(self)@.upd(coord.x as int, coord.y as int, tile),
            final(self).wf(),
            final(self)@.same_dims(old(self)@),
    {
        let i = self.get_index(coord.x as usize, coord.y as usize);
        self.tiles.set(i, tile);
    }

    /// Scans the cells one step beyond `start` in `direction`, returning the
    /// first `Empty` cell, or `None` if the scan leaves the grid or meets a
    /// blocking tile (`Bedrock`, `PistonBase`, `PistonArm`) first.
    #[verifier::loop_isolation(false)]
    pub fn find_push_end(&self, start: Coord, direction: Direction) -> (r: Option<
        Coord,
    >)
        requires
            self.wf(),
            self@.in_bounds(start.x as int, start.y as int),
        ensures
            match r {
                Option::Some(e) => spec_push_end(
                    self@,
                    start.x as int,
                    start.y as int,
                    direction,
                ) == Some((e.x as int, e.y as int)),
                Option::None => spec_push_end(
                    self@,
                    start.x as int,
                    start.y as int,
                    direction,
                ) is None,
            },
    {
        let mut end = start;
        loop
            invariant
                self@.in_bounds(end.x as int, end.y as int),
                spec_push_end(self@, start.x as int, start.y as int, direction) == spec_push_end(
                    self@,
                    end.x as int,
                    end.y as int,
                    direction,
                ),
            decreases remaining(self@, end.x as int, end.y as int, direction),
        {
            end = end.add_direction(1, direction);
            if !self.contains(end) {
                return None;
            }
            let t = self.get(end);
            if !t.is_movable() || matches!(t, Tile::Bedrock) {
                return None;
            }
            if t.is_empty() {
                return Some(end);
            }
        }
    }

    /// True iff every `PistonBase(d)` cell has its `PistonArm(d)` one step
    /// away in `d`. Seeding writes may break this pairing; [`Grid::tick`]
    /// requires it.
    #[verifier::loop_isolation(false)]
    pub fn invariant_holds(&self) -> (r: bool)
        requires
            self.wf(),
        ensures
            r == piston_inv(self@),
    {
        let mut y: usize = 0;
        while y < self.height
            invariant
                y <= self.height,
                forall|a: int, b: int|
                    0 <= a < self@.width && 0 <= b < y as int ==> #[trigger] base_paired(
                        self@,
                        a,
                        b,
                    ),
            decreases self@.height - y as int,
        {
            let mut x: usize = 0;
            while x < self.width
                invariant
                    y < self.height,
                    x <= self.width,
                    forall|a: int, b: int|
                        0 <= a < self@.width && 0 <= b < y as int ==> #[trigger] base_paired(
                            self@,
                            a,
                            b,
                        ),
                    forall|a: int|
                        0 <= a < x as int ==> #[trigger] base_paired(self@, a, y as int),
                decreases self@.width - x as int,
            {
                let coord = Coord::new(x as i32, y as i32);
                let t = self.get(coord);
                match t {
                    Tile::PistonBase(d) => {
                        let arm = coord.add_direction(1, d);
                        proof {
                            assert(arm.x as int == ray_x(x as int, d, 1));
                            assert(arm.y as int == ray_y(y as int, d, 1));
                        }
                        if !self.contains(arm) {
                            proof {
                                assert(!base_paired(self@, x as int, y as int));
                            }
                            return false;
                        }
                        let at = self.get(arm);
                        if !(at == Tile::PistonArm(d)) {
                            proof {
                                assert(!base_paired(self@, x as int, y as int));
                            }
                            return false;
                        }
                        proof {
                            assert(base_paired(self@, x as int, y as int));
                        }
                    },
                    _ => {
                        proof {
                            assert(base_paired(self@, x as int, y as int));
                        }
                    },
                }
                x = x + 1;
            }
            y = y + 1;
        }
        proof {
            assert forall|a: int, b: int| self@.in_bounds(a, b) implies #[trigger] base_paired(
                self@,
                a,
                b,
            ) by {}
        }
        true
    }

    /// Performs the extension of the piston at `coord` facing `direction`
    /// whose push scan ended at the empty cell `end`: walking backward from
    /// `end` to `coord`, each cell takes the state of its neighbour one step
    /// nearer the piston, then the piston cell becomes the base and the
    /// freed adjacent cell the arm.
    #[verifier::loop_isolation(false)]
    fn extend_at(&mut self, coord: Coord, direction: Direction, end: Coord)
        requires
            old(self).wf(),
            old(self)@.in_bounds(coord.x as int, coord.y as int),
            spec_push_end(old(self)@, coord.x as int, coord.y as int, direction) == Some(
                (end.x as int, end.y as int),
            ),
        ensures
            final(self)@ == extended(
                old(self)@,
                coord.x as int,
                coord.y as int,
                direction,
                ray_dist(coord.x as int, coord.y as int, direction, end.x as int, end.y as int),
            ),
            final(self).wf(),
            final(self)@.same_dims(old(self)@),
    {
        let ghost hpre = self@;
        let ghost cx = coord.x as int;
        let ghost cy = coord.y as int;
        proof {
            lemma_scan_some(hpre, cx, cy, direction, (end.x as int, end.y as int));
            lemma_scan_ray_in_bounds(
                hpre,
                cx,
                cy,
                direction,
                (end.x as int, end.y as int),
            );
        }
        let ghost n = ray_dist(cx, cy, direction, end.x as int, end.y as int);
        let sa = coord.shares_axis(end);
        assert(sa);
        let flipped = direction.flip();
        let mut inner = end;
        while inner != coord
            invariant
                self.wf(),
                self@.same_dims(hpre),
                on_ray_inv(cx, cy, direction, inner),
                0 <= ray_dist(cx, cy, direction, inner.x as int, inner.y as int) <= n,
                shift_down(hpre, cx, cy, direction, n) == shift_down(
                    self@,
                    cx,
                    cy,
                    direction,
                    ray_dist(cx, cy, direction, inner.x as int, inner.y as int),
                ),
            decreases ray_dist(cx, cy, direction, inner.x as int, inner.y as int),
        {
            let ghost k = ray_dist(cx, cy, direction, inner.x as int, inner.y as int);
            proof {
                assert(k >= 1);
                assert(inner.x as int == ray_x(cx, direction, k));
                assert(inner.y as int == ray_y(cy, direction, k));
                assert(hpre.in_bounds(inner.x as int, inner.y as int));
            }
            let outer = inner;
            inner = inner.add_direction(1, flipped);
            proof {
                assert(inner.x as int == ray_x(cx, direction, k - 1));
                assert(inner.y as int == ray_y(cy, direction, k - 1));
                if k - 1 >= 1 {
                    assert(hpre.in_bounds(ray_x(cx, direction, k - 1), ray_y(cy, direction, k - 1)));
                }
            }
            let t2 = self.get(inner);
            self.set(outer, t2);
        }
        proof {
            assert(ray_dist(cx, cy, direction, inner.x as int, inner.y as int) == 0);
            assert(self@ == shift_down(hpre, cx, cy, direction, n));
        }
        self.set(coord, Tile::PistonBase(direction));
        let arm = coord.add_direction(1, direction);
        proof {
            assert(arm.x as int == ray_x(cx, direction, 1));
            assert(arm.y as int == ray_y(cy, direction, 1));
            assert(hpre.in_bounds(arm.x as int, arm.y as int));
        }
        self.set(arm, Tile::PistonArm(direction));
    }

    /// Performs the retraction of the base at `coord` facing `direction`:
    /// the base becomes a retracted piston again and the arm cell receives
    /// the pulled tile from two steps beyond (whose cell is cleared), or
    /// `Empty` when that cell is out of range or not pullable.
    fn retract_at(&mut self, coord: Coord, direction: Direction)
        requires
            old(self).wf(),
            piston_inv(old(self)@),
            old(self)@.in_bounds(coord.x as int, coord.y as int),
            old(self)@.cell(coord.x as int, coord.y as int) == Tile::PistonBase(direction),
        ensures
            final(self)@ == retracted(old(self)@, coord.x as int, coord.y as int, direction),
            final(self).wf(),
            final(self)@.same_dims(old(self)@),
    {
        let ghost hpre = self@;
        let ghost cx = coord.x as int;
        let ghost cy = coord.y as int;
        proof {
            assert(base_paired(hpre, cx, cy));
        }
        let arm_coord = coord.add_direction(1, direction);
        proof {
            assert(arm_coord.x as int == ray_x(cx, direction, 1));
            assert(arm_coord.y as int == ray_y(cy, direction, 1));
        }
        let arm_tile = self.get(arm_coord);
        // A broken pairing here would be a fatal consistency error; with the
        // pairing invariant required, the check is proved instead.
        assert(arm_tile == Tile::PistonArm(direction));
        self.set(coord, Tile::Piston(direction));
        let pull_coord = coord.add_direction(2, direction);
        proof {
            assert(pull_coord.x as int == ray_x(cx, direction, 2));
            assert(pull_coord.y as int == ray_y(cy, direction, 2));
        }
        if self.contains(pull_coord) {
            let pt = self.get(pull_coord);
            proof {
                assert(pt == hpre.cell(pull_coord.x as int, pull_coord.y as int));
            }
            if pt.is_movable() && !matches!(pt, Tile::Bedrock) {
                self.set(arm_coord, pt);
                self.set(pull_coord, Tile::Empty);
                proof {
                    assert(pull_source_ok(hpre, cx, cy, direction));
                    assert(self@ == retracted(hpre, cx, cy, direction));
                }
            } else {
                self.set(arm_coord, Tile::Empty);
                proof {
                    assert(!pull_source_ok(hpre, cx, cy, direction));
                    assert(self@ == retracted(hpre, cx, cy, direction));
                }
            }
        } else {
            self.set(arm_coord, Tile::Empty);
            proof {
                assert(!pull_source_ok(hpre, cx, cy, direction));
                assert(self@ == retracted(hpre, cx, cy, direction));
            }
        }
    }

    /// Takes the step of the single cell `(x, y)`: a retracted piston
    /// extends if its push scan succeeds, an extended base retracts, every
    /// other tile is left alone.
    fn step_at(&mut self, x: usize, y: usize)
        requires
            old(self).wf(),
            piston_inv(old(self)@),
            old(self)@.in_bounds(x as int, y as int),
        ensures
            final(self)@ == step_cell(old(self)@, x as int, y as int),
            final(self).wf(),
            final(self)@.same_dims(old(self)@),
            piston_inv(final(self)@),
    {
        let ghost hpre = self@;
        let coord = Coord::new(x as i32, y as i32);
        match self.get(coord) {
            Tile::Piston(direction) => {
                match self.find_push_end(coord, direction) {
                    Option::None => {
                        proof {
                            assert(step_cell(hpre, x as int, y as int) == hpre);
                        }
                    },
                    Option::Some(end) => {
                        self.extend_at(coord, direction, end);
                        proof {
                            assert(step_cell(hpre, x as int, y as int) == self@);
                        }
                    },
                }
            },
            Tile::PistonBase(direction) => {
                self.retract_at(coord, direction);
                proof {
                    assert(step_cell(hpre, x as int, y as int) == self@);
                }
            },
            _ => {
                proof {
                    assert(step_cell(hpre, x as int, y as int) == hpre);
                }
            },
        }
        proof {
            lemma_step_cell_props(hpre, x as int, y as int);
        }
    }

    /// Advances the grid one discrete step, scanning all cells in row-major
    /// order (y outer, x inner); later cells in the pass see the writes of
    /// earlier ones. Each retracted piston whose push scan finds an empty
    /// end slides its line one step outward and extends; each extended base
    /// retracts, dragging one pullable trailing tile back with it.
    #[verifier::loop_isolation(false)]
    pub fn tick(&mut self)
        requires
            old(self).wf(),
            piston_inv(old(self)@),
        ensures
            final(self)@ == spec_tick(old(self)@),
            final(self).wf(),
            final(self)@.same_dims(old(self)@),
            piston_inv(final(self)@),
    {
        let ghost g0 = self@;
        let mut y: usize = 0;
        while y < self.height
            invariant
                self.wf(),
                self@.same_dims(g0),
                piston_inv(self@),
                y <= self@.height,
                self@ == tick_rows(g0, y as int),
            decreases self@.height - y as int,
        {
            let mut x: usize = 0;
            proof {
                assert(tick_cols(tick_rows(g0, y as int), y as int, 0) == self@);
            }
            while x < self.width
                invariant
                    self.wf(),
                    self@.same_dims(g0),
                    piston_inv(self@),
                    y < self@.height,
                    x <= self@.width,
                    self@ == tick_cols(tick_rows(g0, y as int), y as int, x as int),
                decreases self@.width - x as int,
            {
                self.step_at(x, y);
                proof {
                    assert(self@ == tick_cols(tick_rows(g0, y as int), y as int, x as int + 1));
                }
                x = x + 1;
            }
            proof {
                assert(tick_rows(g0, y as int + 1) == tick_cols(
                    tick_rows(g0, y as int),
                    y as int,
                    g0.width,
                ));
            }
            y = y + 1;
        }
        proof {
            assert(self@ == tick_rows(g0, g0.height));
        }
    }
}

/// The loop-carried position fact of the copy pass: `inner` lies on the push
/// ray of the piston at `(px, py)`.
spec fn on_ray_inv(px: int, py: int, d: Direction, inner: Coord) -> bool {
    on_ray(px, py, d, inner.x as int, inner.y as int)
}

} // verus!
