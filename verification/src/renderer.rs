use vstd::prelude::*;

use crate::orientation::dir_dx;
use crate::orientation::dir_dy;
use crate::orientation::lemma_orientation_ext;
use crate::orientation::Orientation;
use crate::sprite_config::coord_lt;
use crate::sprite_config::GridCoordinate;
use crate::sprite_config::TilemapSpriteConfig;

verus! {

/// One cell of the occupancy grid: filled, with the set of neighbors it last
/// observed present, or empty.
#[derive(Clone, Copy, PartialEq, Eq, Structural, Debug)]
pub enum Tile {
    Filled(Orientation),
    Empty,
}

/// Does offsetting `i` by `off_i` land inside `0 .. len`?
pub fn offset_in_range(i: usize, off_i: isize, len: usize) -> (r: bool)
    ensures
        r == (0 <= i + off_i < len),
{
    if off_i >= 0 {
        let off = off_i as usize;
        off < len && i < len - off
    } else {
        let neg = ((-(off_i + 1)) as usize) + 1;
        i >= neg && i - neg < len
    }
}

/// Attempts to offset a coordinate, staying on a `width` by `height` grid;
/// nothing when the offset lands off the grid.
pub fn offset(x: usize, y: usize, off_x: isize, off_y: isize, width: usize, height: usize) -> (r:
    Option<(usize, usize)>)
    ensures
        match r {
            Some(p) => 0 <= x + off_x < width && 0 <= y + off_y < height && p.0 == x + off_x && p.1
                == y + off_y,
            None => !(0 <= x + off_x < width && 0 <= y + off_y < height),
        },
{
    if offset_in_range(x, off_x, width) && offset_in_range(y, off_y, height) {
        let nx = if off_x >= 0 {
            x + (off_x as usize)
        } else {
            x - (((-(off_x + 1)) as usize) + 1)
        };
        let ny = if off_y >= 0 {
            y + (off_y as usize)
        } else {
            y - (((-(off_y + 1)) as usize) + 1)
        };
        Some((nx, ny))
    } else {
        None
    }
}

/// The unit offset of the direction with index `i`.
fn dir_offset(i: usize) -> (r: (isize, isize))
    requires
        i < 8,
    ensures
        r.0 == dir_dx(i as int),
        r.1 == dir_dy(i as int),
{
    if i == 0 {
        (0, 1)
    } else if i == 1 {
        (0, -1)
    } else if i == 2 {
        (1, 0)
    } else if i == 3 {
        (-1, 0)
    } else if i == 4 {
        (1, 1)
    } else if i == 5 {
        (-1, 1)
    } else if i == 6 {
        (1, -1)
    } else {
        (-1, -1)
    }
}

/// The occupancy grid of one tilemap: a fixed `width` by `height` field of
/// cells, the dirty flag, and the per-instance draw list rebuilt on demand.
///
/// Cells are stored column by column: cell `(x, y)` sits at `x * height + y`.
pub struct TilemapRenderer {
    tiles: Vec<Tile>,
    width: usize,
    height: usize,
    dirty: bool,
    instances: Vec<(GridCoordinate, GridCoordinate)>,
    instance_count: u32,
}

impl TilemapRenderer {
    pub closed spec fn spec_width(self) -> int {
        self.width as int
    }

    pub closed spec fn spec_height(self) -> int {
        self.height as int
    }

    pub closed spec fn grid(self) -> Seq<Tile> {
        self.tiles@
    }

    pub closed spec fn spec_dirty(self) -> bool {
        self.dirty
    }

    pub closed spec fn spec_instances(self) -> Seq<(GridCoordinate, GridCoordinate)> {
        self.instances@
    }

    pub closed spec fn spec_instance_count(self) -> u32 {
        self.instance_count
    }

    /// The grid really is `width` by `height`, at bounded size.
    pub open spec fn dims_wf(self) -> bool {
        self.grid().len() == self.spec_width() * self.spec_height() && self.spec_width() <= 4096
            && self.spec_height() <= 4096
    }

    /// The cell stored at `(x, y)`.
    pub open spec fn cell(self, x: int, y: int) -> Tile {
        self.grid()[x * self.spec_height() + y]
    }

    /// Whether `(x, y)` is on the grid and filled; off-grid cells are never
    /// occupied.
    pub open spec fn occ(self, x: int, y: int) -> bool {
        0 <= x < self.spec_width() && 0 <= y < self.spec_height() && self.cell(x, y) is Filled
    }

    /// A filled cell's stored orientation agrees with the occupancy of its
    /// eight neighbors.
    pub open spec fn oriented(self, x: int, y: int) -> bool {
        match self.cell(x, y) {
            Tile::Filled(o) => forall|i: int|
                0 <= i < 8 ==> (#[trigger] o.has(i) <==> self.occ(x + dir_dx(i), y + dir_dy(i))),
            Tile::Empty => true,
        }
    }

    /// The neighbor-consistency invariant: every filled cell's orientation
    /// reflects exactly which of its eight neighbors are filled, off-grid
    /// neighbors counting as absent.
    pub open spec fn consistent(self) -> bool {
        forall|x: int, y: int|
            0 <= x < self.spec_width() && 0 <= y < self.spec_height()
                ==> #[trigger] self.oriented(x, y)
    }

    pub open spec fn wf(self) -> bool {
        self.dims_wf() && self.consistent()
    }

    /// A fresh, empty grid, marked dirty so the first `apply_changes` builds
    /// the draw list.
    pub fn new(width: usize, height: usize) -> (r: TilemapRenderer)
        requires
            width <= 4096,
            height <= 4096,
        ensures
            r.wf(),
            r.spec_width() == width,
            r.spec_height() == height,
            forall|x: int, y: int|
                0 <= x < width && 0 <= y < height ==> #[trigger] r.cell(x, y) == Tile::Empty,
            r.spec_dirty(),
            r.spec_instances().len() == 0,
    {
        proof {
            assert(width * height <= 4096 * 4096) by (nonlinear_arith)
                requires
                    width <= 4096,
                    height <= 4096,
            ;
        }
        let total = width * height;
        let mut tiles: Vec<Tile> = Vec::new();
        let mut i: usize = 0;
        while i < total
            invariant
                i <= total,
                tiles@.len() == i,
                forall|p: int| 0 <= p < i ==> tiles@[p] == Tile::Empty,
            decreases total - i,
        {
            tiles.push(Tile::Empty);
            i += 1;
        }
        let r = TilemapRenderer {
            tiles,
            width,
            height,
            dirty: true,
            instances: Vec::new(),
            instance_count: 0,
        };
        proof {
            assert forall|x: int, y: int|
                0 <= x < width && 0 <= y < height implies #[trigger] r.cell(x, y)
                == Tile::Empty by {
                assert(0 <= x * r.spec_height() + y < r.grid().len()) by (nonlinear_arith)
                    requires
                        0 <= x < r.spec_width(),
                        0 <= y < r.spec_height(),
                        r.grid().len() == r.spec_width() * r.spec_height(),
                ;
            }
            assert forall|x: int, y: int|
                0 <= x < r.spec_width() && 0 <= y < r.spec_height() implies #[trigger] r.oriented(
                x,
                y,
            ) by {
                assert(r.cell(x, y) == Tile::Empty);
            }
        }
        r
    }

    /// The flat storage slot of an in-bounds cell.
    fn index_of(&self, x: usize, y: usize) -> (r: usize)
        requires
            self.dims_wf(),
            x < self.spec_width(),
            y < self.spec_height(),
        ensures
            r == x * self.spec_height() + y,
            r < self.grid().len(),
    {
        let len = self.tiles.len();
        proof {
            assert(0 <= x * self.spec_height() + y < self.grid().len()) by (nonlinear_arith)
                requires
                    0 <= (x as int) < self.spec_width(),
                    0 <= (y as int) < self.spec_height(),
                    self.grid().len() == self.spec_width() * self.spec_height(),
            ;
            assert(x * self.spec_height() + y < len);
        }
        x * self.height + y
    }

    /// Read one cell; the coordinate must be on the grid.
    pub fn tile(&self, x: usize, y: usize) -> (r: Tile)
        requires
            self.dims_wf(),
            x < self.spec_width(),
            y < self.spec_height(),
        ensures
            r == self.cell(x as int, y as int),
    {
        let idx = self.index_of(x, y);
        self.tiles[idx]
    }

    /// The cell at an offset from `(x, y)`, or nothing when the offset lands
    /// off the grid.
    pub fn get_tile_offset(&self, x: usize, y: usize, off_x: isize, off_y: isize) -> (r: Option<
        Tile,
    >)
        requires
            self.dims_wf(),
        ensures
            match r {
                Some(t) => 0 <= x + off_x < self.spec_width() && 0 <= y + off_y
                    < self.spec_height() && t == self.cell(x + off_x, y + off_y),
                None => !(0 <= x + off_x < self.spec_width() && 0 <= y + off_y
                    < self.spec_height()),
            },
    {
        match offset(x, y, off_x, off_y, self.width, self.height) {
            Some((nx, ny)) => {
                let idx = self.index_of(nx, ny);
                Some(self.tiles[idx])
            },
            None => None,
        }
    }

    /// Whether the offset lands on the grid at all.
    pub fn tile_exists(&self, x: usize, y: usize, off_x: isize, off_y: isize) -> (r: bool)
        requires
            self.dims_wf(),
        ensures
            r == (0 <= x + off_x < self.spec_width() && 0 <= y + off_y < self.spec_height()),
    {
        self.get_tile_offset(x, y, off_x, off_y).is_some()
    }

    /// Whether the cell at the offset is filled; off-grid neighbors are
    /// treated as absent.
    pub fn tile_filled(&self, x: usize, y: usize, off_x: isize, off_y: isize) -> (r: bool)
        requires
            self.dims_wf(),
        ensures
            r == self.occ(x + off_x, y + off_y),
    {
        match self.get_tile_offset(x, y, off_x, off_y) {
            Some(t) => match t {
                Tile::Filled(_) => true,
                Tile::Empty => false,
            },
            None => false,
        }
    }

    /// The orientation `(x, y)` observes right now: one direction bit per
    /// filled in-bounds neighbor.
    fn compute_orientation(&self, x: usize, y: usize) -> (o: Orientation)
        requires
            self.dims_wf(),
            x < self.spec_width(),
            y < self.spec_height(),
        ensures
            forall|i: int|
                0 <= i < 8 ==> (#[trigger] o.has(i) <==> self.occ(
                    x + dir_dx(i),
                    y + dir_dy(i),
                )),
    {
        let mut o = Orientation::none();
        let mut i: usize = 0;
        while i < 8
            invariant
                i <= 8,
                self.dims_wf(),
                x < self.spec_width(),
                y < self.spec_height(),
                forall|j: int|
                    0 <= j < i ==> (#[trigger] o.has(j) <==> self.occ(
                        x + dir_dx(j),
                        y + dir_dy(j),
                    )),
                forall|j: int| i <= j < 8 ==> !o.has(j),
            decreases 8 - i,
        {
            let (dx, dy) = dir_offset(i);
            if self.tile_filled(x, y, dx, dy) {
                o = o.union(Orientation::from_index(i));
            }
            i += 1;
        }
        o
    }

    /// Re-derives, in full, the orientation of the cell at the given offset
    /// from `(x, y)`: a no-op when the offset is off the grid or the cell is
    /// empty. Occupancy is never changed.
    pub fn update_orientation_offset(&mut self, x: usize, y: usize, off_x: isize, off_y: isize)
        requires
            old(self).dims_wf(),
        ensures
            final(self).dims_wf(),
            final(self).spec_width() == old(self).spec_width(),
            final(self).spec_height() == old(self).spec_height(),
            final(self).spec_dirty() == old(self).spec_dirty(),
            final(self).spec_instances() == old(self).spec_instances(),
            final(self).spec_instance_count() == old(self).spec_instance_count(),
            forall|a: int, b: int|
                #![trigger final(self).cell(a, b)]
                #![trigger old(self).cell(a, b)]
                0 <= a < old(self).spec_width() && 0 <= b < old(self).spec_height() && !(a == x
                    + off_x && b == y + off_y) ==> final(self).cell(a, b) == old(self).cell(a, b),
            forall|a: int, b: int|
                #![trigger final(self).occ(a, b)]
                #![trigger old(self).occ(a, b)]
                final(self).occ(a, b) == old(self).occ(a, b),
            (0 <= x + off_x < old(self).spec_width() && 0 <= y + off_y < old(self).spec_height())
                ==> final(self).oriented(x + off_x, y + off_y),
    {
        match offset(x, y, off_x, off_y, self.width, self.height) {
            Some((tx, ty)) => {
                let idx = self.index_of(tx, ty);
                match self.tiles[idx] {
                    Tile::Filled(_) => {
                        let o = self.compute_orientation(tx, ty);
                        let ghost pre = *self;
                        self.tiles[idx] = Tile::Filled(o);
                        proof {
                            lemma_cell_update(pre, *self, tx as int, ty as int, Tile::Filled(o));
                            assert forall|a: int, b: int| #[trigger]
                                self.occ(a, b) == pre.occ(a, b) by {
                                if 0 <= a < self.spec_width() && 0 <= b < self.spec_height() {
                                    if a == tx && b == ty {
                                    } else {
                                        assert(self.cell(a, b) == pre.cell(a, b));
                                    }
                                }
                            }
                            assert(self.cell(tx as int, ty as int) == Tile::Filled(o));
                        }
                    },
                    Tile::Empty => {
                        proof {
                            assert(self.cell(x + off_x, y + off_y) == Tile::Empty);
                        }
                    },
                }
            },
            None => {},
        }
    }
}

/// The full effect of toggling `(x, y)`: occupancy flips at that cell and
/// nowhere else, the toggled cell and its up-to-eight in-bounds neighbors
/// carry freshly derived orientations, and every cell further away is
/// untouched.
pub open spec fn toggle_rel(pre: TilemapRenderer, post: TilemapRenderer, x: int, y: int) -> bool {
    &&& post.spec_width() == pre.spec_width()
    &&& post.spec_height() == pre.spec_height()
    &&& post.grid().len() == pre.grid().len()
    &&& forall|a: int, b: int|
        0 <= a < pre.spec_width() && 0 <= b < pre.spec_height() && !(x - 1 <= a <= x + 1 && y - 1
            <= b <= y + 1) ==> #[trigger] post.cell(a, b) == pre.cell(a, b)
    &&& forall|a: int, b: int| #[trigger]
        post.occ(a, b) == (if a == x && b == y {
            !pre.occ(a, b)
        } else {
            pre.occ(a, b)
        })
    &&& forall|a: int, b: int|
        0 <= a < pre.spec_width() && 0 <= b < pre.spec_height() && x - 1 <= a <= x + 1 && y - 1 <= b
            <= y + 1 ==> #[trigger] post.oriented(a, b)
}

/// Every direction is a unit step.
proof fn lemma_dir_small()
    ensures
        forall|i: int| 0 <= i < 8 ==> -1 <= #[trigger] dir_dx(i) <= 1,
        forall|i: int| 0 <= i < 8 ==> -1 <= #[trigger] dir_dy(i) <= 1,
{
    assert forall|i: int| 0 <= i < 8 implies -1 <= #[trigger] dir_dx(i) <= 1 && -1 <= dir_dy(i)
        <= 1 by {
        assert(i == 0 || i == 1 || i == 2 || i == 3 || i == 4 || i == 5 || i == 6 || i == 7);
    }
}

impl TilemapRenderer {
    /// Flips the cell at `(x, y)` between empty and filled, then re-derives,
    /// in full, the orientation of the cell and of each of its in-bounds
    /// neighbors, and marks the draw list stale. Neighbor consistency is
    /// preserved.
    pub fn toggle(&mut self, x: usize, y: usize)
        requires
            old(self).dims_wf(),
            x < old(self).spec_width(),
            y < old(self).spec_height(),
        ensures
            final(self).dims_wf(),
            toggle_rel(*old(self), *final(self), x as int, y as int),
            old(self).consistent() ==> final(self).consistent(),
            final(self).spec_dirty(),
            final(self).spec_instances() == old(self).spec_instances(),
            final(self).spec_instance_count() == old(self).spec_instance_count(),
    {
        let ghost xx = x as int;
        let ghost yy = y as int;
        let idx = self.index_of(x, y);
        let nv = match self.tiles[idx] {
            Tile::Filled(_) => Tile::Empty,
            Tile::Empty => Tile::Filled(Orientation::none()),
        };
        let ghost pre = *self;
        self.tiles[idx] = nv;
        self.dirty = true;
        let ghost flip = *self;
        proof {
            lemma_cell_update(pre, flip, xx, yy, nv);
            assert forall|a: int, b: int| #[trigger]
                flip.occ(a, b) == (if a == xx && b == yy {
                    !pre.occ(a, b)
                } else {
                    pre.occ(a, b)
                }) by {
                if 0 <= a < flip.spec_width() && 0 <= b < flip.spec_height() {
                    if a == xx && b == yy {
                        assert(flip.cell(a, b) == nv);
                    } else {
                        assert(flip.cell(a, b) == pre.cell(a, b));
                    }
                }
            }
        }
        let mut dx: isize = -1;
        while dx <= 1
            invariant
                -1 <= dx <= 2,
                xx == x as int,
                yy == y as int,
                x < flip.spec_width(),
                y < flip.spec_height(),
                flip.dims_wf(),
                self.dims_wf(),
                self.spec_width() == flip.spec_width(),
                self.spec_height() == flip.spec_height(),
                self.spec_dirty() == flip.spec_dirty(),
                self.spec_instances() == flip.spec_instances(),
                self.spec_instance_count() == flip.spec_instance_count(),
                forall|a: int, b: int| #[trigger] self.occ(a, b) == flip.occ(a, b),
                forall|a: int, b: int|
                    0 <= a < flip.spec_width() && 0 <= b < flip.spec_height() && !(xx - 1 <= a <= xx
                        + 1 && yy - 1 <= b <= yy + 1) ==> #[trigger] self.cell(a, b) == flip.cell(
                        a,
                        b,
                    ),
                forall|a: int, b: int|
                    0 <= a < flip.spec_width() && 0 <= b < flip.spec_height() && xx - 1 <= a <= xx
                        + 1 && yy - 1 <= b <= yy + 1 && a - xx < dx ==> #[trigger] self.oriented(
                        a,
                        b,
                    ),
            decreases 2 - dx,
        {
            let mut dy: isize = -1;
            while dy <= 1
                invariant
                    -1 <= dx <= 1,
                    -1 <= dy <= 2,
                    xx == x as int,
                    yy == y as int,
                    x < flip.spec_width(),
                    y < flip.spec_height(),
                    flip.dims_wf(),
                    self.dims_wf(),
                    self.spec_width() == flip.spec_width(),
                    self.spec_height() == flip.spec_height(),
                    self.spec_dirty() == flip.spec_dirty(),
                    self.spec_instances() == flip.spec_instances(),
                    self.spec_instance_count() == flip.spec_instance_count(),
                    forall|a: int, b: int| #[trigger] self.occ(a, b) == flip.occ(a, b),
                    forall|a: int, b: int|
                        0 <= a < flip.spec_width() && 0 <= b < flip.spec_height() && !(xx - 1 <= a
                            <= xx + 1 && yy - 1 <= b <= yy + 1) ==> #[trigger] self.cell(a, b)
                            == flip.cell(a, b),
                    forall|a: int, b: int|
                        0 <= a < flip.spec_width() && 0 <= b < flip.spec_height() && xx - 1 <= a
                            <= xx + 1 && yy - 1 <= b <= yy + 1 && (a - xx < dx || (a - xx == dx && b
                            - yy < dy)) ==> #[trigger] self.oriented(a, b),
                decreases 2 - dy,
            {
                let ghost before = *self;
                self.update_orientation_offset(x, y, dx, dy);
                proof {
                    let tx = xx + dx;
                    let ty = yy + dy;
                    assert forall|a: int, b: int| #[trigger]
                        self.occ(a, b) == flip.occ(a, b) by {
                        assert(self.occ(a, b) == before.occ(a, b));
                        assert(before.occ(a, b) == flip.occ(a, b));
                    }
                    assert forall|a: int, b: int|
                        0 <= a < flip.spec_width() && 0 <= b < flip.spec_height() && !(xx - 1 <= a
                            <= xx + 1 && yy - 1 <= b <= yy + 1) implies #[trigger] self.cell(a, b)
                        == flip.cell(a, b) by {
                        assert(!(a == tx && b == ty));
                        assert(self.cell(a, b) == before.cell(a, b));
                        assert(before.cell(a, b) == flip.cell(a, b));
                    }
                    assert forall|a: int, b: int|
                        0 <= a < flip.spec_width() && 0 <= b < flip.spec_height() && xx - 1 <= a
                            <= xx + 1 && yy - 1 <= b <= yy + 1 && (a - xx < dx || (a - xx == dx && b
                            - yy < dy + 1)) implies #[trigger] self.oriented(a, b) by {
                        if a == tx && b == ty {
                            assert(self.oriented(a, b));
                        } else {
                            assert(before.oriented(a, b));
                            assert(self.cell(a, b) == before.cell(a, b));
                            match before.cell(a, b) {
                                Tile::Filled(o) => {
                                    assert forall|i: int|
                                        0 <= i < 8 implies (#[trigger] o.has(i) <==> self.occ(
                                        a + dir_dx(i),
                                        b + dir_dy(i),
                                    )) by {
                                        assert(self.occ(a + dir_dx(i), b + dir_dy(i)) == before.occ(
                                            a + dir_dx(i),
                                            b + dir_dy(i),
                                        ));
                                    }
                                },
                                Tile::Empty => {},
                            }
                        }
                    }
                }
                dy += 1;
            }
            dx += 1;
        }
        proof {
            assert forall|a: int, b: int|
                0 <= a < pre.spec_width() && 0 <= b < pre.spec_height() && !(xx - 1 <= a <= xx + 1
                    && yy - 1 <= b <= yy + 1) implies #[trigger] self.cell(a, b) == pre.cell(
                a,
                b,
            ) by {
                assert(self.cell(a, b) == flip.cell(a, b));
                assert(flip.cell(a, b) == pre.cell(a, b));
            }
            assert forall|a: int, b: int| #[trigger]
                self.occ(a, b) == (if a == xx && b == yy {
                    !pre.occ(a, b)
                } else {
                    pre.occ(a, b)
                }) by {
                assert(self.occ(a, b) == flip.occ(a, b));
            }
            assert(toggle_rel(pre, *self, xx, yy));
            if pre.consistent() {
                lemma_dir_small();
                assert forall|a: int, b: int|
                    0 <= a < self.spec_width() && 0 <= b < self.spec_height() implies #[trigger]
                    self.oriented(a, b) by {
                    if xx - 1 <= a <= xx + 1 && yy - 1 <= b <= yy + 1 {
                        assert(self.oriented(a, b));
                    } else {
                        assert(self.cell(a, b) == pre.cell(a, b));
                        assert(pre.oriented(a, b));
                        match pre.cell(a, b) {
                            Tile::Filled(o) => {
                                assert forall|i: int|
                                    0 <= i < 8 implies (#[trigger] o.has(i) <==> self.occ(
                                    a + dir_dx(i),
                                    b + dir_dy(i),
                                )) by {
                                    assert(-1 <= dir_dx(i) <= 1 && -1 <= dir_dy(i) <= 1);
                                    assert(!(a + dir_dx(i) == xx && b + dir_dy(i) == yy));
                                    assert(self.occ(a + dir_dx(i), b + dir_dy(i)) == pre.occ(
                                        a + dir_dx(i),
                                        b + dir_dy(i),
                                    ));
                                }
                            },
                            Tile::Empty => {},
                        }
                    }
                }
            }
        }
    }
}

impl TilemapRenderer {
    /// Whether the cell at `(x, y)` is filled and its orientation resolves to
    /// at least one sprite-sheet candidate under `config`.
    pub open spec fn matched(self, config: TilemapSpriteConfig, x: int, y: int) -> bool {
        match self.cell(x, y) {
            Tile::Filled(o) => config.candidates(o).len() > 0,
            Tile::Empty => false,
        }
    }

    /// How many of the first `p` cells, in column-major storage order, are
    /// filled and matched by `config`.
    pub open spec fn matched_count_upto(self, config: TilemapSpriteConfig, p: int) -> nat
        decreases p,
    {
        if p <= 0 {
            0
        } else {
            self.matched_count_upto(config, p - 1) + (if self.matched(
                config,
                (p - 1) / self.spec_height(),
                (p - 1) % self.spec_height(),
            ) {
                1nat
            } else {
                0nat
            })
        }
    }

    /// Rebuilds the draw list when the grid is dirty: walks the cells in
    /// column-major order and, for every filled cell whose orientation
    /// resolves under `config`, appends its grid position and the resolved
    /// sheet position. Unmatched filled cells are skipped — a normal "no
    /// visual" outcome. Clears the dirty flag; a no-op when already clean.
    pub fn apply_changes(&mut self, config: &TilemapSpriteConfig)
        requires
            old(self).dims_wf(),
            config.index_wf(),
        ensures
            final(self).dims_wf(),
            final(self).grid() == old(self).grid(),
            final(self).spec_width() == old(self).spec_width(),
            final(self).spec_height() == old(self).spec_height(),
            !final(self).spec_dirty(),
            !old(self).spec_dirty() ==> final(self).spec_instances() == old(self).spec_instances()
                && final(self).spec_instance_count() == old(self).spec_instance_count(),
            old(self).spec_dirty() ==> {
                let inst = final(self).spec_instances();
                &&& inst.len() == old(self).matched_count_upto(
                    *config,
                    old(self).spec_width() * old(self).spec_height(),
                )
                &&& final(self).spec_instance_count() == inst.len()
                &&& forall|k: int|
                    0 <= k < inst.len() ==> {
                        let (g, s) = #[trigger] inst[k];
                        &&& 0 <= g.x < old(self).spec_width()
                        &&& 0 <= g.y < old(self).spec_height()
                        &&& match old(self).cell(g.x as int, g.y as int) {
                            Tile::Filled(o) => config.candidates(o).contains(s),
                            Tile::Empty => false,
                        }
                    }
                &&& forall|k1: int, k2: int|
                    0 <= k1 < k2 < inst.len() ==> coord_lt(
                        (#[trigger] inst[k1]).0,
                        (#[trigger] inst[k2]).0,
                    )
                &&& forall|a: int, b: int|
                    0 <= a < old(self).spec_width() && 0 <= b < old(self).spec_height()
                        && #[trigger] old(self).matched(*config, a, b) ==> exists|k: int|
                        0 <= k < inst.len() && (#[trigger] inst[k]).0.x == a && inst[k].0.y == b
            },
    {
        if !self.dirty {
            return ;
        }
        let ghost h = self.spec_height();
        let ghost w = self.spec_width();
        let mut inst: Vec<(GridCoordinate, GridCoordinate)> = Vec::new();
        let mut x: usize = 0;
        while x < self.width
            invariant
                *self == *old(self),
                self.dims_wf(),
                config.index_wf(),
                h == self.spec_height(),
                w == self.spec_width(),
                0 <= x <= w,
                inst@.len() == self.matched_count_upto(*config, x as int * h),
                inst@.len() <= x as int * h,
                forall|k: int|
                    0 <= k < inst@.len() ==> {
                        let (g, s) = #[trigger] inst@[k];
                        &&& 0 <= g.x < w
                        &&& 0 <= g.y < h
                        &&& g.x as int * h + g.y < x as int * h
                        &&& match self.cell(g.x as int, g.y as int) {
                            Tile::Filled(o) => config.candidates(o).contains(s),
                            Tile::Empty => false,
                        }
                    },
                forall|k1: int, k2: int|
                    0 <= k1 < k2 < inst@.len() ==> coord_lt(
                        (#[trigger] inst@[k1]).0,
                        (#[trigger] inst@[k2]).0,
                    ),
                forall|a: int, b: int|
                    0 <= a < w && 0 <= b < h && a * h + b < x as int * h && #[trigger] self.matched(
                        *config,
                        a,
                        b,
                    ) ==> exists|k: int|
                        0 <= k < inst@.len() && (#[trigger] inst@[k]).0.x == a && inst@[k].0.y == b,
            decreases w - x,
        {
            let mut y: usize = 0;
            while y < self.height
                invariant
                    *self == *old(self),
                    self.dims_wf(),
                    config.index_wf(),
                    h == self.spec_height(),
                    w == self.spec_width(),
                    0 <= x < w,
                    0 <= y <= h,
                    inst@.len() == self.matched_count_upto(*config, x as int * h + y),
                    inst@.len() <= x as int * h + y,
                    forall|k: int|
                        0 <= k < inst@.len() ==> {
                            let (g, s) = #[trigger] inst@[k];
                            &&& 0 <= g.x < w
                            &&& 0 <= g.y < h
                            &&& g.x as int * h + g.y < x as int * h + y
                            &&& match self.cell(g.x as int, g.y as int) {
                                Tile::Filled(o) => config.candidates(o).contains(s),
                                Tile::Empty => false,
                            }
                        },
                    forall|k1: int, k2: int|
                        0 <= k1 < k2 < inst@.len() ==> coord_lt(
                            (#[trigger] inst@[k1]).0,
                            (#[trigger] inst@[k2]).0,
                        ),
                    forall|a: int, b: int|
                        0 <= a < w && 0 <= b < h && a * h + b < x as int * h + y
                            && #[trigger] self.matched(*config, a, b) ==> exists|k: int|
                            0 <= k < inst@.len() && (#[trigger] inst@[k]).0.x == a && inst@[k].0.y
                            == b,
                decreases h - y,
            {
                let ghost p = x as int * h + y;
                proof {
                    vstd::arithmetic::div_mod::lemma_fundamental_div_mod_converse(
                        p,
                        h,
                        x as int,
                        y as int,
                    );
                    assert(self.matched_count_upto(*config, p + 1) == self.matched_count_upto(
                        *config,
                        p,
                    ) + (if self.matched(*config, x as int, y as int) {
                        1nat
                    } else {
                        0nat
                    }));
                }
                let idx = self.index_of(x, y);
                let ghost pre_inst = inst@;
                match self.tiles[idx] {
                    Tile::Filled(o) => {
                        match config.find_tile_index(o) {
                            Some(c) => {
                                let g = GridCoordinate::new(x, y);
                                proof {
                                    assert(self.cell(x as int, y as int) == Tile::Filled(o));
                                    assert(self.matched(*config, x as int, y as int));
                                    assert forall|k: int|
                                        0 <= k < inst@.len() implies coord_lt(
                                        (#[trigger] inst@[k]).0,
                                        g,
                                    ) by {
                                        let gk = inst@[k].0;
                                        assert(gk.x as int * h + gk.y < p);
                                        assert(gk.x as int * h + gk.y < x as int * h + y ==> (
                                        gk.x < x || (gk.x == x && gk.y < y))) by (nonlinear_arith)
                                            requires
                                                0 <= gk.y < h,
                                                0 <= (y as int) < h,
                                                0 <= gk.x,
                                                0 <= (x as int),
                                        ;
                                    }
                                }
                                inst.push((g, c));
                            },
                            None => {
                                proof {
                                    assert(self.cell(x as int, y as int) == Tile::Filled(o));
                                    assert(!self.matched(*config, x as int, y as int));
                                }
                            },
                        }
                    },
                    Tile::Empty => {
                        proof {
                            assert(self.cell(x as int, y as int) == Tile::Empty);
                            assert(!self.matched(*config, x as int, y as int));
                        }
                    },
                }
                proof {
                    assert(inst@.len() >= pre_inst.len());
                    assert forall|k: int| 0 <= k < pre_inst.len() implies inst@[k] == pre_inst[k]
                        by {}
                    assert forall|a: int, b: int|
                        0 <= a < w && 0 <= b < h && a * h + b < p + 1 && #[trigger] self.matched(
                            *config,
                            a,
                            b,
                        ) implies exists|k: int|
                        0 <= k < inst@.len() && (#[trigger] inst@[k]).0.x == a && inst@[k].0.y
                            == b by {
                        if a * h + b < p {
                            let k = choose|k: int|
                                0 <= k < pre_inst.len() && pre_inst[k].0.x == a && pre_inst[k].0.y
                                    == b;
                            assert(0 <= k < inst@.len() && inst@[k].0.x == a && inst@[k].0.y == b);
                        } else {
                            assert(a * h + b == p);
                            assert(a == x as int && b == y as int) by (nonlinear_arith)
                                requires
                                    0 <= b < h,
                                    0 <= (y as int) < h,
                                    a * h + b == x as int * h + y,
                                    0 <= a,
                                    0 <= (x as int),
                            ;
                            assert(inst@[inst@.len() - 1].0.x == a && inst@[inst@.len() - 1].0.y
                                == b);
                        }
                    }
                }
                y += 1;
            }
            proof {
                assert(x as int * h + h == (x as int + 1) * h) by (nonlinear_arith);
            }
            x += 1;
        }
        let count = inst.len() as u32;
        proof {
            assert(inst@.len() <= w * h);
            assert(w * h <= 4096 * 4096) by (nonlinear_arith)
                requires
                    0 <= w <= 4096,
                    0 <= h <= 4096,
            ;
            assert forall|a: int, b: int|
                0 <= a < w && 0 <= b < h && #[trigger] self.matched(*config, a, b) implies exists|
                    k: int,
                |
                    0 <= k < inst@.len() && (#[trigger] inst@[k]).0.x == a && inst@[k].0.y
                        == b by {
                assert(a * h + b < w * h) by (nonlinear_arith)
                    requires
                        0 <= a < w,
                        0 <= b < h,
                ;
            }
        }
        self.instances = inst;
        self.instance_count = count;
        self.dirty = false;
    }

    /// The number of instances the last `apply_changes` produced; valid only
    /// right after one ran.
    pub fn instance_count(&self) -> (r: u32)
        ensures
            r == self.spec_instance_count(),
    {
        self.instance_count
    }

    /// The dense draw list the last `apply_changes` produced: one
    /// `(grid position, sheet position)` pair per matched filled cell.
    pub fn instances(&self) -> (r: &Vec<(GridCoordinate, GridCoordinate)>)
        ensures
            r@ == self.spec_instances(),
    {
        &self.instances
    }
}

/// Toggling the same cell twice restores every cell of the grid — occupancy
/// and stored orientations alike — for any grid whose orientations were
/// consistent to begin with.
pub proof fn lemma_toggle_self_inverse(
    g0: TilemapRenderer,
    g1: TilemapRenderer,
    g2: TilemapRenderer,
    x: int,
    y: int,
)
    requires
        g0.dims_wf(),
        g0.consistent(),
        0 <= x < g0.spec_width(),
        0 <= y < g0.spec_height(),
        toggle_rel(g0, g1, x, y),
        toggle_rel(g1, g2, x, y),
    ensures
        g2.spec_width() == g0.spec_width(),
        g2.spec_height() == g0.spec_height(),
        forall|a: int, b: int|
            0 <= a < g0.spec_width() && 0 <= b < g0.spec_height() ==> #[trigger] g2.cell(a, b)
                == g0.cell(a, b),
{
    lemma_dir_small();
    assert forall|a: int, b: int| #[trigger] g2.occ(a, b) == g0.occ(a, b) by {
        assert(g1.occ(a, b) == (if a == x && b == y {
            !g0.occ(a, b)
        } else {
            g0.occ(a, b)
        }));
    }
    assert forall|a: int, b: int|
        0 <= a < g0.spec_width() && 0 <= b < g0.spec_height() implies #[trigger] g2.cell(a, b)
        == g0.cell(a, b) by {
        if x - 1 <= a <= x + 1 && y - 1 <= b <= y + 1 {
            if g0.occ(a, b) {
                assert(g2.occ(a, b));
                assert(g2.oriented(a, b));
                assert(g0.oriented(a, b));
                match (g2.cell(a, b), g0.cell(a, b)) {
                    (Tile::Filled(o2), Tile::Filled(o0)) => {
                        assert forall|i: int|
                            0 <= i < 8 implies (#[trigger] o2.has(i) <==> o0.has(i)) by {
                            assert(o2.has(i) <==> g2.occ(a + dir_dx(i), b + dir_dy(i)));
                            assert(o0.has(i) <==> g0.occ(a + dir_dx(i), b + dir_dy(i)));
                        }
                        lemma_orientation_ext(o2, o0);
                    },
                    _ => {
                        assert(false);
                    },
                }
            } else {
                assert(!g2.occ(a, b));
                assert(g2.cell(a, b) is Empty);
                assert(g0.cell(a, b) is Empty);
            }
        } else {
            assert(g2.cell(a, b) == g1.cell(a, b));
            assert(g1.cell(a, b) == g0.cell(a, b));
        }
    }
}

/// Updating one in-bounds cell changes that storage slot alone.
proof fn lemma_cell_update(pre: TilemapRenderer, post: TilemapRenderer, x: int, y: int, t: Tile)
    requires
        pre.dims_wf(),
        0 <= x < pre.spec_width(),
        0 <= y < pre.spec_height(),
        post.spec_width() == pre.spec_width(),
        post.spec_height() == pre.spec_height(),
        post.grid() == pre.grid().update(x * pre.spec_height() + y, t),
    ensures
        post.dims_wf(),
        post.cell(x, y) == t,
        forall|a: int, b: int|
            0 <= a < pre.spec_width() && 0 <= b < pre.spec_height() && !(a == x && b == y)
                ==> #[trigger] post.cell(a, b) == pre.cell(a, b),
{
    let h = pre.spec_height();
    let w = pre.spec_width();
    assert(0 <= x * h + y < pre.grid().len()) by (nonlinear_arith)
        requires
            0 <= x < w,
            0 <= y < h,
            pre.grid().len() == w * h,
    ;
    assert forall|a: int, b: int|
        0 <= a < w && 0 <= b < h && !(a == x && b == y) implies #[trigger] post.cell(a, b)
        == pre.cell(a, b) by {
        assert(0 <= a * h + b < pre.grid().len() && a * h + b != x * h + y) by (nonlinear_arith)
            requires
                0 <= a < w,
                0 <= b < h,
                0 <= x < w,
                0 <= y < h,
                !(a == x && b == y),
                pre.grid().len() == w * h,
        ;
    }
}

} // verus!
