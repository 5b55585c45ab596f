use vstd::prelude::*;

use crate::orientation::Orientation;
use crate::tile_requirements::TileRequirements;

verus! {

/// Relies on rand's `random`: a value drawn from the thread-local generator.
/// Nothing is promised of the value; callers state what holds of every
/// outcome.
pub assume_specification<T>[ rand::random::<T> ]() -> (r: T)
    where
        rand::distributions::Standard: rand::distributions::Distribution<T>,
;

/// A location, both on the tilemap occupancy grid and on the sprite sheet.
#[derive(Clone, Copy, PartialEq, Eq, Structural, PartialOrd, Ord, Hash, Debug, Default)]
#[verifier::ext_equal]
pub struct GridCoordinate {
    pub x: usize,
    pub y: usize,
}

impl GridCoordinate {
    pub fn new(x: usize, y: usize) -> (r: GridCoordinate)
        ensures
            r.x == x,
            r.y == y,
    {
        GridCoordinate { x, y }
    }
}

/// The strict key order of the rule table: by `x`, then by `y`.
pub open spec fn coord_lt(a: GridCoordinate, b: GridCoordinate) -> bool {
    a.x < b.x || (a.x == b.x && a.y < b.y)
}

/// Rule-table keys in strictly ascending order: each sheet coordinate
/// carries at most one rule.
pub open spec fn sorted_rule_keys(rules: Seq<(GridCoordinate, TileRequirements)>) -> bool {
    forall|i: int, j: int|
        0 <= i < j < rules.len() ==> coord_lt((#[trigger] rules[i]).0, (#[trigger] rules[j]).0)
}

/// The derived index from every concrete orientation to the sprite-sheet
/// coordinates whose authored rule matches it: one bucket per 8-bit
/// orientation value.
pub struct CoordinateSet {
    coordinates: Vec<Vec<GridCoordinate>>,
}

impl CoordinateSet {
    /// Every bucket is a set: no coordinate is registered twice under the
    /// same orientation, so the random tie-break stays uniform over the
    /// candidates.
    pub closed spec fn buckets_distinct(self) -> bool {
        forall|o: Orientation, i: int, j: int|
            0 <= i < j < self.candidates(o).len() ==> #[trigger] self.candidates(o)[i]
                != #[trigger] self.candidates(o)[j]
    }

    pub closed spec fn wf(self) -> bool {
        self.coordinates@.len() == 256 && self.buckets_distinct()
    }

    /// The candidate sheet coordinates registered under an orientation.
    pub closed spec fn candidates(self, o: Orientation) -> Seq<GridCoordinate> {
        self.coordinates@[o.bits as int]@
    }

    pub fn new() -> (r: CoordinateSet)
        ensures
            r.wf(),
            forall|o: Orientation| #[trigger] r.candidates(o).len() == 0,
    {
        let mut coordinates: Vec<Vec<GridCoordinate>> = Vec::new();
        let mut i: usize = 0;
        while i < 256
            invariant
                i <= 256,
                coordinates@.len() == i,
                forall|k: int| 0 <= k < i ==> #[trigger] coordinates@[k]@.len() == 0,
            decreases 256 - i,
        {
            coordinates.push(Vec::new());
            i += 1;
        }
        let r = CoordinateSet { coordinates };
        proof {
            assert forall|o: Orientation, i: int, j: int|
                0 <= i < j < r.candidates(o).len() implies #[trigger] r.candidates(o)[i]
                != #[trigger] r.candidates(o)[j] by {
                assert(r.candidates(o).len() == 0);
            }
        }
        r
    }

    /// Registers a sheet coordinate as valid for a concrete orientation.
    /// Registering a pair that is already present leaves the index exactly
    /// unchanged: a bucket is a set, not a multiset.
    pub fn insert(&mut self, k: Orientation, v: GridCoordinate)
        requires
            old(self).wf(),
        ensures
            final(self).wf(),
            old(self).candidates(k).contains(v) ==> *final(self) == *old(self),
            !old(self).candidates(k).contains(v) ==> final(self).candidates(k) == old(
                self,
            ).candidates(k).push(v),
            forall|c: GridCoordinate|
                #[trigger] final(self).candidates(k).contains(c) <==> (old(
                    self,
                ).candidates(k).contains(c) || c == v),
            forall|o: Orientation|
                o != k ==> #[trigger] final(self).candidates(o) == old(self).candidates(o),
    {
        let idx = k.bits as usize;
        let n = self.coordinates[idx].len();
        let mut present = false;
        let mut i: usize = 0;
        while i < n
            invariant
                *self == *old(self),
                old(self).wf(),
                idx == k.bits,
                i <= n,
                n == old(self).candidates(k).len(),
                present <==> exists|j: int|
                    0 <= j < i && #[trigger] old(self).candidates(k)[j] == v,
            decreases n - i,
        {
            let c = self.coordinates[idx][i];
            if c.x == v.x && c.y == v.y {
                proof {
                    assert(old(self).candidates(k)[i as int] =~= v);
                }
                present = true;
            }
            i += 1;
        }
        if !present {
            proof {
                assert(!old(self).candidates(k).contains(v));
            }
            let bucket = &mut self.coordinates[idx];
            bucket.push(v);
            proof {
                assert(self.candidates(k) == old(self).candidates(k).push(v));
                assert forall|o: Orientation, a: int, b: int|
                    0 <= a < b < self.candidates(o).len() implies #[trigger] self.candidates(o)[a]
                    != #[trigger] self.candidates(o)[b] by {
                    if o == k {
                        if b == self.candidates(o).len() - 1 {
                            assert(self.candidates(o)[a] == old(self).candidates(k)[a]);
                            assert(old(self).candidates(k).contains(old(self).candidates(k)[a]));
                        } else {
                            assert(self.candidates(o)[a] == old(self).candidates(k)[a]);
                            assert(self.candidates(o)[b] == old(self).candidates(k)[b]);
                        }
                    } else {
                        assert(self.candidates(o) == old(self).candidates(o));
                    }
                }
            }
        } else {
            proof {
                assert(old(self).candidates(k).contains(v));
            }
        }
        proof {
            assert forall|c: GridCoordinate|
                #[trigger] self.candidates(k).contains(c) <==> (old(self).candidates(k).contains(c)
                    || c == v) by {
                if present {
                } else {
                    if self.candidates(k).contains(c) {
                        let w = choose|w: int|
                            0 <= w < self.candidates(k).len() && self.candidates(k)[w] == c;
                        if w < old(self).candidates(k).len() {
                            assert(old(self).candidates(k).contains(c));
                        } else {
                            assert(c == v);
                        }
                    }
                    if old(self).candidates(k).contains(c) {
                        let w = choose|w: int|
                            0 <= w < old(self).candidates(k).len() && old(self).candidates(k)[w]
                                == c;
                        assert(self.candidates(k)[w] == c);
                    }
                    if c == v {
                        assert(self.candidates(k)[self.candidates(k).len() - 1] == v);
                    }
                }
            }
        }
    }

    /// The coordinate the tie-break roll selects under this orientation;
    /// nothing when none is registered. Deterministic in the roll, so a
    /// caller that fixes the roll gets a fixed answer.
    fn get_with(&self, index: Orientation, roll: u32) -> (r: Option<GridCoordinate>)
        requires
            self.wf(),
        ensures
            match r {
                Some(c) => self.candidates(index).len() > 0 && c == self.candidates(index)[(
                roll as int) % (self.candidates(index).len() as int)],
                None => self.candidates(index).len() == 0,
            },
    {
        let bucket = &self.coordinates[index.bits as usize];
        let len = bucket.len();
        if len == 0 {
            None
        } else {
            let i = (roll as usize) % len;
            Some(bucket[i])
        }
    }

    /// One of the coordinates registered under this orientation, drawn at
    /// random for visual variety; nothing when none is registered.
    fn get(&self, index: Orientation) -> (r: Option<GridCoordinate>)
        requires
            self.wf(),
        ensures
            match r {
                Some(c) => self.candidates(index).contains(c),
                None => self.candidates(index).len() == 0,
            },
    {
        let roll: u32 = rand::random();
        self.get_with(index, roll)
    }
}

/// The authored autotiling configuration for one sprite sheet: the rule
/// table from sheet coordinate to neighbor pattern, the sheet geometry, and
/// the derived orientation index.
///
/// Many tilemaps can share one configuration. Lookups borrow it; an edit
/// needs exclusive access and must be followed by `sync_coordinates` before
/// any further lookup is trusted.
pub struct TilemapSpriteConfig {
    /// Valid placements of each sprite-sheet tile, keyed by sheet coordinate
    /// in strictly ascending order.
    pub orientations: Vec<(GridCoordinate, TileRequirements)>,
    /// Derived index; stale until `sync_coordinates` runs after an edit.
    pub coordinates: CoordinateSet,
    /// Amount of tiles horizontally on the sheet.
    pub grid_width: usize,
    /// Amount of tiles vertically on the sheet.
    pub grid_height: usize,
    /// Width in pixels of a tile (sub-sprite) inside the sheet grid.
    pub tile_width: usize,
    /// Height in pixels of a tile inside the sheet grid.
    pub tile_height: usize,
}

impl TilemapSpriteConfig {
    /// The authored rule table, in key order.
    pub open spec fn rules(self) -> Seq<(GridCoordinate, TileRequirements)> {
        self.orientations@
    }

    /// The candidates the derived index currently holds for an orientation.
    pub open spec fn candidates(self, o: Orientation) -> Seq<GridCoordinate> {
        self.coordinates.candidates(o)
    }

    /// Rule-table keys are strictly ascending, so each sheet coordinate
    /// carries at most one rule.
    pub open spec fn rules_sorted(self) -> bool {
        sorted_rule_keys(self.rules())
    }

    pub open spec fn index_wf(self) -> bool {
        self.coordinates.wf()
    }

    pub open spec fn wf(self) -> bool {
        self.index_wf() && self.rules_sorted()
    }

    /// The rule table holds exactly the pair `(c, req)`.
    pub open spec fn table_has(self, c: GridCoordinate, req: TileRequirements) -> bool {
        exists|i: int| 0 <= i < self.rules().len() && #[trigger] self.rules()[i] == (c, req)
    }

    /// Some authored rule at sheet coordinate `c` matches the concrete
    /// orientation `o`.
    pub open spec fn table_matches(self, o: Orientation, c: GridCoordinate) -> bool {
        exists|i: int|
            0 <= i < self.rules().len() && (#[trigger] self.rules()[i]).0 == c
                && self.rules()[i].1.matches(o)
    }

    /// The derived index agrees with the rule table: an orientation's
    /// candidate set holds exactly the sheet coordinates whose rule matches
    /// it.
    pub open spec fn synced(self) -> bool {
        forall|o: Orientation, c: GridCoordinate|
            #[trigger] self.candidates(o).contains(c) <==> self.table_matches(o, c)
    }

    /// A fresh configuration: empty rule table, default 8x8 pixel tiles.
    pub fn new(grid_width: usize, grid_height: usize) -> (r: TilemapSpriteConfig)
        ensures
            r.wf(),
            r.rules().len() == 0,
            forall|o: Orientation| #[trigger] r.candidates(o).len() == 0,
            r.synced(),
            r.grid_width == grid_width,
            r.grid_height == grid_height,
            r.tile_width == 8,
            r.tile_height == 8,
    {
        let r = TilemapSpriteConfig {
            tile_width: 8,
            tile_height: 8,
            grid_width,
            grid_height,
            orientations: Vec::new(),
            coordinates: CoordinateSet::new(),
        };
        proof {
            assert forall|o: Orientation, c: GridCoordinate| #[trigger]
                r.candidates(o).contains(c) <==> r.table_matches(o, c) by {
                assert(r.candidates(o).len() == 0);
            }
        }
        r
    }

    /// The sheet width as the rendering layer consumes it.
    pub fn grid_width(&self) -> (r: u32)
        requires
            self.grid_width <= u32::MAX,
        ensures
            r == self.grid_width,
    {
        self.grid_width as u32
    }

    /// The rule authored for a sheet coordinate, if any.
    pub fn get_rule(&self, c: GridCoordinate) -> (r: Option<TileRequirements>)
        ensures
            match r {
                Some(req) => self.table_has(c, req),
                None => forall|req: TileRequirements| !self.table_has(c, req),
            },
    {
        let n = self.orientations.len();
        let mut i: usize = 0;
        while i < n
            invariant
                i <= n,
                n == self.rules().len(),
                forall|j: int| 0 <= j < i ==> (#[trigger] self.rules()[j]).0 != c,
            decreases n - i,
        {
            let (key, req) = self.orientations[i];
            if key.x == c.x && key.y == c.y {
                proof {
                    assert(self.rules()[i as int] == (c, req));
                }
                return Some(req);
            }
            i += 1;
        }
        None
    }

    /// Authors (or replaces) the rule for a sheet coordinate. The derived
    /// index is left untouched: run `sync_coordinates` before trusting
    /// lookups again.
    pub fn insert_rule(&mut self, c: GridCoordinate, req: TileRequirements)
        requires
            old(self).wf(),
        ensures
            final(self).wf(),
            final(self).table_has(c, req),
            forall|r2: TileRequirements| #[trigger] final(self).table_has(c, r2) ==> r2 == req,
            forall|c2: GridCoordinate, r2: TileRequirements|
                c2 != c ==> (#[trigger] final(self).table_has(c2, r2) <==> old(self).table_has(
                    c2,
                    r2,
                )),
            forall|o: Orientation| #[trigger] final(self).candidates(o) == old(self).candidates(o),
            final(self).grid_width == old(self).grid_width,
            final(self).grid_height == old(self).grid_height,
            final(self).tile_width == old(self).tile_width,
            final(self).tile_height == old(self).tile_height,
    {
        let n = self.orientations.len();
        let mut i: usize = 0;
        let mut found = false;
        while i < n && !found
            invariant
                i <= n,
                n == self.rules().len(),
                forall|j: int| 0 <= j < i ==> coord_lt((#[trigger] self.rules()[j]).0, c),
                found ==> i < n && !coord_lt(self.rules()[i as int].0, c),
            decreases n - i, (if found { 0int } else { 1int }),
        {
            let key = self.orientations[i].0;
            if key.x < c.x || (key.x == c.x && key.y < c.y) {
                i += 1;
            } else {
                found = true;
            }
        }
        let ghost pre = self.orientations@;
        if i < n && self.orientations[i].0.x == c.x && self.orientations[i].0.y == c.y {
            self.orientations[i] = (c, req);
            proof {
                let post = self.orientations@;
                assert(post == pre.update(i as int, (c, req)));
                assert(post[i as int] == (c, req));
                assert forall|c2: GridCoordinate, r2: TileRequirements|
                    c2 != c implies (#[trigger] self.table_has(c2, r2) <==> old(self).table_has(
                    c2,
                    r2,
                )) by {
                    if self.table_has(c2, r2) {
                        let j = choose|j: int| 0 <= j < post.len() && post[j] == (c2, r2);
                        assert(j != i);
                        assert(pre[j] == (c2, r2));
                        assert(old(self).rules()[j] == (c2, r2));
                    }
                    if old(self).table_has(c2, r2) {
                        let j = choose|j: int| 0 <= j < pre.len() && pre[j] == (c2, r2);
                        assert(pre[i as int].0 == c);
                        assert(j != i);
                        assert(self.rules()[j] == (c2, r2));
                    }
                }
                assert forall|r2: TileRequirements|
                    #[trigger] self.table_has(c, r2) implies r2 == req by {
                    let j = choose|j: int| 0 <= j < post.len() && post[j] == (c, r2);
                    if j != i {
                        assert(pre[j] == (c, r2));
                        if j < i {
                            assert(coord_lt(pre[j].0, pre[i as int].0));
                        } else {
                            assert(coord_lt(pre[i as int].0, pre[j].0));
                        }
                    }
                }
            }
        } else {
            proof {
                if i < n {
                    assert(!coord_lt(self.rules()[i as int].0, c));
                    assert(coord_lt(c, self.rules()[i as int].0));
                }
            }
            self.orientations.insert(i, (c, req));
            proof {
                let post = self.orientations@;
                assert(post == pre.insert(i as int, (c, req)));
                assert(post[i as int] == (c, req));
                assert(self.rules()[i as int] == (c, req));
                assert(self.table_has(c, req));
                assert forall|p: int, q: int|
                    0 <= p < q < post.len() implies coord_lt(
                    (#[trigger] post[p]).0,
                    (#[trigger] post[q]).0,
                ) by {
                    if p < i && q > i {
                        assert(post[p] == pre[p] && post[q] == pre[q - 1]);
                        if p < i - 1 {
                            assert(coord_lt(pre[p].0, pre[i - 1].0));
                        }
                    }
                }
                assert forall|c2: GridCoordinate, r2: TileRequirements|
                    c2 != c implies (#[trigger] self.table_has(c2, r2) <==> old(self).table_has(
                    c2,
                    r2,
                )) by {
                    if self.table_has(c2, r2) {
                        let j = choose|j: int| 0 <= j < post.len() && post[j] == (c2, r2);
                        if j < i {
                            assert(pre[j] == (c2, r2));
                        } else {
                            assert(pre[j - 1] == (c2, r2));
                        }
                    }
                    if old(self).table_has(c2, r2) {
                        let j = choose|j: int| 0 <= j < pre.len() && pre[j] == (c2, r2);
                        if j < i {
                            assert(post[j] == (c2, r2));
                        } else {
                            assert(post[j + 1] == (c2, r2));
                        }
                    }
                }
                assert forall|r2: TileRequirements|
                    #[trigger] self.table_has(c, r2) implies r2 == req by {
                    let j = choose|j: int| 0 <= j < post.len() && post[j] == (c, r2);
                    if j != i {
                        if j < i {
                            assert(pre[j] == (c, r2));
                            assert(coord_lt(pre[j].0, c));
                        } else {
                            assert(pre[j - 1] == (c, r2));
                            assert(coord_lt(c, pre[i as int].0));
                            if j - 1 > i {
                                assert(coord_lt(pre[i as int].0, pre[j - 1].0));
                            }
                        }
                    }
                }
            }
        }
    }

    /// Removes the rule authored for a sheet coordinate, if any. The derived
    /// index is left untouched: run `sync_coordinates` before trusting
    /// lookups again.
    pub fn remove_rule(&mut self, c: GridCoordinate)
        requires
            old(self).wf(),
        ensures
            final(self).wf(),
            forall|r2: TileRequirements| !final(self).table_has(c, r2),
            forall|c2: GridCoordinate, r2: TileRequirements|
                c2 != c ==> (#[trigger] final(self).table_has(c2, r2) <==> old(self).table_has(
                    c2,
                    r2,
                )),
            forall|o: Orientation| #[trigger] final(self).candidates(o) == old(self).candidates(o),
            final(self).grid_width == old(self).grid_width,
            final(self).grid_height == old(self).grid_height,
            final(self).tile_width == old(self).tile_width,
            final(self).tile_height == old(self).tile_height,
    {
        let n = self.orientations.len();
        let mut i: usize = 0;
        while i < n
            invariant
                i <= n,
                n == self.rules().len(),
                old(self).wf(),
                self == old(self),
                forall|j: int| 0 <= j < i ==> (#[trigger] self.rules()[j]).0 != c,
            decreases n - i,
        {
            let key = self.orientations[i].0;
            if key.x == c.x && key.y == c.y {
                let ghost pre = self.orientations@;
                self.orientations.remove(i);
                proof {
                    let post = self.orientations@;
                    assert(post == pre.remove(i as int));
                    assert forall|r2: TileRequirements| !self.table_has(c, r2) by {
                        if self.table_has(c, r2) {
                            let j = choose|j: int| 0 <= j < post.len() && post[j] == (c, r2);
                            if j < i {
                                assert(pre[j] == (c, r2));
                            } else {
                                assert(pre[j + 1] == (c, r2));
                                assert(coord_lt(pre[i as int].0, pre[j + 1].0));
                            }
                        }
                    }
                    assert forall|c2: GridCoordinate, r2: TileRequirements|
                        c2 != c implies (#[trigger] self.table_has(c2, r2) <==> old(
                        self,
                    ).table_has(c2, r2)) by {
                        if self.table_has(c2, r2) {
                            let j = choose|j: int| 0 <= j < post.len() && post[j] == (c2, r2);
                            if j < i {
                                assert(pre[j] == (c2, r2));
                            } else {
                                assert(pre[j + 1] == (c2, r2));
                            }
                        }
                        if old(self).table_has(c2, r2) {
                            let j = choose|j: int| 0 <= j < pre.len() && pre[j] == (c2, r2);
                            if j < i {
                                assert(post[j] == (c2, r2));
                            } else {
                                assert(j != i);
                                assert(post[j - 1] == (c2, r2));
                            }
                        }
                    }
                }
                return ;
            }
            i += 1;
        }
    }

    /// Rebuilds the derived index from the rule table: every authored rule is
    /// expanded over its wildcards and its sheet coordinate registered under
    /// each concrete orientation the rule matches. Afterwards the index
    /// agrees with the table, so lookups can be trusted again.
    pub fn sync_coordinates(&mut self)
        requires
            old(self).index_wf(),
        ensures
            final(self).index_wf(),
            final(self).orientations == old(self).orientations,
            final(self).grid_width == old(self).grid_width,
            final(self).grid_height == old(self).grid_height,
            final(self).tile_width == old(self).tile_width,
            final(self).tile_height == old(self).tile_height,
            final(self).synced(),
    {
        self.coordinates = CoordinateSet::new();
        let n = self.orientations.len();
        let mut i: usize = 0;
        while i < n
            invariant
                i <= n,
                n == self.rules().len(),
                self.orientations == old(self).orientations,
                self.grid_width == old(self).grid_width,
                self.grid_height == old(self).grid_height,
                self.tile_width == old(self).tile_width,
                self.tile_height == old(self).tile_height,
                self.coordinates.wf(),
                forall|o: Orientation, c: GridCoordinate|
                    #[trigger] self.candidates(o).contains(c) <==> exists|r: int|
                        0 <= r < i && (#[trigger] self.rules()[r]).0 == c
                            && self.rules()[r].1.matches(o),
            decreases n - i,
        {
            let (coord, req) = self.orientations[i];
            let orients = req.concrete_orientations();
            let m = orients.len();
            let ghost pre = self.coordinates;
            proof {
                assert forall|o: Orientation, c: GridCoordinate|
                    #[trigger] pre.candidates(o).contains(c) <==> exists|r: int|
                        0 <= r < i && (#[trigger] self.rules()[r]).0 == c
                            && self.rules()[r].1.matches(o) by {
                    assert(self.candidates(o) == pre.candidates(o));
                    assert(self.candidates(o).contains(c) <==> exists|r: int|
                        0 <= r < i && (#[trigger] self.rules()[r]).0 == c
                            && self.rules()[r].1.matches(o));
                }
            }
            let mut k: usize = 0;
            while k < m
                invariant
                    k <= m,
                    m == orients@.len(),
                    i < n,
                    n == self.rules().len(),
                    self.orientations == old(self).orientations,
                    self.grid_width == old(self).grid_width,
                    self.grid_height == old(self).grid_height,
                    self.tile_width == old(self).tile_width,
                    self.tile_height == old(self).tile_height,
                    (coord, req) == self.rules()[i as int],
                    forall|o: Orientation| #[trigger] orients@.contains(o) <==> req.matches(o),
                    self.coordinates.wf(),
                    forall|o: Orientation, c: GridCoordinate|
                        #[trigger] self.coordinates.candidates(o).contains(c) <==> (
                        pre.candidates(o).contains(c) || (c == coord && orients@.subrange(
                            0,
                            k as int,
                        ).contains(o))),
                    forall|o: Orientation, c: GridCoordinate|
                        #[trigger] pre.candidates(o).contains(c) <==> exists|r: int|
                            0 <= r < i && (#[trigger] self.rules()[r]).0 == c
                                && self.rules()[r].1.matches(o),
                decreases m - k,
            {
                let o = orients[k];
                let ghost before = self.coordinates;
                self.coordinates.insert(o, coord);
                proof {
                    assert forall|o2: Orientation, c2: GridCoordinate|
                        #[trigger] self.coordinates.candidates(o2).contains(c2) <==> (
                        pre.candidates(o2).contains(c2) || (c2 == coord && orients@.subrange(
                            0,
                            k as int + 1,
                        ).contains(o2))) by {
                        let sub1 = orients@.subrange(0, k as int + 1);
                        let sub0 = orients@.subrange(0, k as int);
                        assert(sub1[k as int] == o);
                        assert forall|t: int| 0 <= t < k implies sub1[t] == sub0[t] by {}
                        if o2 == o {
                            if self.coordinates.candidates(o2).contains(c2) {
                                if before.candidates(o2).contains(c2) {
                                    if c2 == coord && sub0.contains(o2) {
                                        let w = choose|w: int|
                                            0 <= w < sub0.len() && sub0[w] == o2;
                                        assert(sub1[w] == o2);
                                        assert(sub1.contains(o2));
                                    }
                                } else {
                                    assert(c2 == coord);
                                    assert(sub1.contains(o2));
                                }
                            }
                            if pre.candidates(o2).contains(c2) {
                                assert(before.candidates(o2).contains(c2));
                                assert(self.coordinates.candidates(o2).contains(c2));
                            }
                            if c2 == coord && sub1.contains(o2) {
                                assert(self.coordinates.candidates(o2).contains(c2));
                            }
                        } else {
                            assert(self.coordinates.candidates(o2) == before.candidates(o2));
                            if c2 == coord && sub1.contains(o2) {
                                let w = choose|w: int| 0 <= w < sub1.len() && sub1[w] == o2;
                                assert(w < k);
                                assert(sub0[w] == o2);
                                assert(sub0.contains(o2));
                            }
                            if c2 == coord && sub0.contains(o2) {
                                let w = choose|w: int| 0 <= w < sub0.len() && sub0[w] == o2;
                                assert(sub1[w] == o2);
                                assert(sub1.contains(o2));
                            }
                        }
                    }
                }
                k += 1;
            }
            proof {
                assert(orients@.subrange(0, m as int) == orients@);
                assert forall|o: Orientation, c: GridCoordinate|
                    #[trigger] self.candidates(o).contains(c) <==> exists|r: int|
                        0 <= r < i + 1 && (#[trigger] self.rules()[r]).0 == c
                            && self.rules()[r].1.matches(o) by {
                    if self.candidates(o).contains(c) {
                        if pre.candidates(o).contains(c) {
                        } else {
                            assert(c == coord && orients@.contains(o));
                            assert((#[trigger] self.rules()[i as int]).0 == c
                                && self.rules()[i as int].1.matches(o));
                        }
                    }
                    if exists|r: int|
                        0 <= r < i + 1 && (#[trigger] self.rules()[r]).0 == c
                            && self.rules()[r].1.matches(o) {
                        let r = choose|r: int|
                            0 <= r < i + 1 && (#[trigger] self.rules()[r]).0 == c
                                && self.rules()[r].1.matches(o);
                        if r < i {
                            assert(pre.candidates(o).contains(c));
                        } else {
                            assert(self.rules()[i as int].1 == req);
                            assert(orients@.contains(o));
                        }
                    }
                }
            }
            i += 1;
        }
    }

    /// The candidate index is a function of the rule table alone: two
    /// synchronized configurations with the same authored rules — such as a
    /// table and the table read back from its serialized bytes — hold
    /// identical candidate sets for every orientation.
    pub proof fn lemma_same_rules_same_candidates(c1: TilemapSpriteConfig, c2: TilemapSpriteConfig)
        requires
            c1.rules() == c2.rules(),
            c1.synced(),
            c2.synced(),
        ensures
            forall|o: Orientation, g: GridCoordinate|
                #[trigger] c1.candidates(o).contains(g) <==> #[trigger] c2.candidates(o).contains(
                    g,
                ),
    {
        assert forall|o: Orientation, g: GridCoordinate|
            #[trigger] c1.candidates(o).contains(g) <==> #[trigger] c2.candidates(o).contains(
            g,
        ) by {
            assert(c1.table_matches(o, g) == c2.table_matches(o, g));
        }
    }

    /// Resolves a concrete orientation to a sprite-sheet coordinate: one of
    /// the registered candidates, drawn at random for visual variety, or
    /// nothing when no rule covers the orientation.
    pub fn find_tile_index(&self, o: Orientation) -> (r: Option<GridCoordinate>)
        requires
            self.index_wf(),
        ensures
            match r {
                Some(c) => self.candidates(o).contains(c),
                None => self.candidates(o).len() == 0,
            },
    {
        self.coordinates.get(o)
    }

    /// Resolves a concrete orientation with an injected tie-break roll
    /// instead of the hidden generator: the candidate the roll selects, or
    /// nothing when no rule covers the orientation. Deterministic in the
    /// roll, for callers and tests that want a fixed draw.
    pub fn find_tile_index_with(&self, o: Orientation, roll: u32) -> (r: Option<GridCoordinate>)
        requires
            self.index_wf(),
        ensures
            match r {
                Some(c) => self.candidates(o).len() > 0 && c == self.candidates(o)[(roll as int) % (
                self.candidates(o).len() as int)],
                None => self.candidates(o).len() == 0,
            },
    {
        self.coordinates.get_with(o, roll)
    }
}

} // verus!

