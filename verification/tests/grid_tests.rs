use autotile::renderer::offset;
use autotile::renderer::offset_in_range;
use autotile::renderer::Tile;
use autotile::renderer::TilemapRenderer;
use autotile::sprite_config::GridCoordinate;
use autotile::sprite_config::TilemapSpriteConfig;
use autotile::tile_requirements::TileRequirements;
use autotile::Orientation;

/// A config whose single full-wildcard rule maps every orientation to sheet
/// coordinate (0, 0).
fn wildcard_config() -> TilemapSpriteConfig {
    let mut c = TilemapSpriteConfig::new(4, 4);
    c.insert_rule(GridCoordinate::new(0, 0), TileRequirements { dirs: [None; 8] });
    c.sync_coordinates();
    c
}

fn orientation_at(map: &TilemapRenderer, x: usize, y: usize) -> Orientation {
    match map.tile(x, y) {
        Tile::Filled(o) => o,
        Tile::Empty => panic!("expected a filled cell"),
    }
}

#[test]
fn offset_stays_on_the_grid() {
    assert_eq!(offset(1, 1, 1, 0, 3, 3), Some((2, 1)));
    assert_eq!(offset(1, 1, -1, -1, 3, 3), Some((0, 0)));
    assert_eq!(offset(0, 0, -1, 0, 3, 3), None);
    assert_eq!(offset(2, 2, 1, 0, 3, 3), None);
    assert_eq!(offset(2, 2, 0, 1, 3, 3), None);
    assert!(offset_in_range(0, 2, 3));
    assert!(!offset_in_range(0, 3, 3));
    assert!(!offset_in_range(0, -1, 3));
}

#[test]
fn orient_maps_unit_offsets() {
    assert_eq!(Orientation::orient(1, 0), Some(Orientation::e()));
    assert_eq!(Orientation::orient(-1, 0), Some(Orientation::w()));
    assert_eq!(Orientation::orient(0, 1), Some(Orientation::n()));
    assert_eq!(Orientation::orient(0, -1), Some(Orientation::s()));
    assert_eq!(Orientation::orient(1, 1), Some(Orientation::ne()));
    assert_eq!(Orientation::orient(-1, 1), Some(Orientation::nw()));
    assert_eq!(Orientation::orient(1, -1), Some(Orientation::se()));
    assert_eq!(Orientation::orient(-1, -1), Some(Orientation::sw()));
    assert_eq!(Orientation::orient(0, 0), None);
    assert_eq!(Orientation::orient(2, 0), None);
}

#[test]
fn isolated_cell() {
    let config = wildcard_config();
    let mut map = TilemapRenderer::new(3, 3);
    map.toggle(1, 1);
    map.apply_changes(&config);

    // the lone center cell sees no neighbor at all
    let o = orientation_at(&map, 1, 1);
    assert_eq!(o, Orientation::none());
    for i in 0..8 {
        assert!(!o.has_index(i));
    }

    // the full-wildcard rule supplies its sheet coordinate
    assert_eq!(config.find_tile_index(Orientation::none()), Some(GridCoordinate::new(0, 0)));
    assert_eq!(map.instance_count(), 1);
    assert_eq!(map.instances()[0], (GridCoordinate::new(1, 1), GridCoordinate::new(0, 0)));
}

#[test]
fn full_neighborhood() {
    let config = wildcard_config();
    let mut map = TilemapRenderer::new(3, 3);
    for x in 0..3 {
        for y in 0..3 {
            map.toggle(x, y);
        }
    }
    map.apply_changes(&config);

    // the center of a fully filled block sees all eight neighbors
    assert_eq!(orientation_at(&map, 1, 1), Orientation::all());
    assert_eq!(map.instance_count(), 9);
}

#[test]
fn edge_clipping() {
    let config = wildcard_config();
    let mut map = TilemapRenderer::new(2, 2);
    for x in 0..2 {
        for y in 0..2 {
            map.toggle(x, y);
        }
    }
    map.apply_changes(&config);

    // the corner cell can only ever see E, S and SE; everything off the
    // grid is forced absent
    let expected = Orientation::e().union(Orientation::s()).union(Orientation::se());
    assert_eq!(orientation_at(&map, 0, 1), expected);

    let o = orientation_at(&map, 0, 1);
    assert!(!o.contains(Orientation::n()));
    assert!(!o.contains(Orientation::w()));
    assert!(!o.contains(Orientation::nw()));
    assert!(!o.contains(Orientation::ne()));
    assert!(!o.contains(Orientation::sw()));
}

#[test]
fn toggle_is_self_inverse() {
    let mut map = TilemapRenderer::new(5, 4);
    for (x, y) in [(0, 0), (1, 0), (1, 1), (3, 2), (4, 3), (2, 1)] {
        map.toggle(x, y);
    }
    let before: Vec<Tile> = snapshot(&map, 5, 4);

    map.toggle(2, 2);
    map.toggle(2, 2);

    let after: Vec<Tile> = snapshot(&map, 5, 4);
    assert_eq!(before, after);

    // and the same holds for a cell that started filled
    map.toggle(1, 1);
    map.toggle(1, 1);
    assert_eq!(snapshot(&map, 5, 4), before);
}

fn snapshot(map: &TilemapRenderer, w: usize, h: usize) -> Vec<Tile> {
    let mut v = Vec::new();
    for x in 0..w {
        for y in 0..h {
            v.push(map.tile(x, y));
        }
    }
    v
}

#[test]
fn neighbor_consistency_after_toggles() {
    let config = wildcard_config();
    let mut map = TilemapRenderer::new(6, 6);
    for (x, y) in [(0, 0), (0, 1), (1, 1), (2, 2), (3, 3), (3, 4), (5, 5), (1, 1), (2, 3)] {
        map.toggle(x, y);
    }
    map.apply_changes(&config);

    let offsets: [(isize, isize); 8] =
        [(0, 1), (0, -1), (1, 0), (-1, 0), (1, 1), (-1, 1), (1, -1), (-1, -1)];
    for x in 0..6usize {
        for y in 0..6usize {
            if let Tile::Filled(o) = map.tile(x, y) {
                for i in 0..8 {
                    let (dx, dy) = offsets[i];
                    assert_eq!(o.has_index(i), map.tile_filled(x, y, dx, dy));
                }
            }
        }
    }
}

#[test]
fn unmatched_cells_are_skipped() {
    // the only rule demands a north neighbor, so isolated cells go unmatched
    let mut config = TilemapSpriteConfig::new(4, 4);
    let mut req = TileRequirements { dirs: [None; 8] };
    *req.n_mut() = Some(true);
    config.insert_rule(GridCoordinate::new(2, 0), req);
    config.sync_coordinates();

    let mut map = TilemapRenderer::new(3, 3);
    map.toggle(0, 0);
    map.toggle(2, 2);
    map.apply_changes(&config);
    assert_eq!(map.instance_count(), 0);

    // give one of them a neighbor to the north and it gets a visual
    map.toggle(0, 1);
    map.apply_changes(&config);
    assert_eq!(map.instance_count(), 1);
    assert_eq!(map.instances()[0].0, GridCoordinate::new(0, 0));
    assert_eq!(map.instances()[0].1, GridCoordinate::new(2, 0));
}

#[test]
fn tile_accessors() {
    let mut map = TilemapRenderer::new(3, 2);
    assert_eq!(map.tile(0, 0), Tile::Empty);
    map.toggle(0, 0);
    assert!(matches!(map.tile(0, 0), Tile::Filled(_)));

    assert!(map.tile_exists(0, 0, 1, 0));
    assert!(!map.tile_exists(0, 0, -1, 0));
    assert!(map.tile_filled(1, 0, -1, 0));
    assert!(!map.tile_filled(1, 0, 1, 0));
    // off the grid is never filled
    assert!(!map.tile_filled(0, 0, -1, -1));

    assert_eq!(map.get_tile_offset(1, 0, -1, 0), Some(map.tile(0, 0)));
    assert_eq!(map.get_tile_offset(1, 0, 100, 0), None);
}
