use autotile::sprite_config::GridCoordinate;
use autotile::sprite_config::TilemapSpriteConfig;
use autotile::tile_requirements::TileRequirements;
use autotile::Orientation;

fn all_true() -> TileRequirements {
    TileRequirements {
        dirs: [
            Some(true),
            Some(true),
            Some(true),
            Some(true),
            Some(true),
            Some(true),
            Some(true),
            Some(true),
        ],
    }
}

#[test]
fn sync_coordinates() {
    let mut c = TilemapSpriteConfig::new(4, 4);

    c.insert_rule(GridCoordinate::new(2, 2), all_true());

    c.insert_rule(GridCoordinate::new(2, 1), all_true());

    // Should insert into NONE and S
    c.insert_rule(
        GridCoordinate::new(1, 1),
        TileRequirements {
            dirs: [
                Some(false),
                None,
                Some(false),
                Some(false),
                Some(false),
                Some(false),
                Some(false),
                Some(false),
            ],
        },
    );

    c.sync_coordinates();

    assert!(c.find_tile_index(Orientation::all()).is_some());

    assert!(c.find_tile_index(Orientation::none()).is_some());
    assert!(c.find_tile_index(Orientation::s()).is_some());

    // Nothing has set this
    assert!(c.find_tile_index(Orientation::n()).is_none());
}

#[test]
fn expansion_full_wildcard() {
    let req = TileRequirements { dirs: [None; 8] };
    let orients = req.concrete_orientations();
    assert_eq!(orients.len(), 256);
    for i in 0..orients.len() {
        for j in 0..orients.len() {
            if i != j {
                assert_ne!(orients[i], orients[j]);
            }
        }
    }
}

#[test]
fn expansion_counts() {
    // no wildcards: exactly one concrete orientation
    let exact = all_true();
    assert_eq!(exact.concrete_orientations().len(), 1);

    // one wildcard doubles the set
    let mut one = all_true();
    *one.s_mut() = None;
    let orients = one.concrete_orientations();
    assert_eq!(orients.len(), 2);
    assert_ne!(orients[0], orients[1]);

    // three wildcards give eight
    let mut three = all_true();
    *three.n_mut() = None;
    *three.ne_mut() = None;
    *three.sw_mut() = None;
    assert_eq!(three.concrete_orientations().len(), 8);
}

#[test]
fn expansion_members_contain_rule_coordinate() {
    let mut c = TilemapSpriteConfig::new(4, 4);
    let coord = GridCoordinate::new(3, 0);
    let mut req = all_true();
    *req.w_mut() = None;
    c.insert_rule(coord, req);
    c.sync_coordinates();

    // both expansions resolve to the rule's sheet coordinate
    let with_w = Orientation::all();
    let without_w = Orientation::all().difference(Orientation::w());
    assert_eq!(c.find_tile_index(with_w), Some(coord));
    assert_eq!(c.find_tile_index(without_w), Some(coord));
}

#[test]
fn overlapping_rules_share_the_orientation() {
    // Two authored rules whose expansions both cover the same concrete
    // orientation: the resolver may return either, and never anything else.
    let mut c = TilemapSpriteConfig::new(4, 4);
    let a = GridCoordinate::new(0, 0);
    let b = GridCoordinate::new(1, 0);
    c.insert_rule(a, TileRequirements { dirs: [None; 8] });
    c.insert_rule(b, all_true());
    c.sync_coordinates();

    for _ in 0..200 {
        let hit = c.find_tile_index(Orientation::all()).unwrap();
        assert!(hit == a || hit == b);
    }
    // an orientation covered only by the wildcard rule resolves to it alone
    for _ in 0..50 {
        assert_eq!(c.find_tile_index(Orientation::none()), Some(a));
    }
}

#[test]
fn rule_table_edits() {
    let mut c = TilemapSpriteConfig::new(4, 4);
    let k = GridCoordinate::new(2, 3);
    assert!(c.get_rule(k).is_none());

    c.insert_rule(k, all_true());
    assert!(c.get_rule(k).is_some());

    // replacing keeps one rule per coordinate
    let mut partial = all_true();
    *partial.e_mut() = None;
    c.insert_rule(k, partial);
    let got = c.get_rule(k).unwrap();
    assert_eq!(*got.e(), None);
    assert_eq!(*got.n(), Some(true));

    c.remove_rule(k);
    assert!(c.get_rule(k).is_none());
}

#[test]
fn requirement_accessors() {
    let mut req = TileRequirements { dirs: [None; 8] };
    *req.n_mut() = Some(true);
    *req.sw_mut() = Some(false);
    assert_eq!(*req.n(), Some(true));
    assert_eq!(*req.sw(), Some(false));
    assert_eq!(*req.e(), None);

    assert_eq!(req.get_requirement(Orientation::n()), Some(&Some(true)));
    assert_eq!(req.get_requirement(Orientation::sw()), Some(&Some(false)));
    // a token that is not exactly one direction has no slot
    assert_eq!(req.get_requirement(Orientation::none()), None);
    assert_eq!(req.get_requirement(Orientation::all()), None);

    *req.get_requirement_mut(Orientation::e()).unwrap() = Some(true);
    assert_eq!(*req.e(), Some(true));
    assert!(req.get_requirement_mut(Orientation::none()).is_err());
}

#[test]
fn orientation_conversions() {
    let o = Orientation::n().union(Orientation::se());
    let req = TileRequirements::from_orientation(o);
    assert_eq!(*req.n(), Some(true));
    assert_eq!(*req.se(), Some(true));
    assert_eq!(*req.s(), Some(false));
    assert_eq!(*req.w(), Some(false));

    // every direction is concrete after the conversion, and the true bits
    // convert back to the same orientation
    assert_eq!(req.to_orientation(), o);
}

#[test]
fn orientation_set_operations() {
    let ns = Orientation::n().union(Orientation::s());
    assert!(ns.contains(Orientation::n()));
    assert!(ns.contains(Orientation::s()));
    assert!(!ns.contains(Orientation::e()));

    let n = ns.difference(Orientation::s());
    assert_eq!(n, Orientation::n());

    let inv = Orientation::none().complement();
    assert_eq!(inv, Orientation::all());
    assert_eq!(ns.complement().complement(), ns);
}

#[test]
fn grid_width_as_sheet_width() {
    let c = TilemapSpriteConfig::new(6, 2);
    assert_eq!(c.grid_width(), 6u32);
}

#[test]
fn duplicate_rules_do_not_stack() {
    // registering the same (orientation, coordinate) pair twice keeps set
    // semantics: the resolver still only ever answers with that coordinate
    let mut c = TilemapSpriteConfig::new(4, 4);
    let coord = GridCoordinate::new(3, 3);
    c.coordinates.insert(Orientation::none(), coord);
    c.coordinates.insert(Orientation::none(), coord);
    for _ in 0..20 {
        assert_eq!(c.find_tile_index(Orientation::none()), Some(coord));
    }
    assert!(c.find_tile_index(Orientation::n()).is_none());
}

#[test]
fn injected_roll_makes_resolution_deterministic() {
    let mut c = TilemapSpriteConfig::new(4, 4);
    let a = GridCoordinate::new(0, 0);
    let b = GridCoordinate::new(1, 0);
    c.insert_rule(a, TileRequirements { dirs: [None; 8] });
    c.insert_rule(b, all_true());
    c.sync_coordinates();

    // a fixed roll gives a fixed answer, and the two rolls cover both
    // candidates of the doubly-ruled orientation
    let r0 = c.find_tile_index_with(Orientation::all(), 0).unwrap();
    let r1 = c.find_tile_index_with(Orientation::all(), 1).unwrap();
    assert_eq!(c.find_tile_index_with(Orientation::all(), 0), Some(r0));
    assert_eq!(c.find_tile_index_with(Orientation::all(), 2), Some(r0));
    assert_ne!(r0, r1);
    assert!((r0 == a && r1 == b) || (r0 == b && r1 == a));

    // an orientation no rule covers stays unresolved whatever the roll
    let mut only_exact = TilemapSpriteConfig::new(4, 4);
    only_exact.insert_rule(b, all_true());
    only_exact.sync_coordinates();
    assert_eq!(only_exact.find_tile_index_with(Orientation::n(), 7), None);
}
