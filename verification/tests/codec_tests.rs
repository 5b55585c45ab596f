use autotile::sprite_config::GridCoordinate;
use autotile::sprite_config::TilemapSpriteConfig;
use autotile::tile_requirements::TileRequirements;
use autotile::Orientation;

#[test]
fn serialisation() {
    let mut c = TilemapSpriteConfig::new(4, 4);
    c.insert_rule(
        GridCoordinate::new(4, 3),
        TileRequirements {
            dirs: [Some(true), Some(false), None, None, None, None, None, None],
        },
    );

    let bytes = c.to_bytes();
    let expected = "{\"orientations\":{\"4:3\":{\"dirs\":[true,false,null,null,null,null,null,null]}},\"grid_width\":4,\"grid_height\":4,\"tile_width\":8,\"tile_height\":8}";
    assert_eq!(bytes, expected.as_bytes().to_vec());
}

#[test]
fn serialisation_empty_table() {
    let c = TilemapSpriteConfig::new(16, 2);
    let expected =
        "{\"orientations\":{},\"grid_width\":16,\"grid_height\":2,\"tile_width\":8,\"tile_height\":8}";
    assert_eq!(c.to_bytes(), expected.as_bytes().to_vec());
}

#[test]
fn deserialisation() {
    let json = "{\"orientations\":{\"4:3\":{\"dirs\":[true,false,null,null,null,null,null,null]}},\"grid_width\":4,\"grid_height\":4,\"tile_width\":8,\"tile_height\":8}";

    let c = TilemapSpriteConfig::from_bytes(json.as_bytes()).unwrap();
    assert_eq!(c.grid_width, 4);
    assert_eq!(c.grid_height, 4);
    assert_eq!(c.tile_width, 8);
    assert_eq!(c.tile_height, 8);

    let req = c.get_rule(GridCoordinate::new(4, 3)).unwrap();
    assert_eq!(*req.n(), Some(true));
    assert_eq!(*req.s(), Some(false));
    assert_eq!(*req.e(), None);
}

#[test]
fn round_trip_preserves_the_index() {
    let mut c = TilemapSpriteConfig::new(8, 8);
    c.insert_rule(GridCoordinate::new(0, 0), TileRequirements { dirs: [None; 8] });
    c.insert_rule(
        GridCoordinate::new(5, 5),
        TileRequirements {
            dirs: [
                Some(false),
                Some(true),
                None,
                Some(false),
                None,
                Some(false),
                Some(true),
                Some(false),
            ],
        },
    );
    c.sync_coordinates();

    let mut reloaded = TilemapSpriteConfig::from_bytes(c.to_bytes().as_slice()).unwrap();
    reloaded.sync_coordinates();

    assert_eq!(reloaded.grid_width, c.grid_width);
    assert_eq!(reloaded.grid_height, c.grid_height);
    assert_eq!(
        reloaded.get_rule(GridCoordinate::new(5, 5)),
        c.get_rule(GridCoordinate::new(5, 5))
    );

    // the rebuilt index answers exactly like the original for every
    // concrete orientation
    for bits in 0..=255u8 {
        let o = Orientation { bits };
        assert_eq!(c.find_tile_index(o).is_some(), reloaded.find_tile_index(o).is_some());
    }
}

#[test]
fn malformed_coordinate_key_is_an_error() {
    let json = "{\"orientations\":{\"4:\":{\"dirs\":[null,null,null,null,null,null,null,null]}},\"grid_width\":4,\"grid_height\":4,\"tile_width\":8,\"tile_height\":8}";
    assert!(TilemapSpriteConfig::from_bytes(json.as_bytes()).is_err());

    let json2 = "{\"orientations\":{\"a:3\":{\"dirs\":[null,null,null,null,null,null,null,null]}},\"grid_width\":4,\"grid_height\":4,\"tile_width\":8,\"tile_height\":8}";
    assert!(TilemapSpriteConfig::from_bytes(json2.as_bytes()).is_err());
}

#[test]
fn truncated_or_garbage_input_is_an_error() {
    assert!(TilemapSpriteConfig::from_bytes(b"").is_err());
    assert!(TilemapSpriteConfig::from_bytes(b"not json at all").is_err());
    assert!(TilemapSpriteConfig::from_bytes(b"{\"orientations\":{}").is_err());
    let with_trailing = "{\"orientations\":{},\"grid_width\":4,\"grid_height\":4,\"tile_width\":8,\"tile_height\":8} ";
    assert!(TilemapSpriteConfig::from_bytes(with_trailing.as_bytes()).is_err());
}

#[test]
fn persistence_fallback() {
    // no file: a fresh configuration with the requested geometry
    let c = TilemapSpriteConfig::new_or_load(None, 7, 5);
    assert_eq!(c.grid_width, 7);
    assert_eq!(c.grid_height, 5);
    assert_eq!(c.tile_width, 8);
    assert_eq!(c.tile_height, 8);
    assert!(c.get_rule(GridCoordinate::new(0, 0)).is_none());
    assert!(c.find_tile_index(Orientation::none()).is_none());

    // unreadable file contents: the same local recovery
    let c2 = TilemapSpriteConfig::new_or_load(Some(b"corrupt".to_vec()), 7, 5);
    assert_eq!(c2.grid_width, 7);
    assert_eq!(c2.grid_height, 5);
    assert!(c2.get_rule(GridCoordinate::new(0, 0)).is_none());
}

#[test]
fn load_reads_what_save_wrote() {
    let mut c = TilemapSpriteConfig::new(12, 3);
    c.insert_rule(
        GridCoordinate::new(10, 2),
        TileRequirements {
            dirs: [None, None, Some(true), None, None, None, None, Some(false)],
        },
    );
    let loaded = TilemapSpriteConfig::new_or_load(Some(c.to_bytes()), 1, 1);
    // geometry comes from the document, not from the fallback arguments
    assert_eq!(loaded.grid_width, 12);
    assert_eq!(loaded.grid_height, 3);
    let req = loaded.get_rule(GridCoordinate::new(10, 2)).unwrap();
    assert_eq!(*req.e(), Some(true));
    assert_eq!(*req.sw(), Some(false));
    assert_eq!(*req.n(), None);
}
