//! The autotiling core of a 2D tile-map editor: a sparse occupancy grid that
//! tracks, for every filled cell, which of its eight neighbors are filled,
//! and a rule engine that resolves such a neighborhood pattern to a
//! sprite-sheet tile through artist-authored, wildcard-capable rules.
//!
//! The grid lives in [`renderer`], the rule table and its derived lookup
//! index in [`sprite_config`], the authored patterns in
//! [`tile_requirements`], the direction sets in [`orientation`], and the
//! persisted form of the rule table in [`codec`].

pub mod codec;
pub mod orientation;
pub mod renderer;
pub mod sprite_config;
pub mod tile_requirements;

pub use orientation::Orientation;
pub use renderer::offset;
pub use renderer::offset_in_range;
pub use renderer::Tile;
pub use renderer::TilemapRenderer;
pub use sprite_config::CoordinateSet;
pub use sprite_config::GridCoordinate;
pub use sprite_config::TilemapSpriteConfig;
pub use tile_requirements::TileRequirements;
