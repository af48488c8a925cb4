//! Spatial reasoning for a tile-grid roguelike: integer geometry, a
//! disjoint-set forest, dungeon generation, symmetric shadowcasting and
//! multi-source distance fields.
pub mod connectivity;
pub mod corridors;
pub mod creature;
pub mod dijkstra_map;
pub mod disjoint_sets;
pub mod game_state;
pub mod geometry;
pub mod item;
pub mod level;
pub mod line;
pub mod point_map;
pub mod random;
pub mod rational;
pub mod rooms;
pub mod terrain;
pub mod vision;
