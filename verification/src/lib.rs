//! Procedural generation of multi-level dungeon maps: a shared tile grid,
//! terrain carvers that mutate it, and placement passes that enrich it with
//! materials and inhabitants.

pub mod cellular;
pub mod colors;
pub mod coord;
pub mod dirs;
pub mod drunk;
pub mod dun_s1;
pub mod dun_s2;
pub mod dungeon;
pub mod dunspec;
pub mod features;
pub mod items;
pub mod material;
pub mod math;
pub mod maze;
pub mod message;
pub mod mineral_placement;
pub mod mob;
pub mod mob_placement;
pub mod player;
pub mod priority;
pub mod random;
pub mod randrm;
pub mod rect;
pub mod utils;
pub mod value;
