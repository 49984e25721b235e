//! The verified core of a banana-harvesting idle game: the counted economy,
//! the village map, its routes and the ground drawn on it, the save format's
//! validation, the shop, what the player's input decides, and the launch
//! options.

pub mod cheapest;
pub mod controls;
pub mod domain;
pub mod expansion;
pub mod ground;
pub mod launch;
pub mod map;
pub mod persistence;
pub mod route;
pub mod scenery;
pub mod shop;
pub mod text;
