//! Board generation and map topology for a hexagonal settlement game: the
//! map-description parser, the dealing of resources and dice numbers to the
//! land tiles, and the structure slots shared by the tiles that meet at each
//! corner of the board.

pub mod card;
pub mod grid;
pub mod text;
pub mod parser;
pub mod geometry;
pub mod hex;
pub mod building;
pub mod tally;
pub mod deal;
pub mod map;
pub mod game;
pub mod interface;
