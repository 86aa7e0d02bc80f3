pub mod vector;
pub mod direction;
pub mod movement;
pub mod text;
pub mod run_length;
pub mod tile;
pub mod positions;
pub mod level;
pub mod board;
pub mod reach;
pub mod parse;
pub mod load;
pub mod replay;
pub mod path;
pub mod deadlock;
pub mod hashing;
pub mod clock;
pub mod solver;
pub mod pushable;
pub mod export;
pub mod normalize;
pub mod records;
pub mod crate_path;
pub mod similar;
pub mod symmetry;
pub mod interaction;
pub mod playback;
pub mod reload;
pub mod moves;
pub mod optimal;
