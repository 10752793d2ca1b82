//! Little-a-map: mosaics of the map items that players of a Minecraft world
//! have collected.
//!
//! The crate holds the rules of the tool: where a map lies in the tile
//! pyramid, which map items a save file refers to, which files a search has
//! to read again, how maps that cover the same ground are stacked and drawn
//! over each other, and what is reported about the banners placed on them.
//! Reading and writing files is left to the program around it, which hands
//! in bytes, names and times.
//!
//! Every function carries a contract, and Verus proves the contracts from
//! the code. Taken on trust are only the few functions that call into other
//! crates: unpacking gzip (`read`), decoding tagged values (`read`), going
//! through a region file (`read`), reading JSON (`json`), comparing versions
//! (`level`) and writing PNG (`canvas`). Each of them says in its comment
//! what it claims.

pub mod banner;
pub mod cache;
pub mod canvas;
pub mod files;
pub mod geo;
pub mod ids;
pub mod item;
pub mod json;
pub mod level;
pub mod map;
pub mod nbt;
pub mod nesting;
pub mod page;
pub mod palette;
pub mod read;
pub mod render;
pub mod report;
pub mod scan;
pub mod search;
pub mod sorted;
pub mod text;
pub mod tile;
pub mod time;
