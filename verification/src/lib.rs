//! Verified core of an editor for ICARUS save files.

pub mod browser;
pub mod catalog;
pub mod editor;
pub mod graph;
pub mod json;
pub mod json_fmt;
pub mod labels;
pub mod laws;
pub mod levels;
pub mod model;
pub mod owner;
pub mod pak;
pub mod resolve;
pub mod sync;
pub mod table;
pub mod text;
pub mod texture;
pub mod unlock;
pub mod uasset;
pub mod unlock_laws;
