//! Extraction and cataloguing of Gecko codes (game-patch cheat codes).
pub mod text;
pub mod pattern;
pub mod hexnum;
pub mod gecko;
pub mod blocks;
pub mod address;
pub mod order;
pub mod duplicates;
pub mod report;
pub mod page;
