//! Laws that hold of the library as a whole.

pub mod actions;
pub mod arrays;
pub mod dashes;
pub mod delivery;
pub mod diff;
pub mod digests;
pub mod nesting;
pub mod normal;
pub mod objects;
pub mod patches;
pub mod paths;
pub mod scope;
pub mod scripts;
pub mod strings;
pub mod sync;
pub mod texts;
pub mod thrift;
pub mod upkeep;
pub mod validity;
pub mod values;
pub mod wire;
