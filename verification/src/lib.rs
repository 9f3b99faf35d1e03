//! Procedural terrain on a hexagonal grid: the offset coordinate system with
//! its topology queries, and the generators that classify every tile.

pub mod fixed;
pub mod generators;
pub mod hex;
pub mod hexmap;
pub mod renderers;
pub mod rng;

pub use crate::generators::inland::{Inland, InlandParam};
pub use crate::generators::islands::{Islands, NoiseSamples};
pub use crate::hex::{Hex, HexType, RATIO};
pub use crate::hexmap::{HexMap, IndexOutOfRange};
