//! QR-code reading: finding the symbols of a binarized frame and decoding
//! the sampled cell bitmap of a symbol into its payload.
//!
//! The decoder works on a [`Code`], the cell bitmap of one symbol, and
//! produces a [`Data`]. Every step of it (format recovery, codeword
//! de-interleaving, Reed-Solomon correction, segment unpacking) has a
//! contract over a mathematical model of the step, and [`Code::decode`] is
//! proved to compute the composition of these models.
//!
//! Of the identifier the library holds all that computes with whole
//! numbers: the flood fill and the regions, the search for capstones, the
//! timing scan, the search for the alignment pattern, the list of the
//! cells that the fit of a grid is scored on, the sampling of the cells of
//! a code, and the records of capstones and grids in the [`Quirc`]
//! workspace. The perspective transforms, which compute in floating
//! point, are left to the caller, who hands the library the points that
//! they give.

pub mod decode;
pub mod ecc;
pub mod error;
pub mod fitness;
pub mod geometry;
pub mod gf;
pub mod grid;
pub mod identify;
pub mod image;
pub mod payload;
pub mod quirc;
pub mod region;
pub mod sample;
pub mod scan;
pub mod stream;
pub mod version_db;
pub mod workspace;

pub use self::error::{DecodeError, ExtractError};
pub use self::identify::{Capstone, Grid};
pub use self::image::Image;
pub use self::quirc::{version, Code, Data, DataType, DataView, EccLevel, Eci, Pixel, Point, Region};
pub use self::version_db::{RsParams, VersionInfo, VERSION_MAX, VERSION_MIN};
pub use self::workspace::Quirc;
