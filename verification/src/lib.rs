//! Reader for NASA/JPL DAF/SPK ephemeris kernels (`.bsp`, SPK types 2 and 3).
//!
//! The verified part of the reader: decoding of the DAF file record and the
//! summary records, integers and IEEE-754 doubles held as raw bytes, segment
//! lookup, and the plan by which a position is composed from segments.
//! Floating-point evaluation of the Chebyshev series is left to the caller.

pub mod bsp;
pub mod bytes;
pub mod daf;
pub mod error;
pub mod laws;
pub mod naif;
pub mod record;
pub mod spk;
pub mod text;

pub use bsp::BspFile;
pub use error::BspError;
pub use spk::BspSegment;
