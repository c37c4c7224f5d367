//! Core of a karaoke player: the LRX lyrics format (parser, serializer and
//! document model), a wall-clock anchored multi-track audio transport with its
//! position sampler, the lyric scroll interpolator, and the singer queue.
//!
//! Times are integers throughout: lyric timestamps in centiseconds (the
//! resolution of the `mm:ss.cc` format), the transport clock in milliseconds.
//! Track volumes are in thousandths of full scale.
//!
//! The parser and the serializer carry exact contracts, and re-parsing a
//! serialized document provably yields the document again: see the laws in
//! the codec modules and the document-level theorem beside the serializer.

pub mod color;
pub mod document;
pub mod interpolate;
pub mod library;
pub mod numfmt;
pub mod parse;
pub mod queue;
pub mod roundtrip;
pub mod scan;
pub mod serialize;
pub mod strutil;
pub mod style;
pub mod timestamp;
pub mod transport;

pub use color::Rgb;
