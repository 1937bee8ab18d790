//! Face detection and tracking toolkit: image containers, PGM/PPM/PNG codecs,
//! integral images, benchmark utilities and small text parsers, each with a
//! machine-checked contract.

pub mod args;
pub mod benchmark;
pub mod detector;
pub mod faces;
pub mod image;
pub mod imgproc;
pub mod png;
pub mod ppm;
pub mod text;
pub mod saver;
pub mod http;
pub mod report;
pub mod xml;
pub mod tracker;
pub mod dataset;
