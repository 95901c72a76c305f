//! Quality trimming and filtering of FASTQ reads.
//!
//! Reads arrive as text lines, four to a read. Each read has the low-quality
//! ends of its sequence cut off, and is kept or dropped by its length and its
//! mean quality. The two reads of a pair are kept or dropped together.

pub mod assembler;
pub mod config;
pub mod floor;
pub mod pipeline;
pub mod quality;
pub mod read;
pub mod trimmer;

pub use assembler::{Assembler, Stage};
pub use config::Config;
pub use floor::QualityFloor;
pub use pipeline::clean_lines;
pub use quality::{avg_quality, MeanQuality};
pub use read::Read;
pub use trimmer::trim;
