//! Ordered speech-synthesis pipeline with a segmented MP3 writer.
//!
//! Text units are synthesised concurrently, their results are put back into
//! input order, and the ordered audio is encoded into a sequence of MP3 files
//! of bounded duration.
//!
//! The library holds the decisions and leaves the waiting to its caller:
//!
//! - [`source`] finds the text units of an input and numbers them as jobs.
//! - [`dispatch`] says which job may start, under a limit on how many run
//!   at the same time, and tags each result with its position.
//! - [`reorder`] releases the results in the order of the positions.
//! - [`pipeline`] writes what is released and stops at the first failure.
//! - [`writer`] converts samples to PCM ([`pcm`]), feeds the encoder
//!   ([`codec`]) and rotates segments ([`accounting`], [`capacity`],
//!   [`naming`]); the file operations that are due go to a [`journal`],
//!   which the caller carries out.

pub mod accounting;
pub mod capacity;
pub mod codec;
pub mod config;
pub mod dispatch;
pub mod error;
pub mod journal;
pub mod naming;
pub mod pcm;
pub mod pipeline;
pub mod reorder;
pub mod source;
pub mod writer;
