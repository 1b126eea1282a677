//! Marking of PCR and optical duplicates among alignment records.
//!
//! A duplicate group is made of the alignment records that share library,
//! 5' reference coordinate and strand; in each group the record with the
//! highest sum of base qualities is kept and the others are marked.
//!
//! The crate holds the pipeline that finds the duplicates, as verified code,
//! and leaves the reading and writing of files to its caller:
//!
//! - [`position`] derives the 5' coordinate and the score of one record;
//! - [`metadata`] is the fixed-width entry that stands for a fragment or a
//!   pair, with its order and its byte codec ([`codec`]);
//! - [`resolver`] runs the first pass: it numbers the records, joins mates
//!   by read name ([`pending`]), finds their library ([`library`]) and
//!   gathers the entries into batches;
//! - [`spill`] sorts a batch and turns it into the bytes of a spill file;
//! - [`merge`] merges the sorted runs, [`classifier`] groups the merged
//!   stream, [`algorithm`] applies the duplicate rule to each group, and
//!   [`collector`] ties the three together;
//! - [`index_set`] and [`second_ends`] are the two sets of the pipeline;
//! - [`rewrite`] sets and clears the DUPLICATE bit in the bytes of a record.

pub mod algorithm;
pub mod args;
pub mod classifier;
pub mod codec;
pub mod collector;
pub mod index_set;
pub mod library;
pub mod merge;
pub mod metadata;
pub mod pending;
pub mod position;
pub mod record;
pub mod resolver;
pub mod rewrite;
pub mod second_ends;
pub mod spill;
pub mod utils;

pub use algorithm::identify_dups;
pub use args::Args;
pub use metadata::Metadata;
pub use position::{get_5p_pos, get_score};
pub use rewrite::{toggle_duplicate_flag, DUPLICATE_FLAG, FLAG_OFFSET};
