//! Converts binary-delimited application log files into readable text and
//! fans each decoded record out into per-source (and optionally
//! per-process) output streams.
//!
//! The record decoder splits a raw buffer into header and records on
//! control-byte framing, renders each record as one text line, and caches
//! the most recently formatted timestamp prefix. Input files of one run are
//! ordered by the numeric id in their names. Decoded lines reach a keyed,
//! size-thresholded buffered writer that guarantees create-then-append
//! semantics per key over an injected persistence capability.

pub mod bytes;
pub mod cached_writer;
pub mod folder_parser;
pub mod log_parser;
pub mod mem_writer;
pub mod sorted_file_list;
pub mod time_format;
