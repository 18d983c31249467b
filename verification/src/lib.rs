//! Patches in the HDiff formats: HDIFF13 for one file, HDIFFSF20 for one file that
//! is compressed as a whole, HDIFF19 for directories, and the KrDiff variant of the
//! last. A patch and the old data go in as bytes, and the new data comes out.
//!
//! Each function states what it makes of its bytes over spec functions on sequences,
//! whose names end in `_of` where they read and say what is left of the bytes then.
//! The public proof functions named `law_..` state what holds across functions. The
//! modules named `written..` say how values are written, and that reading undoes it.
pub mod clips;
pub mod combined;
pub mod compression_utils;
pub mod cut_headers;
pub mod error;
pub mod hdiff;
pub mod header;
pub mod joined_files;
pub mod kr_format;
pub mod parser;
pub mod partial_header;
pub mod patch_core;
pub mod patch_dir;
pub mod patch_krdir;
pub mod patch_sf;
pub mod patch_single;
pub mod refused_values;
pub mod rle;
pub mod rle0;
pub mod signature;
pub mod similar_files;
pub mod stopped_patches;
pub mod streams;
pub mod structs;
pub mod text;
pub mod untouched_files;
pub mod varint;
pub mod written;
pub mod written_dir;
pub mod written_dir_patch;
pub mod written_file;
pub mod written_header;
pub mod written_kr;
pub mod written_kr_file;
pub mod written_kr_patch;
pub mod written_lists;
pub mod written_patch;
pub mod written_runs;
pub mod written_sf;
pub mod written_signature;
