//! Stacked random-access byte regions of a save-data image: windows, dual
//! copies with an atomic selector, hash-verified levels, AES-CTR encryption,
//! signed headers and DIFF container framing. Every layer works on one
//! backing image held in memory.

pub mod aes_ctr_file;
pub mod diff;
pub mod dual_file;
pub mod error;
pub mod ivfc_level;
pub mod le_bytes;
pub mod memory_file;
pub mod misc;
pub mod sd;
pub mod signed_file;
pub mod sub_file;
