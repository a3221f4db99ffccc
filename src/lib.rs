//! Archive engine of a game-asset patcher: readers and writers for the GRF
//! container and for the GPF, THOR, RGZ and BEAM patch archives, and the
//! orchestration that merges a patch archive into a GRF.
//!
//! Everything here works on in-memory byte images; reading and writing files
//! is left to the caller.
//!
//! - `cursor`: little-endian reads and writes over byte buffers.
//! - `compress`: zlib, gzip and MD5, through flate2 and md5.
//! - `grf_table`, `grf`: the GRF file table, opening, extraction, staging
//!   and the rebuild that a commit writes.
//! - `gpf`, `thor`, `rgz`, `beam`: the patch-archive formats.
//! - `patcher`: classification of a patch by extension, staging, commit.
//! - `patch_list`, `checksum`: the patch-list text and the SHA-256 check of
//!   a downloaded archive.
//! - `config`, `game_settings`, `decimal`: launcher configuration and the
//!   client's `DATA.INI`.

pub mod error;
pub mod cursor;
pub mod compress;
pub mod thor;
pub mod rgz;
pub mod grf_table;
pub mod grf;
pub mod gpf;
pub mod beam;
pub mod patcher;
pub mod config;
pub mod patch_list;
pub mod checksum;
pub mod decimal;
pub mod game_settings;
