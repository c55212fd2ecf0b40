//! Splits a disc image of raw 2352-byte sectors into one file per track,
//! following the track sheet that describes the image.
//!
//! The sheet is read by [`read_cue`]; [`resolve_last_track`] closes the last
//! track once the image length is known; each [`Track`] then gives the name of
//! its file, its WAV header where it has one, and the payload of its sectors.
pub mod mode;
pub mod options;
pub mod sheet;
pub mod text;
pub mod track;

pub use mode::{Extension, Mode};
pub use options::Args;
pub use sheet::{read_cue, resolve_last_track, time_to_frames, SheetError};
pub use track::{swap_byte_pairs, Track, SECTOR_SIZE, WAV_HEADER_LENGTH};
