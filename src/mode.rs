//! Sector modes, output suffixes and the payload window of each mode.
use vstd::prelude::*;

use crate::text::{chars_of, is_word};

verus! {

broadcast use vstd::string::group_string_axioms;

/// How the sectors of a track are encoded.
#[derive(Clone, Copy, Debug, PartialEq, Eq, Structural)]
pub enum Mode {
    Unknown,
    Audio,
    Mode1_2352,
    Mode2_2352,
    Mode2_2336,
}

/// The mode a sheet label names; a label that names none is `Unknown`.
pub open spec fn mode_of_label(s: Seq<char>) -> Mode {
    if s == "AUDIO"@ {
        Mode::Audio
    } else if s == "MODE1/2352"@ {
        Mode::Mode1_2352
    } else if s == "MODE2/2336"@ {
        Mode::Mode2_2336
    } else if s == "MODE2/2352"@ {
        Mode::Mode2_2352
    } else {
        Mode::Unknown
    }
}

/// The label a sheet uses for each mode.
pub open spec fn label_of_mode(m: Mode) -> Seq<char> {
    match m {
        Mode::Unknown => "UNKNOWN"@,
        Mode::Audio => "AUDIO"@,
        Mode::Mode1_2352 => "MODE1/2352"@,
        Mode::Mode2_2352 => "MODE2/2352"@,
        Mode::Mode2_2336 => "MODE2/2336"@,
    }
}

impl Mode {
    /// The mode named by a sheet label; unrecognised labels give `Unknown`.
    pub fn from_label(s: &str) -> (r: Mode)
        ensures
            r == mode_of_label(s@),
    {
        let cs = chars_of(s);
        Mode::from_chars(cs.as_slice())
    }

    /// As `from_label`, on characters.
    pub fn from_chars(s: &[char]) -> (r: Mode)
        ensures
            r == mode_of_label(s@),
    {
        if is_word(s, "AUDIO") {
            Mode::Audio
        } else if is_word(s, "MODE1/2352") {
            Mode::Mode1_2352
        } else if is_word(s, "MODE2/2336") {
            Mode::Mode2_2336
        } else if is_word(s, "MODE2/2352") {
            Mode::Mode2_2352
        } else {
            Mode::Unknown
        }
    }

    /// The sheet label of this mode.
    pub fn label(&self) -> (r: &'static str)
        ensures
            r@ == label_of_mode(*self),
    {
        match self {
            Mode::Unknown => "UNKNOWN",
            Mode::Audio => "AUDIO",
            Mode::Mode1_2352 => "MODE1/2352",
            Mode::Mode2_2352 => "MODE2/2352",
            Mode::Mode2_2336 => "MODE2/2336",
        }
    }
}

/// The kind of file a track is written to.
#[derive(Clone, Copy, Debug, PartialEq, Eq, Structural)]
pub enum Extension {
    /// Unknown sector format.
    Ugh,
    /// Data payload.
    Iso,
    /// Raw audio samples.
    Cdr,
    /// Audio samples behind a WAV header.
    Wav,
}

pub open spec fn suffix_of(e: Extension) -> Seq<char> {
    match e {
        Extension::Ugh => "ugh"@,
        Extension::Iso => "iso"@,
        Extension::Cdr => "cdr"@,
        Extension::Wav => "wav"@,
    }
}

impl Extension {
    /// The file name suffix, without the dot.
    pub fn suffix(&self) -> (r: &'static str)
        ensures
            r@ == suffix_of(*self),
    {
        match self {
            Extension::Ugh => "ugh",
            Extension::Iso => "iso",
            Extension::Cdr => "cdr",
            Extension::Wav => "wav",
        }
    }
}

/// Where the payload lies within each 2352-byte sector of a track of mode
/// `m`, and what the track is written as: `(offset, size, extension)`.
/// `raw` takes precedence over `psx_truncate`.
pub open spec fn layout(m: Mode, raw: bool, psx_truncate: bool, to_wav: bool) -> (u32, u32, Extension) {
    match m {
        Mode::Unknown => (0, 2352, Extension::Ugh),
        Mode::Audio => (0, 2352, if to_wav { Extension::Wav } else { Extension::Cdr }),
        Mode::Mode1_2352 => (16, 2048, Extension::Iso),
        Mode::Mode2_2352 => if raw {
            (0, 2352, Extension::Iso)
        } else if psx_truncate {
            (0, 2336, Extension::Iso)
        } else {
            (24, 2048, Extension::Iso)
        },
        Mode::Mode2_2336 => (16, 2336, Extension::Iso),
    }
}

/// Every payload window lies inside its sector.
pub proof fn lemma_layout_fits(m: Mode, raw: bool, psx_truncate: bool, to_wav: bool)
    ensures
        layout(m, raw, psx_truncate, to_wav).0 + layout(m, raw, psx_truncate, to_wav).1 <= 2352,
{
}

/// With both `raw` and `psx_truncate` set, a MODE2/2352 track takes the
/// whole sector, as with `raw` alone.
pub proof fn lemma_raw_over_psx(to_wav: bool)
    ensures
        layout(Mode::Mode2_2352, true, true, to_wav) == (0u32, 2352u32, Extension::Iso),
        layout(Mode::Mode2_2352, true, true, to_wav) == layout(Mode::Mode2_2352, true, false, to_wav),
{
}

/// Each label that a sheet may carry resolves to its row of the mode table,
/// and any other label to the row of an unknown mode.
pub proof fn lemma_label_layouts(s: Seq<char>, raw: bool, psx_truncate: bool, to_wav: bool)
    ensures
        s == "AUDIO"@ ==> layout(mode_of_label(s), raw, psx_truncate, to_wav) == (0u32, 2352u32,
            if to_wav { Extension::Wav } else { Extension::Cdr }),
        s == "MODE1/2352"@ ==> layout(mode_of_label(s), raw, psx_truncate, to_wav) == (16u32, 2048u32, Extension::Iso),
        s == "MODE2/2336"@ ==> layout(mode_of_label(s), raw, psx_truncate, to_wav) == (16u32, 2336u32, Extension::Iso),
        s == "MODE2/2352"@ ==> layout(mode_of_label(s), raw, psx_truncate, to_wav) == (
            if raw { (0u32, 2352u32, Extension::Iso) }
            else if psx_truncate { (0u32, 2336u32, Extension::Iso) }
            else { (24u32, 2048u32, Extension::Iso) }),
        s != "AUDIO"@ && s != "MODE1/2352"@ && s != "MODE2/2336"@ && s != "MODE2/2352"@
            ==> layout(mode_of_label(s), raw, psx_truncate, to_wav) == (0u32, 2352u32, Extension::Ugh),
{
    reveal_strlit("AUDIO");
    reveal_strlit("MODE1/2352");
    reveal_strlit("MODE2/2336");
    reveal_strlit("MODE2/2352");
    assert("MODE1/2352"@.len() != "AUDIO"@.len());
    assert("MODE2/2336"@.len() != "AUDIO"@.len());
    assert("MODE2/2336"@[4] != "MODE1/2352"@[4]);
    assert("MODE2/2352"@[4] != "MODE1/2352"@[4]);
    assert("MODE2/2352"@[9] != "MODE2/2336"@[9]);
}

} // verus!
