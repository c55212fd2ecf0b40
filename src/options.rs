//! The options of a conversion run.
use vstd::prelude::*;

use crate::text::{chars_of, lemma_split_on_nonempty, split_chars, split_on, string_of};

verus! {

/// Flags and names that drive a conversion.
pub struct Args {
    /// Base of every output file name.
    pub output_name: String,
    /// Path of the disc image.
    pub bin_file: String,
    /// Path of the sheet.
    pub cue_file: String,
    pub verbose: bool,
    /// MODE2/2352 tracks keep 2336 bytes from the start of each sector.
    pub psx_truncate: bool,
    /// MODE2/2352 tracks keep whole sectors.
    pub raw: bool,
    /// Audio tracks have each pair of bytes swapped.
    pub swap_audio_bytes: bool,
    /// Audio tracks are written as WAV files.
    pub to_wav: bool,
}

/// The last `/`-separated segment of `path`, cut at its first `.`.
pub open spec fn file_stem(path: Seq<char>) -> Seq<char> {
    split_on(split_on(path, '/').last(), '.')[0]
}

impl Default for Args {
    /// Empty names and every flag off.
    fn default() -> (r: Args)
        ensures
            r.output_name@.len() == 0,
            r.bin_file@.len() == 0,
            r.cue_file@.len() == 0,
            !r.verbose,
            !r.psx_truncate,
            !r.raw,
            !r.swap_audio_bytes,
            !r.to_wav,
    {
        Args {
            output_name: String::new(),
            bin_file: String::new(),
            cue_file: String::new(),
            verbose: false,
            psx_truncate: false,
            raw: false,
            swap_audio_bytes: false,
            to_wav: false,
        }
    }
}

impl Args {
    /// Completes the options: when no sheet is named, the single path given
    /// is the sheet's; when no output name is given, it is the stem of the
    /// sheet's file name.
    pub fn new(options: Args) -> (r: Args)
        ensures
            options.cue_file@.len() == 0 ==> r.cue_file@ == options.bin_file@ && r.bin_file@.len() == 0,
            options.cue_file@.len() != 0 ==> r.cue_file@ == options.cue_file@ && r.bin_file@ == options.bin_file@,
            options.output_name@.len() == 0 ==> r.output_name@ == file_stem(r.cue_file@),
            options.output_name@.len() != 0 ==> r.output_name@ == options.output_name@,
            r.verbose == options.verbose,
            r.psx_truncate == options.psx_truncate,
            r.raw == options.raw,
            r.swap_audio_bytes == options.swap_audio_bytes,
            r.to_wav == options.to_wav,
    {
        let mut options = options;
        if options.cue_file.as_str().is_empty() {
            std::mem::swap(&mut options.cue_file, &mut options.bin_file);
        }
        if options.output_name.as_str().is_empty() {
            let path = chars_of(options.cue_file.as_str());
            let segments = split_chars(path.as_slice(), '/');
            proof {
                lemma_split_on_nonempty(path@, '/');
            }
            let last = segments.len() - 1;
            let parts = split_chars(segments[last].as_slice(), '.');
            proof {
                lemma_split_on_nonempty(segments[last as int]@, '.');
                assert(segments.deep_view()[last as int] == segments[last as int]@);
                assert(parts.deep_view()[0] == parts[0]@);
            }
            options.output_name = string_of(parts[0].as_slice());
        }
        options
    }
}

} // verus!
