//! Reading a track sheet: FILE, TRACK and INDEX records, one per line, and
//! the track boundaries that follow from them.
use vstd::prelude::*;

use crate::mode::{layout, mode_of_label, Extension, Mode};
use crate::options::Args;
use crate::text::{
    chars_of, decimal, is_word, parse_u64, split_chars, split_on,
    split_words, string_of, words,
};
use crate::track::{Track, SECTOR_SIZE};

verus! {

broadcast use vstd::string::group_string_axioms;

/// Why a sheet, or the tracks it describes, cannot be used.
#[derive(Clone, Copy, Debug, PartialEq, Eq, Structural)]
pub enum SheetError {
    /// A TRACK record without a number.
    MissingTrackNumber,
    /// A TRACK number that is not an unsigned 32-bit decimal.
    InvalidTrackNumber,
    /// A TRACK record without a mode.
    MissingTrackMode,
    /// An INDEX record without an index number.
    MissingIndexNumber,
    /// An INDEX record without a time.
    MissingIndexTime,
    /// An INDEX time that is not `mm:ss:ff` in decimals, or lies beyond
    /// what a byte offset can hold.
    InvalidIndexTime,
    /// An INDEX record before any TRACK record.
    IndexBeforeTrack,
    /// A track with no INDEX record.
    TrackWithoutIndex,
    /// A track that starts no later than the track before it.
    TrackOutOfOrder,
    /// A FILE record without a name.
    MissingFileName,
    /// No TRACK record at all.
    NoTracks,
    /// The image ends before the last track starts.
    ImageTooShort,
}

// ---------------------------------------------------------------------------
// Times
/// Field `k` of a time: its decimal value, or 0 when the time has fewer fields.
pub open spec fn time_field(f: Seq<Seq<char>>, k: int) -> Option<nat> {
    if k < f.len() {
        decimal(f[k], u64::MAX as nat)
    } else {
        Some(0)
    }
}

/// The sector count that `mm:ss:ff` stands for, at 75 sectors a second.
/// Fields past the third are not read.
pub open spec fn time_value(s: Seq<char>) -> Option<nat> {
    let f = split_on(s, ':');
    match (time_field(f, 0), time_field(f, 1), time_field(f, 2)) {
        (Some(m), Some(sec), Some(fr)) => {
            let v = 75 * (m * 60 + sec) + fr;
            if v <= u64::MAX {
                Some(v as nat)
            } else {
                None
            }
        },
        _ => None,
    }
}

fn field_value(f: &Vec<Vec<char>>, k: usize) -> (r: Option<u64>)
    ensures
        r matches Some(v) ==> time_field(f.deep_view(), k as int) == Some(v as nat),
        r is None ==> time_field(f.deep_view(), k as int) is None,
{
    if k < f.len() {
        assert(f.deep_view()[k as int] == f[k as int]@);
        parse_u64(f[k].as_slice())
    } else {
        Some(0)
    }
}

fn frames_of(s: &[char]) -> (r: Option<u64>)
    ensures
        r matches Some(v) ==> time_value(s@) == Some(v as nat),
        r is None ==> time_value(s@) is None,
{
    let f = split_chars(s, ':');
    let m = field_value(&f, 0);
    let sec = field_value(&f, 1);
    let fr = field_value(&f, 2);
    match (m, sec, fr) {
        (Some(m), Some(sec), Some(fr)) => {
            let v: u128 = 75 * (m as u128 * 60 + sec as u128) + fr as u128;
            if v <= u64::MAX as u128 {
                Some(v as u64)
            } else {
                None
            }
        },
        _ => None,
    }
}

/// Converts a sheet time `mm:ss:ff` to a count of sectors.
pub fn time_to_frames(s: &str) -> (r: Result<u64, SheetError>)
    ensures
        time_value(s@) matches Some(v) ==> r == Ok::<u64, SheetError>(v as u64),
        time_value(s@) is None ==> r == Err::<u64, SheetError>(SheetError::InvalidIndexTime),
{
    let cs = chars_of(s);
    match frames_of(cs.as_slice()) {
        Some(v) => Ok(v),
        None => Err(SheetError::InvalidIndexTime),
    }
}

// ---------------------------------------------------------------------------
// Records
/// A word that opens a record.
pub open spec fn is_keyword(w: Seq<char>) -> bool {
    w == "TRACK"@ || w == "INDEX"@ || w == "FILE"@
}

/// Position of the first word of `ws` that opens a record.
pub open spec fn first_keyword(ws: Seq<Seq<char>>) -> Option<int>
    decreases ws.len(),
{
    if ws.len() == 0 {
        None
    } else {
        match first_keyword(ws.drop_last()) {
            Some(i) => Some(i),
            None => if is_keyword(ws.last()) {
                Some(ws.len() - 1)
            } else {
                None
            },
        }
    }
}

/// What has been read of a sheet so far: the tracks, whether the last one
/// has had its first INDEX record, and the image path.
pub struct SheetModel {
    pub tracks: Seq<Track>,
    pub indexed: bool,
    pub image: Seq<char>,
}

/// A track as its TRACK record creates it.
pub open spec fn new_track(number: u32, mode: Mode, a: Args) -> Track {
    let (o, s, e) = layout(mode, a.raw, a.psx_truncate, a.to_wav);
    Track {
        start_sector: 0,
        stop_sector: None,
        start: 0,
        stop: None,
        mode,
        extension: e,
        number,
        audio: mode == Mode::Audio,
        data_block_offset: o,
        data_block_size: s,
    }
}

/// A FILE name without its first and last character (the quotes).
pub open spec fn strip_quotes(w: Seq<char>) -> Seq<char> {
    if w.len() >= 2 {
        w.subrange(1, w.len() - 1)
    } else {
        Seq::empty()
    }
}

/// `TRACK <number> <mode>`: a new track; the one before must have started.
pub open spec fn track_record(st: SheetModel, args: Seq<Seq<char>>, a: Args) -> Result<SheetModel, SheetError> {
    if st.tracks.len() > 0 && !st.indexed {
        Err(SheetError::TrackWithoutIndex)
    } else if args.len() == 0 {
        Err(SheetError::MissingTrackNumber)
    } else {
        match decimal(args[0], u32::MAX as nat) {
            None => Err(SheetError::InvalidTrackNumber),
            Some(n) => if args.len() < 2 {
                Err(SheetError::MissingTrackMode)
            } else {
                Ok(
                    SheetModel {
                        tracks: st.tracks.push(new_track(n as u32, mode_of_label(args[1]), a)),
                        indexed: false,
                        image: st.image,
                    },
                )
            },
        }
    }
}

/// `INDEX <number> <mm:ss:ff>`: the first one of a track sets where it
/// starts, and so where the track before it stops; later ones change nothing.
pub open spec fn index_record(st: SheetModel, args: Seq<Seq<char>>) -> Result<SheetModel, SheetError> {
    let n = st.tracks.len();
    if n == 0 {
        Err(SheetError::IndexBeforeTrack)
    } else if args.len() == 0 {
        Err(SheetError::MissingIndexNumber)
    } else if args.len() < 2 {
        Err(SheetError::MissingIndexTime)
    } else {
        match time_value(args[1]) {
            None => Err(SheetError::InvalidIndexTime),
            Some(f) => if f * SECTOR_SIZE > u64::MAX {
                Err(SheetError::InvalidIndexTime)
            } else if st.indexed {
                Ok(st)
            } else {
                let cur = st.tracks[n - 1];
                let cur = Track { start_sector: f as u64, start: (f * SECTOR_SIZE) as u64, ..cur };
                if n >= 2 {
                    let prev = st.tracks[n - 2];
                    if f <= prev.start_sector {
                        Err(SheetError::TrackOutOfOrder)
                    } else {
                        let prev = Track {
                            stop_sector: Some((f - 1) as u64),
                            stop: Some((f * SECTOR_SIZE - 1) as u64),
                            ..prev
                        };
                        Ok(
                            SheetModel {
                                tracks: st.tracks.update(n - 2, prev).update(n - 1, cur),
                                indexed: true,
                                image: st.image,
                            },
                        )
                    }
                } else {
                    Ok(SheetModel { tracks: st.tracks.update(n - 1, cur), indexed: true, image: st.image })
                }
            },
        }
    }
}

/// `FILE "<name>" ...`: the image path, unless one was given.
pub open spec fn file_record(st: SheetModel, args: Seq<Seq<char>>) -> Result<SheetModel, SheetError> {
    if args.len() == 0 {
        Err(SheetError::MissingFileName)
    } else if st.image.len() == 0 {
        Ok(SheetModel { tracks: st.tracks, indexed: st.indexed, image: strip_quotes(args[0]) })
    } else {
        Ok(st)
    }
}

/// The effect of one line, given as its words. The first keyword on the line
/// decides the record; the words after it are its arguments. A line without
/// a keyword changes nothing.
pub open spec fn apply_record(st: SheetModel, ws: Seq<Seq<char>>, a: Args) -> Result<SheetModel, SheetError> {
    match first_keyword(ws) {
        None => Ok(st),
        Some(k) => {
            let args = ws.skip(k + 1);
            if ws[k] == "TRACK"@ {
                track_record(st, args, a)
            } else if ws[k] == "INDEX"@ {
                index_record(st, args)
            } else {
                file_record(st, args)
            }
        },
    }
}

/// The lines one after another, stopping at the first error.
pub open spec fn run(lines: Seq<Seq<char>>, init: SheetModel, a: Args) -> Result<SheetModel, SheetError>
    decreases lines.len(),
{
    if lines.len() == 0 {
        Ok(init)
    } else {
        match run(lines.drop_last(), init, a) {
            Ok(st) => apply_record(st, words(lines.last()), a),
            Err(e) => Err(e),
        }
    }
}

/// What a whole sheet gives: at least one track, each with an INDEX record.
pub open spec fn sheet_model(text: Seq<char>, a: Args) -> Result<SheetModel, SheetError> {
    match run(split_on(text, '\n'), initial_model(a), a) {
        Ok(st) => if st.tracks.len() == 0 {
            Err(SheetError::NoTracks)
        } else if !st.indexed {
            Err(SheetError::TrackWithoutIndex)
        } else {
            Ok(st)
        },
        Err(e) => Err(e),
    }
}

fn find_keyword(ws: &Vec<Vec<char>>) -> (r: Option<usize>)
    ensures
        r matches Some(k) ==> first_keyword(ws.deep_view()) == Some(k as int) && k < ws@.len(),
        r is None ==> first_keyword(ws.deep_view()) is None,
{
    let mut i: usize = 0;
    while i < ws.len()
        invariant
            i <= ws@.len(),
            first_keyword(ws.deep_view().take(i as int)) is None,
        decreases ws@.len() - i,
    {
        let w = ws[i].as_slice();
        assert(ws.deep_view().take(i + 1).drop_last() =~~= ws.deep_view().take(i as int));
        assert(ws.deep_view()[i as int] == ws[i as int]@);
        if is_word(w, "TRACK") || is_word(w, "INDEX") || is_word(w, "FILE") {
            proof {
                lemma_first_keyword_extends(ws.deep_view(), i as int + 1);
            }
            return Some(i);
        }
        i = i + 1;
    }
    assert(ws.deep_view().take(i as int) =~~= ws.deep_view());
    None
}

/// Once the first keyword lies in a prefix, it is the first keyword of the whole.
proof fn lemma_first_keyword_extends(ws: Seq<Seq<char>>, j: int)
    requires
        0 <= j <= ws.len(),
        first_keyword(ws.take(j)) is Some,
    ensures
        first_keyword(ws) == first_keyword(ws.take(j)),
    decreases ws.len() - j,
{
    if j < ws.len() {
        assert(ws.take(j + 1).drop_last() =~= ws.take(j));
        lemma_first_keyword_extends(ws, j + 1);
    } else {
        assert(ws.take(j) =~= ws);
    }
}

/// The state a sheet starts from.
pub open spec fn initial_model(a: Args) -> SheetModel {
    SheetModel { tracks: Seq::empty(), indexed: false, image: a.bin_file@ }
}

/// The outcome of `apply_record` as seen in the state that `apply_line` changes.
pub open spec fn line_outcome(
    st: SheetModel,
    ws: Seq<Seq<char>>,
    a: Args,
    r: Result<(), SheetError>,
    tracks: Seq<Track>,
    indexed: bool,
    image: Seq<char>,
) -> bool {
    match apply_record(st, ws, a) {
        Ok(n) => r is Ok && tracks == n.tracks && indexed == n.indexed && image == n.image,
        Err(e) => r == Err::<(), SheetError>(e),
    }
}

fn track_line(tracks: &mut Vec<Track>, indexed: &mut bool, ws: &Vec<Vec<char>>, from: usize, a: &Args) -> (r: Result<(), SheetError>)
    requires
        from <= ws@.len(),
    ensures
        match track_record(SheetModel { tracks: old(tracks)@, indexed: *old(indexed), image: Seq::empty() }, ws.deep_view().skip(from as int), *a) {
            Ok(n) => r is Ok && final(tracks)@ == n.tracks && *final(indexed) == n.indexed,
            Err(e) => r == Err::<(), SheetError>(e),
        },
{
    let ghost args = ws.deep_view().skip(from as int);
    if tracks.len() > 0 && !*indexed {
        return Err(SheetError::TrackWithoutIndex);
    }
    if from >= ws.len() {
        return Err(SheetError::MissingTrackNumber);
    }
    assert(args[0] == ws[from as int]@);
    let number: u32 = match parse_u64(ws[from].as_slice()) {
        Some(v) => {
            if v > u32::MAX as u64 {
                return Err(SheetError::InvalidTrackNumber);
            }
            v as u32
        },
        None => {
            return Err(SheetError::InvalidTrackNumber);
        },
    };
    if from + 1 >= ws.len() {
        return Err(SheetError::MissingTrackMode);
    }
    assert(args[1] == ws[from + 1]@);
    let mode = Mode::from_chars(ws[from + 1].as_slice());
    let mut t = Track {
        start_sector: 0,
        stop_sector: None,
        start: 0,
        stop: None,
        mode,
        extension: Extension::Ugh,
        number,
        audio: false,
        data_block_offset: 0,
        data_block_size: 0,
    };
    t.get_track_mode(a);
    assert(t == new_track(number, mode, *a));
    tracks.push(t);
    *indexed = false;
    Ok(())
}

fn index_line(tracks: &mut Vec<Track>, indexed: &mut bool, ws: &Vec<Vec<char>>, from: usize) -> (r: Result<(), SheetError>)
    requires
        from <= ws@.len(),
    ensures
        match index_record(SheetModel { tracks: old(tracks)@, indexed: *old(indexed), image: Seq::empty() }, ws.deep_view().skip(from as int)) {
            Ok(n) => r is Ok && final(tracks)@ == n.tracks && *final(indexed) == n.indexed,
            Err(e) => r == Err::<(), SheetError>(e),
        },
{
    let ghost args = ws.deep_view().skip(from as int);
    let n = tracks.len();
    if n == 0 {
        return Err(SheetError::IndexBeforeTrack);
    }
    if from >= ws.len() {
        return Err(SheetError::MissingIndexNumber);
    }
    if from + 1 >= ws.len() {
        return Err(SheetError::MissingIndexTime);
    }
    assert(args[1] == ws[from + 1]@);
    let f = match frames_of(ws[from + 1].as_slice()) {
        Some(f) => f,
        None => {
            return Err(SheetError::InvalidIndexTime);
        },
    };
    if f > u64::MAX / 2352 {
        return Err(SheetError::InvalidIndexTime);
    }
    if *indexed {
        return Ok(());
    }
    let mut cur = tracks[n - 1];
    cur.start_sector = f;
    cur.start = f * 2352;
    if n >= 2 {
        let mut prev = tracks[n - 2];
        if f <= prev.start_sector {
            return Err(SheetError::TrackOutOfOrder);
        }
        prev.stop_sector = Some(f - 1);
        prev.stop = Some(f * 2352 - 1);
        tracks.set(n - 2, prev);
    }
    tracks.set(n - 1, cur);
    *indexed = true;
    Ok(())
}

fn file_line(image: &mut Vec<char>, ws: &Vec<Vec<char>>, from: usize) -> (r: Result<(), SheetError>)
    requires
        from <= ws@.len(),
    ensures
        match file_record(SheetModel { tracks: Seq::empty(), indexed: false, image: old(image)@ }, ws.deep_view().skip(from as int)) {
            Ok(n) => r is Ok && final(image)@ == n.image,
            Err(e) => r == Err::<(), SheetError>(e),
        },
{
    let ghost args = ws.deep_view().skip(from as int);
    if from >= ws.len() {
        return Err(SheetError::MissingFileName);
    }
    assert(args[0] == ws[from as int]@);
    if image.len() == 0 {
        let w = ws[from].as_slice();
        let mut name: Vec<char> = Vec::new();
        if w.len() >= 2 {
            let mut i: usize = 1;
            while i < w.len() - 1
                invariant
                    1 <= i <= w@.len() - 1,
                    w@.len() >= 2,
                    name@ == w@.subrange(1, i as int),
                decreases w@.len() - i,
            {
                name.push(w[i]);
                i = i + 1;
                assert(name@ =~= w@.subrange(1, i as int));
            }
        } else {
            assert(name@ =~= Seq::<char>::empty());
        }
        *image = name;
    }
    Ok(())
}

fn apply_line(
    tracks: &mut Vec<Track>,
    indexed: &mut bool,
    image: &mut Vec<char>,
    ws: &Vec<Vec<char>>,
    a: &Args,
) -> (r: Result<(), SheetError>)
    ensures
        line_outcome(
            SheetModel { tracks: old(tracks)@, indexed: *old(indexed), image: old(image)@ },
            ws.deep_view(),
            *a,
            r,
            final(tracks)@,
            *final(indexed),
            final(image)@,
        ),
{
    proof {
        reveal_strlit("TRACK");
        reveal_strlit("INDEX");
        reveal_strlit("FILE");
    }
    match find_keyword(ws) {
        None => Ok(()),
        Some(k) => {
            assert(ws.deep_view()[k as int] == ws[k as int]@);
            let n: usize = ws.len();
            assert(k < n);
            let kw = ws[k].as_slice();
            if is_word(kw, "TRACK") {
                track_line(tracks, indexed, ws, k + 1, a)
            } else if is_word(kw, "INDEX") {
                index_line(tracks, indexed, ws, k + 1)
            } else {
                file_line(image, ws, k + 1)
            }
        },
    }
}

proof fn lemma_run_error_stays(lines: Seq<Seq<char>>, j: int, init: SheetModel, a: Args)
    requires
        0 <= j <= lines.len(),
        run(lines.take(j), init, a) is Err,
    ensures
        run(lines, init, a) == run(lines.take(j), init, a),
    decreases lines.len() - j,
{
    if j < lines.len() {
        assert(lines.take(j + 1).drop_last() =~= lines.take(j));
        lemma_run_error_stays(lines, j + 1, init, a);
    } else {
        assert(lines.take(j) =~= lines);
    }
}

/// Reads the tracks that the sheet `text` lays out. The last track is left
/// open: where it stops depends on the length of the image, see
/// `resolve_last_track`. A FILE record names the image only where `args`
/// names none. On an error `args` is left as it was.
pub fn read_cue(text: &str, args: &mut Args) -> (r: Result<Vec<Track>, SheetError>)
    ensures
        match sheet_model(text@, *old(args)) {
            Ok(m) => r matches Ok(ts) && ts@ == m.tracks && final(args).bin_file@ == m.image,
            Err(e) => r == Err::<Vec<Track>, SheetError>(e) && final(args).bin_file@ == old(args).bin_file@,
        },
        final(args).cue_file@ == old(args).cue_file@,
        final(args).output_name@ == old(args).output_name@,
        final(args).verbose == old(args).verbose,
        final(args).psx_truncate == old(args).psx_truncate,
        final(args).raw == old(args).raw,
        final(args).swap_audio_bytes == old(args).swap_audio_bytes,
        final(args).to_wav == old(args).to_wav,
        r matches Ok(ts) ==> tracks_chained(ts@, *old(args)),
{
    let ghost a0 = *args;
    let cs = chars_of(text);
    let lines = split_chars(cs.as_slice(), '\n');
    let mut tracks: Vec<Track> = Vec::new();
    let mut indexed = false;
    let mut image = chars_of(args.bin_file.as_str());
    let ghost init = initial_model(*args);
    let ghost all = lines.deep_view();
    assert(all.take(0) =~~= Seq::<Seq<char>>::empty());
    let mut i: usize = 0;
    while i < lines.len()
        invariant
            i <= lines@.len(),
            all == lines.deep_view(),
            all == split_on(text@, '\n'),
            init == initial_model(*args),
            run(all.take(i as int), init, *args) == Ok::<SheetModel, SheetError>(
                SheetModel { tracks: tracks@, indexed, image: image@ },
            ),
        decreases lines@.len() - i,
    {
        let ws = split_words(lines[i].as_slice());
        assert(all[i as int] == lines[i as int]@);
        assert(all.take(i + 1).drop_last() =~~= all.take(i as int));
        let r = apply_line(&mut tracks, &mut indexed, &mut image, &ws, args);
        if let Err(e) = r {
            proof {
                lemma_run_error_stays(all, i + 1, init, *args);
            }
            return Err(e);
        }
        i = i + 1;
    }
    assert(all.take(i as int) =~~= all);
    if tracks.len() == 0 {
        return Err(SheetError::NoTracks);
    }
    if !indexed {
        return Err(SheetError::TrackWithoutIndex);
    }
    proof {
        lemma_sheet_tracks_chained(text@, a0);
    }
    args.bin_file = string_of(image.as_slice());
    Ok(tracks)
}

// ---------------------------------------------------------------------------
// Track boundaries
/// `a` stops one sector, and one byte, before `b` starts.
pub open spec fn linked(a: Track, b: Track) -> bool {
    &&& a.start_sector < b.start_sector
    &&& a.stop_sector == Some((b.start_sector - 1) as u64)
    &&& a.stop == Some((b.start - 1) as u64)
}

/// The byte offset of the track is that of its first sector, and its layout
/// follows from its mode.
pub open spec fn placed(t: Track, a: Args) -> bool {
    &&& t.start == t.start_sector * SECTOR_SIZE
    &&& t.laid_out(&a)
    &&& t.window_fits()
}

/// Tracks as a sheet gives them: each one stops where the next one starts,
/// and the last one is still open.
pub open spec fn tracks_chained(ts: Seq<Track>, a: Args) -> bool {
    &&& forall|i: int| 0 <= i < ts.len() ==> placed(#[trigger] ts[i], a)
    &&& forall|i: int| 0 <= i < ts.len() - 1 ==> linked(#[trigger] ts[i], ts[i + 1])
    &&& ts.len() > 0 ==> ts.last().stop_sector is None && ts.last().stop is None
}

/// What holds while a sheet is being read.
pub open spec fn model_inv(st: SheetModel, a: Args) -> bool {
    let ts = st.tracks;
    let n = ts.len();
    &&& forall|i: int| 0 <= i < n ==> placed(#[trigger] ts[i], a)
    &&& forall|i: int| 0 <= i < n - 2 ==> linked(#[trigger] ts[i], ts[i + 1])
    &&& n >= 2 && st.indexed ==> linked(ts[n - 2], ts[n - 1])
    &&& n >= 2 && !st.indexed ==> ts[n - 2].stop_sector is None && ts[n - 2].stop is None
    &&& n >= 1 ==> ts[n - 1].stop_sector is None && ts[n - 1].stop is None
}

proof fn lemma_record_keeps_inv(st: SheetModel, ws: Seq<Seq<char>>, a: Args)
    requires
        model_inv(st, a),
        apply_record(st, ws, a) is Ok,
    ensures
        model_inv(apply_record(st, ws, a)->Ok_0, a),
{
    let k = first_keyword(ws)->0;
    let args = ws.skip(k + 1);
    let nst = apply_record(st, ws, a)->Ok_0;
    let ts = st.tracks;
    let n = ts.len();
    if first_keyword(ws) is Some {
        if ws[k] == "TRACK"@ {
            let t = nst.tracks.last();
            crate::mode::lemma_layout_fits(t.mode, a.raw, a.psx_truncate, a.to_wav);
            assert(placed(t, a));
            assert forall|i: int| 0 <= i < nst.tracks.len() implies placed(#[trigger] nst.tracks[i], a) by {
                if i < n {
                    assert(nst.tracks[i] == ts[i]);
                }
            }
            assert forall|i: int| 0 <= i < nst.tracks.len() - 2 implies linked(#[trigger] nst.tracks[i], nst.tracks[i + 1]) by {
                assert(nst.tracks[i] == ts[i]);
                assert(nst.tracks[i + 1] == ts[i + 1]);
            }
        } else if ws[k] == "INDEX"@ {
            if !st.indexed {
                let nts = nst.tracks;
                assert(nts.len() == n);
                assert forall|i: int| 0 <= i < n implies placed(#[trigger] nts[i], a) by {
                    assert(placed(ts[i], a));
                }
                assert forall|i: int| 0 <= i < n - 2 implies linked(#[trigger] nts[i], nts[i + 1]) by {
                    assert(linked(ts[i], ts[i + 1]));
                }
            }
        }
    }
}

proof fn lemma_run_keeps_inv(lines: Seq<Seq<char>>, a: Args)
    requires
        run(lines, initial_model(a), a) is Ok,
    ensures
        model_inv(run(lines, initial_model(a), a)->Ok_0, a),
    decreases lines.len(),
{
    if lines.len() > 0 {
        lemma_run_keeps_inv(lines.drop_last(), a);
        let st = run(lines.drop_last(), initial_model(a), a)->Ok_0;
        lemma_record_keeps_inv(st, words(lines.last()), a);
    }
}

/// The tracks read from any sheet are chained: every track but the last
/// stops one sector before the next starts, later than it, and the last is
/// open.
pub proof fn lemma_sheet_tracks_chained(text: Seq<char>, a: Args)
    requires
        sheet_model(text, a) is Ok,
    ensures
        tracks_chained(sheet_model(text, a)->Ok_0.tracks, a),
{
    let lines = split_on(text, '\n');
    lemma_run_keeps_inv(lines, a);
    let st = run(lines, initial_model(a), a)->Ok_0;
    let ts = st.tracks;
    assert forall|i: int| 0 <= i < ts.len() - 1 implies linked(#[trigger] ts[i], ts[i + 1]) by {
        if i < ts.len() - 2 {
        } else {
            assert(i == ts.len() - 2);
        }
    }
}

/// Whether a line holds a TRACK record.
pub open spec fn is_track_line(line: Seq<char>) -> bool {
    let ws = words(line);
    first_keyword(ws) matches Some(k) && ws[k] == "TRACK"@
}

proof fn lemma_no_track_line_no_track(lines: Seq<Seq<char>>, a: Args)
    requires
        forall|i: int| 0 <= i < lines.len() ==> !is_track_line(#[trigger] lines[i]),
        run(lines, initial_model(a), a) is Ok,
    ensures
        run(lines, initial_model(a), a)->Ok_0.tracks.len() == 0,
    decreases lines.len(),
{
    if lines.len() > 0 {
        assert forall|i: int| 0 <= i < lines.drop_last().len() implies !is_track_line(
            #[trigger] lines.drop_last()[i],
        ) by {
            assert(lines.drop_last()[i] == lines[i]);
        }
        lemma_no_track_line_no_track(lines.drop_last(), a);
        assert(!is_track_line(lines[lines.len() - 1]));
    }
}

/// A sheet in which no line holds a TRACK record is refused, whatever
/// else it holds.
pub proof fn lemma_no_track_record_refused(text: Seq<char>, a: Args)
    requires
        forall|i: int|
            0 <= i < split_on(text, '\n').len() ==> !is_track_line(#[trigger] split_on(text, '\n')[i]),
    ensures
        sheet_model(text, a) is Err,
{
    let lines = split_on(text, '\n');
    if run(lines, initial_model(a), a) is Ok {
        lemma_no_track_line_no_track(lines, a);
    }
}

/// An image of `image_len` bytes reaches into the sector where `t` starts.
pub open spec fn image_holds(t: Track, image_len: nat) -> bool {
    image_len >= 1 && (image_len - 1) / (SECTOR_SIZE as int) >= t.start_sector
}

/// `t`, stopping at the last byte of an image of `image_len` bytes.
pub open spec fn closed_at(t: Track, image_len: nat) -> Track {
    Track {
        stop: Some((image_len - 1) as u64),
        stop_sector: Some(((image_len - 1) / (SECTOR_SIZE as int)) as u64),
        ..t
    }
}

/// Closes the last track at the end of an image of `image_len` bytes.
/// Fails, changing nothing, when the image ends before that track starts.
pub fn resolve_last_track(tracks: &mut Vec<Track>, image_len: u64) -> (r: Result<(), SheetError>)
    requires
        old(tracks)@.len() > 0,
    ensures
        image_holds(old(tracks)@.last(), image_len as nat) ==> r is Ok && final(tracks)@
            == old(tracks)@.update(old(tracks)@.len() - 1, closed_at(old(tracks)@.last(), image_len as nat)),
        !image_holds(old(tracks)@.last(), image_len as nat) ==> r == Err::<(), SheetError>(
            SheetError::ImageTooShort,
        ) && final(tracks)@ == old(tracks)@,
{
    let n = tracks.len();
    let mut last = tracks[n - 1];
    if image_len == 0 || (image_len - 1) / 2352 < last.start_sector {
        return Err(SheetError::ImageTooShort);
    }
    last.stop = Some(image_len - 1);
    last.stop_sector = Some((image_len - 1) / 2352);
    tracks.set(n - 1, last);
    Ok(())
}

/// Once the last track of a sheet is closed on an image that holds it,
/// every track has both ends, in order, and each but the last stops one
/// sector before the next starts.
pub proof fn lemma_all_resolved(ts: Seq<Track>, a: Args, image_len: nat)
    requires
        tracks_chained(ts, a),
        ts.len() > 0,
        image_len <= u64::MAX,
        image_holds(ts.last(), image_len),
    ensures
        ({
            let rs = ts.update(ts.len() - 1, closed_at(ts.last(), image_len));
            &&& forall|i: int| 0 <= i < rs.len() ==> (#[trigger] rs[i]).resolved()
            &&& forall|i: int| 0 <= i < rs.len() - 1 ==> linked(#[trigger] rs[i], rs[i + 1])
        }),
{
    let rs = ts.update(ts.len() - 1, closed_at(ts.last(), image_len));
    assert forall|i: int| 0 <= i < rs.len() implies (#[trigger] rs[i]).resolved() by {
        if i < ts.len() - 1 {
            assert(rs[i] == ts[i]);
            assert(linked(ts[i], ts[i + 1]));
        }
    }
    assert forall|i: int| 0 <= i < rs.len() - 1 implies linked(#[trigger] rs[i], rs[i + 1]) by {
        assert(linked(ts[i], ts[i + 1]));
    }
}

} // verus!
