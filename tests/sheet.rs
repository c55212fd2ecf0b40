use rbchunk::{read_cue, resolve_last_track, time_to_frames, Args, Extension, Mode, SheetError, Track};

fn args_for(bin: &str) -> Args {
    let mut a = Args::default();
    a.bin_file = String::from(bin);
    a.cue_file = String::from("disc.cue");
    a
}

const TWO_TRACKS: &str = "FILE \"disc.bin\" BINARY\n  TRACK 01 MODE1/2352\n    INDEX 01 00:00:00\n  TRACK 02 AUDIO\n    INDEX 00 00:02:00\n    INDEX 01 00:04:00\n";

fn two_tracks() -> Vec<Track> {
    let mut a = args_for("disc.bin");
    read_cue(TWO_TRACKS, &mut a).unwrap()
}

#[test]
fn time_two_seconds() {
    assert_eq!(time_to_frames("00:02:00"), Ok(150));
}

#[test]
fn time_one_minute() {
    assert_eq!(time_to_frames("01:00:00"), Ok(4500));
}

#[test]
fn time_all_fields() {
    assert_eq!(time_to_frames("12:34:56"), Ok(75 * (12 * 60 + 34) + 56));
}

#[test]
fn time_missing_fields_count_as_zero() {
    assert_eq!(time_to_frames("00:02"), Ok(150));
}

#[test]
fn time_rejects_letters() {
    assert_eq!(time_to_frames("00:xx:00"), Err(SheetError::InvalidIndexTime));
    assert_eq!(time_to_frames("00::00"), Err(SheetError::InvalidIndexTime));
}

#[test]
fn time_rejects_overflow() {
    assert_eq!(time_to_frames("99999999999999999999:00:00"), Err(SheetError::InvalidIndexTime));
    assert_eq!(time_to_frames("300000000000000000:00:00"), Err(SheetError::InvalidIndexTime));
}

#[test]
fn sheet_tracks_chain() {
    let t = two_tracks();
    assert_eq!(t.len(), 2);
    assert_eq!(t[0].number, 1);
    assert_eq!(t[0].mode, Mode::Mode1_2352);
    assert_eq!(t[0].start_sector, 0);
    assert_eq!(t[0].stop_sector, Some(149));
    assert_eq!(t[0].stop, Some(150 * 2352 - 1));
    assert_eq!(t[1].number, 2);
    assert_eq!(t[1].mode, Mode::Audio);
    assert!(t[1].audio);
    assert_eq!(t[1].start_sector, 150);
    assert_eq!(t[1].start, 150 * 2352);
    assert_eq!(t[1].stop_sector, None);
}

#[test]
fn later_index_keeps_start() {
    let t = two_tracks();
    assert_eq!(t[1].start_sector, 150);
}

#[test]
fn image_too_short_for_last_track() {
    let mut t = two_tracks();
    assert_eq!(resolve_last_track(&mut t, 2 * 75 * 2352), Err(SheetError::ImageTooShort));
    assert_eq!(t[0].start_sector, 0);
    assert_eq!(t[0].stop_sector, Some(149));
    assert_eq!(t[1].stop_sector, None);
}

#[test]
fn last_track_closed_by_image_length() {
    let mut t = two_tracks();
    assert_eq!(resolve_last_track(&mut t, 3 * 75 * 2352), Ok(()));
    assert_eq!(t[1].stop_sector, Some(224));
    assert_eq!(t[1].stop, Some(3 * 75 * 2352 - 1));
}

#[test]
fn empty_image_is_too_short() {
    let mut t = two_tracks();
    assert_eq!(resolve_last_track(&mut t, 0), Err(SheetError::ImageTooShort));
}

#[test]
fn no_track_records() {
    let mut a = args_for("disc.bin");
    assert_eq!(read_cue("FILE \"disc.bin\" BINARY\nREM nothing\n", &mut a), Err(SheetError::NoTracks));
    assert_eq!(read_cue("", &mut a), Err(SheetError::NoTracks));
}

#[test]
fn index_before_track() {
    let mut a = args_for("disc.bin");
    assert_eq!(read_cue("INDEX 01 00:00:00\n", &mut a), Err(SheetError::IndexBeforeTrack));
}

#[test]
fn track_errors() {
    let mut a = args_for("disc.bin");
    assert_eq!(read_cue("TRACK\n", &mut a), Err(SheetError::MissingTrackNumber));
    assert_eq!(read_cue("TRACK x1 AUDIO\n", &mut a), Err(SheetError::InvalidTrackNumber));
    assert_eq!(read_cue("TRACK 4294967296 AUDIO\n", &mut a), Err(SheetError::InvalidTrackNumber));
    assert_eq!(read_cue("TRACK 01\n", &mut a), Err(SheetError::MissingTrackMode));
    assert_eq!(read_cue("TRACK 01 AUDIO\n", &mut a), Err(SheetError::TrackWithoutIndex));
    assert_eq!(
        read_cue("TRACK 01 AUDIO\nTRACK 02 AUDIO\nINDEX 01 00:00:00\n", &mut a),
        Err(SheetError::TrackWithoutIndex)
    );
}

#[test]
fn index_errors() {
    let mut a = args_for("disc.bin");
    assert_eq!(read_cue("TRACK 01 AUDIO\nINDEX\n", &mut a), Err(SheetError::MissingIndexNumber));
    assert_eq!(read_cue("TRACK 01 AUDIO\nINDEX 01\n", &mut a), Err(SheetError::MissingIndexTime));
    assert_eq!(read_cue("TRACK 01 AUDIO\nINDEX 01 1:b:2\n", &mut a), Err(SheetError::InvalidIndexTime));
    assert_eq!(
        read_cue("TRACK 01 AUDIO\nINDEX 01 00:02:00\nTRACK 02 AUDIO\nINDEX 01 00:01:00\n", &mut a),
        Err(SheetError::TrackOutOfOrder)
    );
    assert_eq!(
        read_cue("TRACK 01 AUDIO\nINDEX 01 00:00:00\nTRACK 02 AUDIO\nINDEX 01 00:00:00\n", &mut a),
        Err(SheetError::TrackOutOfOrder)
    );
}

#[test]
fn file_errors() {
    let mut a = args_for("");
    assert_eq!(read_cue("FILE\n", &mut a), Err(SheetError::MissingFileName));
    assert_eq!(a.bin_file, "");
}

#[test]
fn file_record_names_image() {
    let mut a = args_for("");
    let t = read_cue(TWO_TRACKS, &mut a).unwrap();
    assert_eq!(t.len(), 2);
    assert_eq!(a.bin_file, "disc.bin");
}

#[test]
fn file_record_does_not_override() {
    let mut a = args_for("other/image.bin");
    read_cue(TWO_TRACKS, &mut a).unwrap();
    assert_eq!(a.bin_file, "other/image.bin");
}

#[test]
fn crlf_lines_and_tabs() {
    let mut a = args_for("disc.bin");
    let t = read_cue("\tTRACK 03 MODE2/2352\r\n\tINDEX 01 01:00:00\r\n", &mut a).unwrap();
    assert_eq!(t.len(), 1);
    assert_eq!(t[0].number, 3);
    assert_eq!(t[0].start_sector, 4500);
    assert_eq!(t[0].extension, Extension::Iso);
    assert_eq!(t[0].data_block_offset, 24);
    assert_eq!(t[0].data_block_size, 2048);
}

#[test]
fn unknown_mode_is_tolerated() {
    let mut a = args_for("disc.bin");
    let t = read_cue("TRACK 01 CDG\nINDEX 01 00:00:00\n", &mut a).unwrap();
    assert_eq!(t[0].mode, Mode::Unknown);
    assert_eq!(t[0].extension, Extension::Ugh);
    assert_eq!(t[0].data_block_size, 2352);
}

#[test]
fn sheet_flags_shape_layout() {
    let mut a = args_for("disc.bin");
    a.raw = true;
    a.psx_truncate = true;
    a.to_wav = true;
    let t = read_cue("TRACK 01 MODE2/2352\nINDEX 01 00:00:00\nTRACK 02 AUDIO\nINDEX 01 00:02:00\n", &mut a).unwrap();
    assert_eq!((t[0].data_block_offset, t[0].data_block_size), (0, 2352));
    assert_eq!(t[1].extension, Extension::Wav);
}
