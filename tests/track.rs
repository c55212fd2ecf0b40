use rbchunk::{swap_byte_pairs, Args, Extension, Mode, Track};

fn track(mode: Mode, a: &Args) -> Track {
    let mut t = Track {
        start_sector: 0,
        stop_sector: None,
        start: 0,
        stop: None,
        mode,
        extension: Extension::Ugh,
        number: 1,
        audio: false,
        data_block_offset: 0,
        data_block_size: 0,
    };
    t.get_track_mode(a);
    t
}

fn row(mode: Mode, a: &Args) -> (u32, u32, Extension, bool) {
    let t = track(mode, a);
    (t.data_block_offset, t.data_block_size, t.extension, t.audio)
}

fn sector(seed: u8) -> Vec<u8> {
    (0..2352u32).map(|i| (i as u8).wrapping_mul(7).wrapping_add(seed)).collect()
}

fn le32(b: &[u8]) -> u32 {
    u32::from_le_bytes([b[0], b[1], b[2], b[3]])
}

#[test]
fn mode_labels() {
    assert_eq!(Mode::from_label("AUDIO"), Mode::Audio);
    assert_eq!(Mode::from_label("MODE1/2352"), Mode::Mode1_2352);
    assert_eq!(Mode::from_label("MODE2/2352"), Mode::Mode2_2352);
    assert_eq!(Mode::from_label("MODE2/2336"), Mode::Mode2_2336);
    assert_eq!(Mode::from_label("CDG"), Mode::Unknown);
    assert_eq!(Mode::from_label("audio"), Mode::Unknown);
    assert_eq!(Mode::Mode2_2336.label(), "MODE2/2336");
    assert_eq!(Mode::Unknown.label(), "UNKNOWN");
}

#[test]
fn mode_table_default_options() {
    let a = Args::default();
    assert_eq!(row(Mode::Unknown, &a), (0, 2352, Extension::Ugh, false));
    assert_eq!(row(Mode::Audio, &a), (0, 2352, Extension::Cdr, true));
    assert_eq!(row(Mode::Mode1_2352, &a), (16, 2048, Extension::Iso, false));
    assert_eq!(row(Mode::Mode2_2352, &a), (24, 2048, Extension::Iso, false));
    assert_eq!(row(Mode::Mode2_2336, &a), (16, 2336, Extension::Iso, false));
}

#[test]
fn mode_table_with_flags() {
    let mut a = Args::default();
    a.to_wav = true;
    assert_eq!(row(Mode::Audio, &a), (0, 2352, Extension::Wav, true));
    a.raw = true;
    assert_eq!(row(Mode::Mode2_2352, &a), (0, 2352, Extension::Iso, false));
    a.raw = false;
    a.psx_truncate = true;
    assert_eq!(row(Mode::Mode2_2352, &a), (0, 2336, Extension::Iso, false));
}

#[test]
fn raw_takes_precedence_over_psx() {
    let mut a = Args::default();
    a.raw = true;
    a.psx_truncate = true;
    assert_eq!(row(Mode::Mode2_2352, &a), (0, 2352, Extension::Iso, false));
}

#[test]
fn suffixes() {
    assert_eq!(Extension::Ugh.suffix(), "ugh");
    assert_eq!(Extension::Iso.suffix(), "iso");
    assert_eq!(Extension::Cdr.suffix(), "cdr");
    assert_eq!(Extension::Wav.suffix(), "wav");
}

#[test]
fn file_names() {
    let a = Args::default();
    let mut t = track(Mode::Mode1_2352, &a);
    assert_eq!(t.file_name("game"), "game01.iso");
    t.number = 42;
    assert_eq!(t.file_name("game"), "game42.iso");
    t.number = 123;
    assert_eq!(t.file_name("dir/x"), "dir/x123.iso");
    t.number = 0;
    assert_eq!(t.file_name(""), "00.iso");
}

#[test]
fn wav_header_layout() {
    let mut a = Args::default();
    a.to_wav = true;
    let mut t = track(Mode::Audio, &a);
    t.start_sector = 10;
    t.stop_sector = Some(19);
    let h = t.wav_header();
    let payload = 10 * 2352;
    assert_eq!(h.len(), 44);
    assert_eq!(&h[0..4], b"RIFF");
    assert_eq!(le32(&h[4..8]), payload + 36);
    assert_eq!(&h[8..12], b"WAVE");
    assert_eq!(&h[12..16], b"fmt ");
    assert_eq!(le32(&h[16..20]), 16);
    assert_eq!(&h[20..22], &[1, 0]);
    assert_eq!(&h[22..24], &[2, 0]);
    assert_eq!(le32(&h[24..28]), 44100);
    assert_eq!(le32(&h[28..32]), 176400);
    assert_eq!(&h[32..34], &[4, 0]);
    assert_eq!(&h[34..36], &[16, 0]);
    assert_eq!(&h[36..40], b"data");
    assert_eq!(le32(&h[40..44]), payload);
}

#[test]
fn wav_header_single_sector() {
    let a = Args::default();
    let mut t = track(Mode::Audio, &a);
    t.start_sector = 5;
    t.stop_sector = Some(5);
    let h = t.wav_header();
    assert_eq!(le32(&h[4..8]), 2352 + 36);
    assert_eq!(le32(&h[40..44]), 2352);
}

#[test]
fn sector_count() {
    let a = Args::default();
    let mut t = track(Mode::Audio, &a);
    t.start_sector = 150;
    t.stop_sector = Some(224);
    assert_eq!(t.sectors(), 75);
}

#[test]
fn swap_twice_is_identity() {
    let s = sector(3);
    let mut v = s.clone();
    swap_byte_pairs(&mut v);
    assert_ne!(v, s);
    assert_eq!(v[0], s[1]);
    assert_eq!(v[1], s[0]);
    assert_eq!(v[2351], s[2350]);
    swap_byte_pairs(&mut v);
    assert_eq!(v, s);
}

#[test]
fn swap_before_window() {
    let mut a = Args::default();
    a.swap_audio_bytes = true;
    let mut t = track(Mode::Audio, &a);
    t.data_block_offset = 3;
    t.data_block_size = 6;
    let s = sector(1);
    let p = t.sector_payload(true, &s);
    // byte 3 pairs with byte 2 of the sector, byte 4 with byte 5, ...
    assert_eq!(p, vec![s[2], s[5], s[4], s[7], s[6], s[9]]);
}

#[test]
fn no_swap_without_flag() {
    let a = Args::default();
    let t = track(Mode::Audio, &a);
    let s = sector(9);
    assert_eq!(t.extract(&a, &s), s);
}

#[test]
fn swap_only_on_audio() {
    let mut a = Args::default();
    a.swap_audio_bytes = true;
    let t = track(Mode::Unknown, &a);
    let s = sector(4);
    assert_eq!(t.extract(&a, &s), s);
    let t = track(Mode::Audio, &a);
    let out = t.extract(&a, &s);
    assert_eq!(out[0], s[1]);
    assert_eq!(out[1], s[0]);
}

#[test]
fn mode1_round_trip() {
    let a = Args::default();
    let t = track(Mode::Mode1_2352, &a);
    let mut raw = sector(0);
    raw.extend(sector(100));
    raw.extend(sector(200));
    let out = t.extract(&a, &raw);
    assert_eq!(out.len(), 3 * 2048);
    for k in 0..3 {
        assert_eq!(&out[k * 2048..(k + 1) * 2048], &raw[k * 2352 + 16..k * 2352 + 2064]);
    }
}

#[test]
fn mode2_windows() {
    let mut a = Args::default();
    let s = sector(5);
    let t = track(Mode::Mode2_2352, &a);
    assert_eq!(t.extract(&a, &s), s[24..2072].to_vec());
    a.psx_truncate = true;
    let t = track(Mode::Mode2_2352, &a);
    assert_eq!(t.extract(&a, &s), s[0..2336].to_vec());
    let t = track(Mode::Mode2_2336, &a);
    assert_eq!(t.extract(&a, &s), s[16..2352].to_vec());
}

#[test]
fn extract_nothing() {
    let a = Args::default();
    let t = track(Mode::Mode1_2352, &a);
    assert!(t.extract(&a, &[]).is_empty());
}

#[test]
fn args_single_path_is_sheet() {
    let mut o = Args::default();
    o.bin_file = String::from("dir/game.v1.cue");
    o.raw = true;
    let a = Args::new(o);
    assert_eq!(a.cue_file, "dir/game.v1.cue");
    assert_eq!(a.bin_file, "");
    assert_eq!(a.output_name, "game");
    assert!(a.raw);
}

#[test]
fn args_keep_given_names() {
    let mut o = Args::default();
    o.bin_file = String::from("a.bin");
    o.cue_file = String::from("b.cue");
    o.output_name = String::from("out");
    let a = Args::new(o);
    assert_eq!(a.bin_file, "a.bin");
    assert_eq!(a.cue_file, "b.cue");
    assert_eq!(a.output_name, "out");
}

#[test]
fn args_stem_without_dot() {
    let mut o = Args::default();
    o.bin_file = String::from("x.bin");
    o.cue_file = String::from("/tmp/sheet");
    let a = Args::new(o);
    assert_eq!(a.output_name, "sheet");
}
