//! Tracks: their layout in the image, their WAV header and the payload
//! taken from each of their sectors.
use vstd::prelude::*;

use crate::mode::{layout, lemma_layout_fits, suffix_of, Extension, Mode};
use crate::text::push_char;
use vstd::string::StringExecFns;
use crate::options::Args;

verus! {

broadcast use vstd::string::group_string_axioms;

/// Bytes in one sector of the image.
pub const SECTOR_SIZE: u64 = 2352;

/// Bytes in a WAV header.
pub const WAV_HEADER_LENGTH: u64 = 44;

/// One track of the disc image.
#[derive(Clone, Copy, Debug, PartialEq, Eq, Structural)]
pub struct Track {
    /// First sector of the track.
    pub start_sector: u64,
    /// Last sector of the track, once known.
    pub stop_sector: Option<u64>,
    /// Byte offset of the first sector.
    pub start: u64,
    /// Byte offset of the last byte of the track, once known.
    pub stop: Option<u64>,
    pub mode: Mode,
    pub extension: Extension,
    /// Track number as the sheet gives it.
    pub number: u32,
    pub audio: bool,
    /// Offset of the payload within each sector.
    pub data_block_offset: u32,
    /// Length of the payload within each sector.
    pub data_block_size: u32,
}

impl Track {
    /// The payload window lies within a sector.
    pub open spec fn window_fits(self) -> bool {
        self.data_block_offset + self.data_block_size <= SECTOR_SIZE
    }

    /// Offset, size, extension and audio flag follow from the mode and the options.
    pub open spec fn laid_out(self, a: &Args) -> bool {
        let (o, s, e) = layout(self.mode, a.raw, a.psx_truncate, a.to_wav);
        &&& self.data_block_offset == o
        &&& self.data_block_size == s
        &&& self.extension == e
        &&& self.audio == (self.mode == Mode::Audio)
    }

    /// Both ends of the track are known, in sectors, and in order.
    pub open spec fn resolved(self) -> bool {
        &&& self.stop_sector is Some
        &&& self.start_sector <= self.stop_sector->0
    }

    /// Number of sectors of a resolved track.
    pub open spec fn sector_count(self) -> nat {
        (self.stop_sector->0 - self.start_sector + 1) as nat
    }

    /// Number of payload bytes that a resolved track yields.
    pub open spec fn payload_len(self) -> nat {
        self.sector_count() * self.data_block_size as nat
    }

    /// Number of sectors of a resolved track.
    pub fn sectors(&self) -> (r: u64)
        requires
            self.resolved(),
            self.stop_sector->0 < u64::MAX,
        ensures
            r == self.sector_count(),
    {
        self.stop_sector.unwrap() - self.start_sector + 1
    }

    /// Sets offset, size, extension and audio flag from the mode.
    pub fn get_track_mode(&mut self, a: &Args)
        ensures
            final(self).laid_out(a),
            final(self).window_fits(),
            final(self).mode == old(self).mode,
            final(self).number == old(self).number,
            final(self).start_sector == old(self).start_sector,
            final(self).stop_sector == old(self).stop_sector,
            final(self).start == old(self).start,
            final(self).stop == old(self).stop,
    {
        proof {
            lemma_layout_fits(self.mode, a.raw, a.psx_truncate, a.to_wav);
        }
        self.audio = false;
        match self.mode {
            Mode::Unknown => {
                self.data_block_offset = 0;
                self.data_block_size = 2352;
                self.extension = Extension::Ugh;
            },
            Mode::Audio => {
                self.data_block_offset = 0;
                self.data_block_size = 2352;
                self.audio = true;
                if a.to_wav {
                    self.extension = Extension::Wav;
                } else {
                    self.extension = Extension::Cdr;
                }
            },
            Mode::Mode1_2352 => {
                self.data_block_offset = 16;
                self.data_block_size = 2048;
                self.extension = Extension::Iso;
            },
            Mode::Mode2_2352 => {
                self.extension = Extension::Iso;
                if a.raw {
                    self.data_block_offset = 0;
                    self.data_block_size = 2352;
                } else if a.psx_truncate {
                    self.data_block_offset = 0;
                    self.data_block_size = 2336;
                } else {
                    self.data_block_offset = 24;
                    self.data_block_size = 2048;
                }
            },
            Mode::Mode2_2336 => {
                self.data_block_offset = 16;
                self.data_block_size = 2336;
                self.extension = Extension::Iso;
            },
        }
    }

    /// The 44-byte WAV header that precedes the samples of this track.
    pub fn wav_header(&self) -> (r: Vec<u8>)
        requires
            self.resolved(),
        ensures
            r@ == wav_header_bytes(self.payload_len()),
            r@.len() == WAV_HEADER_LENGTH,
    {
        let sectors: u128 = (self.stop_sector.unwrap() - self.start_sector) as u128 + 1;
        assert(sectors * self.data_block_size < 0x1_0000_0000_0000_0000_0000_0000) by (nonlinear_arith)
            requires sectors <= 0x1_0000_0000_0000_0000, self.data_block_size < 0x1_0000_0000;
        let payload: u128 = sectors * self.data_block_size as u128;
        assert(payload == self.payload_len());
        let data_len: u32 = (payload % 0x1_0000_0000) as u32;
        let riff_len: u32 = ((data_len as u64 + 36) % 0x1_0000_0000) as u32;
        proof {
            vstd::arithmetic::div_mod::lemma_add_mod_noop(payload as int, 36, 0x1_0000_0000);
        }
        assert(riff_len == (self.payload_len() + 36) % 0x1_0000_0000);
        let mut h: Vec<u8> = Vec::new();
        push_tag(&mut h, 0x52, 0x49, 0x46, 0x46);
        push_le32(&mut h, riff_len);
        push_tag(&mut h, 0x57, 0x41, 0x56, 0x45);
        let mut fmt: Vec<u8> = Vec::new();
        push_tag(&mut fmt, 0x66, 0x6d, 0x74, 0x20);
        push_le32(&mut fmt, 16);
        push_le16(&mut fmt, 1);
        push_le16(&mut fmt, 2);
        push_le32(&mut fmt, 44100);
        push_le32(&mut fmt, 44100 * 4);
        push_le16(&mut fmt, 4);
        push_le16(&mut fmt, 16);
        let mut data: Vec<u8> = Vec::new();
        push_tag(&mut data, 0x64, 0x61, 0x74, 0x61);
        push_le32(&mut data, data_len);
        assert(h@ =~= riff_chunk(self.payload_len()));
        assert(fmt@ =~= format_chunk());
        assert(data@ =~= data_chunk(self.payload_len()));
        h.append(&mut fmt);
        h.append(&mut data);
        h
    }

    /// The name of the file this track is written to: the base name, the
    /// track number in at least two digits, a dot and the suffix.
    pub fn file_name(&self, base: &str) -> (r: String)
        ensures
            r@ == track_file_name(base@, self.number as nat, self.extension),
    {
        let mut r = String::new();
        r.append(base);
        if self.number < 10 {
            push_char(&mut r, '0');
        }
        push_decimal(&mut r, self.number);
        push_char(&mut r, '.');
        r.append(self.extension.suffix());
        r
    }

    /// The payload of one sector: the sector with its byte pairs swapped
    /// when it is audio and `swap` is set, then cut to the payload window.
    pub fn sector_payload(&self, swap: bool, sector: &[u8]) -> (r: Vec<u8>)
        requires
            sector@.len() == SECTOR_SIZE,
            self.window_fits(),
        ensures
            r@ == payload_of(*self, swap, sector@),
    {
        let mut buf: Vec<u8> = slice_to_vec(sector);
        if self.audio && swap {
            swap_byte_pairs(&mut buf);
        }
        let from = self.data_block_offset as usize;
        let to = from + self.data_block_size as usize;
        slice_to_vec(&buf.as_slice()[from..to])
    }

    /// The payloads of consecutive sectors of this track, in order.
    pub fn extract(&self, a: &Args, raw: &[u8]) -> (r: Vec<u8>)
        requires
            raw@.len() % (SECTOR_SIZE as nat) == 0,
            self.window_fits(),
        ensures
            r@ == payloads(*self, a.swap_audio_bytes, raw@, raw@.len() / (SECTOR_SIZE as nat)),
    {
        let n = raw.len() / 2352;
        let mut out: Vec<u8> = Vec::new();
        let mut k: usize = 0;
        while k < n
            invariant
                n == raw@.len() / (SECTOR_SIZE as nat),
                raw@.len() % (SECTOR_SIZE as nat) == 0,
                self.window_fits(),
                k <= n,
                out@ == payloads(*self, a.swap_audio_bytes, raw@, k as nat),
            decreases n - k,
        {
            assert((k + 1) * 2352 <= raw@.len()) by (nonlinear_arith)
                requires k < n, n == raw@.len() / 2352, raw@.len() % 2352 == 0;
            assert(raw@.len() == raw.len());
            assert(k * 2352 + 2352 == (k + 1) * 2352);
            let sector = &raw[k * 2352..(k + 1) * 2352];
            let mut p = self.sector_payload(a.swap_audio_bytes, sector);
            out.append(&mut p);
            k = k + 1;
        }
        out
    }
}

/// A copy of the bytes of `s`.
fn slice_to_vec(s: &[u8]) -> (r: Vec<u8>)
    ensures
        r@ == s@,
{
    let mut r: Vec<u8> = Vec::new();
    let mut i: usize = 0;
    while i < s.len()
        invariant
            i <= s@.len(),
            r@ == s@.take(i as int),
        decreases s@.len() - i,
    {
        r.push(s[i]);
        i = i + 1;
        assert(r@ =~= s@.take(i as int));
    }
    assert(r@ =~= s@);
    r
}

/// Little-endian bytes of a 16-bit value.
pub open spec fn le16(x: nat) -> Seq<u8> {
    seq![(x % 256) as u8, (x / 256 % 256) as u8]
}

/// Little-endian bytes of a 32-bit value.
pub open spec fn le32(x: nat) -> Seq<u8> {
    seq![(x % 256) as u8, (x / 256 % 256) as u8, (x / 65536 % 256) as u8, (x / 16777216 % 256) as u8]
}

/// The RIFF chunk header: `RIFF`, the length of what follows, `WAVE`.
pub open spec fn riff_chunk(payload: nat) -> Seq<u8> {
    seq![0x52, 0x49, 0x46, 0x46] + le32((payload + 36) % 0x1_0000_0000) + seq![0x57, 0x41, 0x56, 0x45]
}

/// The `fmt ` chunk: PCM, two channels, 44100 Hz, 16 bits a sample.
pub open spec fn format_chunk() -> Seq<u8> {
    seq![0x66, 0x6d, 0x74, 0x20] + le32(16) + le16(1) + le16(2) + le32(44100) + le32(176400) + le16(4)
        + le16(16)
}

/// The `data` chunk header: `data`, then the payload length.
pub open spec fn data_chunk(payload: nat) -> Seq<u8> {
    seq![0x64, 0x61, 0x74, 0x61] + le32(payload % 0x1_0000_0000)
}

/// The WAV header for `payload` bytes of samples. The two length fields are
/// 32 bits wide and keep their value modulo 2^32.
pub open spec fn wav_header_bytes(payload: nat) -> Seq<u8> {
    riff_chunk(payload) + format_chunk() + data_chunk(payload)
}

fn push_tag(v: &mut Vec<u8>, a: u8, b: u8, c: u8, d: u8)
    ensures
        final(v)@ == old(v)@ + seq![a, b, c, d],
{
    v.push(a);
    v.push(b);
    v.push(c);
    v.push(d);
    assert(v@ =~= old(v)@ + seq![a, b, c, d]);
}

fn push_le16(v: &mut Vec<u8>, x: u16)
    ensures
        final(v)@ == old(v)@ + le16(x as nat),
{
    v.push((x % 256) as u8);
    v.push((x / 256 % 256) as u8);
    assert(v@ =~= old(v)@ + le16(x as nat));
}

fn push_le32(v: &mut Vec<u8>, x: u32)
    ensures
        final(v)@ == old(v)@ + le32(x as nat),
{
    v.push((x % 256) as u8);
    v.push((x / 256 % 256) as u8);
    v.push((x / 65536 % 256) as u8);
    v.push((x / 16777216 % 256) as u8);
    assert(v@ =~= old(v)@ + le32(x as nat));
}

/// `s` with bytes 0 and 1, 2 and 3, and so on exchanged; an odd last byte
/// stays in place.
pub open spec fn swap_pairs(s: Seq<u8>) -> Seq<u8> {
    Seq::new(
        s.len(),
        |i: int|
            if i % 2 == 0 {
                if i + 1 < s.len() {
                    s[i + 1]
                } else {
                    s[i]
                }
            } else {
                s[i - 1]
            },
    )
}

/// Swaps each pair of adjacent bytes in place.
pub fn swap_byte_pairs(data: &mut Vec<u8>)
    requires
        old(data)@.len() % 2 == 0,
    ensures
        final(data)@ == swap_pairs(old(data)@),
{
    let n = data.len();
    let mut i: usize = 0;
    while i < n
        invariant
            n == data@.len(),
            n == old(data)@.len(),
            n % 2 == 0,
            i % 2 == 0,
            i <= n,
            forall|j: int| 0 <= j < i ==> data@[j] == #[trigger] swap_pairs(old(data)@)[j],
            forall|j: int| i <= j < n ==> data@[j] == old(data)@[j],
        decreases n - i,
    {
        let x = data[i];
        let y = data[i + 1];
        data.set(i, y);
        data.set(i + 1, x);
        i = i + 2;
    }
    assert(data@ =~= swap_pairs(old(data)@));
}

/// Swapping pairs twice gives back the bytes one started from.
pub proof fn lemma_swap_twice(s: Seq<u8>)
    requires
        s.len() % 2 == 0,
    ensures
        swap_pairs(swap_pairs(s)) == s,
{
    assert(swap_pairs(swap_pairs(s)) =~= s);
}

/// The payload of one sector of `t`.
pub open spec fn payload_of(t: Track, swap: bool, sector: Seq<u8>) -> Seq<u8> {
    let s = if t.audio && swap { swap_pairs(sector) } else { sector };
    s.subrange(t.data_block_offset as int, t.data_block_offset + t.data_block_size)
}

/// The payloads of the first `n` sectors of `raw`, one after another.
pub open spec fn payloads(t: Track, swap: bool, raw: Seq<u8>, n: nat) -> Seq<u8>
    decreases n,
{
    if n == 0 {
        Seq::empty()
    } else {
        payloads(t, swap, raw, (n - 1) as nat) + payload_of(
            t,
            swap,
            raw.subrange((n - 1) * SECTOR_SIZE, n * SECTOR_SIZE),
        )
    }
}

/// The value of four little-endian bytes.
pub open spec fn le32_value(b: Seq<u8>) -> nat {
    b[0] as nat + 256 * b[1] as nat + 65536 * b[2] as nat + 16777216 * b[3] as nat
}

proof fn lemma_le32_round_trip(x: u32)
    ensures
        le32_value(le32(x as nat)) == x,
{
    let b0: u32 = x % 256;
    let b1: u32 = x / 256 % 256;
    let b2: u32 = x / 65536 % 256;
    let b3: u32 = x / 16777216 % 256;
    assert(b0 + 256 * b1 + 65536 * b2 + 16777216 * b3 == x) by (bit_vector)
        requires
            b0 == x % 256,
            b1 == x / 256 % 256,
            b2 == x / 65536 % 256,
            b3 == x / 16777216 % 256,
    ;
}

/// The WAV header is 44 bytes long; for a payload whose length leaves room
/// for the 36 bytes that follow the RIFF length field, that field reads
/// `payload + 36` and the data length field reads `payload`.
pub proof fn lemma_wav_header_fields(payload: nat)
    requires
        payload + 36 < 0x1_0000_0000,
    ensures
        wav_header_bytes(payload).len() == WAV_HEADER_LENGTH,
        le32_value(wav_header_bytes(payload).subrange(4, 8)) == payload + 36,
        le32_value(wav_header_bytes(payload).subrange(40, 44)) == payload,
{
    let h = wav_header_bytes(payload);
    lemma_chunk_fields(payload);
    let r = riff_chunk(payload);
    let f = format_chunk();
    let d = data_chunk(payload);
    assert(h.subrange(4, 8) =~= r.subrange(4, 8));
    assert(h.subrange(40, 44) =~= d.subrange(4, 8));
}

proof fn lemma_chunk_fields(payload: nat)
    requires
        payload + 36 < 0x1_0000_0000,
    ensures
        riff_chunk(payload).len() == 12,
        format_chunk().len() == 24,
        data_chunk(payload).len() == 8,
        le32_value(riff_chunk(payload).subrange(4, 8)) == payload + 36,
        le32_value(data_chunk(payload).subrange(4, 8)) == payload,
{
    let x: u32 = (payload + 36) as u32;
    let y: u32 = payload as u32;
    lemma_le32_round_trip(x);
    lemma_le32_round_trip(y);
    assert((payload + 36) % 0x1_0000_0000 == x as nat);
    assert(payload % 0x1_0000_0000 == y as nat);
    assert(riff_chunk(payload).subrange(4, 8) =~= le32(x as nat));
    assert(data_chunk(payload).subrange(4, 8) =~= le32(y as nat));
}

/// Byte pairs are swapped across the whole sector before the window is cut:
/// byte `j` of an audio payload is the partner, within the sector, of the
/// sector byte at the same position.
pub proof fn lemma_swap_before_window(t: Track, sector: Seq<u8>, j: int)
    requires
        t.audio,
        t.window_fits(),
        sector.len() == SECTOR_SIZE,
        0 <= j < t.data_block_size,
    ensures
        ({
            let p = t.data_block_offset + j;
            payload_of(t, true, sector)[j] == if p % 2 == 0 {
                sector[p + 1]
            } else {
                sector[p - 1]
            }
        }),
{
}

/// Without a swap, the payloads of `n` sectors are `n` windows of
/// `data_block_size` bytes, byte `j` of window `k` being byte
/// `data_block_offset + j` of sector `k`.
pub proof fn lemma_payloads_layout(t: Track, swap: bool, raw: Seq<u8>, n: nat)
    requires
        t.window_fits(),
        !(t.audio && swap),
        raw.len() >= n * SECTOR_SIZE,
    ensures
        payloads(t, swap, raw, n).len() == n * t.data_block_size,
        forall|k: int, j: int|
            0 <= k < n && 0 <= j < t.data_block_size ==> #[trigger] payloads(t, swap, raw, n)[k
                * t.data_block_size + j] == raw[k * SECTOR_SIZE + t.data_block_offset + j],
    decreases n,
{
    if n > 0 {
        let m = (n - 1) as nat;
        let size = t.data_block_size as int;
        assert(raw.len() >= m * SECTOR_SIZE) by (nonlinear_arith)
            requires raw.len() >= n * SECTOR_SIZE, m == n - 1;
        lemma_payloads_layout(t, swap, raw, m);
        let prev = payloads(t, swap, raw, m);
        let last = payload_of(t, swap, raw.subrange(m * SECTOR_SIZE, n * SECTOR_SIZE));
        assert(n * SECTOR_SIZE == m * SECTOR_SIZE + SECTOR_SIZE) by (nonlinear_arith)
            requires m == n - 1;
        assert(n * size == m * size + size) by (nonlinear_arith)
            requires m == n - 1;
        assert forall|k: int, j: int|
            0 <= k < n && 0 <= j < size implies #[trigger] payloads(t, swap, raw, n)[k * size + j]
                == raw[k * SECTOR_SIZE + t.data_block_offset + j] by {
            if k < m {
                assert(k * size + j < m * size) by (nonlinear_arith)
                    requires k < m, 0 <= j < size, m >= 0;
            } else {
                assert(k == m);
            }
        }
    }
}

/// A MODE1/2352 track yields 2048 bytes per sector, bytes 16 to 2063 of
/// each sector in turn.
pub proof fn lemma_mode1_round_trip(t: Track, a: &Args, raw: Seq<u8>)
    requires
        t.mode == Mode::Mode1_2352,
        t.laid_out(a),
        raw.len() % (SECTOR_SIZE as nat) == 0,
    ensures
        ({
            let n = raw.len() / (SECTOR_SIZE as nat);
            let out = payloads(t, a.swap_audio_bytes, raw, n);
            &&& out.len() == n * 2048
            &&& forall|k: int, j: int|
                0 <= k < n && 0 <= j < 2048 ==> #[trigger] out[k * 2048 + j] == raw[k * SECTOR_SIZE + 16 + j]
        }),
{
    let n = raw.len() / (SECTOR_SIZE as nat);
    assert(raw.len() >= n * SECTOR_SIZE) by (nonlinear_arith)
        requires n == raw.len() / (SECTOR_SIZE as nat);
    lemma_payloads_layout(t, a.swap_audio_bytes, raw, n);
}

/// The character of a decimal digit.
pub open spec fn digit_char(d: nat) -> char {
    "0123456789"@[d as int]
}

/// `n` in decimal, without leading zeros.
pub open spec fn decimal_text(n: nat) -> Seq<char>
    decreases n,
{
    if n < 10 {
        seq![digit_char(n)]
    } else {
        decimal_text(n / 10).push(digit_char(n % 10))
    }
}

/// `n` in decimal, with a leading zero below ten.
pub open spec fn two_digits(n: nat) -> Seq<char> {
    if n < 10 {
        seq!['0', digit_char(n)]
    } else {
        decimal_text(n)
    }
}

/// `<base><number>.<suffix>`, the number in at least two digits.
pub open spec fn track_file_name(base: Seq<char>, number: nat, e: Extension) -> Seq<char> {
    base + two_digits(number) + seq!['.'] + suffix_of(e)
}

fn push_decimal(s: &mut String, n: u32)
    ensures
        final(s)@ == old(s)@ + decimal_text(n as nat),
    decreases n,
{
    if n >= 10 {
        push_decimal(s, n / 10);
    }
    proof {
        reveal_strlit("0123456789");
    }
    let d = "0123456789".get_char((n % 10) as usize);
    push_char(s, d);
    assert(s@ =~= old(s)@ + decimal_text(n as nat));
}

} // verus!
