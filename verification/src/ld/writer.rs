//! The byte layout of a `.ld` file.
//!
//! MoTeC has never published this format. The offsets and magic numbers
//! below come from the community reverse-engineering effort. Each field is
//! placed at a literal offset in a zeroed buffer rather than appended in
//! sequence, because the format is mostly padding and an appended layout
//! hides a miscounted pad byte until a reader is confused by it.
//!
//! A file is a header, an event block, one header per channel chained by
//! pointers, and then every channel's samples end to end. Samples are `f32`
//! with the calibration fields left at identity, so the stored word is the
//! physical value and no scaling happens on the way in or out.
//!
//! Header fields, little-endian: marker at 0, first channel header at 8,
//! first samples at 12, event block at 36, device identity at 64–85,
//! channel count at 86, date at 94, time at 126, driver at 158, vehicle at
//! 222, venue at 350, the logging magic at 1502, and the comment at 1572.
//! A channel header is previous at 0, next at 4, samples at 8, count at 12,
//! counter at 16, type at 18 and 20, rate at 22, calibration at 24–31, name
//! at 32, short name at 64, and unit at 72.

use vstd::prelude::*;
use vstd::utf8::encode_utf8;

use crate::error::Error;
use crate::ld::types::{lemma_session_view, Channel, Session, SessionView};
use crate::text::{append_decimal, append_padded, decimal, padded, push_char, push_str};

verus! {

/// Length of the file header.
pub const HEAD_LEN: usize = 1762;

/// Length of the event block.
pub const EVENT_LEN: usize = 1154;

/// Length of one channel header.
pub const CHAN_LEN: usize = 124;

/// Where the event block starts: right after the header.
pub const EVENT_PTR: u32 = 1762;

/// Where the first channel header starts: right after the event block.
pub const META_PTR: u32 = 2916;

/// The value the readers expect in the header's first word.
pub const MARKER: u32 = 0x40;

const DEVICE_SERIAL: u32 = 0x1f44;

const DEVICE_VERSION: u16 = 420;

/// The feature word that marks a file as pro logging.
pub const PRO_LOGGING: u32 = 0x000c_81a4;

const COUNTER_BASE: u16 = 0x2ee1;

/// Type class of `f32` samples.
const FLOAT32_CLASS: u16 = 0x07;

/// Width in bytes of `f32` samples.
const FLOAT32_WIDTH: u16 = 4;

/// The little-endian bytes of `v`.
pub open spec fn le_u32(v: u32) -> Seq<u8> {
    seq![(v % 256) as u8, ((v / 256) % 256) as u8, ((v / 65536) % 256) as u8, (v / 16777216) as u8]
}

/// The little-endian bytes of `v`.
pub open spec fn le_u16(v: u16) -> Seq<u8> {
    seq![(v % 256) as u8, (v / 256) as u8]
}

/// `buf` with `bytes` written over it from `at` on.
#[verifier::opaque]
pub open spec fn placed(buf: Seq<u8>, at: int, bytes: Seq<u8>) -> Seq<u8> {
    Seq::new(
        buf.len(),
        |i: int|
            if at <= i < at + bytes.len() {
                bytes[i - at]
            } else {
                buf[i]
            },
    )
}

/// The UTF-8 bytes of `text`, at most `len` of them.
pub open spec fn text_bytes(text: Seq<char>, len: nat) -> Seq<u8> {
    let b = encode_utf8(text);
    if b.len() <= len {
        b
    } else {
        b.take(len as int)
    }
}

/// `n` bytes of zero.
pub open spec fn zeros(n: nat) -> Seq<u8> {
    Seq::new(n, |i: int| 0u8)
}

/// Gregorian year, month and day from a count of days since 1970-01-01, by
/// the count of 400-year eras since 0000-03-01.
pub open spec fn civil(days: nat) -> (nat, nat, nat) {
    let z = days + 719_468;
    let era = z / 146_097;
    let day_of_era = z % 146_097;
    let year_of_era = (day_of_era - day_of_era / 1_460 + day_of_era / 36_524 - day_of_era
        / 146_096) / 365;
    let year = year_of_era + era * 400;
    let day_of_year = day_of_era - (365 * year_of_era + year_of_era / 4 - year_of_era / 100);
    let shifted_month = (5 * day_of_year + 2) / 153;
    let day = day_of_year - (153 * shifted_month + 2) / 5 + 1;
    let month = if shifted_month < 10 {
        shifted_month + 3
    } else {
        shifted_month - 9
    };
    (
        if month <= 2 {
            (year + 1) as nat
        } else {
            year as nat
        },
        month as nat,
        day as nat,
    )
}

/// `DD/MM/YYYY` of a time in microseconds since the epoch, in UTC.
pub open spec fn date_text(us: u64) -> Seq<char> {
    let (y, m, d) = civil((us / 1_000_000 / 86_400) as nat);
    padded(d, 2) + seq!['/'] + padded(m, 2) + seq!['/'] + padded(y, 4)
}

/// `HH:MM:SS` of a time in microseconds since the epoch, in UTC.
pub open spec fn time_text(us: u64) -> Seq<char> {
    let s = (us / 1_000_000 % 86_400) as nat;
    padded(s / 3600, 2) + seq![':'] + padded(s / 60 % 60, 2) + seq![':'] + padded(s % 60, 2)
}

/// `DD/MM/YYYY` and `HH:MM:SS`, in UTC, from microseconds since the epoch.
pub fn date_and_time(started_at_us: u64) -> (r: (String, String))
    ensures
        r.0@ == date_text(started_at_us),
        r.1@ == time_text(started_at_us),
{
    let seconds = started_at_us / 1_000_000;
    let (year, month, day) = civil_from_days(seconds / 86_400);
    let day_seconds = seconds % 86_400;
    let mut date = String::new();
    append_padded(&mut date, day, 2);
    push_char(&mut date, '/');
    append_padded(&mut date, month, 2);
    push_char(&mut date, '/');
    append_padded(&mut date, year, 4);
    let mut time = String::new();
    append_padded(&mut time, day_seconds / 3600, 2);
    push_char(&mut time, ':');
    append_padded(&mut time, day_seconds / 60 % 60, 2);
    push_char(&mut time, ':');
    append_padded(&mut time, day_seconds % 60, 2);
    assert(date@ =~= date_text(started_at_us));
    assert(time@ =~= time_text(started_at_us));
    (date, time)
}

/// Gregorian year, month and day from a count of days since 1970-01-01.
///
/// Hinnant's `civil_from_days`, restricted to the non-negative half — a
/// Unix timestamp cannot land before the epoch. The era arithmetic is what
/// makes 2100 a common year.
fn civil_from_days(days: u64) -> (r: (u64, u64, u64))
    requires
        days <= 213_503_982_334_601u64,
    ensures
        (r.0 as nat, r.1 as nat, r.2 as nat) == civil(days as nat),
{
    let z = days + 719_468;
    let era = z / 146_097;
    let day_of_era = z - era * 146_097;
    let year_of_era = (day_of_era - day_of_era / 1_460 + day_of_era / 36_524 - day_of_era / 146_096)
        / 365;
    let year = year_of_era + era * 400;
    let day_of_year = day_of_era - (365 * year_of_era + year_of_era / 4 - year_of_era / 100);
    let shifted_month = (5 * day_of_year + 2) / 153;
    let day = day_of_year - (153 * shifted_month + 2) / 5 + 1;
    let month = if shifted_month < 10 {
        shifted_month + 3
    } else {
        shifted_month - 9
    };
    (
        if month <= 2 {
            year + 1
        } else {
            year
        },
        month,
        day,
    )
}

/// The header block.
#[verifier::opaque]
pub open spec fn head_block(s: SessionView, count: u32, data_ptr: u32) -> Seq<u8> {
    let b = zeros(1762);
    let b = placed(b, 0, le_u32(0x40));
    let b = placed(b, 8, le_u32(2916));
    let b = placed(b, 12, le_u32(data_ptr));
    let b = placed(b, 36, le_u32(1762));
    let b = placed(b, 64, le_u16(1));
    let b = placed(b, 66, le_u16(0x4240));
    let b = placed(b, 68, le_u16(0x000f));
    let b = placed(b, 70, le_u32(0x1f44));
    let b = placed(b, 74, text_bytes(seq!['A', 'D', 'L'], 8));
    let b = placed(b, 82, le_u16(420));
    let b = placed(b, 84, le_u16(0xadb0));
    let b = placed(b, 86, le_u32(count));
    let b = placed(b, 94, text_bytes(date_text(s.started_at_us), 16));
    let b = placed(b, 126, text_bytes(time_text(s.started_at_us), 16));
    let b = placed(b, 158, text_bytes(s.driver, 64));
    let b = placed(b, 222, text_bytes(s.vehicle, 64));
    let b = placed(b, 350, text_bytes(s.venue, 64));
    let b = placed(b, 1502, le_u32(0x000c_81a4));
    placed(b, 1572, text_bytes(s.event, 64))
}

/// The event block.
#[verifier::opaque]
pub open spec fn event_block(s: SessionView) -> Seq<u8> {
    placed(placed(zeros(1154), 0, text_bytes(s.event, 64)), 64, text_bytes(seq!['1'], 64))
}

/// The header of channel `i` of `count`, each carrying `len` samples, the
/// first samples at `data_ptr`.
#[verifier::opaque]
pub open spec fn channel_header(
    c: Channel,
    i: nat,
    count: nat,
    len: nat,
    data_ptr: nat,
    rate: u16,
) -> Seq<u8> {
    let position = 2916 + i * 124;
    let b = zeros(124);
    let b = placed(
        b,
        0,
        le_u32(
            if i > 0 {
                (position - 124) as u32
            } else {
                0
            },
        ),
    );
    let b = placed(
        b,
        4,
        le_u32(
            if i + 1 < count {
                (position + 124) as u32
            } else {
                0
            },
        ),
    );
    let b = placed(b, 8, le_u32((data_ptr + i * ((len as u32) * 4)) as u32));
    let b = placed(b, 12, le_u32(len as u32));
    let b = placed(b, 16, le_u16(0x2ee1u16.wrapping_add(i as u16)));
    let b = placed(b, 18, le_u16(7));
    let b = placed(b, 20, le_u16(4));
    let b = placed(b, 22, le_u16(rate));
    let b = placed(b, 24, le_u16(0));
    let b = placed(b, 26, le_u16(1));
    let b = placed(b, 28, le_u16(1));
    let b = placed(b, 30, le_u16(0));
    let b = placed(b, 32, text_bytes(c.name@, 32));
    let b = placed(b, 64, text_bytes(c.short_name@, 8));
    placed(b, 72, text_bytes(c.unit@, 12))
}

proof fn lemma_text_bytes_len(text: Seq<char>, len: nat)
    ensures
        text_bytes(text, len).len() <= len,
{
}

/// A channel header is 124 bytes: the positions of the previous and next
/// headers (0 at either end of the list), where its samples start, how
/// many there are, and the sample rate, all little-endian.
proof fn lemma_header_fields(c: Channel, i: nat, count: nat, len: nat, data_ptr: nat, rate: u16)
    ensures
        ({
            let h = channel_header(c, i, count, len, data_ptr, rate);
            &&& h.len() == 124
            &&& h.subrange(0, 4) == le_u32(
                if i > 0 {
                    (2916 + 124 * (i - 1)) as u32
                } else {
                    0
                },
            )
            &&& h.subrange(4, 8) == le_u32(
                if i + 1 < count {
                    (2916 + 124 * (i + 1)) as u32
                } else {
                    0
                },
            )
            &&& h.subrange(8, 12) == le_u32((data_ptr + i * ((len as u32) * 4)) as u32)
            &&& h.subrange(12, 16) == le_u32(len as u32)
            &&& h[22] == (rate % 256) as u8
            &&& h[23] == (rate / 256) as u8
        }),
{
    reveal(channel_header);
    reveal(placed);
    lemma_text_bytes_len(c.name@, 32);
    lemma_text_bytes_len(c.short_name@, 8);
    lemma_text_bytes_len(c.unit@, 12);
    let h = channel_header(c, i, count, len, data_ptr, rate);
    assert(h.subrange(0, 4) =~= le_u32(
        if i > 0 {
            (2916 + 124 * (i - 1)) as u32
        } else {
            0
        },
    ));
    assert(h.subrange(4, 8) =~= le_u32(
        if i + 1 < count {
            (2916 + 124 * (i + 1)) as u32
        } else {
            0
        },
    ));
    assert(h.subrange(8, 12) =~= le_u32((data_ptr + i * ((len as u32) * 4)) as u32));
    assert(h.subrange(12, 16) =~= le_u32(len as u32));
}

proof fn lemma_headers_len(s: SessionView, k: nat, len: nat, data_ptr: nat)
    requires
        k <= s.channels.len(),
    ensures
        channel_headers(s, k, len, data_ptr).len() == 124 * k,
    decreases k,
{
    if k > 0 {
        lemma_headers_len(s, (k - 1) as nat, len, data_ptr);
        lemma_header_fields(
            s.channels[k - 1],
            (k - 1) as nat,
            s.channels.len(),
            len,
            data_ptr,
            s.rate_hz,
        );
    }
}

/// The `i`-th 124 bytes of the headers of the first `k` channels are the
/// header of channel `i`.
proof fn lemma_headers_block(s: SessionView, k: nat, len: nat, data_ptr: nat, i: int)
    requires
        0 <= i < k <= s.channels.len(),
    ensures
        channel_headers(s, k, len, data_ptr).len() == 124 * k,
        channel_headers(s, k, len, data_ptr).subrange(124 * i, 124 * i + 124) == channel_header(
            s.channels[i],
            i as nat,
            s.channels.len(),
            len,
            data_ptr,
            s.rate_hz,
        ),
    decreases k,
{
    let last = (k - 1) as nat;
    lemma_header_fields(s.channels[k - 1], last, s.channels.len(), len, data_ptr, s.rate_hz);
    lemma_headers_len(s, last, len, data_ptr);
    let prev = channel_headers(s, last, len, data_ptr);
    let hd = channel_header(s.channels[k - 1], last, s.channels.len(), len, data_ptr, s.rate_hz);
    assert(channel_headers(s, k, len, data_ptr) == prev + hd);
    if i < last {
        lemma_headers_block(s, last, len, data_ptr, i);
        assert((prev + hd).subrange(124 * i, 124 * i + 124) =~= prev.subrange(124 * i, 124 * i + 124));
    } else {
        assert((prev + hd).subrange(124 * i, 124 * i + 124) =~= hd);
    }
}

/// The headers of the first `k` channels.
pub open spec fn channel_headers(s: SessionView, k: nat, len: nat, data_ptr: nat) -> Seq<u8>
    decreases k,
{
    if k == 0 {
        Seq::empty()
    } else {
        channel_headers(s, (k - 1) as nat, len, data_ptr) + channel_header(
            s.channels[k - 1],
            (k - 1) as nat,
            s.channels.len(),
            len,
            data_ptr,
            s.rate_hz,
        )
    }
}

/// Sample words as little-endian bytes, in order.
pub open spec fn sample_bytes(words: Seq<u32>) -> Seq<u8>
    decreases words.len(),
{
    if words.len() == 0 {
        Seq::empty()
    } else {
        sample_bytes(words.drop_last()) + le_u32(words.last())
    }
}

/// The samples of the first `k` channels, end to end.
pub open spec fn all_samples(chs: Seq<Channel>, k: nat) -> Seq<u8>
    decreases k,
{
    if k == 0 {
        Seq::empty()
    } else {
        all_samples(chs, (k - 1) as nat) + sample_bytes(chs[k - 1].samples@)
    }
}

/// Samples per channel, as the first channel carries them.
pub open spec fn session_len(s: SessionView) -> nat {
    if s.channels.len() == 0 {
        0
    } else {
        s.channels[0].samples@.len()
    }
}

/// Whether channel `i` carries a different number of samples than the
/// session.
pub open spec fn uneven(s: SessionView, i: int) -> bool {
    s.channels[i].samples@.len() != session_len(s)
}

/// Where the first sample of the file lands.
pub open spec fn first_sample_at(s: SessionView) -> nat {
    2916 + s.channels.len() * 124
}

/// Whether the offsets of the file fit the 32-bit pointers the format
/// uses.
pub open spec fn offsets_fit(s: SessionView) -> bool {
    let len32 = (session_len(s) as u32) as nat;
    s.channels.len() > 0 ==> len32 * 4 <= 0xFFFF_FFFF && first_sample_at(s) + s.channels.len() * (len32
        * 4) <= 0xFFFF_FFFF
}

/// A whole file: header, event block, channel headers, samples.
#[verifier::opaque]
pub open spec fn ld_file(s: SessionView) -> Seq<u8> {
    let count = s.channels.len();
    head_block(s, count as u32, first_sample_at(s) as u32) + event_block(s) + channel_headers(
        s,
        count,
        session_len(s),
        first_sample_at(s),
    ) + all_samples(s.channels, count)
}

/// The header of channel `i` of a written file, at byte 2916 + 124 i,
/// links to its neighbours, points at the channel's samples (each channel
/// `4 * len` bytes after the one before, the first at the end of the
/// headers), counts them, and carries the session's sample rate.
pub proof fn lemma_file_channel_header(s: SessionView, i: int)
    requires
        0 <= i < s.channels.len(),
    ensures
        ({
            let at = 2916 + 124 * i;
            let f = ld_file(s);
            let len = session_len(s);
            &&& f.subrange(at, at + 4) == le_u32(
                if i > 0 {
                    (at - 124) as u32
                } else {
                    0
                },
            )
            &&& f.subrange(at + 4, at + 8) == le_u32(
                if i + 1 < s.channels.len() {
                    (at + 124) as u32
                } else {
                    0
                },
            )
            &&& f.subrange(at + 8, at + 12) == le_u32(
                (first_sample_at(s) + i * ((len as u32) * 4)) as u32,
            )
            &&& f.subrange(at + 12, at + 16) == le_u32(len as u32)
            &&& f[at + 22] == (s.rate_hz % 256) as u8
            &&& f[at + 23] == (s.rate_hz / 256) as u8
        }),
{
    reveal(ld_file);
    reveal(head_block);
    reveal(event_block);
    reveal(placed);
    let count = s.channels.len();
    let h = head_block(s, count as u32, first_sample_at(s) as u32);
    let e = event_block(s);
    let c = channel_headers(s, count, session_len(s), first_sample_at(s));
    let a = all_samples(s.channels, count);
    lemma_text_bytes_len(seq!['A', 'D', 'L'], 8);
    lemma_text_bytes_len(date_text(s.started_at_us), 16);
    lemma_text_bytes_len(time_text(s.started_at_us), 16);
    lemma_text_bytes_len(s.driver, 64);
    lemma_text_bytes_len(s.vehicle, 64);
    lemma_text_bytes_len(s.venue, 64);
    lemma_text_bytes_len(s.event, 64);
    lemma_text_bytes_len(seq!['1'], 64);
    assert(h.len() == 1762);
    assert(e.len() == 1154);
    lemma_headers_block(s, count, session_len(s), first_sample_at(s), i);
    let hd = channel_header(s.channels[i], i as nat, count, session_len(s), first_sample_at(s), s.rate_hz);
    lemma_header_fields(s.channels[i], i as nat, count, session_len(s), first_sample_at(s), s.rate_hz);
    let at = 2916 + 124 * i;
    let f = h + e + c + a;
    assert(ld_file(s) == f);
    assert(f.subrange(at, at + 124) =~= c.subrange(124 * i, 124 * i + 124));
    assert(f.subrange(at, at + 4) =~= hd.subrange(0, 4));
    assert(f.subrange(at + 4, at + 8) =~= hd.subrange(4, 8));
    assert(f.subrange(at + 8, at + 12) =~= hd.subrange(8, 12));
    assert(f.subrange(at + 12, at + 16) =~= hd.subrange(12, 16));
    assert(f[at + 22] == hd[22]);
    assert(f[at + 23] == hd[23]);
}

/// What writing `s` gives: the file, or why it cannot be written.
pub open spec fn ld_result(s: SessionView) -> Result<Seq<u8>, Seq<char>> {
    if exists|i: int| 0 <= i < s.channels.len() && uneven(s, i) {
        let i = choose|i: int|
            0 <= i < s.channels.len() && uneven(s, i) && forall|j: int|
                0 <= j < i ==> !uneven(s, j);
        Err(
            "channel `"@ + s.channels[i].name@ + "` carries "@ + decimal(
                s.channels[i].samples@.len(),
            ) + " samples but the session has "@ + decimal(session_len(s)),
        )
    } else if s.channels.len() > 0xFFFF_FFFF {
        Err(decimal(s.channels.len()) + " channels is more than the format counts"@)
    } else {
        Ok(ld_file(s))
    }
}

fn put_u32(buf: &mut Vec<u8>, at: usize, value: u32)
    requires
        at + 4 <= old(buf)@.len(),
    ensures
        final(buf)@ == placed(old(buf)@, at as int, le_u32(value)),
        final(buf)@.len() == old(buf)@.len(),
{
    reveal(placed);
    let ghost b0 = buf@;
    let _n = buf.len();
    buf.set(at, (value % 256) as u8);
    buf.set(at + 1, ((value / 256) % 256) as u8);
    buf.set(at + 2, ((value / 65536) % 256) as u8);
    buf.set(at + 3, (value / 16777216) as u8);
    assert(buf@ =~= placed(b0, at as int, le_u32(value)));
}

fn put_u16(buf: &mut Vec<u8>, at: usize, value: u16)
    requires
        at + 2 <= old(buf)@.len(),
    ensures
        final(buf)@ == placed(old(buf)@, at as int, le_u16(value)),
        final(buf)@.len() == old(buf)@.len(),
{
    reveal(placed);
    let ghost b0 = buf@;
    let _n = buf.len();
    buf.set(at, (value % 256) as u8);
    buf.set(at + 1, (value / 256) as u8);
    assert(buf@ =~= placed(b0, at as int, le_u16(value)));
}

fn put_i16(buf: &mut Vec<u8>, at: usize, value: i16)
    requires
        at + 2 <= old(buf)@.len(),
        0 <= value,
    ensures
        final(buf)@ == placed(old(buf)@, at as int, le_u16(value as u16)),
        final(buf)@.len() == old(buf)@.len(),
{
    put_u16(buf, at, value as u16);
}

/// Left-aligned, zero-padded, never longer than the field. The buffer is
/// already zeroed, so short text is terminated by what is already there.
fn put_str(buf: &mut Vec<u8>, at: usize, len: usize, text: &str)
    requires
        at + len <= old(buf)@.len(),
    ensures
        final(buf)@ == placed(old(buf)@, at as int, text_bytes(text@, len as nat)),
        final(buf)@.len() == old(buf)@.len(),
{
    reveal(placed);
    let bytes = text.as_bytes();
    let take = if bytes.len() < len {
        bytes.len()
    } else {
        len
    };
    let ghost b0 = buf@;
    let n = buf.len();
    let ghost t = text_bytes(text@, len as nat);
    assert(t.len() == take);
    let mut i: usize = 0;
    while i < take
        invariant
            take <= bytes@.len(),
            take == t.len(),
            n == b0.len(),
            at + take <= b0.len(),
            bytes@ == encode_utf8(text@),
            t == text_bytes(text@, len as nat),
            i <= take,
            buf@.len() == b0.len(),
            forall|k: int|
                0 <= k < b0.len() ==> #[trigger] buf@[k] == if at <= k < at + i {
                    t[k - at]
                } else {
                    b0[k]
                },
        decreases take - i,
    {
        buf.set(at + i, bytes[i]);
        i = i + 1;
    }
    assert(buf@ =~= placed(b0, at as int, t));
}

fn zeroed(n: usize) -> (v: Vec<u8>)
    ensures
        v@ == zeros(n as nat),
{
    let mut v: Vec<u8> = Vec::new();
    let mut i: usize = 0;
    while i < n
        invariant
            i <= n,
            v@ == zeros(i as nat),
        decreases n - i,
    {
        v.push(0);
        i = i + 1;
        assert(v@ =~= zeros(i as nat));
    }
    v
}

fn head(session: &Session, count: u32, data_ptr: u32) -> (b: Vec<u8>)
    ensures
        b@ == head_block(session@, count, data_ptr),
{
    reveal(head_block);
    proof {
        lemma_session_view(session);
    }
    let (date, time) = date_and_time(session.started_at_us);
    let mut head = zeroed(HEAD_LEN);
    put_u32(&mut head, 0, MARKER);
    put_u32(&mut head, 8, META_PTR);
    put_u32(&mut head, 12, data_ptr);
    put_u32(&mut head, 36, EVENT_PTR);
    put_u16(&mut head, 64, 1);
    put_u16(&mut head, 66, 0x4240);
    put_u16(&mut head, 68, 0x000f);
    put_u32(&mut head, 70, DEVICE_SERIAL);
    proof {
        reveal_strlit("ADL");
    }
    put_str(&mut head, 74, 8, "ADL");
    put_u16(&mut head, 82, DEVICE_VERSION);
    put_u16(&mut head, 84, 0xadb0);
    put_u32(&mut head, 86, count);
    put_str(&mut head, 94, 16, date.as_str());
    put_str(&mut head, 126, 16, time.as_str());
    put_str(&mut head, 158, 64, session.driver.as_str());
    put_str(&mut head, 222, 64, session.vehicle.as_str());
    put_str(&mut head, 350, 64, session.venue.as_str());
    put_u32(&mut head, 1502, PRO_LOGGING);
    put_str(&mut head, 1572, 64, session.event.as_str());
    proof {
        assert("ADL"@ =~= seq!['A', 'D', 'L']);
    }
    head
}

fn event(session: &Session) -> (b: Vec<u8>)
    ensures
        b@ == event_block(session@),
{
    reveal(event_block);
    proof {
        lemma_session_view(session);
    }
    let mut event = zeroed(EVENT_LEN);
    put_str(&mut event, 0, 64, session.event.as_str());
    proof {
        reveal_strlit("1");
    }
    put_str(&mut event, 64, 64, "1");
    assert("1"@ =~= seq!['1']);
    event
}

fn channel_header_bytes(
    channel: &Channel,
    index: usize,
    count: usize,
    len: usize,
    data_ptr: u32,
    rate: u16,
) -> (b: Vec<u8>)
    requires
        index < count,
        count > 0,
        2916 + count * 124 == data_ptr,
        (len as u32) as nat * 4 <= 0xFFFF_FFFF,
        data_ptr + count * ((len as u32) as nat * 4) <= 0xFFFF_FFFF,
    ensures
        b@ == channel_header(*channel, index as nat, count as nat, len as nat, data_ptr as nat, rate),
{
    reveal(channel_header);
    let len32 = len as u32;
    assert(index * 124 < count * 124) by (nonlinear_arith)
        requires
            index < count,
    ;
    let position = META_PTR + index as u32 * CHAN_LEN as u32;
    let mut header = zeroed(CHAN_LEN);
    put_u32(
        &mut header,
        0,
        if index > 0 {
            position - CHAN_LEN as u32
        } else {
            0
        },
    );
    put_u32(
        &mut header,
        4,
        if index + 1 < count {
            position + CHAN_LEN as u32
        } else {
            0
        },
    );
    assert(index * (len32 as nat * 4) <= count * (len32 as nat * 4)) by (nonlinear_arith)
        requires
            index < count,
    ;
    let samples_at = data_ptr + index as u32 * (len32 * 4);
    put_u32(&mut header, 8, samples_at);
    put_u32(&mut header, 12, len32);
    put_u16(&mut header, 16, COUNTER_BASE.wrapping_add(index as u16));
    put_u16(&mut header, 18, FLOAT32_CLASS);
    put_u16(&mut header, 20, FLOAT32_WIDTH);
    put_u16(&mut header, 22, rate);
    put_i16(&mut header, 24, 0);
    put_i16(&mut header, 26, 1);
    put_i16(&mut header, 28, 1);
    put_i16(&mut header, 30, 0);
    put_str(&mut header, 32, 32, channel.name.as_str());
    put_str(&mut header, 64, 8, channel.short_name.as_str());
    put_str(&mut header, 72, 12, channel.unit.as_str());
    header
}

/// The little-endian bytes of `w`.
fn le_word(w: u32) -> (v: Vec<u8>)
    ensures
        v@ == le_u32(w),
{
    let mut v: Vec<u8> = Vec::new();
    v.push((w % 256) as u8);
    v.push(((w / 256) % 256) as u8);
    v.push(((w / 65536) % 256) as u8);
    v.push((w / 16777216) as u8);
    assert(v@ =~= le_u32(w));
    v
}

/// The message for channel `i`, the first whose sample count differs.
proof fn lemma_first_uneven(s: SessionView, i: int)
    requires
        0 <= i < s.channels.len(),
        uneven(s, i),
        forall|j: int| 0 <= j < i ==> !uneven(s, j),
    ensures
        ld_result(s) == Err::<Seq<u8>, Seq<char>>(
            "channel `"@ + s.channels[i].name@ + "` carries "@ + decimal(
                s.channels[i].samples@.len(),
            ) + " samples but the session has "@ + decimal(session_len(s)),
        ),
{
    let c = choose|c: int|
        0 <= c < s.channels.len() && uneven(s, c) && forall|j: int| 0 <= j < c ==> !uneven(s, j);
    assert(c == i) by {
        if c < i {
            assert(!uneven(s, c));
        } else if c > i {
            assert(!uneven(s, i));
        }
    }
}

/// Append the headers of every channel to `out`.
fn append_headers(out: &mut Vec<u8>, session: &Session, len: usize, data_ptr: u32)
    requires
        len == session_len(session@),
        session@.channels.len() <= 0xFFFF_FFFF,
        data_ptr == first_sample_at(session@),
        offsets_fit(session@),
    ensures
        final(out)@ == old(out)@ + channel_headers(
            session@,
            session@.channels.len(),
            len as nat,
            data_ptr as nat,
        ),
{
    proof {
        lemma_session_view(session);
    }
    let channels = session.channels();
    let ghost s = session@;
    let ghost start = out@;
    let mut index: usize = 0;
    while index < channels.len()
        invariant
            channels@ == s.channels,
            s == session@,
            s.rate_hz == session.rate_hz,
            len == session_len(s),
            data_ptr == first_sample_at(s),
            channels@.len() <= 0xFFFF_FFFF,
            offsets_fit(s),
            index <= channels@.len(),
            out@ == start + channel_headers(s, index as nat, len as nat, data_ptr as nat),
        decreases channels@.len() - index,
    {
        let mut header = channel_header_bytes(
            &channels[index],
            index,
            channels.len(),
            len,
            data_ptr,
            session.rate_hz,
        );
        let ghost h = header@;
        out.append(&mut header);
        proof {
            assert(channel_headers(s, (index + 1) as nat, len as nat, data_ptr as nat)
                == channel_headers(s, index as nat, len as nat, data_ptr as nat) + channel_header(
                s.channels[index as int],
                index as nat,
                s.channels.len(),
                len as nat,
                data_ptr as nat,
                s.rate_hz,
            ));
            assert(h == channel_header(
                s.channels[index as int],
                index as nat,
                s.channels.len(),
                len as nat,
                data_ptr as nat,
                s.rate_hz,
            ));
            assert(out@ =~= start + channel_headers(
                s,
                (index + 1) as nat,
                len as nat,
                data_ptr as nat,
            ));
        }
        index = index + 1;
    }
}

/// Append the samples of `channels` to `out`, end to end.
fn append_samples(out: &mut Vec<u8>, channels: &[Channel])
    ensures
        final(out)@ == old(out)@ + all_samples(channels@, channels@.len()),
{
    let ghost start = out@;
    let mut k: usize = 0;
    while k < channels.len()
        invariant
            k <= channels@.len(),
            out@ == start + all_samples(channels@, k as nat),
        decreases channels@.len() - k,
    {
        let samples = &channels[k].samples;
        let ghost before = out@;
        let mut j: usize = 0;
        while j < samples.len()
            invariant
                k < channels@.len(),
                j <= samples@.len(),
                samples@ == channels@[k as int].samples@,
                out@ == before + sample_bytes(samples@.take(j as int)),
            decreases samples@.len() - j,
        {
            let w = samples[j];
            let mut word = le_word(w);
            out.append(&mut word);
            proof {
                assert(samples@.take(j + 1).drop_last() =~= samples@.take(j as int));
                assert(sample_bytes(samples@.take(j + 1)) == sample_bytes(samples@.take(j as int))
                    + le_u32(w));
            }
            j = j + 1;
        }
        assert(samples@.take(samples@.len() as int) =~= samples@);
        k = k + 1;
    }
}

/// Write `session` as a `.ld` file, appending it to `out`.
///
/// Fails if the channels do not all carry the same number of samples: a
/// reader takes each channel's count from its own header and would read
/// another channel's samples as its own.
pub fn write(session: &Session, out: &mut Vec<u8>) -> (r: Result<(), Error>)
    requires
        ld_result(session@) is Ok ==> offsets_fit(session@),
    ensures
        match r {
            Ok(()) => ld_result(session@) == Ok::<Seq<u8>, Seq<char>>(ld_file(session@))
                && final(out)@ == old(out)@ + ld_file(session@),
            Err(e) => ld_result(session@) matches Err(t) && e matches Error::Export { reason }
                && reason@ == t && final(out)@ == old(out)@,
        },
{
    proof {
        lemma_session_view(session);
    }
    let channels = session.channels();
    let len = session.sample_count();
    let ghost s = session@;
    let mut i: usize = 0;
    while i < channels.len()
        invariant
            s == session@,
            channels@ == s.channels,
            len == session_len(s),
            i <= channels@.len(),
            forall|j: int| 0 <= j < i ==> !uneven(s, j),
        decreases channels@.len() - i,
    {
        if channels[i].samples.len() != len {
            let mut reason = String::new();
            push_str(&mut reason, "channel `");
            push_str(&mut reason, channels[i].name.as_str());
            push_str(&mut reason, "` carries ");
            append_decimal(&mut reason, channels[i].samples.len() as u64);
            push_str(&mut reason, " samples but the session has ");
            append_decimal(&mut reason, len as u64);
            proof {
                assert(reason@ =~= "channel `"@ + s.channels[i as int].name@ + "` carries "@
                    + decimal(s.channels[i as int].samples@.len()) + " samples but the session has "@
                    + decimal(session_len(s)));
                lemma_first_uneven(s, i as int);
            }
            return Err(Error::Export { reason });
        }
        i = i + 1;
    }
    if channels.len() > 0xFFFF_FFFF {
        let mut reason = String::new();
        append_decimal(&mut reason, channels.len() as u64);
        push_str(&mut reason, " channels is more than the format counts");
        assert(reason@ =~= decimal(s.channels.len()) + " channels is more than the format counts"@);
        return Err(Error::Export { reason });
    }
    let count = channels.len() as u32;
    let data_ptr = META_PTR + count * CHAN_LEN as u32;
    let mut head_bytes = head(session, count, data_ptr);
    out.append(&mut head_bytes);
    let mut event_bytes = event(session);
    out.append(&mut event_bytes);
    append_headers(out, session, len, data_ptr);
    let ghost with_headers = out@;
    append_samples(out, channels);
    assert(out@ =~= old(out)@ + ld_file(s)) by {
        reveal(ld_file);
    }
    Ok(())
}

} // verus!
