//! Reader for `candump` log files — the format `candump -l` writes and
//! `canplayer` reads back, so a session captured on the car can be decoded
//! again on the pit wall:
//!
//! ```text
//! (1690000000.123456) can0 123#DEADBEEF
//! (1690000000.124011) can0 18FEEE00#0102030405060708
//! (1690000000.124388) can0 123##1DEADBEEFCAFEBABE0011223344556677
//! ```
//!
//! Three-digit identifiers are standard and eight-digit ones extended, as
//! can-utils writes them. `##` introduces a CAN FD frame whose first hex
//! digit is its flags, and a trailing `_<dlc>` is the data length code of a
//! classic frame that declares more than the eight bytes it carries. Remote
//! frames (`123#R`), error frames (bit 29 of the identifier set), and blank
//! lines carry no signals and are skipped. A line that does not parse is
//! reported with its line number and reading carries on with the next, so one
//! corrupt record cannot hide the rest of a session.
//!
//! [`LogReader`] counts lines and turns each into at most one frame; whoever
//! holds the log hands it the lines one at a time.

use vstd::prelude::*;

use crate::error::{error_text, Error};
use crate::frame::{dlc_fits, dlc_to_len, len_dlc, len_to_dlc, CanFrame, CanId, MAX_FRAME_LEN};
use crate::text::{
    all_digits, append_decimal, chars_of, decimal, pow10, digit_of, digit_value, digits_value, is_ws,
    is_whitespace, next_token, parse_uint, parse_unsigned, push_char, push_str, split_at_char,
    split_once, string_of, token_at, token_vec, trim_end_at, trim_end_char, without_trailing,
};

verus! {

const ERROR_FRAME_FLAG: u32 = 0x2000_0000;

/// What a log line describes: a frame's identifier, payload, data length
/// code and capture time.
pub struct LoggedFrame {
    pub id: CanId,
    pub payload: Seq<u8>,
    pub dlc: Option<u8>,
    pub timestamp_us: u64,
}

/// The description of a frame.
pub open spec fn logged(f: CanFrame) -> LoggedFrame {
    LoggedFrame {
        id: f.spec_id(),
        payload: f.payload(),
        dlc: f.spec_dlc(),
        timestamp_us: f.spec_timestamp(),
    }
}

/// The first index of the run of non-whitespace characters that ends at `j`.
pub open spec fn word_start(s: Seq<char>, j: int) -> int
    decreases j,
{
    if 0 < j <= s.len() && !is_ws(s[j - 1]) {
        word_start(s, j - 1)
    } else {
        j
    }
}

/// The last whitespace-separated token of `s`, as the range it occupies.
pub open spec fn last_token(s: Seq<char>) -> Option<(int, int)> {
    let e = trim_end_at(s, s.len() as int);
    if e <= 0 {
        None
    } else {
        Some((word_start(s, e), e))
    }
}

/// The six digits of microseconds a fraction of a second stands for: its
/// first six digits, padded on the right with zeros.
pub open spec fn six_digits(fraction: Seq<char>) -> Seq<char> {
    Seq::new(
        6,
        |i: int|
            if i < fraction.len() {
                fraction[i]
            } else {
                '0'
            },
    )
}

/// `<seconds>.<fraction>` in microseconds, or the message that refuses it.
pub open spec fn spec_timestamp(text: Seq<char>) -> Result<u64, Seq<char>> {
    let (seconds, fraction) = match split_once(text, '.') {
        Some(p) => p,
        None => (text, Seq::empty()),
    };
    let refused = "`("@ + text + ")` is not a timestamp"@;
    match parse_unsigned(seconds, 10, 0xFFFF_FFFF_FFFF_FFFF) {
        None => Err(refused),
        Some(secs) => if !all_digits(fraction, 10) {
            Err(refused)
        } else {
            let us = secs * 1_000_000 + digits_value(six_digits(fraction), 10);
            if us > 0xFFFF_FFFF_FFFF_FFFF {
                Err("timestamp "@ + text + " overflows"@)
            } else {
                Ok(us as u64)
            }
        },
    }
}

/// The bytes that pairs of hexadecimal digits spell.
pub open spec fn hex_bytes(hex: Seq<char>) -> Seq<u8> {
    Seq::new(
        hex.len() / 2,
        |i: int|
            (digit_value(hex[2 * i], 16)->0 * 16 + digit_value(hex[2 * i + 1], 16)->0) as u8,
    )
}

/// A payload written as hexadecimal digits, two to a byte.
pub open spec fn spec_hex(hex: Seq<char>) -> Result<Seq<u8>, Seq<char>> {
    if !all_digits(hex, 16) {
        Err("data `"@ + hex + "` is not hexadecimal"@)
    } else if hex.len() % 2 != 0 {
        Err("data `"@ + hex + "` has an odd number of hex digits"@)
    } else if hex.len() > 2 * 64 {
        Err(
            "data of "@ + decimal(hex.len() / 2) + " bytes exceeds the CAN FD maximum of 64"@,
        )
    } else {
        Ok(hex_bytes(hex))
    }
}

/// An identifier in hexadecimal: up to three digits are a standard
/// identifier and more are extended; `None` is an error frame.
pub open spec fn spec_log_id(hex: Seq<char>) -> Result<Option<CanId>, Seq<char>> {
    match parse_unsigned(hex, 16, 0xFFFF_FFFF) {
        None => Err("`"@ + hex + "` is not a hexadecimal identifier"@),
        Some(raw) => if hex.len() <= 3 {
            if raw <= 0x7FF {
                Ok(Some(CanId::Standard(raw as u16)))
            } else {
                Err(
                    error_text(
                        Error::InvalidId {
                            raw: raw as u32,
                            reason: "exceeds the 11-bit standard identifier range",
                        },
                    ),
                )
            }
        } else if (raw as u32) & 0x2000_0000 != 0 {
            Ok(None)
        } else if raw <= 0x1FFF_FFFF {
            Ok(Some(CanId::Extended(raw as u32)))
        } else {
            Err(
                error_text(
                    Error::InvalidId {
                        raw: raw as u32,
                        reason: "exceeds the 29-bit extended identifier range",
                    },
                ),
            )
        },
    }
}

/// The single hexadecimal data length code after `_`.
pub open spec fn spec_dlc_code(hex: Seq<char>) -> Result<u8, Seq<char>> {
    match parse_unsigned(hex, 16, 0xFF) {
        Some(d) => if d <= 15 {
            Ok(d as u8)
        } else {
            Err("`_"@ + hex + "` is not a data length code"@)
        },
        None => Err("`_"@ + hex + "` is not a data length code"@),
    }
}

/// `<flags><data>` of a CAN FD frame.
pub open spec fn spec_fd(id: CanId, text: Seq<char>, ts: u64) -> Result<
    Option<LoggedFrame>,
    Seq<char>,
> {
    if text.len() == 0 || digit_value(text[0], 16) is None {
        Err("CAN FD frame has no flags digit after `##`"@)
    } else {
        match spec_hex(text.skip(1)) {
            Err(e) => Err(e),
            Ok(data) => if len_dlc(data.len() as usize) is None {
                Err("no CAN FD frame carries "@ + decimal(data.len()) + " byte(s)"@)
            } else {
                Ok(
                    Some(
                        LoggedFrame {
                            id,
                            payload: data,
                            dlc: len_dlc(data.len() as usize),
                            timestamp_us: ts,
                        },
                    ),
                )
            },
        }
    }
}

/// `<data>` or `<data>_<dlc>` of a classic frame.
pub open spec fn spec_classic(id: CanId, text: Seq<char>, ts: u64) -> Result<
    Option<LoggedFrame>,
    Seq<char>,
> {
    match split_once(text, '_') {
        None => match spec_hex(text) {
            Err(e) => Err(e),
            Ok(data) => Ok(
                Some(
                    LoggedFrame {
                        id,
                        payload: data,
                        dlc: len_dlc(data.len() as usize),
                        timestamp_us: ts,
                    },
                ),
            ),
        },
        Some((data_hex, dlc_hex)) => match spec_hex(data_hex) {
            Err(e) => Err(e),
            Ok(data) => match spec_dlc_code(dlc_hex) {
                Err(e) => Err(e),
                Ok(dlc) => if dlc_fits(dlc, data.len() as usize) {
                    Ok(Some(LoggedFrame { id, payload: data, dlc: Some(dlc), timestamp_us: ts }))
                } else {
                    Err(error_text(Error::DlcMismatch { dlc, len: data.len() as usize }))
                },
            },
        },
    }
}

/// `<id>#<data>`, `<id>#<data>_<dlc>`, `<id>#R[<dlc>]`, or
/// `<id>##<flags><data>`.
pub open spec fn spec_frame(token: Seq<char>, ts: u64) -> Result<Option<LoggedFrame>, Seq<char>> {
    match split_once(token, '#') {
        None => Err("expected `<id>#<data>`, found `"@ + token + "`"@),
        Some((id_hex, rest)) => match spec_log_id(id_hex) {
            Err(e) => Err(e),
            Ok(None) => Ok(None),
            Ok(Some(id)) => if rest.len() > 0 && rest[0] == '#' {
                spec_fd(id, rest.skip(1), ts)
            } else if rest.len() > 0 && rest[0] == 'R' {
                Ok(None)
            } else {
                spec_classic(id, rest, ts)
            },
        },
    }
}

/// What one log line holds: the frame that is its last token, stamped with
/// the time in a leading `(...)` token or else zero; `None` for a line with
/// no data frame on it; or the message that says what is wrong.
#[verifier::opaque]
pub open spec fn spec_log_line(s: Seq<char>) -> Result<Option<LoggedFrame>, Seq<char>> {
    match last_token(s) {
        None => Ok(None),
        Some((la, lb)) => match token_at(s, 0) {
            None => Ok(None),
            Some((fa, fb)) => {
                let first = s.subrange(fa, fb);
                let ts = if first.len() > 0 && first[0] == '(' {
                    spec_timestamp(trim_end_char(first.skip(1), ')'))
                } else {
                    Ok(0u64)
                };
                match ts {
                    Err(e) => Err(e),
                    Ok(t) => spec_frame(s.subrange(la, lb), t),
                }
            },
        },
    }
}

proof fn lemma_word_start_bounds(s: Seq<char>, j: int)
    requires
        0 <= j <= s.len(),
    ensures
        0 <= word_start(s, j) <= j,
        forall|k: int| word_start(s, j) <= k < j ==> !is_ws(#[trigger] s[k]),
    decreases j,
{
    if 0 < j && !is_ws(s[j - 1]) {
        lemma_word_start_bounds(s, j - 1);
    }
}

proof fn lemma_trim_end_at_bounds(s: Seq<char>, j: int)
    requires
        0 <= j <= s.len(),
    ensures
        0 <= trim_end_at(s, j) <= j,
        trim_end_at(s, j) > 0 ==> !is_ws(s[trim_end_at(s, j) - 1]),
    decreases j,
{
    if 0 < j && is_ws(s[j - 1]) {
        lemma_trim_end_at_bounds(s, j - 1);
    }
}

/// The range of the last whitespace-separated token.
fn find_last_token(s: &[char]) -> (r: Option<(usize, usize)>)
    ensures
        match r {
            Some((a, b)) => last_token(s@) == Some((a as int, b as int)) && a < b <= s@.len(),
            None => last_token(s@) is None,
        },
{
    let mut e = s.len();
    while e > 0 && is_whitespace(s[e - 1])
        invariant
            e <= s@.len(),
            trim_end_at(s@, s@.len() as int) == trim_end_at(s@, e as int),
        decreases e,
    {
        e = e - 1;
    }
    assert(trim_end_at(s@, e as int) == e);
    if e == 0 {
        return None;
    }
    let mut a = e;
    while a > 0 && !is_whitespace(s[a - 1])
        invariant
            a <= e <= s@.len(),
            word_start(s@, e as int) == word_start(s@, a as int),
        decreases a,
    {
        a = a - 1;
    }
    assert(word_start(s@, a as int) == a);
    proof {
        lemma_trim_end_at_bounds(s@, s@.len() as int);
    }
    Some((a, e))
}

fn text_message(parts_before: &str, middle: &[char], parts_after: &str) -> (m: String)
    ensures
        m@ == parts_before@ + middle@ + parts_after@,
{
    let mut m = String::new();
    push_str(&mut m, parts_before);
    let t = string_of(middle);
    push_str(&mut m, t.as_str());
    push_str(&mut m, parts_after);
    assert(m@ =~= parts_before@ + middle@ + parts_after@);
    m
}

fn fixed_message(text: &str) -> (m: String)
    ensures
        m@ == text@,
{
    let mut m = String::new();
    push_str(&mut m, text);
    assert(m@ =~= text@);
    m
}

/// Whether every character is a digit in base `radix`.
fn all_digits_in(s: &[char], radix: u64) -> (b: bool)
    requires
        radix == 10 || radix == 16,
    ensures
        b == all_digits(s@, radix as nat),
{
    let mut i: usize = 0;
    while i < s.len()
        invariant
            radix == 10 || radix == 16,
            i <= s@.len(),
            forall|j: int| 0 <= j < i ==> (#[trigger] digit_value(s@[j], radix as nat)) is Some,
        decreases s@.len() - i,
    {
        match digit_of(s[i], radix) {
            None => {
                assert(digit_value(s@[i as int], radix as nat) is None);
                return false;
            },
            Some(_) => {},
        }
        i = i + 1;
    }
    true
}

fn micros_of(fraction: &[char]) -> (us: u64)
    requires
        all_digits(fraction@, 10),
    ensures
        us as nat == digits_value(six_digits(fraction@), 10),
        us < 1_000_000,
{
    let ghost p = six_digits(fraction@);
    let mut acc: u64 = 0;
    let mut k: usize = 0;
    assert(p.take(0) =~= Seq::<char>::empty());
    while k < 6
        invariant
            k <= 6,
            p == six_digits(fraction@),
            all_digits(fraction@, 10),
            acc as nat == digits_value(p.take(k as int), 10),
            acc < pow10(k as nat),
        decreases 6 - k,
    {
        let d: u64 = if k < fraction.len() {
            match digit_of(fraction[k], 10) {
                Some(v) => v,
                None => 0,
            }
        } else {
            0
        };
        proof {
            assert(p.take(k + 1).drop_last() =~= p.take(k as int));
            assert(p.take(k + 1).last() == p[k as int]);
            if k < fraction@.len() {
                assert(digit_value(fraction@[k as int], 10) is Some);
            }
            assert(pow10(k as nat) <= 100_000) by {
                reveal_with_fuel(pow10, 7);
            }
        }
        acc = acc * 10 + d;
        k = k + 1;
    }
    assert(p.take(6) =~= p);
    proof {
        reveal_with_fuel(pow10, 7);
    }
    acc
}

/// `<seconds>.<fraction>` to microseconds. The fraction is six digits from
/// can-utils, but what is there is taken.
fn parse_timestamp(text: &[char]) -> (r: Result<u64, String>)
    ensures
        match r {
            Ok(us) => spec_timestamp(text@) == Ok::<u64, Seq<char>>(us),
            Err(m) => spec_timestamp(text@) == Err::<u64, Seq<char>>(m@),
        },
{
    let (seconds, fraction) = match split_at_char(text, '.') {
        Some(p) => p,
        None => {
            let n = text.len();
            (token_vec(text, 0, n), Vec::new())
        },
    };
    assert(text@.subrange(0, text@.len() as int) =~= text@);
    assert(fraction@ == match split_once(text@, '.') {
        Some(p) => p.1,
        None => Seq::<char>::empty(),
    });
    let secs = match parse_uint(seconds.as_slice(), 10, 0xFFFF_FFFF_FFFF_FFFF) {
        None => return Err(text_message("`(", text, ")` is not a timestamp")),
        Some(v) => v,
    };
    if !all_digits_in(fraction.as_slice(), 10) {
        return Err(text_message("`(", text, ")` is not a timestamp"));
    }
    let micros = micros_of(fraction.as_slice());
    match secs.checked_mul(1_000_000) {
        None => Err(text_message("timestamp ", text, " overflows")),
        Some(us) => match us.checked_add(micros) {
            None => Err(text_message("timestamp ", text, " overflows")),
            Some(t) => Ok(t),
        },
    }
}

fn hex_digit(c: char) -> (d: u8)
    requires
        digit_value(c, 16) is Some,
    ensures
        d as nat == digit_value(c, 16)->0,
        d < 16,
{
    match digit_of(c, 16) {
        Some(v) => v as u8,
        None => 0,
    }
}

/// Hexadecimal digits, two to a byte.
fn parse_hex(hex: &[char]) -> (r: Result<Vec<u8>, String>)
    ensures
        match r {
            Ok(v) => spec_hex(hex@) == Ok::<Seq<u8>, Seq<char>>(v@) && v@.len() <= MAX_FRAME_LEN,
            Err(m) => spec_hex(hex@) == Err::<Seq<u8>, Seq<char>>(m@),
        },
{
    if !all_digits_in(hex, 16) {
        return Err(text_message("data `", hex, "` is not hexadecimal"));
    }
    if hex.len() % 2 != 0 {
        return Err(text_message("data `", hex, "` has an odd number of hex digits"));
    }
    if hex.len() > 2 * MAX_FRAME_LEN {
        let mut m = fixed_message("data of ");
        append_decimal(&mut m, (hex.len() / 2) as u64);
        push_str(&mut m, " bytes exceeds the CAN FD maximum of 64");
        return Err(m);
    }
    let n = hex.len() / 2;
    let mut out: Vec<u8> = Vec::new();
    let mut k: usize = 0;
    while k < n
        invariant
            n == hex@.len() / 2,
            hex@.len() % 2 == 0,
            hex@.len() <= 128,
            all_digits(hex@, 16),
            k <= n,
            out@.len() == k,
            forall|j: int| 0 <= j < k ==> out@[j] == #[trigger] hex_bytes(hex@)[j],
        decreases n - k,
    {
        assert(digit_value(hex@[2 * k as int], 16) is Some);
        assert(digit_value(hex@[2 * k + 1], 16) is Some);
        let hi = hex_digit(hex[2 * k]);
        let lo = hex_digit(hex[2 * k + 1]);
        out.push(hi * 16 + lo);
        k = k + 1;
    }
    assert(out@ =~= hex_bytes(hex@));
    Ok(out)
}

/// The value of digits in base 16 is below 16 to the power of their count.
proof fn lemma_hex_value_bound(s: Seq<char>)
    requires
        all_digits(s, 16),
    ensures
        digits_value(s, 16) < pow16(s.len()),
    decreases s.len(),
{
    if s.len() > 0 {
        assert(all_digits(s.drop_last(), 16)) by {
            assert forall|i: int| 0 <= i < s.drop_last().len() implies (#[trigger] digit_value(
                s.drop_last()[i],
                16,
            )) is Some by {
                assert(s.drop_last()[i] == s[i]);
            }
        }
        lemma_hex_value_bound(s.drop_last());
        assert(digit_value(s[s.len() - 1], 16) is Some);
    }
}

/// Sixteen to the power `k`.
pub open spec fn pow16(k: nat) -> nat
    decreases k,
{
    if k == 0 {
        1
    } else {
        16 * pow16((k - 1) as nat)
    }
}

/// A hexadecimal number of at most three characters is below `0x1000`.
proof fn lemma_short_hex(hex: Seq<char>)
    requires
        hex.len() <= 3,
        parse_unsigned(hex, 16, 0xFFFF_FFFF) is Some,
    ensures
        parse_unsigned(hex, 16, 0xFFFF_FFFF)->0 < 0x1000,
{
    let d = if hex.len() > 0 && hex[0] == '+' {
        hex.skip(1)
    } else {
        hex
    };
    lemma_hex_value_bound(d);
    assert(pow16(d.len()) <= 0x1000) by {
        reveal_with_fuel(pow16, 4);
    }
}

/// The identifier before `#`.
fn parse_id(hex: &[char]) -> (r: Result<Option<CanId>, String>)
    ensures
        match r {
            Ok(id) => spec_log_id(hex@) == Ok::<Option<CanId>, Seq<char>>(id),
            Err(m) => spec_log_id(hex@) == Err::<Option<CanId>, Seq<char>>(m@),
        },
{
    let raw = match parse_uint(hex, 16, 0xFFFF_FFFF) {
        None => return Err(text_message("`", hex, "` is not a hexadecimal identifier")),
        Some(v) => v as u32,
    };
    if hex.len() <= 3 {
        proof {
            lemma_short_hex(hex@);
        }
        return match CanId::standard(raw as u16) {
            Ok(id) => Ok(Some(id)),
            Err(e) => Err(e.describe()),
        };
    }
    if raw & ERROR_FRAME_FLAG != 0 {
        return Ok(None);
    }
    match CanId::extended(raw) {
        Ok(id) => Ok(Some(id)),
        Err(e) => Err(e.describe()),
    }
}

/// `<flags><data>` of a CAN FD frame.
fn fd_frame(id: CanId, text: &[char], ts: u64) -> (r: Result<Option<CanFrame>, String>)
    ensures
        match r {
            Ok(Some(f)) => spec_fd(id, text@, ts) == Ok::<Option<LoggedFrame>, Seq<char>>(
                Some(logged(f)),
            ),
            Ok(None) => spec_fd(id, text@, ts) == Ok::<Option<LoggedFrame>, Seq<char>>(None),
            Err(m) => spec_fd(id, text@, ts) == Err::<Option<LoggedFrame>, Seq<char>>(m@),
        },
{
    if text.len() == 0 || digit_of(text[0], 16).is_none() {
        return Err(fixed_message("CAN FD frame has no flags digit after `##`"));
    }
    let n = text.len();
    let rest = token_vec(text, 1, n);
    assert(rest@ =~= text@.skip(1));
    let data = match parse_hex(rest.as_slice()) {
        Err(m) => return Err(m),
        Ok(d) => d,
    };
    if len_to_dlc(data.len()).is_none() {
        let mut m = fixed_message("no CAN FD frame carries ");
        append_decimal(&mut m, data.len() as u64);
        push_str(&mut m, " byte(s)");
        return Err(m);
    }
    match CanFrame::new(id, data.as_slice(), ts) {
        Ok(f) => {
            assert(logged(f) == LoggedFrame {
                id,
                payload: data@,
                dlc: len_dlc(data@.len() as usize),
                timestamp_us: ts,
            });
            Ok(Some(f))
        },
        Err(e) => Err(e.describe()),
    }
}

/// The single hex digit after `_`.
fn parse_dlc(hex: &[char]) -> (r: Result<u8, String>)
    ensures
        match r {
            Ok(d) => spec_dlc_code(hex@) == Ok::<u8, Seq<char>>(d),
            Err(m) => spec_dlc_code(hex@) == Err::<u8, Seq<char>>(m@),
        },
{
    match parse_uint(hex, 16, 0xFF) {
        Some(d) => {
            if dlc_to_len(d as u8).is_some() {
                Ok(d as u8)
            } else {
                Err(text_message("`_", hex, "` is not a data length code"))
            }
        },
        None => Err(text_message("`_", hex, "` is not a data length code")),
    }
}

/// `<data>`, or `<data>_<dlc>` for a classic frame whose data length code
/// says more than the eight bytes it carries.
fn classic_frame(id: CanId, text: &[char], ts: u64) -> (r: Result<Option<CanFrame>, String>)
    ensures
        match r {
            Ok(Some(f)) => spec_classic(id, text@, ts) == Ok::<Option<LoggedFrame>, Seq<char>>(
                Some(logged(f)),
            ),
            Ok(None) => spec_classic(id, text@, ts) == Ok::<Option<LoggedFrame>, Seq<char>>(None),
            Err(m) => spec_classic(id, text@, ts) == Err::<Option<LoggedFrame>, Seq<char>>(m@),
        },
{
    match split_at_char(text, '_') {
        None => {
            let data = match parse_hex(text) {
                Err(m) => return Err(m),
                Ok(d) => d,
            };
            match CanFrame::new(id, data.as_slice(), ts) {
                Ok(f) => {
                    assert(logged(f) == LoggedFrame {
                        id,
                        payload: data@,
                        dlc: len_dlc(data@.len() as usize),
                        timestamp_us: ts,
                    });
                    Ok(Some(f))
                },
                Err(e) => Err(e.describe()),
            }
        },
        Some((data_hex, dlc_hex)) => {
            let data = match parse_hex(data_hex.as_slice()) {
                Err(m) => return Err(m),
                Ok(d) => d,
            };
            let dlc = match parse_dlc(dlc_hex.as_slice()) {
                Err(m) => return Err(m),
                Ok(d) => d,
            };
            match CanFrame::with_dlc(id, data.as_slice(), ts, dlc) {
                Ok(f) => {
                    assert(logged(f) == LoggedFrame {
                        id,
                        payload: data@,
                        dlc: Some(dlc),
                        timestamp_us: ts,
                    });
                    Ok(Some(f))
                },
                Err(e) => Err(e.describe()),
            }
        },
    }
}

/// `<id>#<data>`, `<id>#<data>_<dlc>`, `<id>#R[<dlc>]`, or
/// `<id>##<flags><data>`.
fn parse_frame(token: &[char], ts: u64) -> (r: Result<Option<CanFrame>, String>)
    ensures
        match r {
            Ok(Some(f)) => spec_frame(token@, ts) == Ok::<Option<LoggedFrame>, Seq<char>>(
                Some(logged(f)),
            ),
            Ok(None) => spec_frame(token@, ts) == Ok::<Option<LoggedFrame>, Seq<char>>(None),
            Err(m) => spec_frame(token@, ts) == Err::<Option<LoggedFrame>, Seq<char>>(m@),
        },
{
    let (id_hex, rest) = match split_at_char(token, '#') {
        None => return Err(text_message("expected `<id>#<data>`, found `", token, "`")),
        Some(p) => p,
    };
    let id = match parse_id(id_hex.as_slice()) {
        Err(m) => return Err(m),
        Ok(None) => return Ok(None),
        Ok(Some(id)) => id,
    };
    if rest.len() > 0 && rest[0] == '#' {
        let n = rest.len();
        let fd = token_vec(rest.as_slice(), 1, n);
        assert(fd@ =~= rest@.skip(1));
        fd_frame(id, fd.as_slice(), ts)
    } else if rest.len() > 0 && rest[0] == 'R' {
        Ok(None)
    } else {
        classic_frame(id, rest.as_slice(), ts)
    }
}

/// Parse one log line. `Ok(None)` is a line with no data frame on it.
///
/// The frame is the last whitespace-separated token; a leading `(...)` is
/// the timestamp. The interface name between them is not kept. A bare
/// `123#DEADBEEF` with neither is accepted too, with a zero timestamp,
/// since that is what people type by hand.
pub fn parse_line(line: &str, line_no: usize) -> (res: Result<Option<CanFrame>, Error>)
    ensures
        match res {
            Ok(Some(f)) => spec_log_line(line@) == Ok::<Option<LoggedFrame>, Seq<char>>(
                Some(logged(f)),
            ),
            Ok(None) => spec_log_line(line@) == Ok::<Option<LoggedFrame>, Seq<char>>(None),
            Err(e) => spec_log_line(line@) matches Err(m) && e matches Error::CandumpParse {
                line: l,
                message,
            } && l == line_no && message@ == m,
        },
{
    reveal(spec_log_line);
    let s = chars_of(line);
    let (la, lb) = match find_last_token(s.as_slice()) {
        None => return Ok(None),
        Some(t) => t,
    };
    let (fa, fb) = match next_token(s.as_slice(), 0) {
        None => return Ok(None),
        Some(t) => t,
    };
    let first = token_vec(s.as_slice(), fa, fb);
    let ts: u64 = if first.len() > 0 && first[0] == '(' {
        let n = first.len();
        let inner = token_vec(first.as_slice(), 1, n);
        assert(inner@ =~= first@.skip(1));
        let stamp = without_trailing(inner.as_slice(), ')');
        match parse_timestamp(stamp.as_slice()) {
            Err(m) => return Err(Error::CandumpParse { line: line_no, message: m }),
            Ok(t) => t,
        }
    } else {
        0
    };
    let last = token_vec(s.as_slice(), la, lb);
    match parse_frame(last.as_slice(), ts) {
        Err(m) => Err(Error::CandumpParse { line: line_no, message: m }),
        Ok(f) => Ok(f),
    }
}

/// What reading `lines` yields when the line before them is numbered
/// `first`: the frame of each line that holds one, and the error of each
/// malformed line with its number, in line order; lines with no data frame
/// yield nothing.
pub open spec fn log_items(lines: Seq<Seq<char>>, first: nat) -> Seq<Result<LoggedFrame, (nat, Seq<char>)>>
    decreases lines.len(),
{
    if lines.len() == 0 {
        Seq::empty()
    } else {
        let before = log_items(lines.drop_last(), first);
        match spec_log_line(lines.last()) {
            Ok(Some(f)) => before.push(Ok(f)),
            Ok(None) => before,
            Err(m) => before.push(Err(((first + lines.len()) as nat, m))),
        }
    }
}

/// A reading result as a frame, or a line number with its message.
pub open spec fn log_item(r: Result<CanFrame, Error>) -> Result<LoggedFrame, (nat, Seq<char>)> {
    match r {
        Ok(f) => Ok(logged(f)),
        Err(Error::CandumpParse { line, message }) => Err((line as nat, message@)),
        Err(_) => Err((0, Seq::empty())),
    }
}

/// The characters of each line.
pub open spec fn line_texts(lines: Seq<String>) -> Seq<Seq<char>> {
    lines.map_values(|l: String| l@)
}

/// Reads the data frames of a `candump` log, one line at a time, keeping
/// count of the lines so that a malformed one is reported by number.
pub struct LogReader {
    line_no: usize,
}

impl LogReader {
    /// How many lines have been read.
    pub closed spec fn lines_read(&self) -> nat {
        self.line_no as nat
    }

    /// A reader at the start of a log.
    pub fn new() -> (r: LogReader)
        ensures
            r.lines_read() == 0,
    {
        LogReader { line_no: 0 }
    }

    /// How many lines have been read.
    pub fn line_no(&self) -> (n: usize)
        ensures
            n as nat == self.lines_read(),
    {
        self.line_no
    }

    /// Read every line of `lines`, in order, numbering them on from the
    /// lines read before: the frames, and each malformed line's error, in
    /// line order.
    pub fn read_lines(&mut self, lines: &[String]) -> (out: Vec<Result<CanFrame, Error>>)
        requires
            old(self).lines_read() + lines@.len() < usize::MAX,
        ensures
            final(self).lines_read() == old(self).lines_read() + lines@.len(),
            out@.map_values(|r: Result<CanFrame, Error>| log_item(r)) == log_items(
                line_texts(lines@),
                old(self).lines_read(),
            ),
    {
        let mut out: Vec<Result<CanFrame, Error>> = Vec::new();
        let ghost start = self.lines_read();
        let mut i: usize = 0;
        while i < lines.len()
            invariant
                i <= lines@.len(),
                start + lines@.len() < usize::MAX,
                self.lines_read() == start + i,
                out@.map_values(|r: Result<CanFrame, Error>| log_item(r)) == log_items(
                    line_texts(lines@.take(i as int)),
                    start,
                ),
            decreases lines@.len() - i,
        {
            let ghost before = out@;
            let r = self.next_line(lines[i].as_str());
            proof {
                assert(line_texts(lines@.take(i + 1)).drop_last() =~= line_texts(lines@.take(i as int)));
                assert(line_texts(lines@.take(i + 1)).last() == lines@[i as int]@);
            }
            match r {
                Some(item) => {
                    out.push(item);
                    assert(out@.map_values(|r: Result<CanFrame, Error>| log_item(r)) =~= before.map_values(
                        |r: Result<CanFrame, Error>| log_item(r),
                    ).push(log_item(item)));
                },
                None => {},
            }
            i = i + 1;
        }
        assert(lines@.take(lines@.len() as int) =~= lines@);
        out
    }

    /// Read the next line of the log: `None` when it holds no data frame,
    /// else the frame or the error that names this line.
    pub fn next_line(&mut self, line: &str) -> (r: Option<Result<CanFrame, Error>>)
        requires
            old(self).lines_read() < usize::MAX,
        ensures
            final(self).lines_read() == old(self).lines_read() + 1,
            match r {
                None => spec_log_line(line@) == Ok::<Option<LoggedFrame>, Seq<char>>(None),
                Some(Ok(f)) => spec_log_line(line@) == Ok::<Option<LoggedFrame>, Seq<char>>(
                    Some(logged(f)),
                ),
                Some(Err(e)) => spec_log_line(line@) matches Err(m) && e matches Error::CandumpParse {
                    line: l,
                    message,
                } && l == final(self).lines_read() && message@ == m,
            },
    {
        self.line_no = self.line_no + 1;
        match parse_line(line, self.line_no) {
            Ok(Some(frame)) => Some(Ok(frame)),
            Ok(None) => None,
            Err(e) => Some(Err(e)),
        }
    }
}

} // verus!
