//! Bit extraction: pulling a signal's raw integer out of a CAN payload.
//!
//! Bit numbering, which is the whole subtlety: byte `n` of the payload holds
//! positions `8n..=8n+7`, and `8n+7` is that byte's most-significant bit.
//! Intel signals name their LSB in `start_bit` and ascend. Motorola signals
//! name their MSB and descend within a byte; on leaving bit 0 they continue
//! at bit 7 of the *next* byte, which is a `+15` jump in absolute position.
//!
//! The executable walk takes that jump one step at a time; the contracts
//! state each position in closed form, so the two formulations are proved
//! to agree.

use vstd::prelude::*;

use crate::dbc::types::{
    fits_unsigned, lemma_fits_high_bits_clear, lemma_words_equal_by_bits, word_bit, ByteOrder, Signal,
};
use crate::error::Error;

verus! {

/// Absolute position of the `k`-th bit a Motorola walk from `start` visits.
///
/// Counting `q` bits from the MSB of the start byte, the walk is in byte
/// `start / 8 + q / 8` at bit `7 - q % 8`.
pub open spec fn motorola_pos(start: int, k: int) -> int {
    let q = 7 - start % 8 + k;
    8 * (start / 8 + q / 8) + 7 - q % 8
}

/// Absolute payload position of bit `i` (0 = least significant) of the raw
/// value of a signal with the given layout.
pub open spec fn bit_pos(order: ByteOrder, start: int, length: int, i: int) -> int {
    match order {
        ByteOrder::Intel => start + i,
        ByteOrder::Motorola => motorola_pos(start, length - 1 - i),
    }
}

/// Which bit of the raw value lands at payload position `p`; in
/// `0..length` exactly when the signal covers `p`.
pub open spec fn bit_index(order: ByteOrder, start: int, length: int, p: int) -> int {
    match order {
        ByteOrder::Intel => p - start,
        ByteOrder::Motorola => length - 1 - (8 * (p / 8 - start / 8) + start % 8 - p % 8),
    }
}

/// Payload position of bit `i` of `signal`'s raw value.
pub open spec fn signal_bit_pos(signal: &Signal, i: int) -> int {
    bit_pos(signal.byte_order, signal.start_bit as int, signal.length as int, i)
}

/// Which bit of `signal`'s raw value sits at payload position `p`.
pub open spec fn signal_bit_index(signal: &Signal, p: int) -> int {
    bit_index(signal.byte_order, signal.start_bit as int, signal.length as int, p)
}

/// Whether `signal` occupies payload position `p`.
pub open spec fn covers(signal: &Signal, p: int) -> bool {
    0 <= signal_bit_index(signal, p) < signal.length
}

/// Bytes a signal needs: one more than the index of the highest byte its
/// bits occupy. That byte holds the Intel MSB, or the Motorola LSB, the last
/// bit of the walk.
pub open spec fn required_len(signal: &Signal) -> int {
    let top = match signal.byte_order {
        ByteOrder::Intel => signal.length - 1,
        ByteOrder::Motorola => 0,
    };
    signal_bit_pos(signal, top) / 8 + 1
}

/// The bit at payload position `pos`, as 0 or 1.
pub open spec fn payload_bit(data: Seq<u8>, pos: int) -> u64 {
    ((data[pos / 8] >> ((pos % 8) as u8)) & 1) as u64
}

/// Whether `raw` is what `signal` reads from `data`: bit `i` of `raw` is the
/// payload bit at the signal's `i`-th position, and `raw` has no bits above
/// the signal's width.
pub open spec fn extracted(data: Seq<u8>, signal: &Signal, raw: u64) -> bool {
    &&& fits_unsigned(raw, signal.length as int)
    &&& forall|i: int|
        0 <= i < signal.length ==> #[trigger] word_bit(raw, i) == payload_bit(
            data,
            signal_bit_pos(signal, i),
        )
}

/// A signal reads one value from a payload: two values that both match
/// what the signal's bits hold are equal.
pub proof fn lemma_extracted_unique(data: Seq<u8>, signal: &Signal, a: u64, b: u64)
    requires
        signal.well_formed(),
        extracted(data, signal, a),
        extracted(data, signal, b),
    ensures
        a == b,
{
    assert forall|i: int| 0 <= i < 64 implies #[trigger] word_bit(a, i) == word_bit(b, i) by {
        if i < signal.length {
            assert(word_bit(a, i) == payload_bit(data, signal_bit_pos(signal, i)));
            assert(word_bit(b, i) == payload_bit(data, signal_bit_pos(signal, i)));
        } else {
            lemma_fits_high_bits_clear(a, signal.length as int, i);
            lemma_fits_high_bits_clear(b, signal.length as int, i);
        }
    }
    lemma_words_equal_by_bits(a, b);
}

/// Each bit of a signal sits at a position between the start byte and the
/// last byte the signal needs, and position and bit index are inverses.
pub proof fn lemma_bit_pos_in_span(signal: &Signal, i: int)
    requires
        signal.well_formed(),
        0 <= i < signal.length,
    ensures
        0 <= signal_bit_pos(signal, i),
        signal_bit_pos(signal, i) / 8 < required_len(signal),
        signal.start_bit as int / 8 <= signal_bit_pos(signal, i) / 8,
        signal_bit_pos(signal, i) < 0x10000 + 0x50,
        signal_bit_index(signal, signal_bit_pos(signal, i)) == i,
{
    let start = signal.start_bit as int;
    let len = signal.length as int;
    match signal.byte_order {
        ByteOrder::Intel => {
            assert(signal_bit_pos(signal, i) == start + i);
        },
        ByteOrder::Motorola => {
            let k = len - 1 - i;
            let q = 7 - start % 8 + k;
            let top = 7 - start % 8 + len - 1;
            assert(signal_bit_pos(signal, i) == 8 * (start / 8 + q / 8) + 7 - q % 8);
            assert(signal_bit_pos(signal, 0) == 8 * (start / 8 + top / 8) + 7 - top % 8);
            assert(q / 8 <= top / 8);
            assert(0 <= q % 8 < 8);
        },
    }
}

/// A position a signal covers is the position of its bit index.
pub proof fn lemma_covered_pos(signal: &Signal, p: int)
    requires
        signal.well_formed(),
        0 <= p,
        covers(signal, p),
    ensures
        signal_bit_pos(signal, signal_bit_index(signal, p)) == p,
{
}

/// Distinct bits of a signal occupy distinct positions.
pub proof fn lemma_bit_pos_injective(signal: &Signal, i: int, j: int)
    requires
        signal.well_formed(),
        0 <= i < signal.length,
        0 <= j < signal.length,
        i != j,
    ensures
        signal_bit_pos(signal, i) != signal_bit_pos(signal, j),
{
    lemma_bit_pos_in_span(signal, i);
    lemma_bit_pos_in_span(signal, j);
}

/// How many payload bytes a signal needs in order to decode.
///
/// Split by byte order because the two walks run in opposite directions
/// from the same `start_bit` and so touch different byte spans.
pub fn required_bytes(signal: &Signal) -> (r: usize)
    requires
        signal.well_formed(),
    ensures
        r == required_len(signal),
        forall|i: int|
            0 <= i < signal.length ==> #[trigger] signal_bit_pos(signal, i) / 8 < r,
{
    let start = signal.start_bit as usize;
    let length = signal.length as usize;
    proof {
        assert forall|i: int| 0 <= i < signal.length implies #[trigger] signal_bit_pos(signal, i)
            / 8 < required_len(signal) by {
            lemma_bit_pos_in_span(signal, i);
        }
    }
    match signal.byte_order {
        ByteOrder::Intel => (start + length - 1) / 8 + 1,
        ByteOrder::Motorola => {
            let bits_in_first_byte = (start % 8) + 1;
            let remaining = if length > bits_in_first_byte {
                length - bits_in_first_byte
            } else {
                0
            };
            start / 8 + (remaining + 7) / 8 + 1
        },
    }
}

/// Extract a signal's raw, unscaled integer from a payload.
///
/// Returns [`Error::SignalOutOfBounds`] if the payload is shorter than the
/// signal needs: a DBC's declared DLC can exceed what a given frame carried.
pub fn extract_raw(data: &[u8], signal: &Signal) -> (res: Result<u64, Error>)
    requires
        signal.well_formed(),
    ensures
        required_len(signal) > data@.len() ==> res == Err::<u64, Error>(
            Error::SignalOutOfBounds {
                signal: signal.name,
                required: required_len(signal) as usize,
                available: data@.len() as usize,
            },
        ),
        required_len(signal) <= data@.len() ==> (res matches Ok(raw) && extracted(
            data@,
            signal,
            raw,
        )),
{
    let required = required_bytes(signal);
    if required > data.len() {
        return Err(
            Error::SignalOutOfBounds {
                signal: signal.name.clone(),
                required,
                available: data.len(),
            },
        );
    }
    let start = signal.start_bit as usize;
    let length = signal.length as usize;
    match signal.byte_order {
        ByteOrder::Intel => extract_intel(data, signal, start, length),
        ByteOrder::Motorola => extract_motorola(data, signal, start, length),
    }
}

/// The position after `pos` in a Motorola walk.
///
/// Shared with the encoder so the two directions cannot drift apart.
pub fn motorola_step(pos: usize) -> (next: usize)
    requires
        pos < 0x10000 + 0x50,
    ensures
        forall|start: int, k: int|
            0 <= start && 0 <= k && pos == #[trigger] motorola_pos(start, k) ==> next
                == motorola_pos(start, k + 1),
{
    // Leaving bit 0: cross to the next byte (+8) and climb to its MSB (+7).
    if pos % 8 == 0 {
        pos + 15
    } else {
        pos - 1
    }
}

/// The payload bit at `pos`.
pub(crate) fn bit_at(data: &[u8], pos: usize) -> (b: u64)
    requires
        pos / 8 < data@.len(),
    ensures
        b == payload_bit(data@, pos as int),
        b <= 1,
{
    let byte = data[pos / 8];
    let shift = (pos % 8) as u8;
    assert((byte >> shift) & 1 <= 1) by (bit_vector);
    ((byte >> shift) & 1) as u64
}

/// Setting bit `i` of a word whose bits from `i` up are clear keeps the lower
/// bits and clears everything above.
pub(crate) proof fn lemma_set_top_bit(raw: u64, b: u64, i: u64, j: u64)
    requires
        i < 64,
        b <= 1,
        raw >> i == 0,
    ensures
        j < i ==> ((raw | (b << i)) >> j) & 1 == (raw >> j) & 1,
        ((raw | (b << i)) >> i) & 1 == b,
        i + 1 < 64 ==> (raw | (b << i)) >> ((i + 1) as u64) == 0,
{
    assert(i < 64 && b <= 1 && raw >> i == 0 ==> (j < i ==> ((raw | (b << i)) >> j) & 1 == (raw
        >> j) & 1)) by (bit_vector);
    assert(i < 64 && b <= 1 && raw >> i == 0 ==> ((raw | (b << i)) >> i) & 1 == b) by (bit_vector);
    assert(i < 64 && b <= 1 && raw >> i == 0 ==> (i + 1 < 64 ==> (raw | (b << i)) >> ((i + 1) as u64)
        == 0)) by (bit_vector);
}

fn extract_intel(data: &[u8], signal: &Signal, start: usize, length: usize) -> (res: Result<
    u64,
    Error,
>)
    requires
        signal.well_formed(),
        signal.byte_order == ByteOrder::Intel,
        start == signal.start_bit,
        length == signal.length,
        required_len(signal) <= data@.len(),
    ensures
        res matches Ok(raw) && extracted(data@, signal, raw),
{
    let mut raw = 0u64;
    let mut i: usize = 0;
    assert(0u64 >> 0u64 == 0u64) by (bit_vector);
    while i < length
        invariant
            signal.well_formed(),
            signal.byte_order == ByteOrder::Intel,
            start == signal.start_bit,
            length == signal.length,
            required_len(signal) <= data@.len(),
            i <= length,
            fits_unsigned(raw, i as int),
            forall|j: int|
                0 <= j < i ==> #[trigger] word_bit(raw, j) == payload_bit(
                    data@,
                    signal_bit_pos(signal, j),
                ),
        decreases length - i,
    {
        proof {
            lemma_bit_pos_in_span(signal, i as int);
        }
        let b = bit_at(data, start + i);
        let ghost old_raw = raw;
        raw = raw | (b << (i as u64));
        proof {
            assert forall|j: int| 0 <= j < i + 1 implies #[trigger] word_bit(raw, j) == payload_bit(
                data@,
                signal_bit_pos(signal, j),
            ) by {
                lemma_set_top_bit(old_raw, b, i as u64, j as u64);
                if j < i {
                    assert(word_bit(old_raw, j) == payload_bit(data@, signal_bit_pos(signal, j)));
                }
            }
            lemma_set_top_bit(old_raw, b, i as u64, 0);
        }
        i = i + 1;
    }
    Ok(raw)
}

/// Shifting a word left and setting its new low bit moves every bit up by
/// one and keeps the word within one more bit.
pub(crate) proof fn lemma_shift_in_bit(raw: u64, b: u64, n: u64, j: u64)
    requires
        n < 64,
        b <= 1,
        raw >> n == 0,
    ensures
        (((raw << 1u64) | b) >> 0u64) & 1 == b,
        j < n ==> (((raw << 1u64) | b) >> ((j + 1) as u64)) & 1 == (raw >> j) & 1,
        n + 1 < 64 ==> ((raw << 1u64) | b) >> ((n + 1) as u64) == 0,
{
    assert(n < 64 && b <= 1 && raw >> n == 0 ==> (((raw << 1u64) | b) >> 0u64) & 1 == b) by (bit_vector);
    assert(n < 64 && b <= 1 && raw >> n == 0 ==> (j < n ==> (((raw << 1u64) | b) >> ((j + 1) as u64))
        & 1 == (raw >> j) & 1)) by (bit_vector);
    assert(n < 64 && b <= 1 && raw >> n == 0 ==> (n + 1 < 64 ==> ((raw << 1u64) | b) >> ((n + 1) as u64)
        == 0)) by (bit_vector);
}

fn extract_motorola(data: &[u8], signal: &Signal, start: usize, length: usize) -> (res: Result<
    u64,
    Error,
>)
    requires
        signal.well_formed(),
        signal.byte_order == ByteOrder::Motorola,
        start == signal.start_bit,
        length == signal.length,
        required_len(signal) <= data@.len(),
    ensures
        res matches Ok(raw) && extracted(data@, signal, raw),
{
    let mut raw = 0u64;
    let mut pos = start;
    let mut n: usize = 0;
    assert(0u64 >> 0u64 == 0u64) by (bit_vector);
    while n < length
        invariant
            signal.well_formed(),
            signal.byte_order == ByteOrder::Motorola,
            start == signal.start_bit,
            length == signal.length,
            required_len(signal) <= data@.len(),
            n <= length,
            pos == motorola_pos(start as int, n as int),
            fits_unsigned(raw, n as int),
            forall|k: int|
                0 <= k < n ==> #[trigger] word_bit(raw, n - 1 - k) == payload_bit(
                    data@,
                    motorola_pos(start as int, k),
                ),
        decreases length - n,
    {
        proof {
            lemma_bit_pos_in_span(signal, length - 1 - n);
        }
        let b = bit_at(data, pos);
        let ghost old_raw = raw;
        raw = (raw << 1u64) | b;
        proof {
            assert forall|k: int| 0 <= k < n + 1 implies #[trigger] word_bit(raw, n + 1 - 1 - k)
                == payload_bit(data@, motorola_pos(start as int, k)) by {
                if k < n {
                    lemma_shift_in_bit(old_raw, b, n as u64, (n - 1 - k) as u64);
                    assert(word_bit(old_raw, n - 1 - k) == payload_bit(
                        data@,
                        motorola_pos(start as int, k),
                    ));
                } else {
                    lemma_shift_in_bit(old_raw, b, n as u64, 0);
                }
            }
            lemma_shift_in_bit(old_raw, b, n as u64, 0);
        }
        pos = motorola_step(pos);
        n = n + 1;
    }
    proof {
        assert forall|i: int| 0 <= i < signal.length implies #[trigger] word_bit(raw, i)
            == payload_bit(data@, signal_bit_pos(signal, i)) by {
            assert(word_bit(raw, length - 1 - (length - 1 - i)) == payload_bit(
                data@,
                motorola_pos(start as int, length - 1 - i),
            ));
        }
    }
    Ok(raw)
}

/// Payload positions of a signal's bits: entry `i` holds bit `i` of the
/// raw value (least significant first).
pub fn bit_positions(signal: &Signal) -> (r: Vec<usize>)
    requires
        signal.well_formed(),
    ensures
        r@.len() == signal.length,
        forall|i: int| 0 <= i < signal.length ==> r@[i] == #[trigger] signal_bit_pos(signal, i),
{
    let start = signal.start_bit as usize;
    let length = signal.length as usize;
    let mut r: Vec<usize> = Vec::new();
    let mut i: usize = 0;
    while i < length
        invariant
            signal.well_formed(),
            start == signal.start_bit,
            length == signal.length,
            i <= length,
            r@.len() == i,
            forall|j: int| 0 <= j < i ==> r@[j] == #[trigger] signal_bit_pos(signal, j),
        decreases length - i,
    {
        proof {
            lemma_bit_pos_in_span(signal, i as int);
        }
        let pos = match signal.byte_order {
            ByteOrder::Intel => start + i,
            ByteOrder::Motorola => {
                let k = length - 1 - i;
                let q = 7 - start % 8 + k;
                8 * (start / 8 + q / 8) + 7 - q % 8
            },
        };
        r.push(pos);
        i = i + 1;
    }
    r
}

} // verus!
