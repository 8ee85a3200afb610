//! Bit insertion: writing a signal's raw integer into a CAN payload.
//!
//! The mirror of [`decode`](crate::decode), and held to the same rules: no
//! I/O, no allocation, no knowledge of DBC text. Bits outside the target
//! signal are never touched, so a payload can be assembled one signal at a
//! time in any order.

use vstd::prelude::*;
use vstd::slice::SliceAdditionalExecFns;

use crate::dbc::types::{
    fits_unsigned, lemma_fits_high_bits_clear, lemma_words_equal_by_bits, word_bit, ByteOrder, Signal,
};
use crate::decode::{
    bit_index, covers, extracted, lemma_bit_pos_in_span, lemma_covered_pos, motorola_pos,
    motorola_step, payload_bit, required_bytes, required_len, signal_bit_index, signal_bit_pos,
};
use crate::error::Error;

verus! {

/// Whether `new` is `old` with `raw` written at `signal`'s position: the
/// lengths agree, every position the signal covers holds the corresponding
/// bit of `raw`, and every other position is as it was.
pub open spec fn inserted(old: Seq<u8>, new: Seq<u8>, signal: &Signal, raw: u64) -> bool {
    &&& new.len() == old.len()
    &&& forall|p: int|
        0 <= p < 8 * old.len() ==> #[trigger] payload_bit(new, p) == if covers(signal, p) {
            word_bit(raw, signal_bit_index(signal, p))
        } else {
            payload_bit(old, p)
        }
}

/// Write a raw, unscaled integer into a payload at a signal's position.
///
/// Returns [`Error::RawOutOfRange`] if `raw` has bits set above
/// `signal.length`, and [`Error::SignalOutOfBounds`] if the payload is too
/// short for the signal's layout. The payload is unmodified on error.
pub fn insert_raw(data: &mut [u8], signal: &Signal, raw: u64) -> (res: Result<(), Error>)
    requires
        signal.well_formed(),
    ensures
        !fits_unsigned(raw, signal.length as int) ==> res == Err::<(), Error>(
            Error::RawOutOfRange { signal: signal.name, length: signal.length, raw },
        ) && final(data)@ == old(data)@,
        fits_unsigned(raw, signal.length as int) && required_len(signal) > old(data)@.len() ==> res
            == Err::<(), Error>(
            Error::SignalOutOfBounds {
                signal: signal.name,
                required: required_len(signal) as usize,
                available: old(data)@.len() as usize,
            },
        ) && final(data)@ == old(data)@,
        fits_unsigned(raw, signal.length as int) && required_len(signal) <= old(data)@.len() ==> res
            is Ok && inserted(old(data)@, final(data)@, signal, raw),
{
    let length = signal.length as usize;
    if length < 64 && raw >> (length as u64) != 0 {
        return Err(
            Error::RawOutOfRange { signal: signal.name.clone(), length: signal.length, raw },
        );
    }
    let required = required_bytes(signal);
    if required > data.len() {
        return Err(
            Error::SignalOutOfBounds {
                signal: signal.name.clone(),
                required,
                available: data.len(),
            },
        );
    }
    let start = signal.start_bit as usize;
    match signal.byte_order {
        ByteOrder::Intel => insert_intel(data, signal, start, length, raw),
        ByteOrder::Motorola => insert_motorola(data, signal, start, length, raw),
    }
    Ok(())
}

/// Setting or clearing one bit of a byte leaves its other bits alone.
proof fn lemma_byte_bit(x: u8, j: u8, k: u8)
    requires
        j < 8,
        k < 8,
    ensures
        ((x | (1u8 << j)) >> k) & 1 == if k == j {
            1u8
        } else {
            (x >> k) & 1
        },
        ((x & !(1u8 << j)) >> k) & 1 == if k == j {
            0u8
        } else {
            (x >> k) & 1
        },
{
    assert(j < 8 && k < 8 ==> ((x | (1u8 << j)) >> k) & 1 == if k == j {
        1u8
    } else {
        (x >> k) & 1
    }) by (bit_vector);
    assert(j < 8 && k < 8 ==> ((x & !(1u8 << j)) >> k) & 1 == if k == j {
        0u8
    } else {
        (x >> k) & 1
    }) by (bit_vector);
}

/// Write the low bit of `bit` at payload position `pos`.
fn set_bit(data: &mut [u8], pos: usize, bit: u64)
    requires
        pos / 8 < old(data)@.len(),
    ensures
        final(data)@.len() == old(data)@.len(),
        forall|p: int|
            0 <= p < 8 * old(data)@.len() ==> #[trigger] payload_bit(final(data)@, p) == if p
                == pos {
                bit & 1
            } else {
                payload_bit(old(data)@, p)
            },
{
    let ghost before = data@;
    let idx = pos / 8;
    let shift = (pos % 8) as u8;
    let mask = 1u8 << shift;
    let byte = data[idx];
    let new_byte = if bit & 1 == 1 {
        byte | mask
    } else {
        byte & !mask
    };
    data[idx] = new_byte;
    proof {
        assert forall|p: int| 0 <= p < 8 * before.len() implies #[trigger] payload_bit(data@, p)
            == if p == pos {
            bit & 1
        } else {
            payload_bit(before, p)
        } by {
            if p / 8 == idx {
                lemma_byte_bit(byte, shift, (p % 8) as u8);
                assert(bit & 1 == 1 || bit & 1 == 0) by (bit_vector);
            }
        }
    }
}

fn insert_intel(data: &mut [u8], signal: &Signal, start: usize, length: usize, raw: u64)
    requires
        signal.well_formed(),
        signal.byte_order == ByteOrder::Intel,
        start == signal.start_bit,
        length == signal.length,
        required_len(signal) <= old(data)@.len(),
    ensures
        inserted(old(data)@, final(data)@, signal, raw),
{
    let ghost before = data@;
    let mut i: usize = 0;
    while i < length
        invariant
            signal.well_formed(),
            signal.byte_order == ByteOrder::Intel,
            start == signal.start_bit,
            length == signal.length,
            required_len(signal) <= before.len(),
            data@.len() == before.len(),
            i <= length,
            forall|p: int|
                0 <= p < 8 * before.len() ==> #[trigger] payload_bit(data@, p) == if start <= p
                    < start + i {
                    word_bit(raw, p - start)
                } else {
                    payload_bit(before, p)
                },
        decreases length - i,
    {
        proof {
            lemma_bit_pos_in_span(signal, i as int);
        }
        let ghost mid = data@;
        set_bit(data, start + i, raw >> (i as u64));
        proof {
            assert forall|p: int| 0 <= p < 8 * before.len() implies #[trigger] payload_bit(data@, p)
                == if start <= p < start + i + 1 {
                word_bit(raw, p - start)
            } else {
                payload_bit(before, p)
            } by {
                assert(payload_bit(mid, p) == if start <= p < start + i {
                    word_bit(raw, p - start)
                } else {
                    payload_bit(before, p)
                });
            }
        }
        i = i + 1;
    }
}

fn insert_motorola(data: &mut [u8], signal: &Signal, start: usize, length: usize, raw: u64)
    requires
        signal.well_formed(),
        signal.byte_order == ByteOrder::Motorola,
        start == signal.start_bit,
        length == signal.length,
        required_len(signal) <= old(data)@.len(),
    ensures
        inserted(old(data)@, final(data)@, signal, raw),
{
    let ghost before = data@;
    let mut pos = start;
    let mut k: usize = 0;
    while k < length
        invariant
            signal.well_formed(),
            signal.byte_order == ByteOrder::Motorola,
            start == signal.start_bit,
            length == signal.length,
            required_len(signal) <= before.len(),
            data@.len() == before.len(),
            k <= length,
            pos == motorola_pos(start as int, k as int),
            forall|p: int|
                0 <= p < 8 * before.len() ==> #[trigger] payload_bit(data@, p) == if length - k
                    <= signal_bit_index(signal, p) < length {
                    word_bit(raw, signal_bit_index(signal, p))
                } else {
                    payload_bit(before, p)
                },
        decreases length - k,
    {
        let i = length - 1 - k;
        proof {
            lemma_bit_pos_in_span(signal, i as int);
        }
        let ghost mid = data@;
        set_bit(data, pos, raw >> (i as u64));
        proof {
            assert(((raw >> (i as u64)) & 1) == word_bit(raw, i as int));
            assert forall|p: int| 0 <= p < 8 * before.len() implies #[trigger] payload_bit(data@, p)
                == if length - (k + 1) <= signal_bit_index(signal, p) < length {
                word_bit(raw, signal_bit_index(signal, p))
            } else {
                payload_bit(before, p)
            } by {
                assert(payload_bit(mid, p) == if length - k <= signal_bit_index(signal, p) < length {
                    word_bit(raw, signal_bit_index(signal, p))
                } else {
                    payload_bit(before, p)
                });
                if p == pos {
                    assert(signal_bit_index(signal, p) == i);
                } else if signal_bit_index(signal, p) == i {
                    lemma_covered_pos(signal, p);
                }
            }
        }
        pos = motorola_step(pos);
        k = k + 1;
    }
}

/// Writing a raw value and reading the same signal back returns the value
/// written.
pub proof fn lemma_insert_then_extract(
    old: Seq<u8>,
    new: Seq<u8>,
    signal: &Signal,
    raw: u64,
    read: u64,
)
    requires
        signal.well_formed(),
        fits_unsigned(raw, signal.length as int),
        required_len(signal) <= old.len(),
        inserted(old, new, signal, raw),
        extracted(new, signal, read),
    ensures
        read == raw,
{
    assert forall|i: int| 0 <= i < 64 implies #[trigger] word_bit(read, i) == word_bit(raw, i) by {
        if i < signal.length {
            lemma_bit_pos_in_span(signal, i);
            let p = signal_bit_pos(signal, i);
            assert(word_bit(read, i) == payload_bit(new, p));
            assert(covers(signal, p));
        } else {
            lemma_fits_high_bits_clear(read, signal.length as int, i);
            lemma_fits_high_bits_clear(raw, signal.length as int, i);
        }
    }
    lemma_words_equal_by_bits(read, raw);
}

/// Whether two signals share no payload position.
pub open spec fn disjoint(a: &Signal, b: &Signal) -> bool {
    forall|i: int, j: int|
        0 <= i < a.length && 0 <= j < b.length ==> #[trigger] signal_bit_pos(a, i)
            != #[trigger] signal_bit_pos(b, j)
}

/// Writing one signal leaves what a signal with no bit in common with it
/// reads unchanged.
pub proof fn lemma_insert_preserves_disjoint(
    old: Seq<u8>,
    new: Seq<u8>,
    written: &Signal,
    raw: u64,
    other: &Signal,
    value: u64,
)
    requires
        written.well_formed(),
        other.well_formed(),
        required_len(other) <= old.len(),
        disjoint(written, other),
        inserted(old, new, written, raw),
        extracted(old, other, value),
    ensures
        extracted(new, other, value),
{
    assert forall|j: int| 0 <= j < other.length implies #[trigger] word_bit(value, j) == payload_bit(
        new,
        signal_bit_pos(other, j),
    ) by {
        lemma_bit_pos_in_span(other, j);
        let p = signal_bit_pos(other, j);
        if covers(written, p) {
            lemma_covered_pos(written, p);
            let i = signal_bit_index(written, p);
            assert(signal_bit_pos(written, i) != signal_bit_pos(other, j));
        }
    }
}

} // verus!
