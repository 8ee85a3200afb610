//! Signal, message, and database definitions parsed from a DBC file.
//!
//! A `Signal` reaching the decoder has `1 <= length <= 64`; the parser
//! enforces it and the decoder states it as a precondition.
//!
//! Factor, offset, minimum and maximum are kept as the decimal text the DBC
//! wrote. The parser checks each is a well-formed number; turning them into
//! floating-point values, and scaling raw integers by them, is left to the
//! caller.

use std::collections::HashMap;

use vstd::prelude::*;

use crate::decode::{extract_raw, extracted, lemma_extracted_unique, required_len};
use crate::error::Error;
use crate::frame::{id_raw, CanFrame, CanId};

verus! {

broadcast use vstd::std_specs::hash::group_hash_axioms;

/// Bit ordering of a signal within its frame — the DBC `@` field.
#[derive(Debug, Clone, Copy, PartialEq, Eq, Structural)]
pub enum ByteOrder {
    /// `@1`. Little-endian: `start_bit` is the signal's least-significant
    /// bit and positions ascend.
    Intel,
    /// `@0`. Big-endian: `start_bit` is the signal's most-significant bit and
    /// positions descend within a byte, jumping to bit 7 of the next byte on
    /// leaving bit 0.
    Motorola,
}

/// Whether a signal's raw value is two's-complement.
#[derive(Debug, Clone, Copy, PartialEq, Eq, Structural)]
pub enum ValueType {
    /// DBC `+`.
    Unsigned,
    /// DBC `-`.
    Signed,
}

/// A signal's role in a multiplexed message (simple multiplexing only).
#[derive(Debug, Clone, Copy, PartialEq, Eq, Structural)]
pub enum Multiplexing {
    /// Always present.
    Plain,
    /// DBC `M` — this signal's raw value selects which multiplexed signals
    /// apply.
    Multiplexor,
    /// DBC `m<N>` — present only when the multiplexor's raw value equals `N`.
    Multiplexed(u16),
}

/// One signal within a CAN message.
#[derive(Debug, Clone, PartialEq, Eq)]
pub struct Signal {
    /// Signal name as written in the DBC.
    pub name: String,
    /// Bit position of the signal's LSB (Intel) or MSB (Motorola).
    pub start_bit: u16,
    /// Width in bits. In `1..=64` for every signal the parser produces.
    pub length: u8,
    /// Bit ordering.
    pub byte_order: ByteOrder,
    /// Signed or unsigned interpretation of the raw value.
    pub value_type: ValueType,
    /// Physical value = raw * factor + offset; the factor as the DBC wrote it.
    pub factor: String,
    /// The offset as the DBC wrote it.
    pub offset: String,
    /// Declared minimum physical value, as written. Not enforced.
    pub min: String,
    /// Declared maximum physical value, as written. Not enforced.
    pub max: String,
    /// Engineering unit, e.g. `"rpm"`. May be empty.
    pub unit: String,
    /// Multiplexing role.
    pub multiplexing: Multiplexing,
    /// Labels for raw values, from `VAL_` records: each value, sign-extended
    /// for a signed signal, with its description, in the order written.
    pub value_table: Vec<(i64, String)>,
}

impl Signal {
    /// Whether the signal's width is one the decoder handles.
    pub open spec fn well_formed(&self) -> bool {
        1 <= self.length <= 64
    }
}

/// Bit `i` of a 64-bit word, as 0 or 1.
pub open spec fn word_bit(w: u64, i: int) -> u64 {
    (w >> (i as u64)) & 1
}

/// The sign-extension of the low `length` bits of `raw`: those bits are kept
/// and every bit above them copies bit `length - 1`.
pub open spec fn is_sign_extension(raw: u64, length: int, r: i64) -> bool {
    forall|i: int|
        0 <= i < 64 ==> #[trigger] word_bit(r as u64, i) == if i < length {
            word_bit(raw, i)
        } else {
            word_bit(raw, length - 1)
        }
}

/// Whether `n` is representable as a `length`-bit two's-complement integer:
/// every bit from `length - 1` upwards equals the sign bit.
pub open spec fn fits_signed(n: i64, length: int) -> bool {
    forall|i: int| length - 1 <= i < 64 ==> #[trigger] word_bit(n as u64, i) == word_bit(n as u64, 63)
}

/// Whether `w` has no bit set at or above bit `length`.
pub open spec fn fits_unsigned(w: u64, length: int) -> bool {
    length >= 64 || w >> (length as u64) == 0
}

/// Sign-extend the low `length` bits of `raw` to a signed integer: the
/// numeric value of a signed signal's raw bit pattern.
///
/// Shifting the signal's MSB up to bit 63 and arithmetic-shifting back down
/// stays correct at `length == 64`, unlike masking with
/// `!((1 << length) - 1)`.
pub fn sign_extend(raw: u64, length: u8) -> (r: i64)
    requires
        1 <= length <= 64,
    ensures
        is_sign_extension(raw, length as int, r),
{
    let shift: u64 = 64 - length as u64;
    let r = ((raw << shift) as i64) >> shift;
    assert forall|i: int| 0 <= i < 64 implies #[trigger] word_bit(r as u64, i) == if i < length {
        word_bit(raw, i)
    } else {
        word_bit(raw, length - 1)
    } by {
        let iu = i as u64;
        let l = length as u64;
        assert(iu < 64 && 1 <= l <= 64 && shift == 64 - l ==> (((((raw << shift) as i64) >> shift)
            as u64) >> iu) & 1 == if iu < l {
            (raw >> iu) & 1
        } else {
            (raw >> ((l - 1) as u64)) & 1
        }) by (bit_vector);
    }
    r
}

/// The `length`-bit two's-complement pattern of `n`: its low `length` bits,
/// ready for insertion into a payload.
pub fn twos_complement(n: i64, length: u8) -> (w: u64)
    requires
        1 <= length <= 64,
    ensures
        fits_unsigned(w, length as int),
        forall|i: int| 0 <= i < length ==> #[trigger] word_bit(w, i) == word_bit(n as u64, i),
{
    let l = length as u64;
    let w = (n as u64) & (u64::MAX >> (64 - l));
    assert(1 <= l <= 64 ==> l >= 64 || ((n as u64) & (0xffff_ffff_ffff_ffffu64 >> ((64 - l) as u64))) >> l
        == 0) by (bit_vector);
    assert forall|i: int| 0 <= i < length implies #[trigger] word_bit(w, i) == word_bit(n as u64, i) by {
        let iu = i as u64;
        assert(iu < l && l <= 64 ==> (((n as u64) & (0xffff_ffff_ffff_ffffu64 >> ((64 - l) as u64))) >> iu)
            & 1 == ((n as u64) >> iu) & 1) by (bit_vector);
    }
    w
}

/// Sign extension undoes the two's-complement encoding of any value the
/// width can represent, so a signed value written into a signal is read back
/// unchanged.
pub proof fn lemma_sign_extend_inverts_twos_complement(n: i64, length: u8, w: u64, r: i64)
    requires
        1 <= length <= 64,
        fits_signed(n, length as int),
        forall|i: int| 0 <= i < length ==> #[trigger] word_bit(w, i) == word_bit(n as u64, i),
        is_sign_extension(w, length as int, r),
    ensures
        r == n,
{
    let l = length as int;
    assert forall|i: int| 0 <= i < 64 implies #[trigger] word_bit(r as u64, i) == word_bit(
        n as u64,
        i,
    ) by {
        if i >= l {
            assert(word_bit(r as u64, i) == word_bit(w, l - 1));
            assert(word_bit(w, l - 1) == word_bit(n as u64, l - 1));
            assert(word_bit(n as u64, l - 1) == word_bit(n as u64, 63));
            assert(word_bit(n as u64, i) == word_bit(n as u64, 63));
        } else {
            assert(word_bit(r as u64, i) == word_bit(w, i));
        }
    }
    lemma_words_equal_by_bits(r as u64, n as u64);
    assert(r as u64 == n as u64);
    assert(r == n) by {
        let a = r;
        let b = n;
        assert((a as u64) == (b as u64) ==> a == b) by (bit_vector);
    }
}

/// Two words whose 64 bits agree are equal.
pub proof fn lemma_words_equal_by_bits(a: u64, b: u64)
    requires
        forall|i: int| 0 <= i < 64 ==> #[trigger] word_bit(a, i) == word_bit(b, i),
    ensures
        a == b,
{
    lemma_low_bits_agree(a, b, 64);
    assert(a & 0xffff_ffff_ffff_ffff == a) by (bit_vector);
    assert(b & 0xffff_ffff_ffff_ffff == b) by (bit_vector);
}

/// A word that fits in `length` bits has every bit from `length` up clear.
pub proof fn lemma_fits_high_bits_clear(w: u64, length: int, i: int)
    requires
        fits_unsigned(w, length),
        0 <= length <= i < 64,
    ensures
        word_bit(w, i) == 0,
{
    let l = length as u64;
    let iu = i as u64;
    assert(l <= iu && iu < 64 && w >> l == 0 ==> (w >> iu) & 1 == 0) by (bit_vector);
}

/// The mask of the low `k` bits, for `k <= 64`.
pub open spec fn low_mask(k: int) -> u64 {
    if k >= 64 {
        0xffff_ffff_ffff_ffff
    } else {
        ((1u64 << (k as u64)) - 1) as u64
    }
}

/// Words whose low `k` bits agree agree under the mask of those bits.
pub proof fn lemma_low_bits_agree(a: u64, b: u64, k: int)
    requires
        0 <= k <= 64,
        forall|i: int| 0 <= i < k ==> #[trigger] word_bit(a, i) == word_bit(b, i),
    ensures
        a & low_mask(k) == b & low_mask(k),
    decreases k,
{
    if k == 0 {
        assert(a & ((1u64 << 0u64) - 1) as u64 == 0) by (bit_vector);
        assert(b & ((1u64 << 0u64) - 1) as u64 == 0) by (bit_vector);
    } else {
        lemma_low_bits_agree(a, b, k - 1);
        let j = (k - 1) as u64;
        assert(word_bit(a, k - 1) == word_bit(b, k - 1));
        assert(j < 64 ==> a & (if j + 1 >= 64 {
            0xffff_ffff_ffff_ffffu64
        } else {
            ((1u64 << (j + 1)) - 1) as u64
        }) == (a & ((1u64 << j) - 1) as u64) | (((a >> j) & 1) << j)) by (bit_vector);
        assert(j < 64 ==> b & (if j + 1 >= 64 {
            0xffff_ffff_ffff_ffffu64
        } else {
            ((1u64 << (j + 1)) - 1) as u64
        }) == (b & ((1u64 << j) - 1) as u64) | (((b >> j) & 1) << j)) by (bit_vector);
    }
}

/// A CAN message definition: an identifier and the signals it carries.
#[derive(Debug, Clone, PartialEq, Eq)]
pub struct Message {
    /// Identifier, with the DBC extended-flag already interpreted.
    pub id: CanId,
    /// Message name as written in the DBC.
    pub name: String,
    /// Declared payload length in bytes.
    pub dlc: u8,
    /// Transmitting node, or empty.
    pub sender: String,
    /// Signals, in the order the DBC listed them.
    pub signals: Vec<Signal>,
}

/// `==` on `str`: true exactly when the two strings hold the same
/// characters in the same order.
#[verifier::external_body]
pub(crate) fn str_eq(a: &str, b: &str) -> (r: bool)
    ensures
        r == (a@ == b@),
{
    a == b
}

/// Whether a signal is the multiplexor.
pub open spec fn is_multiplexor(s: Signal) -> bool {
    s.multiplexing == Multiplexing::Multiplexor
}

/// Index of the first signal named `name`.
pub open spec fn first_named(signals: Seq<Signal>, name: Seq<char>) -> Option<int> {
    if exists|i: int|
        0 <= i < signals.len() && signals[i].name@ == name && forall|j: int|
            0 <= j < i ==> (#[trigger] signals[j]).name@ != name {
        Some(
            choose|i: int|
                0 <= i < signals.len() && signals[i].name@ == name && forall|j: int|
                    0 <= j < i ==> (#[trigger] signals[j]).name@ != name,
        )
    } else {
        None
    }
}

/// Index of the first multiplexor signal.
pub open spec fn first_multiplexor(signals: Seq<Signal>) -> Option<int> {
    if exists|i: int|
        0 <= i < signals.len() && is_multiplexor(signals[i]) && forall|j: int|
            0 <= j < i ==> !is_multiplexor(#[trigger] signals[j]) {
        Some(
            choose|i: int|
                0 <= i < signals.len() && is_multiplexor(signals[i]) && forall|j: int|
                    0 <= j < i ==> !is_multiplexor(#[trigger] signals[j]),
        )
    } else {
        None
    }
}

impl Message {
    /// Every signal has a width the decoder handles.
    pub open spec fn well_formed(&self) -> bool {
        forall|i: int| 0 <= i < self.signals@.len() ==> (#[trigger] self.signals@[i]).well_formed()
    }

    /// The signal named `name`, if the message carries one: the first in DBC
    /// order.
    pub fn signal(&self, name: &str) -> (r: Option<&Signal>)
        ensures
            first_named(self.signals@, name@) matches Some(i) ==> r == Some(
                &self.signals@[i],
            ),
            first_named(self.signals@, name@) is None ==> r is None,
    {
        let mut i: usize = 0;
        while i < self.signals.len()
            invariant
                i <= self.signals@.len(),
                forall|j: int| 0 <= j < i ==> (#[trigger] self.signals@[j]).name@ != name@,
            decreases self.signals@.len() - i,
        {
            if str_eq(self.signals[i].name.as_str(), name) {
                proof {
                    let c = choose|c: int|
                        0 <= c < self.signals@.len() && self.signals@[c].name@ == name@ && forall|j: int|
                            0 <= j < c ==> (#[trigger] self.signals@[j]).name@ != name@;
                    assert(0 <= i < self.signals@.len() && self.signals@[i as int].name@ == name@ && forall|j: int|
                            0 <= j < i ==> (#[trigger] self.signals@[j]).name@ != name@);
                    if c < i {
                        assert(self.signals@[c].name@ != name@);
                    } else if c > i {
                        assert(self.signals@[i as int].name@ != name@);
                    }
                }
                return Some(&self.signals[i]);
            }
            i = i + 1;
        }
        None
    }

    /// The signal whose raw value selects which multiplexed signals apply:
    /// the first marked `M`.
    pub fn multiplexor(&self) -> (r: Option<&Signal>)
        ensures
            first_multiplexor(self.signals@) matches Some(i) ==> r == Some(
                &self.signals@[i],
            ),
            first_multiplexor(self.signals@) is None ==> r is None,
    {
        let mut i: usize = 0;
        while i < self.signals.len()
            invariant
                i <= self.signals@.len(),
                forall|j: int| 0 <= j < i ==> !is_multiplexor(#[trigger] self.signals@[j]),
            decreases self.signals@.len() - i,
        {
            if self.signals[i].multiplexing == Multiplexing::Multiplexor {
                proof {
                    let c = choose|c: int|
                        0 <= c < self.signals@.len() && is_multiplexor(self.signals@[c]) && forall|j: int|
                            0 <= j < c ==> !is_multiplexor(#[trigger] self.signals@[j]);
                    assert(0 <= i < self.signals@.len() && is_multiplexor(self.signals@[i as int]) && forall|j: int|
                            0 <= j < i ==> !is_multiplexor(#[trigger] self.signals@[j]));
                    if c < i {
                        assert(!is_multiplexor(self.signals@[c]));
                    } else if c > i {
                        assert(!is_multiplexor(self.signals@[i as int]));
                    }
                }
                return Some(&self.signals[i]);
            }
            i = i + 1;
        }
        None
    }
}

/// The first signal at or after `k` called `name`.
pub open spec fn named_from(signals: Seq<SignalView>, name: Seq<char>, k: int) -> Option<int>
    decreases signals.len() - k,
{
    if k < 0 || k >= signals.len() {
        None
    } else if signals[k].name == name {
        Some(k)
    } else {
        named_from(signals, name, k + 1)
    }
}

/// `m` with its first signal called `name` given the value table `table`;
/// unchanged when no signal has that name.
pub open spec fn with_table(m: MessageView, name: Seq<char>, table: Seq<(i64, Seq<char>)>) -> MessageView {
    match named_from(m.signals, name, 0) {
        Some(i) => MessageView {
            signals: m.signals.update(i, SignalView { value_table: table, ..m.signals[i] }),
            ..m
        },
        None => m,
    }
}

/// `ms` with the value table given to signal `name` of the message with
/// identifier `id`; unchanged when there is no such message.
pub open spec fn table_applied(
    ms: Seq<MessageView>,
    id: CanId,
    name: Seq<char>,
    table: Seq<(i64, Seq<char>)>,
) -> Seq<MessageView> {
    match find_view_id(ms, id, ms.len() as int) {
        Some(i) => ms.update(i, with_table(ms[i], name, table)),
        None => ms,
    }
}

impl Message {
    /// Give the first signal called `name` the value table `table`.
    pub(crate) fn set_value_table(&mut self, name: &str, table: Vec<(i64, String)>)
        ensures
            final(self)@ == with_table(old(self)@, name@, table_view(table@)),
            final(self).id == old(self).id,
            old(self).well_formed() ==> final(self).well_formed(),
    {
        let ghost views = self@.signals;
        let mut i: usize = 0;
        while i < self.signals.len()
            invariant
                self.signals@ == old(self).signals@,
                self.id == old(self).id,
                self.name == old(self).name,
                self.dlc == old(self).dlc,
                self.sender == old(self).sender,
                views == old(self)@.signals,
                i <= self.signals@.len(),
                named_from(views, name@, 0) == named_from(views, name@, i as int),
            decreases self.signals@.len() - i,
        {
            if str_eq(self.signals[i].name.as_str(), name) {
                let ghost before = self.signals@;
                let mut sg = self.signals.remove(i);
                sg.value_table = table;
                self.signals.insert(i, sg);
                proof {
                    assert(self.signals@ =~= before.update(i as int, sg));
                    assert(views[i as int].name == name@);
                    assert(self@.signals =~= views.update(
                        i as int,
                        SignalView { value_table: table_view(table@), ..views[i as int] },
                    ));
                    assert forall|k: int| 0 <= k < self.signals@.len() implies (
                    #[trigger] self.signals@[k]).length == old(self).signals@[k].length by {
                        if k != i {
                            assert(self.signals@[k] == before[k]);
                        }
                    }
                }
                return;
            }
            assert(views[i as int].name != name@);
            i = i + 1;
        }
    }
}

/// One decoded signal: its definition and its raw bits.
///
/// The physical value is the raw value, sign-extended for a signed signal,
/// times the factor plus the offset; applying it is left to the caller.
#[derive(Debug, Clone)]
pub struct Decoded<'a> {
    /// The signal definition this came from.
    pub signal: &'a Signal,
    /// The unscaled, unsigned bit pattern.
    pub raw: u64,
}

/// The number a raw value stands for: the value itself, or its
/// sign-extension for a signed signal.
pub open spec fn raw_number(signal: Signal, raw: u64) -> int {
    match signal.value_type {
        ValueType::Unsigned => raw as int,
        ValueType::Signed => (choose|v: i64| is_sign_extension(raw, signal.length as int, v)) as int,
    }
}

/// The description `table` gives `value`: that of its last entry for it.
pub open spec fn label_of(table: Seq<(i64, Seq<char>)>, value: int) -> Option<Seq<char>>
    decreases table.len(),
{
    if table.len() == 0 {
        None
    } else if table.last().0 == value {
        Some(table.last().1)
    } else {
        label_of(table.drop_last(), value)
    }
}

/// A raw value has one sign-extension.
proof fn lemma_sign_extension_unique(raw: u64, length: int, a: i64, b: i64)
    requires
        is_sign_extension(raw, length, a),
        is_sign_extension(raw, length, b),
    ensures
        a == b,
{
    assert forall|i: int| 0 <= i < 64 implies #[trigger] word_bit(a as u64, i) == word_bit(b as u64, i) by {
        assert(word_bit(a as u64, i) == if i < length {
            word_bit(raw, i)
        } else {
            word_bit(raw, length - 1)
        });
        assert(word_bit(b as u64, i) == if i < length {
            word_bit(raw, i)
        } else {
            word_bit(raw, length - 1)
        });
    }
    lemma_words_equal_by_bits(a as u64, b as u64);
    assert((a as u64) == (b as u64) ==> a == b) by (bit_vector);
}

impl<'a> Decoded<'a> {
    /// The value table's description of the decoded value: the raw value,
    /// sign-extended for a signed signal, looked up in the signal's table.
    pub fn label(&self) -> (r: Option<&'a str>)
        requires
            self.signal.well_formed(),
        ensures
            match r {
                Some(t) => label_of(self.signal@.value_table, raw_number(*self.signal, self.raw))
                    == Some(t@),
                None => label_of(self.signal@.value_table, raw_number(*self.signal, self.raw)) is None,
            },
    {
        let signal: &'a Signal = self.signal;
        let table = &signal.value_table;
        let ghost value = raw_number(*signal, self.raw);
        let signed = match signal.value_type {
            ValueType::Unsigned => None,
            ValueType::Signed => {
                let v = sign_extend(self.raw, signal.length);
                proof {
                    let c = choose|w: i64| is_sign_extension(self.raw, signal.length as int, w);
                    lemma_sign_extension_unique(self.raw, signal.length as int, c, v);
                }
                Some(v)
            },
        };
        let ghost tv = table_view(table@);
        let mut i = table.len();
        assert(tv.take(i as int) =~= tv);
        while i > 0
            invariant
                i <= table@.len(),
                tv == table_view(table@),
                tv == self.signal@.value_table,
                value == raw_number(*self.signal, self.raw),
                label_of(tv, value) == label_of(tv.take(i as int), value),
                signed matches Some(v) ==> value == v as int,
                signed is None ==> value == self.raw as int,
            decreases i,
        {
            i = i - 1;
            let key = table[i].0;
            let hit = match signed {
                Some(v) => key == v,
                None => key >= 0 && key as u64 == self.raw,
            };
            proof {
                assert(tv[i as int] == (table@[i as int].0, table@[i as int].1@));
                assert(tv.take(i + 1).last() == tv[i as int]);
                assert(tv.take(i + 1).drop_last() =~= tv.take(i as int));
                assert(hit == (tv[i as int].0 == value));
            }
            if hit {
                return Some(table[i].1.as_str());
            }
        }
        None
    }
}

/// The raw value `signal` reads from `data`.
pub open spec fn raw_value(data: Seq<u8>, signal: Signal) -> u64 {
    choose|r: u64| extracted(data, &signal, r)
}

/// What selects the multiplexed signals of a message decoded from `data`:
/// `None` when the message has no multiplexor; otherwise the multiplexor's
/// raw value, or `Some(None)` when the multiplexor does not fit the payload.
pub open spec fn selector(signals: Seq<Signal>, data: Seq<u8>) -> Option<Option<u64>> {
    match first_multiplexor(signals) {
        None => None,
        Some(m) => Some(
            if required_len(&signals[m]) <= data.len() {
                Some(raw_value(data, signals[m]))
            } else {
                None
            },
        ),
    }
}

/// Whether a signal decodes under `selector`: an `m<N>` signal only when the
/// multiplexor read `N`, and it is treated as plain when the message has no
/// multiplexor at all; every other signal always.
pub open spec fn applies_spec(signal: Signal, selector: Option<Option<u64>>) -> bool {
    match (signal.multiplexing, selector) {
        (Multiplexing::Multiplexed(n), Some(found)) => found == Some(n as u64),
        _ => true,
    }
}

/// Indices, in order, of the first `n` signals that decode under `sel`.
pub open spec fn picked(signals: Seq<Signal>, sel: Option<Option<u64>>, n: int) -> Seq<int>
    decreases n,
{
    if n <= 0 {
        Seq::empty()
    } else if applies_spec(signals[n - 1], sel) {
        picked(signals, sel, n - 1).push(n - 1)
    } else {
        picked(signals, sel, n - 1)
    }
}

/// Every index `picked` lists is a signal index.
pub proof fn lemma_picked_bounds(signals: Seq<Signal>, sel: Option<Option<u64>>, n: int)
    requires
        0 <= n <= signals.len(),
    ensures
        forall|k: int|
            0 <= k < picked(signals, sel, n).len() ==> 0 <= #[trigger] picked(signals, sel, n)[k]
                < n,
    decreases n,
{
    if n > 0 {
        lemma_picked_bounds(signals, sel, n - 1);
        let p = picked(signals, sel, n - 1);
        assert forall|k: int| 0 <= k < picked(signals, sel, n).len() implies 0 <= #[trigger] picked(
            signals,
            sel,
            n,
        )[k] < n by {
            if k < p.len() {
                assert(picked(signals, sel, n)[k] == p[k]);
            }
        }
    }
}

/// Whether `r` is what decoding `signal` from `data` yields: its raw value
/// when it fits, else the out-of-bounds error naming both sizes.
pub open spec fn decode_outcome(data: Seq<u8>, signal: &Signal, r: Result<Decoded, Error>) -> bool {
    &&& required_len(signal) <= data.len() ==> (r matches Ok(d) && *d.signal == *signal
        && extracted(data, signal, d.raw))
    &&& required_len(signal) > data.len() ==> r == Err::<Decoded, Error>(
        Error::SignalOutOfBounds {
            signal: signal.name,
            required: required_len(signal) as usize,
            available: data.len() as usize,
        },
    )
}

/// Whether `signal` decodes under `selector`.
pub fn applies(signal: &Signal, selector: Option<Option<u64>>) -> (b: bool)
    ensures
        b == applies_spec(*signal, selector),
{
    match (signal.multiplexing, selector) {
        (Multiplexing::Multiplexed(n), Some(found)) => found == Some(n as u64),
        _ => true,
    }
}

impl Message {
    /// Decode the signals that apply to `data`.
    ///
    /// One item per applicable signal, in DBC order; a signal that does not
    /// fit the payload yields `Err` without affecting its neighbours.
    /// Multiplexed signals appear only when the multiplexor's raw value
    /// selects them; if the multiplexor itself does not fit, the signals
    /// depending on it are skipped.
    pub fn decode<'a>(&'a self, data: &[u8]) -> (res: Vec<Result<Decoded<'a>, Error>>)
        requires
            self.well_formed(),
        ensures
            ({
                let idx = picked(self.signals@, selector(self.signals@, data@), self.signals@.len() as int);
                &&& res@.len() == idx.len()
                &&& forall|k: int|
                    0 <= k < idx.len() ==> decode_outcome(
                        data@,
                        &self.signals@[#[trigger] idx[k]],
                        res@[k],
                    )
            }),
    {
        let ghost sel = selector(self.signals@, data@);
        let selector = match self.multiplexor() {
            None => None,
            Some(m) => {
                proof {
                    let mi = first_multiplexor(self.signals@)->0;
                    assert(0 <= mi < self.signals@.len());
                    assert(self.signals@[mi].well_formed());
                }
                match extract_raw(data, m) {
                    Ok(raw) => {
                        proof {
                            let rv = raw_value(data@, *m);
                            assert(extracted(data@, m, raw));
                            lemma_extracted_unique(data@, m, raw, rv);
                        }
                        Some(Some(raw))
                    },
                    Err(_) => Some(None),
                }
            },
        };
        assert(selector == sel);
        let mut out: Vec<Result<Decoded<'a>, Error>> = Vec::new();
        let mut i: usize = 0;
        while i < self.signals.len()
            invariant
                self.well_formed(),
                selector == sel,
                i <= self.signals@.len(),
                out@.len() == picked(self.signals@, sel, i as int).len(),
                forall|k: int|
                    0 <= k < out@.len() ==> decode_outcome(
                        data@,
                        &self.signals@[#[trigger] picked(self.signals@, sel, i as int)[k]],
                        out@[k],
                    ),
            decreases self.signals@.len() - i,
        {
            let signal = &self.signals[i];
            assert(self.signals@[i as int].well_formed());
            if applies(signal, selector) {
                let item = match extract_raw(data, signal) {
                    Ok(raw) => Ok(Decoded { signal, raw }),
                    Err(e) => Err(e),
                };
                out.push(item);
            }
            proof {
                let before = picked(self.signals@, sel, i as int);
                let after = picked(self.signals@, sel, i + 1);
                assert forall|k: int| 0 <= k < out@.len() implies decode_outcome(
                    data@,
                    &self.signals@[#[trigger] after[k]],
                    out@[k],
                ) by {
                    if k < before.len() {
                        assert(after[k] == before[k]);
                    }
                }
            }
            i = i + 1;
        }
        out
    }
}

/// The key a message is indexed under: standard and extended identifiers of
/// equal value get different keys.
pub open spec fn id_key(id: CanId) -> u64 {
    match id {
        CanId::Standard(v) => v as u64,
        CanId::Extended(v) => (0x1_0000_0000 + v as int) as u64,
    }
}

fn key_of(id: CanId) -> (k: u64)
    ensures
        k == id_key(id),
{
    match id {
        CanId::Standard(v) => v as u64,
        CanId::Extended(v) => 0x1_0000_0000 + v as u64,
    }
}

/// Different identifiers have different keys.
proof fn lemma_id_key_injective(a: CanId, b: CanId)
    ensures
        id_key(a) == id_key(b) ==> a == b,
{
}

/// A parsed DBC database, indexed by identifier for O(1) frame lookup.
///
/// Messages are kept in the order they were first inserted; the index maps
/// each identifier to its message.
#[derive(Debug, Clone)]
pub struct Database {
    messages: Vec<Message>,
    index: HashMap<u64, usize>,
}

impl Database {
    /// The messages, in insertion order. No identifier occurs twice.
    pub closed spec fn spec_messages(&self) -> Seq<Message> {
        self.messages@
    }

    /// The index agrees with the message list, so identifiers are unique.
    pub closed spec fn well_formed(&self) -> bool {
        &&& forall|k: u64| #[trigger]
            self.index@.contains_key(k) ==> self.index@[k] < self.messages@.len() && id_key(
                self.messages@[self.index@[k] as int].id,
            ) == k
        &&& forall|i: int|
            0 <= i < self.messages@.len() ==> self.index@.contains_key(
                id_key(#[trigger] self.messages@[i].id),
            ) && self.index@[id_key(self.messages@[i].id)] == i
    }

    /// Every message can be decoded.
    pub open spec fn decodable(&self) -> bool {
        forall|i: int|
            0 <= i < self.spec_messages().len() ==> (#[trigger] self.spec_messages()[i]).well_formed()
    }

    /// Every signal of a decodable database, which is what parsing gives,
    /// is between 1 and 64 bits long.
    pub proof fn lemma_signal_lengths(&self)
        requires
            self.decodable(),
        ensures
            forall|i: int, k: int|
                0 <= i < self.spec_messages().len() && 0 <= k
                    < self.spec_messages()[i].signals@.len() ==> 1 <= (
                #[trigger] self.spec_messages()[i].signals@[k]).length <= 64,
    {
        assert forall|i: int, k: int|
            0 <= i < self.spec_messages().len() && 0 <= k
                < self.spec_messages()[i].signals@.len() implies 1 <= (
            #[trigger] self.spec_messages()[i].signals@[k]).length <= 64 by {
            assert(self.spec_messages()[i].well_formed());
        }
    }

    /// No two messages share an identifier.
    pub proof fn lemma_unique_ids(&self, i: int, j: int)
        requires
            self.well_formed(),
            0 <= i < self.spec_messages().len(),
            0 <= j < self.spec_messages().len(),
            i != j,
        ensures
            self.spec_messages()[i].id != self.spec_messages()[j].id,
    {
        assert(self.index@[id_key(self.messages@[i].id)] == i);
        assert(self.index@[id_key(self.messages@[j].id)] == j);
    }

    /// An empty database.
    pub fn new() -> (db: Database)
        ensures
            db.well_formed(),
            db.spec_messages() == Seq::<Message>::empty(),
    {
        Database { messages: Vec::new(), index: HashMap::new() }
    }

    /// Insert a message, replacing any existing definition for its id.
    pub fn insert(&mut self, message: Message)
        requires
            old(self).well_formed(),
        ensures
            final(self).well_formed(),
            final(self).spec_messages() == insert_message(old(self).spec_messages(), message),
    {
        let key = key_of(message.id);
        match self.index.get(&key) {
            Some(found) => {
                let at = *found;
                let ghost before = self.messages@;
                proof {
                    lemma_id_key_injective(before[at as int].id, message.id);
                    lemma_find_id(before, message.id, before.len() as int);
                    if let Some(c) = find_id(before, message.id, before.len() as int) {
                        if c != at {
                            self.lemma_unique_ids(c, at as int);
                        }
                    }
                }
                self.messages.set(at, message);
                proof {
                    assert forall|i: int| 0 <= i < self.messages@.len() implies self.index@.contains_key(
                        id_key(#[trigger] self.messages@[i].id),
                    ) && self.index@[id_key(self.messages@[i].id)] == i by {
                        if i != at {
                            assert(self.messages@[i] == before[i]);
                        }
                    }
                }
            },
            None => {
                let ghost before = self.messages@;
                let at = self.messages.len();
                self.messages.push(message);
                self.index.insert(key, at);
                proof {
                    assert forall|k: u64| #[trigger]
                        self.index@.contains_key(k) implies self.index@[k] < self.messages@.len()
                        && id_key(self.messages@[self.index@[k] as int].id) == k by {
                        if k != key {
                            assert(self.messages@[self.index@[k] as int] == before[self.index@[k] as int]);
                        }
                    }
                    assert forall|i: int| 0 <= i < self.messages@.len() implies self.index@.contains_key(
                        id_key(#[trigger] self.messages@[i].id),
                    ) && self.index@[id_key(self.messages@[i].id)] == i by {
                        if i < at {
                            assert(self.messages@[i] == before[i]);
                            assert(id_key(before[i].id) != key);
                        }
                    }
                    assert forall|i: int| 0 <= i < before.len() implies #[trigger] before[i].id
                        != message.id by {
                        assert(id_key(before[i].id) != key);
                    }
                    lemma_find_id(before, message.id, before.len() as int);
                }
            },
        }
    }

    /// Where the message with identifier `id` stands, if there is one.
    pub(crate) fn position(&self, id: CanId) -> (r: Option<usize>)
        requires
            self.well_formed(),
        ensures
            r matches Some(i) ==> i < self.spec_messages().len() && self.spec_messages()[i as int].id
                == id,
            r is None ==> forall|i: int|
                0 <= i < self.spec_messages().len() ==> #[trigger] self.spec_messages()[i].id != id,
    {
        let key = key_of(id);
        match self.index.get(&key) {
            Some(found) => {
                proof {
                    lemma_id_key_injective(self.messages@[*found as int].id, id);
                }
                Some(*found)
            },
            None => {
                proof {
                    assert forall|i: int| 0 <= i < self.messages@.len() implies #[trigger] self.messages@[i].id
                        != id by {
                        assert(self.index@.contains_key(id_key(self.messages@[i].id)));
                    }
                }
                None
            },
        }
    }

    /// Look up the definition for an identifier.
    pub fn message(&self, id: CanId) -> (r: Option<&Message>)
        requires
            self.well_formed(),
        ensures
            lookup(self.spec_messages(), id) is None ==> r is None,
            lookup(self.spec_messages(), id) matches Some(m) ==> (r matches Some(x) && *x == m),
    {
        let key = key_of(id);
        match self.index.get(&key) {
            Some(found) => {
                let at = *found;
                proof {
                    lemma_id_key_injective(self.messages@[at as int].id, id);
                    lemma_lookup_found(self.spec_messages(), id, at as int);
                }
                Some(&self.messages[at])
            },
            None => {
                proof {
                    assert forall|i: int| 0 <= i < self.messages@.len() implies #[trigger] self.messages@[i].id
                        != id by {
                        assert(self.index@.contains_key(id_key(self.messages@[i].id)));
                    }
                    lemma_lookup_absent(self.spec_messages(), id);
                }
                None
            },
        }
    }

    /// Number of messages defined.
    pub fn len(&self) -> (n: usize)
        ensures
            n == self.spec_messages().len(),
    {
        self.messages.len()
    }

    /// Whether the database defines no messages.
    pub fn is_empty(&self) -> (b: bool)
        ensures
            b == (self.spec_messages().len() == 0),
    {
        self.messages.len() == 0
    }

    /// Total signals across all messages.
    pub fn signal_count(&self) -> (n: usize)
        requires
            signals_in(self.spec_messages(), self.spec_messages().len() as int) <= usize::MAX,
        ensures
            n == signals_in(self.spec_messages(), self.spec_messages().len() as int),
    {
        let mut total: usize = 0;
        let mut i: usize = 0;
        while i < self.messages.len()
            invariant
                i <= self.messages@.len(),
                total == signals_in(self.messages@, i as int),
                signals_in(self.messages@, self.messages@.len() as int) <= usize::MAX,
            decreases self.messages@.len() - i,
        {
            proof {
                lemma_signals_in_monotone(self.messages@, i + 1, self.messages@.len() as int);
            }
            total = total + self.messages[i].signals.len();
            i = i + 1;
        }
        total
    }

    /// Every message, in the order each identifier was first inserted.
    pub fn messages(&self) -> (r: &[Message])
        ensures
            r@ == self.spec_messages(),
    {
        self.messages.as_slice()
    }

    /// Give signal `name` of the message with identifier `id` the value
    /// table `table`; nothing changes when there is no such message.
    pub(crate) fn set_value_table(&mut self, id: CanId, name: &str, table: Vec<(i64, String)>)
        requires
            old(self).well_formed(),
            old(self).decodable(),
        ensures
            final(self).well_formed(),
            final(self).decodable(),
            messages_view(final(self).spec_messages()) == table_applied(
                messages_view(old(self).spec_messages()),
                id,
                name@,
                table_view(table@),
            ),
    {
        let ghost before = self.messages@;
        proof {
            lemma_find_id_view(before, id, before.len() as int);
            lemma_find_id(before, id, before.len() as int);
        }
        match self.position(id) {
            Some(at) => {
                proof {
                    match find_id(before, id, before.len() as int) {
                        Some(c) => {
                            if c != at {
                                self.lemma_unique_ids(c, at as int);
                            }
                        },
                        None => {},
                    }
                    assert(before[at as int].well_formed());
                }
                let mut m = self.messages.remove(at);
                m.set_value_table(name, table);
                self.messages.insert(at, m);
                proof {
                    assert(self.messages@ =~= before.update(at as int, m));
                    assert(messages_view(self.messages@) =~= messages_view(before).update(
                        at as int,
                        m@,
                    ));
                    assert forall|i: int| 0 <= i < self.messages@.len() implies self.index@.contains_key(
                        id_key(#[trigger] self.messages@[i].id),
                    ) && self.index@[id_key(self.messages@[i].id)] == i by {
                        if i != at {
                            assert(self.messages@[i] == before[i]);
                        }
                    }
                    assert forall|i: int|
                        0 <= i < self.spec_messages().len() implies (
                        #[trigger] self.spec_messages()[i]).well_formed() by {
                        if i != at {
                            assert(self.messages@[i] == before[i]);
                        }
                    }
                }
            },
            None => {
                proof {
                    assert(messages_view(self.messages@) =~= messages_view(before));
                }
            },
        }
    }

    /// Decode the message matching this frame's identifier.
    ///
    /// `None` if no message is defined for the identifier; on a real bus most
    /// traffic is not described by any one DBC. Otherwise behaves as
    /// [`Message::decode`] on the frame's payload.
    pub fn decode_frame<'a>(&'a self, frame: &CanFrame) -> (r: Option<Vec<Result<Decoded<'a>, Error>>>)
        requires
            self.well_formed(),
            self.decodable(),
        ensures
            lookup(self.spec_messages(), frame.spec_id()) is None ==> r is None,
            lookup(self.spec_messages(), frame.spec_id()) matches Some(m) ==> (r matches Some(items)
                && ({
                let idx = picked(m.signals@, selector(m.signals@, frame.payload()), m.signals@.len() as int);
                &&& items@.len() == idx.len()
                &&& forall|k: int|
                    0 <= k < idx.len() ==> decode_outcome(
                        frame.payload(),
                        &m.signals@[#[trigger] idx[k]],
                        items@[k],
                    )
            })),
    {
        match self.message(frame.id()) {
            None => None,
            Some(m) => {
                proof {
                    let i = choose|i: int|
                        0 <= i < self.spec_messages().len() && self.spec_messages()[i].id
                            == frame.spec_id();
                    assert(self.spec_messages()[i].well_formed());
                }
                Some(m.decode(frame.data()))
            },
        }
    }
}

/// Total signals in the first `n` messages.
pub open spec fn signals_in(messages: Seq<Message>, n: int) -> int
    decreases n,
{
    if n <= 0 {
        0
    } else {
        signals_in(messages, n - 1) + messages[n - 1].signals@.len()
    }
}

proof fn lemma_signals_in_monotone(messages: Seq<Message>, a: int, b: int)
    requires
        0 <= a <= b <= messages.len(),
    ensures
        signals_in(messages, a) <= signals_in(messages, b),
    decreases b - a,
{
    if a < b {
        lemma_signals_in_monotone(messages, a, b - 1);
    }
}

/// The message with identifier `id`, if any.
pub open spec fn lookup(messages: Seq<Message>, id: CanId) -> Option<Message> {
    if exists|i: int| 0 <= i < messages.len() && messages[i].id == id {
        Some(messages[choose|i: int| 0 <= i < messages.len() && messages[i].id == id])
    } else {
        None
    }
}

proof fn lemma_lookup_found(messages: Seq<Message>, id: CanId, at: int)
    requires
        0 <= at < messages.len(),
        messages[at].id == id,
        forall|i: int, j: int|
            0 <= i < messages.len() && 0 <= j < messages.len() && i != j ==> messages[i].id
                != messages[j].id,
    ensures
        lookup(messages, id) == Some(messages[at]),
{
}

/// A message found at `at` is the one `lookup` gives, when identifiers are
/// distinct.
pub proof fn lemma_lookup_at(messages: Seq<Message>, id: CanId, at: int)
    requires
        0 <= at < messages.len(),
        messages[at].id == id,
        forall|i: int, j: int|
            0 <= i < messages.len() && 0 <= j < messages.len() && i != j ==> messages[i].id
                != messages[j].id,
    ensures
        lookup(messages, id) == Some(messages[at]),
{
}

proof fn lemma_lookup_absent(messages: Seq<Message>, id: CanId)
    requires
        forall|i: int| 0 <= i < messages.len() ==> #[trigger] messages[i].id != id,
    ensures
        lookup(messages, id) is None,
{
}

/// Index of the last of the first `n` messages with identifier `id`.
pub open spec fn find_id(messages: Seq<Message>, id: CanId, n: int) -> Option<int>
    decreases n,
{
    if n <= 0 {
        None
    } else if messages[n - 1].id == id {
        Some(n - 1)
    } else {
        find_id(messages, id, n - 1)
    }
}

/// `before` with `message` inserted: replacing the definition with the same
/// identifier in place, or appended when there is none.
pub open spec fn insert_message(before: Seq<Message>, message: Message) -> Seq<Message> {
    match find_id(before, message.id, before.len() as int) {
        Some(i) => before.update(i, message),
        None => before.push(message),
    }
}

pub proof fn lemma_find_id(messages: Seq<Message>, id: CanId, n: int)
    requires
        0 <= n <= messages.len(),
    ensures
        find_id(messages, id, n) matches Some(i) ==> 0 <= i < n && messages[i].id == id,
        find_id(messages, id, n) is None ==> forall|j: int| 0 <= j < n ==> #[trigger] messages[j].id != id,
    decreases n,
{
    if n > 0 {
        lemma_find_id(messages, id, n - 1);
    }
}

/// A signal as values: its text fields as character sequences.
pub struct SignalView {
    pub name: Seq<char>,
    pub start_bit: u16,
    pub length: u8,
    pub byte_order: ByteOrder,
    pub value_type: ValueType,
    pub factor: Seq<char>,
    pub offset: Seq<char>,
    pub min: Seq<char>,
    pub max: Seq<char>,
    pub unit: Seq<char>,
    pub multiplexing: Multiplexing,
    pub value_table: Seq<(i64, Seq<char>)>,
}

/// The labels of a value table as character sequences.
pub open spec fn table_view(table: Seq<(i64, String)>) -> Seq<(i64, Seq<char>)> {
    table.map_values(|e: (i64, String)| (e.0, e.1@))
}

impl View for Signal {
    type V = SignalView;

    open spec fn view(&self) -> SignalView {
        SignalView {
            name: self.name@,
            start_bit: self.start_bit,
            length: self.length,
            byte_order: self.byte_order,
            value_type: self.value_type,
            factor: self.factor@,
            offset: self.offset@,
            min: self.min@,
            max: self.max@,
            unit: self.unit@,
            multiplexing: self.multiplexing,
            value_table: table_view(self.value_table@),
        }
    }
}

/// A message as values.
pub struct MessageView {
    pub id: CanId,
    pub name: Seq<char>,
    pub dlc: u8,
    pub sender: Seq<char>,
    pub signals: Seq<SignalView>,
}

impl View for Message {
    type V = MessageView;

    open spec fn view(&self) -> MessageView {
        MessageView {
            id: self.id,
            name: self.name@,
            dlc: self.dlc,
            sender: self.sender@,
            signals: self.signals@.map_values(|s: Signal| s@),
        }
    }
}

/// The views of a sequence of messages.
pub open spec fn messages_view(messages: Seq<Message>) -> Seq<MessageView> {
    messages.map_values(|m: Message| m@)
}

/// Index of the last of the first `n` message views with identifier `id`.
pub open spec fn find_view_id(messages: Seq<MessageView>, id: CanId, n: int) -> Option<int>
    decreases n,
{
    if n <= 0 {
        None
    } else if messages[n - 1].id == id {
        Some(n - 1)
    } else {
        find_view_id(messages, id, n - 1)
    }
}

/// [`insert_message`] on views.
pub open spec fn insert_view(before: Seq<MessageView>, message: MessageView) -> Seq<MessageView> {
    match find_view_id(before, message.id, before.len() as int) {
        Some(i) => before.update(i, message),
        None => before.push(message),
    }
}

proof fn lemma_find_id_view(messages: Seq<Message>, id: CanId, n: int)
    requires
        0 <= n <= messages.len(),
    ensures
        find_view_id(messages_view(messages), id, n) == find_id(messages, id, n),
    decreases n,
{
    if n > 0 {
        lemma_find_id_view(messages, id, n - 1);
    }
}

/// Inserting a message and then taking views is taking views and then
/// inserting the message's view.
pub proof fn lemma_insert_view(before: Seq<Message>, message: Message)
    ensures
        messages_view(insert_message(before, message)) == insert_view(
            messages_view(before),
            message@,
        ),
{
    lemma_find_id_view(before, message.id, before.len() as int);
    lemma_find_id(before, message.id, before.len() as int);
    match find_id(before, message.id, before.len() as int) {
        Some(i) => {
            assert(messages_view(before.update(i, message)) =~= messages_view(before).update(
                i,
                message@,
            ));
        },
        None => {
            assert(messages_view(before.push(message)) =~= messages_view(before).push(message@));
        },
    }
}

} // verus!
