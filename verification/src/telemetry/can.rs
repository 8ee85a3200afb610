//! CAN frames and signal layouts as the telemetry stages carry them, and
//! the bit walk that reads a signal out of a frame.

use vstd::prelude::*;

use std::collections::HashMap;

use crate::dbc::types::{fits_unsigned, is_sign_extension, sign_extend, str_eq, word_bit};
use crate::decode::{bit_at, lemma_set_top_bit, lemma_shift_in_bit, motorola_pos, payload_bit};
use crate::telemetry::base::{epoch_nanos_opt, ChannelId, Timestamp, UtcMoment};
use crate::text::{append_decimal, decimal, push_str};

verus! {

broadcast use vstd::std_specs::hash::group_hash_axioms;

/// A CAN frame as the telemetry stages carry it.
#[derive(Debug, Clone, PartialEq, Eq)]
pub struct CanFrame {
    pub id: u32,
    pub data: Vec<u8>,
    pub is_extended: bool,
    pub is_remote: bool,
    pub timestamp: Timestamp,
}

impl CanFrame {
    /// A data frame received now, stamped with the clock's reading, as
    /// [`Self::with_timestamp`] makes it; identifiers above 11 bits are
    /// extended.
    pub fn new(id: u32, data: Vec<u8>) -> (f: CanFrame)
        ensures
            f.id == id,
            f.data@ == data@,
            f.is_extended == (id > 0x7FF),
            !f.is_remote,
            exists|m: UtcMoment|
                m.subsec_nanos < 1_000_000_000 && f.timestamp.nanos == match #[trigger] epoch_nanos_opt(m) {
                    Some(n) => n as u64,
                    None => 0,
                },
    {
        CanFrame::with_timestamp(id, data, Timestamp::now())
    }

    /// A data frame received at `timestamp`; identifiers above 11 bits are
    /// extended.
    pub fn with_timestamp(id: u32, data: Vec<u8>, timestamp: Timestamp) -> (f: CanFrame)
        ensures
            f.id == id,
            f.data@ == data@,
            f.is_extended == (id > 0x7FF),
            !f.is_remote,
            f.timestamp == timestamp,
    {
        CanFrame { id, data, is_extended: id > 0x7FF, is_remote: false, timestamp }
    }

    /// Payload length in bytes.
    pub fn len(&self) -> (n: usize)
        ensures
            n == self.data@.len(),
    {
        self.data.len()
    }

    /// Whether the frame carries no payload.
    pub fn is_empty(&self) -> (b: bool)
        ensures
            b == (self.data@.len() == 0),
    {
        self.data.len() == 0
    }
}

/// Signal byte order.
#[derive(Debug, Clone, Copy, PartialEq, Eq, Structural)]
pub enum SignalByteOrder {
    /// Big-endian.
    Motorola,
    /// Little-endian.
    Intel,
}

/// Signal value type.
#[derive(Debug, Clone, Copy, PartialEq, Eq, Structural)]
pub enum SignalValueType {
    Unsigned,
    Signed,
}

/// Multiplexer information for complex signals.
#[derive(Debug, Clone)]
pub struct MultiplexerInfo {
    pub switch_name: String,
    pub switch_value: u32,
}


/// CAN signal definition. The scale, offset and limits are `f64` values,
/// held here as their bits.
#[derive(Debug, Clone)]
pub struct CanSignal {
    pub name: String,
    pub channel_id: ChannelId,
    pub start_bit: u8,
    pub length: u8,
    pub byte_order: SignalByteOrder,
    pub value_type: SignalValueType,
    pub scale: u64,
    pub offset: u64,
    pub min_value: Option<u64>,
    pub max_value: Option<u64>,
    pub unit: String,
    pub multiplexer: Option<MultiplexerInfo>,
}

/// CAN message definition.
#[derive(Debug, Clone)]
pub struct CanMessage {
    pub id: u32,
    pub name: String,
    pub length: u8,
    pub sender: String,
    /// Milliseconds between transmissions.
    pub cycle_time: Option<u32>,
    pub signals: Vec<CanSignal>,
}

/// A message with its text fields as character sequences.
pub struct CanMessageView {
    pub id: u32,
    pub name: Seq<char>,
    pub length: u8,
    pub sender: Seq<char>,
    pub cycle_time: Option<u32>,
    pub signals: Seq<CanSignal>,
}

impl View for CanMessage {
    type V = CanMessageView;

    open spec fn view(&self) -> CanMessageView {
        CanMessageView {
            id: self.id,
            name: self.name@,
            length: self.length,
            sender: self.sender@,
            cycle_time: self.cycle_time,
            signals: self.signals@,
        }
    }
}

/// Whether `found` is the first of `signals` named `name`, or `None` when
/// no signal has that name.
pub open spec fn first_named(signals: Seq<CanSignal>, name: Seq<char>, found: Option<CanSignal>) -> bool {
    match found {
        Some(s) => exists|i: int|
            0 <= i < signals.len() && signals[i] == s && s.name@ == name && forall|j: int|
                0 <= j < i ==> (#[trigger] signals[j]).name@ != name,
        None => forall|j: int| 0 <= j < signals.len() ==> (#[trigger] signals[j]).name@ != name,
    }
}

/// The signal a lookup found, as a value.
pub open spec fn found_signal(r: Option<&CanSignal>) -> Option<CanSignal> {
    match r {
        Some(s) => Some(*s),
        None => None,
    }
}

impl CanMessage {
    /// A message with no sender, cycle time or signals.
    pub fn new(id: u32, name: String, length: u8) -> (m: CanMessage)
        ensures
            m@ == (CanMessageView {
                id,
                name: name@,
                length,
                sender: Seq::empty(),
                cycle_time: None,
                signals: Seq::empty(),
            }),
    {
        let sender = String::new();
        let signals: Vec<CanSignal> = Vec::new();
        assert(signals@ =~= Seq::<CanSignal>::empty());
        CanMessage { id, name, length, sender, cycle_time: None, signals }
    }

    /// Append a signal.
    pub fn add_signal(&mut self, signal: CanSignal)
        ensures
            final(self)@ == (CanMessageView { signals: old(self)@.signals.push(signal), ..old(self)@ }),
    {
        self.signals.push(signal);
    }

    /// The first signal called `name`.
    pub fn get_signal(&self, name: &str) -> (r: Option<&CanSignal>)
        ensures
            first_named(self.signals@, name@, found_signal(r)),
    {
        let mut i: usize = 0;
        while i < self.signals.len()
            invariant
                i <= self.signals@.len(),
                forall|j: int| 0 <= j < i ==> (#[trigger] self.signals@[j]).name@ != name@,
            decreases self.signals@.len() - i,
        {
            if str_eq(self.signals[i].name.as_str(), name) {
                return Some(&self.signals[i]);
            }
            i = i + 1;
        }
        None
    }
}

/// What a signal's bits read as: the raw value, or the sign-extension of a
/// signed signal whose top bit is set.
#[derive(Debug, Clone, Copy, PartialEq, Eq, Structural)]
pub enum SignalReading {
    Unsigned(u64),
    Signed(i64),
}

/// The payload bit that lands in bit `i` of a signal's raw value. Intel
/// signals ascend from the start bit, least significant bit first. Motorola
/// signals start at their most significant bit, descend within a byte, and
/// on leaving bit 0 continue at bit 7 of the next byte.
pub open spec fn can_bit(data: Seq<u8>, signal: CanSignal, i: int) -> u64 {
    let start = signal.start_bit as int;
    match signal.byte_order {
        SignalByteOrder::Intel => payload_bit(data, start + i),
        SignalByteOrder::Motorola => payload_bit(data, motorola_pos(start, signal.length - 1 - i)),
    }
}

/// Whether `raw` is what `signal` reads from `data`.
pub open spec fn reads_raw(data: Seq<u8>, signal: CanSignal, raw: u64) -> bool {
    &&& fits_unsigned(raw, signal.length as int)
    &&& forall|i: int|
        0 <= i < signal.length ==> #[trigger] word_bit(raw, i) == can_bit(data, signal, i)
}

/// Whether a raw value of `signal` is negative: the signal is signed,
/// narrower than 64 bits, and its top bit is set.
pub open spec fn sign_set(signal: CanSignal, raw: u64) -> bool {
    &&& signal.value_type == SignalValueType::Signed
    &&& signal.length < 64
    &&& word_bit(raw, signal.length - 1) == 1
}

/// Whether `v` is what `signal` reads from `data`: its raw value, or the
/// sign-extension of a negative one.
pub open spec fn read_as(data: Seq<u8>, signal: CanSignal, v: SignalReading) -> bool {
    match v {
        SignalReading::Unsigned(raw) => reads_raw(data, signal, raw) && !sign_set(signal, raw),
        SignalReading::Signed(n) => exists|raw: u64|
            reads_raw(data, signal, raw) && sign_set(signal, raw) && is_sign_extension(
                raw,
                signal.length as int,
                n,
            ),
    }
}

/// The byte that holds a signal's last position: the Intel most
/// significant bit, or the last bit of the Motorola walk.
pub open spec fn last_byte(signal: CanSignal) -> int {
    match signal.byte_order {
        SignalByteOrder::Intel => (signal.start_bit + signal.length - 1) / 8,
        SignalByteOrder::Motorola => signal.start_bit / 8 + (7 - signal.start_bit % 8 + signal.length - 1) / 8,
    }
}

fn read_intel(data: &[u8], signal: &CanSignal, start: usize, length: usize) -> (raw: u64)
    requires
        signal.byte_order == SignalByteOrder::Intel,
        start == signal.start_bit,
        length == signal.length,
        1 <= length <= 64,
        last_byte(*signal) < data@.len(),
    ensures
        reads_raw(data@, *signal, raw),
{
    let mut raw = 0u64;
    let mut i: usize = 0;
    assert(0u64 >> 0u64 == 0u64) by (bit_vector);
    while i < length
        invariant
            signal.byte_order == SignalByteOrder::Intel,
            start == signal.start_bit,
            length == signal.length,
            1 <= length <= 64,
            last_byte(*signal) < data@.len(),
            i <= length,
            fits_unsigned(raw, i as int),
            forall|j: int| 0 <= j < i ==> #[trigger] word_bit(raw, j) == can_bit(data@, *signal, j),
        decreases length - i,
    {
        assert((start + i) / 8 <= (start + length - 1) / 8);
        let b = bit_at(data, start + i);
        let ghost old_raw = raw;
        raw = raw | (b << (i as u64));
        proof {
            assert forall|j: int| 0 <= j < i + 1 implies #[trigger] word_bit(raw, j) == can_bit(
                data@,
                *signal,
                j,
            ) by {
                lemma_set_top_bit(old_raw, b, i as u64, j as u64);
                if j < i {
                    assert(word_bit(old_raw, j) == can_bit(data@, *signal, j));
                }
            }
            lemma_set_top_bit(old_raw, b, i as u64, 0);
        }
        i = i + 1;
    }
    raw
}

fn read_motorola(data: &[u8], signal: &CanSignal, start: usize, length: usize) -> (raw: u64)
    requires
        signal.byte_order == SignalByteOrder::Motorola,
        start == signal.start_bit,
        length == signal.length,
        1 <= length <= 64,
        last_byte(*signal) < data@.len(),
    ensures
        reads_raw(data@, *signal, raw),
{
    let mut raw = 0u64;
    let mut k: usize = 0;
    assert(0u64 >> 0u64 == 0u64) by (bit_vector);
    while k < length
        invariant
            signal.byte_order == SignalByteOrder::Motorola,
            start == signal.start_bit,
            start < 256,
            length == signal.length,
            1 <= length <= 64,
            last_byte(*signal) < data@.len(),
            k <= length,
            fits_unsigned(raw, k as int),
            forall|j: int|
                0 <= j < k ==> #[trigger] word_bit(raw, k - 1 - j) == payload_bit(
                    data@,
                    motorola_pos(start as int, j),
                ),
        decreases length - k,
    {
        let q = 7 - start % 8 + k;
        let pos = 8 * (start / 8 + q / 8) + 7 - q % 8;
        assert(pos == motorola_pos(start as int, k as int));
        assert(q / 8 <= (7 - start % 8 + length - 1) / 8);
        assert(pos / 8 == start / 8 + q / 8);
        let b = bit_at(data, pos);
        let ghost old_raw = raw;
        raw = (raw << 1u64) | b;
        proof {
            assert forall|j: int| 0 <= j < k + 1 implies #[trigger] word_bit(raw, k + 1 - 1 - j)
                == payload_bit(data@, motorola_pos(start as int, j)) by {
                if j < k {
                    lemma_shift_in_bit(old_raw, b, k as u64, (k - 1 - j) as u64);
                    assert(word_bit(old_raw, k - 1 - j) == payload_bit(data@, motorola_pos(start as int, j)));
                } else {
                    lemma_shift_in_bit(old_raw, b, k as u64, 0);
                }
            }
            lemma_shift_in_bit(old_raw, b, k as u64, 0);
        }
        k = k + 1;
    }
    proof {
        assert forall|i: int| 0 <= i < length implies #[trigger] word_bit(raw, i) == can_bit(
            data@,
            *signal,
            i,
        ) by {
            let j = length - 1 - i;
            assert(word_bit(raw, length - 1 - j) == payload_bit(data@, motorola_pos(start as int, j)));
        }
    }
    raw
}

/// Read a signal out of a frame's payload, before scaling.
///
/// The payload must not be empty, the signal must be one to 64 bits long,
/// and the byte holding its last position must be in the payload.
pub fn extract_signal_value(data: &[u8], signal: &CanSignal) -> (r: Result<SignalReading, String>)
    ensures
        data@.len() == 0 ==> (r matches Err(m) && m@ == "Empty data"@),
        data@.len() > 0 && (signal.length == 0 || signal.length > 64) ==> (r matches Err(m) && m@
            == "Invalid signal length: "@ + decimal(signal.length as nat)),
        data@.len() > 0 && 1 <= signal.length <= 64 && last_byte(*signal) >= data@.len() ==> (r matches Err(
            m,
        ) && m@ == "Signal extends beyond data length: end_byte="@ + decimal(
            last_byte(*signal) as nat,
        ) + ", data_len="@ + decimal(data@.len())),
        data@.len() > 0 && 1 <= signal.length <= 64 && last_byte(*signal) < data@.len() ==> (r matches Ok(
            v,
        ) && read_as(data@, *signal, v)),
{
    if data.len() == 0 {
        let mut m = String::new();
        push_str(&mut m, "Empty data");
        return Err(m);
    }
    let start = signal.start_bit as usize;
    let length = signal.length as usize;
    if length == 0 || length > 64 {
        let mut m = String::new();
        push_str(&mut m, "Invalid signal length: ");
        append_decimal(&mut m, length as u64);
        return Err(m);
    }
    let end_byte = match signal.byte_order {
        SignalByteOrder::Intel => (start + length - 1) / 8,
        SignalByteOrder::Motorola => start / 8 + (7 - start % 8 + length - 1) / 8,
    };
    if end_byte >= data.len() {
        let mut m = String::new();
        push_str(&mut m, "Signal extends beyond data length: end_byte=");
        append_decimal(&mut m, end_byte as u64);
        push_str(&mut m, ", data_len=");
        append_decimal(&mut m, data.len() as u64);
        return Err(m);
    }
    let raw = match signal.byte_order {
        SignalByteOrder::Intel => read_intel(data, signal, start, length),
        SignalByteOrder::Motorola => read_motorola(data, signal, start, length),
    };
    match signal.value_type {
        SignalValueType::Unsigned => Ok(SignalReading::Unsigned(raw)),
        SignalValueType::Signed => {
            if length < 64 && (raw >> ((length - 1) as u64)) & 1 != 0 {
                let v = sign_extend(raw, signal.length);
                proof {
                    let t = (raw >> ((length - 1) as u64)) & 1;
                    assert(t != 0 ==> t == 1) by (bit_vector)
                        requires
                            t == (raw >> ((length - 1) as u64)) & 1,
                    ;
                    assert(sign_set(*signal, raw));
                    assert(reads_raw(data@, *signal, raw) && sign_set(*signal, raw)
                        && is_sign_extension(raw, signal.length as int, v));
                }
                Ok(SignalReading::Signed(v))
            } else {
                Ok(SignalReading::Unsigned(raw))
            }
        },
    }
}

/// Where the message with identifier `id` stands among the first `n` of
/// `ms`: the last such position, or `None`.
pub open spec fn find_can(ms: Seq<CanMessageView>, id: u32, n: int) -> Option<int>
    decreases n,
{
    if n <= 0 {
        None
    } else if ms[n - 1].id == id {
        Some(n - 1)
    } else {
        find_can(ms, id, n - 1)
    }
}

pub proof fn lemma_find_can(ms: Seq<CanMessageView>, id: u32, n: int)
    requires
        0 <= n <= ms.len(),
    ensures
        find_can(ms, id, n) matches Some(i) ==> 0 <= i < n && ms[i].id == id && forall|j: int|
            i < j < n ==> #[trigger] ms[j].id != id,
        find_can(ms, id, n) is None ==> forall|j: int| 0 <= j < n ==> #[trigger] ms[j].id != id,
    decreases n,
{
    if n > 0 {
        lemma_find_can(ms, id, n - 1);
    }
}

/// `before` with `m` added: replacing the message with the same identifier
/// in place, or appended when there is none.
pub open spec fn insert_can(before: Seq<CanMessageView>, m: CanMessageView) -> Seq<CanMessageView> {
    match find_can(before, m.id, before.len() as int) {
        Some(i) => before.update(i, m),
        None => before.push(m),
    }
}

/// A message added to a database is the one found under its identifier
/// afterwards, and the other identifiers find what they found before.
pub proof fn lemma_add_then_get(ms: Seq<CanMessageView>, m: CanMessageView, other: u32)
    requires
        other != m.id,
    ensures
        lookup_can(insert_can(ms, m), m.id) == Some(m),
        lookup_can(insert_can(ms, m), other) == lookup_can(ms, other),
{
    lemma_find_can(ms, m.id, ms.len() as int);
    let after = insert_can(ms, m);
    lemma_find_can_update(ms, m, other, ms.len() as int);
    match find_can(ms, m.id, ms.len() as int) {
        Some(i) => {
            assert forall|j: int| i < j < after.len() implies #[trigger] after[j].id != m.id by {
                assert(after[j] == ms[j]);
            }
            lemma_find_can_at(after, m.id, i, after.len() as int);
            lemma_find_can(ms, other, ms.len() as int);
            if let Some(k) = find_can(ms, other, ms.len() as int) {
                assert(k != i);
                assert(after[k] == ms[k]);
            }
        },
        None => {
            assert(after[after.len() - 1] == m);
            assert(after[ms.len() as int].id != other);
            assert(find_can(after, other, after.len() as int) == find_can(after, other, ms.len() as int));
            lemma_find_can(ms, other, ms.len() as int);
            if let Some(k) = find_can(ms, other, ms.len() as int) {
                assert(after[k] == ms[k]);
            }
        },
    }
}

proof fn lemma_find_can_at(ms: Seq<CanMessageView>, id: u32, i: int, n: int)
    requires
        0 <= i < n <= ms.len(),
        ms[i].id == id,
        forall|j: int| i < j < n ==> #[trigger] ms[j].id != id,
    ensures
        find_can(ms, id, n) == Some(i),
    decreases n,
{
    if n - 1 != i {
        lemma_find_can_at(ms, id, i, n - 1);
    }
}

proof fn lemma_find_can_update(ms: Seq<CanMessageView>, m: CanMessageView, other: u32, n: int)
    requires
        other != m.id,
        0 <= n <= ms.len(),
    ensures
        find_can(insert_can(ms, m), other, n) == find_can(ms, other, n),
    decreases n,
{
    lemma_find_can(ms, m.id, ms.len() as int);
    let after = insert_can(ms, m);
    if n > 0 {
        lemma_find_can_update(ms, m, other, n - 1);
        assert(after[n - 1].id == other <==> ms[n - 1].id == other);
    }
}

/// The message with identifier `id`, if there is one.
pub open spec fn lookup_can(ms: Seq<CanMessageView>, id: u32) -> Option<CanMessageView> {
    match find_can(ms, id, ms.len() as int) {
        Some(i) => Some(ms[i]),
        None => None,
    }
}

/// The signal-name index `entries` describe, later entries taking
/// precedence.
pub open spec fn name_index(entries: Seq<(String, u32)>) -> Map<Seq<char>, u32>
    decreases entries.len(),
{
    if entries.len() == 0 {
        Map::empty()
    } else {
        name_index(entries.drop_last()).insert(entries.last().0@, entries.last().1)
    }
}

/// `index` with every signal of `signals`, in order, pointed at message `id`.
pub open spec fn indexed(index: Map<Seq<char>, u32>, signals: Seq<CanSignal>, id: u32) -> Map<
    Seq<char>,
    u32,
>
    decreases signals.len(),
{
    if signals.len() == 0 {
        index
    } else {
        indexed(index, signals.drop_last(), id).insert(signals.last().name@, id)
    }
}

/// Whether no two entries of the index share a name.
pub open spec fn distinct_entries(entries: Seq<(String, u32)>) -> bool {
    forall|i: int, j: int| 0 <= i < j < entries.len() ==> entries[i].0@ != entries[j].0@
}

proof fn lemma_name_index_has(v: Seq<(String, u32)>, i: int)
    requires
        distinct_entries(v),
        0 <= i < v.len(),
    ensures
        name_index(v).contains_key(v[i].0@),
        name_index(v)[v[i].0@] == v[i].1,
    decreases v.len(),
{
    if i < v.len() - 1 {
        lemma_name_index_has(v.drop_last(), i);
    }
}

proof fn lemma_name_index_lacks(v: Seq<(String, u32)>, name: Seq<char>)
    requires
        forall|i: int| 0 <= i < v.len() ==> (#[trigger] v[i]).0@ != name,
    ensures
        !name_index(v).contains_key(name),
    decreases v.len(),
{
    if v.len() > 0 {
        lemma_name_index_lacks(v.drop_last(), name);
    }
}

proof fn lemma_name_index_update(v: Seq<(String, u32)>, i: int, e: (String, u32))
    requires
        distinct_entries(v),
        0 <= i < v.len(),
        v[i].0@ == e.0@,
    ensures
        name_index(v.update(i, e)) == name_index(v).insert(e.0@, e.1),
    decreases v.len(),
{
    let w = v.update(i, e);
    if i == v.len() - 1 {
        assert(w.drop_last() =~= v.drop_last());
        assert(name_index(w) =~= name_index(v).insert(e.0@, e.1));
    } else {
        assert(w.drop_last() =~= v.drop_last().update(i, e));
        lemma_name_index_update(v.drop_last(), i, e);
        assert(name_index(w) =~= name_index(v).insert(e.0@, e.1));
    }
}

proof fn lemma_name_index_len(v: Seq<(String, u32)>)
    requires
        distinct_entries(v),
    ensures
        name_index(v).dom().finite(),
        name_index(v).dom().len() == v.len(),
    decreases v.len(),
{
    if v.len() > 0 {
        let u = v.drop_last();
        assert(distinct_entries(u));
        lemma_name_index_len(u);
        assert forall|i: int| 0 <= i < u.len() implies (#[trigger] u[i]).0@ != v.last().0@ by {
            assert(v[i] == u[i]);
        }
        lemma_name_index_lacks(u, v.last().0@);
    }
}

/// CAN database: message definitions by identifier, and the message each
/// signal name was last defined in.
#[derive(Debug, Clone)]
pub struct CanDatabase {
    messages: Vec<CanMessage>,
    index: HashMap<u32, usize>,
    signals_by_name: Vec<(String, u32)>,
}

impl CanDatabase {
    /// The messages, in the order their identifiers were first added.
    pub closed spec fn spec_messages(&self) -> Seq<CanMessageView> {
        self.messages@.map_values(|m: CanMessage| m@)
    }

    /// The message each signal name points at.
    pub closed spec fn signal_index(&self) -> Map<Seq<char>, u32> {
        name_index(self.signals_by_name@)
    }

    /// The identifier index agrees with the messages, and the signal index
    /// holds each name once.
    pub closed spec fn well_formed(&self) -> bool {
        &&& forall|k: u32| #[trigger]
            self.index@.contains_key(k) ==> self.index@[k] < self.messages@.len()
                && self.messages@[self.index@[k] as int].id == k
        &&& forall|i: int|
            0 <= i < self.messages@.len() ==> self.index@.contains_key(
                (#[trigger] self.messages@[i]).id,
            ) && self.index@[self.messages@[i].id] == i
        &&& distinct_entries(self.signals_by_name@)
    }

    proof fn lemma_unique_ids(&self, i: int, j: int)
        requires
            self.well_formed(),
            0 <= i < self.messages@.len(),
            0 <= j < self.messages@.len(),
            i != j,
        ensures
            self.messages@[i].id != self.messages@[j].id,
    {
        assert(self.index@[self.messages@[i].id] == i);
        assert(self.index@[self.messages@[j].id] == j);
    }

    /// An empty database.
    pub fn new() -> (db: CanDatabase)
        ensures
            db.well_formed(),
            db.spec_messages() == Seq::<CanMessageView>::empty(),
            db.signal_index() == Map::<Seq<char>, u32>::empty(),
    {
        let db = CanDatabase { messages: Vec::new(), index: HashMap::new(), signals_by_name: Vec::new() };
        assert(db.spec_messages() =~= Seq::<CanMessageView>::empty());
        assert(db.signals_by_name@ =~= Seq::<(String, u32)>::empty());
        db
    }

    /// Point the signal name `name` at message `id`.
    fn index_signal(&mut self, name: &String, id: u32)
        requires
            old(self).well_formed(),
        ensures
            final(self).well_formed(),
            final(self).spec_messages() == old(self).spec_messages(),
            final(self).signal_index() == old(self).signal_index().insert(name@, id),
    {
        let ghost v = self.signals_by_name@;
        let mut i: usize = 0;
        while i < self.signals_by_name.len()
            invariant
                self.signals_by_name@ == v,
                v == old(self).signals_by_name@,
                self.messages@ == old(self).messages@,
                self.index@ == old(self).index@,
                self.well_formed(),
                i <= v.len(),
                forall|j: int| 0 <= j < i ==> (#[trigger] v[j]).0@ != name@,
            decreases v.len() - i,
        {
            if str_eq(self.signals_by_name[i].0.as_str(), name.as_str()) {
                let entry = (name.clone(), id);
                proof {
                    lemma_name_index_update(v, i as int, entry);
                }
                self.signals_by_name.set(i, entry);
                assert(self.signals_by_name@ == v.update(i as int, entry));
                assert(distinct_entries(self.signals_by_name@)) by {
                    assert forall|a: int, b: int|
                        0 <= a < b < self.signals_by_name@.len() implies self.signals_by_name@[a].0@
                        != self.signals_by_name@[b].0@ by {
                        assert(v[a].0@ != v[b].0@);
                    }
                }
                return;
            }
            i = i + 1;
        }
        let entry = (name.clone(), id);
        self.signals_by_name.push(entry);
        proof {
            assert(self.signals_by_name@.drop_last() =~= v);
            assert(distinct_entries(self.signals_by_name@)) by {
                assert forall|a: int, b: int|
                    0 <= a < b < self.signals_by_name@.len() implies self.signals_by_name@[a].0@
                    != self.signals_by_name@[b].0@ by {
                    if b < v.len() {
                        assert(v[a].0@ != v[b].0@);
                    } else {
                        assert(self.signals_by_name@[a] == v[a]);
                    }
                }
            }
        }
    }

    /// Add a message, replacing the one with the same identifier, and point
    /// each of its signal names at it.
    pub fn add_message(&mut self, message: CanMessage)
        requires
            old(self).well_formed(),
        ensures
            final(self).well_formed(),
            final(self).spec_messages() == insert_can(old(self).spec_messages(), message@),
            final(self).signal_index() == indexed(
                old(self).signal_index(),
                message.signals@,
                message.id,
            ),
    {
        let ghost start = self.signal_index();
        let mut i: usize = 0;
        while i < message.signals.len()
            invariant
                self.well_formed(),
                self.spec_messages() == old(self).spec_messages(),
                i <= message.signals@.len(),
                self.signal_index() == indexed(start, message.signals@.take(i as int), message.id),
            decreases message.signals@.len() - i,
        {
            self.index_signal(&message.signals[i].name, message.id);
            proof {
                let t = message.signals@.take(i + 1);
                assert(t.drop_last() =~= message.signals@.take(i as int));
                assert(t.last() == message.signals@[i as int]);
            }
            i = i + 1;
        }
        assert(message.signals@.take(message.signals@.len() as int) =~= message.signals@);
        let ghost before = self.messages@;
        let ghost views = self.spec_messages();
        proof {
            lemma_find_can(views, message.id, views.len() as int);
        }
        match self.index.get(&message.id) {
            Some(found) => {
                let at = *found;
                proof {
                    match find_can(views, message.id, views.len() as int) {
                        Some(c) => {
                            if c != at {
                                self.lemma_unique_ids(c, at as int);
                            }
                        },
                        None => {
                            assert(views[at as int].id == message.id);
                        },
                    }
                }
                self.messages.set(at, message);
                proof {
                    assert forall|i: int| 0 <= i < self.messages@.len() implies self.index@.contains_key(
                        (#[trigger] self.messages@[i]).id,
                    ) && self.index@[self.messages@[i].id] == i by {
                        if i != at {
                            assert(self.messages@[i] == before[i]);
                        }
                    }
                    assert(self.spec_messages() =~= views.update(at as int, message@));
                }
            },
            None => {
                let at = self.messages.len();
                let id = message.id;
                self.messages.push(message);
                self.index.insert(id, at);
                proof {
                    assert forall|k: u32| #[trigger]
                        self.index@.contains_key(k) implies self.index@[k] < self.messages@.len()
                        && self.messages@[self.index@[k] as int].id == k by {
                        if k != id {
                            assert(self.messages@[self.index@[k] as int] == before[self.index@[k] as int]);
                        }
                    }
                    assert forall|i: int| 0 <= i < self.messages@.len() implies self.index@.contains_key(
                        (#[trigger] self.messages@[i]).id,
                    ) && self.index@[self.messages@[i].id] == i by {
                        if i < at {
                            assert(self.messages@[i] == before[i]);
                            assert(before[i].id != id);
                        }
                    }
                    match find_can(views, message.id, views.len() as int) {
                        Some(c) => {
                            assert(views[c] == before[c]@);
                            assert(self.index@.contains_key(before[c].id));
                        },
                        None => {},
                    }
                    assert(self.spec_messages() =~= views.push(message@));
                }
            },
        }
    }

    /// The message with identifier `id`.
    pub fn get_message(&self, id: u32) -> (r: Option<&CanMessage>)
        requires
            self.well_formed(),
        ensures
            match r {
                Some(m) => lookup_can(self.spec_messages(), id) == Some(m@),
                None => lookup_can(self.spec_messages(), id) is None,
            },
    {
        let ghost views = self.spec_messages();
        proof {
            lemma_find_can(views, id, views.len() as int);
        }
        match self.index.get(&id) {
            Some(found) => {
                let at = *found;
                proof {
                    match find_can(views, id, views.len() as int) {
                        Some(c) => {
                            if c != at {
                                self.lemma_unique_ids(c, at as int);
                            }
                        },
                        None => {
                            assert(views[at as int].id == id);
                        },
                    }
                }
                Some(&self.messages[at])
            },
            None => {
                proof {
                    match find_can(views, id, views.len() as int) {
                        Some(c) => {
                            assert(self.index@.contains_key(self.messages@[c].id));
                        },
                        None => {},
                    }
                }
                None
            },
        }
    }

    /// The signal called `name`, looked up in the message its name was last
    /// defined in.
    pub fn get_signal_by_name(&self, name: &str) -> (r: Option<&CanSignal>)
        requires
            self.well_formed(),
        ensures
            self.signal_index().contains_key(name@) ==> match lookup_can(
                self.spec_messages(),
                self.signal_index()[name@],
            ) {
                Some(m) => first_named(m.signals, name@, found_signal(r)),
                None => r is None,
            },
            !self.signal_index().contains_key(name@) ==> r is None,
    {
        let ghost v = self.signals_by_name@;
        let mut i: usize = 0;
        while i < self.signals_by_name.len()
            invariant
                self.signals_by_name@ == v,
                self.well_formed(),
                i <= v.len(),
                forall|j: int| 0 <= j < i ==> (#[trigger] v[j]).0@ != name@,
            decreases v.len() - i,
        {
            if str_eq(self.signals_by_name[i].0.as_str(), name) {
                proof {
                    lemma_name_index_has(v, i as int);
                }
                let id = self.signals_by_name[i].1;
                return match self.get_message(id) {
                    Some(m) => m.get_signal(name),
                    None => None,
                };
            }
            i = i + 1;
        }
        proof {
            lemma_name_index_lacks(v, name@);
        }
        None
    }

    /// Every message, in the order their identifiers were first added.
    pub fn get_all_messages(&self) -> (r: Vec<&CanMessage>)
        ensures
            r@.len() == self.spec_messages().len(),
            forall|k: int| 0 <= k < r@.len() ==> (#[trigger] r@[k])@ == self.spec_messages()[k],
    {
        let mut r: Vec<&CanMessage> = Vec::new();
        let mut i: usize = 0;
        while i < self.messages.len()
            invariant
                i <= self.messages@.len(),
                r@.len() == i,
                forall|k: int| 0 <= k < i ==> (#[trigger] r@[k])@ == self.messages@[k]@,
            decreases self.messages@.len() - i,
        {
            r.push(&self.messages[i]);
            i = i + 1;
        }
        r
    }

    /// How many messages are defined.
    pub fn message_count(&self) -> (n: usize)
        ensures
            n == self.spec_messages().len(),
    {
        self.messages.len()
    }

    /// How many distinct signal names are indexed.
    pub fn signal_count(&self) -> (n: usize)
        requires
            self.well_formed(),
        ensures
            self.signal_index().dom().finite(),
            n == self.signal_index().dom().len(),
    {
        proof {
            lemma_name_index_len(self.signals_by_name@);
        }
        self.signals_by_name.len()
    }
}

impl Default for CanDatabase {
    /// An empty database.
    fn default() -> (db: CanDatabase)
        ensures
            db.well_formed(),
            db.spec_messages() == Seq::<CanMessageView>::empty(),
            db.signal_index() == Map::<Seq<char>, u32>::empty(),
    {
        CanDatabase::new()
    }
}

} // verus!
