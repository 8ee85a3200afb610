//! DBC text into a [`CanDatabase`], and builders for databases written in
//! code.
//!
//! The telemetry reader trims every line, starts a message at each `BO_`
//! record and adds each `SG_` record under a message to it, numbering the
//! signals from channel 1 in the order they are read. Blank lines, `#`
//! comments and every other record are skipped. The numbers of a signal
//! record (scale, offset, limits) are `f64` values: the reader keeps their
//! text and a caller-supplied function turns it into bits.

use vstd::prelude::*;

use crate::dbc::parser::{lemma_line_end_bounds, line_at, line_end};
use crate::telemetry::base::{ChannelId, TelemetryError};
use crate::telemetry::ingestion::UNIT_SCALE;
use crate::telemetry::can::{
    find_can, indexed, insert_can, lemma_find_can, CanDatabase, CanMessage, CanMessageView, CanSignal, SignalByteOrder,
    SignalValueType,
};
use crate::text::{
    chars_of, find, find_char, lemma_find_char, find_last_char, first_part, has_prefix, is_float, is_float_text,
    next_token, parse_uint, parse_unsigned, part_after, part_before, push_str, rfind, second_part,
    starts_with, string_of, token_at, token_vec, trim, trim_end_char, trimmed, without_trailing,
};

verus! {

/// The message for a record that has fewer than four fields.
pub open spec fn invalid_line(line: Seq<char>) -> Seq<char> {
    "Invalid message line: "@ + line
}

/// A `BO_ <id> <name>: <dlc> [<sender>]` record, its fields separated by
/// whitespace: the identifier in decimal (see [`message_id`]), the name without trailing colons,
/// the data length code in decimal, and the sender if a fifth field follows.
#[verifier::opaque]
pub open spec fn spec_message_line(line: Seq<char>) -> Result<CanMessageView, Seq<char>> {
    match token_at(line, 0) {
        None => Err(invalid_line(line)),
        Some((a0, b0)) => match token_at(line, b0) {
            None => Err(invalid_line(line)),
            Some((a1, b1)) => match token_at(line, b1) {
                None => Err(invalid_line(line)),
                Some((a2, b2)) => match token_at(line, b2) {
                    None => Err(invalid_line(line)),
                    Some((a3, b3)) => {
                        let id_text = line.subrange(a1, b1);
                        let dlc_text = line.subrange(a3, b3);
                        match parse_unsigned(id_text, 10, 0xFFFF_FFFF) {
                            None => Err("Invalid message ID: "@ + id_text),
                            Some(id) => match parse_unsigned(dlc_text, 10, 0xFF) {
                                None => Err("Invalid DLC: "@ + dlc_text),
                                Some(dlc) => Ok(
                                    CanMessageView {
                                        id: message_id(id as u32),
                                        name: trim_end_char(line.subrange(a2, b2), ':'),
                                        length: dlc as u8,
                                        sender: match token_at(line, b3) {
                                            Some((a4, b4)) => line.subrange(a4, b4),
                                            None => Seq::empty(),
                                        },
                                        cycle_time: None,
                                        signals: Seq::empty(),
                                    },
                                ),
                            },
                        }
                    },
                },
            },
        },
    }
}

/// The identifier a `BO_` record's number stands for: with bit 31 set, the
/// DBC mark of a 29-bit identifier, the low 29 bits; otherwise the number.
pub open spec fn message_id(raw: u32) -> u32 {
    if raw >= 0x8000_0000 {
        (raw % 0x2000_0000) as u32
    } else {
        raw
    }
}

/// The `BO_ ` prefix.
pub open spec fn message_tag() -> Seq<char> {
    seq!['B', 'O', '_', ' ']
}

/// The `SG_ ` prefix.
pub open spec fn signal_tag() -> Seq<char> {
    seq!['S', 'G', '_', ' ']
}

/// A signal record without surrounding whitespace and without its `SG_ `
/// tag.
pub open spec fn signal_body(line: Seq<char>) -> Seq<char> {
    let t = trim(line);
    if starts_with(t, signal_tag()) {
        t.skip(4)
    } else {
        t
    }
}

/// A number's text, kept when `f64` parsing accepts it.
#[verifier::opaque]
pub open spec fn float_field(s: Seq<char>) -> Option<Seq<char>> {
    if is_float_text(s) {
        Some(s)
    } else {
        None
    }
}

/// [`float_field`] of a part that may be missing.
pub open spec fn float_part(p: Option<Seq<char>>) -> Option<Seq<char>> {
    match p {
        Some(s) => float_field(s),
        None => None,
    }
}

/// The texts of the scale and offset of a definition whose `@` stands at
/// `at`: the two first comma-separated parts between `(` (or, without one,
/// the position three past the `@`) and `)` (or the end).
#[verifier::opaque]
pub open spec fn scale_offset(rest: Seq<char>, at: int) -> (Option<Seq<char>>, Option<Seq<char>>) {
    let ps = match find_char(rest, '(') {
        Some(i) => i,
        None => at + 3,
    };
    let pe = match find_char(rest, ')') {
        Some(i) => i,
        None => rest.len() as int,
    };
    if ps < pe {
        let inner = rest.subrange(ps + 1, pe);
        (float_field(first_part(inner, ',')), float_part(second_part(inner, ',')))
    } else {
        (None, None)
    }
}

/// The texts of the minimum and maximum: the two first `|`-separated parts
/// between `[` and `]`, when the definition holds both.
#[verifier::opaque]
pub open spec fn limits(rest: Seq<char>) -> (Option<Seq<char>>, Option<Seq<char>>) {
    match (find_char(rest, '['), find_char(rest, ']')) {
        (Some(a), Some(b)) => {
            let inner = rest.subrange(a + 1, b);
            (float_field(first_part(inner, '|')), float_part(second_part(inner, '|')))
        },
        _ => (None, None),
    }
}

/// The unit: the text between the first and the last `"`, if they differ.
#[verifier::opaque]
pub open spec fn unit_text(rest: Seq<char>) -> Seq<char> {
    match (find_char(rest, '"'), find_last_char(rest, '"')) {
        (Some(a), Some(b)) => if a < b {
            rest.subrange(a + 1, b)
        } else {
            Seq::empty()
        },
        _ => Seq::empty(),
    }
}

/// `0` right after the `@` marks Motorola order; anything else is Intel.
pub open spec fn order_at(rest: Seq<char>, at: int) -> SignalByteOrder {
    if at + 1 < rest.len() && rest[at + 1] == '0' {
        SignalByteOrder::Motorola
    } else {
        SignalByteOrder::Intel
    }
}

/// `-` two past the `@` marks a signed signal; anything else is unsigned.
pub open spec fn type_at(rest: Seq<char>, at: int) -> SignalValueType {
    if at + 2 < rest.len() && rest[at + 2] == '-' {
        SignalValueType::Signed
    } else {
        SignalValueType::Unsigned
    }
}

/// A signal record as read, its numbers kept as text: `f64` values are
/// turned into bits by whoever builds a [`CanSignal`] from it.
#[derive(Debug, Clone)]
pub struct SignalLine {
    pub name: String,
    pub channel_id: ChannelId,
    pub start_bit: u8,
    pub length: u8,
    pub byte_order: SignalByteOrder,
    pub value_type: SignalValueType,
    /// Absent when missing or not a number; then the scale is 1.
    pub scale: Option<String>,
    /// Absent when missing or not a number; then the offset is 0.
    pub offset: Option<String>,
    pub min_value: Option<String>,
    pub max_value: Option<String>,
    pub unit: String,
}

/// A signal record with its texts as character sequences.
pub struct SignalLineView {
    pub name: Seq<char>,
    pub channel_id: ChannelId,
    pub start_bit: u8,
    pub length: u8,
    pub byte_order: SignalByteOrder,
    pub value_type: SignalValueType,
    pub scale: Option<Seq<char>>,
    pub offset: Option<Seq<char>>,
    pub min_value: Option<Seq<char>>,
    pub max_value: Option<Seq<char>>,
    pub unit: Seq<char>,
}

/// The characters of an optional string.
pub open spec fn opt_text(t: Option<String>) -> Option<Seq<char>> {
    match t {
        Some(s) => Some(s@),
        None => None,
    }
}

impl View for SignalLine {
    type V = SignalLineView;

    open spec fn view(&self) -> SignalLineView {
        SignalLineView {
            name: self.name@,
            channel_id: self.channel_id,
            start_bit: self.start_bit,
            length: self.length,
            byte_order: self.byte_order,
            value_type: self.value_type,
            scale: opt_text(self.scale),
            offset: opt_text(self.offset),
            min_value: opt_text(self.min_value),
            max_value: opt_text(self.max_value),
            unit: self.unit@,
        }
    }
}

/// A `SG_ <name> : <start>|<length>@<order><type> (<scale>,<offset>)
/// [<min>|<max>] "<unit>" <receivers>` record read as signal `counter`:
/// the name is the trimmed text before the first colon; the rest, trimmed,
/// holds the start bit before its first `|` and the length between that
/// `|` and its first `@`, both decimal bytes.
#[verifier::opaque]
pub open spec fn spec_signal_line(line: Seq<char>, counter: u32) -> Result<SignalLineView, Seq<char>> {
    let body = signal_body(line);
    match find_char(body, ':') {
        None => Err("Missing colon in signal line: "@ + body),
        Some(c) => {
            let rest = trim(body.skip(c + 1));
            match find_char(rest, '|') {
                None => Err("Missing pipe in signal definition: "@ + rest),
                Some(p) => match parse_unsigned(rest.take(p), 10, 0xFF) {
                    None => Err("Invalid start bit: "@ + rest.take(p)),
                    Some(start) => match find_char(rest, '@') {
                        None => Err("Missing @ in signal definition: "@ + rest),
                        Some(a) => match parse_unsigned(rest.subrange(p + 1, a), 10, 0xFF) {
                            None => Err("Invalid length: "@ + rest.subrange(p + 1, a)),
                            Some(len) => Ok(
                                SignalLineView {
                                    name: trim(body.take(c)),
                                    channel_id: ChannelId(counter),
                                    start_bit: start as u8,
                                    length: len as u8,
                                    byte_order: order_at(rest, a),
                                    value_type: type_at(rest, a),
                                    scale: scale_offset(rest, a).0,
                                    offset: scale_offset(rest, a).1,
                                    min_value: limits(rest).0,
                                    max_value: limits(rest).1,
                                    unit: unit_text(rest),
                                },
                            ),
                        },
                    },
                },
            }
        },
    }
}

/// Whether reading the record would slice text backwards: an `@` before
/// the `|` once the start bit reads, or a `]` before the `[` once the
/// length reads.
#[verifier::opaque]
pub open spec fn signal_line_panics(line: Seq<char>) -> bool {
    let body = signal_body(line);
    match find_char(body, ':') {
        None => false,
        Some(c) => {
            let rest = trim(body.skip(c + 1));
            match (find_char(rest, '|'), find_char(rest, '@')) {
                (Some(p), Some(a)) => parse_unsigned(rest.take(p), 10, 0xFF) is Some && (a < p || (
                parse_unsigned(rest.subrange(p + 1, a), 10, 0xFF) is Some && match (
                    find_char(rest, '['),
                    find_char(rest, ']'),
                ) {
                    (Some(x), Some(y)) => y < x,
                    _ => false,
                })),
                _ => false,
            }
        },
    }
}

/// A message read from the text, with no signals of its own, and the
/// signal records read under it.
pub struct MessageRecord {
    pub message: CanMessageView,
    pub lines: Seq<SignalLineView>,
}

/// Where the reader stands: the messages finished so far, the message each
/// signal name points at, the channel the next signal gets, and the message
/// being read.
pub struct ReaderState {
    pub done: Seq<MessageRecord>,
    pub index: Map<Seq<char>, u32>,
    pub counter: u32,
    pub current: Option<MessageRecord>,
}

/// The messages of some records.
pub open spec fn record_messages(rs: Seq<MessageRecord>) -> Seq<CanMessageView> {
    rs.map_values(|r: MessageRecord| r.message)
}

/// `done` with `r` added: in place of the record with the same identifier,
/// or at the end when there is none.
pub open spec fn insert_record(done: Seq<MessageRecord>, r: MessageRecord) -> Seq<MessageRecord> {
    match find_can(record_messages(done), r.message.id, done.len() as int) {
        Some(i) => done.update(i, r),
        None => done.push(r),
    }
}

/// `index` with every name of `lines`, in order, pointed at message `id`.
pub open spec fn indexed_lines(index: Map<Seq<char>, u32>, lines: Seq<SignalLineView>, id: u32) -> Map<
    Seq<char>,
    u32,
>
    decreases lines.len(),
{
    if lines.len() == 0 {
        index
    } else {
        indexed_lines(index, lines.drop_last(), id).insert(lines.last().name, id)
    }
}

/// The state with the message being read finished.
pub open spec fn finish(st: ReaderState) -> ReaderState {
    match st.current {
        Some(c) => ReaderState {
            done: insert_record(st.done, c),
            index: indexed_lines(st.index, c.lines, c.message.id),
            counter: st.counter,
            current: None,
        },
        None => st,
    }
}

/// What one line does to the reader: a `BO_` record finishes the current
/// message and starts a new one; a `SG_` record under a message adds a
/// signal to it; anything else is skipped.
pub open spec fn spec_file_line(line: Seq<char>, st: ReaderState) -> Result<ReaderState, Seq<char>> {
    let t = trim(line);
    if t.len() == 0 || t[0] == '#' {
        Ok(st)
    } else if starts_with(t, message_tag()) {
        match spec_message_line(t) {
            Err(e) => Err(e),
            Ok(m) => Ok(
                ReaderState {
                    current: Some(MessageRecord { message: m, lines: Seq::empty() }),
                    ..finish(st)
                },
            ),
        }
    } else if starts_with(t, signal_tag()) && st.current is Some {
        match spec_signal_line(t, st.counter) {
            Err(e) => Err(e),
            Ok(l) => Ok(
                ReaderState {
                    counter: (st.counter + 1) as u32,
                    current: Some(
                        MessageRecord {
                            lines: st.current->0.lines.push(l),
                            ..st.current->0
                        },
                    ),
                    ..st
                },
            ),
        }
    } else {
        Ok(st)
    }
}

/// Whether reading the line panics: a signal record under a message that
/// slices its text backwards, or that reads when the channel counter is
/// already at its largest value.
pub open spec fn line_panics(line: Seq<char>, st: ReaderState) -> bool {
    let t = trim(line);
    &&& !(t.len() == 0 || t[0] == '#')
    &&& !starts_with(t, message_tag())
    &&& starts_with(t, signal_tag())
    &&& st.current is Some
    &&& (signal_line_panics(t) || (spec_signal_line(t, st.counter) is Ok && st.counter == u32::MAX))
}

/// The records read from the lines of `s` from position `i` on, with the
/// index of signal names, or the first error.
pub open spec fn spec_file_from(s: Seq<char>, i: int, st: ReaderState) -> Result<
    (Seq<MessageRecord>, Map<Seq<char>, u32>),
    Seq<char>,
>
    decreases s.len() + 1 - i,
{
    if i < 0 || i >= s.len() {
        Ok((finish(st).done, finish(st).index))
    } else {
        match spec_file_line(line_at(s, i), st) {
            Err(e) => Err(e),
            Ok(next) => {
                proof {
                    lemma_line_end_bounds(s, i);
                }
                spec_file_from(s, line_end(s, i) + 1, next)
            },
        }
    }
}

/// Whether reading the lines of `s` from position `i` on panics before it
/// ends or errs.
pub open spec fn file_panics_from(s: Seq<char>, i: int, st: ReaderState) -> bool
    decreases s.len() + 1 - i,
{
    if i < 0 || i >= s.len() {
        false
    } else if line_panics(line_at(s, i), st) {
        true
    } else {
        match spec_file_line(line_at(s, i), st) {
            Err(_) => false,
            Ok(next) => {
                proof {
                    lemma_line_end_bounds(s, i);
                }
                file_panics_from(s, line_end(s, i) + 1, next)
            },
        }
    }
}

/// The reader before the first line: nothing read, channel 1 next.
pub open spec fn initial_state() -> ReaderState {
    ReaderState { done: Seq::empty(), index: Map::empty(), counter: 1, current: None }
}

/// The records a DBC text defines for the telemetry reader, in the order
/// each identifier first appears, with the index of signal names; or the
/// first malformed record.
pub open spec fn spec_file(text: Seq<char>) -> Result<
    (Seq<MessageRecord>, Map<Seq<char>, u32>),
    Seq<char>,
> {
    spec_file_from(text, 0, initial_state())
}

/// Whether reading the text panics.
pub open spec fn file_panics(text: Seq<char>) -> bool {
    file_panics_from(text, 0, initial_state())
}

/// `bits` is what `number` gives for `text`, or `default` without text.
pub open spec fn number_is<F: Fn(&str) -> u64>(
    number: F,
    text: Option<Seq<char>>,
    default: u64,
    bits: u64,
) -> bool {
    match text {
        Some(t) => exists|x: &str| x@ == t && #[trigger] number.ensures((x,), bits),
        None => bits == default,
    }
}

/// `bits` holds what `number` gives for `text`, or nothing without text.
pub open spec fn limit_is<F: Fn(&str) -> u64>(
    number: F,
    text: Option<Seq<char>>,
    bits: Option<u64>,
) -> bool {
    match text {
        Some(t) => exists|x: &str, b: u64|
            x@ == t && bits == Some(b) && #[trigger] number.ensures((x,), b),
        None => bits is None,
    }
}

/// `s` is the signal record `l` with its numbers turned into bits by
/// `number`: a missing scale is 1 and a missing offset 0.
pub open spec fn signal_is<F: Fn(&str) -> u64>(number: F, l: SignalLineView, s: CanSignal) -> bool {
    &&& s.name@ == l.name
    &&& s.channel_id == l.channel_id
    &&& s.start_bit == l.start_bit
    &&& s.length == l.length
    &&& s.byte_order == l.byte_order
    &&& s.value_type == l.value_type
    &&& number_is(number, l.scale, UNIT_SCALE, s.scale)
    &&& number_is(number, l.offset, 0, s.offset)
    &&& limit_is(number, l.min_value, s.min_value)
    &&& limit_is(number, l.max_value, s.max_value)
    &&& s.unit@ == l.unit
    &&& s.multiplexer is None
}

/// `m` is the record `r` with its signals built by `number`.
pub open spec fn message_is<F: Fn(&str) -> u64>(number: F, r: MessageRecord, m: CanMessageView) -> bool {
    &&& m == CanMessageView { signals: m.signals, ..r.message }
    &&& m.signals.len() == r.lines.len()
    &&& forall|j: int| 0 <= j < m.signals.len() ==> signal_is(number, r.lines[j], #[trigger] m.signals[j])
}

/// `ms` are the records `rs` with their signals built by `number`.
pub open spec fn messages_are<F: Fn(&str) -> u64>(
    number: F,
    rs: Seq<MessageRecord>,
    ms: Seq<CanMessageView>,
) -> bool {
    &&& rs.len() == ms.len()
    &&& forall|i: int| 0 <= i < rs.len() ==> message_is(number, #[trigger] rs[i], ms[i])
}

/// Every number text of a signal record is one `f64` parsing accepts.
pub open spec fn numbers_valid(l: SignalLineView) -> bool {
    &&& l.scale matches Some(t) ==> is_float_text(t)
    &&& l.offset matches Some(t) ==> is_float_text(t)
    &&& l.min_value matches Some(t) ==> is_float_text(t)
    &&& l.max_value matches Some(t) ==> is_float_text(t)
}

/// A message record reads with no signals.
proof fn lemma_message_no_signals(line: Seq<char>)
    ensures
        spec_message_line(line) matches Ok(m) ==> m.signals == Seq::<CanSignal>::empty(),
{
    reveal(spec_message_line);
}

/// A record that reads keeps only number texts that parse.
proof fn lemma_signal_numbers(line: Seq<char>, counter: u32)
    ensures
        spec_signal_line(line, counter) matches Ok(l) ==> numbers_valid(l),
{
    reveal(spec_signal_line);
    reveal(scale_offset);
    reveal(limits);
    reveal(float_field);
}

/// Two message lists with the same identifiers place an identifier alike.
proof fn lemma_find_same_ids(a: Seq<CanMessageView>, b: Seq<CanMessageView>, id: u32, n: int)
    requires
        a.len() == b.len(),
        n <= a.len(),
        forall|i: int| 0 <= i < a.len() ==> #[trigger] a[i].id == b[i].id,
    ensures
        find_can(a, id, n) == find_can(b, id, n),
    decreases n,
{
    if n > 0 {
        lemma_find_same_ids(a, b, id, n - 1);
    }
}

/// Adding a message built from a record keeps the messages built from the
/// records.
proof fn lemma_insert_record<F: Fn(&str) -> u64>(
    number: F,
    done: Seq<MessageRecord>,
    ms: Seq<CanMessageView>,
    r: MessageRecord,
    m: CanMessageView,
)
    requires
        messages_are(number, done, ms),
        message_is(number, r, m),
    ensures
        messages_are(number, insert_record(done, r), insert_can(ms, m)),
{
    let rm = record_messages(done);
    assert forall|i: int| 0 <= i < rm.len() implies #[trigger] rm[i].id == ms[i].id by {
        assert(message_is(number, done[i], ms[i]));
    }
    lemma_find_same_ids(rm, ms, m.id, done.len() as int);
    lemma_find_can(rm, m.id, done.len() as int);
    let after = insert_record(done, r);
    let mafter = insert_can(ms, m);
    assert forall|i: int| 0 <= i < after.len() implies message_is(
        number,
        #[trigger] after[i],
        mafter[i],
    ) by {
        match find_can(rm, m.id, done.len() as int) {
            Some(k) => {
                if i != k {
                    assert(message_is(number, done[i], ms[i]));
                }
            },
            None => {
                if i < done.len() {
                    assert(message_is(number, done[i], ms[i]));
                }
            },
        }
    }
}

/// The index built from signals equals the one built from the records they
/// came from.
proof fn lemma_indexed_lines<F: Fn(&str) -> u64>(
    number: F,
    index: Map<Seq<char>, u32>,
    lines: Seq<SignalLineView>,
    signals: Seq<CanSignal>,
    id: u32,
)
    requires
        lines.len() == signals.len(),
        forall|j: int| 0 <= j < signals.len() ==> signal_is(number, lines[j], #[trigger] signals[j]),
    ensures
        indexed(index, signals, id) == indexed_lines(index, lines, id),
    decreases lines.len(),
{
    if lines.len() > 0 {
        assert(signal_is(number, lines[lines.len() - 1], signals[signals.len() - 1]));
        assert forall|j: int| 0 <= j < signals.drop_last().len() implies signal_is(
            number,
            lines.drop_last()[j],
            #[trigger] signals.drop_last()[j],
        ) by {
            assert(signal_is(number, lines[j], signals[j]));
        }
        lemma_indexed_lines(number, index, lines.drop_last(), signals.drop_last(), id);
    }
}

/// The views of some signal records.
pub open spec fn line_views(ls: Seq<SignalLine>) -> Seq<SignalLineView> {
    ls.map_values(|l: SignalLine| l@)
}

/// The record of a message being read, with the records of its signals.
pub open spec fn current_record(c: Option<(CanMessage, Vec<SignalLine>)>) -> Option<MessageRecord> {
    match c {
        Some((m, ls)) => Some(
            MessageRecord {
                message: CanMessageView { signals: Seq::empty(), ..m@ },
                lines: line_views(ls@),
            },
        ),
        None => None,
    }
}

/// The message being read holds the signals built from its records.
pub open spec fn current_ok<F: Fn(&str) -> u64>(number: F, c: Option<(CanMessage, Vec<SignalLine>)>) -> bool {
    match c {
        Some((m, ls)) => message_is(number, current_record(c)->0, m@),
        None => true,
    }
}

/// The reader's state held by a database, a message being read, a counter
/// and the records finished so far.
pub open spec fn state_of(
    done: Seq<MessageRecord>,
    db: CanDatabase,
    c: Option<(CanMessage, Vec<SignalLine>)>,
    counter: u32,
) -> ReaderState {
    ReaderState { done, index: db.signal_index(), counter, current: current_record(c) }
}

/// DBC file parser for CAN database definitions.
pub struct DbcParser;

fn text_error(prefix: &str, rest: &[char]) -> (s: String)
    ensures
        s@ == prefix@ + rest@,
{
    let mut s = String::new();
    push_str(&mut s, prefix);
    let r = string_of(rest);
    push_str(&mut s, r.as_str());
    s
}

/// The text of `s` when `f64` parsing accepts it.
fn float_text(s: &[char]) -> (r: Option<String>)
    ensures
        opt_text(r) == float_field(s@),
{
    reveal(float_field);
    if is_float(s) {
        Some(string_of(s))
    } else {
        None
    }
}

/// The number texts among the two first `sep`-separated parts of `inner`.
fn split_numbers(inner: &[char], sep: char) -> (r: (Option<String>, Option<String>))
    ensures
        opt_text(r.0) == float_field(first_part(inner@, sep)),
        opt_text(r.1) == float_part(second_part(inner@, sep)),
{
    let first = float_text(part_before(inner, sep).as_slice());
    let second = match part_after(inner, sep) {
        Some(v) => float_text(v.as_slice()),
        None => None,
    };
    (first, second)
}

/// The scale and offset texts of a definition whose `@` stands at `at`.
fn scale_offset_texts(rest: &[char], at: usize) -> (r: (Option<String>, Option<String>))
    requires
        at < rest@.len(),
    ensures
        (opt_text(r.0), opt_text(r.1)) == scale_offset(rest@, at as int),
{
    reveal(scale_offset);
    let pe = match find(rest, ')') {
        Some(i) => i,
        None => rest.len(),
    };
    match find(rest, '(') {
        Some(ps) => {
            if ps < pe {
                let inner = token_vec(rest, ps + 1, pe);
                split_numbers(inner.as_slice(), ',')
            } else {
                (None, None)
            }
        },
        None => {
            if pe >= 3 && at < pe - 3 {
                let inner = token_vec(rest, at + 4, pe);
                split_numbers(inner.as_slice(), ',')
            } else {
                (None, None)
            }
        },
    }
}

/// The minimum and maximum texts of a definition.
fn limit_texts(rest: &[char]) -> (r: (Option<String>, Option<String>))
    requires
        !(find_char(rest@, '[') matches Some(x) && find_char(rest@, ']') matches Some(y) && y < x),
    ensures
        (opt_text(r.0), opt_text(r.1)) == limits(rest@),
{
    reveal(limits);
    proof {
        lemma_find_char(rest@, '[');
        lemma_find_char(rest@, ']');
    }
    match (find(rest, '['), find(rest, ']')) {
        (Some(a), Some(b)) => {
            assert(rest@[a as int] == '[' && rest@[b as int] == ']');
            let inner = token_vec(rest, a + 1, b);
            split_numbers(inner.as_slice(), '|')
        },
        _ => (None, None),
    }
}

/// The unit of a definition.
fn unit_of(rest: &[char]) -> (u: String)
    ensures
        u@ == unit_text(rest@),
{
    reveal(unit_text);
    match (find(rest, '"'), rfind(rest, '"')) {
        (Some(a), Some(b)) => {
            if a < b {
                string_of(token_vec(rest, a + 1, b).as_slice())
            } else {
                String::new()
            }
        },
        _ => String::new(),
    }
}

/// A signal record with the given name, channel, start bit and length,
/// the rest read from the definition whose `@` stands at `a`.
fn line_from_parts(
    name: String,
    counter: u32,
    start_bit: u8,
    length: u8,
    rest: &[char],
    a: usize,
) -> (l: SignalLine)
    requires
        a < rest@.len(),
        !(find_char(rest@, '[') matches Some(x) && find_char(rest@, ']') matches Some(y) && y < x),
    ensures
        l@ == (SignalLineView {
            name: name@,
            channel_id: ChannelId(counter),
            start_bit,
            length,
            byte_order: order_at(rest@, a as int),
            value_type: type_at(rest@, a as int),
            scale: scale_offset(rest@, a as int).0,
            offset: scale_offset(rest@, a as int).1,
            min_value: limits(rest@).0,
            max_value: limits(rest@).1,
            unit: unit_text(rest@),
        }),
{
    let n = rest.len();
    let byte_order = if n - a > 1 && rest[a + 1] == '0' {
        SignalByteOrder::Motorola
    } else {
        SignalByteOrder::Intel
    };
    let value_type = if n - a > 2 && rest[a + 2] == '-' {
        SignalValueType::Signed
    } else {
        SignalValueType::Unsigned
    };
    let (scale, offset) = scale_offset_texts(rest, a);
    let (min_value, max_value) = limit_texts(rest);
    let unit = unit_of(rest);
    SignalLine {
        name,
        channel_id: ChannelId(counter),
        start_bit,
        length,
        byte_order,
        value_type,
        scale,
        offset,
        min_value,
        max_value,
        unit,
    }
}

/// Whether reading a signal record slices its text backwards.
fn slices_backwards(line: &[char]) -> (b: bool)
    ensures
        b == signal_line_panics(line@),
{
    reveal(signal_line_panics);
    let tag = ['S', 'G', '_', ' '];
    assert(tag@ =~= signal_tag());
    let t = trimmed(line);
    let body: Vec<char> = if has_prefix(t.as_slice(), tag.as_slice()) {
        let n = t.len();
        let b = token_vec(t.as_slice(), 4, n);
        assert(b@ =~= t@.skip(4));
        b
    } else {
        t
    };
    assert(body@ == signal_body(line@));
    let c = match find(body.as_slice(), ':') {
        None => return false,
        Some(c) => c,
    };
    let n = body.len();
    let after = token_vec(body.as_slice(), c + 1, n);
    assert(after@ =~= body@.skip(c + 1));
    let rest = trimmed(after.as_slice());
    let (p, a) = match (find(rest.as_slice(), '|'), find(rest.as_slice(), '@')) {
        (Some(p), Some(a)) => (p, a),
        _ => return false,
    };
    proof {
        lemma_find_char(rest@, '@');
        lemma_find_char(rest@, '|');
    }
    let start_text = token_vec(rest.as_slice(), 0, p);
    assert(start_text@ =~= rest@.take(p as int));
    if parse_uint(start_text.as_slice(), 10, 0xFF).is_none() {
        return false;
    }
    if a < p {
        return true;
    }
    assert(rest@[a as int] == '@' && rest@[p as int] == '|');
    let len_text = token_vec(rest.as_slice(), p + 1, a);
    if parse_uint(len_text.as_slice(), 10, 0xFF).is_none() {
        return false;
    }
    match (find(rest.as_slice(), '['), find(rest.as_slice(), ']')) {
        (Some(x), Some(y)) => y < x,
        _ => false,
    }
}

/// Read a signal record as signal `counter`.
fn signal_from_chars(line: &[char], counter: u32) -> (r: Result<SignalLine, String>)
    requires
        !signal_line_panics(line@),
    ensures
        match r {
            Ok(l) => spec_signal_line(line@, counter) == Ok::<SignalLineView, Seq<char>>(l@),
            Err(e) => spec_signal_line(line@, counter) == Err::<SignalLineView, Seq<char>>(e@),
        },
{
    reveal(spec_signal_line);
    reveal(signal_line_panics);
    let tag = ['S', 'G', '_', ' '];
    assert(tag@ =~= signal_tag());
    let t = trimmed(line);
    let body: Vec<char> = if has_prefix(t.as_slice(), tag.as_slice()) {
        let n = t.len();
        let b = token_vec(t.as_slice(), 4, n);
        assert(b@ =~= t@.skip(4));
        b
    } else {
        t
    };
    assert(body@ == signal_body(line@));
    let c = match find(body.as_slice(), ':') {
        None => return Err(text_error("Missing colon in signal line: ", body.as_slice())),
        Some(c) => c,
    };
    let n = body.len();
    let after = token_vec(body.as_slice(), c + 1, n);
    assert(after@ =~= body@.skip(c + 1));
    let rest = trimmed(after.as_slice());
    let p = match find(rest.as_slice(), '|') {
        None => return Err(text_error("Missing pipe in signal definition: ", rest.as_slice())),
        Some(p) => p,
    };
    let start_text = token_vec(rest.as_slice(), 0, p);
    assert(start_text@ =~= rest@.take(p as int));
    let start_bit = match parse_uint(start_text.as_slice(), 10, 0xFF) {
        None => return Err(text_error("Invalid start bit: ", start_text.as_slice())),
        Some(v) => v as u8,
    };
    let a = match find(rest.as_slice(), '@') {
        None => return Err(text_error("Missing @ in signal definition: ", rest.as_slice())),
        Some(a) => a,
    };
    proof {
        lemma_find_char(rest@, '@');
        lemma_find_char(rest@, '|');
    }
    assert(rest@[a as int] == '@' && rest@[p as int] == '|');
    let len_text = token_vec(rest.as_slice(), p + 1, a);
    let length = match parse_uint(len_text.as_slice(), 10, 0xFF) {
        None => return Err(text_error("Invalid length: ", len_text.as_slice())),
        Some(v) => v as u8,
    };
    let name_chars = token_vec(body.as_slice(), 0, c);
    assert(name_chars@ =~= body@.take(c as int));
    let name = string_of(trimmed(name_chars.as_slice()).as_slice());
    let l = line_from_parts(name, counter, start_bit, length, rest.as_slice(), a);
    assert(l@ == spec_signal_line(line@, counter)->Ok_0);
    Ok(l)
}

impl DbcParser {
    /// Parse a DBC text into a database of its messages and their signals,
    /// numbering the signals from channel 1 in the order they are read.
    /// `number` turns the text of an `f64` into its bits.
    pub fn parse_file<F: Fn(&str) -> u64>(content: &str, number: F) -> (r: Result<
        CanDatabase,
        TelemetryError,
    >)
        requires
            !file_panics(content@),
            forall|t: &str| is_float_text(t@) ==> number.requires((t,)),
        ensures
            match r {
                Ok(db) => db.well_formed() && (spec_file(content@) matches Ok((rs, index))
                    && messages_are(number, rs, db.spec_messages()) && db.signal_index() == index),
                Err(e) => spec_file(content@) matches Err(m) && e matches TelemetryError::InvalidDataFormat {
                    message,
                } && message@ == m,
            },
    {
        let s = chars_of(content);
        let mut db = CanDatabase::new();
        let mut current: Option<(CanMessage, Vec<SignalLine>)> = None;
        let mut counter: u32 = 1;
        let mut done: Ghost<Seq<MessageRecord>> = Ghost(Seq::empty());
        let mut i: usize = 0;
        assert(state_of(done@, db, current, counter) == initial_state());
        while i < s.len()
            invariant
                s@ == content@,
                i <= s@.len(),
                db.well_formed(),
                messages_are(number, done@, db.spec_messages()),
                current_ok(number, current),
                forall|t: &str| is_float_text(t@) ==> number.requires((t,)),
                spec_file(s@) == spec_file_from(s@, i as int, state_of(done@, db, current, counter)),
                file_panics(s@) == file_panics_from(s@, i as int, state_of(done@, db, current, counter)),
                !file_panics(s@),
            decreases s@.len() - i,
        {
            let mut e = i;
            while e < s.len() && s[e] != '\n'
                invariant
                    i <= e <= s@.len(),
                    line_end(s@, i as int) == line_end(s@, e as int),
                decreases s@.len() - e,
            {
                e = e + 1;
            }
            proof {
                lemma_line_end_bounds(s@, i as int);
            }
            let mut stop = e;
            if e < s.len() && e > i && s[e - 1] == '\r' {
                stop = e - 1;
            }
            let line = token_vec(s.as_slice(), i, stop);
            assert(line@ =~= line_at(s@, i as int));
            match Self::apply_line(line.as_slice(), &mut db, &mut current, &mut counter, &number, done) {
                Err(m) => return Err(TelemetryError::InvalidDataFormat { message: m }),
                Ok(d) => {
                    done = d;
                },
            }
            proof {
                assert(line_end(s@, e as int) == e);
                if e == s.len() {
                    assert(spec_file_from(s@, e + 1, state_of(done@, db, current, counter))
                        == spec_file_from(s@, e as int, state_of(done@, db, current, counter)));
                    assert(file_panics_from(s@, e + 1, state_of(done@, db, current, counter))
                        == file_panics_from(s@, e as int, state_of(done@, db, current, counter)));
                }
            }
            if e < s.len() {
                i = e + 1;
            } else {
                i = e;
            }
        }
        let ghost before = state_of(done@, db, current, counter);
        let d = Self::close_message(&mut db, &mut current, &number, done);
        assert(finish(before) == state_of(d@, db, current, counter));
        Ok(db)
    }

    /// Whether [`Self::parse_file`] would panic on `content`: a signal
    /// record under a message that slices its text backwards, or more
    /// signals than channel numbers.
    pub fn panics_on(content: &str) -> (b: bool)
        ensures
            b == file_panics(content@),
    {
        let s = chars_of(content);
        let mut has_current = false;
        let mut counter: u32 = 1;
        let ghost mut st = initial_state();
        let mut i: usize = 0;
        while i < s.len()
            invariant
                s@ == content@,
                i <= s@.len(),
                has_current == st.current is Some,
                counter == st.counter,
                file_panics(s@) == file_panics_from(s@, i as int, st),
            decreases s@.len() - i,
        {
            let mut e = i;
            while e < s.len() && s[e] != '\n'
                invariant
                    i <= e <= s@.len(),
                    line_end(s@, i as int) == line_end(s@, e as int),
                decreases s@.len() - e,
            {
                e = e + 1;
            }
            proof {
                lemma_line_end_bounds(s@, i as int);
            }
            let mut stop = e;
            if e < s.len() && e > i && s[e - 1] == '\r' {
                stop = e - 1;
            }
            let line = token_vec(s.as_slice(), i, stop);
            assert(line@ =~= line_at(s@, i as int));
            let btag = ['B', 'O', '_', ' '];
            assert(btag@ =~= message_tag());
            let stag = ['S', 'G', '_', ' '];
            assert(stag@ =~= signal_tag());
            let t = trimmed(line.as_slice());
            if t.len() == 0 || t[0] == '#' {
            } else if has_prefix(t.as_slice(), btag.as_slice()) {
                if Self::parse_message_line(t.as_slice()).is_err() {
                    return false;
                }
                has_current = true;
            } else if has_prefix(t.as_slice(), stag.as_slice()) && has_current {
                if slices_backwards(t.as_slice()) {
                    return true;
                }
                if signal_from_chars(t.as_slice(), counter).is_err() {
                    return false;
                }
                if counter == u32::MAX {
                    return true;
                }
                counter = counter + 1;
            }
            proof {
                st = spec_file_line(line@, st)->Ok_0;
                assert(line_end(s@, e as int) == e);
            }
            if e < s.len() {
                i = e + 1;
            } else {
                proof {
                    assert(file_panics_from(s@, e + 1, st) == file_panics_from(s@, e as int, st));
                }
                i = e;
            }
        }
        false
    }

    /// Finish the message being read, if any.
    fn close_message<F: Fn(&str) -> u64>(
        db: &mut CanDatabase,
        current: &mut Option<(CanMessage, Vec<SignalLine>)>,
        number: &F,
        done: Ghost<Seq<MessageRecord>>,
    ) -> (d: Ghost<Seq<MessageRecord>>)
        requires
            old(db).well_formed(),
            messages_are(*number, done@, old(db).spec_messages()),
            current_ok(*number, *old(current)),
        ensures
            final(db).well_formed(),
            *final(current) is None,
            messages_are(*number, d@, final(db).spec_messages()),
            forall|counter: u32|
                finish(state_of(done@, *old(db), *old(current), counter)) == #[trigger] state_of(
                    d@,
                    *final(db),
                    *final(current),
                    counter,
                ),
    {
        let ghost c0 = *current;
        match current.take() {
            Some((m, ls)) => {
                let ghost rec = current_record(c0)->0;
                let ghost ms = db.spec_messages();
                let ghost idx = db.signal_index();
                proof {
                    lemma_insert_record(*number, done@, ms, rec, m@);
                    lemma_indexed_lines(*number, idx, rec.lines, m@.signals, m@.id);
                }
                db.add_message(m);
                Ghost(insert_record(done@, rec))
            },
            None => done,
        }
    }

    /// Build the signal a record stands for, its numbers turned into bits
    /// by `number`.
    fn to_signal<F: Fn(&str) -> u64>(l: &SignalLine, number: &F) -> (s: CanSignal)
        requires
            numbers_valid(l@),
            forall|t: &str| is_float_text(t@) ==> number.requires((t,)),
        ensures
            signal_is(*number, l@, s),
    {
        let scale = match &l.scale {
            Some(t) => {
                let x = t.as_str();
                let b = number(x);
                assert(number_is(*number, l@.scale, UNIT_SCALE, b));
                b
            },
            None => UNIT_SCALE,
        };
        let offset = match &l.offset {
            Some(t) => {
                let x = t.as_str();
                let b = number(x);
                assert(number_is(*number, l@.offset, 0, b));
                b
            },
            None => 0,
        };
        let min_value = match &l.min_value {
            Some(t) => {
                let x = t.as_str();
                let b = number(x);
                assert(limit_is(*number, l@.min_value, Some(b)));
                Some(b)
            },
            None => None,
        };
        let max_value = match &l.max_value {
            Some(t) => {
                let x = t.as_str();
                let b = number(x);
                assert(limit_is(*number, l@.max_value, Some(b)));
                Some(b)
            },
            None => None,
        };
        CanSignal {
            name: l.name.clone(),
            channel_id: l.channel_id,
            start_bit: l.start_bit,
            length: l.length,
            byte_order: l.byte_order,
            value_type: l.value_type,
            scale,
            offset,
            min_value,
            max_value,
            unit: l.unit.clone(),
            multiplexer: None,
        }
    }

    /// Apply one line to the reader.
    fn apply_line<F: Fn(&str) -> u64>(
        line: &[char],
        db: &mut CanDatabase,
        current: &mut Option<(CanMessage, Vec<SignalLine>)>,
        counter: &mut u32,
        number: &F,
        done: Ghost<Seq<MessageRecord>>,
    ) -> (r: Result<Ghost<Seq<MessageRecord>>, String>)
        requires
            old(db).well_formed(),
            messages_are(*number, done@, old(db).spec_messages()),
            current_ok(*number, *old(current)),
            forall|t: &str| is_float_text(t@) ==> number.requires((t,)),
            !line_panics(line@, state_of(done@, *old(db), *old(current), *old(counter))),
        ensures
            final(db).well_formed(),
            match r {
                Ok(d) => spec_file_line(line@, state_of(done@, *old(db), *old(current), *old(counter)))
                    == Ok::<ReaderState, Seq<char>>(
                    state_of(d@, *final(db), *final(current), *final(counter)),
                ) && messages_are(*number, d@, final(db).spec_messages()) && current_ok(
                    *number,
                    *final(current),
                ),
                Err(e) => spec_file_line(
                    line@,
                    state_of(done@, *old(db), *old(current), *old(counter)),
                ) == Err::<ReaderState, Seq<char>>(e@),
            },
    {
        let btag = ['B', 'O', '_', ' '];
        assert(btag@ =~= message_tag());
        let stag = ['S', 'G', '_', ' '];
        assert(stag@ =~= signal_tag());
        let t = trimmed(line);
        if t.len() == 0 || t[0] == '#' {
            return Ok(done);
        }
        if has_prefix(t.as_slice(), btag.as_slice()) {
            match Self::parse_message_line(t.as_slice()) {
                Err(m) => Err(m),
                Ok(m) => {
                    let ghost st0 = state_of(done@, *db, *current, *counter);
                    let d = Self::close_message(db, current, number, done);
                    assert(finish(st0) == state_of(d@, *db, *current, *counter));
                    *current = Some((m, Vec::new()));
                    proof {
                        assert(line_views(Seq::<SignalLine>::empty()) =~= Seq::<SignalLineView>::empty());
                        lemma_message_no_signals(t@);
                        assert(CanMessageView { signals: Seq::empty(), ..m@ } == m@);
                    }
                    Ok(d)
                },
            }
        } else if has_prefix(t.as_slice(), stag.as_slice()) && current.is_some() {
            proof {
                lemma_signal_numbers(t@, *counter);
            }
            match signal_from_chars(t.as_slice(), *counter) {
                Err(m) => Err(m),
                Ok(l) => {
                    let sig = Self::to_signal(&l, number);
                    match current {
                        Some((m, ls)) => {
                            let ghost lines0 = ls@;
                            m.add_signal(sig);
                            ls.push(l);
                            proof {
                                assert(line_views(ls@) =~= line_views(lines0).push(l@));
                            }
                        },
                        None => {},
                    }
                    *counter = *counter + 1;
                    Ok(done)
                },
            }
        } else {
            Ok(done)
        }
    }

    /// Read a signal record as signal `*channel_counter`, and move the
    /// counter on when it reads.
    pub fn parse_signal_line(line: &str, channel_counter: &mut u32) -> (r: Result<
        SignalLine,
        TelemetryError,
    >)
        requires
            *old(channel_counter) < u32::MAX,
            !signal_line_panics(line@),
        ensures
            match r {
                Ok(s) => spec_signal_line(line@, *old(channel_counter)) == Ok::<
                    SignalLineView,
                    Seq<char>,
                >(s@) && *final(channel_counter) == *old(channel_counter) + 1,
                Err(e) => spec_signal_line(line@, *old(channel_counter)) matches Err(m)
                    && e matches TelemetryError::InvalidDataFormat { message } && message@ == m
                    && *final(channel_counter) == *old(channel_counter),
            },
    {
        let cs = chars_of(line);
        match signal_from_chars(cs.as_slice(), *channel_counter) {
            Ok(l) => {
                *channel_counter = *channel_counter + 1;
                Ok(l)
            },
            Err(m) => Err(TelemetryError::InvalidDataFormat { message: m }),
        }
    }

    /// Parse a `BO_` record.
    fn parse_message_line(line: &[char]) -> (r: Result<CanMessage, String>)
        ensures
            match r {
                Ok(m) => spec_message_line(line@) == Ok::<CanMessageView, Seq<char>>(m@),
                Err(e) => spec_message_line(line@) == Err::<CanMessageView, Seq<char>>(e@),
            },
    {
        reveal(spec_message_line);
        let (a0, b0) = match next_token(line, 0) {
            None => return Err(text_error("Invalid message line: ", line)),
            Some(t) => t,
        };
        let (a1, b1) = match next_token(line, b0) {
            None => return Err(text_error("Invalid message line: ", line)),
            Some(t) => t,
        };
        let (a2, b2) = match next_token(line, b1) {
            None => return Err(text_error("Invalid message line: ", line)),
            Some(t) => t,
        };
        let (a3, b3) = match next_token(line, b2) {
            None => return Err(text_error("Invalid message line: ", line)),
            Some(t) => t,
        };
        let id_text = token_vec(line, a1, b1);
        let id = match parse_uint(id_text.as_slice(), 10, 0xFFFF_FFFF) {
            None => return Err(text_error("Invalid message ID: ", id_text.as_slice())),
            Some(v) => v as u32,
        };
        let id = if id & 0x8000_0000 != 0 {
            assert(id & 0x8000_0000 != 0 <==> id >= 0x8000_0000) by (bit_vector);
            assert(id & 0x1FFF_FFFF == id % 0x2000_0000) by (bit_vector);
            id & 0x1FFF_FFFF
        } else {
            assert(id & 0x8000_0000 != 0 <==> id >= 0x8000_0000) by (bit_vector);
            id
        };
        let name_chars = without_trailing(token_vec(line, a2, b2).as_slice(), ':');
        let name = string_of(name_chars.as_slice());
        let dlc_text = token_vec(line, a3, b3);
        let dlc = match parse_uint(dlc_text.as_slice(), 10, 0xFF) {
            None => return Err(text_error("Invalid DLC: ", dlc_text.as_slice())),
            Some(v) => v as u8,
        };
        let mut message = CanMessage::new(id, name, dlc);
        match next_token(line, b3) {
            Some((a4, b4)) => {
                message.sender = string_of(token_vec(line, a4, b4).as_slice());
            },
            None => {},
        }
        Ok(message)
    }
}

/// CAN database builder for programmatic creation.
pub struct CanDatabaseBuilder {
    database: CanDatabase,
    channel_counter: u32,
}

impl CanDatabaseBuilder {
    /// The database built so far.
    pub closed spec fn spec_database(&self) -> CanDatabase {
        self.database
    }

    /// The channel the next signal gets.
    pub closed spec fn next_channel(&self) -> u32 {
        self.channel_counter
    }

    /// A builder of an empty database whose first signal is channel 1.
    pub fn new() -> (b: CanDatabaseBuilder)
        ensures
            b.spec_database().well_formed(),
            b.spec_database().spec_messages() == Seq::<CanMessageView>::empty(),
            b.spec_database().signal_index() == Map::<Seq<char>, u32>::empty(),
            b.next_channel() == 1,
    {
        CanDatabaseBuilder { database: CanDatabase::new(), channel_counter: 1 }
    }

    /// Start a message with no sender, cycle time or signals.
    pub fn add_message(self, id: u32, name: &str, dlc: u8) -> (m: CanMessageBuilder)
        ensures
            m.spec_builder() == self,
            m.spec_message()@ == (CanMessageView {
                id,
                name: name@,
                length: dlc,
                sender: Seq::empty(),
                cycle_time: None,
                signals: Seq::empty(),
            }),
    {
        let message = CanMessage::new(id, name.to_string(), dlc);
        CanMessageBuilder { builder: self, message }
    }

    /// The database.
    pub fn build(self) -> (db: CanDatabase)
        ensures
            db == self.spec_database(),
    {
        self.database
    }
}

impl Default for CanDatabaseBuilder {
    /// A builder of an empty database whose first signal is channel 1.
    fn default() -> (b: CanDatabaseBuilder)
        ensures
            b.spec_database().well_formed(),
            b.spec_database().spec_messages() == Seq::<CanMessageView>::empty(),
            b.spec_database().signal_index() == Map::<Seq<char>, u32>::empty(),
            b.next_channel() == 1,
    {
        CanDatabaseBuilder::new()
    }
}

/// Builder for CAN messages.
pub struct CanMessageBuilder {
    builder: CanDatabaseBuilder,
    message: CanMessage,
}

/// The signal a builder appends: Intel byte order, no limits, no
/// multiplexer.
pub open spec fn built_signal(
    name: Seq<char>,
    channel: u32,
    start_bit: u8,
    length: u8,
    value_type: SignalValueType,
    scale: u64,
    offset: u64,
    unit: Seq<char>,
    s: CanSignal,
) -> bool {
    &&& s.name@ == name
    &&& s.channel_id == ChannelId(channel)
    &&& s.start_bit == start_bit
    &&& s.length == length
    &&& s.byte_order == SignalByteOrder::Intel
    &&& s.value_type == value_type
    &&& s.scale == scale
    &&& s.offset == offset
    &&& s.min_value is None
    &&& s.max_value is None
    &&& s.unit@ == unit
    &&& s.multiplexer is None
}

impl CanMessageBuilder {
    /// The database builder this message goes back to.
    pub closed spec fn spec_builder(&self) -> CanDatabaseBuilder {
        self.builder
    }

    /// The message so far.
    pub closed spec fn spec_message(&self) -> CanMessage {
        self.message
    }

    fn push_signal(
        self,
        name: &str,
        start_bit: u8,
        length: u8,
        value_type: SignalValueType,
        scale: u64,
        offset: u64,
        unit: &str,
    ) -> (b: CanMessageBuilder)
        requires
            self.spec_builder().next_channel() < u32::MAX,
        ensures
            b.spec_builder().spec_database() == self.spec_builder().spec_database(),
            b.spec_builder().next_channel() == self.spec_builder().next_channel() + 1,
            b.spec_message()@.signals.len() == self.spec_message()@.signals.len() + 1,
            b.spec_message()@.signals.drop_last() == self.spec_message()@.signals,
            built_signal(
                name@,
                self.spec_builder().next_channel(),
                start_bit,
                length,
                value_type,
                scale,
                offset,
                unit@,
                b.spec_message()@.signals.last(),
            ),
            b.spec_message()@ == (CanMessageView {
                signals: b.spec_message()@.signals,
                ..self.spec_message()@
            }),
    {
        let mut b = self;
        let signal = CanSignal {
            name: name.to_string(),
            channel_id: ChannelId(b.builder.channel_counter),
            start_bit,
            length,
            byte_order: SignalByteOrder::Intel,
            value_type,
            scale,
            offset,
            min_value: None,
            max_value: None,
            unit: unit.to_string(),
            multiplexer: None,
        };
        b.builder.channel_counter = b.builder.channel_counter + 1;
        let ghost before = b.message@.signals;
        b.message.add_signal(signal);
        assert(b.message@.signals.drop_last() =~= before);
        b
    }

    /// Append an unsigned Intel signal on the next channel; `scale` and
    /// `offset` are the bits of `f64` values.
    pub fn add_signal(
        self,
        name: &str,
        start_bit: u8,
        length: u8,
        scale: u64,
        offset: u64,
        unit: &str,
    ) -> (b: CanMessageBuilder)
        requires
            self.spec_builder().next_channel() < u32::MAX,
        ensures
            b.spec_builder().spec_database() == self.spec_builder().spec_database(),
            b.spec_builder().next_channel() == self.spec_builder().next_channel() + 1,
            b.spec_message()@.signals.len() == self.spec_message()@.signals.len() + 1,
            b.spec_message()@.signals.drop_last() == self.spec_message()@.signals,
            built_signal(
                name@,
                self.spec_builder().next_channel(),
                start_bit,
                length,
                SignalValueType::Unsigned,
                scale,
                offset,
                unit@,
                b.spec_message()@.signals.last(),
            ),
            b.spec_message()@ == (CanMessageView {
                signals: b.spec_message()@.signals,
                ..self.spec_message()@
            }),
    {
        self.push_signal(name, start_bit, length, SignalValueType::Unsigned, scale, offset, unit)
    }

    /// Append a signed Intel signal on the next channel; `scale` and
    /// `offset` are the bits of `f64` values.
    pub fn add_signed_signal(
        self,
        name: &str,
        start_bit: u8,
        length: u8,
        scale: u64,
        offset: u64,
        unit: &str,
    ) -> (b: CanMessageBuilder)
        requires
            self.spec_builder().next_channel() < u32::MAX,
        ensures
            b.spec_builder().spec_database() == self.spec_builder().spec_database(),
            b.spec_builder().next_channel() == self.spec_builder().next_channel() + 1,
            b.spec_message()@.signals.len() == self.spec_message()@.signals.len() + 1,
            b.spec_message()@.signals.drop_last() == self.spec_message()@.signals,
            built_signal(
                name@,
                self.spec_builder().next_channel(),
                start_bit,
                length,
                SignalValueType::Signed,
                scale,
                offset,
                unit@,
                b.spec_message()@.signals.last(),
            ),
            b.spec_message()@ == (CanMessageView {
                signals: b.spec_message()@.signals,
                ..self.spec_message()@
            }),
    {
        self.push_signal(name, start_bit, length, SignalValueType::Signed, scale, offset, unit)
    }

    /// Set the cycle time, in milliseconds.
    pub fn with_cycle_time(self, cycle_time_ms: u32) -> (b: CanMessageBuilder)
        ensures
            b.spec_builder() == self.spec_builder(),
            b.spec_message()@ == (CanMessageView {
                cycle_time: Some(cycle_time_ms),
                ..self.spec_message()@
            }),
    {
        let mut b = self;
        b.message.cycle_time = Some(cycle_time_ms);
        b
    }

    /// Set the sender.
    pub fn with_sender(self, sender: &str) -> (b: CanMessageBuilder)
        ensures
            b.spec_builder() == self.spec_builder(),
            b.spec_message()@ == (CanMessageView { sender: sender@, ..self.spec_message()@ }),
    {
        let mut b = self;
        b.message.sender = sender.to_string();
        b
    }

    /// Add the message to the database and go back to the database builder.
    pub fn finish_message(self) -> (b: CanDatabaseBuilder)
        requires
            self.spec_builder().spec_database().well_formed(),
        ensures
            b.spec_database().well_formed(),
            b.spec_database().spec_messages() == insert_can(
                self.spec_builder().spec_database().spec_messages(),
                self.spec_message()@,
            ),
            b.spec_database().signal_index() == indexed(
                self.spec_builder().spec_database().signal_index(),
                self.spec_message()@.signals,
                self.spec_message()@.id,
            ),
            b.next_channel() == self.spec_builder().next_channel(),
    {
        let mut b = self;
        b.builder.database.add_message(b.message);
        b.builder
    }
}

/// The bits of the `f64` values the sample database is built from.
pub const ZERO: u64 = 0x0000_0000_0000_0000;
pub const ONE: u64 = 0x3FF0_0000_0000_0000;
pub const QUARTER: u64 = 0x3FD0_0000_0000_0000;
pub const TWO_FIFTHS: u64 = 0x3FD9_9999_9999_999A;
pub const TENTH: u64 = 0x3FB9_9999_9999_999A;
pub const HUNDREDTH: u64 = 0x3F84_7AE1_47AE_147B;
pub const MINUS_FORTY: u64 = 0xC044_0000_0000_0000;

/// A message of the sample database: eight bytes long, with the given
/// identifier, name, sender, cycle time and number of signals.
pub open spec fn sample_message(
    m: CanMessageView,
    id: u32,
    name: Seq<char>,
    sender: Seq<char>,
    cycle: u32,
    count: nat,
) -> bool {
    &&& m.id == id
    &&& m.name == name
    &&& m.length == 8
    &&& m.sender == sender
    &&& m.cycle_time == Some(cycle)
    &&& m.signals.len() == count
}

/// The messages of the sample automotive database, in the order they are
/// added, their signals numbered from channel 1 in that order.
pub open spec fn automotive(ms: Seq<CanMessageView>) -> bool {
    &&& ms.len() == 5
    &&& sample_message(ms[0], 0x100, "Engine_Data"@, "ECU"@, 10, 3)
    &&& sample_message(ms[1], 0x200, "Vehicle_Speed"@, Seq::<char>::empty(), 20, 3)
    &&& sample_message(ms[2], 0x300, "Engine_Temp"@, Seq::<char>::empty(), 100, 3)
    &&& sample_message(ms[3], 0x400, "Fuel_System"@, Seq::<char>::empty(), 200, 3)
    &&& sample_message(ms[4], 0x500, "Suspension"@, Seq::<char>::empty(), 5, 4)
    &&& built_signal("Engine_RPM"@, 1, 0, 16, SignalValueType::Unsigned, QUARTER, ZERO, "rpm"@, ms[0].signals[0])
    &&& built_signal("Engine_Load"@, 2, 16, 8, SignalValueType::Unsigned, TWO_FIFTHS, ZERO, "%"@, ms[0].signals[1])
    &&& built_signal("Throttle_Position"@, 3, 24, 8, SignalValueType::Unsigned, TWO_FIFTHS, ZERO, "%"@, ms[0].signals[2])
    &&& built_signal("Vehicle_Speed"@, 4, 0, 16, SignalValueType::Unsigned, TENTH, ZERO, "km/h"@, ms[1].signals[0])
    &&& built_signal("Gear_Position"@, 5, 16, 4, SignalValueType::Unsigned, ONE, ZERO, Seq::<char>::empty(), ms[1].signals[1])
    &&& built_signal("Brake_Pedal"@, 6, 20, 1, SignalValueType::Unsigned, ONE, ZERO, "bool"@, ms[1].signals[2])
    &&& built_signal("Coolant_Temp"@, 7, 0, 8, SignalValueType::Unsigned, ONE, MINUS_FORTY, "°C"@, ms[2].signals[0])
    &&& built_signal("Oil_Temp"@, 8, 8, 8, SignalValueType::Unsigned, ONE, MINUS_FORTY, "°C"@, ms[2].signals[1])
    &&& built_signal("Intake_Air_Temp"@, 9, 16, 8, SignalValueType::Unsigned, ONE, MINUS_FORTY, "°C"@, ms[2].signals[2])
    &&& built_signal("Fuel_Level"@, 10, 0, 8, SignalValueType::Unsigned, TWO_FIFTHS, ZERO, "%"@, ms[3].signals[0])
    &&& built_signal("Fuel_Consumption"@, 11, 8, 16, SignalValueType::Unsigned, HUNDREDTH, ZERO, "L/h"@, ms[3].signals[1])
    &&& built_signal("Fuel_Pressure"@, 12, 24, 8, SignalValueType::Unsigned, TENTH, ZERO, "bar"@, ms[3].signals[2])
    &&& built_signal("Front_Left_Damper"@, 13, 0, 16, SignalValueType::Signed, HUNDREDTH, ZERO, "mm"@, ms[4].signals[0])
    &&& built_signal("Front_Right_Damper"@, 14, 16, 16, SignalValueType::Signed, HUNDREDTH, ZERO, "mm"@, ms[4].signals[1])
    &&& built_signal("Rear_Left_Damper"@, 15, 32, 16, SignalValueType::Signed, HUNDREDTH, ZERO, "mm"@, ms[4].signals[2])
    &&& built_signal("Rear_Right_Damper"@, 16, 48, 16, SignalValueType::Signed, HUNDREDTH, ZERO, "mm"@, ms[4].signals[3])
}

/// Where the sample database's signal names point: each at its message.
pub open spec fn automotive_index() -> Map<Seq<char>, u32> {
    Map::<Seq<char>, u32>::empty()
        .insert("Engine_RPM"@, 0x100)
        .insert("Engine_Load"@, 0x100)
        .insert("Throttle_Position"@, 0x100)
        .insert("Vehicle_Speed"@, 0x200)
        .insert("Gear_Position"@, 0x200)
        .insert("Brake_Pedal"@, 0x200)
        .insert("Coolant_Temp"@, 0x300)
        .insert("Oil_Temp"@, 0x300)
        .insert("Intake_Air_Temp"@, 0x300)
        .insert("Fuel_Level"@, 0x400)
        .insert("Fuel_Consumption"@, 0x400)
        .insert("Fuel_Pressure"@, 0x400)
        .insert("Front_Left_Damper"@, 0x500)
        .insert("Front_Right_Damper"@, 0x500)
        .insert("Rear_Left_Damper"@, 0x500)
        .insert("Rear_Right_Damper"@, 0x500)
}

/// A sample automotive CAN database: engine data, vehicle speed, engine
/// temperatures, fuel system and suspension, at identifiers 0x100 to 0x500.
pub fn create_automotive_database() -> (db: CanDatabase)
    ensures
        db.well_formed(),
        automotive(db.spec_messages()),
        db.signal_index() == automotive_index(),
{
    proof {
        reveal_with_fuel(indexed, 5);
        reveal_strlit("");
        assert(""@ =~= Seq::<char>::empty());
    }
    let b = CanDatabaseBuilder::new();
    let ghost before0 = b.spec_database().spec_messages();
    let m = b.add_message(0x100, "Engine_Data", 8);
    let m = m.add_signal("Engine_RPM", 0, 16, QUARTER, ZERO, "rpm");
    let ghost g0 = m.spec_message()@.signals;
    let m = m.add_signal("Engine_Load", 16, 8, TWO_FIFTHS, ZERO, "%");
    let ghost g1 = m.spec_message()@.signals;
    let m = m.add_signal("Throttle_Position", 24, 8, TWO_FIFTHS, ZERO, "%");
    let ghost g2 = m.spec_message()@.signals;
    let m = m.with_cycle_time(10);
    let m = m.with_sender("ECU");
    let ghost built0 = m.spec_message()@;
    proof {
        assert(built0.signals == g2);
        assert(g1.drop_last() == g0);
        assert(g2.drop_last() == g1);
        assert(built0.signals[0] == g0.last());
        assert(built0.signals[1] == g1.last());
        assert(built0.signals[2] == g2.last());
    }
    proof {
        lemma_find_can(before0, 0x100, before0.len() as int);
    }
    let b = m.finish_message();
    assert(b.spec_database().spec_messages() == before0.push(built0));
    let ghost before1 = b.spec_database().spec_messages();
    let m = b.add_message(0x200, "Vehicle_Speed", 8);
    let m = m.add_signal("Vehicle_Speed", 0, 16, TENTH, ZERO, "km/h");
    let ghost g3 = m.spec_message()@.signals;
    let m = m.add_signal("Gear_Position", 16, 4, ONE, ZERO, "");
    let ghost g4 = m.spec_message()@.signals;
    let m = m.add_signal("Brake_Pedal", 20, 1, ONE, ZERO, "bool");
    let ghost g5 = m.spec_message()@.signals;
    let m = m.with_cycle_time(20);
    let ghost built1 = m.spec_message()@;
    proof {
        assert(built1.signals == g5);
        assert(g4.drop_last() == g3);
        assert(g5.drop_last() == g4);
        assert(built1.signals[0] == g3.last());
        assert(built1.signals[1] == g4.last());
        assert(built1.signals[2] == g5.last());
    }
    proof {
        lemma_find_can(before1, 0x200, before1.len() as int);
    }
    let b = m.finish_message();
    assert(b.spec_database().spec_messages() == before1.push(built1));
    let ghost before2 = b.spec_database().spec_messages();
    let m = b.add_message(0x300, "Engine_Temp", 8);
    let m = m.add_signal("Coolant_Temp", 0, 8, ONE, MINUS_FORTY, "°C");
    let ghost g6 = m.spec_message()@.signals;
    let m = m.add_signal("Oil_Temp", 8, 8, ONE, MINUS_FORTY, "°C");
    let ghost g7 = m.spec_message()@.signals;
    let m = m.add_signal("Intake_Air_Temp", 16, 8, ONE, MINUS_FORTY, "°C");
    let ghost g8 = m.spec_message()@.signals;
    let m = m.with_cycle_time(100);
    let ghost built2 = m.spec_message()@;
    proof {
        assert(built2.signals == g8);
        assert(g7.drop_last() == g6);
        assert(g8.drop_last() == g7);
        assert(built2.signals[0] == g6.last());
        assert(built2.signals[1] == g7.last());
        assert(built2.signals[2] == g8.last());
    }
    proof {
        lemma_find_can(before2, 0x300, before2.len() as int);
    }
    let b = m.finish_message();
    assert(b.spec_database().spec_messages() == before2.push(built2));
    let ghost before3 = b.spec_database().spec_messages();
    let m = b.add_message(0x400, "Fuel_System", 8);
    let m = m.add_signal("Fuel_Level", 0, 8, TWO_FIFTHS, ZERO, "%");
    let ghost g9 = m.spec_message()@.signals;
    let m = m.add_signal("Fuel_Consumption", 8, 16, HUNDREDTH, ZERO, "L/h");
    let ghost g10 = m.spec_message()@.signals;
    let m = m.add_signal("Fuel_Pressure", 24, 8, TENTH, ZERO, "bar");
    let ghost g11 = m.spec_message()@.signals;
    let m = m.with_cycle_time(200);
    let ghost built3 = m.spec_message()@;
    proof {
        assert(built3.signals == g11);
        assert(g10.drop_last() == g9);
        assert(g11.drop_last() == g10);
        assert(built3.signals[0] == g9.last());
        assert(built3.signals[1] == g10.last());
        assert(built3.signals[2] == g11.last());
    }
    proof {
        lemma_find_can(before3, 0x400, before3.len() as int);
    }
    let b = m.finish_message();
    assert(b.spec_database().spec_messages() == before3.push(built3));
    let ghost before4 = b.spec_database().spec_messages();
    let m = b.add_message(0x500, "Suspension", 8);
    let m = m.add_signed_signal("Front_Left_Damper", 0, 16, HUNDREDTH, ZERO, "mm");
    let ghost g12 = m.spec_message()@.signals;
    let m = m.add_signed_signal("Front_Right_Damper", 16, 16, HUNDREDTH, ZERO, "mm");
    let ghost g13 = m.spec_message()@.signals;
    let m = m.add_signed_signal("Rear_Left_Damper", 32, 16, HUNDREDTH, ZERO, "mm");
    let ghost g14 = m.spec_message()@.signals;
    let m = m.add_signed_signal("Rear_Right_Damper", 48, 16, HUNDREDTH, ZERO, "mm");
    let ghost g15 = m.spec_message()@.signals;
    let m = m.with_cycle_time(5);
    let ghost built4 = m.spec_message()@;
    proof {
        assert(built4.signals == g15);
        assert(g13.drop_last() == g12);
        assert(g14.drop_last() == g13);
        assert(g15.drop_last() == g14);
        assert(built4.signals[0] == g12.last());
        assert(built4.signals[1] == g13.last());
        assert(built4.signals[2] == g14.last());
        assert(built4.signals[3] == g15.last());
    }
    proof {
        lemma_find_can(before4, 0x500, before4.len() as int);
    }
    let b = m.finish_message();
    assert(b.spec_database().spec_messages() == before4.push(built4));
    assert(b.spec_database().spec_messages() =~= seq![built0, built1, built2, built3, built4]);
    b.build()
}

} // verus!
