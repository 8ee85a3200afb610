//! The two output shapes of `spatiax decode`.
//!
//! Text groups signals under their frame for reading at a terminal; CSV
//! puts one decoded signal per row for anything downstream. Identifiers are
//! printed the way `candump` writes them — three hex digits for standard,
//! eight for extended — so a value on screen can be grepped for in the log.
//!
//! A [`Writer`] renders lines and keeps them until [`Writer::flush`] hands
//! them over; whoever holds the terminal or the file writes them out. The
//! physical value of a signal arrives already written as text, since it is
//! a floating-point number.

use vstd::prelude::*;

use crate::dbc::types::{label_of, raw_number, Decoded, Message};
use crate::frame::{lemma_frame_fields, CanFrame, CanId};
use crate::text::{
    append_decimal, append_hex, append_padded, chars_of, decimal, hex_digits, padded, push_char,
    push_str,
};

verus! {

/// How decoded frames are written.
#[derive(Clone, Copy, Debug, PartialEq, Eq, Structural)]
pub enum Format {
    /// One block per frame, one indented line per signal
    Text,
    /// One row per decoded signal, with a header row
    Csv,
}

/// Renders decoded frames as lines of text in one [`Format`].
pub struct Writer {
    format: Format,
    pending: String,
}

/// The header row of the CSV format.
pub open spec fn csv_header() -> Seq<char> {
    "timestamp,id,message,signal,raw,value,unit,label\n"@
}

/// `<seconds>.<microseconds>`, the microseconds to six digits.
pub open spec fn timestamp_text(us: u64) -> Seq<char> {
    decimal((us / 1_000_000) as nat) + seq!['.'] + padded((us % 1_000_000) as nat, 6)
}

/// An identifier the way `candump` writes it: three hex digits for a
/// standard identifier, eight for an extended one.
pub open spec fn id_text(id: CanId) -> Seq<char> {
    match id {
        CanId::Standard(raw) => hex_digits(raw as nat, 3),
        CanId::Extended(raw) => hex_digits(raw as nat, 8),
    }
}

/// Whether a CSV field must be quoted: it holds a comma, a quote or a line
/// break.
pub open spec fn needs_quotes(text: Seq<char>) -> bool {
    exists|i: int|
        0 <= i < text.len() && (text[i] == ',' || text[i] == '"' || text[i] == '\n' || text[i]
            == '\r')
}

/// `text` with every quote doubled.
pub open spec fn doubled_quotes(text: Seq<char>) -> Seq<char>
    decreases text.len(),
{
    if text.len() == 0 {
        Seq::empty()
    } else {
        doubled_quotes(text.drop_last()) + if text.last() == '"' {
            seq!['"', '"']
        } else {
            seq![text.last()]
        }
    }
}

/// A CSV field as RFC 4180 writes it.
pub open spec fn csv_text(text: Seq<char>) -> Seq<char> {
    if needs_quotes(text) {
        seq!['"'] + doubled_quotes(text) + seq!['"']
    } else {
        text
    }
}

/// The line that opens a frame in the text format.
pub open spec fn frame_line(f: CanFrame, message: Message) -> Seq<char> {
    timestamp_text(f.spec_timestamp()) + seq![' '] + id_text(f.spec_id()) + seq![' ']
        + message.name@ + seq!['\n']
}

/// The value table's description of a decoded signal, if it has one.
pub open spec fn decoded_label(d: Decoded) -> Option<Seq<char>> {
    label_of(d.signal@.value_table, raw_number(*d.signal, d.raw))
}

/// The line of one signal in the text format: the label, with the value and
/// unit in parentheses, or the value and unit alone.
pub open spec fn text_signal_line(d: Decoded, value: Seq<char>) -> Seq<char> {
    let unit = if d.signal.unit@.len() == 0 {
        Seq::empty()
    } else {
        seq![' '] + d.signal.unit@
    };
    match decoded_label(d) {
        Some(label) => seq![' ', ' '] + d.signal.name@ + seq![':', ' '] + label + seq![' ', '(']
            + value + unit + seq![')', '\n'],
        None => seq![' ', ' '] + d.signal.name@ + seq![':', ' '] + value + unit + seq!['\n'],
    }
}

/// The row of one signal in the CSV format.
pub open spec fn csv_signal_line(f: CanFrame, message: Message, d: Decoded, value: Seq<char>) -> Seq<
    char,
> {
    timestamp_text(f.spec_timestamp()) + seq![','] + id_text(f.spec_id()) + seq![','] + csv_text(
        message.name@,
    ) + seq![','] + csv_text(d.signal.name@) + seq![','] + decimal(d.raw as nat) + seq![',']
        + value + seq![','] + csv_text(d.signal.unit@) + seq![','] + csv_text(
        match decoded_label(d) {
            Some(label) => label,
            None => Seq::empty(),
        },
    ) + seq!['\n']
}

/// The label a value table gives a decoded signal, or nothing.
pub open spec fn label_or_empty(d: Decoded) -> Seq<char> {
    match label_of(d.signal@.value_table, raw_number(*d.signal, d.raw)) {
        Some(label) => label,
        None => Seq::empty(),
    }
}

/// A CSV signal row ends with the unit and then the label: the value
/// table's description of the decoded (sign-interpreted) raw value, or an
/// empty field when the table has none, each as a CSV field, and the row's
/// newline.
pub proof fn lemma_csv_row_ends_with_label(f: CanFrame, message: Message, d: Decoded, value: Seq<char>)
    ensures
        ({
            let line = csv_signal_line(f, message, d, value);
            let tail = seq![','] + csv_text(d.signal.unit@) + seq![','] + csv_text(label_or_empty(d))
                + seq!['\n'];
            tail.len() <= line.len() && line.skip(line.len() - tail.len()) == tail
        }),
{
    let line = csv_signal_line(f, message, d, value);
    let tail = seq![','] + csv_text(d.signal.unit@) + seq![','] + csv_text(label_or_empty(d))
        + seq!['\n'];
    let head = timestamp_text(f.spec_timestamp()) + seq![','] + id_text(f.spec_id()) + seq![',']
        + csv_text(message.name@) + seq![','] + csv_text(d.signal.name@) + seq![','] + decimal(
        d.raw as nat,
    ) + seq![','] + value;
    assert(line =~= head + tail);
    assert((head + tail).skip(head.len() as int) =~= tail);
}

/// Append `text` as a CSV field.
fn append_csv_field(s: &mut String, text: &str)
    ensures
        final(s)@ == old(s)@ + csv_text(text@),
{
    let f = csv_field(text);
    push_str(s, f.as_str());
}

/// Quote a field only when RFC 4180 says it needs it.
pub fn csv_field(text: &str) -> (r: String)
    ensures
        r@ == csv_text(text@),
{
    let cs = chars_of(text);
    let mut quote = false;
    let mut i: usize = 0;
    while i < cs.len()
        invariant
            i <= cs@.len(),
            quote == exists|j: int|
                0 <= j < i && (cs@[j] == ',' || cs@[j] == '"' || cs@[j] == '\n' || cs@[j] == '\r'),
        decreases cs@.len() - i,
    {
        let c = cs[i];
        if c == ',' || c == '"' || c == '\n' || c == '\r' {
            quote = true;
        }
        i = i + 1;
    }
    let mut r = String::new();
    if !quote {
        let mut k: usize = 0;
        while k < cs.len()
            invariant
                k <= cs@.len(),
                r@ == cs@.take(k as int),
            decreases cs@.len() - k,
        {
            push_char(&mut r, cs[k]);
            k = k + 1;
            assert(r@ =~= cs@.take(k as int));
        }
        assert(cs@.take(cs@.len() as int) =~= cs@);
        return r;
    }
    push_char(&mut r, '"');
    let mut k: usize = 0;
    while k < cs.len()
        invariant
            k <= cs@.len(),
            r@ == seq!['"'] + doubled_quotes(cs@.take(k as int)),
        decreases cs@.len() - k,
    {
        let c = cs[k];
        push_char(&mut r, c);
        if c == '"' {
            push_char(&mut r, '"');
        }
        proof {
            assert(cs@.take(k + 1).drop_last() =~= cs@.take(k as int));
        }
        k = k + 1;
        assert(r@ =~= seq!['"'] + doubled_quotes(cs@.take(k as int)));
    }
    push_char(&mut r, '"');
    assert(cs@.take(cs@.len() as int) =~= cs@);
    r
}

/// Append a time in microseconds as `<seconds>.<microseconds>`.
fn append_timestamp(s: &mut String, us: u64)
    ensures
        final(s)@ == old(s)@ + timestamp_text(us),
{
    let ghost start = s@;
    append_decimal(s, us / 1_000_000);
    push_char(s, '.');
    append_padded(s, us % 1_000_000, 6);
    assert(s@ =~= start + timestamp_text(us));
}

/// Append an identifier the way `candump` writes it.
fn append_id(s: &mut String, id: CanId)
    ensures
        final(s)@ == old(s)@ + id_text(id),
{
    match id {
        CanId::Standard(raw) => append_hex(s, raw as u64, 3),
        CanId::Extended(raw) => append_hex(s, raw as u64, 8),
    }
}

/// A frame's capture time as `<seconds>.<microseconds>`.
pub fn timestamp(frame: &CanFrame) -> (r: String)
    ensures
        r@ == timestamp_text(frame.spec_timestamp()),
{
    proof {
        lemma_frame_fields(frame);
    }
    let mut r = String::new();
    append_timestamp(&mut r, frame.timestamp_us);
    r
}

/// An identifier the way `candump` writes it.
pub fn id(can_id: CanId) -> (r: String)
    ensures
        r@ == id_text(can_id),
{
    let mut r = String::new();
    append_id(&mut r, can_id);
    r
}

/// The text of a label, if there is one.
pub open spec fn label_text(label: Option<&str>) -> Option<Seq<char>> {
    match label {
        Some(l) => Some(l@),
        None => None,
    }
}

fn append_text_signal(s: &mut String, decoded: &Decoded, value: &str, label: Option<&str>)
    requires
        label_text(label) == decoded_label(*decoded),
    ensures
        final(s)@ == old(s)@ + text_signal_line(*decoded, value@),
{
    let ghost start = s@;
    let signal = decoded.signal;
    push_str(s, "  ");
    push_str(s, signal.name.as_str());
    push_str(s, ": ");
    match label {
        Some(l) => {
            push_str(s, l);
            push_str(s, " (");
        },
        None => {},
    }
    push_str(s, value);
    if !signal.unit.as_str().is_empty() {
        push_char(s, ' ');
        push_str(s, signal.unit.as_str());
    }
    match label {
        Some(_) => push_char(s, ')'),
        None => {},
    }
    push_char(s, '\n');
    proof {
        reveal_strlit("  ");
        reveal_strlit(": ");
        reveal_strlit(" (");
    }
    assert(s@ =~= start + text_signal_line(*decoded, value@));
}

#[verifier::rlimit(30)]
fn append_csv_signal(
    s: &mut String,
    frame: &CanFrame,
    message: &Message,
    decoded: &Decoded,
    value: &str,
    label: Option<&str>,
)
    requires
        label_text(label) == decoded_label(*decoded),
    ensures
        final(s)@ == old(s)@ + csv_signal_line(*frame, *message, *decoded, value@),
{
    let ghost start = s@;
    proof {
        lemma_frame_fields(frame);
    }
    append_timestamp(s, frame.timestamp_us);
    push_char(s, ',');
    append_id(s, frame.id());
    push_char(s, ',');
    append_csv_field(s, message.name.as_str());
    push_char(s, ',');
    append_csv_field(s, decoded.signal.name.as_str());
    push_char(s, ',');
    append_decimal(s, decoded.raw);
    push_char(s, ',');
    push_str(s, value);
    push_char(s, ',');
    append_csv_field(s, decoded.signal.unit.as_str());
    push_char(s, ',');
    match label {
        Some(l) => append_csv_field(s, l),
        None => {
            append_csv_field(s, "");
            proof {
                reveal_strlit("");
            }
        },
    }
    push_char(s, '\n');
    assert(s@ =~= start + csv_signal_line(*frame, *message, *decoded, value@));
}

impl Writer {
    /// The lines rendered and not yet handed over.
    pub closed spec fn pending(&self) -> Seq<char> {
        self.pending@
    }

    /// The format this writer renders.
    pub closed spec fn spec_format(&self) -> Format {
        self.format
    }

    /// A writer in `format` with nothing rendered.
    pub fn new(format: Format) -> (w: Writer)
        ensures
            w.spec_format() == format,
            w.pending() == Seq::<char>::empty(),
    {
        Writer { format, pending: String::new() }
    }

    /// Start the output: the CSV header row, or nothing for text.
    pub fn begin(&mut self)
        ensures
            final(self).spec_format() == old(self).spec_format(),
            final(self).pending() == old(self).pending() + match old(self).spec_format() {
                Format::Text => Seq::<char>::empty(),
                Format::Csv => csv_header(),
            },
    {
        match self.format {
            Format::Text => {
                assert(self.pending@ =~= self.pending@ + Seq::<char>::empty());
            },
            Format::Csv => push_str(
                &mut self.pending,
                "timestamp,id,message,signal,raw,value,unit,label\n",
            ),
        }
    }

    /// Open a frame: in text, a line with its time, identifier and
    /// message name; in CSV, nothing.
    pub fn frame(&mut self, frame: &CanFrame, message: &Message)
        ensures
            final(self).spec_format() == old(self).spec_format(),
            final(self).pending() == old(self).pending() + match old(self).spec_format() {
                Format::Text => frame_line(*frame, *message),
                Format::Csv => Seq::<char>::empty(),
            },
    {
        match self.format {
            Format::Text => {
                let ghost start = self.pending@;
                proof {
                    lemma_frame_fields(frame);
                }
                append_timestamp(&mut self.pending, frame.timestamp_us);
                push_char(&mut self.pending, ' ');
                append_id(&mut self.pending, frame.id());
                push_char(&mut self.pending, ' ');
                push_str(&mut self.pending, message.name.as_str());
                push_char(&mut self.pending, '\n');
                assert(self.pending@ =~= start + frame_line(*frame, *message));
            },
            Format::Csv => {
                assert(self.pending@ =~= self.pending@ + Seq::<char>::empty());
            },
        }
    }

    /// One decoded signal, whose physical value is written as `value`.
    pub fn signal(&mut self, frame: &CanFrame, message: &Message, decoded: &Decoded, value: &str)
        requires
            decoded.signal.well_formed(),
        ensures
            final(self).spec_format() == old(self).spec_format(),
            final(self).pending() == old(self).pending() + match old(self).spec_format() {
                Format::Text => text_signal_line(*decoded, value@),
                Format::Csv => csv_signal_line(*frame, *message, *decoded, value@),
            },
    {
        let label = decoded.label();
        match self.format {
            Format::Text => append_text_signal(&mut self.pending, decoded, value, label),
            Format::Csv => append_csv_signal(&mut self.pending, frame, message, decoded, value, label),
        }
    }

    /// Hand over everything rendered so far, leaving nothing pending.
    pub fn flush(&mut self) -> (out: String)
        ensures
            out@ == old(self).pending(),
            final(self).pending() == Seq::<char>::empty(),
            final(self).spec_format() == old(self).spec_format(),
    {
        let mut out = String::new();
        let ghost p = self.pending@;
        push_str(&mut out, self.pending.as_str());
        self.pending = String::new();
        assert(out@ =~= p);
        out
    }
}

} // verus!
