//! DBC text -> [`Database`].
//!
//! Line-oriented and hand-written: a DBC is a flat sequence of records, and
//! the thing a caller most needs on failure is the line number.
//!
//! Records understood: `BO_` (message), `SG_` (signal) and `VAL_` (the
//! labels of a signal's raw values). Everything else — `CM_`, `BA_`,
//! `BA_DEF_`, `VAL_TABLE_`, `BO_TX_BU_`, `BU_`, `NS_`, `BS_` — is skipped,
//! because a database that refuses to load over a comment record is useless
//! in a garage. For the same reason a value table naming a message or signal
//! the database does not define is skipped too.
//!
//! The contract of each parsing function is a spec function over the
//! characters of its input, built from the text primitives of
//! [`crate::text`]: the grammar of the record and, for each way a record can
//! be malformed, the message that says so.

use vstd::prelude::*;

use crate::dbc::types::{
    insert_message, insert_view, lemma_insert_view, messages_view, table_applied, table_view,
    with_table, ByteOrder, Database, Message, MessageView, Multiplexing, Signal, SignalView, ValueType,
};
use crate::error::{error_text, Error};
use crate::frame::{dbc_id, CanId};
use crate::text::{
    append_decimal, chars_of, decimal, is_float, is_float_text, is_whitespace,
    lemma_skip_word_bounds, lemma_skip_ws_bounds, next_token, parse_uint, parse_unsigned, push_char,
    push_str, skip_word, skip_ws, split_at_char, split_once, starts_with, string_of, token_at,
    token_vec, trim, trim_end_char, trimmed, without_trailing, has_prefix,
};

verus! {

/// The message for a token that is not a number of the kind named by `what`.
pub open spec fn number_error(token: Seq<char>, what: Seq<char>) -> Seq<char> {
    "`"@ + token + "` is not a valid "@ + what
}

/// An unsigned decimal number no larger than `max`, as Rust parses one.
pub open spec fn spec_number(token: Seq<char>, what: Seq<char>, max: nat) -> Result<nat, Seq<char>> {
    match parse_unsigned(token, 10, max) {
        Some(v) => Ok(v),
        None => Err(number_error(token, what)),
    }
}

/// A floating-point number, kept as its text.
pub open spec fn spec_real(token: Seq<char>, what: Seq<char>) -> Result<Seq<char>, Seq<char>> {
    if is_float_text(token) {
        Ok(token)
    } else {
        Err(number_error(token, what))
    }
}

fn number_message(token: &[char], what: &str) -> (s: String)
    ensures
        s@ == number_error(token@, what@),
{
    let mut s = String::new();
    push_str(&mut s, "`");
    let t = string_of(token);
    push_str(&mut s, t.as_str());
    push_str(&mut s, "` is not a valid ");
    push_str(&mut s, what);
    assert(s@ =~= number_error(token@, what@));
    s
}

fn parse_number(token: &[char], what: &str, max: u64) -> (r: Result<u64, String>)
    ensures
        match r {
            Ok(v) => spec_number(token@, what@, max as nat) == Ok::<nat, Seq<char>>(v as nat),
            Err(m) => spec_number(token@, what@, max as nat) == Err::<nat, Seq<char>>(m@),
        },
{
    match parse_uint(token, 10, max) {
        Some(v) => Ok(v),
        None => Err(number_message(token, what)),
    }
}

fn parse_real(token: &[char], what: &str) -> (r: Result<String, String>)
    ensures
        match r {
            Ok(v) => spec_real(token@, what@) == Ok::<Seq<char>, Seq<char>>(v@),
            Err(m) => spec_real(token@, what@) == Err::<Seq<char>, Seq<char>>(m@),
        },
{
    if is_float(token) {
        Ok(string_of(token))
    } else {
        Err(number_message(token, what))
    }
}

/// `<id> <Name>: <dlc> <Sender>`, with the colon either attached to the
/// name or standing alone.
#[verifier::opaque]
pub open spec fn spec_parse_message(rest: Seq<char>) -> Result<MessageView, Seq<char>> {
    match token_at(rest, 0) {
        None => Err("message record has no identifier"@),
        Some((a0, b0)) => match spec_number(
            rest.subrange(a0, b0),
            "message identifier"@,
            0xFFFF_FFFF,
        ) {
            Err(e) => Err(e),
            Ok(raw) => match dbc_id(raw as u32) {
                None => Err(
                    error_text(
                        Error::InvalidId {
                            raw: raw as u32,
                            reason: "no extended flag set but value exceeds 11 bits",
                        },
                    ),
                ),
                Some(id) => match token_at(rest, b0) {
                    None => Err("message record has no name"@),
                    Some((a1, b1)) => {
                        let name = trim_end_char(rest.subrange(a1, b1), ':');
                        let t2 = token_at(rest, b1);
                        let t3 = match t2 {
                            Some((a2, b2)) => if rest.subrange(a2, b2) == seq![':'] {
                                token_at(rest, b2)
                            } else {
                                t2
                            },
                            None => None,
                        };
                        match t3 {
                            None => Err("message record has no DLC"@),
                            Some((a3, b3)) => match spec_number(
                                rest.subrange(a3, b3),
                                "DLC"@,
                                0xFF,
                            ) {
                                Err(e) => Err(e),
                                Ok(dlc) => Ok(
                                    MessageView {
                                        id,
                                        name,
                                        dlc: dlc as u8,
                                        sender: match token_at(rest, b3) {
                                            Some((a4, b4)) => rest.subrange(a4, b4),
                                            None => Seq::empty(),
                                        },
                                        signals: Seq::empty(),
                                    },
                                ),
                            },
                        }
                    },
                },
            },
        },
    }
}

fn message_error(text: &str) -> (s: String)
    ensures
        s@ == text@,
{
    let mut s = String::new();
    push_str(&mut s, text);
    assert(s@ =~= text@);
    s
}

fn parse_message(rest: &[char]) -> (r: Result<Message, String>)
    ensures
        match r {
            Ok(m) => spec_parse_message(rest@) == Ok::<MessageView, Seq<char>>(m@) && m.signals@.len()
                == 0,
            Err(e) => spec_parse_message(rest@) == Err::<MessageView, Seq<char>>(e@),
        },
{
    reveal(spec_parse_message);
    let (a0, b0) = match next_token(rest, 0) {
        None => return Err(message_error("message record has no identifier")),
        Some(t) => t,
    };
    let raw = match parse_number(token_vec(rest, a0, b0).as_slice(), "message identifier", 0xFFFF_FFFF) {
        Err(e) => return Err(e),
        Ok(v) => v as u32,
    };
    let id = match CanId::from_dbc(raw) {
        Ok(id) => id,
        Err(e) => return Err(e.describe()),
    };
    let (a1, b1) = match next_token(rest, b0) {
        None => return Err(message_error("message record has no name")),
        Some(t) => t,
    };
    let name_chars = without_trailing(token_vec(rest, a1, b1).as_slice(), ':');
    let name = string_of(name_chars.as_slice());
    let t2 = next_token(rest, b1);
    let t3 = match t2 {
        Some((a2, b2)) => {
            if b2 - a2 == 1 && rest[a2] == ':' {
                assert(rest@.subrange(a2 as int, b2 as int) =~= seq![':']);
                next_token(rest, b2)
            } else {
                assert(rest@.subrange(a2 as int, b2 as int) != seq![':']) by {
                    assert(seq![':'].len() == 1);
                    assert(seq![':'][0] == ':');
                    if b2 - a2 == 1 {
                        assert(rest@.subrange(a2 as int, b2 as int)[0] == rest@[a2 as int]);
                    }
                }
                t2
            }
        },
        None => None,
    };
    let (a3, b3) = match t3 {
        None => return Err(message_error("message record has no DLC")),
        Some(t) => t,
    };
    let dlc = match parse_number(token_vec(rest, a3, b3).as_slice(), "DLC", 0xFF) {
        Err(e) => return Err(e),
        Ok(v) => v as u8,
    };
    let sender = match next_token(rest, b3) {
        Some((a4, b4)) => string_of(token_vec(rest, a4, b4).as_slice()),
        None => String::new(),
    };
    let m = Message { id, name, dlc, sender, signals: Vec::new() };
    assert(m@.signals =~= Seq::<SignalView>::empty());
    assert(m@.sender =~= match token_at(rest@, b3 as int) {
        Some((a4, b4)) => rest@.subrange(a4, b4),
        None => Seq::<char>::empty(),
    });
    Ok(m)
}

/// `describe` of an optional character: the character in backquotes, or
/// "end of line".
pub open spec fn describe_char(c: Option<char>) -> Seq<char> {
    match c {
        Some(c) => "`"@ + seq![c] + "`"@,
        None => "end of line"@,
    }
}

fn describe(c: Option<char>) -> (s: String)
    ensures
        s@ == describe_char(c),
{
    let mut s = String::new();
    match c {
        Some(c) => {
            push_str(&mut s, "`");
            push_char(&mut s, c);
            push_str(&mut s, "`");
        },
        None => push_str(&mut s, "end of line"),
    }
    assert(s@ =~= describe_char(c));
    s
}

/// The byte order flag after `@`.
pub open spec fn spec_byte_order(flag: Option<char>) -> Result<ByteOrder, Seq<char>> {
    match flag {
        Some('1') => Ok(ByteOrder::Intel),
        Some('0') => Ok(ByteOrder::Motorola),
        other => Err("expected byte order 0 or 1 after `@`, found "@ + describe_char(other)),
    }
}

/// The sign flag after the byte order.
pub open spec fn spec_value_type(flag: Option<char>) -> Result<ValueType, Seq<char>> {
    match flag {
        Some('+') => Ok(ValueType::Unsigned),
        Some('-') => Ok(ValueType::Signed),
        other => Err("expected sign + or - after byte order, found "@ + describe_char(other)),
    }
}

fn parse_byte_order(flag: Option<char>) -> (r: Result<ByteOrder, String>)
    ensures
        match r {
            Ok(o) => spec_byte_order(flag) == Ok::<ByteOrder, Seq<char>>(o),
            Err(e) => spec_byte_order(flag) == Err::<ByteOrder, Seq<char>>(e@),
        },
{
    match flag {
        Some('1') => Ok(ByteOrder::Intel),
        Some('0') => Ok(ByteOrder::Motorola),
        other => {
            let mut s = message_error("expected byte order 0 or 1 after `@`, found ");
            let d = describe(other);
            push_str(&mut s, d.as_str());
            Err(s)
        },
    }
}

fn parse_value_type(flag: Option<char>) -> (r: Result<ValueType, String>)
    ensures
        match r {
            Ok(v) => spec_value_type(flag) == Ok::<ValueType, Seq<char>>(v),
            Err(e) => spec_value_type(flag) == Err::<ValueType, Seq<char>>(e@),
        },
{
    match flag {
        Some('+') => Ok(ValueType::Unsigned),
        Some('-') => Ok(ValueType::Signed),
        other => {
            let mut s = message_error("expected sign + or - after byte order, found ");
            let d = describe(other);
            push_str(&mut s, d.as_str());
            Err(s)
        },
    }
}

/// A signal width: a number in `1..=64`.
pub open spec fn spec_length(token: Seq<char>) -> Result<u8, Seq<char>> {
    match spec_number(token, "signal length"@, 0xFF) {
        Err(e) => Err(e),
        Ok(l) => if 1 <= l <= 64 {
            Ok(l as u8)
        } else {
            Err(
                "signal length "@ + decimal(l) + " is outside the supported range 1..=64"@,
            )
        },
    }
}

fn parse_length(token: &[char]) -> (r: Result<u8, String>)
    ensures
        match r {
            Ok(l) => spec_length(token@) == Ok::<u8, Seq<char>>(l),
            Err(e) => spec_length(token@) == Err::<u8, Seq<char>>(e@),
        },
{
    let length = match parse_number(token, "signal length", 0xFF) {
        Err(e) => return Err(e),
        Ok(v) => v as u8,
    };
    if !(1 <= length && length <= 64) {
        let mut s = message_error("signal length ");
        append_decimal(&mut s, length as u64);
        push_str(&mut s, " is outside the supported range 1..=64");
        return Err(s);
    }
    Ok(length)
}

/// A signal's position and format.
pub struct Layout {
    pub start_bit: u16,
    pub length: u8,
    pub byte_order: ByteOrder,
    pub value_type: ValueType,
}

/// `<start>|<len>@<order><sign>`, and what follows it.
#[verifier::opaque]
pub open spec fn spec_layout(text: Seq<char>) -> Result<(Layout, Seq<char>), Seq<char>> {
    match split_once(text, '|') {
        None => Err("signal record has no `|` between start bit and length"@),
        Some((start, after_bar)) => match split_once(after_bar, '@') {
            None => Err("signal record has no `@` before the byte order"@),
            Some((length, after_at)) => match spec_number(trim(start), "start bit"@, 0xFFFF) {
                Err(e) => Err(e),
                Ok(start_bit) => match spec_length(trim(length)) {
                    Err(e) => Err(e),
                    Ok(len) => match spec_byte_order(
                        if after_at.len() > 0 {
                            Some(after_at[0])
                        } else {
                            None
                        },
                    ) {
                        Err(e) => Err(e),
                        Ok(order) => match spec_value_type(
                            if after_at.len() > 1 {
                                Some(after_at[1])
                            } else {
                                None
                            },
                        ) {
                            Err(e) => Err(e),
                            Ok(value_type) => Ok(
                                (
                                    Layout {
                                        start_bit: start_bit as u16,
                                        length: len,
                                        byte_order: order,
                                        value_type,
                                    },
                                    after_at.skip(2),
                                ),
                            ),
                        },
                    },
                },
            },
        },
    }
}

fn nth_char(s: &[char], i: usize) -> (c: Option<char>)
    ensures
        c == if i < s@.len() {
            Some(s@[i as int])
        } else {
            None::<char>
        },
{
    if i < s.len() {
        Some(s[i])
    } else {
        None
    }
}

fn parse_layout(text: &[char]) -> (r: Result<(Layout, Vec<char>), String>)
    ensures
        match r {
            Ok((l, rest)) => spec_layout(text@) matches Ok((l2, rest2)) && l == l2 && rest@ == rest2
                && 1 <= l.length <= 64,
            Err(e) => spec_layout(text@) == Err::<(Layout, Seq<char>), Seq<char>>(e@),
        },
{
    reveal(spec_layout);
    let (start, after_bar) = match split_at_char(text, '|') {
        None => return Err(message_error("signal record has no `|` between start bit and length")),
        Some(p) => p,
    };
    let (length, after_at) = match split_at_char(after_bar.as_slice(), '@') {
        None => return Err(message_error("signal record has no `@` before the byte order")),
        Some(p) => p,
    };
    let start_bit = match parse_number(trimmed(start.as_slice()).as_slice(), "start bit", 0xFFFF) {
        Err(e) => return Err(e),
        Ok(v) => v as u16,
    };
    let length = match parse_length(trimmed(length.as_slice()).as_slice()) {
        Err(e) => return Err(e),
        Ok(l) => l,
    };
    let byte_order = match parse_byte_order(nth_char(after_at.as_slice(), 0)) {
        Err(e) => return Err(e),
        Ok(o) => o,
    };
    let value_type = match parse_value_type(nth_char(after_at.as_slice(), 1)) {
        Err(e) => return Err(e),
        Ok(v) => v,
    };
    let n = after_at.len();
    let rest = token_vec(after_at.as_slice(), 2, n);
    assert(rest@ =~= after_at@.skip(2));
    Ok((Layout { start_bit, length, byte_order, value_type }, rest))
}

/// The name of the group of two numbers, such as `factor/offset`.
pub open spec fn group_name(first: Seq<char>, second: Seq<char>) -> Seq<char> {
    first + "/"@ + second
}

/// Two numbers as `<open>a<sep>b<close>`, and what follows the close.
#[verifier::opaque]
pub open spec fn spec_pair(
    text: Seq<char>,
    open: char,
    close: char,
    sep: char,
    first: Seq<char>,
    second: Seq<char>,
) -> Result<(Seq<char>, Seq<char>, Seq<char>), Seq<char>> {
    let group = group_name(first, second);
    match split_once(text, open) {
        None => Err("signal record has no `"@ + seq![open] + "` for "@ + group),
        Some((_, after_open)) => match split_once(after_open, close) {
            None => Err("signal record has no `"@ + seq![close] + "` for "@ + group),
            Some((inner, rest)) => match split_once(inner, sep) {
                None => Err("signal record has no `"@ + seq![sep] + "` in "@ + group),
                Some((a, b)) => match spec_real(trim(a), first) {
                    Err(e) => Err(e),
                    Ok(x) => match spec_real(trim(b), second) {
                        Err(e) => Err(e),
                        Ok(y) => Ok((x, y, rest)),
                    },
                },
            },
        },
    }
}

fn missing(c: char, middle: &str, first: &str, second: &str) -> (s: String)
    ensures
        s@ == "signal record has no `"@ + seq![c] + middle@ + group_name(first@, second@),
{
    let mut s = message_error("signal record has no `");
    push_char(&mut s, c);
    push_str(&mut s, middle);
    push_str(&mut s, first);
    push_str(&mut s, "/");
    push_str(&mut s, second);
    assert(s@ =~= "signal record has no `"@ + seq![c] + middle@ + group_name(first@, second@));
    s
}

#[verifier::rlimit(40)]
fn parse_pair(text: &[char], open: char, close: char, sep: char, first: &str, second: &str) -> (r:
    Result<(String, String, Vec<char>), String>)
    ensures
        match r {
            Ok((x, y, rest)) => spec_pair(text@, open, close, sep, first@, second@) == Ok::<
                (Seq<char>, Seq<char>, Seq<char>),
                Seq<char>,
            >((x@, y@, rest@)),
            Err(e) => spec_pair(text@, open, close, sep, first@, second@) == Err::<
                (Seq<char>, Seq<char>, Seq<char>),
                Seq<char>,
            >(e@),
        },
{
    reveal(spec_pair);
    let (_, after_open) = match split_at_char(text, open) {
        None => return Err(missing(open, "` for ", first, second)),
        Some(p) => p,
    };
    let (inner, rest) = match split_at_char(after_open.as_slice(), close) {
        None => return Err(missing(close, "` for ", first, second)),
        Some(p) => p,
    };
    let (a, b) = match split_at_char(inner.as_slice(), sep) {
        None => return Err(missing(sep, "` in ", first, second)),
        Some(p) => p,
    };
    let x = match parse_real(trimmed(a.as_slice()).as_slice(), first) {
        Err(e) => return Err(e),
        Ok(x) => x,
    };
    let y = match parse_real(trimmed(b.as_slice()).as_slice(), second) {
        Err(e) => return Err(e),
        Ok(y) => y,
    };
    Ok((x, y, rest))
}

/// Contents of the first `"..."` group. An empty unit is legal.
pub open spec fn spec_quoted(text: Seq<char>) -> Result<Seq<char>, Seq<char>> {
    match split_once(text, '"') {
        None => Err("signal record has no quoted unit"@),
        Some((_, after_open)) => match split_once(after_open, '"') {
            None => Err("signal record has an unterminated unit string"@),
            Some((unit, _)) => Ok(unit),
        },
    }
}

fn parse_quoted(text: &[char]) -> (r: Result<String, String>)
    ensures
        match r {
            Ok(u) => spec_quoted(text@) == Ok::<Seq<char>, Seq<char>>(u@),
            Err(e) => spec_quoted(text@) == Err::<Seq<char>, Seq<char>>(e@),
        },
{
    let (_, after_open) = match split_at_char(text, '"') {
        None => return Err(message_error("signal record has no quoted unit")),
        Some(p) => p,
    };
    match split_at_char(after_open.as_slice(), '"') {
        None => Err(message_error("signal record has an unterminated unit string")),
        Some((unit, _)) => Ok(string_of(unit.as_slice())),
    }
}

/// The multiplexing marker after a signal's name: `M`, or `m<N>`.
pub open spec fn spec_multiplexing(token: Seq<char>) -> Result<Multiplexing, Seq<char>> {
    if token == seq!['M'] {
        Ok(Multiplexing::Multiplexor)
    } else if token.len() > 0 && token[0] == 'm' {
        match spec_number(token.skip(1), "multiplexor selector"@, 0xFFFF) {
            Err(e) => Err(e),
            Ok(n) => Ok(Multiplexing::Multiplexed(n as u16)),
        }
    } else {
        Err("unexpected token `"@ + token + "` after signal name"@)
    }
}

fn parse_multiplexing(token: &[char]) -> (r: Result<Multiplexing, String>)
    ensures
        match r {
            Ok(m) => spec_multiplexing(token@) == Ok::<Multiplexing, Seq<char>>(m),
            Err(e) => spec_multiplexing(token@) == Err::<Multiplexing, Seq<char>>(e@),
        },
{
    if token.len() == 1 && token[0] == 'M' {
        assert(token@ =~= seq!['M']);
        return Ok(Multiplexing::Multiplexor);
    }
    assert(token@ != seq!['M']) by {
        if token@.len() == 1 {
            assert(token@[0] == seq!['M'][0] ==> token[0] == 'M');
        }
    }
    if token.len() > 0 && token[0] == 'm' {
        let n = token.len();
        let selector = token_vec(token, 1, n);
        assert(selector@ =~= token@.skip(1));
        return match parse_number(selector.as_slice(), "multiplexor selector", 0xFFFF) {
            Err(e) => Err(e),
            Ok(v) => Ok(Multiplexing::Multiplexed(v as u16)),
        };
    }
    let mut s = message_error("unexpected token `");
    let t = string_of(token);
    push_str(&mut s, t.as_str());
    push_str(&mut s, "` after signal name");
    assert(s@ =~= "unexpected token `"@ + token@ + "` after signal name"@);
    Err(s)
}

/// The name and multiplexing marker before a signal's `:`.
#[verifier::opaque]
pub open spec fn spec_signal_head(head: Seq<char>) -> Result<(Seq<char>, Multiplexing), Seq<char>> {
    match token_at(head, 0) {
        None => Err("signal record has no name"@),
        Some((a, b)) => match token_at(head, b) {
            None => Ok((head.subrange(a, b), Multiplexing::Plain)),
            Some((c, d)) => match spec_multiplexing(head.subrange(c, d)) {
                Err(e) => Err(e),
                Ok(m) => Ok((head.subrange(a, b), m)),
            },
        },
    }
}

fn parse_signal_head(head: &[char]) -> (r: Result<(String, Multiplexing), String>)
    ensures
        match r {
            Ok((name, m)) => spec_signal_head(head@) == Ok::<(Seq<char>, Multiplexing), Seq<char>>(
                (name@, m),
            ),
            Err(e) => spec_signal_head(head@) == Err::<(Seq<char>, Multiplexing), Seq<char>>(e@),
        },
{
    reveal(spec_signal_head);
    let (a, b) = match next_token(head, 0) {
        None => return Err(message_error("signal record has no name")),
        Some(t) => t,
    };
    let multiplexing = match next_token(head, b) {
        None => Multiplexing::Plain,
        Some((c, d)) => match parse_multiplexing(token_vec(head, c, d).as_slice()) {
            Err(e) => return Err(e),
            Ok(m) => m,
        },
    };
    Ok((string_of(token_vec(head, a, b).as_slice()), multiplexing))
}

/// `<Name> [M|m<N>] : <start>|<len>@<order><sign> (<factor>,<offset)
/// [<min>|<max>] "<unit>" <receivers>`.
#[verifier::opaque]
pub open spec fn spec_parse_signal(rest: Seq<char>) -> Result<SignalView, Seq<char>> {
    match split_once(rest, ':') {
        None => Err("signal record has no `:`"@),
        Some((head, tail)) => match spec_signal_head(head) {
            Err(e) => Err(e),
            Ok((name, multiplexing)) => match spec_layout(tail) {
                Err(e) => Err(e),
                Ok((layout, tail)) => match spec_pair(tail, '(', ')', ',', "factor"@, "offset"@) {
                    Err(e) => Err(e),
                    Ok((factor, offset, tail)) => match spec_pair(
                        tail,
                        '[',
                        ']',
                        '|',
                        "minimum"@,
                        "maximum"@,
                    ) {
                        Err(e) => Err(e),
                        Ok((min, max, tail)) => match spec_quoted(tail) {
                            Err(e) => Err(e),
                            Ok(unit) => Ok(
                                SignalView {
                                    name,
                                    start_bit: layout.start_bit,
                                    length: layout.length,
                                    byte_order: layout.byte_order,
                                    value_type: layout.value_type,
                                    factor,
                                    offset,
                                    min,
                                    max,
                                    unit,
                                    multiplexing,
                                    value_table: Seq::empty(),
                                },
                            ),
                        },
                    },
                },
            },
        },
    }
}

fn parse_signal(rest: &[char]) -> (r: Result<Signal, String>)
    ensures
        match r {
            Ok(s) => spec_parse_signal(rest@) == Ok::<SignalView, Seq<char>>(s@) && s.well_formed(),
            Err(e) => spec_parse_signal(rest@) == Err::<SignalView, Seq<char>>(e@),
        },
{
    reveal(spec_parse_signal);
    let (head, tail) = match split_at_char(rest, ':') {
        None => return Err(message_error("signal record has no `:`")),
        Some(p) => p,
    };
    let (name, multiplexing) = match parse_signal_head(head.as_slice()) {
        Err(e) => return Err(e),
        Ok(p) => p,
    };
    let (layout, tail) = match parse_layout(tail.as_slice()) {
        Err(e) => return Err(e),
        Ok(p) => p,
    };
    let (factor, offset, tail) = match parse_pair(tail.as_slice(), '(', ')', ',', "factor", "offset") {
        Err(e) => return Err(e),
        Ok(p) => p,
    };
    let (min, max, tail) = match parse_pair(tail.as_slice(), '[', ']', '|', "minimum", "maximum") {
        Err(e) => return Err(e),
        Ok(p) => p,
    };
    let unit = match parse_quoted(tail.as_slice()) {
        Err(e) => return Err(e),
        Ok(u) => u,
    };
    let value_table: Vec<(i64, String)> = Vec::new();
    assert(table_view(value_table@) =~= Seq::<(i64, Seq<char>)>::empty());
    Ok(
        Signal {
            name,
            start_bit: layout.start_bit,
            length: layout.length,
            byte_order: layout.byte_order,
            value_type: layout.value_type,
            factor,
            offset,
            min,
            max,
            unit,
            multiplexing,
            value_table,
        },
    )
}

/// A signed decimal integer that fits an `i64`, as Rust parses one: an
/// optional sign, then one or more digits.
pub open spec fn parse_signed(s: Seq<char>) -> Option<int> {
    if s.len() > 0 && s[0] == '-' {
        let d = s.skip(1);
        if d.len() > 0 && d[0] != '+' {
            match parse_unsigned(d, 10, 0x8000_0000_0000_0000) {
                Some(v) => Some(-v),
                None => None,
            }
        } else {
            None
        }
    } else {
        match parse_unsigned(s, 10, 0x7FFF_FFFF_FFFF_FFFF) {
            Some(v) => Some(v as int),
            None => None,
        }
    }
}

fn parse_int(s: &[char]) -> (r: Option<i64>)
    ensures
        match r {
            Some(v) => parse_signed(s@) == Some(v as int),
            None => parse_signed(s@) is None,
        },
{
    if s.len() > 0 && s[0] == '-' {
        let n = s.len();
        let d = token_vec(s, 1, n);
        assert(d@ =~= s@.skip(1));
        if d.len() > 0 && d[0] != '+' {
            match parse_uint(d.as_slice(), 10, 0x8000_0000_0000_0000) {
                Some(v) => {
                    if v == 0x8000_0000_0000_0000 {
                        Some(i64::MIN)
                    } else {
                        Some(-(v as i64))
                    }
                },
                None => None,
            }
        } else {
            None
        }
    } else {
        match parse_uint(s, 10, 0x7FFF_FFFF_FFFF_FFFF) {
            Some(v) => Some(v as i64),
            None => None,
        }
    }
}

/// The first `"` at or after `k`.
pub open spec fn quote_from(s: Seq<char>, k: int) -> Option<int>
    decreases s.len() - k,
{
    if k < 0 || k >= s.len() {
        None
    } else if s[k] == '"' {
        Some(k)
    } else {
        quote_from(s, k + 1)
    }
}

pub proof fn lemma_quote_from(s: Seq<char>, k: int)
    requires
        0 <= k <= s.len(),
    ensures
        quote_from(s, k) matches Some(e) ==> k <= e < s.len() && s[e] == '"',
    decreases s.len() - k,
{
    if k < s.len() && s[k] != '"' {
        lemma_quote_from(s, k + 1);
    }
}

/// The `<value> "<description>"` pairs of a value table record from
/// position `i` on, up to a `;` or the end of the line.
pub open spec fn spec_entries(s: Seq<char>, i: int) -> Result<Seq<(i64, Seq<char>)>, Seq<char>>
    decreases s.len() - i,
{
    if i < 0 || i > s.len() {
        Ok(Seq::empty())
    } else {
        let j = skip_ws(s, i);
        if j >= s.len() || s[j] == ';' {
            Ok(Seq::empty())
        } else {
            let w = skip_word(s, j);
            let tok = s.subrange(j, w);
            match parse_signed(tok) {
                None => Err("`"@ + tok + "` is not a valid value"@),
                Some(v) => {
                    let k = skip_ws(s, w);
                    if k >= s.len() || s[k] != '"' {
                        Err("value "@ + tok + " has no quoted description"@)
                    } else {
                        match quote_from(s, k + 1) {
                            None => Err("unterminated description for value "@ + tok),
                            Some(e) => {
                                proof {
                                    lemma_skip_ws_bounds(s, i);
                                    lemma_skip_word_bounds(s, j);
                                    lemma_skip_ws_bounds(s, w);
                                    lemma_quote_from(s, k + 1);
                                }
                                match spec_entries(s, e + 1) {
                                    Err(m) => Err(m),
                                    Ok(rest) => Ok(seq![(v as i64, s.subrange(k + 1, e))] + rest),
                                }
                            },
                        }
                    }
                },
            }
        }
    }
}

fn parse_entries(s: &[char], i: usize) -> (r: Result<Vec<(i64, String)>, String>)
    requires
        i <= s@.len(),
    ensures
        match r {
            Ok(t) => spec_entries(s@, i as int) == Ok::<Seq<(i64, Seq<char>)>, Seq<char>>(
                table_view(t@),
            ),
            Err(e) => spec_entries(s@, i as int) == Err::<Seq<(i64, Seq<char>)>, Seq<char>>(e@),
        },
    decreases s@.len() - i,
{
    let n = s.len();
    let mut j = i;
    while j < n && is_whitespace(s[j])
        invariant
            i <= j <= n,
            n == s@.len(),
            skip_ws(s@, i as int) == skip_ws(s@, j as int),
        decreases n - j,
    {
        j = j + 1;
    }
    if j >= n || s[j] == ';' {
        let t: Vec<(i64, String)> = Vec::new();
        assert(table_view(t@) =~= Seq::<(i64, Seq<char>)>::empty());
        return Ok(t);
    }
    let mut w = j;
    while w < n && !is_whitespace(s[w])
        invariant
            j <= w <= n,
            n == s@.len(),
            skip_word(s@, j as int) == skip_word(s@, w as int),
        decreases n - w,
    {
        w = w + 1;
    }
    let tok = token_vec(s, j, w);
    let v = match parse_int(tok.as_slice()) {
        None => {
            let mut m = String::new();
            push_str(&mut m, "`");
            push_str(&mut m, string_of(tok.as_slice()).as_str());
            push_str(&mut m, "` is not a valid value");
            return Err(m);
        },
        Some(v) => v,
    };
    let mut k = w;
    while k < n && is_whitespace(s[k])
        invariant
            w <= k <= n,
            n == s@.len(),
            skip_ws(s@, w as int) == skip_ws(s@, k as int),
        decreases n - k,
    {
        k = k + 1;
    }
    if k >= n || s[k] != '"' {
        let mut m = String::new();
        push_str(&mut m, "value ");
        push_str(&mut m, string_of(tok.as_slice()).as_str());
        push_str(&mut m, " has no quoted description");
        return Err(m);
    }
    let mut e = k + 1;
    while e < n && s[e] != '"'
        invariant
            k + 1 <= e <= n,
            n == s@.len(),
            quote_from(s@, k + 1) == quote_from(s@, e as int),
        decreases n - e,
    {
        e = e + 1;
    }
    if e >= n {
        let mut m = String::new();
        push_str(&mut m, "unterminated description for value ");
        push_str(&mut m, string_of(tok.as_slice()).as_str());
        return Err(m);
    }
    let label = string_of(token_vec(s, k + 1, e).as_slice());
    match parse_entries(s, e + 1) {
        Err(m) => Err(m),
        Ok(rest) => {
            let ghost tail = rest@;
            let mut t = rest;
            t.insert(0, (v, label));
            assert(table_view(t@) =~= seq![(v, label@)] + table_view(tail));
            Ok(t)
        },
    }
}

/// `VAL_ <id> <signal> <value> "<description>" ... ;`: the message's
/// identifier as the DBC writes it, the signal's name, and its labels.
pub open spec fn spec_parse_values(rest: Seq<char>) -> Result<
    (CanId, Seq<char>, Seq<(i64, Seq<char>)>),
    Seq<char>,
> {
    match token_at(rest, 0) {
        None => Err("value table record has no message identifier"@),
        Some((a0, b0)) => match spec_number(
            rest.subrange(a0, b0),
            "message identifier"@,
            0xFFFF_FFFF,
        ) {
            Err(e) => Err(e),
            Ok(raw) => match dbc_id(raw as u32) {
                None => Err(
                    error_text(
                        Error::InvalidId {
                            raw: raw as u32,
                            reason: "no extended flag set but value exceeds 11 bits",
                        },
                    ),
                ),
                Some(id) => match token_at(rest, b0) {
                    None => Err("value table record has no signal name"@),
                    Some((a1, b1)) => match spec_entries(rest, b1) {
                        Err(e) => Err(e),
                        Ok(table) => Ok((id, rest.subrange(a1, b1), table)),
                    },
                },
            },
        },
    }
}

fn parse_values(rest: &[char]) -> (r: Result<(CanId, String, Vec<(i64, String)>), String>)
    ensures
        match r {
            Ok((id, name, table)) => spec_parse_values(rest@) == Ok::<
                (CanId, Seq<char>, Seq<(i64, Seq<char>)>),
                Seq<char>,
            >((id, name@, table_view(table@))),
            Err(e) => spec_parse_values(rest@) == Err::<
                (CanId, Seq<char>, Seq<(i64, Seq<char>)>),
                Seq<char>,
            >(e@),
        },
{
    let (a0, b0) = match next_token(rest, 0) {
        None => return Err(message_error("value table record has no message identifier")),
        Some(t) => t,
    };
    let raw = match parse_number(token_vec(rest, a0, b0).as_slice(), "message identifier", 0xFFFF_FFFF) {
        Err(e) => return Err(e),
        Ok(v) => v as u32,
    };
    let id = match CanId::from_dbc(raw) {
        Ok(id) => id,
        Err(e) => return Err(e.describe()),
    };
    let (a1, b1) = match next_token(rest, b0) {
        None => return Err(message_error("value table record has no signal name")),
        Some(t) => t,
    };
    let name = string_of(token_vec(rest, a1, b1).as_slice());
    match parse_entries(rest, b1) {
        Err(e) => Err(e),
        Ok(table) => Ok((id, name, table)),
    }
}

/// The messages after a value table for signal `name` of message `id`:
/// given to the message being read when it has that identifier, else to
/// the finished message that has it; a table for a message or signal the
/// database does not define is skipped.
pub open spec fn apply_values(
    done: Seq<MessageView>,
    current: Option<MessageView>,
    id: CanId,
    name: Seq<char>,
    table: Seq<(i64, Seq<char>)>,
) -> (Seq<MessageView>, Option<MessageView>) {
    if current matches Some(c) && c.id == id {
        (done, Some(with_table(current->0, name, table)))
    } else {
        (table_applied(done, id, name, table), current)
    }
}

/// The `SG_MUL_VAL_ ` prefix of an extended multiplexing record.
pub open spec fn ranges_prefix() -> Seq<char> {
    seq!['S', 'G', '_', 'M', 'U', 'L', '_', 'V', 'A', 'L', '_', ' ']
}

/// Why an extended multiplexing record is refused.
pub open spec fn ranges_refusal() -> Seq<char> {
    "extended multiplexing (`SG_MUL_VAL_`) is not supported"@
}

/// The bytes of the `VAL_ ` prefix.
pub open spec fn values_prefix() -> Seq<char> {
    seq!['V', 'A', 'L', '_', ' ']
}

/// Index of the newline that ends the line starting at `i`, or the length.
pub open spec fn line_end(s: Seq<char>, i: int) -> int
    decreases s.len() - i,
{
    if 0 <= i < s.len() && s[i] != '\n' {
        line_end(s, i + 1)
    } else {
        i
    }
}

pub proof fn lemma_line_end_bounds(s: Seq<char>, i: int)
    requires
        0 <= i <= s.len(),
    ensures
        i <= line_end(s, i) <= s.len(),
        line_end(s, i) < s.len() ==> s[line_end(s, i)] == '\n',
    decreases s.len() - i,
{
    if i < s.len() && s[i] != '\n' {
        lemma_line_end_bounds(s, i + 1);
    }
}

/// The line that starts at `i`, as `str::lines` yields it: without its
/// `\n`, and without a `\r` just before that `\n`.
pub open spec fn line_at(s: Seq<char>, i: int) -> Seq<char> {
    let e = line_end(s, i);
    let raw = s.subrange(i, e);
    if e < s.len() && raw.len() > 0 && raw.last() == '\r' {
        raw.drop_last()
    } else {
        raw
    }
}

/// The bytes of the `BO_ ` prefix.
pub open spec fn message_prefix() -> Seq<char> {
    seq!['B', 'O', '_', ' ']
}

/// The bytes of the `SG_ ` prefix.
pub open spec fn signal_prefix() -> Seq<char> {
    seq!['S', 'G', '_', ' ']
}

/// The message a signal is added to: the signal appended to its list.
pub open spec fn with_signal(m: MessageView, s: SignalView) -> MessageView {
    MessageView { signals: m.signals.push(s), ..m }
}

/// What one line does to the messages finished so far and the message being
/// read: a `BO_` record finishes the current message and starts a new one; an
/// `SG_` record adds a signal to the current message; anything else is
/// skipped.
#[verifier::opaque]
pub open spec fn spec_line(line: Seq<char>, done: Seq<MessageView>, current: Option<
    MessageView,
>) -> Result<(Seq<MessageView>, Option<MessageView>), Seq<char>> {
    let t = trim(line);
    if starts_with(t, message_prefix()) {
        match spec_parse_message(t.skip(4)) {
            Err(e) => Err(e),
            Ok(m) => Ok(
                (
                    match current {
                        Some(c) => insert_view(done, c),
                        None => done,
                    },
                    Some(m),
                ),
            ),
        }
    } else if starts_with(t, signal_prefix()) {
        match current {
            None => Err("SG_ record appears before any BO_ message"@),
            Some(c) => match spec_parse_signal(t.skip(4)) {
                Err(e) => Err(e),
                Ok(s) => Ok((done, Some(with_signal(c, s)))),
            },
        }
    } else if starts_with(t, values_prefix()) {
        match spec_parse_values(t.skip(5)) {
            Err(e) => Err(e),
            Ok((id, name, table)) => Ok(apply_values(done, current, id, name, table)),
        }
    } else if starts_with(t, ranges_prefix()) {
        Err(ranges_refusal())
    } else {
        Ok((done, current))
    }
}

/// The messages read from the lines of `s` from position `i` on, the first
/// of them numbered `line_no`; or the first error, with its line number.
pub open spec fn spec_parse_from(
    s: Seq<char>,
    i: int,
    line_no: int,
    done: Seq<MessageView>,
    current: Option<MessageView>,
) -> Result<Seq<MessageView>, (int, Seq<char>)>
    decreases s.len() + 1 - i,
{
    if i < 0 || i >= s.len() {
        Ok(
            match current {
                Some(c) => insert_view(done, c),
                None => done,
            },
        )
    } else {
        match spec_line(line_at(s, i), done, current) {
            Err(e) => Err((line_no, e)),
            Ok((d, c)) => {
                proof {
                    lemma_line_end_bounds(s, i);
                }
                spec_parse_from(s, line_end(s, i) + 1, line_no + 1, d, c)
            },
        }
    }
}

/// The messages a DBC text defines, in the order each identifier first
/// appears, or the first malformed record with its 1-based line number.
pub open spec fn spec_parse(text: Seq<char>) -> Result<Seq<MessageView>, (int, Seq<char>)> {
    spec_parse_from(text, 0, 1, Seq::empty(), None)
}

fn insert_current(db: &mut Database, c: Message)
    requires
        old(db).well_formed(),
        old(db).decodable(),
        c.well_formed(),
    ensures
        final(db).well_formed(),
        final(db).decodable(),
        messages_view(final(db).spec_messages()) == insert_view(
            messages_view(old(db).spec_messages()),
            c@,
        ),
{
    proof {
        lemma_insert_view(db.spec_messages(), c);
    }
    let ghost before = db.spec_messages();
    db.insert(c);
    proof {
        assert forall|k: int| 0 <= k < db.spec_messages().len() implies (
        #[trigger] db.spec_messages()[k]).well_formed() by {
            lemma_insert_keeps(before, c, k);
        }
    }
}

/// Apply one line of DBC text to the messages finished so far and the
/// message being read.
fn apply_line(line: &[char], db: &mut Database, current: &mut Option<Message>) -> (r: Result<
    (),
    String,
>)
    requires
        old(db).well_formed(),
        old(db).decodable(),
        *old(current) matches Some(c) ==> c.well_formed(),
    ensures
        final(db).well_formed(),
        final(db).decodable(),
        *final(current) matches Some(c) ==> c.well_formed(),
        match r {
            Ok(_) => spec_line(line@, messages_view(old(db).spec_messages()), opt_view(*old(current)))
                == Ok::<(Seq<MessageView>, Option<MessageView>), Seq<char>>(
                (messages_view(final(db).spec_messages()), opt_view(*final(current))),
            ),
            Err(e) => spec_line(line@, messages_view(old(db).spec_messages()), opt_view(*old(current)))
                == Err::<(Seq<MessageView>, Option<MessageView>), Seq<char>>(e@),
        },
{
    reveal(spec_line);
    let bo = ['B', 'O', '_', ' '];
    let sg = ['S', 'G', '_', ' '];
    let val = ['V', 'A', 'L', '_', ' '];
    let mul = ['S', 'G', '_', 'M', 'U', 'L', '_', 'V', 'A', 'L', '_', ' '];
    assert(mul@ =~= ranges_prefix());
    assert(bo@ =~= message_prefix());
    assert(sg@ =~= signal_prefix());
    assert(val@ =~= values_prefix());
    let t = trimmed(line);
    if has_prefix(t.as_slice(), bo.as_slice()) {
        let n = t.len();
        let rest = token_vec(t.as_slice(), 4, n);
        assert(rest@ =~= t@.skip(4));
        match parse_message(rest.as_slice()) {
            Err(m) => Err(m),
            Ok(m) => {
                match current.take() {
                    Some(c) => insert_current(db, c),
                    None => {},
                }
                proof {
                    assert(m@.signals =~= Seq::<SignalView>::empty());
                    assert(m.signals@ =~= Seq::<Signal>::empty());
                }
                *current = Some(m);
                Ok(())
            },
        }
    } else if has_prefix(t.as_slice(), sg.as_slice()) {
        let n = t.len();
        let rest = token_vec(t.as_slice(), 4, n);
        assert(rest@ =~= t@.skip(4));
        match current.take() {
            None => Err(message_error("SG_ record appears before any BO_ message")),
            Some(mut c) => {
                match parse_signal(rest.as_slice()) {
                    Err(m) => {
                        *current = Some(c);
                        Err(m)
                    },
                    Ok(sig) => {
                        let ghost old_c = c;
                        c.signals.push(sig);
                        proof {
                            assert(c@ == with_signal(old_c@, sig@)) by {
                                assert(c@.signals =~= old_c@.signals.push(sig@));
                            }
                            assert forall|k: int| 0 <= k < c.signals@.len() implies (
                            #[trigger] c.signals@[k]).well_formed() by {
                                if k < old_c.signals@.len() {
                                    assert(c.signals@[k] == old_c.signals@[k]);
                                }
                            }
                        }
                        *current = Some(c);
                        Ok(())
                    },
                }
            },
        }
    } else if has_prefix(t.as_slice(), mul.as_slice()) {
        Err(message_error("extended multiplexing (`SG_MUL_VAL_`) is not supported"))
    } else if has_prefix(t.as_slice(), val.as_slice()) {
        let n = t.len();
        let rest = token_vec(t.as_slice(), 5, n);
        assert(rest@ =~= t@.skip(5));
        match parse_values(rest.as_slice()) {
            Err(m) => Err(m),
            Ok((id, name, table)) => {
                match current.take() {
                    Some(mut c) => {
                        if c.id == id {
                            c.set_value_table(name.as_str(), table);
                        } else {
                            db.set_value_table(id, name.as_str(), table);
                        }
                        *current = Some(c);
                    },
                    None => db.set_value_table(id, name.as_str(), table),
                }
                Ok(())
            },
        }
    } else {
        Ok(())
    }
}

/// Parse DBC source text into a [`Database`].
pub fn parse(text: &str) -> (res: Result<Database, Error>)
    ensures
        match res {
            Ok(db) => spec_parse(text@) == Ok::<Seq<MessageView>, (int, Seq<char>)>(
                messages_view(db.spec_messages()),
            ) && db.well_formed() && db.decodable(),
            Err(e) => spec_parse(text@) matches Err((line, message)) && e matches Error::DbcParse {
                line: l,
                message: m,
            } && l == line && m@ == message,
        },
{
    let s = chars_of(text);
    let mut db = Database::new();
    let mut current: Option<Message> = None;
    let mut i: usize = 0;
    let mut lines_before: usize = 0;
    assert(messages_view(db.spec_messages()) =~= Seq::<MessageView>::empty());
    while i < s.len()
        invariant
            s@ == text@,
            i <= s@.len(),
            lines_before <= i,
            db.well_formed(),
            db.decodable(),
            current matches Some(c) ==> c.well_formed(),
            spec_parse(s@) == spec_parse_from(
                s@,
                i as int,
                lines_before + 1,
                messages_view(db.spec_messages()),
                opt_view(current),
            ),
        decreases s@.len() - i,
    {
        let mut e = i;
        while e < s.len() && s[e] != '\n'
            invariant
                i <= e <= s@.len(),
                line_end(s@, i as int) == line_end(s@, e as int),
            decreases s@.len() - e,
        {
            e = e + 1;
        }
        proof {
            lemma_line_end_bounds(s@, i as int);
        }
        let mut stop = e;
        if e < s.len() && e > i && s[e - 1] == '\r' {
            stop = e - 1;
        }
        let line = token_vec(s.as_slice(), i, stop);
        assert(line@ =~= line_at(s@, i as int));
        let ghost done0 = messages_view(db.spec_messages());
        let ghost cur0 = opt_view(current);
        match apply_line(line.as_slice(), &mut db, &mut current) {
            Err(m) => return Err(Error::DbcParse { line: lines_before + 1, message: m }),
            Ok(()) => {},
        }
        proof {
            let d1 = messages_view(db.spec_messages());
            let c1 = opt_view(current);
            assert(line_end(s@, e as int) == e);
            assert(spec_parse_from(s@, i as int, lines_before + 1, done0, cur0) == spec_parse_from(
                s@,
                e + 1,
                lines_before + 2,
                d1,
                c1,
            ));
            if e == s.len() {
                assert(spec_parse_from(s@, e + 1, lines_before + 2, d1, c1) == spec_parse_from(
                    s@,
                    e as int,
                    lines_before + 1,
                    d1,
                    c1,
                ));
            }
        }
        if e < s.len() {
            i = e + 1;
            lines_before = lines_before + 1;
        } else {
            i = e;
        }
    }
    match current {
        Some(c) => insert_current(&mut db, c),
        None => {},
    }
    Ok(db)
}

/// The view of an optional message.
pub open spec fn opt_view(m: Option<Message>) -> Option<MessageView> {
    match m {
        Some(c) => Some(c@),
        None => None,
    }
}

/// Every message after an insertion is the inserted one or one from before.
proof fn lemma_insert_keeps(before: Seq<Message>, m: Message, k: int)
    requires
        0 <= k < insert_message(before, m).len(),
        m.well_formed(),
        forall|j: int| 0 <= j < before.len() ==> (#[trigger] before[j]).well_formed(),
    ensures
        insert_message(before, m)[k].well_formed(),
{
    let after = insert_message(before, m);
    match crate::dbc::types::find_id(before, m.id, before.len() as int) {
        Some(i) => {
            crate::dbc::types::lemma_find_id(before, m.id, before.len() as int);
            if k != i {
                assert(after[k] == before[k]);
            }
        },
        None => {
            if k < before.len() {
                assert(after[k] == before[k]);
            }
        },
    }
}

} // verus!
