//! Checking a CAN database for consistency, and keeping several databases
//! by name with one of them active.

use vstd::prelude::*;

use crate::dbc::types::str_eq;
use crate::telemetry::base::TelemetryError;
use crate::telemetry::can::{CanDatabase, CanMessage, CanMessageView, CanSignal};
use crate::text::{append_decimal, append_hex_lower, decimal, hex_lower, push_str};

verus! {

/// Validation error types.
#[derive(Debug, Clone, Copy, PartialEq, Eq, Structural)]
pub enum ValidationErrorType {
    InvalidMessageId,
    InvalidDlc,
    SignalOutOfBounds,
    InvalidSignalLength,
    InvalidRange,
    DuplicateSignalName,
}

/// Validation error.
#[derive(Debug, Clone)]
pub struct ValidationError {
    pub message_id: Option<u32>,
    pub signal_name: Option<String>,
    pub error_type: ValidationErrorType,
    pub description: String,
}

/// A validation error with its text as character sequences.
pub struct ValidationErrorView {
    pub message_id: Option<u32>,
    pub signal_name: Option<Seq<char>>,
    pub error_type: ValidationErrorType,
    pub description: Seq<char>,
}

impl View for ValidationError {
    type V = ValidationErrorView;

    open spec fn view(&self) -> ValidationErrorView {
        ValidationErrorView {
            message_id: self.message_id,
            signal_name: match self.signal_name {
                Some(n) => Some(n@),
                None => None,
            },
            error_type: self.error_type,
            description: self.description@,
        }
    }
}

/// The views of a list of errors.
pub open spec fn error_views(errors: Seq<ValidationError>) -> Seq<ValidationErrorView> {
    errors.map_values(|e: ValidationError| e@)
}

/// The text of an optional string.
pub open spec fn opt_text(s: Option<String>) -> Option<Seq<char>> {
    match s {
        Some(t) => Some(t@),
        None => None,
    }
}

/// A message's last bit position, as its byte arithmetic gives it.
pub open spec fn last_bit_of(m: CanMessageView) -> int {
    m.length * 8 - 1
}

/// A signal's last bit position.
pub open spec fn end_bit_of(s: CanSignal) -> int {
    s.start_bit + s.length - 1
}

/// Whether the checks can be computed in the byte arithmetic they are
/// written in: the message is 1 to 31 bytes long and each signal's start
/// bit and length add up to 1 to 255.
pub open spec fn checkable(m: CanMessageView) -> bool {
    &&& 1 <= m.length <= 31
    &&& forall|j: int|
        0 <= j < m.signals.len() ==> 1 <= (#[trigger] m.signals[j]).start_bit
            + m.signals[j].length <= 255
}

/// What is wrong with one signal of message `m`: its last bit past the
/// message, a length outside 1 to 64, and `range`, the description of a
/// range whose minimum is not below its maximum, if there is one.
pub open spec fn signal_problems(m: CanMessageView, s: CanSignal, range: Option<String>) -> Seq<
    ValidationErrorView,
> {
    let bounds = if end_bit_of(s) > last_bit_of(m) {
        seq![
            ValidationErrorView {
                message_id: Some(m.id),
                signal_name: Some(s.name@),
                error_type: ValidationErrorType::SignalOutOfBounds,
                description: "Signal '"@ + s.name@ + "' extends beyond message boundaries (bit "@
                    + decimal(end_bit_of(s) as nat) + " > max bit "@ + decimal(last_bit_of(m) as nat) + ")"@,
            },
        ]
    } else {
        Seq::empty()
    };
    let length = if s.length == 0 || s.length > 64 {
        seq![
            ValidationErrorView {
                message_id: Some(m.id),
                signal_name: Some(s.name@),
                error_type: ValidationErrorType::InvalidSignalLength,
                description: "Signal '"@ + s.name@ + "' has invalid length: "@ + decimal(
                    s.length as nat,
                ),
            },
        ]
    } else {
        Seq::empty()
    };
    let limits = match range {
        Some(d) => seq![
            ValidationErrorView {
                message_id: Some(m.id),
                signal_name: Some(s.name@),
                error_type: ValidationErrorType::InvalidRange,
                description: d@,
            },
        ],
        None => Seq::empty(),
    };
    bounds + length + limits
}

/// The problems of the signals `sigs` of message `m`, in order, the range
/// descriptions given by `ranges`.
pub open spec fn signals_problems(
    m: CanMessageView,
    sigs: Seq<CanSignal>,
    ranges: Seq<Option<String>>,
) -> Seq<ValidationErrorView>
    decreases sigs.len(),
{
    if sigs.len() == 0 || ranges.len() == 0 {
        Seq::empty()
    } else {
        signals_problems(m, sigs.drop_last(), ranges.drop_last()) + signal_problems(
            m,
            sigs.last(),
            ranges.last(),
        )
    }
}

/// What is wrong with message `m`: an identifier above 29 bits, a data
/// length code above 8, then each signal's problems.
pub open spec fn message_problems(m: CanMessageView, ranges: Seq<Option<String>>) -> Seq<
    ValidationErrorView,
> {
    let id = if m.id > 0x1FFF_FFFF {
        seq![
            ValidationErrorView {
                message_id: Some(m.id),
                signal_name: None,
                error_type: ValidationErrorType::InvalidMessageId,
                description: "Message ID 0x"@ + hex_lower(m.id as nat) + " exceeds maximum CAN ID"@,
            },
        ]
    } else {
        Seq::empty()
    };
    let dlc = if m.length > 8 {
        seq![
            ValidationErrorView {
                message_id: Some(m.id),
                signal_name: None,
                error_type: ValidationErrorType::InvalidDlc,
                description: "DLC "@ + decimal(m.length as nat) + " exceeds maximum of 8 bytes"@,
            },
        ]
    } else {
        Seq::empty()
    };
    id + dlc + signals_problems(m, m.signals, ranges)
}

/// The problems of the messages `msgs`, in order.
pub open spec fn all_problems(msgs: Seq<CanMessageView>, ranges: Seq<Seq<Option<String>>>) -> Seq<
    ValidationErrorView,
>
    decreases msgs.len(),
{
    if msgs.len() == 0 || ranges.len() == 0 {
        Seq::empty()
    } else {
        all_problems(msgs.drop_last(), ranges.drop_last()) + message_problems(
            msgs.last(),
            ranges.last(),
        )
    }
}

/// Whether `ranges` holds, for each signal of each message, what `range`
/// gave for it.
pub open spec fn described_by<F: Fn(&CanSignal) -> Option<String>>(
    range: F,
    msgs: Seq<CanMessageView>,
    ranges: Seq<Seq<Option<String>>>,
) -> bool {
    &&& ranges.len() == msgs.len()
    &&& forall|i: int|
        0 <= i < msgs.len() ==> (#[trigger] ranges[i]).len() == msgs[i].signals.len()
            && forall|j: int|
            0 <= j < ranges[i].len() ==> range.ensures((&msgs[i].signals[j],), #[trigger] ranges[i][j])
}

/// Database validation utilities.
pub struct DatabaseValidator;

fn signal_error(
    message: &CanMessage,
    signal: &CanSignal,
    error_type: ValidationErrorType,
    description: String,
) -> (e: ValidationError)
    ensures
        e@ == (ValidationErrorView {
            message_id: Some(message.id),
            signal_name: Some(signal.name@),
            error_type,
            description: description@,
        }),
{
    ValidationError {
        message_id: Some(message.id),
        signal_name: Some(signal.name.clone()),
        error_type,
        description,
    }
}

impl DatabaseValidator {
    /// Check every message of `database`: its identifier and data length
    /// code, and the layout of each of its signals. `range` describes the
    /// limits of a signal whose minimum is not below its maximum, and gives
    /// `None` for every other signal.
    pub fn validate<F: Fn(&CanSignal) -> Option<String>>(database: &CanDatabase, range: F) -> (r: Vec<
        ValidationError,
    >)
        requires
            forall|i: int|
                0 <= i < database.spec_messages().len() ==> checkable(
                    #[trigger] database.spec_messages()[i],
                ),
            forall|s: &CanSignal| range.requires((s,)),
        ensures
            exists|ranges: Seq<Seq<Option<String>>>|
                described_by(range, database.spec_messages(), ranges) && error_views(r@)
                    == all_problems(database.spec_messages(), ranges),
    {
        let messages = database.get_all_messages();
        let ghost msgs = database.spec_messages();
        let mut errors: Vec<ValidationError> = Vec::new();
        let ghost mut ranges: Seq<Seq<Option<String>>> = Seq::empty();
        let mut k: usize = 0;
        assert(error_views(errors@) =~= Seq::<ValidationErrorView>::empty());
        while k < messages.len()
            invariant
                messages@.len() == msgs.len(),
                forall|i: int| 0 <= i < messages@.len() ==> (#[trigger] messages@[i])@ == msgs[i],
                forall|i: int| 0 <= i < msgs.len() ==> checkable(#[trigger] msgs[i]),
                forall|s: &CanSignal| range.requires((s,)),
                k <= msgs.len(),
                described_by(range, msgs.take(k as int), ranges),
                error_views(errors@) == all_problems(msgs.take(k as int), ranges),
            decreases msgs.len() - k,
        {
            let message = messages[k];
            let ghost mv = msgs[k as int];
            assert(message@ == mv);
            let ghost before = error_views(errors@);
            if message.id > 0x1FFF_FFFF {
                let mut d = String::new();
                push_str(&mut d, "Message ID 0x");
                append_hex_lower(&mut d, message.id as u64);
                push_str(&mut d, " exceeds maximum CAN ID");
                errors.push(
                    ValidationError {
                        message_id: Some(message.id),
                        signal_name: None,
                        error_type: ValidationErrorType::InvalidMessageId,
                        description: d,
                    },
                );
            }
            if message.length > 8 {
                let mut d = String::new();
                push_str(&mut d, "DLC ");
                append_decimal(&mut d, message.length as u64);
                push_str(&mut d, " exceeds maximum of 8 bytes");
                errors.push(
                    ValidationError {
                        message_id: Some(message.id),
                        signal_name: None,
                        error_type: ValidationErrorType::InvalidDlc,
                        description: d,
                    },
                );
            }
            let ghost head = error_views(errors@);
            proof {
                let id_part = if mv.id > 0x1FFF_FFFF {
                    seq![
                        ValidationErrorView {
                            message_id: Some(mv.id),
                            signal_name: None,
                            error_type: ValidationErrorType::InvalidMessageId,
                            description: "Message ID 0x"@ + hex_lower(mv.id as nat)
                                + " exceeds maximum CAN ID"@,
                        },
                    ]
                } else {
                    Seq::empty()
                };
                let dlc_part = if mv.length > 8 {
                    seq![
                        ValidationErrorView {
                            message_id: Some(mv.id),
                            signal_name: None,
                            error_type: ValidationErrorType::InvalidDlc,
                            description: "DLC "@ + decimal(mv.length as nat)
                                + " exceeds maximum of 8 bytes"@,
                        },
                    ]
                } else {
                    Seq::empty()
                };
                assert(head =~= before + id_part + dlc_part);
            }
            let ghost mut outs: Seq<Option<String>> = Seq::empty();
            let mut j: usize = 0;
            assert(mv.signals.take(0) =~= Seq::<CanSignal>::empty());
            while j < message.signals.len()
                invariant
                    message@ == mv,
                    checkable(mv),
                    forall|s: &CanSignal| range.requires((s,)),
                    j <= mv.signals.len(),
                    outs.len() == j,
                    forall|q: int| 0 <= q < j ==> range.ensures((&mv.signals[q],), #[trigger] outs[q]),
                    error_views(errors@) == head + signals_problems(
                        mv,
                        mv.signals.take(j as int),
                        outs,
                    ),
                decreases mv.signals.len() - j,
            {
                let signal = &message.signals[j];
                let described = range(signal);
                let ghost o = described;
                let ghost mid = error_views(errors@);
                Self::validate_signal(message, signal, described, &mut errors);
                proof {
                    let sigs = mv.signals.take(j + 1);
                    let outs2 = outs.push(o);
                    assert(sigs.drop_last() =~= mv.signals.take(j as int));
                    assert(outs2.drop_last() =~= outs);
                    assert(sigs.last() == mv.signals[j as int]);
                    assert(signals_problems(mv, sigs, outs2) == signals_problems(
                        mv,
                        mv.signals.take(j as int),
                        outs,
                    ) + signal_problems(mv, mv.signals[j as int], o));
                    assert(error_views(errors@) =~= head + signals_problems(mv, sigs, outs2));
                    assert forall|q: int| 0 <= q < j + 1 implies range.ensures(
                        (&mv.signals[q],),
                        #[trigger] outs2[q],
                    ) by {
                        if q < j {
                            assert(outs2[q] == outs[q]);
                        }
                    }
                    outs = outs2;
                }
                j = j + 1;
            }
            proof {
                assert(mv.signals.take(mv.signals.len() as int) =~= mv.signals);
                let ranges2 = ranges.push(outs);
                let taken = msgs.take(k + 1);
                assert(taken.drop_last() =~= msgs.take(k as int));
                assert(ranges2.drop_last() =~= ranges);
                assert(taken.last() == mv);
                assert(all_problems(taken, ranges2) == all_problems(msgs.take(k as int), ranges)
                    + message_problems(mv, outs));
                assert(error_views(errors@) =~= all_problems(taken, ranges2));
                assert forall|i: int| 0 <= i < taken.len() implies (#[trigger] ranges2[i]).len()
                    == taken[i].signals.len() && forall|q: int|
                    0 <= q < ranges2[i].len() ==> range.ensures(
                        (&taken[i].signals[q],),
                        #[trigger] ranges2[i][q],
                    ) by {
                    if i < k {
                        assert(ranges2[i] == ranges[i]);
                        assert(taken[i] == msgs.take(k as int)[i]);
                    } else {
                        assert(ranges2[i] == outs);
                        assert(taken[i] == mv);
                    }
                }
                ranges = ranges2;
            }
            k = k + 1;
        }
        assert(msgs.take(msgs.len() as int) =~= msgs);
        errors
    }

    /// Append what is wrong with `signal` of `message`, `range` describing
    /// its limits when they are the wrong way round.
    fn validate_signal(
        message: &CanMessage,
        signal: &CanSignal,
        range: Option<String>,
        errors: &mut Vec<ValidationError>,
    )
        requires
            1 <= message.length <= 31,
            1 <= signal.start_bit + signal.length <= 255,
        ensures
            error_views(final(errors)@) == error_views(old(errors)@) + signal_problems(
                message@,
                *signal,
                range,
            ),
    {
        let ghost start = error_views(errors@);
        let end_bit = signal.start_bit + signal.length - 1;
        let max_bit = (message.length * 8) - 1;
        if end_bit > max_bit {
            let mut d = String::new();
            push_str(&mut d, "Signal '");
            push_str(&mut d, signal.name.as_str());
            push_str(&mut d, "' extends beyond message boundaries (bit ");
            append_decimal(&mut d, end_bit as u64);
            push_str(&mut d, " > max bit ");
            append_decimal(&mut d, max_bit as u64);
            push_str(&mut d, ")");
            errors.push(signal_error(message, signal, ValidationErrorType::SignalOutOfBounds, d));
        }
        let ghost after_bounds = error_views(errors@);
        if signal.length == 0 || signal.length > 64 {
            let mut d = String::new();
            push_str(&mut d, "Signal '");
            push_str(&mut d, signal.name.as_str());
            push_str(&mut d, "' has invalid length: ");
            append_decimal(&mut d, signal.length as u64);
            errors.push(signal_error(message, signal, ValidationErrorType::InvalidSignalLength, d));
        }
        let ghost after_length = error_views(errors@);
        match range {
            Some(d) => {
                errors.push(signal_error(message, signal, ValidationErrorType::InvalidRange, d));
            },
            None => {},
        }
        proof {
            let m = message@;
            let s = *signal;
            let bounds = if end_bit_of(s) > last_bit_of(m) {
                seq![
                    ValidationErrorView {
                        message_id: Some(m.id),
                        signal_name: Some(s.name@),
                        error_type: ValidationErrorType::SignalOutOfBounds,
                        description: "Signal '"@ + s.name@ + "' extends beyond message boundaries (bit "@
                            + decimal(end_bit_of(s) as nat) + " > max bit "@ + decimal(last_bit_of(m) as nat)
                            + ")"@,
                    },
                ]
            } else {
                Seq::empty()
            };
            let length = if s.length == 0 || s.length > 64 {
                seq![
                    ValidationErrorView {
                        message_id: Some(m.id),
                        signal_name: Some(s.name@),
                        error_type: ValidationErrorType::InvalidSignalLength,
                        description: "Signal '"@ + s.name@ + "' has invalid length: "@ + decimal(
                            s.length as nat,
                        ),
                    },
                ]
            } else {
                Seq::empty()
            };
            assert(after_bounds =~= start + bounds);
            assert(after_length =~= start + bounds + length);
            assert(error_views(errors@) =~= start + signal_problems(m, s, range));
        }
    }
}

/// Whether no two entries share a name.
pub open spec fn distinct_names(entries: Seq<(String, CanDatabase)>) -> bool {
    forall|i: int, j: int| 0 <= i < j < entries.len() ==> entries[i].0@ != entries[j].0@
}

/// With distinct names, the entry at `i` is what its name finds.
proof fn lemma_entry_at(entries: Seq<(String, CanDatabase)>, i: int)
    requires
        distinct_names(entries),
        0 <= i < entries.len(),
    ensures
        entry_for(entries, entries[i].0@) == Some(entries[i].1),
{
    let name = entries[i].0@;
    let c = choose|c: int| 0 <= c < entries.len() && entries[c].0@ == name;
    if c != i {
        if c < i {
            assert(entries[c].0@ != entries[i].0@);
        } else {
            assert(entries[i].0@ != entries[c].0@);
        }
    }
}

/// Database statistics.
#[derive(Debug, Clone)]
pub struct DatabaseStats {
    pub database_count: usize,
    pub total_messages: usize,
    pub total_signals: usize,
    pub active_database: Option<String>,
}

/// CAN database manager: databases by name, and which one is active.
pub struct DatabaseManager {
    databases: Vec<(String, CanDatabase)>,
    active_database: Option<String>,
}

/// The names of `entries`, in order.
pub open spec fn entry_names(entries: Seq<(String, CanDatabase)>) -> Seq<Seq<char>> {
    entries.map_values(|e: (String, CanDatabase)| e.0@)
}

/// The database `entries` hold under `name`, if any.
pub open spec fn entry_for(entries: Seq<(String, CanDatabase)>, name: Seq<char>) -> Option<CanDatabase> {
    if exists|i: int| 0 <= i < entries.len() && entries[i].0@ == name {
        Some(entries[choose|i: int| 0 <= i < entries.len() && entries[i].0@ == name].1)
    } else {
        None
    }
}

/// Messages across `entries`.
pub open spec fn message_total(entries: Seq<(String, CanDatabase)>) -> int
    decreases entries.len(),
{
    if entries.len() == 0 {
        0
    } else {
        message_total(entries.drop_last()) + entries.last().1.spec_messages().len()
    }
}

/// Indexed signal names across `entries`.
pub open spec fn signal_total(entries: Seq<(String, CanDatabase)>) -> int
    decreases entries.len(),
{
    if entries.len() == 0 {
        0
    } else {
        signal_total(entries.drop_last()) + entries.last().1.signal_index().dom().len()
    }
}

impl DatabaseManager {
    /// The databases with their names, in the order the names were first
    /// added. No name occurs twice.
    pub closed spec fn entries(&self) -> Seq<(String, CanDatabase)> {
        self.databases@
    }

    /// The name of the active database.
    pub closed spec fn active(&self) -> Option<Seq<char>> {
        match self.active_database {
            Some(n) => Some(n@),
            None => None,
        }
    }

    /// Names are unique, every database is well formed, and the active
    /// name, if there is one, names a database.
    pub closed spec fn well_formed(&self) -> bool {
        &&& forall|i: int, j: int|
            0 <= i < j < self.databases@.len() ==> self.databases@[i].0@ != self.databases@[j].0@
        &&& forall|i: int|
            0 <= i < self.databases@.len() ==> (#[trigger] self.databases@[i]).1.well_formed()
        &&& self.active() matches Some(a) ==> entry_for(self.databases@, a) is Some
    }

    /// A manager with no databases.
    pub fn new() -> (m: DatabaseManager)
        ensures
            m.well_formed(),
            m.entries() == Seq::<(String, CanDatabase)>::empty(),
            m.active() is None,
    {
        let m = DatabaseManager { databases: Vec::new(), active_database: None };
        assert(m.databases@ =~= Seq::<(String, CanDatabase)>::empty());
        m
    }

    /// Where the database called `name` stands.
    fn position(&self, name: &str) -> (r: Option<usize>)
        requires
            self.well_formed(),
        ensures
            match r {
                Some(i) => i < self.entries().len() && self.entries()[i as int].0@ == name@,
                None => forall|i: int| 0 <= i < self.entries().len() ==> (#[trigger] self.entries()[i]).0@ != name@,
            },
    {
        let mut i: usize = 0;
        while i < self.databases.len()
            invariant
                i <= self.databases@.len(),
                forall|j: int| 0 <= j < i ==> (#[trigger] self.databases@[j]).0@ != name@,
            decreases self.databases@.len() - i,
        {
            if str_eq(self.databases[i].0.as_str(), name) {
                return Some(i);
            }
            i = i + 1;
        }
        None
    }

    /// Add a database under `name`, replacing one of the same name; the
    /// first database added becomes the active one.
    pub fn add_database(&mut self, name: &str, database: CanDatabase)
        requires
            old(self).well_formed(),
            database.well_formed(),
        ensures
            final(self).well_formed(),
            entry_names(final(self).entries()) == if entry_names(old(self).entries()).contains(name@) {
                entry_names(old(self).entries())
            } else {
                entry_names(old(self).entries()).push(name@)
            },
            entry_for(final(self).entries(), name@) == Some(database),
            forall|n: Seq<char>|
                n != name@ ==> entry_for(final(self).entries(), n) == entry_for(old(self).entries(), n),
            final(self).active() == if old(self).active() is None {
                Some(name@)
            } else {
                old(self).active()
            },
    {
        let ghost before = self.databases@;
        match self.position(name) {
            Some(i) => {
                self.databases.set(i, (name.to_string(), database));
                proof {
                    assert(entry_names(self.databases@) =~= entry_names(before));
                    assert forall|a: int, b: int|
                        0 <= a < b < self.databases@.len() implies self.databases@[a].0@
                        != self.databases@[b].0@ by {
                        assert(entry_names(self.databases@)[a] == entry_names(before)[a]);
                        assert(entry_names(self.databases@)[b] == entry_names(before)[b]);
                        assert(before[a].0@ != before[b].0@);
                    }
                    assert(entry_names(before)[i as int] == name@);
                    assert forall|k: int| 0 <= k < self.databases@.len() implies (
                    #[trigger] self.databases@[k]).1.well_formed() by {
                        if k != i {
                            assert(self.databases@[k] == before[k]);
                        }
                    }
                    lemma_entry_at(self.databases@, i as int);
                    assert forall|n: Seq<char>| n != name@ implies entry_for(self.databases@, n)
                        == entry_for(before, n) by {
                        if exists|c: int| 0 <= c < before.len() && before[c].0@ == n {
                            let c = choose|c: int| 0 <= c < before.len() && before[c].0@ == n;
                            assert(c != i);
                            assert(self.databases@[c] == before[c]);
                            lemma_entry_at(self.databases@, c);
                            lemma_entry_at(before, c);
                        } else {
                            assert forall|c: int| 0 <= c < self.databases@.len() implies self.databases@[c].0@
                                != n by {
                                if c != i {
                                    assert(self.databases@[c] == before[c]);
                                }
                            }
                        }
                    }
                    if let Some(a) = self.active() {
                        if a != name@ {
                            assert(entry_for(self.databases@, a) == entry_for(before, a));
                        }
                    }
                }
            },
            None => {
                self.databases.push((name.to_string(), database));
                proof {
                    assert(entry_names(self.databases@) =~= entry_names(before).push(name@));
                    assert(!entry_names(before).contains(name@)) by {
                        if entry_names(before).contains(name@) {
                            let c = choose|c: int| 0 <= c < entry_names(before).len() && entry_names(before)[c] == name@;
                            assert(before[c].0@ == name@);
                        }
                    }
                    assert forall|a: int, b: int|
                        0 <= a < b < self.databases@.len() implies self.databases@[a].0@
                        != self.databases@[b].0@ by {
                        assert(self.databases@[a] == before[a]);
                        if b < before.len() {
                            assert(self.databases@[b] == before[b]);
                        }
                    }
                    assert forall|k: int| 0 <= k < self.databases@.len() implies (
                    #[trigger] self.databases@[k]).1.well_formed() by {
                        if k < before.len() {
                            assert(self.databases@[k] == before[k]);
                        }
                    }
                    lemma_entry_at(self.databases@, before.len() as int);
                    assert forall|n: Seq<char>| n != name@ implies entry_for(self.databases@, n)
                        == entry_for(before, n) by {
                        if exists|c: int| 0 <= c < before.len() && before[c].0@ == n {
                            let c = choose|c: int| 0 <= c < before.len() && before[c].0@ == n;
                            assert(self.databases@[c] == before[c]);
                            lemma_entry_at(self.databases@, c);
                            lemma_entry_at(before, c);
                        } else {
                            assert forall|c: int| 0 <= c < self.databases@.len() implies self.databases@[c].0@
                                != n by {
                                if c < before.len() {
                                    assert(self.databases@[c] == before[c]);
                                }
                            }
                        }
                    }
                    if let Some(a) = self.active() {
                        assert(a != name@);
                        assert(entry_for(self.databases@, a) == entry_for(before, a));
                    }
                }
            },
        }
        if self.active_database.is_none() {
            self.active_database = Some(name.to_string());
        }
    }

    /// Make the database called `name` the active one.
    pub fn set_active_database(&mut self, name: &str) -> (r: Result<(), TelemetryError>)
        requires
            old(self).well_formed(),
        ensures
            final(self).well_formed(),
            final(self).entries() == old(self).entries(),
            entry_for(old(self).entries(), name@) is Some ==> r is Ok && final(self).active() == Some(
                name@,
            ),
            entry_for(old(self).entries(), name@) is None ==> final(self).active() == old(
                self,
            ).active(),
            entry_for(old(self).entries(), name@) is None ==> (r matches Err(e) && e matches TelemetryError::ConfigError {
                message,
            } && message@ == "Database '"@ + name@ + "' not found"@),
    {
        match self.position(name) {
            Some(i) => {
                proof {
                    lemma_entry_at(self.databases@, i as int);
                }
                self.active_database = Some(name.to_string());
                Ok(())
            },
            None => {
                let mut message = String::new();
                push_str(&mut message, "Database '");
                push_str(&mut message, name);
                push_str(&mut message, "' not found");
                Err(TelemetryError::ConfigError { message })
            },
        }
    }

    /// The database called `name`.
    pub fn get_database(&self, name: &str) -> (r: Option<&CanDatabase>)
        requires
            self.well_formed(),
        ensures
            match r {
                Some(db) => entry_for(self.entries(), name@) == Some(*db),
                None => entry_for(self.entries(), name@) is None,
            },
    {
        match self.position(name) {
            Some(i) => {
                proof {
                    lemma_entry_at(self.databases@, i as int);
                }
                Some(&self.databases[i].1)
            },
            None => None,
        }
    }

    /// The active database.
    pub fn get_active_database(&self) -> (r: Option<&CanDatabase>)
        requires
            self.well_formed(),
        ensures
            match self.active() {
                Some(a) => r matches Some(db) && entry_for(self.entries(), a) == Some(*db),
                None => r is None,
            },
    {
        match &self.active_database {
            Some(name) => self.get_database(name.as_str()),
            None => None,
        }
    }

    /// The names of every database, in the order they were first added.
    pub fn list_databases(&self) -> (r: Vec<&str>)
        ensures
            r@.len() == self.entries().len(),
            forall|k: int| 0 <= k < r@.len() ==> (#[trigger] r@[k])@ == self.entries()[k].0@,
    {
        let mut r: Vec<&str> = Vec::new();
        let mut i: usize = 0;
        while i < self.databases.len()
            invariant
                i <= self.databases@.len(),
                r@.len() == i,
                forall|k: int| 0 <= k < i ==> (#[trigger] r@[k])@ == self.databases@[k].0@,
            decreases self.databases@.len() - i,
        {
            r.push(self.databases[i].0.as_str());
            i = i + 1;
        }
        r
    }

    /// How many databases, messages and indexed signal names there are, and
    /// which database is active.
    pub fn get_stats(&self) -> (s: DatabaseStats)
        requires
            self.well_formed(),
            message_total(self.entries()) <= usize::MAX,
            signal_total(self.entries()) <= usize::MAX,
        ensures
            s.database_count == self.entries().len(),
            s.total_messages == message_total(self.entries()),
            s.total_signals == signal_total(self.entries()),
            opt_text(s.active_database) == self.active(),
    {
        let mut total_messages: usize = 0;
        let mut total_signals: usize = 0;
        let mut i: usize = 0;
        while i < self.databases.len()
            invariant
                self.well_formed(),
                i <= self.databases@.len(),
                total_messages == message_total(self.databases@.take(i as int)),
                total_signals == signal_total(self.databases@.take(i as int)),
                message_total(self.databases@) <= usize::MAX,
                signal_total(self.databases@) <= usize::MAX,
            decreases self.databases@.len() - i,
        {
            let db = &self.databases[i].1;
            proof {
                let t = self.databases@.take(i + 1);
                assert(t.drop_last() =~= self.databases@.take(i as int));
                assert(t.last() == self.databases@[i as int]);
                lemma_totals_grow(self.databases@, i + 1);
                assert(self.databases@[i as int].1.well_formed());
            }
            total_messages = total_messages + db.message_count();
            total_signals = total_signals + db.signal_count();
            i = i + 1;
        }
        assert(self.databases@.take(self.databases@.len() as int) =~= self.databases@);
        let active_database = match &self.active_database {
            Some(n) => Some(n.clone()),
            None => None,
        };
        DatabaseStats {
            database_count: self.databases.len(),
            total_messages,
            total_signals,
            active_database,
        }
    }
}

/// The totals over a prefix are no larger than the totals over the whole.
proof fn lemma_totals_grow(entries: Seq<(String, CanDatabase)>, k: int)
    requires
        0 <= k <= entries.len(),
    ensures
        message_total(entries.take(k)) <= message_total(entries),
        signal_total(entries.take(k)) <= signal_total(entries),
    decreases entries.len() - k,
{
    if k < entries.len() {
        let u = entries.drop_last();
        assert(u.take(k) =~= entries.take(k));
        lemma_totals_grow(u, k);
    } else {
        assert(entries.take(k) =~= entries);
    }
}

impl Default for DatabaseManager {
    /// A manager with no databases.
    fn default() -> (m: DatabaseManager)
        ensures
            m.well_formed(),
            m.entries() == Seq::<(String, CanDatabase)>::empty(),
            m.active() is None,
    {
        DatabaseManager::new()
    }
}

} // verus!
