//! The shape of a `.ld` session, before any of it is bytes.
//!
//! MoTeC i2 reads a fixed-rate file: a channel is an array of samples at one
//! frequency, and there is no per-sample timestamp anywhere in the format.
//! So a [`Session`] is a start time, one rate, and a set of equal-length
//! channels — the shape the writer serialises and the shape the sampler has
//! to produce out of irregular CAN traffic.
//!
//! Nothing here does I/O or looks at a CAN frame.
//!
//! Names and units are fixed-width byte arrays in the file, and the readers
//! that exist decode them as ASCII, so text that would not survive that
//! round trip is cut here: a unit should read `C` rather than come back
//! from a reader as the empty string.
//!
//! Samples are single-precision floats, held here as their IEEE 754 bit
//! patterns: nothing in a session computes with them, it only moves them
//! into place.

use vstd::prelude::*;

use crate::dbc::types::str_eq;
use crate::text::{
    chars_of, decimal, decimal_len, decimal_string, lemma_decimal_len, lemma_skip_ws_bounds,
    lemma_trim_end_bounds, pow10, push_str, skip_ws, string_of, trim, trimmed,
};

verus! {

/// Longest channel name the format stores, in bytes.
pub const NAME_LEN: usize = 32;

/// Longest abbreviated channel name, in bytes.
pub const SHORT_NAME_LEN: usize = 8;

/// Longest unit string, in bytes.
pub const UNIT_LEN: usize = 12;

/// One channel: what i2 lists in its channel tree, and one sample per grid
/// point.
#[derive(Debug, Clone, PartialEq)]
pub struct Channel {
    /// Full name, at most [`NAME_LEN`] bytes.
    pub name: String,
    /// Abbreviated name, at most [`SHORT_NAME_LEN`] bytes.
    pub short_name: String,
    /// Physical unit as the DBC spells it, at most [`UNIT_LEN`] bytes.
    pub unit: String,
    /// One value per grid point, as the bits of an `f32`. Every channel in a
    /// session carries the same number of these.
    pub samples: Vec<u32>,
}

/// Whether a reader gives `c` back unchanged: an ASCII graphic character or
/// a space.
pub open spec fn storable(c: char) -> bool {
    ' ' <= c <= '~'
}

/// The characters of `s` a reader gives back unchanged, in order.
pub open spec fn storable_chars(s: Seq<char>) -> Seq<char>
    decreases s.len(),
{
    if s.len() == 0 {
        Seq::empty()
    } else {
        let k = storable_chars(s.drop_last());
        if storable(s.last()) {
            k.push(s.last())
        } else {
            k
        }
    }
}

/// The first `limit` characters of `s`, or all of them.
pub open spec fn at_most(s: Seq<char>, limit: nat) -> Seq<char> {
    if s.len() <= limit {
        s
    } else {
        s.take(limit as int)
    }
}

/// What a text field of `limit` bytes holds of `text`: its storable
/// characters, at most `limit` of them, without surrounding spaces.
pub open spec fn field_text(text: Seq<char>, limit: nat) -> Seq<char> {
    trim(at_most(storable_chars(text), limit))
}

/// `name` with `_n` appended, the name shortened so that the result still
/// fits the name field.
pub open spec fn numbered_text(name: Seq<char>, n: nat) -> Seq<char> {
    let suffix = seq!['_'] + decimal(n);
    let room: nat = if suffix.len() <= 32 {
        (32 - suffix.len()) as nat
    } else {
        0
    };
    field_text(name, room) + suffix
}

/// Whether one of `channels` is called `name`.
pub open spec fn has_name(channels: Seq<Channel>, name: Seq<char>) -> bool {
    exists|i: int| 0 <= i < channels.len() && (#[trigger] channels[i]).name@ == name
}

fn field_chars(text: &[char], limit: usize) -> (s: String)
    ensures
        s@ == field_text(text@, limit as nat),
{
    let mut kept: Vec<char> = Vec::new();
    let mut i: usize = 0;
    assert(text@.take(0) =~= Seq::<char>::empty());
    while i < text.len()
        invariant
            i <= text@.len(),
            kept@ == at_most(storable_chars(text@.take(i as int)), limit as nat),
        decreases text@.len() - i,
    {
        let c = text[i];
        proof {
            assert(text@.take(i + 1).drop_last() =~= text@.take(i as int));
            assert(text@.take(i + 1).last() == c);
        }
        let ghost before = storable_chars(text@.take(i as int));
        if ' ' <= c && c <= '~' && kept.len() < limit {
            kept.push(c);
        }
        proof {
            let after = storable_chars(text@.take(i + 1));
            if storable(c) {
                assert(after == before.push(c));
                if before.len() >= limit {
                    assert(after.take(limit as int) =~= before.take(limit as int));
                } else {
                    assert(kept@ =~= at_most(after, limit as nat));
                }
            } else {
                assert(after == before);
            }
        }
        i = i + 1;
    }
    assert(text@.take(text@.len() as int) =~= text@);
    let t = trimmed(kept.as_slice());
    string_of(t.as_slice())
}

/// The text of `text` that a field of `limit` bytes holds.
fn field(text: &str, limit: usize) -> (s: String)
    ensures
        s@ == field_text(text@, limit as nat),
{
    let cs = chars_of(text);
    field_chars(cs.as_slice(), limit)
}

/// `name` with `_n` appended, shortened so the result still fits the name
/// field.
fn numbered(name: &str, n: u32) -> (s: String)
    ensures
        s@ == numbered_text(name@, n as nat),
{
    let mut suffix = String::new();
    push_str(&mut suffix, "_");
    proof {
        reveal_strlit("_");
    }
    let digits = decimal_string(n as u64);
    push_str(&mut suffix, digits.as_str());
    let ghost sfx = seq!['_'] + decimal(n as nat);
    assert(suffix@ =~= sfx);
    proof {
        assert(pow10(10) == 10_000_000_000) by {
            reveal_with_fuel(pow10, 11);
        }
        lemma_decimal_len(n as nat, 10);
    }
    let k = decimal_len(n as u64) + 1;
    let room: usize = if k <= NAME_LEN {
        NAME_LEN - k
    } else {
        0
    };
    let mut s = field(name, room);
    push_str(&mut s, suffix.as_str());
    s
}

impl Channel {
    /// Build a channel, cutting `name` and `unit` to what the format holds.
    pub fn new(name: &str, unit: &str, samples: Vec<u32>) -> (c: Channel)
        ensures
            c.name@ == field_text(name@, NAME_LEN as nat),
            c.short_name@ == field_text(field_text(name@, NAME_LEN as nat), SHORT_NAME_LEN as nat),
            c.unit@ == field_text(unit@, UNIT_LEN as nat),
            c.samples@ == samples@,
    {
        let name = field(name, NAME_LEN);
        let short_name = field(name.as_str(), SHORT_NAME_LEN);
        Channel { name, short_name, unit: field(unit, UNIT_LEN), samples }
    }
}

/// A recording: when it started, how fast it was sampled, and the channels
/// in it.
///
/// Every channel must carry the same number of samples. [`Session::push`]
/// does not enforce that — the writer reports it, because that is the point
/// at which an unequal channel would produce a file no reader could make
/// sense of.
#[derive(Debug, Clone)]
pub struct Session {
    /// Start of the grid, in microseconds since the Unix epoch.
    pub started_at_us: u64,
    /// Sample rate of every channel, in Hz.
    pub rate_hz: u16,
    /// Driver name, as i2 shows it.
    pub driver: String,
    /// Vehicle identifier, as i2 shows it.
    pub vehicle: String,
    /// Venue name, as i2 shows it.
    pub venue: String,
    /// Free text; lands in both the event block and the header comment.
    pub event: String,
    pub(crate) channels: Vec<Channel>,
}

/// What a session holds, as mathematical values.
pub struct SessionView {
    pub started_at_us: u64,
    pub rate_hz: u16,
    pub driver: Seq<char>,
    pub vehicle: Seq<char>,
    pub venue: Seq<char>,
    pub event: Seq<char>,
    pub channels: Seq<Channel>,
}

impl View for Session {
    type V = SessionView;

    closed spec fn view(&self) -> SessionView {
        SessionView {
            started_at_us: self.started_at_us,
            rate_hz: self.rate_hz,
            driver: self.driver@,
            vehicle: self.vehicle@,
            venue: self.venue@,
            event: self.event@,
            channels: self.channels@,
        }
    }
}

/// What the view of a session says of its fields.
pub(crate) proof fn lemma_session_view(s: &Session)
    ensures
        s@.started_at_us == s.started_at_us,
        s@.rate_hz == s.rate_hz,
        s@.driver == s.driver@,
        s@.vehicle == s.vehicle@,
        s@.venue == s.venue@,
        s@.event == s.event@,
        s@.channels == s.channels@,
{
}

impl Session {
    /// The channels, in the order they will be written.
    pub open spec fn spec_channels(&self) -> Seq<Channel> {
        self@.channels
    }

    /// An empty session starting at `started_at_us`, sampled at `rate_hz`.
    pub fn new(started_at_us: u64, rate_hz: u16) -> (s: Session)
        ensures
            s@ == (SessionView {
                started_at_us,
                rate_hz,
                driver: Seq::empty(),
                vehicle: Seq::empty(),
                venue: Seq::empty(),
                event: Seq::empty(),
                channels: Seq::empty(),
            }),
    {
        let s = Session {
            started_at_us,
            rate_hz,
            driver: String::new(),
            vehicle: String::new(),
            venue: String::new(),
            event: String::new(),
            channels: Vec::new(),
        };
        assert(s@.channels =~= Seq::<Channel>::empty());
        s
    }

    /// The channels, in the order they will be written.
    pub fn channels(&self) -> (c: &[Channel])
        ensures
            c@ == self.spec_channels(),
    {
        self.channels.as_slice()
    }

    /// Samples per channel, or 0 for a session with no channels.
    pub fn sample_count(&self) -> (n: usize)
        ensures
            n == if self.spec_channels().len() == 0 {
                0
            } else {
                self.spec_channels()[0].samples@.len()
            },
    {
        if self.channels.len() == 0 {
            0
        } else {
            self.channels[0].samples.len()
        }
    }

    /// Whether a channel is already called `name`.
    fn taken(&self, name: &str) -> (b: bool)
        ensures
            b == has_name(self.spec_channels(), name@),
    {
        let mut i: usize = 0;
        while i < self.channels.len()
            invariant
                i <= self.channels@.len(),
                forall|j: int| 0 <= j < i ==> (#[trigger] self.channels@[j]).name@ != name@,
            decreases self.channels@.len() - i,
        {
            if str_eq(self.channels[i].name.as_str(), name) {
                return true;
            }
            i = i + 1;
        }
        false
    }

    /// Add a channel, renaming it if the session already has that name.
    ///
    /// i2 keys its channel tree on the name, so two channels called
    /// `WheelSpeed` would show up as one channel holding whichever data was
    /// read last. DBC signal names are unique per message, not per
    /// database, so this is reachable with an ordinary file.
    pub fn push(&mut self, channel: Channel)
        requires
            renaming_fits(old(self)@.channels, channel.name@),
        ensures
            final(self)@ == (SessionView { channels: final(self)@.channels, ..old(self)@ }),
            pushed(old(self)@.channels, channel, final(self)@.channels),
    {
        let mut channel = channel;
        if self.taken(channel.name.as_str()) {
            let ghost name = channel.name@;
            let ghost chs = self.channels@;
            let ghost len = chs.len() as int;
            let mut n: u32 = 2;
            loop
                invariant
                    self.channels@ == chs,
                    len == chs.len(),
                    channel.name@ == name,
                    2 <= n,
                    exists|m: nat|
                        n <= m <= u32::MAX && !has_name(chs, #[trigger] numbered_text(name, m)),
                    forall|m: nat| 2 <= m < n ==> has_name(chs, #[trigger] numbered_text(name, m)),
                ensures
                    !has_name(chs, numbered_text(name, n as nat)),
                decreases u32::MAX - n,
            {
                let candidate = numbered(channel.name.as_str(), n);
                if !self.taken(candidate.as_str()) {
                    break;
                }
                proof {
                    let m = choose|m: nat|
                        n <= m <= u32::MAX && !has_name(chs, #[trigger] numbered_text(name, m));
                    assert(m != n);
                    assert(n + 1 <= m <= u32::MAX && !has_name(chs, numbered_text(name, m)));
                }
                n = n + 1;
            }
            let new_name = numbered(channel.name.as_str(), n);
            let ghost old_channel = channel;
            channel.short_name = field(new_name.as_str(), SHORT_NAME_LEN);
            channel.name = new_name;
            self.channels.push(channel);
            proof {
                let after = self.channels@;
                assert(after.take(len) =~= chs);
                assert(after.last() == channel);
                assert(n >= 2 && !has_name(chs, numbered_text(old_channel.name@, n as nat)) && (
                forall|m: nat|
                    2 <= m < n ==> has_name(chs, #[trigger] numbered_text(old_channel.name@, m)))
                    && after.last().name@ == numbered_text(old_channel.name@, n as nat)
                    && after.last().short_name@ == field_text(
                    numbered_text(old_channel.name@, n as nat),
                    SHORT_NAME_LEN as nat,
                ));
            }
            return;
        }
        let ghost before = self.channels@;
        self.channels.push(channel);
        assert(self.channels@.take(before.len() as int) =~= before);
    }
}

/// `after` is `before` with `c` added at the end, renamed to the first free
/// numbered name when its own name is taken.
pub open spec fn pushed(before: Seq<Channel>, c: Channel, after: Seq<Channel>) -> bool {
    &&& after.len() == before.len() + 1
    &&& after.take(before.len() as int) == before
    &&& after.last().unit == c.unit
    &&& after.last().samples == c.samples
    &&& if !has_name(before, c.name@) {
        after.last() == c
    } else {
        exists|n: nat|
            2 <= n <= u32::MAX && !has_name(before, numbered_text(c.name@, n)) && (forall|m: nat|
                2 <= m < n ==> has_name(before, #[trigger] numbered_text(c.name@, m)))
                && after.last().name@ == numbered_text(c.name@, n) && after.last().short_name@
                == field_text(numbered_text(c.name@, n), SHORT_NAME_LEN as nat)
    }
}

/// Whether a channel called `name` can be added: its name is free, or a
/// numbered form of it with a number from 2 to `u32::MAX` is.
pub open spec fn renaming_fits(channels: Seq<Channel>, name: Seq<char>) -> bool {
    has_name(channels, name) ==> exists|m: nat|
        2 <= m <= u32::MAX && !has_name(channels, #[trigger] numbered_text(name, m))
}

proof fn lemma_free_from(channels: Seq<Channel>, name: Seq<char>, n: nat)
    requires
        n >= 2,
        n - 2 + count_numbered(channels, name, n, channels.len() as int) <= count_numbered(
            channels,
            name,
            2,
            channels.len() as int,
        ),
        count_numbered(channels, name, 2, channels.len() as int) <= channels.len(),
    ensures
        exists|m: nat|
            n <= m <= channels.len() + 2 && !has_name(channels, #[trigger] numbered_text(name, m)),
    decreases count_numbered(channels, name, n, channels.len() as int),
{
    let len = channels.len() as int;
    if has_name(channels, numbered_text(name, n)) {
        let j = choose|j: int| 0 <= j < len && (#[trigger] channels[j]).name@ == numbered_text(name, n);
        lemma_count_step(channels, name, n, len, j);
        lemma_free_from(channels, name, n + 1);
        let m = choose|m: nat|
            n + 1 <= m <= channels.len() + 2 && !has_name(channels, #[trigger] numbered_text(name, m));
        assert(n <= m);
    } else {
        assert(n <= channels.len() + 2);
    }
}

/// A session with fewer than `u32::MAX - 1` channels always has room for
/// another: among the numbers from 2 to two past its channel count, one
/// names no channel.
pub proof fn lemma_renaming_fits(channels: Seq<Channel>, name: Seq<char>)
    requires
        channels.len() + 2 <= u32::MAX,
    ensures
        renaming_fits(channels, name),
{
    lemma_count_bound(channels, name, 2, channels.len() as int);
    lemma_free_from(channels, name, 2);
}

/// No two channels share a name.
pub open spec fn names_distinct(channels: Seq<Channel>) -> bool {
    forall|i: int, j: int|
        0 <= i < j < channels.len() ==> (#[trigger] channels[i]).name@ != (#[trigger] channels[j]).name@
}

/// Every name fits the 32-byte name field.
pub open spec fn names_fit(channels: Seq<Channel>) -> bool {
    forall|i: int| 0 <= i < channels.len() ==> (#[trigger] channels[i]).name@.len() <= 32
}

proof fn lemma_field_len(text: Seq<char>, limit: nat)
    ensures
        field_text(text, limit).len() <= limit,
{
    let s = at_most(storable_chars(text), limit);
    assert(s.len() <= limit);
    lemma_skip_ws_bounds(s, 0);
    let a = skip_ws(s, 0);
    if a < s.len() {
        lemma_trim_end_bounds(s, s.len() as int, a);
    }
}

/// A numbered name with a number up to `u32::MAX` fits the name field.
proof fn lemma_numbered_fits(name: Seq<char>, n: nat)
    requires
        n <= u32::MAX,
    ensures
        numbered_text(name, n).len() <= 32,
{
    reveal_with_fuel(pow10, 11);
    assert(pow10(10) == 10_000_000_000nat);
    lemma_decimal_len(n, 10);
    let suffix = seq!['_'] + decimal(n);
    lemma_field_len(name, (32 - suffix.len()) as nat);
}

/// Adding a channel keeps the names distinct and within the name field,
/// when they were so before and the new channel's own name fits.
pub proof fn lemma_push_keeps_names(before: Seq<Channel>, c: Channel, after: Seq<Channel>)
    requires
        pushed(before, c, after),
        names_distinct(before),
        names_fit(before),
        c.name@.len() <= 32,
    ensures
        names_distinct(after),
        names_fit(after),
{
    let k = before.len() as int;
    assert forall|i: int| 0 <= i < k implies after[i] == before[i] by {
        assert(after.take(k)[i] == after[i]);
    }
    let fresh = after.last().name@;
    assert(!has_name(before, fresh) && fresh.len() <= 32) by {
        if has_name(before, c.name@) {
            let n = choose|n: nat|
                2 <= n <= u32::MAX && !has_name(before, numbered_text(c.name@, n)) && (forall|m: nat|
                    2 <= m < n ==> has_name(before, #[trigger] numbered_text(c.name@, m)))
                    && after.last().name@ == numbered_text(c.name@, n) && after.last().short_name@
                    == field_text(numbered_text(c.name@, n), SHORT_NAME_LEN as nat);
            lemma_numbered_fits(c.name@, n);
        }
    }
    assert forall|i: int, j: int| 0 <= i < j < after.len() implies (#[trigger] after[i]).name@
        != (#[trigger] after[j]).name@ by {
        if j == k {
            assert(after[j] == after.last());
            if after[i].name@ == fresh {
                assert(before[i].name@ == fresh);
            }
        } else {
            assert(before[i].name@ != before[j].name@);
        }
    }
    assert forall|i: int| 0 <= i < after.len() implies (#[trigger] after[i]).name@.len() <= 32 by {
        if i == k {
            assert(after[i] == after.last());
        } else {
            assert(before[i].name@.len() <= 32);
        }
    }
}

/// Whether channel `i` carries the numbered form of `name` for some number
/// from `n` on.
pub open spec fn numbered_from(channels: Seq<Channel>, name: Seq<char>, n: nat, i: int) -> bool {
    exists|m: nat| m >= n && channels[i].name@ == #[trigger] numbered_text(name, m)
}

/// How many of the first `k` channels carry a numbered form of `name` from
/// `n` on.
pub open spec fn count_numbered(channels: Seq<Channel>, name: Seq<char>, n: nat, k: int) -> nat
    decreases k,
{
    if k <= 0 {
        0
    } else {
        count_numbered(channels, name, n, k - 1) + if numbered_from(channels, name, n, k - 1) {
            1nat
        } else {
            0nat
        }
    }
}

proof fn lemma_count_bound(channels: Seq<Channel>, name: Seq<char>, n: nat, k: int)
    requires
        0 <= k,
    ensures
        count_numbered(channels, name, n, k) <= k,
    decreases k,
{
    if k > 0 {
        lemma_count_bound(channels, name, n, k - 1);
    }
}

/// Moving the lower bound past a number that channel `j` carries drops `j`
/// from the count and adds nobody.
proof fn lemma_count_step(channels: Seq<Channel>, name: Seq<char>, n: nat, k: int, j: int)
    requires
        0 <= j < k <= channels.len(),
        channels[j].name@ == numbered_text(name, n),
    ensures
        count_numbered(channels, name, n + 1, k) < count_numbered(channels, name, n, k),
    decreases k,
{
    lemma_count_mono(channels, name, n, k - 1);
    if j == k - 1 {
        assert(numbered_from(channels, name, n, j));
        if numbered_from(channels, name, n + 1, j) {
            let m = choose|m: nat|
                m >= n + 1 && channels[j].name@ == #[trigger] numbered_text(name, m);
            lemma_numbered_injective(name, n, m);
        }
    } else {
        lemma_count_step(channels, name, n, k - 1, j);
        lemma_from_mono(channels, name, n, k - 1);
    }
}

proof fn lemma_from_mono(channels: Seq<Channel>, name: Seq<char>, n: nat, i: int)
    ensures
        numbered_from(channels, name, n + 1, i) ==> numbered_from(channels, name, n, i),
{
    if numbered_from(channels, name, n + 1, i) {
        let m = choose|m: nat| m >= n + 1 && channels[i].name@ == #[trigger] numbered_text(name, m);
        assert(m >= n && channels[i].name@ == numbered_text(name, m));
    }
}

proof fn lemma_count_mono(channels: Seq<Channel>, name: Seq<char>, n: nat, k: int)
    ensures
        count_numbered(channels, name, n + 1, k) <= count_numbered(channels, name, n, k),
    decreases k,
{
    if k > 0 {
        lemma_count_mono(channels, name, n, k - 1);
        lemma_from_mono(channels, name, n, k - 1);
    }
}

/// Every character of a decimal number is a digit.
proof fn lemma_decimal_digits(n: nat)
    ensures
        forall|i: int| 0 <= i < decimal(n).len() ==> '0' <= #[trigger] decimal(n)[i] <= '9',
    decreases n,
{
    if n >= 10 {
        lemma_decimal_digits(n / 10);
        assert forall|i: int| 0 <= i < decimal(n).len() implies '0' <= #[trigger] decimal(n)[i]
            <= '9' by {
            if i < decimal(n).len() - 1 {
                assert(decimal(n)[i] == decimal(n / 10)[i]);
            }
        }
    }
}

/// Different numbers have different decimal forms.
proof fn lemma_decimal_injective(n: nat, m: nat)
    requires
        decimal(n) == decimal(m),
    ensures
        n == m,
    decreases n,
{
    crate::text::lemma_decimal_len_at_least(n);
    crate::text::lemma_decimal_len_at_least(m);
    if n < 10 && m < 10 {
        let c = decimal(n)[0];
        assert(c == decimal(m)[0]);
        assert(c as int == 48 + n);
        assert(c as int == 48 + m);
    } else if n >= 10 && m >= 10 {
        assert(decimal(n / 10) =~= decimal(n).drop_last());
        assert(decimal(m / 10) =~= decimal(m).drop_last());
        let c = decimal(n).last();
        assert(c == decimal(m).last());
        assert(c as int == 48 + n % 10);
        assert(c as int == 48 + m % 10);
        lemma_decimal_injective(n / 10, m / 10);
    } else if n < 10 {
        crate::text::lemma_decimal_len_at_least(m / 10);
    } else {
        crate::text::lemma_decimal_len_at_least(n / 10);
    }
}

/// Different numbers give different numbered names: the name ends with
/// `_` and the number's digits, and no digit is an underscore.
proof fn lemma_numbered_injective(name: Seq<char>, n: nat, m: nat)
    requires
        numbered_text(name, n) == numbered_text(name, m),
    ensures
        n == m,
{
    let x = numbered_text(name, n);
    let d = decimal(n);
    let e = decimal(m);
    lemma_decimal_digits(n);
    lemma_decimal_digits(m);
    let a_len = x.len() - d.len() - 1;
    let b_len = x.len() - e.len() - 1;
    assert(x[a_len] == '_');
    assert(x[b_len] == '_');
    assert(forall|i: int| 0 <= i < d.len() ==> x[a_len + 1 + i] == d[i]);
    assert(forall|i: int| 0 <= i < e.len() ==> x[b_len + 1 + i] == e[i]);
    if d.len() < e.len() {
        assert(x[a_len] == e[a_len - b_len - 1]);
    } else if e.len() < d.len() {
        assert(x[b_len] == d[b_len - a_len - 1]);
    }
    assert(d =~= e);
    lemma_decimal_injective(n, m);
}

} // verus!
