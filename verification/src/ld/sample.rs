//! Irregular CAN traffic onto the fixed grid a `.ld` file requires.
//!
//! A signal updates when its message arrives; a channel is an array sampled
//! at one rate. The last value received is held until the next one arrives,
//! so the trace steps exactly where the bus stepped. Interpolating would
//! draw values no ECU ever sent, which is the one thing a decoder whose
//! whole claim is fidelity must not do in its last mile.
//!
//! Before a channel's first update there is nothing to hold, so its first
//! value is carried backwards to the start of the grid. A leading zero
//! would draw a trace descending from zero that never happened.
//!
//! Signals a frame was too short to carry are counted, not guessed at: a
//! caller that wants to know how much of the log it lost gets a number.

use vstd::prelude::*;

use crate::dbc::types::{
    lookup, picked, raw_value, selector, str_eq, Database, Decoded, Message, Signal,
};
use crate::dbc::check::{lemma_message_order, message_order, order_upto, raw_of};
use crate::decode::{extracted, lemma_extracted_unique, required_len};
use crate::error::Error;
use crate::frame::{id_raw, CanFrame};
use crate::frame::lemma_frame_fields;
use crate::ld::types::{field_text, lemma_renaming_fits, pushed, Channel, Session, NAME_LEN, SHORT_NAME_LEN, UNIT_LEN};
use crate::text::{append_decimal, decimal, push_str};

verus! {

/// Whether update `a` comes before update `b`: it arrived earlier, or at
/// the same time and earlier in the log.
pub open spec fn key_lt(u: Seq<(u64, u32)>, a: int, b: int) -> bool {
    u[a].0 < u[b].0 || (u[a].0 == u[b].0 && a < b)
}

/// Whether update `w` is the last one received at or before time `t`.
pub open spec fn is_latest(u: Seq<(u64, u32)>, w: int, t: int) -> bool {
    &&& 0 <= w < u.len()
    &&& u[w].0 <= t
    &&& forall|j: int| 0 <= j < u.len() && u[j].0 <= t && j != w ==> key_lt(u, j, w)
}

/// Whether update `w` is the first one received.
pub open spec fn is_earliest(u: Seq<(u64, u32)>, w: int) -> bool {
    &&& 0 <= w < u.len()
    &&& forall|j: int| 0 <= j < u.len() && j != w ==> key_lt(u, w, j)
}

/// Whether a channel whose updates are `u` holds `v` at time `t`: the value
/// of the last update at or before `t`, or, before any update, the value of
/// the first.
pub open spec fn holds(u: Seq<(u64, u32)>, t: int, v: u32) -> bool {
    ||| exists|w: int| is_latest(u, w, t) && u[w].1 == v
    ||| (forall|j: int| 0 <= j < u.len() ==> u[j].0 > t) && exists|w: int|
        is_earliest(u, w) && u[w].1 == v
}

/// Time of grid point `k` of a grid that starts at `start` and runs at
/// `rate` Hz, in microseconds.
pub open spec fn grid_time(start: u64, rate: u16, k: int) -> int {
    start + k * 1_000_000 / (rate as int)
}

/// The first grid point at or after time `ts`.
pub open spec fn first_point(ts: u64, start: u64, rate: u16) -> int {
    ((ts - start) * rate + 999_999) / 1_000_000
}

/// A grid point sees an update exactly when it is at or past the first
/// point at or after the update's time.
proof fn lemma_first_point(ts: u64, start: u64, rate: u16, k: int)
    requires
        start <= ts,
        rate > 0,
        0 <= k,
    ensures
        first_point(ts, start, rate) <= k <==> ts <= grid_time(start, rate, k),
{
    let d = ts - start;
    let r = rate as int;
    let x = d * r;
    assert(x >= 0) by (nonlinear_arith)
        requires
            x == d * r,
            d >= 0,
            r > 0,
    ;
    assert(((x + 999_999) / 1_000_000 <= k) <==> (x <= k * 1_000_000)) by (nonlinear_arith)
        requires
            x >= 0,
            k >= 0,
    ;
    assert((x <= k * 1_000_000) <==> (d <= (k * 1_000_000) / r)) by (nonlinear_arith)
        requires
            x == d * r,
            r > 0,
            d >= 0,
            k >= 0,
    ;
}

/// What bucket `c` records after the first `j` updates: the last of those
/// whose first grid point is `c`, or nothing when there is none.
pub open spec fn bucket_ok(
    u: Seq<(u64, u32)>,
    entry: Option<usize>,
    c: int,
    j: int,
    start: u64,
    rate: u16,
) -> bool {
    match entry {
        None => forall|i: int| 0 <= i < j ==> first_point(#[trigger] u[i].0, start, rate) != c,
        Some(w) => w < j && first_point(u[w as int].0, start, rate) == c && forall|i: int|
            0 <= i < j && i != w && first_point(#[trigger] u[i].0, start, rate) == c ==> key_lt(
                u,
                i,
                w as int,
            ),
    }
}

/// What the running choice records before grid point `k`: the last update
/// whose first grid point is before `k`, or nothing when there is none.
pub open spec fn choice_ok(u: Seq<(u64, u32)>, cur: Option<usize>, k: int, start: u64, rate: u16) -> bool {
    match cur {
        None => forall|i: int| 0 <= i < u.len() ==> first_point(#[trigger] u[i].0, start, rate) >= k,
        Some(c) => c < u.len() && first_point(u[c as int].0, start, rate) < k && forall|i: int|
            0 <= i < u.len() && i != c && first_point(#[trigger] u[i].0, start, rate) < k ==> key_lt(
                u,
                i,
                c as int,
            ),
    }
}

/// Hold each update until the next one falls due, and carry the first value
/// back to the start of the grid.
pub fn resample(updates: &[(u64, u32)], start: u64, rate: u16, len: usize) -> (samples: Vec<u32>)
    requires
        updates@.len() > 0,
        rate > 0,
        forall|j: int|
            0 <= j < updates@.len() ==> start <= #[trigger] updates@[j].0 && (updates@[j].0 - start)
                * rate <= u64::MAX,
        len > 0,
        (len - 1) * 1_000_000 <= u64::MAX,
        start + (len - 1) * 1_000_000 / (rate as int) <= u64::MAX,
    ensures
        samples@.len() == len,
        forall|k: int|
            0 <= k < len ==> holds(updates@, grid_time(start, rate, k), #[trigger] samples@[k]),
{
    let n = updates.len();
    let ghost u = updates@;
    let mut first: usize = 0;
    let mut j: usize = 1;
    while j < n
        invariant
            n == u.len(),
            u == updates@,
            1 <= j <= n,
            first < j,
            forall|i: int| #![trigger u[i]] 0 <= i < j && i != first ==> key_lt(u, first as int, i),
        decreases n - j,
    {
        let ghost old_first = first;
        if updates[j].0 < updates[first].0 {
            first = j;
        }
        proof {
            assert forall|i: int| #![trigger u[i]] 0 <= i < j + 1 && i != first implies key_lt(
                u,
                first as int,
                i,
            ) by {
                if i != old_first && i < j {
                    assert(key_lt(u, old_first as int, i));
                }
            }
        }
        j = j + 1;
    }
    let mut best: Vec<Option<usize>> = Vec::new();
    let mut b: usize = 0;
    while b < len
        invariant
            b <= len,
            best@.len() == b,
            forall|c: int| 0 <= c < b ==> best@[c] is None,
        decreases len - b,
    {
        best.push(None);
        b = b + 1;
    }
    let mut j: usize = 0;
    while j < n
        invariant
            n == u.len(),
            u == updates@,
            rate > 0,
            forall|i: int|
                0 <= i < u.len() ==> start <= #[trigger] u[i].0 && (u[i].0 - start) * rate
                    <= u64::MAX,
            j <= n,
            best@.len() == len,
            forall|c: int| 0 <= c < len ==> bucket_ok(u, #[trigger] best@[c], c, j as int, start, rate),
        decreases n - j,
    {
        let (ts, _) = updates[j];
        let dr = (ts - start) * (rate as u64);
        let point = dr / 1_000_000 + if dr % 1_000_000 != 0 {
            1
        } else {
            0
        };
        assert(point == first_point(ts, start, rate));
        let ghost before = best@;
        if point < len as u64 {
            let p = point as usize;
            match best[p] {
                None => {
                    best.set(p, Some(j));
                },
                Some(w) => {
                    if updates[w].0 <= ts {
                        best.set(p, Some(j));
                    }
                },
            }
        }
        proof {
            assert forall|c: int| 0 <= c < len implies bucket_ok(
                u,
                #[trigger] best@[c],
                c,
                j + 1,
                start,
                rate,
            ) by {
                assert(bucket_ok(u, before[c], c, j as int, start, rate));
                match before[c] {
                    None => {},
                    Some(w) => {
                        if best@[c] == Some(j) {
                            assert forall|i: int|
                                0 <= i < j + 1 && i != j && first_point(#[trigger] u[i].0, start, rate)
                                    == c implies key_lt(u, i, j as int) by {
                                if i != w {
                                    assert(key_lt(u, i, w as int));
                                }
                            }
                        }
                    },
                }
            }
        }
        j = j + 1;
    }
    let mut samples: Vec<u32> = Vec::new();
    let mut cur: Option<usize> = None;
    let mut k: usize = 0;
    while k < len
        invariant
            n == u.len(),
            u == updates@,
            rate > 0,
            forall|i: int|
                0 <= i < u.len() ==> start <= #[trigger] u[i].0 && (u[i].0 - start) * rate
                    <= u64::MAX,
            first < n,
            forall|i: int| 0 <= i < n && i != first ==> key_lt(u, first as int, i),
            best@.len() == len,
            forall|c: int| 0 <= c < len ==> bucket_ok(u, #[trigger] best@[c], c, n as int, start, rate),
            k <= len,
            samples@.len() == k,
            choice_ok(u, cur, k as int, start, rate),
            forall|q: int| 0 <= q < k ==> holds(u, grid_time(start, rate, q), #[trigger] samples@[q]),
        decreases len - k,
    {
        let ghost before = cur;
        proof {
            assert(bucket_ok(u, best@[k as int], k as int, n as int, start, rate));
        }
        match best[k] {
            None => {},
            Some(w) => {
                match cur {
                    None => {
                        cur = Some(w);
                    },
                    Some(c) => {
                        let later = updates[c].0 < updates[w].0 || (updates[c].0 == updates[w].0
                            && c < w);
                        if later {
                            cur = Some(w);
                        }
                    },
                }
            },
        }
        proof {
            assert forall|i: int| 0 <= i < n implies (#[trigger] first_point(u[i].0, start, rate) < k + 1
                <==> first_point(u[i].0, start, rate) < k || first_point(u[i].0, start, rate) == k) by {}
            match best@[k as int] {
                None => {
                    assert(choice_ok(u, cur, k + 1, start, rate));
                },
                Some(w) => {
                    match before {
                        None => {
                            assert(choice_ok(u, cur, k + 1, start, rate));
                        },
                        Some(c) => {
                            if cur == Some(w) {
                                assert forall|i: int|
                                    0 <= i < u.len() && i != w && first_point(
                                        #[trigger] u[i].0,
                                        start,
                                        rate,
                                    ) < k + 1 implies key_lt(u, i, w as int) by {
                                    if i != c && first_point(u[i].0, start, rate) < k {
                                        assert(key_lt(u, i, c as int));
                                    }
                                }
                            } else {
                                assert forall|i: int|
                                    0 <= i < u.len() && i != c && first_point(
                                        #[trigger] u[i].0,
                                        start,
                                        rate,
                                    ) < k + 1 implies key_lt(u, i, c as int) by {
                                    if i != w && first_point(u[i].0, start, rate) == k {
                                        assert(key_lt(u, i, w as int));
                                    }
                                }
                            }
                            assert(choice_ok(u, cur, k + 1, start, rate));
                        },
                    }
                },
            }
        }
        let v = match cur {
            Some(c) => updates[c].1,
            None => updates[first].1,
        };
        proof {
            let t = grid_time(start, rate, k as int);
            assert forall|i: int| 0 <= i < n implies (first_point(#[trigger] u[i].0, start, rate) < k + 1
                <==> u[i].0 <= t) by {
                lemma_first_point(u[i].0, start, rate, k as int);
            }
            match cur {
                Some(c) => {
                    assert(is_latest(u, c as int, t));
                },
                None => {
                    assert(is_earliest(u, first as int));
                },
            }
        }
        samples.push(v);
        k = k + 1;
    }
    samples
}

/// Channels in the order they are written: every signal of every message,
/// the messages in `order`, each message's signals in the order the DBC
/// declares them, as (message, signal) positions.
pub open spec fn entries(msgs: Seq<Message>, order: Seq<usize>, q: int) -> Seq<(usize, usize)>
    decreases q,
{
    if q <= 0 {
        Seq::empty()
    } else {
        let i = order[q - 1];
        entries(msgs, order, q - 1) + Seq::new(
            msgs[i as int].signals@.len(),
            |k: int| (i, k as usize),
        )
    }
}

/// The channel `msgs`'s layout gives the signal called `name` of a frame
/// with identifier `raw`: the last channel with that identifier and name.
pub open spec fn slot_of(
    msgs: Seq<Message>,
    lay: Seq<(usize, usize)>,
    raw: u32,
    name: Seq<char>,
    n: int,
) -> Option<int>
    decreases n,
{
    if n <= 0 {
        None
    } else {
        let (i, k) = lay[n - 1];
        if raw_of(msgs, i as int) == raw && msgs[i as int].signals@[k as int].name@ == name {
            Some(n - 1)
        } else {
            slot_of(msgs, lay, raw, name, n - 1)
        }
    }
}

proof fn lemma_slot_of_bound(
    msgs: Seq<Message>,
    lay: Seq<(usize, usize)>,
    raw: u32,
    name: Seq<char>,
    n: int,
)
    ensures
        slot_of(msgs, lay, raw, name, n) matches Some(c) ==> 0 <= c < n,
    decreases n,
{
    if n > 0 {
        lemma_slot_of_bound(msgs, lay, raw, name, n - 1);
    }
}

proof fn lemma_skips_bound(evs: Seq<Event>)
    ensures
        skips(evs) <= evs.len(),
    decreases evs.len(),
{
    if evs.len() > 0 {
        lemma_skips_bound(evs.drop_last());
    }
}

/// The channel layout: (message, signal) positions in writing order.
fn layout_of(msgs: &[Message], order: &[usize]) -> (lay: Vec<(usize, usize)>)
    requires
        forall|q: int| 0 <= q < order@.len() ==> #[trigger] order@[q] < msgs@.len(),
    ensures
        lay@ == entries(msgs@, order@, order@.len() as int),
{
    let mut lay: Vec<(usize, usize)> = Vec::new();
    let mut q: usize = 0;
    while q < order.len()
        invariant
            q <= order@.len(),
            forall|x: int| 0 <= x < order@.len() ==> #[trigger] order@[x] < msgs@.len(),
            lay@ == entries(msgs@, order@, q as int),
        decreases order@.len() - q,
    {
        let i = order[q];
        let ghost before = lay@;
        let mut k: usize = 0;
        while k < msgs[i].signals.len()
            invariant
                i < msgs@.len(),
                k <= msgs@[i as int].signals@.len(),
                lay@ == before + Seq::new(k as nat, |x: int| (i, x as usize)),
            decreases msgs@[i as int].signals@.len() - k,
        {
            lay.push((i, k));
            k = k + 1;
            assert(lay@ =~= before + Seq::new(k as nat, |x: int| (i, x as usize)));
        }
        q = q + 1;
    }
    lay
}

/// For every message, the channel each of its signals is written as.
fn slot_table(msgs: &[Message], lay: &[(usize, usize)]) -> (table: Vec<Vec<Option<usize>>>)
    requires
        forall|c: int|
            0 <= c < lay@.len() ==> (#[trigger] lay@[c]).0 < msgs@.len() && lay@[c].1
                < msgs@[lay@[c].0 as int].signals@.len(),
    ensures
        table@.len() == msgs@.len(),
        forall|i: int|
            0 <= i < msgs@.len() ==> (#[trigger] table@[i])@.len() == msgs@[i].signals@.len(),
        forall|i: int, k: int|
            0 <= i < msgs@.len() && 0 <= k < msgs@[i].signals@.len() ==> match #[trigger] table@[i]@[k] {
                Some(c) => slot_of(
                    msgs@,
                    lay@,
                    raw_of(msgs@, i),
                    msgs@[i].signals@[k].name@,
                    lay@.len() as int,
                ) == Some(c as int),
                None => slot_of(
                    msgs@,
                    lay@,
                    raw_of(msgs@, i),
                    msgs@[i].signals@[k].name@,
                    lay@.len() as int,
                ) is None,
            },
{
    let mut table: Vec<Vec<Option<usize>>> = Vec::new();
    let mut i: usize = 0;
    while i < msgs.len()
        invariant
            i <= msgs@.len(),
            forall|c: int|
                0 <= c < lay@.len() ==> (#[trigger] lay@[c]).0 < msgs@.len() && lay@[c].1
                    < msgs@[lay@[c].0 as int].signals@.len(),
            table@.len() == i,
            forall|x: int| 0 <= x < i ==> (#[trigger] table@[x])@.len() == msgs@[x].signals@.len(),
            forall|x: int, k: int|
                0 <= x < i && 0 <= k < msgs@[x].signals@.len() ==> match #[trigger] table@[x]@[k] {
                    Some(c) => slot_of(
                        msgs@,
                        lay@,
                        raw_of(msgs@, x),
                        msgs@[x].signals@[k].name@,
                        lay@.len() as int,
                    ) == Some(c as int),
                    None => slot_of(
                        msgs@,
                        lay@,
                        raw_of(msgs@, x),
                        msgs@[x].signals@[k].name@,
                        lay@.len() as int,
                    ) is None,
                },
        decreases msgs@.len() - i,
    {
        let r = msgs[i].id.raw();
        let mut row: Vec<Option<usize>> = Vec::new();
        let mut k: usize = 0;
        while k < msgs[i].signals.len()
            invariant
                i < msgs@.len(),
                r == raw_of(msgs@, i as int),
                forall|c: int|
                    0 <= c < lay@.len() ==> (#[trigger] lay@[c]).0 < msgs@.len() && lay@[c].1
                        < msgs@[lay@[c].0 as int].signals@.len(),
                k <= msgs@[i as int].signals@.len(),
                row@.len() == k,
                forall|y: int|
                    0 <= y < k ==> match #[trigger] row@[y] {
                        Some(c) => slot_of(
                            msgs@,
                            lay@,
                            r,
                            msgs@[i as int].signals@[y].name@,
                            lay@.len() as int,
                        ) == Some(c as int),
                        None => slot_of(
                            msgs@,
                            lay@,
                            r,
                            msgs@[i as int].signals@[y].name@,
                            lay@.len() as int,
                        ) is None,
                    },
            decreases msgs@[i as int].signals@.len() - k,
        {
            let name = msgs[i].signals[k].name.as_str();
            let mut c = lay.len();
            let mut found: Option<usize> = None;
            while c > 0 && found.is_none()
                invariant
                    c <= lay@.len(),
                    forall|x: int|
                        0 <= x < lay@.len() ==> (#[trigger] lay@[x]).0 < msgs@.len() && lay@[x].1
                            < msgs@[lay@[x].0 as int].signals@.len(),
                    found is None ==> slot_of(msgs@, lay@, r, name@, lay@.len() as int) == slot_of(
                        msgs@,
                        lay@,
                        r,
                        name@,
                        c as int,
                    ),
                    found matches Some(f) ==> slot_of(msgs@, lay@, r, name@, lay@.len() as int)
                        == Some(f as int),
                decreases c,
            {
                let (mi, si) = lay[c - 1];
                if msgs[mi].id.raw() == r && str_eq(msgs[mi].signals[si].name.as_str(), name) {
                    found = Some(c - 1);
                }
                c = c - 1;
            }
            row.push(found);
            k = k + 1;
        }
        table.push(row);
        i = i + 1;
    }
    table
}

/// What one decoded signal of a frame does to the session.
pub enum Event {
    /// The signal updates channel `slot` at time `ts`.
    Update { slot: int, ts: u64, signal: Signal, raw: u64 },
    /// The signal decoded but no channel carries it.
    Unplaced,
    /// The frame was too short to carry the signal.
    Skip,
}

/// What decoding frame `f` against the messages `msgs` does, one event per
/// signal it selects, in decoding order.
pub open spec fn frame_events(msgs: Seq<Message>, lay: Seq<(usize, usize)>, f: CanFrame) -> Seq<
    Event,
> {
    match lookup(msgs, f.spec_id()) {
        None => Seq::empty(),
        Some(m) => {
            let data = f.payload();
            let idx = picked(m.signals@, selector(m.signals@, data), m.signals@.len() as int);
            Seq::new(
                idx.len(),
                |q: int|
                    {
                        let sig = m.signals@[idx[q]];
                        if required_len(&sig) <= data.len() {
                            match slot_of(
                                msgs,
                                lay,
                                id_raw(f.spec_id()),
                                sig.name@,
                                lay.len() as int,
                            ) {
                                Some(c) => Event::Update {
                                    slot: c,
                                    ts: f.spec_timestamp(),
                                    signal: sig,
                                    raw: raw_value(data, sig),
                                },
                                None => Event::Unplaced,
                            }
                        } else {
                            Event::Skip
                        }
                    },
            )
        },
    }
}

/// The events of the first `t` frames, in order.
pub open spec fn all_events(msgs: Seq<Message>, lay: Seq<(usize, usize)>, frames: Seq<CanFrame>, t: int) -> Seq<
    Event,
>
    decreases t,
{
    if t <= 0 {
        Seq::empty()
    } else {
        all_events(msgs, lay, frames, t - 1) + frame_events(msgs, lay, frames[t - 1])
    }
}

/// The updates of channel `c`, in the order the events give them.
pub open spec fn updates_of(evs: Seq<Event>, c: int) -> Seq<(u64, Signal, u64)>
    decreases evs.len(),
{
    if evs.len() == 0 {
        Seq::empty()
    } else {
        let rest = updates_of(evs.drop_last(), c);
        match evs.last() {
            Event::Update { slot, ts, signal, raw } => if slot == c {
                rest.push((ts, signal, raw))
            } else {
                rest
            },
            _ => rest,
        }
    }
}

/// How many signals of `evs` a frame was too short to carry.
pub open spec fn skips(evs: Seq<Event>) -> nat
    decreases evs.len(),
{
    if evs.len() == 0 {
        0
    } else {
        skips(evs.drop_last()) + if evs.last() is Skip {
            1nat
        } else {
            0nat
        }
    }
}

/// Whether `bits` are values `value_bits` gives for the updates `u`, at
/// their times.
pub open spec fn valued<F: Fn(&Signal, u64) -> u32>(
    value_bits: F,
    u: Seq<(u64, Signal, u64)>,
    bits: Seq<(u64, u32)>,
) -> bool {
    &&& bits.len() == u.len()
    &&& forall|j: int|
        0 <= j < u.len() ==> #[trigger] bits[j].0 == u[j].0 && value_bits.ensures(
            (&u[j].1, u[j].2),
            bits[j].1,
        )
}

proof fn lemma_events_prefix(
    msgs: Seq<Message>,
    lay: Seq<(usize, usize)>,
    frames: Seq<CanFrame>,
    a: int,
    b: int,
)
    requires
        0 <= a <= b,
    ensures
        all_events(msgs, lay, frames, a).len() <= all_events(msgs, lay, frames, b).len(),
    decreases b - a,
{
    if a < b {
        lemma_events_prefix(msgs, lay, frames, a, b - 1);
    }
}

/// Collect, for every channel, the times and values of its updates, and
/// count the signals frames were too short to carry.
fn collect<F: Fn(&Signal, u64) -> u32>(
    db: &Database,
    frames: &[CanFrame],
    lay: &[(usize, usize)],
    table: &Vec<Vec<Option<usize>>>,
    value_bits: &F,
) -> (r: (Vec<Vec<(u64, u32)>>, usize))
    requires
        db.well_formed(),
        db.decodable(),
        forall|x: &Signal, v: u64| value_bits.requires((x, v)),
        all_events(db.spec_messages(), lay@, frames@, frames@.len() as int).len() <= usize::MAX,
        table@.len() == db.spec_messages().len(),
        forall|i: int|
            0 <= i < db.spec_messages().len() ==> (#[trigger] table@[i])@.len()
                == db.spec_messages()[i].signals@.len(),
        forall|i: int, k: int|
            0 <= i < db.spec_messages().len() && 0 <= k < db.spec_messages()[i].signals@.len()
                ==> match #[trigger] table@[i]@[k] {
                Some(c) => slot_of(
                    db.spec_messages(),
                    lay@,
                    raw_of(db.spec_messages(), i),
                    db.spec_messages()[i].signals@[k].name@,
                    lay@.len() as int,
                ) == Some(c as int),
                None => slot_of(
                    db.spec_messages(),
                    lay@,
                    raw_of(db.spec_messages(), i),
                    db.spec_messages()[i].signals@[k].name@,
                    lay@.len() as int,
                ) is None,
            },
    ensures
        r.0@.len() == lay@.len(),
        r.1 == skips(all_events(db.spec_messages(), lay@, frames@, frames@.len() as int)),
        forall|c: int|
            0 <= c < lay@.len() ==> valued(
                *value_bits,
                updates_of(all_events(db.spec_messages(), lay@, frames@, frames@.len() as int), c),
                (#[trigger] r.0@[c])@,
            ),
{
    let ghost msgs = db.spec_messages();
    let mut updates: Vec<Vec<(u64, u32)>> = Vec::new();
    let mut c: usize = 0;
    while c < lay.len()
        invariant
            c <= lay@.len(),
            updates@.len() == c,
            forall|x: int| 0 <= x < c ==> (#[trigger] updates@[x])@.len() == 0,
        decreases lay@.len() - c,
    {
        updates.push(Vec::new());
        c = c + 1;
    }
    let mut skipped: usize = 0;
    let ghost mut evs: Seq<Event> = Seq::empty();
    assert forall|x: int| 0 <= x < lay@.len() implies valued(
        *value_bits,
        updates_of(evs, x),
        (#[trigger] updates@[x])@,
    ) by {}
    let mut t: usize = 0;
    while t < frames.len()
        invariant
            db.well_formed(),
            db.decodable(),
            msgs == db.spec_messages(),
            forall|x: &Signal, v: u64| value_bits.requires((x, v)),
            table@.len() == msgs.len(),
            forall|i: int| 0 <= i < msgs.len() ==> (#[trigger] table@[i])@.len() == msgs[i].signals@.len(),
            forall|i: int, k: int|
                0 <= i < msgs.len() && 0 <= k < msgs[i].signals@.len() ==> match #[trigger] table@[i]@[k] {
                    Some(c) => slot_of(
                        msgs,
                        lay@,
                        raw_of(msgs, i),
                        msgs[i].signals@[k].name@,
                        lay@.len() as int,
                    ) == Some(c as int),
                    None => slot_of(
                        msgs,
                        lay@,
                        raw_of(msgs, i),
                        msgs[i].signals@[k].name@,
                        lay@.len() as int,
                    ) is None,
                },
            t <= frames@.len(),
            all_events(msgs, lay@, frames@, frames@.len() as int).len() <= usize::MAX,
            evs == all_events(msgs, lay@, frames@, t as int),
            skipped == skips(evs),
            updates@.len() == lay@.len(),
            forall|x: int|
                0 <= x < lay@.len() ==> valued(
                    *value_bits,
                    updates_of(evs, x),
                    (#[trigger] updates@[x])@,
                ),
        decreases frames@.len() - t,
    {
        let frame = &frames[t];
        let ghost fe = frame_events(msgs, lay@, *frame);
        match db.position(frame.id()) {
            None => {
                proof {
                    assert(lookup(msgs, frame.spec_id()) is None);
                    assert(fe =~= Seq::<Event>::empty());
                    assert(evs + fe =~= evs);
                }
            },
            Some(i) => {
                let m = &db.messages()[i];
                proof {
                    assert forall|a: int, b: int|
                        0 <= a < msgs.len() && 0 <= b < msgs.len() && a != b implies msgs[a].id
                        != msgs[b].id by {
                        db.lemma_unique_ids(a, b);
                    }
                    crate::dbc::types::lemma_lookup_at(msgs, frame.spec_id(), i as int);
                    assert(msgs[i as int].well_formed());
                    crate::dbc::types::lemma_picked_bounds(
                        m.signals@,
                        selector(m.signals@, frame.payload()),
                        m.signals@.len() as int,
                    );
                }
                let results = m.decode(frame.data());
                let ghost idx = picked(
                    m.signals@,
                    selector(m.signals@, frame.payload()),
                    m.signals@.len() as int,
                );
                let ghost start_evs = evs;
                proof {
                    lemma_events_prefix(msgs, lay@, frames@, t + 1, frames@.len() as int);
                }
                let mut q: usize = 0;
                while q < results.len()
                    invariant
                        msgs == db.spec_messages(),
                        forall|x: &Signal, v: u64| value_bits.requires((x, v)),
                        i < msgs.len(),
                        *m == msgs[i as int],
                        m.well_formed(),
                        lookup(msgs, frame.spec_id()) == Some(*m),
                        frame.spec_id() == msgs[i as int].id,
                        table@.len() == msgs.len(),
                        (table@[i as int])@.len() == msgs[i as int].signals@.len(),
                        forall|k: int|
                            0 <= k < msgs[i as int].signals@.len() ==> match #[trigger] table@[i as int]@[k] {
                                Some(c) => slot_of(
                                    msgs,
                                    lay@,
                                    raw_of(msgs, i as int),
                                    msgs[i as int].signals@[k].name@,
                                    lay@.len() as int,
                                ) == Some(c as int),
                                None => slot_of(
                                    msgs,
                                    lay@,
                                    raw_of(msgs, i as int),
                                    msgs[i as int].signals@[k].name@,
                                    lay@.len() as int,
                                ) is None,
                            },
                        fe == frame_events(msgs, lay@, *frame),
                        idx == picked(
                            m.signals@,
                            selector(m.signals@, frame.payload()),
                            m.signals@.len() as int,
                        ),
                        results@.len() == idx.len(),
                        fe.len() == idx.len(),
                        forall|k: int|
                            0 <= k < idx.len() ==> crate::dbc::types::decode_outcome(
                                frame.payload(),
                                &m.signals@[#[trigger] idx[k]],
                                results@[k],
                            ),
                        forall|k: int| 0 <= k < idx.len() ==> 0 <= #[trigger] idx[k] < m.signals@.len(),
                        q <= results@.len(),
                        start_evs + fe == all_events(msgs, lay@, frames@, t + 1),
                        all_events(msgs, lay@, frames@, t + 1).len() <= usize::MAX,
                        evs == start_evs + fe.take(q as int),
                        skipped == skips(evs),
                        updates@.len() == lay@.len(),
                        forall|x: int|
                            0 <= x < lay@.len() ==> valued(
                                *value_bits,
                                updates_of(evs, x),
                                (#[trigger] updates@[x])@,
                            ),
                    decreases results@.len() - q,
                {
                    let ghost sig = m.signals@[idx[q as int]];
                    proof {
                        assert(fe.take(q + 1) =~= fe.take(q as int).push(fe[q as int]));
                        assert(m.signals@[idx[q as int]].well_formed());
                    }
                    match &results[q] {
                        Err(_) => {
                            proof {
                                assert(fe[q as int] is Skip);
                                let old_evs = evs;
                                lemma_skips_bound(old_evs);
                                evs = evs.push(fe[q as int]);
                                assert(evs.drop_last() =~= old_evs);
                                assert(evs.len() <= (start_evs + fe).len());
                            }
                            skipped = skipped + 1;
                        },
                        Ok(d) => {
                            let d: &Decoded = d;
                            let mut k: usize = 0;
                            while k < m.signals.len() && !str_eq(
                                m.signals[k].name.as_str(),
                                d.signal.name.as_str(),
                            )
                                invariant
                                    k <= m.signals@.len(),
                                    0 <= idx[q as int] < m.signals@.len(),
                                    *d.signal == m.signals@[idx[q as int]],
                                    forall|y: int| 0 <= y < k ==> (#[trigger] m.signals@[y]).name@
                                        != d.signal.name@,
                                decreases m.signals@.len() - k,
                            {
                                k = k + 1;
                            }
                            assert(k < m.signals@.len());
                            let slot = table[i][k];
                            proof {
                                lemma_slot_of_bound(
                                    msgs,
                                    lay@,
                                    raw_of(msgs, i as int),
                                    msgs[i as int].signals@[k as int].name@,
                                    lay@.len() as int,
                                );
                                lemma_extracted_unique(
                                    frame.payload(),
                                    &sig,
                                    d.raw,
                                    raw_value(frame.payload(), sig),
                                );
                            }
                            match slot {
                                None => {
                                    proof {
                                        assert(fe[q as int] is Unplaced);
                                        let old_evs = evs;
                                        evs = evs.push(fe[q as int]);
                                        assert(evs.drop_last() =~= old_evs);
                                    }
                                },
                                Some(c) => {
                                    let bits = value_bits(d.signal, d.raw);
                                    let ghost before = updates@[c as int]@;
                                    let mut row: Vec<(u64, u32)> = Vec::new();
                                    updates.set_and_swap(c, &mut row);
                                    row.push((frame.timestamp_us, bits));
                                    updates.set_and_swap(c, &mut row);
                                    proof {
                                        crate::frame::lemma_frame_fields(frame);
                                        assert(fe[q as int] == Event::Update {
                                            slot: c as int,
                                            ts: frame.spec_timestamp(),
                                            signal: sig,
                                            raw: d.raw,
                                        });
                                        let old_evs = evs;
                                        evs = evs.push(fe[q as int]);
                                        assert(evs.drop_last() =~= old_evs);
                                        assert forall|x: int| 0 <= x < lay@.len() implies valued(
                                            *value_bits,
                                            updates_of(evs, x),
                                            (#[trigger] updates@[x])@,
                                        ) by {
                                            assert(evs.drop_last() =~= old_evs);
                                        }
                                    }
                                },
                            }
                        },
                    }
                    q = q + 1;
                }
                proof {
                    assert(fe.take(fe.len() as int) =~= fe);
                }
            },
        }
        proof {
            assert(all_events(msgs, lay@, frames@, t + 1) == all_events(msgs, lay@, frames@, t as int)
                + frame_events(msgs, lay@, frames@[t as int]));
        }
        t = t + 1;
    }
    (updates, skipped)
}

/// Rates a logger is plausibly set to. The default rate is the first of
/// these at or above the fastest message on the bus, so a 50 Hz message is
/// never sampled at 47 Hz and never padded up to 1 kHz.
pub const RATE_LADDER: [u16; 11] = [1, 2, 5, 10, 20, 25, 50, 100, 200, 500, 1000];

/// Refuse to build a session whose samples would exceed this many bytes. A
/// long log at a high rate is a plausible mistake, and the failure without
/// this guard is the allocator's.
const MAX_SAMPLE_BYTES: usize = 536_870_912;

/// A resampled session, and what could not be used to build it.
#[derive(Debug)]
pub struct Sampled {
    /// The session, ready to write.
    pub session: Session,
    /// Signals a frame was too short to carry. Frames whose identifier is
    /// not in the database are not counted here — on a real bus most
    /// traffic is not described by any one DBC.
    pub skipped: usize,
}

/// The earliest capture time among `frames`.
pub open spec fn min_ts(frames: Seq<CanFrame>) -> u64
    decreases frames.len(),
{
    if frames.len() <= 1 {
        frames[0].spec_timestamp()
    } else {
        let m = min_ts(frames.drop_last());
        if frames.last().spec_timestamp() < m {
            frames.last().spec_timestamp()
        } else {
            m
        }
    }
}

/// The latest capture time among `frames`.
pub open spec fn max_ts(frames: Seq<CanFrame>) -> u64
    decreases frames.len(),
{
    if frames.len() <= 1 {
        frames[0].spec_timestamp()
    } else {
        let m = max_ts(frames.drop_last());
        if frames.last().spec_timestamp() > m {
            frames.last().spec_timestamp()
        } else {
            m
        }
    }
}

/// The channel layout of a database.
pub open spec fn layout(msgs: Seq<Message>) -> Seq<(usize, usize)> {
    entries(msgs, order_upto(msgs, msgs.len() as int), msgs.len() as int)
}

/// The channels among the first `n` that carry at least one update, in
/// order.
pub open spec fn carried(evs: Seq<Event>, n: int) -> Seq<int>
    decreases n,
{
    if n <= 0 {
        Seq::empty()
    } else if updates_of(evs, n - 1).len() > 0 {
        carried(evs, n - 1).push(n - 1)
    } else {
        carried(evs, n - 1)
    }
}

/// Grid points from the first frame to the last at `rate` Hz.
pub open spec fn grid_len(frames: Seq<CanFrame>, rate: u16) -> int {
    (max_ts(frames) - min_ts(frames)) * rate / 1_000_000 + 1
}

/// `a * b`, or the largest `usize` when that overflows.
pub open spec fn sat_mul(a: int, b: int) -> int {
    if a * b > usize::MAX {
        usize::MAX as int
    } else {
        a * b
    }
}

/// Why no session is built from `frames`, if it is not.
pub open spec fn refusal(msgs: Seq<Message>, frames: Seq<CanFrame>, rate: u16) -> Option<Seq<char>> {
    if frames.len() == 0 {
        Some("the log holds no frames"@)
    } else if rate == 0 {
        Some("a sample rate of 0 Hz describes no grid"@)
    } else {
        let lay = layout(msgs);
        let evs = all_events(msgs, lay, frames, frames.len() as int);
        let n = carried(evs, lay.len() as int).len();
        let bytes = sat_mul(sat_mul(n as int, grid_len(frames, rate)), 4);
        if n == 0 {
            Some("no signal in the database was decoded from this log"@)
        } else if bytes > 536_870_912 {
            Some(
                decimal(n) + " channels at "@ + decimal(rate as nat) + " Hz over this log need "@
                    + decimal(bytes as nat) + " bytes of samples; pass a lower rate"@,
            )
        } else {
            None
        }
    }
}

/// Whether `ch` is the channel of slot `c`: the slot's signal's name and
/// unit as the format holds them, one sample per grid point, each the value
/// the slot holds at that point for some values `value_bits` gives its
/// updates.
pub open spec fn channel_for<F: Fn(&Signal, u64) -> u32>(
    value_bits: F,
    msgs: Seq<Message>,
    lay: Seq<(usize, usize)>,
    evs: Seq<Event>,
    c: int,
    start: u64,
    rate: u16,
    len: int,
    ch: Channel,
) -> bool {
    let sig = msgs[lay[c].0 as int].signals@[lay[c].1 as int];
    &&& ch.name@ == field_text(sig.name@, NAME_LEN as nat)
    &&& ch.short_name@ == field_text(field_text(sig.name@, NAME_LEN as nat), SHORT_NAME_LEN as nat)
    &&& ch.unit@ == field_text(sig.unit@, UNIT_LEN as nat)
    &&& ch.samples@.len() == len
    &&& exists|bits: Seq<(u64, u32)>|
        valued(value_bits, updates_of(evs, c), bits) && forall|k: int|
            0 <= k < len ==> holds(bits, grid_time(start, rate, k), #[trigger] ch.samples@[k])
}

/// `after` is `before` with `news` pushed in order, each renamed as a
/// session renames a channel whose name is taken.
pub open spec fn pushed_all(before: Seq<Channel>, news: Seq<Channel>, after: Seq<Channel>) -> bool
    decreases news.len(),
{
    if news.len() == 0 {
        after == before
    } else {
        exists|mid: Seq<Channel>|
            pushed_all(before, news.drop_last(), mid) && pushed(mid, news.last(), after)
    }
}

/// First and last timestamp in the log.
fn span(frames: &[CanFrame]) -> (r: (u64, u64))
    requires
        frames@.len() > 0,
    ensures
        r.0 == min_ts(frames@),
        r.1 == max_ts(frames@),
        forall|t: int| 0 <= t < frames@.len() ==> r.0 <= #[trigger] frames@[t].spec_timestamp() <= r.1,
{
    proof {
        lemma_frame_fields(&frames[0]);
    }
    let mut start = frames[0].timestamp_us;
    let mut end = frames[0].timestamp_us;
    let mut t: usize = 1;
    while t < frames.len()
        invariant
            1 <= t <= frames@.len(),
            start == min_ts(frames@.take(t as int)),
            end == max_ts(frames@.take(t as int)),
            forall|x: int| 0 <= x < t ==> start <= #[trigger] frames@[x].spec_timestamp() <= end,
        decreases frames@.len() - t,
    {
        proof {
            lemma_frame_fields(&frames[t as int]);
            assert(frames@.take(t + 1).drop_last() =~= frames@.take(t as int));
        }
        let ts = frames[t].timestamp_us;
        if ts < start {
            start = ts;
        }
        if ts > end {
            end = ts;
        }
        t = t + 1;
    }
    assert(frames@.take(frames@.len() as int) =~= frames@);
    (start, end)
}

/// Decode `frames` against `db` and resample every signal onto one grid of
/// `rate_hz`, each decoded signal's value given, as the bits of an `f32`,
/// by `value_bits`.
///
/// The grid starts at the earliest frame and ends at the latest, so an
/// empty log has no grid and is an error rather than an empty file.
pub fn sample<F: Fn(&Signal, u64) -> u32>(
    db: &Database,
    frames: &[CanFrame],
    rate_hz: u16,
    value_bits: F,
) -> (r: Result<Sampled, Error>)
    requires
        db.well_formed(),
        db.decodable(),
        forall|x: &Signal, v: u64| value_bits.requires((x, v)),
        frames@.len() > 0 ==> (max_ts(frames@) - min_ts(frames@)) * rate_hz <= u64::MAX,
        frames@.len() > 0 ==> grid_len(frames@, rate_hz) < usize::MAX,
        all_events(
            db.spec_messages(),
            layout(db.spec_messages()),
            frames@,
            frames@.len() as int,
        ).len() <= usize::MAX,
        layout(db.spec_messages()).len() + 2 <= u32::MAX,
    ensures
        match r {
            Err(e) => refusal(db.spec_messages(), frames@, rate_hz) matches Some(t) && e matches Error::Export {
                reason,
            } && reason@ == t,
            Ok(s) => {
                let msgs = db.spec_messages();
                let lay = layout(msgs);
                let evs = all_events(msgs, lay, frames@, frames@.len() as int);
                let slots = carried(evs, lay.len() as int);
                &&& refusal(msgs, frames@, rate_hz) is None
                &&& s.skipped == skips(evs)
                &&& s.session@.started_at_us == min_ts(frames@)
                &&& s.session@.rate_hz == rate_hz
                &&& s.session@.driver.len() == 0
                &&& s.session@.vehicle.len() == 0
                &&& s.session@.venue.len() == 0
                &&& s.session@.event.len() == 0
                &&& exists|news: Seq<Channel>|
                    {
                        &&& news.len() == slots.len()
                        &&& pushed_all(Seq::empty(), news, s.session@.channels)
                        &&& forall|q: int|
                            0 <= q < slots.len() ==> channel_for(
                                value_bits,
                                msgs,
                                lay,
                                evs,
                                slots[q],
                                min_ts(frames@),
                                rate_hz,
                                grid_len(frames@, rate_hz),
                                #[trigger] news[q],
                            )
                    }
            },
        },
{
    if frames.len() == 0 {
        return Err(export_error("the log holds no frames"));
    }
    let (start, end) = span(frames);
    if rate_hz == 0 {
        return Err(export_error("a sample rate of 0 Hz describes no grid"));
    }
    let len = ((end - start) * (rate_hz as u64) / 1_000_000) as usize + 1;
    let msgs = db.messages();
    let order = message_order(msgs);
    let count = msgs.len();
    proof {
        lemma_message_order(msgs@, count as int);
    }
    let lay = layout_of(msgs, order.as_slice());
    proof {
        lemma_entries_bounds(msgs@, order@, order@.len() as int);
    }
    let table = slot_table(msgs, lay.as_slice());
    let (updates, skipped) = collect(db, frames, lay.as_slice(), &table, &value_bits);
    let ghost msgs_s = msgs@;
    let ghost evs = all_events(msgs_s, lay@, frames@, frames@.len() as int);
    let mut carried_count: usize = 0;
    let mut c: usize = 0;
    while c < updates.len()
        invariant
            c <= updates@.len(),
            updates@.len() == lay@.len(),
            lay@.len() + 2 <= u32::MAX,
            forall|x: int|
                0 <= x < lay@.len() ==> valued(
                    value_bits,
                    updates_of(evs, x),
                    (#[trigger] updates@[x])@,
                ),
            carried_count == carried(evs, c as int).len(),
            carried_count <= c,
        decreases updates@.len() - c,
    {
        if updates[c].len() > 0 {
            carried_count = carried_count + 1;
        }
        c = c + 1;
    }
    if carried_count == 0 {
        return Err(export_error("no signal in the database was decoded from this log"));
    }
    let bytes = match carried_count.checked_mul(len) {
        Some(x) => x,
        None => usize::MAX,
    };
    let bytes = match bytes.checked_mul(4) {
        Some(x) => x,
        None => usize::MAX,
    };
    if bytes > MAX_SAMPLE_BYTES {
        let mut reason = String::new();
        append_decimal(&mut reason, carried_count as u64);
        push_str(&mut reason, " channels at ");
        append_decimal(&mut reason, rate_hz as u64);
        push_str(&mut reason, " Hz over this log need ");
        append_decimal(&mut reason, bytes as u64);
        push_str(&mut reason, " bytes of samples; pass a lower rate");
        return Err(Error::Export { reason });
    }
    let mut session = Session::new(start, rate_hz);
    let ghost mut news: Seq<Channel> = Seq::empty();
    proof {
        lemma_grid(start, end, rate_hz);
        lemma_event_times(msgs_s, lay@, frames@, frames@.len() as int, start, end);
        assert(session@.channels =~= Seq::<Channel>::empty());
    }
    let mut c: usize = 0;
    while c < updates.len()
        invariant
            c <= updates@.len(),
            updates@.len() == lay@.len(),
            news.len() == carried(evs, c as int).len(),
            pushed_all(Seq::empty(), news, session@.channels),
            session@.channels.len() <= c,
            session@.started_at_us == start,
            session@.rate_hz == rate_hz,
            session@.driver.len() == 0,
            session@.vehicle.len() == 0,
            session@.venue.len() == 0,
            session@.event.len() == 0,
            lay@.len() + 2 <= u32::MAX,
            msgs@ == msgs_s,
            rate_hz > 0,
            start <= end,
            (end - start) * rate_hz <= u64::MAX,
            len as int == (end - start) * rate_hz / 1_000_000 + 1,
            (len - 1) * 1_000_000 <= u64::MAX,
            start + (len - 1) * 1_000_000 / (rate_hz as int) <= u64::MAX,
            forall|x: int|
                0 <= x < lay@.len() ==> (#[trigger] lay@[x]).0 < msgs@.len() && lay@[x].1
                    < msgs@[lay@[x].0 as int].signals@.len(),
            forall|x: int|
                0 <= x < lay@.len() ==> valued(
                    value_bits,
                    updates_of(evs, x),
                    (#[trigger] updates@[x])@,
                ),
            forall|x: int, j: int|
                0 <= x < lay@.len() && 0 <= j < updates_of(evs, x).len() ==> start <= (
                #[trigger] updates_of(evs, x)[j]).0 <= end,
            forall|q: int|
                0 <= q < news.len() ==> channel_for(
                    value_bits,
                    msgs_s,
                    lay@,
                    evs,
                    carried(evs, c as int)[q],
                    start,
                    rate_hz,
                    len as int,
                    #[trigger] news[q],
                ),
        decreases updates@.len() - c,
    {
        let ghost before_carried = carried(evs, c as int);
        if updates[c].len() > 0 {
            let (mi, si) = lay[c];
            let signal = &msgs[mi].signals[si];
            proof {
                assert(valued(value_bits, updates_of(evs, c as int), updates@[c as int]@));
                assert forall|j: int| 0 <= j < updates@[c as int]@.len() implies start
                    <= #[trigger] updates@[c as int]@[j].0 && (updates@[c as int]@[j].0 - start)
                    * rate_hz <= u64::MAX by {
                    let ts = updates@[c as int]@[j].0;
                    assert(ts == updates_of(evs, c as int)[j].0);
                    assert(start <= ts <= end);
                    assert((ts - start) * rate_hz <= (end - start) * rate_hz) by (nonlinear_arith)
                        requires
                            start <= ts <= end,
                    ;
                }
            }
            let samples = resample(updates[c].as_slice(), start, rate_hz, len);
            let channel = Channel::new(signal.name.as_str(), signal.unit.as_str(), samples);
            let ghost ch = channel;
            let ghost mid = session@.channels;
            proof {
                lemma_renaming_fits(mid, ch.name@);
            }
            session.push(channel);
            proof {
                assert(carried(evs, c + 1) == before_carried.push(c as int));
                let grown = news.push(ch);
                assert(grown.drop_last() =~= news);
                assert(grown.last() == ch);
                assert(pushed(mid, ch, session@.channels));
                assert(pushed_all(Seq::empty(), grown.drop_last(), mid));
                assert(pushed_all(Seq::empty(), grown, session@.channels));
                assert(channel_for(
                    value_bits,
                    msgs_s,
                    lay@,
                    evs,
                    c as int,
                    start,
                    rate_hz,
                    len as int,
                    ch,
                ));
                news = grown;
            }
        } else {
            proof {
                assert(carried(evs, c + 1) == before_carried);
            }
        }
        c = c + 1;
    }
    Ok(Sampled { session, skipped })
}

/// The grid's arithmetic stays within 64 bits when its span times its
/// rate does.
proof fn lemma_grid(start: u64, end: u64, rate: u16)
    requires
        start <= end,
        rate > 0,
        (end - start) * rate <= u64::MAX,
    ensures
        (((end - start) * rate / 1_000_000 + 1) - 1) * 1_000_000 <= u64::MAX,
        start + (((end - start) * rate / 1_000_000 + 1) - 1) * 1_000_000 / (rate as int)
            <= u64::MAX,
{
    let d = end - start;
    let r = rate as int;
    let x = d * r;
    let g = x / 1_000_000;
    assert(g * 1_000_000 <= x) by (nonlinear_arith)
        requires
            g == x / 1_000_000,
            x >= 0,
    ;
    assert(x >= 0) by (nonlinear_arith)
        requires
            x == d * r,
            d >= 0,
            r > 0,
    ;
    assert((g * 1_000_000) / r <= d) by (nonlinear_arith)
        requires
            g * 1_000_000 <= x,
            x == d * r,
            r > 0,
            g >= 0,
    ;
}

/// Every update carries the time of a frame, so it lies within the log.
proof fn lemma_event_times(
    msgs: Seq<Message>,
    lay: Seq<(usize, usize)>,
    frames: Seq<CanFrame>,
    t: int,
    start: u64,
    end: u64,
)
    requires
        0 <= t <= frames.len(),
        forall|x: int| 0 <= x < frames.len() ==> start <= #[trigger] frames[x].spec_timestamp() <= end,
    ensures
        forall|c: int, j: int|
            0 <= j < updates_of(all_events(msgs, lay, frames, t), c).len() ==> start <= (
            #[trigger] updates_of(all_events(msgs, lay, frames, t), c)[j]).0 <= end,
    decreases t,
{
    if t > 0 {
        lemma_event_times(msgs, lay, frames, t - 1, start, end);
        let before = all_events(msgs, lay, frames, t - 1);
        let fe = frame_events(msgs, lay, frames[t - 1]);
        assert forall|e: int| 0 <= e < fe.len() && fe[e] is Update implies start <= (
        #[trigger] fe[e])->ts <= end by {}
        lemma_updates_within(before, fe, start, end);
    }
}

/// Appending events whose times lie within bounds keeps every channel's
/// update times within them.
proof fn lemma_updates_within(before: Seq<Event>, more: Seq<Event>, start: u64, end: u64)
    requires
        forall|c: int, j: int|
            0 <= j < updates_of(before, c).len() ==> start <= (#[trigger] updates_of(before, c)[j]).0
                <= end,
        forall|e: int| 0 <= e < more.len() && more[e] is Update ==> start <= (#[trigger] more[e])->ts
            <= end,
    ensures
        forall|c: int, j: int|
            0 <= j < updates_of(before + more, c).len() ==> start <= (#[trigger] updates_of(
                before + more,
                c,
            )[j]).0 <= end,
    decreases more.len(),
{
    if more.len() == 0 {
        assert(before + more =~= before);
    } else {
        let shorter = more.drop_last();
        assert forall|e: int| 0 <= e < shorter.len() && shorter[e] is Update implies start <= (
        #[trigger] shorter[e])->ts <= end by {
            assert(shorter[e] == more[e]);
        }
        lemma_updates_within(before, shorter, start, end);
        let all = before + more;
        assert(all.drop_last() =~= before + shorter);
        assert(all.last() == more[more.len() - 1]);
        assert forall|c: int, j: int| 0 <= j < updates_of(all, c).len() implies start <= (
        #[trigger] updates_of(all, c)[j]).0 <= end by {
            let prev = updates_of(before + shorter, c);
            if j < prev.len() {
                assert(updates_of(all, c)[j] == prev[j]);
            } else {
                assert(more[more.len() - 1] is Update);
            }
        }
    }
}

fn export_error(text: &str) -> (e: Error)
    ensures
        e matches Error::Export { reason } && reason@ == text@,
{
    let mut reason = String::new();
    push_str(&mut reason, text);
    assert(reason@ =~= text@);
    Error::Export { reason }
}

proof fn lemma_entries_bounds(msgs: Seq<Message>, order: Seq<usize>, q: int)
    requires
        0 <= q <= order.len(),
        forall|x: int| 0 <= x < order.len() ==> #[trigger] order[x] < msgs.len(),
    ensures
        forall|c: int|
            0 <= c < entries(msgs, order, q).len() ==> (#[trigger] entries(msgs, order, q)[c]).0
                < msgs.len() && entries(msgs, order, q)[c].1 < msgs[entries(
                msgs,
                order,
                q,
            )[c].0 as int].signals@.len(),
    decreases q,
{
    if q > 0 {
        lemma_entries_bounds(msgs, order, q - 1);
    }
}

} // verus!
