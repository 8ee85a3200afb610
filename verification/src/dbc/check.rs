//! Layout problems in a database that parsed cleanly.
//!
//! The parser is lenient on purpose: a DBC with one broken message is still
//! useful for the other hundred. But a broken layout decodes silently — a
//! signal that runs past the DLC just never fits, and two overlapping
//! signals just read each other's bits — so `check` says so out loud.

use vstd::prelude::*;

use crate::dbc::types::{word_bit, lemma_words_equal_by_bits, Database, Message, Multiplexing, Signal};
use crate::decode::{bit_positions, lemma_bit_pos_in_span, required_bytes, required_len, signal_bit_pos};
use crate::frame::{id_raw, CanId, MAX_FRAME_LEN};
use crate::text::{append_decimal, push_str, string_from};

verus! {

/// One problem found by [`check`].
#[derive(Debug, Clone, PartialEq, Eq)]
pub enum Problem {
    /// A signal needs more bytes than its message declares, so it can never
    /// decode from a frame of the declared length.
    SignalPastDlc {
        /// The message the signal belongs to.
        message: String,
        /// The signal that does not fit.
        signal: String,
        /// Bytes the signal's layout requires.
        required: usize,
        /// The message's declared length.
        dlc: u8,
    },
    /// Two signals that decode together share at least one bit.
    Overlap {
        /// The message both signals belong to.
        message: String,
        /// The earlier of the two signals in DBC order.
        first: String,
        /// The later of the two.
        second: String,
    },
}

impl Problem {
    /// The problem as one line of text, naming the message first.
    pub fn describe(&self) -> (s: String)
        ensures
            s@ == problem_text(*self),
    {
        match self {
            Problem::SignalPastDlc { message, signal, required, dlc } => {
                let mut s = string_from(message.as_str());
                push_str(&mut s, ": signal `");
                push_str(&mut s, signal.as_str());
                push_str(&mut s, "` needs ");
                append_decimal(&mut s, *required as u64);
                push_str(&mut s, " byte(s) but the message declares ");
                append_decimal(&mut s, *dlc as u64);
                s
            },
            Problem::Overlap { message, first, second } => {
                let mut s = string_from(message.as_str());
                push_str(&mut s, ": signals `");
                push_str(&mut s, first.as_str());
                push_str(&mut s, "` and `");
                push_str(&mut s, second.as_str());
                push_str(&mut s, "` overlap");
                s
            },
        }
    }
}

/// The text of a problem.
pub open spec fn problem_text(p: Problem) -> Seq<char> {
    match p {
        Problem::SignalPastDlc { message, signal, required, dlc } => message@ + ": signal `"@
            + signal@ + "` needs "@ + crate::text::decimal(required as nat)
            + " byte(s) but the message declares "@ + crate::text::decimal(dlc as nat),
        Problem::Overlap { message, first, second } => message@ + ": signals `"@ + first@
            + "` and `"@ + second@ + "` overlap"@,
    }
}

/// Whether two signals can appear in the same frame: signals on different
/// multiplexor pages never do; everything else can.
pub open spec fn decode_together_spec(a: Signal, b: Signal) -> bool {
    match (a.multiplexing, b.multiplexing) {
        (Multiplexing::Multiplexed(x), Multiplexing::Multiplexed(y)) => x == y,
        _ => true,
    }
}

/// Whether two signals share a bit position inside the largest possible
/// frame. Positions beyond it cannot decode from any frame; the DLC check
/// reports those.
pub open spec fn overlap_spec(a: Signal, b: Signal) -> bool {
    exists|i: int, j: int|
        0 <= i < a.length && 0 <= j < b.length && #[trigger] signal_bit_pos(&a, i)
            == #[trigger] signal_bit_pos(&b, j) && signal_bit_pos(&a, i) < 8 * MAX_FRAME_LEN
}

/// The DLC problem for signal `s` of `m`, if it has one.
pub open spec fn past_dlc_spec(m: Message, s: Signal) -> Seq<Problem> {
    if required_len(&s) > m.dlc {
        seq![
            Problem::SignalPastDlc {
                message: m.name,
                signal: s.name,
                required: required_len(&s) as usize,
                dlc: m.dlc,
            },
        ]
    } else {
        Seq::empty()
    }
}

/// DLC problems of the first `n` signals, in order.
pub open spec fn dlc_problems(m: Message, n: int) -> Seq<Problem>
    decreases n,
{
    if n <= 0 {
        Seq::empty()
    } else {
        dlc_problems(m, n - 1) + past_dlc_spec(m, m.signals@[n - 1])
    }
}

/// The overlap problem for the pair `(i, j)` of `m`'s signals, if any.
pub open spec fn pair_problem(m: Message, i: int, j: int) -> Seq<Problem> {
    let a = m.signals@[i];
    let b = m.signals@[j];
    if decode_together_spec(a, b) && overlap_spec(a, b) {
        seq![Problem::Overlap { message: m.name, first: a.name, second: b.name }]
    } else {
        Seq::empty()
    }
}

/// Overlap problems of the pairs `(i, j)` with `i < j < end`, by `j`.
pub open spec fn row_problems(m: Message, i: int, end: int) -> Seq<Problem>
    decreases end - i,
{
    if end <= i + 1 {
        Seq::empty()
    } else {
        row_problems(m, i, end - 1) + pair_problem(m, i, end - 1)
    }
}

/// Overlap problems of every pair whose first signal is among the first
/// `n`, in DBC order: by the first signal, then by the second.
pub open spec fn overlap_problems(m: Message, n: int) -> Seq<Problem>
    decreases n,
{
    if n <= 0 {
        Seq::empty()
    } else {
        overlap_problems(m, n - 1) + row_problems(m, n - 1, m.signals@.len() as int)
    }
}

/// Every layout problem of one message: DLC problems in signal order, then
/// overlaps once per pair in DBC order.
pub open spec fn message_problems(m: Message) -> Seq<Problem> {
    dlc_problems(m, m.signals@.len() as int) + overlap_problems(m, m.signals@.len() as int)
}

/// Only two multiplexed signals on different pages never share a frame:
/// a plain signal or a multiplexor decodes together with every signal, and
/// signals on the same page decode together.
pub proof fn lemma_decode_together(a: Signal, b: Signal)
    ensures
        a.multiplexing is Plain ==> decode_together_spec(a, b),
        a.multiplexing is Multiplexor ==> decode_together_spec(a, b),
        b.multiplexing is Plain ==> decode_together_spec(a, b),
        b.multiplexing is Multiplexor ==> decode_together_spec(a, b),
        forall|x: u16, y: u16|
            a.multiplexing == Multiplexing::Multiplexed(x) && b.multiplexing
                == Multiplexing::Multiplexed(y) ==> (decode_together_spec(a, b) <==> x == y),
{
}

proof fn lemma_row_has_pair(m: Message, i: int, end: int, j: int)
    requires
        0 <= i < j < end,
    ensures
        forall|k: int|
            0 <= k < pair_problem(m, i, j).len() ==> row_problems(m, i, end).contains(
                #[trigger] pair_problem(m, i, j)[k],
            ),
    decreases end - i,
{
    if j < end - 1 {
        lemma_row_has_pair(m, i, end - 1, j);
        assert forall|k: int| 0 <= k < pair_problem(m, i, j).len() implies row_problems(
            m,
            i,
            end,
        ).contains(#[trigger] pair_problem(m, i, j)[k]) by {
            let x = pair_problem(m, i, j)[k];
            let r = row_problems(m, i, end - 1);
            let q = choose|q: int| 0 <= q < r.len() && r[q] == x;
            assert((r + pair_problem(m, i, end - 1))[q] == x);
        }
    } else {
        assert forall|k: int| 0 <= k < pair_problem(m, i, j).len() implies row_problems(
            m,
            i,
            end,
        ).contains(#[trigger] pair_problem(m, i, j)[k]) by {
            let r = row_problems(m, i, end - 1);
            assert((r + pair_problem(m, i, j))[r.len() + k] == pair_problem(m, i, j)[k]);
        }
    }
}

proof fn lemma_overlaps_have_row(m: Message, n: int, i: int, x: Problem)
    requires
        0 <= i < n,
        row_problems(m, i, m.signals@.len() as int).contains(x),
    ensures
        overlap_problems(m, n).contains(x),
    decreases n,
{
    let r = row_problems(m, n - 1, m.signals@.len() as int);
    let o = overlap_problems(m, n - 1);
    if i < n - 1 {
        lemma_overlaps_have_row(m, n - 1, i, x);
        let q = choose|q: int| 0 <= q < o.len() && o[q] == x;
        assert((o + r)[q] == x);
    } else {
        let q = choose|q: int| 0 <= q < r.len() && r[q] == x;
        assert((o + r)[o.len() + q] == x);
    }
}

/// Every pair of signals of a message that share a bit within the largest
/// frame is reported as an overlap, unless the two are multiplexed on
/// different pages: in particular a multiplexed signal that overlaps its
/// multiplexor, or a plain signal, is reported.
pub proof fn lemma_overlap_reported(m: Message, i: int, j: int)
    requires
        0 <= i < j < m.signals@.len(),
        overlap_spec(m.signals@[i], m.signals@[j]),
        !(m.signals@[i].multiplexing is Multiplexed && m.signals@[j].multiplexing is Multiplexed
            && m.signals@[i].multiplexing != m.signals@[j].multiplexing),
    ensures
        message_problems(m).contains(
            Problem::Overlap {
                message: m.name,
                first: m.signals@[i].name,
                second: m.signals@[j].name,
            },
        ),
{
    let x = Problem::Overlap { message: m.name, first: m.signals@[i].name, second: m.signals@[j].name };
    let n = m.signals@.len() as int;
    assert(decode_together_spec(m.signals@[i], m.signals@[j]));
    assert(pair_problem(m, i, j)[0] == x);
    lemma_row_has_pair(m, i, n, j);
    assert(row_problems(m, i, n).contains(pair_problem(m, i, j)[0]));
    lemma_overlaps_have_row(m, n, i, x);
    let d = dlc_problems(m, n);
    let o = overlap_problems(m, n);
    let q = choose|q: int| 0 <= q < o.len() && o[q] == x;
    assert((d + o)[d.len() + q] == x);
}

proof fn lemma_dlc_has(m: Message, n: int, i: int)
    requires
        0 <= i < n,
    ensures
        forall|k: int|
            0 <= k < past_dlc_spec(m, m.signals@[i]).len() ==> dlc_problems(m, n).contains(
                #[trigger] past_dlc_spec(m, m.signals@[i])[k],
            ),
    decreases n,
{
    let p = past_dlc_spec(m, m.signals@[i]);
    let d = dlc_problems(m, n - 1);
    let last = past_dlc_spec(m, m.signals@[n - 1]);
    if i < n - 1 {
        lemma_dlc_has(m, n - 1, i);
        assert forall|k: int| 0 <= k < p.len() implies dlc_problems(m, n).contains(#[trigger] p[k]) by {
            let q = choose|q: int| 0 <= q < d.len() && d[q] == p[k];
            assert((d + last)[q] == p[k]);
        }
    } else {
        assert forall|k: int| 0 <= k < p.len() implies dlc_problems(m, n).contains(#[trigger] p[k]) by {
            assert((d + last)[d.len() + k] == p[k]);
        }
    }
}

/// Every signal that needs more bytes than its message declares is
/// reported, with the bytes it needs and the declared length.
pub proof fn lemma_past_dlc_reported(m: Message, i: int)
    requires
        0 <= i < m.signals@.len(),
        required_len(&m.signals@[i]) > m.dlc,
    ensures
        message_problems(m).contains(
            Problem::SignalPastDlc {
                message: m.name,
                signal: m.signals@[i].name,
                required: required_len(&m.signals@[i]) as usize,
                dlc: m.dlc,
            },
        ),
{
    let n = m.signals@.len() as int;
    let x = past_dlc_spec(m, m.signals@[i])[0];
    lemma_dlc_has(m, n, i);
    let d = dlc_problems(m, n);
    let o = overlap_problems(m, n);
    let q = choose|q: int| 0 <= q < d.len() && d[q] == x;
    assert((d + o)[q] == x);
}

/// The identifier of message `i`, without its width.
pub open spec fn raw_of(msgs: Seq<Message>, i: int) -> u32 {
    id_raw(msgs[i].id)
}

/// Where a message sorts: by its numeric identifier, a standard one before
/// an extended one with the same number.
pub open spec fn msg_key(m: Message) -> int {
    id_raw(m.id) * 2 + if m.id is Extended {
        1int
    } else {
        0int
    }
}

/// The first position from `q` on in `order` whose message sorts after
/// key `r`, or the length of `order`.
pub open spec fn first_above(msgs: Seq<Message>, order: Seq<usize>, r: int, q: int) -> int
    decreases order.len() - q,
{
    if q >= order.len() {
        order.len() as int
    } else if msg_key(msgs[order[q] as int]) > r {
        q
    } else {
        first_above(msgs, order, r, q + 1)
    }
}

/// The positions of the first `n` messages in sorted order, those with the
/// same identifier and width in the order the database holds them.
pub open spec fn order_upto(msgs: Seq<Message>, n: int) -> Seq<usize>
    decreases n,
{
    if n <= 0 {
        Seq::empty()
    } else {
        let o = order_upto(msgs, n - 1);
        o.insert(first_above(msgs, o, msg_key(msgs[n - 1]), 0), (n - 1) as usize)
    }
}

/// The messages in sorted order.
pub open spec fn sorted_messages(msgs: Seq<Message>) -> Seq<Message> {
    order_upto(msgs, msgs.len() as int).map_values(|i: usize| msgs[i as int])
}

/// Whether position `k` stands somewhere in `order`.
pub open spec fn placed(order: Seq<usize>, k: int) -> bool {
    exists|q: int| 0 <= q < order.len() && order[q] == k
}

proof fn lemma_first_above(msgs: Seq<Message>, order: Seq<usize>, r: int, q: int)
    requires
        0 <= q <= order.len(),
    ensures
        q <= first_above(msgs, order, r, q) <= order.len(),
        forall|x: int|
            q <= x < first_above(msgs, order, r, q) ==> msg_key(msgs[#[trigger] order[x] as int]) <= r,
        first_above(msgs, order, r, q) < order.len() ==> msg_key(
            msgs[order[first_above(msgs, order, r, q)] as int],
        ) > r,
    decreases order.len() - q,
{
    if q < order.len() && msg_key(msgs[order[q] as int]) <= r {
        lemma_first_above(msgs, order, r, q + 1);
    }
}

/// The order in which messages are reported is a rearrangement of the
/// first `n` messages sorted by identifier: each position exactly once,
/// and no message after one that sorts later.
pub proof fn lemma_message_order(msgs: Seq<Message>, n: int)
    requires
        0 <= n <= usize::MAX,
    ensures
        order_upto(msgs, n).len() == n,
        forall|q: int| 0 <= q < n ==> #[trigger] order_upto(msgs, n)[q] < n,
        forall|k: int| 0 <= k < n ==> #[trigger] placed(order_upto(msgs, n), k),
        forall|a: int, b: int|
            0 <= a < b < n ==> order_upto(msgs, n)[a] != order_upto(msgs, n)[b],
        forall|a: int, b: int|
            0 <= a < b < n ==> msg_key(msgs[order_upto(msgs, n)[a] as int]) <= msg_key(
                msgs[order_upto(msgs, n)[b] as int],
            ),
        forall|a: int, b: int|
            0 <= a < b < n ==> raw_of(msgs, order_upto(msgs, n)[a] as int) <= raw_of(
                msgs,
                order_upto(msgs, n)[b] as int,
            ),
    decreases n,
{
    if n > 0 {
        lemma_message_order(msgs, n - 1);
        let o = order_upto(msgs, n - 1);
        let r = msg_key(msgs[n - 1]);
        lemma_first_above(msgs, o, r, 0);
        let p = first_above(msgs, o, r, 0);
        let o2 = order_upto(msgs, n);
        assert(o2 == o.insert(p, (n - 1) as usize));
        assert forall|q: int| 0 <= q < n implies #[trigger] o2[q] < n by {
            if q < p {
                assert(o2[q] == o[q]);
            } else if q > p {
                assert(o2[q] == o[q - 1]);
            }
        }
        assert forall|k: int| 0 <= k < n implies #[trigger] placed(o2, k) by {
            if k == n - 1 {
                assert(o2[p] == k);
            } else {
                assert(placed(o, k));
                let q0 = choose|q: int| 0 <= q < o.len() && o[q] == k;
                if q0 < p {
                    assert(o2[q0] == k);
                } else {
                    assert(o2[q0 + 1] == k);
                }
            }
        }
        assert forall|a: int, b: int| 0 <= a < b < n implies o2[a] != o2[b] && msg_key(
            msgs[o2[a] as int],
        ) <= msg_key(msgs[o2[b] as int]) by {
            if b < p {
                assert(o2[a] == o[a] && o2[b] == o[b]);
                assert(o[a] != o[b]);
                assert(msg_key(msgs[o[a] as int]) <= msg_key(msgs[o[b] as int]));
            } else if b == p {
                assert(o2[a] == o[a] && o2[b] == (n - 1) as usize);
                assert(o[a] < n - 1);
                assert(msg_key(msgs[o[a] as int]) <= r);
            } else if a < p {
                assert(o2[a] == o[a] && o2[b] == o[b - 1]);
                assert(o[a] != o[b - 1]);
                assert(msg_key(msgs[o[a] as int]) <= msg_key(msgs[o[b - 1] as int]));
            } else if a == p {
                assert(o2[a] == (n - 1) as usize && o2[b] == o[b - 1]);
                assert(o[b - 1] < n - 1);
                assert(msg_key(msgs[o[p] as int]) > r);
                if p < b - 1 {
                    assert(msg_key(msgs[o[p] as int]) <= msg_key(msgs[o[b - 1] as int]));
                }
            } else {
                assert(o2[a] == o[a - 1] && o2[b] == o[b - 1]);
                assert(o[a - 1] != o[b - 1]);
                assert(msg_key(msgs[o[a - 1] as int]) <= msg_key(msgs[o[b - 1] as int]));
            }
        }
        assert forall|a: int, b: int| 0 <= a < b < n implies raw_of(msgs, o2[a] as int) <= raw_of(
            msgs,
            o2[b] as int,
        ) by {
            assert(msg_key(msgs[o2[a] as int]) <= msg_key(msgs[o2[b] as int]));
        }
    }
}

/// Whether the messages of `s` come in strictly increasing sort position.
pub open spec fn strictly_sorted(s: Seq<Message>) -> bool {
    forall|a: int, b: int| 0 <= a < b < s.len() ==> msg_key(#[trigger] s[a]) < msg_key(#[trigger] s[b])
}

/// Whether no two messages of `s` share an identifier.
pub open spec fn distinct_ids(s: Seq<Message>) -> bool {
    forall|a: int, b: int| 0 <= a < b < s.len() ==> (#[trigger] s[a]).id != (#[trigger] s[b]).id
}

proof fn lemma_key_of_distinct_ids(m: Message, k: Message)
    requires
        m.id != k.id,
    ensures
        msg_key(m) != msg_key(k),
{
}

/// Two strictly sorted sequences that hold the same messages are equal.
proof fn lemma_sorted_unique(s: Seq<Message>, t: Seq<Message>)
    requires
        s.len() == t.len(),
        strictly_sorted(s),
        strictly_sorted(t),
        forall|m: Message| s.contains(m) <==> t.contains(m),
    ensures
        s == t,
    decreases s.len(),
{
    if s.len() > 0 {
        assert(s.contains(s[0]));
        assert(t.contains(t[0]));
        let j = choose|j: int| 0 <= j < t.len() && t[j] == s[0];
        let i = choose|i: int| 0 <= i < s.len() && s[i] == t[0];
        if j > 0 {
            assert(msg_key(t[0]) < msg_key(t[j]));
            if i > 0 {
                assert(msg_key(s[0]) < msg_key(s[i]));
            }
            assert(false);
        }
        let s1 = s.skip(1);
        let t1 = t.skip(1);
        assert forall|m: Message| s1.contains(m) implies t1.contains(m) by {
            let k = choose|k: int| 0 <= k < s1.len() && s1[k] == m;
            assert(s[k + 1] == m);
            assert(msg_key(s[0]) < msg_key(s[k + 1]));
            assert(t.contains(m));
            let l = choose|l: int| 0 <= l < t.len() && t[l] == m;
            assert(l != 0);
            assert(t1[l - 1] == m);
        }
        assert forall|m: Message| t1.contains(m) implies s1.contains(m) by {
            let k = choose|k: int| 0 <= k < t1.len() && t1[k] == m;
            assert(t[k + 1] == m);
            assert(msg_key(t[0]) < msg_key(t[k + 1]));
            assert(s.contains(m));
            let l = choose|l: int| 0 <= l < s.len() && s[l] == m;
            assert(l != 0);
            assert(s1[l - 1] == m);
        }
        assert forall|a: int, b: int| 0 <= a < b < s1.len() implies msg_key(#[trigger] s1[a]) < msg_key(
            #[trigger] s1[b],
        ) by {
            assert(s1[a] == s[a + 1] && s1[b] == s[b + 1]);
        }
        assert forall|a: int, b: int| 0 <= a < b < t1.len() implies msg_key(#[trigger] t1[a]) < msg_key(
            #[trigger] t1[b],
        ) by {
            assert(t1[a] == t[a + 1] && t1[b] == t[b + 1]);
        }
        lemma_sorted_unique(s1, t1);
        assert(s =~= seq![s[0]] + s1);
        assert(t =~= seq![t[0]] + t1);
    }
}

/// The sorted messages of a sequence without repeated identifiers are its
/// messages, each once, in strictly increasing sort position.
proof fn lemma_sorted_messages(msgs: Seq<Message>)
    requires
        msgs.len() <= usize::MAX,
        distinct_ids(msgs),
    ensures
        strictly_sorted(sorted_messages(msgs)),
        sorted_messages(msgs).len() == msgs.len(),
        forall|m: Message| sorted_messages(msgs).contains(m) <==> msgs.contains(m),
{
    let n = msgs.len() as int;
    lemma_message_order(msgs, n);
    let o = order_upto(msgs, n);
    let sm = sorted_messages(msgs);
    assert forall|a: int, b: int| 0 <= a < b < sm.len() implies msg_key(#[trigger] sm[a]) < msg_key(
        #[trigger] sm[b],
    ) by {
        assert(sm[a] == msgs[o[a] as int] && sm[b] == msgs[o[b] as int]);
        assert(o[a] != o[b]);
        if o[a] < o[b] {
            assert(msgs[o[a] as int].id != msgs[o[b] as int].id);
        } else {
            assert(msgs[o[b] as int].id != msgs[o[a] as int].id);
        }
        lemma_key_of_distinct_ids(msgs[o[a] as int], msgs[o[b] as int]);
    }
    assert forall|m: Message| sm.contains(m) <==> msgs.contains(m) by {
        if sm.contains(m) {
            let q = choose|q: int| 0 <= q < sm.len() && sm[q] == m;
            assert(o[q] < n);
            assert(msgs[o[q] as int] == m);
        }
        if msgs.contains(m) {
            let k = choose|k: int| 0 <= k < msgs.len() && msgs[k] == m;
            assert(placed(o, k));
            let q = choose|q: int| 0 <= q < o.len() && o[q] == k;
            assert(sm[q] == m);
        }
    }
}

/// What `check` reports depends only on which messages there are, not on
/// the order they were added in: two sequences without repeated
/// identifiers that hold the same messages sort alike and give the same
/// problems.
pub proof fn lemma_check_ignores_insertion_order(a: Seq<Message>, b: Seq<Message>)
    requires
        a.len() == b.len(),
        a.len() <= usize::MAX,
        distinct_ids(a),
        distinct_ids(b),
        forall|m: Message| a.contains(m) <==> b.contains(m),
    ensures
        sorted_messages(a) == sorted_messages(b),
        problems_of(sorted_messages(a)) == problems_of(sorted_messages(b)),
{
    lemma_sorted_messages(a);
    lemma_sorted_messages(b);
    assert forall|m: Message| sorted_messages(a).contains(m) <==> sorted_messages(b).contains(m) by {
        assert(sorted_messages(a).contains(m) <==> a.contains(m));
        assert(sorted_messages(b).contains(m) <==> b.contains(m));
    }
    lemma_sorted_unique(sorted_messages(a), sorted_messages(b));
}

/// Two databases that hold the same messages give the same problems,
/// whatever order the messages were added in.
pub proof fn lemma_check_same_messages(d1: &Database, d2: &Database)
    requires
        d1.well_formed(),
        d2.well_formed(),
        d1.spec_messages().len() == d2.spec_messages().len(),
        d1.spec_messages().len() <= usize::MAX,
        forall|m: Message| d1.spec_messages().contains(m) <==> d2.spec_messages().contains(m),
    ensures
        problems_of(sorted_messages(d1.spec_messages())) == problems_of(
            sorted_messages(d2.spec_messages()),
        ),
{
    assert forall|x: int, y: int| 0 <= x < y < d1.spec_messages().len() implies (
    #[trigger] d1.spec_messages()[x]).id != (#[trigger] d1.spec_messages()[y]).id by {
        d1.lemma_unique_ids(x, y);
    }
    assert forall|x: int, y: int| 0 <= x < y < d2.spec_messages().len() implies (
    #[trigger] d2.spec_messages()[x]).id != (#[trigger] d2.spec_messages()[y]).id by {
        d2.lemma_unique_ids(x, y);
    }
    lemma_check_ignores_insertion_order(d1.spec_messages(), d2.spec_messages());
}

/// Where a message sorts, as a machine number.
fn key_of_id(id: CanId) -> (k: u64)
    ensures
        k == id_raw(id) * 2 + if id is Extended {
            1int
        } else {
            0int
        },
{
    match id {
        CanId::Standard(v) => (v as u64) * 2,
        CanId::Extended(v) => (v as u64) * 2 + 1,
    }
}

/// The positions of the messages in sorted order.
pub(crate) fn message_order(msgs: &[Message]) -> (o: Vec<usize>)
    ensures
        o@ == order_upto(msgs@, msgs@.len() as int),
{
    let mut o: Vec<usize> = Vec::new();
    let mut n: usize = 0;
    while n < msgs.len()
        invariant
            n <= msgs@.len(),
            o@ == order_upto(msgs@, n as int),
        decreases msgs@.len() - n,
    {
        proof {
            lemma_message_order(msgs@, n as int);
        }
        let r = key_of_id(msgs[n].id);
        let mut p: usize = 0;
        while p < o.len() && key_of_id(msgs[o[p]].id) <= r
            invariant
                n < msgs@.len(),
                p <= o@.len(),
                o@ == order_upto(msgs@, n as int),
                o@.len() == n,
                forall|q: int| 0 <= q < n ==> #[trigger] o@[q] < n,
                r == msg_key(msgs@[n as int]),
                first_above(msgs@, o@, r as int, 0) == first_above(msgs@, o@, r as int, p as int),
            decreases o@.len() - p,
        {
            p = p + 1;
        }
        o.insert(p, n);
        n = n + 1;
    }
    o
}

/// The layout problems of messages, in order, each message's grouped.
pub open spec fn problems_of(messages: Seq<Message>) -> Seq<Problem>
    decreases messages.len(),
{
    if messages.len() == 0 {
        Seq::empty()
    } else {
        problems_of(messages.drop_last()) + message_problems(messages.last())
    }
}

/// Every layout problem in the database, grouped by message, the messages
/// in ascending order of identifier, a standard identifier before an
/// extended one with the same number.
pub fn check(db: &Database) -> (problems: Vec<Problem>)
    requires
        db.decodable(),
    ensures
        problems@ == problems_of(sorted_messages(db.spec_messages())),
{
    let messages = db.messages();
    let order = message_order(messages);
    let ghost sorted = sorted_messages(messages@);
    let count = messages.len();
    proof {
        lemma_message_order(messages@, count as int);
    }
    let mut out: Vec<Problem> = Vec::new();
    let mut q: usize = 0;
    while q < order.len()
        invariant
            messages@ == db.spec_messages(),
            db.decodable(),
            order@ == order_upto(messages@, messages@.len() as int),
            sorted == sorted_messages(messages@),
            order@.len() == messages@.len(),
            forall|x: int| 0 <= x < order@.len() ==> #[trigger] order@[x] < messages@.len(),
            q <= order@.len(),
            out@ == problems_of(sorted.take(q as int)),
        decreases order@.len() - q,
    {
        let i = order[q];
        assert(messages@[i as int].well_formed());
        let mut found = check_message(&messages[i]);
        proof {
            assert(sorted.take(q + 1).drop_last() =~= sorted.take(q as int));
            assert(sorted.take(q + 1).last() == messages@[i as int]);
        }
        out.append(&mut found);
        q = q + 1;
    }
    assert(sorted.take(order@.len() as int) =~= sorted);
    out
}

fn check_message(message: &Message) -> (problems: Vec<Problem>)
    requires
        message.well_formed(),
    ensures
        problems@ == message_problems(*message),
{
    let n = message.signals.len();
    let mut problems: Vec<Problem> = Vec::new();
    let mut i: usize = 0;
    while i < n
        invariant
            message.well_formed(),
            n == message.signals@.len(),
            i <= n,
            problems@ == dlc_problems(*message, i as int),
        decreases n - i,
    {
        assert(message.signals@[i as int].well_formed());
        match past_dlc(message, &message.signals[i]) {
            Some(p) => problems.push(p),
            None => {},
        }
        i = i + 1;
    }
    let mut masks: Vec<BitMask> = Vec::new();
    let mut k: usize = 0;
    while k < n
        invariant
            message.well_formed(),
            n == message.signals@.len(),
            k <= n,
            masks@.len() == k,
            forall|j: int| 0 <= j < k ==> (#[trigger] masks@[j]).represents(message.signals@[j]),
        decreases n - k,
    {
        assert(message.signals@[k as int].well_formed());
        masks.push(BitMask::of(&message.signals[k]));
        k = k + 1;
    }
    let ghost dlc_part = problems@;
    let mut a: usize = 0;
    while a < n
        invariant
            message.well_formed(),
            n == message.signals@.len(),
            masks@.len() == n,
            forall|j: int| 0 <= j < n ==> (#[trigger] masks@[j]).represents(message.signals@[j]),
            a <= n,
            dlc_part == dlc_problems(*message, n as int),
            problems@ == dlc_part + overlap_problems(*message, a as int),
        decreases n - a,
    {
        let ghost before = problems@;
        let mut b: usize = a + 1;
        while b < n
            invariant
                message.well_formed(),
                n == message.signals@.len(),
                masks@.len() == n,
                forall|j: int| 0 <= j < n ==> (#[trigger] masks@[j]).represents(message.signals@[j]),
                a < n,
                a + 1 <= b <= n,
                problems@ == before + row_problems(*message, a as int, b as int),
            decreases n - b,
        {
            let sa = &message.signals[a];
            let sb = &message.signals[b];
            if decode_together(sa, sb) && masks[a].intersects(&masks[b]) {
                problems.push(
                    Problem::Overlap {
                        message: message.name.clone(),
                        first: sa.name.clone(),
                        second: sb.name.clone(),
                    },
                );
            }
            b = b + 1;
        }
        proof {
            if a + 1 >= n {
                assert(row_problems(*message, a as int, n as int) == Seq::<Problem>::empty());
            }
            assert(problems@ == dlc_part + overlap_problems(*message, a as int) + row_problems(
                *message,
                a as int,
                n as int,
            ));
            assert(dlc_part + overlap_problems(*message, a + 1) == dlc_part + overlap_problems(
                *message,
                a as int,
            ) + row_problems(*message, a as int, n as int));
        }
        a = a + 1;
    }
    problems
}

fn past_dlc(message: &Message, signal: &Signal) -> (p: Option<Problem>)
    requires
        signal.well_formed(),
    ensures
        past_dlc_spec(*message, *signal) == match p {
            Some(x) => seq![x],
            None => Seq::<Problem>::empty(),
        },
{
    let required = required_bytes(signal);
    if required > message.dlc as usize {
        Some(
            Problem::SignalPastDlc {
                message: message.name.clone(),
                signal: signal.name.clone(),
                required,
                dlc: message.dlc,
            },
        )
    } else {
        None
    }
}

/// Signals on different multiplexor pages never appear in the same frame,
/// so they may share bits. Everything else can.
fn decode_together(a: &Signal, b: &Signal) -> (r: bool)
    ensures
        r == decode_together_spec(*a, *b),
{
    match (a.multiplexing, b.multiplexing) {
        (Multiplexing::Multiplexed(x), Multiplexing::Multiplexed(y)) => x == y,
        _ => true,
    }
}

/// One bit per position of the largest possible frame.
struct BitMask {
    words: [u64; 8],
}

impl BitMask {
    /// Bit `p` is set exactly when `signal` occupies position `p`.
    spec fn represents(&self, signal: Signal) -> bool {
        &&& signal.well_formed()
        &&& forall|w: int, b: int|
            0 <= w < 8 && 0 <= b < 64 ==> (#[trigger] word_bit(self.words@[w], b) == 1 <==> exists|
                i: int,
            |
                0 <= i < signal.length && #[trigger] signal_bit_pos(&signal, i) == 64 * w + b)
    }

    fn of(signal: &Signal) -> (m: BitMask)
        requires
            signal.well_formed(),
        ensures
            m.represents(*signal),
    {
        let positions = bit_positions(signal);
        let mut words = [0u64; 8];
        proof {
            assert forall|w: int, b: int| 0 <= w < 8 && 0 <= b < 64 implies #[trigger] word_bit(words@[w], b) == 0 by {
                let bu = b as u64;
                assert(bu < 64 ==> (0u64 >> bu) & 1 == 0) by (bit_vector);
            }
        }
        let mut k: usize = 0;
        while k < positions.len()
            invariant
                signal.well_formed(),
                positions@.len() == signal.length,
                forall|i: int|
                    0 <= i < signal.length ==> positions@[i] == #[trigger] signal_bit_pos(signal, i),
                k <= positions@.len(),
                words@.len() == 8,
                forall|w: int, b: int|
                    0 <= w < 8 && 0 <= b < 64 ==> (#[trigger] word_bit(words@[w], b) == 1 <==> exists|
                        i: int,
                    | 0 <= i < k && #[trigger] signal_bit_pos(signal, i) == 64 * w + b),
            decreases positions@.len() - k,
        {
            let pos = positions[k];
            if pos < 8 * MAX_FRAME_LEN {
                let w = pos / 64;
                let bit = (pos % 64) as u64;
                let old_word = words[w];
                let ghost old_words = words@;
                words[w] = old_word | (1u64 << bit);
                proof {
                    assert(signal_bit_pos(signal, k as int) == 64 * w + bit);
                    assert forall|ww: int, b: int| 0 <= ww < 8 && 0 <= b < 64 implies (#[trigger] word_bit(words@[ww], b) == 1 <==> exists|i: int|
                        0 <= i < k + 1 && #[trigger] signal_bit_pos(signal, i) == 64 * ww + b) by {
                        let bu = b as u64;
                        let old_has = exists|i: int|
                            0 <= i < k && #[trigger] signal_bit_pos(signal, i) == 64 * ww + b;
                        assert(word_bit(old_words[ww], b) == 1 <==> old_has);
                        let new_has = exists|i: int|
                            0 <= i < k + 1 && #[trigger] signal_bit_pos(signal, i) == 64 * ww + b;
                        if old_has {
                            let i = choose|i: int|
                                0 <= i < k && #[trigger] signal_bit_pos(signal, i) == 64 * ww + b;
                            assert(0 <= i < k + 1 && signal_bit_pos(signal, i) == 64 * ww + b);
                        }
                        if new_has {
                            let i = choose|i: int|
                                0 <= i < k + 1 && #[trigger] signal_bit_pos(signal, i) == 64 * ww + b;
                            if i < k {
                                assert(old_has);
                            } else {
                                assert(64 * w + bit == 64 * ww + b);
                                assert(ww == w && b == bit);
                            }
                        }
                        if ww == w {
                            assert(bu < 64 && bit < 64 ==> (((old_word | (1u64 << bit)) >> bu) & 1
                                == 1 <==> ((old_word >> bu) & 1 == 1 || bu == bit))) by (bit_vector);
                            if b == bit {
                                assert(signal_bit_pos(signal, k as int) == 64 * ww + b);
                                assert(new_has);
                            }
                        } else {
                            assert(words@[ww] == old_words[ww]);
                            assert(64 * w + bit != 64 * ww + b);
                        }
                    }
                }
            } else {
                proof {
                    assert forall|ww: int, b: int| 0 <= ww < 8 && 0 <= b < 64 implies (#[trigger] word_bit(words@[ww], b) == 1 <==> exists|i: int|
                        0 <= i < k + 1 && #[trigger] signal_bit_pos(signal, i) == 64 * ww + b) by {
                        if exists|i: int|
                            0 <= i < k + 1 && #[trigger] signal_bit_pos(signal, i) == 64 * ww + b {
                            let i = choose|i: int|
                                0 <= i < k + 1 && #[trigger] signal_bit_pos(signal, i) == 64 * ww + b;
                            if i < k {
                                assert(exists|i2: int|
                                    0 <= i2 < k && #[trigger] signal_bit_pos(signal, i2) == 64 * ww + b);
                            }
                        }
                    }
                }
            }
            k = k + 1;
        }
        BitMask { words }
    }

    /// Whether the two masks share a set bit.
    fn intersects(&self, other: &BitMask) -> (r: bool)
        ensures
            forall|a: Signal, b: Signal|
                self.represents(a) && other.represents(b) ==> (r == overlap_spec(a, b)),
    {
        let mut w: usize = 0;
        while w < 8
            invariant
                w <= 8,
                forall|ww: int, b: int|
                    0 <= ww < w && 0 <= b < 64 ==> !(word_bit(self.words@[ww], b) == 1 && word_bit(
                        other.words@[ww],
                        b,
                    ) == 1),
            decreases 8 - w,
        {
            let x = self.words[w];
            let y = other.words[w];
            if x & y != 0 {
                proof {
                    if forall|b: int| 0 <= b < 64 ==> !(word_bit(x, b) == 1 && word_bit(y, b) == 1) {
                        assert forall|b: int| 0 <= b < 64 implies #[trigger] word_bit(x & y, b)
                            == word_bit(0, b) by {
                            let bu = b as u64;
                            assert(!(word_bit(x, b) == 1 && word_bit(y, b) == 1));
                            assert(bu < 64 && !((x >> bu) & 1 == 1 && (y >> bu) & 1 == 1) ==> ((x & y) >> bu) & 1 == (0u64 >> bu) & 1) by (bit_vector);
                        }
                        lemma_words_equal_by_bits(x & y, 0);
                    }
                    let bb = choose|b: int| 0 <= b < 64 && word_bit(x, b) == 1 && word_bit(y, b) == 1;
                    assert forall|a: Signal, b: Signal|
                        self.represents(a) && other.represents(b) implies overlap_spec(a, b) by {
                        assert(word_bit(self.words@[w as int], bb) == 1);
                        assert(word_bit(other.words@[w as int], bb) == 1);
                        let i = choose|i: int|
                            0 <= i < a.length && #[trigger] signal_bit_pos(&a, i) == 64 * w + bb;
                        let j = choose|j: int|
                            0 <= j < b.length && #[trigger] signal_bit_pos(&b, j) == 64 * w + bb;
                        assert(signal_bit_pos(&a, i) == signal_bit_pos(&b, j));
                    }
                }
                return true;
            }
            proof {
                assert forall|b: int| 0 <= b < 64 implies !(word_bit(self.words@[w as int], b) == 1
                    && word_bit(other.words@[w as int], b) == 1) by {
                    let bu = b as u64;
                    assert(bu < 64 && x & y == 0 ==> !((x >> bu) & 1 == 1 && (y >> bu) & 1 == 1)) by (bit_vector);
                }
            }
            w = w + 1;
        }
        proof {
            assert forall|a: Signal, b: Signal|
                self.represents(a) && other.represents(b) implies !overlap_spec(a, b) by {
                if overlap_spec(a, b) {
                    let (i, j) = choose|i: int, j: int|
                        0 <= i < a.length && 0 <= j < b.length && #[trigger] signal_bit_pos(&a, i)
                            == #[trigger] signal_bit_pos(&b, j) && signal_bit_pos(&a, i) < 8
                            * MAX_FRAME_LEN;
                    lemma_bit_pos_in_span(&a, i);
                    let p = signal_bit_pos(&a, i);
                    let ww = p / 64;
                    let bb = p % 64;
                    assert(signal_bit_pos(&a, i) == 64 * ww + bb);
                    assert(signal_bit_pos(&b, j) == 64 * ww + bb);
                    assert(word_bit(self.words@[ww], bb) == 1);
                    assert(word_bit(other.words@[ww], bb) == 1);
                }
            }
        }
        false
    }
}

} // verus!
