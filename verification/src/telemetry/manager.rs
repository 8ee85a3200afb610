//! The alert lifecycle: the rules that raise alerts, which alerts are
//! active, the history of those raised, how often a channel may raise one,
//! and when acknowledged alerts expire.

use vstd::prelude::*;

use std::collections::VecDeque;

use crate::telemetry::alerts::AlertEngineConfig;
use crate::telemetry::base::{moment_nanos, Alert, AlertSeverity, ChannelId, UtcMoment};
use crate::telemetry::entries::{
    has_key, key_slot, keys_distinct, lemma_key_slot, upsert_entry, without_key,
};

verus! {

/// Whether an alert in `s` has identifier `id`.
pub open spec fn has_alert(s: Seq<Alert>, id: u128) -> bool {
    exists|i: int| 0 <= i < s.len() && s[i].id == id
}

/// Where the alert with identifier `id` stands in `s`.
pub open spec fn alert_slot(s: Seq<Alert>, id: u128) -> int {
    choose|i: int| 0 <= i < s.len() && s[i].id == id
}

/// No two alerts of `s` share an identifier.
pub open spec fn alert_ids_distinct(s: Seq<Alert>) -> bool {
    forall|i: int, j: int| 0 <= i < j < s.len() ==> s[i].id != s[j].id
}

/// `s` with `a` in place of the alert that has its identifier, or with `a`
/// after the others when none has.
pub open spec fn upsert_alert(s: Seq<Alert>, a: Alert) -> Seq<Alert> {
    if has_alert(s, a.id) {
        s.update(alert_slot(s, a.id), a)
    } else {
        s.push(a)
    }
}

/// The last `n` items of `s`, or all of them when there are no more.
pub open spec fn last_n<T>(s: Seq<T>, n: nat) -> Seq<T> {
    if s.len() > n {
        s.subrange(s.len() - n, s.len() as int)
    } else {
        s
    }
}

proof fn lemma_alert_slot(s: Seq<Alert>, i: int)
    requires
        alert_ids_distinct(s),
        0 <= i < s.len(),
    ensures
        has_alert(s, s[i].id),
        alert_slot(s, s[i].id) == i,
{
    let j = alert_slot(s, s[i].id);
    assert(0 <= j < s.len() && s[j].id == s[i].id);
}


/// Append `alert` to `history`, then drop its oldest alerts until at most
/// `max` are left.
fn push_trimmed(history: &mut VecDeque<Alert>, alert: Alert, max: usize)
    ensures
        final(history)@ == last_n(old(history)@.push(alert), max as nat),
{
    let ghost full = history@.push(alert);
    history.push_back(alert);
    while history.len() > max
        invariant
            history@.len() <= full.len(),
            history@ == full.subrange(full.len() - history@.len(), full.len() as int),
            history@.len() >= if full.len() < max {
                full.len()
            } else {
                max as nat
            },
        decreases history@.len(),
    {
        let _ = history.pop_front();
        assert(history@ =~= full.subrange(full.len() - history@.len(), full.len() as int));
    }
    assert(full.subrange(0, full.len() as int) =~= full);
}

/// Rate-limit state of one channel.
#[derive(Debug, Clone, Copy, PartialEq, Eq, Structural)]
pub struct RateLimitState {
    pub last_alert_time: UtcMoment,
    pub alert_count: usize,
    pub window_start: UtcMoment,
}

/// A span of `ms` milliseconds in nanoseconds, the count taken as an `i64`
/// as chrono's `Duration::milliseconds` takes it.
pub open spec fn span_nanos(ms: u64) -> int {
    (ms as i64) * 1_000_000
}

/// Whether the span from `start` to `now` is longer than `ms` milliseconds.
pub open spec fn longer_than(start: UtcMoment, now: UtcMoment, ms: u64) -> bool {
    moment_nanos(now) - moment_nanos(start) > span_nanos(ms)
}

/// The state of a channel that has not raised an alert before `now`.
pub open spec fn fresh_state(now: UtcMoment) -> RateLimitState {
    RateLimitState { last_alert_time: now, alert_count: 0, window_start: now }
}

/// The rate-limit state of `channel` in `states` when an alert comes at
/// `now`: the one kept, or a fresh one.
pub open spec fn state_for(
    states: Seq<(ChannelId, RateLimitState)>,
    channel: ChannelId,
    now: UtcMoment,
) -> RateLimitState {
    if has_key(states, channel) {
        states[key_slot(states, channel)].1
    } else {
        fresh_state(now)
    }
}

/// `st` at `now`: a new window with no alerts counted when the current one
/// is longer than `window_ms`, else unchanged.
pub open spec fn rewindowed(st: RateLimitState, window_ms: u64, now: UtcMoment) -> RateLimitState {
    if longer_than(st.window_start, now, window_ms) {
        RateLimitState { alert_count: 0, window_start: now, ..st }
    } else {
        st
    }
}

/// Whether a channel in state `st` may raise an alert at `now`: fewer than
/// the allowed number counted in its window.
pub open spec fn admits(st: RateLimitState, config: AlertEngineConfig, now: UtcMoment) -> bool {
    rewindowed(st, config.rate_limit_window_ms, now).alert_count < config.max_alerts_per_channel
}

/// The state of a channel in state `st` after an alert at `now` was
/// admitted, counted and timed, or refused.
pub open spec fn decided(st: RateLimitState, config: AlertEngineConfig, now: UtcMoment) -> RateLimitState {
    let w = rewindowed(st, config.rate_limit_window_ms, now);
    if admits(st, config, now) {
        RateLimitState { last_alert_time: now, alert_count: (w.alert_count + 1) as usize, ..w }
    } else {
        w
    }
}

/// Whether deciding on an alert of `channel` at `now` turns `states` into
/// `after` with answer `admitted`.
pub open spec fn rate_decision(
    states: Seq<(ChannelId, RateLimitState)>,
    channel: ChannelId,
    config: AlertEngineConfig,
    now: UtcMoment,
    after: Seq<(ChannelId, RateLimitState)>,
    admitted: bool,
) -> bool {
    let st = state_for(states, channel, now);
    &&& admitted == admits(st, config, now)
    &&& after == upsert_entry(states, channel, decided(st, config, now))
}

/// Whether `a` was acknowledged and, at `now`, is older than `timeout_ms`
/// milliseconds; its timestamp is read as an `i64` count of nanoseconds, as
/// chrono reads it.
pub open spec fn expired(a: Alert, timeout_ms: u64, now: UtcMoment) -> bool {
    a.acknowledged && moment_nanos(now) - ((a.timestamp.nanos as i64) as int) > span_nanos(timeout_ms)
}

/// Whether an alert stays at `now`: it has not expired.
pub open spec fn stays(timeout_ms: u64, now: UtcMoment) -> spec_fn(Alert) -> bool {
    |a: Alert| !expired(a, timeout_ms, now)
}

/// The alerts of `s` that have not expired at `now`, in order.
pub open spec fn unexpired(s: Seq<Alert>, timeout_ms: u64, now: UtcMoment) -> Seq<Alert> {
    s.filter(stays(timeout_ms, now))
}

/// The alerts of `results`, in order, leaving out the `None`s.
pub open spec fn raised(results: Seq<Option<Alert>>) -> Seq<Alert> {
    results.filter_map(|o: Option<Alert>| o)
}

/// Counts over the alerts a manager keeps.
#[derive(Debug, Clone)]
pub struct AlertStats {
    /// Alerts in the history.
    pub total_alerts: usize,
    pub active_alerts: usize,
    pub acknowledged_alerts: usize,
    /// Active alerts that are critical or emergencies.
    pub critical_alerts: usize,
    pub warning_alerts: usize,
    pub info_alerts: usize,
    /// Active alerts per channel, each channel with active alerts once.
    pub alerts_by_channel: Vec<(ChannelId, usize)>,
}

/// Whether `a` is critical or an emergency.
pub open spec fn is_critical(a: Alert) -> bool {
    a.severity is Critical || a.severity is Emergency
}

/// The alerts of `s` that satisfy `p`.
pub open spec fn count_where(s: Seq<Alert>, p: spec_fn(Alert) -> bool) -> nat {
    s.filter(p).len()
}

/// Whether an alert is on `channel`.
pub open spec fn on_channel(channel: ChannelId) -> spec_fn(Alert) -> bool {
    |a: Alert| a.channel_id == channel
}

/// Whether `stats` counts the alerts `active` and `history`: the totals,
/// the acknowledged ones, those of each severity (critical and emergency
/// together), and those of each channel that has any.
pub open spec fn counts(stats: AlertStats, active: Seq<Alert>, history: Seq<Alert>) -> bool {
    let by = stats.alerts_by_channel@;
    &&& stats.total_alerts == history.len()
    &&& stats.active_alerts == active.len()
    &&& stats.acknowledged_alerts == count_where(active, |a: Alert| a.acknowledged)
    &&& stats.critical_alerts == count_where(active, |a: Alert| is_critical(a))
    &&& stats.warning_alerts == count_where(active, |a: Alert| a.severity is Warning)
    &&& stats.info_alerts == count_where(active, |a: Alert| a.severity is Info)
    &&& keys_distinct(by)
    &&& forall|c: ChannelId| has_key(by, c) <==> exists|i: int| 0 <= i < active.len() && active[i].channel_id == c
    &&& forall|k: int| 0 <= k < by.len() ==> (#[trigger] by[k]).1 == count_where(active, on_channel(by[k].0))
}

proof fn lemma_filter_step<A>(s: Seq<A>, p: spec_fn(A) -> bool, i: int)
    requires
        0 <= i < s.len(),
    ensures
        s.take(i + 1).filter(p) == if p(s[i]) {
            s.take(i).filter(p).push(s[i])
        } else {
            s.take(i).filter(p)
        },
{
    reveal(Seq::filter);
    assert(s.take(i + 1).drop_last() =~= s.take(i));
}

proof fn lemma_filter_none<A>(s: Seq<A>, p: spec_fn(A) -> bool)
    requires
        forall|j: int| 0 <= j < s.len() ==> !p(#[trigger] s[j]),
    ensures
        s.filter(p).len() == 0,
{
    if s.filter(p).len() > 0 {
        s.lemma_filter_pred(p, 0);
        s.lemma_filter_contains_rev(p, s.filter(p)[0]);
    }
}

/// Keeps the rules, the active alerts and the history of raised alerts,
/// and limits how often each channel may raise one. Alert identifiers and
/// rule identifiers are UUIDs as their 128 bits; `R` is whatever evaluates
/// a rule.
pub struct AlertManager<R> {
    rules: Vec<(u128, R)>,
    active_alerts: Vec<Alert>,
    alert_history: VecDeque<Alert>,
    max_active_alerts: usize,
    max_history_size: usize,
    rate_limiting: Vec<(ChannelId, RateLimitState)>,
}

impl<R> AlertManager<R> {
    /// The rules by identifier, in the order they were first added.
    pub closed spec fn rules(&self) -> Seq<(u128, R)> {
        self.rules@
    }

    /// The active alerts, in the order they became active.
    pub closed spec fn active(&self) -> Seq<Alert> {
        self.active_alerts@
    }

    /// The alerts raised, oldest first.
    pub closed spec fn history(&self) -> Seq<Alert> {
        self.alert_history@
    }

    /// The rate-limit state of each channel that raised an alert, in the
    /// order the channels first did.
    pub closed spec fn rate_states(&self) -> Seq<(ChannelId, RateLimitState)> {
        self.rate_limiting@
    }

    /// How many alerts may be active at once.
    pub closed spec fn max_active(&self) -> nat {
        self.max_active_alerts as nat
    }

    /// How many raised alerts the history keeps.
    pub closed spec fn max_history(&self) -> nat {
        self.max_history_size as nat
    }

    /// Identifiers and channels are unique, and neither the active alerts
    /// nor the history are over their limits.
    pub closed spec fn well_formed(&self) -> bool {
        &&& keys_distinct(self.rules@)
        &&& alert_ids_distinct(self.active_alerts@)
        &&& self.active_alerts@.len() <= self.max_active_alerts
        &&& self.alert_history@.len() <= self.max_history_size
        &&& keys_distinct(self.rate_limiting@)
    }

    /// A manager with no rules and no alerts that keeps at most
    /// `max_active_alerts` alerts active and the last `max_history_size`
    /// raised.
    pub fn new(max_active_alerts: usize, max_history_size: usize) -> (m: Self)
        ensures
            m.well_formed(),
            m.rules() == Seq::<(u128, R)>::empty(),
            m.active() == Seq::<Alert>::empty(),
            m.history() == Seq::<Alert>::empty(),
            m.rate_states() == Seq::<(ChannelId, RateLimitState)>::empty(),
            m.max_active() == max_active_alerts,
            m.max_history() == max_history_size,
    {
        AlertManager {
            rules: Vec::new(),
            active_alerts: Vec::new(),
            alert_history: VecDeque::new(),
            max_active_alerts,
            max_history_size,
            rate_limiting: Vec::new(),
        }
    }

    fn rule_position(&self, id: u128) -> (r: Option<usize>)
        requires
            keys_distinct(self.rules@),
        ensures
            match r {
                Some(i) => i < self.rules@.len() && self.rules@[i as int].0 == id && key_slot(
                    self.rules@,
                    id,
                ) == i && has_key(self.rules@, id),
                None => !has_key(self.rules@, id),
            },
    {
        let mut i: usize = 0;
        while i < self.rules.len()
            invariant
                i <= self.rules@.len(),
                keys_distinct(self.rules@),
                forall|j: int| 0 <= j < i ==> (#[trigger] self.rules@[j]).0 != id,
            decreases self.rules@.len() - i,
        {
            if self.rules[i].0 == id {
                proof {
                    lemma_key_slot(self.rules@, i as int);
                }
                return Some(i);
            }
            i = i + 1;
        }
        None
    }

    /// Add `rule` under `id`, replacing the rule that had it.
    pub fn add_rule(&mut self, id: u128, rule: R)
        requires
            old(self).well_formed(),
        ensures
            final(self).well_formed(),
            final(self).rules() == upsert_entry(old(self).rules(), id, rule),
            final(self).active() == old(self).active(),
            final(self).history() == old(self).history(),
            final(self).rate_states() == old(self).rate_states(),
            final(self).max_active() == old(self).max_active(),
            final(self).max_history() == old(self).max_history(),
    {
        match self.rule_position(id) {
            Some(i) => {
                self.rules.set(i, (id, rule));
            },
            None => {
                self.rules.push((id, rule));
            },
        }
    }

    /// Remove the rule with identifier `rule_id`; whether there was one.
    pub fn remove_rule(&mut self, rule_id: u128) -> (removed: bool)
        requires
            old(self).well_formed(),
        ensures
            final(self).well_formed(),
            removed == has_key(old(self).rules(), rule_id),
            final(self).rules() == without_key(old(self).rules(), rule_id),
            final(self).active() == old(self).active(),
            final(self).history() == old(self).history(),
            final(self).rate_states() == old(self).rate_states(),
            final(self).max_active() == old(self).max_active(),
            final(self).max_history() == old(self).max_history(),
    {
        match self.rule_position(rule_id) {
            Some(i) => {
                let _ = self.rules.remove(i);
                true
            },
            None => false,
        }
    }

    fn active_position(&self, id: u128) -> (r: Option<usize>)
        requires
            alert_ids_distinct(self.active_alerts@),
        ensures
            match r {
                Some(i) => i < self.active_alerts@.len() && self.active_alerts@[i as int].id == id
                    && alert_slot(self.active_alerts@, id) == i && has_alert(
                    self.active_alerts@,
                    id,
                ),
                None => !has_alert(self.active_alerts@, id),
            },
    {
        let mut i: usize = 0;
        while i < self.active_alerts.len()
            invariant
                i <= self.active_alerts@.len(),
                alert_ids_distinct(self.active_alerts@),
                forall|j: int| 0 <= j < i ==> (#[trigger] self.active_alerts@[j]).id != id,
            decreases self.active_alerts@.len() - i,
        {
            if self.active_alerts[i].id == id {
                proof {
                    lemma_alert_slot(self.active_alerts@, i as int);
                }
                return Some(i);
            }
            i = i + 1;
        }
        None
    }

    /// Record a raised alert: it becomes active, replacing the active alert
    /// with its identifier, unless as many alerts as allowed are active
    /// already; and it joins the history, which then drops its oldest alerts
    /// down to the limit.
    pub fn add_alert(&mut self, alert: Alert)
        requires
            old(self).well_formed(),
        ensures
            final(self).well_formed(),
            final(self).active() == if old(self).active().len() < old(self).max_active() {
                upsert_alert(old(self).active(), alert)
            } else {
                old(self).active()
            },
            final(self).history() == last_n(old(self).history().push(alert), old(self).max_history()),
            final(self).rules() == old(self).rules(),
            final(self).rate_states() == old(self).rate_states(),
            final(self).max_active() == old(self).max_active(),
            final(self).max_history() == old(self).max_history(),
    {
        if self.active_alerts.len() < self.max_active_alerts {
            let copy = alert.duplicate();
            match self.active_position(copy.id) {
                Some(i) => {
                    self.active_alerts.set(i, copy);
                },
                None => {
                    self.active_alerts.push(copy);
                },
            }
        }
        push_trimmed(&mut self.alert_history, alert, self.max_history_size);
    }

    /// Mark the active alert with identifier `alert_id` acknowledged; whether
    /// there was one. Who acknowledged it is not kept.
    pub fn acknowledge_alert(&mut self, alert_id: u128, _user: String) -> (found: bool)
        requires
            old(self).well_formed(),
        ensures
            final(self).well_formed(),
            found == has_alert(old(self).active(), alert_id),
            final(self).active() == if found {
                old(self).active().update(
                    alert_slot(old(self).active(), alert_id),
                    Alert {
                        acknowledged: true,
                        ..old(self).active()[alert_slot(old(self).active(), alert_id)]
                    },
                )
            } else {
                old(self).active()
            },
            final(self).history() == old(self).history(),
            final(self).rules() == old(self).rules(),
            final(self).rate_states() == old(self).rate_states(),
            final(self).max_active() == old(self).max_active(),
            final(self).max_history() == old(self).max_history(),
    {
        match self.active_position(alert_id) {
            Some(i) => {
                let mut a = self.active_alerts[i].duplicate();
                a.acknowledged = true;
                self.active_alerts.set(i, a);
                true
            },
            None => false,
        }
    }

    /// The active alerts.
    pub fn get_active_alerts(&self) -> (r: Vec<Alert>)
        ensures
            r@ == self.active(),
    {
        let mut r: Vec<Alert> = Vec::new();
        let mut i: usize = 0;
        while i < self.active_alerts.len()
            invariant
                i <= self.active_alerts@.len(),
                r@ == self.active_alerts@.take(i as int),
            decreases self.active_alerts@.len() - i,
        {
            r.push(self.active_alerts[i].duplicate());
            i = i + 1;
            assert(r@ =~= self.active_alerts@.take(i as int));
        }
        assert(self.active_alerts@.take(i as int) =~= self.active_alerts@);
        r
    }

    /// Whether `alert`, coming at `now`, is within the rate limit of its
    /// channel. A channel's window restarts, with nothing counted, once it
    /// is longer than `config.rate_limit_window_ms`; an alert is admitted
    /// and counted while fewer than `config.max_alerts_per_channel` are
    /// counted in the window.
    pub fn should_process_alert_at(&mut self, alert: &Alert, config: &AlertEngineConfig, now: UtcMoment) -> (admitted: bool)
        requires
            old(self).well_formed(),
            config.rate_limit_window_ms != 0x8000_0000_0000_0000,
        ensures
            final(self).well_formed(),
            rate_decision(
                old(self).rate_states(),
                alert.channel_id,
                *config,
                now,
                final(self).rate_states(),
                admitted,
            ),
            final(self).rules() == old(self).rules(),
            final(self).active() == old(self).active(),
            final(self).history() == old(self).history(),
            final(self).max_active() == old(self).max_active(),
            final(self).max_history() == old(self).max_history(),
    {
        let channel = alert.channel_id;
        let slot = channel_position(&self.rate_limiting, channel);
        proof {
            if let Some(i) = slot {
                lemma_key_slot(self.rate_limiting@, i as int);
            }
        }
        let mut st = match slot {
            Some(i) => self.rate_limiting[i].1,
            None => RateLimitState { last_alert_time: now, alert_count: 0, window_start: now },
        };
        let window: i128 = (#[verifier::truncate] (config.rate_limit_window_ms as i64)) as i128 * 1_000_000;
        if nanos_of(now) - nanos_of(st.window_start) > window {
            st.window_start = now;
            st.alert_count = 0;
        }
        let admitted = st.alert_count < config.max_alerts_per_channel;
        if admitted {
            st.alert_count = st.alert_count + 1;
            st.last_alert_time = now;
        }
        match slot {
            Some(i) => {
                self.rate_limiting.set(i, (channel, st));
            },
            None => {
                self.rate_limiting.push((channel, st));
            },
        }
        admitted
    }

    /// Whether `alert`, coming now by the system clock, is within the rate
    /// limit of its channel, as [`Self::should_process_alert_at`] decides.
    pub fn should_process_alert(&mut self, alert: &Alert, config: &AlertEngineConfig) -> (admitted: bool)
        requires
            old(self).well_formed(),
            config.rate_limit_window_ms != 0x8000_0000_0000_0000,
        ensures
            final(self).well_formed(),
            exists|now: UtcMoment|
                #[trigger] rate_decision(
                    old(self).rate_states(),
                    alert.channel_id,
                    *config,
                    now,
                    final(self).rate_states(),
                    admitted,
                ),
            final(self).rules() == old(self).rules(),
            final(self).active() == old(self).active(),
            final(self).history() == old(self).history(),
            final(self).max_active() == old(self).max_active(),
            final(self).max_history() == old(self).max_history(),
    {
        let now = UtcMoment::now();
        self.should_process_alert_at(alert, config, now)
    }

    /// Remove the acknowledged alerts that, at `now`, are older than
    /// `acknowledgment_timeout_ms` milliseconds; how many were removed.
    pub fn cleanup_alerts_at(&mut self, acknowledgment_timeout_ms: u64, now: UtcMoment) -> (removed: usize)
        requires
            old(self).well_formed(),
            acknowledgment_timeout_ms != 0x8000_0000_0000_0000,
        ensures
            final(self).well_formed(),
            final(self).active() == unexpired(old(self).active(), acknowledgment_timeout_ms, now),
            removed == old(self).active().len() - final(self).active().len(),
            final(self).rules() == old(self).rules(),
            final(self).history() == old(self).history(),
            final(self).rate_states() == old(self).rate_states(),
            final(self).max_active() == old(self).max_active(),
            final(self).max_history() == old(self).max_history(),
    {
        let ghost s = self.active_alerts@;
        let ghost p = stays(acknowledgment_timeout_ms, now);
        let timeout: i128 = (#[verifier::truncate] (acknowledgment_timeout_ms as i64)) as i128 * 1_000_000;
        let now_nanos = nanos_of(now);
        let mut kept: Vec<Alert> = Vec::new();
        let mut removed: usize = 0;
        let mut i: usize = 0;
        assert(s.take(0).filter(p) =~= Seq::<Alert>::empty()) by {
            reveal(Seq::filter);
        }
        while i < self.active_alerts.len()
            invariant
                self.active_alerts@ == s,
                p == stays(acknowledgment_timeout_ms, now),
                alert_ids_distinct(s),
                timeout == span_nanos(acknowledgment_timeout_ms),
                now_nanos == moment_nanos(now),
                i <= s.len(),
                kept@ == s.take(i as int).filter(p),
                removed + kept@.len() == i,
                alert_ids_distinct(kept@),
                forall|j: int|
                    0 <= j < kept@.len() ==> exists|k: int| 0 <= k < i && (#[trigger] kept@[j]).id == s[k].id,
            decreases s.len() - i,
        {
            proof {
                lemma_filter_step(s, p, i as int);
            }
            let a = &self.active_alerts[i];
            let age = now_nanos - (#[verifier::truncate] (a.timestamp.nanos as i64)) as i128;
            assert(expired(s[i as int], acknowledgment_timeout_ms, now) == (a.acknowledged && age > timeout));
            if a.acknowledged && age > timeout {
                removed = removed + 1;
            } else {
                let ghost before = kept@;
                kept.push(a.duplicate());
                proof {
                    assert forall|j: int| 0 <= j < before.len() implies kept@[j].id != s[i as int].id by {
                        let k = choose|k: int| 0 <= k < i && before[j].id == s[k].id;
                        assert(kept@[j] == before[j]);
                    }
                    assert(kept@[before.len() as int] == s[i as int]);
                }
            }
            i = i + 1;
        }
        assert(s.take(s.len() as int) =~= s);
        self.active_alerts = kept;
        removed
    }

    /// Remove the acknowledged alerts older, now by the system clock, than
    /// `acknowledgment_timeout_ms` milliseconds, as
    /// [`Self::cleanup_alerts_at`] does; how many were removed.
    pub fn cleanup_alerts(&mut self, acknowledgment_timeout_ms: u64) -> (removed: usize)
        requires
            old(self).well_formed(),
            acknowledgment_timeout_ms != 0x8000_0000_0000_0000,
        ensures
            final(self).well_formed(),
            exists|now: UtcMoment|
                final(self).active() == #[trigger] unexpired(old(self).active(), acknowledgment_timeout_ms, now),
            removed == old(self).active().len() - final(self).active().len(),
            final(self).rules() == old(self).rules(),
            final(self).history() == old(self).history(),
            final(self).rate_states() == old(self).rate_states(),
            final(self).max_active() == old(self).max_active(),
            final(self).max_history() == old(self).max_history(),
    {
        let now = UtcMoment::now();
        self.cleanup_alerts_at(acknowledgment_timeout_ms, now)
    }

    /// Counts over the active alerts and the history.
    pub fn get_stats(&self) -> (stats: AlertStats)
        requires
            self.well_formed(),
        ensures
            counts(stats, self.active(), self.history()),
    {
        let ghost s = self.active_alerts@;
        let ghost ack = |a: Alert| a.acknowledged;
        let ghost crit = |a: Alert| is_critical(a);
        let ghost warn = |a: Alert| a.severity is Warning;
        let ghost info = |a: Alert| a.severity is Info;
        let mut acknowledged: usize = 0;
        let mut critical: usize = 0;
        let mut warning: usize = 0;
        let mut informational: usize = 0;
        let mut by_channel: Vec<(ChannelId, usize)> = Vec::new();
        let mut i: usize = 0;
        assert(s.take(0).filter(ack) =~= Seq::<Alert>::empty() && s.take(0).filter(crit) =~= Seq::<
            Alert,
        >::empty() && s.take(0).filter(warn) =~= Seq::<Alert>::empty() && s.take(0).filter(info)
            =~= Seq::<Alert>::empty()) by {
            reveal(Seq::filter);
        }
        while i < self.active_alerts.len()
            invariant
                self.active_alerts@ == s,
                ack == (|a: Alert| a.acknowledged),
                crit == (|a: Alert| is_critical(a)),
                warn == (|a: Alert| a.severity is Warning),
                info == (|a: Alert| a.severity is Info),
                i <= s.len(),
                acknowledged == s.take(i as int).filter(ack).len(),
                critical == s.take(i as int).filter(crit).len(),
                warning == s.take(i as int).filter(warn).len(),
                informational == s.take(i as int).filter(info).len(),
                keys_distinct(by_channel@),
                forall|j: int| 0 <= j < i ==> has_key(by_channel@, #[trigger] s[j].channel_id),
                forall|k: int|
                    0 <= k < by_channel@.len() ==> exists|j: int|
                        0 <= j < i && s[j].channel_id == (#[trigger] by_channel@[k]).0,
                forall|k: int|
                    0 <= k < by_channel@.len() ==> (#[trigger] by_channel@[k]).1 == s.take(i as int).filter(
                        on_channel(by_channel@[k].0),
                    ).len(),
            decreases s.len() - i,
        {
            let a = &self.active_alerts[i];
            proof {
                lemma_filter_step(s, ack, i as int);
                lemma_filter_step(s, crit, i as int);
                lemma_filter_step(s, warn, i as int);
                lemma_filter_step(s, info, i as int);
                s.take(i as int).lemma_filter_len(ack);
                s.take(i as int).lemma_filter_len(crit);
                s.take(i as int).lemma_filter_len(warn);
                s.take(i as int).lemma_filter_len(info);
            }
            if a.acknowledged {
                acknowledged = acknowledged + 1;
            }
            match a.severity {
                AlertSeverity::Critical | AlertSeverity::Emergency => {
                    critical = critical + 1;
                },
                AlertSeverity::Warning => {
                    warning = warning + 1;
                },
                AlertSeverity::Info => {
                    informational = informational + 1;
                },
            }
            let channel = a.channel_id;
            let ghost before = by_channel@;
            let ghost at_i = s.take(i as int).filter(on_channel(channel)).len();
            proof {
                lemma_filter_step(s, on_channel(channel), i as int);
                s.take(i as int).lemma_filter_len(on_channel(channel));
            }
            match channel_position(&by_channel, channel) {
                Some(m) => {
                    let n = by_channel[m].1;
                    proof {
                        lemma_key_slot(before, m as int);
                    }
                    by_channel.set(m, (channel, n + 1));
                },
                None => {
                    proof {
                        assert forall|j: int| 0 <= j < s.take(i as int).len() implies !on_channel(
                            channel,
                        )(#[trigger] s.take(i as int)[j]) by {
                            assert(s.take(i as int)[j] == s[j]);
                            assert(has_key(before, s[j].channel_id));
                        }
                        lemma_filter_none(s.take(i as int), on_channel(channel));
                    }
                    by_channel.push((channel, 1));
                },
            }
            proof {
                assert forall|k: int| 0 <= k < by_channel@.len() implies (#[trigger] by_channel@[k]).1
                    == s.take(i + 1).filter(on_channel(by_channel@[k].0)).len() by {
                    lemma_filter_step(s, on_channel(by_channel@[k].0), i as int);
                    if k < before.len() && before[k].0 != channel {
                        assert(by_channel@[k] == before[k]);
                    }
                }
                assert forall|j: int| 0 <= j < i + 1 implies has_key(by_channel@, #[trigger] s[j].channel_id) by {
                    if j < i {
                        let k = choose|k: int| 0 <= k < before.len() && before[k].0 == s[j].channel_id;
                        assert(by_channel@[k].0 == before[k].0);
                    } else {
                        if has_key(before, channel) {
                            let m = key_slot(before, channel);
                            assert(by_channel@[m].0 == channel);
                        } else {
                            assert(by_channel@[before.len() as int].0 == channel);
                        }
                    }
                }
                assert forall|k: int| 0 <= k < by_channel@.len() implies exists|j: int|
                    0 <= j < i + 1 && s[j].channel_id == (#[trigger] by_channel@[k]).0 by {
                    if k < before.len() && before[k].0 != channel {
                        assert(by_channel@[k] == before[k]);
                        let j = choose|j: int| 0 <= j < i && s[j].channel_id == before[k].0;
                        assert(0 <= j < i + 1 && s[j].channel_id == by_channel@[k].0);
                    } else {
                        assert(s[i as int].channel_id == by_channel@[k].0);
                    }
                }
            }
            i = i + 1;
        }
        assert(s.take(s.len() as int) =~= s);
        AlertStats {
            total_alerts: self.alert_history.len(),
            active_alerts: self.active_alerts.len(),
            acknowledged_alerts: acknowledged,
            critical_alerts: critical,
            warning_alerts: warning,
            info_alerts: informational,
            alerts_by_channel: by_channel,
        }
    }

    /// Evaluate every rule, in order, by `evaluate`; the alerts they raise.
    pub fn evaluate_data_point<F: Fn(&R) -> Option<Alert>>(&self, evaluate: F) -> (alerts: Vec<Alert>)
        requires
            forall|r: &R| evaluate.requires((r,)),
        ensures
            exists|results: Seq<Option<Alert>>|
                results.len() == self.rules().len() && (forall|i: int|
                    0 <= i < results.len() ==> evaluate.ensures((&self.rules()[i].1,), #[trigger] results[i]))
                    && alerts@ == raised(results),
    {
        let mut alerts: Vec<Alert> = Vec::new();
        let ghost mut results: Seq<Option<Alert>> = Seq::empty();
        let mut i: usize = 0;
        assert(raised(results) =~= Seq::<Alert>::empty());
        while i < self.rules.len()
            invariant
                forall|r: &R| evaluate.requires((r,)),
                i <= self.rules@.len(),
                results.len() == i,
                forall|j: int|
                    0 <= j < i ==> evaluate.ensures((&self.rules@[j].1,), #[trigger] results[j]),
                alerts@ == raised(results),
            decreases self.rules@.len() - i,
        {
            let outcome = evaluate(&self.rules[i].1);
            proof {
                let next = results.push(outcome);
                assert(next.drop_last() =~= results);
                results = next;
            }
            match outcome {
                Some(alert) => {
                    alerts.push(alert);
                },
                None => {},
            }
            i = i + 1;
        }
        alerts
    }
}

/// A manager never holds more active alerts than its limit, nor a longer
/// history than its limit, and no two active alerts share an identifier.
pub proof fn lemma_within_limits<R>(m: &AlertManager<R>)
    requires
        m.well_formed(),
    ensures
        m.active().len() <= m.max_active(),
        m.history().len() <= m.max_history(),
        alert_ids_distinct(m.active()),
{
}

/// An alert added while there is room is active afterwards, exactly as it
/// came, in the place of the alert it replaced or after the others, and
/// identifiers stay unique.
pub proof fn lemma_added_alert_is_active(s: Seq<Alert>, a: Alert)
    requires
        alert_ids_distinct(s),
    ensures
        alert_ids_distinct(upsert_alert(s, a)),
        has_alert(upsert_alert(s, a), a.id),
        upsert_alert(s, a)[alert_slot(upsert_alert(s, a), a.id)] == a,
        upsert_alert(s, a).len() == if has_alert(s, a.id) {
            s.len()
        } else {
            s.len() + 1
        },
{
    let t = upsert_alert(s, a);
    if has_alert(s, a.id) {
        let i = alert_slot(s, a.id);
        assert(t[i] == a);
        lemma_alert_slot(t, i);
    } else {
        assert(t[s.len() as int] == a);
        lemma_alert_slot(t, s.len() as int);
    }
}

/// A channel is admitted only while fewer than `max_alerts_per_channel`
/// alerts are counted in its window, and each admission counts one more;
/// so a channel never has more than `max_alerts_per_channel` counted. A
/// refusal changes nothing but the window.
pub proof fn lemma_rate_limit_bound(st: RateLimitState, config: AlertEngineConfig, now: UtcMoment)
    requires
        st.alert_count <= config.max_alerts_per_channel,
    ensures
        decided(st, config, now).alert_count <= config.max_alerts_per_channel,
        admits(st, config, now) ==> decided(st, config, now).alert_count == rewindowed(
            st,
            config.rate_limit_window_ms,
            now,
        ).alert_count + 1,
        !admits(st, config, now) ==> decided(st, config, now) == rewindowed(
            st,
            config.rate_limit_window_ms,
            now,
        ),
{
}

/// Cleaning up never removes an alert that was not acknowledged.
pub proof fn lemma_cleanup_keeps_unacknowledged(s: Seq<Alert>, timeout_ms: u64, now: UtcMoment, i: int)
    requires
        0 <= i < s.len(),
        !s[i].acknowledged,
    ensures
        unexpired(s, timeout_ms, now).contains(s[i]),
{
    s.lemma_filter_contains(stays(timeout_ms, now), i);
}

/// Where the entry of `v` for `channel` stands.
fn channel_position<T>(v: &Vec<(ChannelId, T)>, channel: ChannelId) -> (r: Option<usize>)
    ensures
        match r {
            Some(i) => i < v@.len() && v@[i as int].0 == channel,
            None => !has_key(v@, channel),
        },
{
    let mut i: usize = 0;
    while i < v.len()
        invariant
            i <= v@.len(),
            forall|j: int| 0 <= j < i ==> (#[trigger] v@[j]).0 != channel,
        decreases v@.len() - i,
    {
        if v[i].0.0 == channel.0 {
            return Some(i);
        }
        i = i + 1;
    }
    None
}

/// The nanoseconds from the Unix epoch to `m`.
fn nanos_of(m: UtcMoment) -> (n: i128)
    ensures
        n == moment_nanos(m),
{
    m.secs as i128 * 1_000_000_000 + m.subsec_nanos as i128
}

} // verus!
