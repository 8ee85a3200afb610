//! Where alert notifications go: the set of endpoints, keyed by name.

use vstd::prelude::*;

use crate::dbc::types::str_eq;

verus! {

/// Notification endpoint configuration.
#[derive(Debug, Clone)]
pub struct NotificationEndpoint {
    pub name: String,
    pub endpoint_type: NotificationType,
    pub url: String,
    pub enabled: bool,
}

/// Notification types.
#[derive(Debug, Clone, Copy, PartialEq, Eq, Structural)]
pub enum NotificationType {
    Webhook,
    Email,
    Slack,
    Teams,
}

/// The endpoints alerts are sent to, at most one per name.
pub struct NotificationManager {
    endpoints: Vec<NotificationEndpoint>,
}

/// The endpoints of `v` by name, later entries taking precedence.
pub open spec fn by_name(v: Seq<NotificationEndpoint>) -> Map<Seq<char>, NotificationEndpoint>
    decreases v.len(),
{
    if v.len() == 0 {
        Map::empty()
    } else {
        by_name(v.drop_last()).insert(v.last().name@, v.last())
    }
}

/// Whether no two entries of `v` share a name.
pub open spec fn distinct_names(v: Seq<NotificationEndpoint>) -> bool {
    forall|i: int, j: int| 0 <= i < j < v.len() ==> v[i].name@ != v[j].name@
}

proof fn lemma_by_name_has(v: Seq<NotificationEndpoint>, i: int)
    requires
        distinct_names(v),
        0 <= i < v.len(),
    ensures
        by_name(v).contains_key(v[i].name@),
        by_name(v)[v[i].name@] == v[i],
    decreases v.len(),
{
    if i < v.len() - 1 {
        lemma_by_name_has(v.drop_last(), i);
    }
}

proof fn lemma_by_name_lacks(v: Seq<NotificationEndpoint>, name: Seq<char>)
    requires
        forall|i: int| 0 <= i < v.len() ==> v[i].name@ != name,
    ensures
        !by_name(v).contains_key(name),
    decreases v.len(),
{
    if v.len() > 0 {
        lemma_by_name_lacks(v.drop_last(), name);
    }
}

/// Replacing the entry that carries a name replaces it in the map.
proof fn lemma_by_name_update(v: Seq<NotificationEndpoint>, i: int, e: NotificationEndpoint)
    requires
        distinct_names(v),
        0 <= i < v.len(),
        v[i].name@ == e.name@,
    ensures
        by_name(v.update(i, e)) == by_name(v).insert(e.name@, e),
    decreases v.len(),
{
    let w = v.update(i, e);
    if i == v.len() - 1 {
        assert(w.drop_last() =~= v.drop_last());
        assert(by_name(w) =~= by_name(v).insert(e.name@, e));
    } else {
        assert(w.drop_last() =~= v.drop_last().update(i, e));
        lemma_by_name_update(v.drop_last(), i, e);
        assert(by_name(w) =~= by_name(v).insert(e.name@, e));
    }
}

proof fn lemma_by_name_from(v: Seq<NotificationEndpoint>, name: Seq<char>) -> (j: int)
    requires
        by_name(v).contains_key(name),
    ensures
        0 <= j < v.len(),
        v[j].name@ == name,
{
    if forall|i: int| 0 <= i < v.len() ==> v[i].name@ != name {
        lemma_by_name_lacks(v, name);
    }
    choose|i: int| 0 <= i < v.len() && v[i].name@ == name
}

impl NotificationManager {
    /// The endpoints, by name.
    pub closed spec fn endpoints(&self) -> Map<Seq<char>, NotificationEndpoint> {
        by_name(self.endpoints@)
    }

    /// Whether every endpoint has its own name.
    pub closed spec fn well_formed(&self) -> bool {
        distinct_names(self.endpoints@)
    }

    /// A manager with no endpoints.
    pub fn new() -> (m: NotificationManager)
        ensures
            m.well_formed(),
            m.endpoints() == Map::<Seq<char>, NotificationEndpoint>::empty(),
    {
        let m = NotificationManager { endpoints: Vec::new() };
        assert(m.endpoints@ =~= Seq::<NotificationEndpoint>::empty());
        m
    }

    /// Add an endpoint, replacing the one of the same name if there is one.
    pub fn add_endpoint(&mut self, endpoint: NotificationEndpoint)
        requires
            old(self).well_formed(),
        ensures
            final(self).well_formed(),
            final(self).endpoints() == old(self).endpoints().insert(endpoint.name@, endpoint),
    {
        let mut i: usize = 0;
        while i < self.endpoints.len()
            invariant
                self.endpoints@ == old(self).endpoints@,
                i <= self.endpoints@.len(),
                distinct_names(self.endpoints@),
                forall|j: int| 0 <= j < i ==> self.endpoints@[j].name@ != endpoint.name@,
            decreases self.endpoints@.len() - i,
        {
            if str_eq(self.endpoints[i].name.as_str(), endpoint.name.as_str()) {
                proof {
                    lemma_by_name_update(self.endpoints@, i as int, endpoint);
                }
                let ghost before = self.endpoints@;
                self.endpoints.set(i, endpoint);
                assert(self.endpoints@ == before.update(i as int, endpoint));
                assert(distinct_names(self.endpoints@)) by {
                    assert forall|a: int, b: int|
                        0 <= a < b < self.endpoints@.len() implies self.endpoints@[a].name@
                        != self.endpoints@[b].name@ by {
                        assert(before[a].name@ != before[b].name@);
                    }
                }
                return;
            }
            i = i + 1;
        }
        let ghost before = self.endpoints@;
        self.endpoints.push(endpoint);
        proof {
            assert(self.endpoints@.drop_last() =~= before);
            assert(self.endpoints@.last() == endpoint);
        }
    }

    /// The endpoints an alert is sent to: every enabled one, once each.
    /// The order is not part of the contract.
    pub fn enabled_endpoints(&self) -> (r: Vec<&NotificationEndpoint>)
        requires
            self.well_formed(),
        ensures
            forall|k: int|
                0 <= k < r@.len() ==> (#[trigger] r@[k]).enabled && self.endpoints().contains_key(
                    r@[k].name@,
                ) && self.endpoints()[r@[k].name@] == *r@[k],
            forall|name: Seq<char>|
                #[trigger] self.endpoints().contains_key(name) && self.endpoints()[name].enabled
                    ==> exists|k: int| 0 <= k < r@.len() && (#[trigger] r@[k]).name@ == name,
            forall|a: int, b: int| 0 <= a < b < r@.len() ==> r@[a].name@ != r@[b].name@,
    {
        let ghost v = self.endpoints@;
        let mut r: Vec<&NotificationEndpoint> = Vec::new();
        let ghost mut idx: Seq<int> = Seq::empty();
        let mut i: usize = 0;
        while i < self.endpoints.len()
            invariant
                v == self.endpoints@,
                distinct_names(v),
                i <= v.len(),
                idx.len() == r@.len(),
                forall|k: int| 0 <= k < r@.len() ==> 0 <= #[trigger] idx[k] < i && *r@[k] == v[idx[k]]
                    && v[idx[k]].enabled,
                forall|a: int, b: int| 0 <= a < b < idx.len() ==> idx[a] < idx[b],
                forall|j: int|
                    0 <= j < i && (#[trigger] v[j]).enabled ==> exists|k: int|
                        0 <= k < r@.len() && idx[k] == j,
            decreases v.len() - i,
        {
            let ghost before = idx;
            if self.endpoints[i].enabled {
                r.push(&self.endpoints[i]);
                proof {
                    idx = idx.push(i as int);
                    assert(idx[idx.len() - 1] == i);
                }
            }
            proof {
                assert forall|j: int|
                    0 <= j < i + 1 && (#[trigger] v[j]).enabled implies exists|k: int|
                        0 <= k < r@.len() && idx[k] == j by {
                    if j < i {
                        let k = choose|k: int| 0 <= k < before.len() && before[k] == j;
                        assert(idx[k] == before[k]);
                    } else {
                        assert(idx[idx.len() - 1] == j);
                    }
                }
            }
            i = i + 1;
        }
        proof {
            assert forall|k: int| 0 <= k < r@.len() implies (#[trigger] r@[k]).enabled
                && self.endpoints().contains_key(r@[k].name@) && self.endpoints()[r@[k].name@]
                == *r@[k] by {
                lemma_by_name_has(v, idx[k]);
            }
            assert forall|name: Seq<char>|
                #[trigger] self.endpoints().contains_key(name) && self.endpoints()[name].enabled
                    implies exists|k: int| 0 <= k < r@.len() && (#[trigger] r@[k]).name@ == name by {
                let j = lemma_by_name_from(v, name);
                lemma_by_name_has(v, j);
                assert(v[j].enabled);
                let k = choose|k: int| 0 <= k < r@.len() && idx[k] == j;
                assert(r@[k].name@ == name);
            }
            assert forall|a: int, b: int| 0 <= a < b < r@.len() implies r@[a].name@
                != r@[b].name@ by {
                assert(idx[a] < idx[b]);
            }
        }
        r
    }
}

impl Default for NotificationManager {
    /// A manager with no endpoints.
    fn default() -> (m: NotificationManager)
        ensures
            m.well_formed(),
            m.endpoints() == Map::<Seq<char>, NotificationEndpoint>::empty(),
    {
        NotificationManager::new()
    }
}

/// Alert engine configuration.
#[derive(Debug, Clone)]
pub struct AlertEngineConfig {
    pub max_active_alerts: usize,
    pub alert_history_size: usize,
    pub batch_size: usize,
    pub acknowledgment_timeout_ms: u64,
    pub enable_rate_limiting: bool,
    pub rate_limit_window_ms: u64,
    pub max_alerts_per_channel: usize,
}

impl Default for AlertEngineConfig {
    /// Ten thousand active alerts, a history of a hundred thousand, batches
    /// of a hundred, five minutes to acknowledge, and at most ten alerts per
    /// channel a minute.
    fn default() -> (c: AlertEngineConfig)
        ensures
            c.max_active_alerts == 10000,
            c.alert_history_size == 100000,
            c.batch_size == 100,
            c.acknowledgment_timeout_ms == 300000,
            c.enable_rate_limiting,
            c.rate_limit_window_ms == 60000,
            c.max_alerts_per_channel == 10,
    {
        AlertEngineConfig {
            max_active_alerts: 10000,
            alert_history_size: 100000,
            batch_size: 100,
            acknowledgment_timeout_ms: 300000,
            enable_rate_limiting: true,
            rate_limit_window_ms: 60000,
            max_alerts_per_channel: 10,
        }
    }
}

} // verus!
