//! The configuration records of the telemetry system: what each interface
//! and service is set up with.

use vstd::prelude::*;

use crate::telemetry::base::{ChannelConfig, ChannelId, TelemetryError};
use crate::dbc::types::str_eq;
use crate::text::{append_decimal, decimal, push_str, string_from};

verus! {

/// Main system configuration.
#[derive(Debug, Clone)]
pub struct TelemetryConfig {
    pub system: SystemConfig,
    pub ingestion: IngestionConfig,
    pub processing: ProcessingConfig,
    pub ml: MLConfig,
    pub alerts: AlertsConfig,
    pub dashboard: DashboardConfig,
    pub channels: Vec<ChannelConfig>,
}

/// System-level configuration.
#[derive(Debug, Clone)]
pub struct SystemConfig {
    pub name: String,
    pub version: String,
    pub log_level: String,
    pub metrics_interval_ms: u64,
    pub buffer_size: usize,
    pub worker_threads: usize,
}

/// Data ingestion configuration.
#[derive(Debug, Clone)]
pub struct IngestionConfig {
    pub queue_size: usize,
    pub batch_size: usize,
    pub batch_timeout_ms: u64,
    pub can_interfaces: Vec<CanInterfaceConfig>,
    pub network_interfaces: Vec<NetworkInterfaceConfig>,
    pub serial_interfaces: Vec<SerialInterfaceConfig>,
}

/// CAN bus interface configuration.
#[derive(Debug, Clone)]
pub struct CanInterfaceConfig {
    pub name: String,
    /// Such as `can0` or `vcan0`.
    pub interface: String,
    pub bitrate: u32,
    pub filters: Vec<CanFilter>,
    pub enabled: bool,
}

/// CAN message filter.
#[derive(Debug, Clone, Copy, PartialEq, Eq, Structural)]
pub struct CanFilter {
    pub id: u32,
    pub mask: u32,
}

/// Network interface configuration.
#[derive(Debug, Clone)]
pub struct NetworkInterfaceConfig {
    pub name: String,
    pub protocol: NetworkProtocol,
    pub address: String,
    pub port: u16,
    pub enabled: bool,
}

/// Supported network protocols.
#[derive(Debug, Clone, Copy, PartialEq, Eq, Structural)]
pub enum NetworkProtocol {
    Udp,
    Tcp,
    WebSocket,
}

/// Serial interface configuration.
#[derive(Debug, Clone)]
pub struct SerialInterfaceConfig {
    pub name: String,
    pub port: String,
    pub baud_rate: u32,
    pub data_bits: u8,
    pub stop_bits: u8,
    pub parity: SerialParity,
    pub enabled: bool,
}

/// Serial parity settings.
#[derive(Debug, Clone, Copy, PartialEq, Eq, Structural)]
pub enum SerialParity {
    /// No parity bit.
    NoParity,
    Even,
    Odd,
}

/// Processing configuration. The default sample rate, in hertz, is an
/// `f64` held as its bits.
#[derive(Debug, Clone)]
pub struct ProcessingConfig {
    pub analysis_window_ms: u64,
    pub statistics_enabled: bool,
    pub filtering_enabled: bool,
    pub resampling_enabled: bool,
    pub default_sample_rate: u64,
}

/// Machine learning configuration. The anomaly threshold is an `f64` held
/// as its bits.
#[derive(Debug, Clone)]
pub struct MLConfig {
    pub enabled: bool,
    pub model_path: String,
    pub anomaly_threshold: u64,
    pub training_window_samples: usize,
    pub retrain_interval_hours: u64,
    pub features: Vec<String>,
}

/// Alerts configuration.
#[derive(Debug, Clone)]
pub struct AlertsConfig {
    pub enabled: bool,
    pub notification_endpoints: Vec<NotificationEndpoint>,
    pub alert_history_size: usize,
    pub acknowledgment_timeout_ms: u64,
}

/// Notification endpoint configuration.
#[derive(Debug, Clone)]
pub struct NotificationEndpoint {
    pub name: String,
    pub endpoint_type: NotificationType,
    pub url: String,
    pub enabled: bool,
}

/// Notification types.
#[derive(Debug, Clone, Copy, PartialEq, Eq, Structural)]
pub enum NotificationType {
    Webhook,
    Email,
    Slack,
    Teams,
}

/// Dashboard configuration.
#[derive(Debug, Clone)]
pub struct DashboardConfig {
    pub enabled: bool,
    pub bind_address: String,
    pub port: u16,
    pub update_interval_ms: u64,
    pub max_history_points: usize,
}

/// `num_cpus::get()`: the number of logical CPUs this process may use, which
/// the crate documents as at least one. It depends on the machine, so
/// nothing more is claimed.
#[verifier::external_body]
fn logical_cpus() -> (n: usize)
    ensures
        n >= 1,
{
    num_cpus::get()
}

/// The bits of the `f64` 1000.0.
pub const THOUSAND_HZ: u64 = 0x408F_4000_0000_0000;

/// The bits of the `f64` 0.8.
pub const EIGHT_TENTHS: u64 = 0x3FE9_9999_9999_999A;

/// Whether an earlier channel than the one at `k` has its identifier.
pub open spec fn id_seen(channels: Seq<ChannelConfig>, k: int) -> bool {
    exists|j: int| 0 <= j < k && channels[j].id == channels[k].id
}

/// Whether an earlier channel than the one at `k` has its name.
pub open spec fn name_seen(channels: Seq<ChannelConfig>, k: int) -> bool {
    exists|j: int| 0 <= j < k && channels[j].name@ == channels[k].name@
}

/// The message for a repeated channel identifier, as `Debug` writes the
/// identifier.
pub open spec fn duplicate_id(id: ChannelId) -> Seq<char> {
    "Duplicate channel ID: ChannelId("@ + decimal(id.0 as nat) + ")"@
}

/// The message for a repeated channel name.
pub open spec fn duplicate_name(name: Seq<char>) -> Seq<char> {
    "Duplicate channel name: "@ + name
}

/// The first problem among the channels from `k` on: a repeated
/// identifier, then a repeated name, then what `rates` says of the
/// channel's sample rate.
pub open spec fn channel_problem_from(channels: Seq<ChannelConfig>, rates: Seq<Option<String>>, k: int) -> Option<
    Seq<char>,
>
    decreases channels.len() - k,
{
    if k < 0 || k >= channels.len() {
        None
    } else if id_seen(channels, k) {
        Some(duplicate_id(channels[k].id))
    } else if name_seen(channels, k) {
        Some(duplicate_name(channels[k].name@))
    } else if k < rates.len() && rates[k] is Some {
        Some(rates[k]->0@)
    } else {
        channel_problem_from(channels, rates, k + 1)
    }
}

/// The first problem of a configuration whose channels' sample rates
/// `rates` describes: one of the channels', else a buffer or a worker count
/// of zero.
pub open spec fn config_problem(config: TelemetryConfig, rates: Seq<Option<String>>) -> Option<Seq<char>> {
    match channel_problem_from(config.channels@, rates, 0) {
        Some(m) => Some(m),
        None => if config.system.buffer_size == 0 {
            Some("Buffer size must be greater than 0"@)
        } else if config.system.worker_threads == 0 {
            Some("Worker threads must be greater than 0"@)
        } else {
            None
        },
    }
}

/// Whether `found` is the first of `channels` that `matches`, or `None`
/// when none does.
pub open spec fn first_channel(channels: Seq<ChannelConfig>, matches: spec_fn(ChannelConfig) -> bool, found: Option<ChannelConfig>) -> bool {
    match found {
        Some(c) => exists|i: int|
            0 <= i < channels.len() && channels[i] == c && matches(c) && forall|j: int|
                0 <= j < i ==> !matches(#[trigger] channels[j]),
        None => forall|j: int| 0 <= j < channels.len() ==> !matches(#[trigger] channels[j]),
    }
}

/// The value a lookup found.
pub open spec fn found_channel(r: Option<&ChannelConfig>) -> Option<ChannelConfig> {
    match r {
        Some(c) => Some(*c),
        None => None,
    }
}

/// Whether a channel before the one at `k` has its identifier.
fn id_repeated(channels: &Vec<ChannelConfig>, k: usize) -> (b: bool)
    requires
        k < channels@.len(),
    ensures
        b == id_seen(channels@, k as int),
{
    let mut j: usize = 0;
    while j < k
        invariant
            k < channels@.len(),
            j <= k,
            forall|i: int| 0 <= i < j ==> channels@[i].id != channels@[k as int].id,
        decreases k - j,
    {
        if channels[j].id.0 == channels[k].id.0 {
            return true;
        }
        j = j + 1;
    }
    false
}

/// Whether a channel before the one at `k` has its name.
fn name_repeated(channels: &Vec<ChannelConfig>, k: usize) -> (b: bool)
    requires
        k < channels@.len(),
    ensures
        b == name_seen(channels@, k as int),
{
    let mut j: usize = 0;
    while j < k
        invariant
            k < channels@.len(),
            j <= k,
            forall|i: int| 0 <= i < j ==> channels@[i].name@ != channels@[k as int].name@,
        decreases k - j,
    {
        if str_eq(channels[j].name.as_str(), channels[k].name.as_str()) {
            return true;
        }
        j = j + 1;
    }
    false
}

impl TelemetryConfig {
    /// Check the configuration: channel identifiers and names are unique,
    /// each channel's sample rate is positive, and there is a buffer and at
    /// least one worker. `rate_problem` gives the message for a channel
    /// whose sample rate is not positive, and `None` for any other; it is
    /// asked of the channels in order until a problem is found.
    pub fn validate<F: Fn(&ChannelConfig) -> Option<String>>(&self, rate_problem: F) -> (r: Result<(), TelemetryError>)
        requires
            forall|c: &ChannelConfig| rate_problem.requires((c,)),
        ensures
            exists|rates: Seq<Option<String>>|
                rates.len() <= self.channels@.len() && (forall|i: int|
                    0 <= i < rates.len() ==> rate_problem.ensures((&self.channels@[i],), #[trigger] rates[i]))
                    && match r {
                    Ok(()) => config_problem(*self, rates) is None && rates.len() == self.channels@.len(),
                    Err(e) => config_problem(*self, rates) matches Some(m) && e matches TelemetryError::ConfigError {
                        message,
                    } && message@ == m,
                },
    {
        let ghost chs = self.channels@;
        let ghost mut rates: Seq<Option<String>> = Seq::empty();
        let mut k: usize = 0;
        while k < self.channels.len()
            invariant
                forall|c: &ChannelConfig| rate_problem.requires((c,)),
                chs == self.channels@,
                k <= chs.len(),
                rates.len() == k,
                forall|i: int| 0 <= i < rates.len() ==> rate_problem.ensures((&chs[i],), #[trigger] rates[i]),
                forall|i: int|
                    0 <= i < k ==> !id_seen(chs, i) && !name_seen(chs, i) && (#[trigger] rates[i]) is None,
            decreases chs.len() - k,
        {
            proof {
                lemma_problem_same_prefix(chs, rates, rates, 0, k as int);
            }
            let channel = &self.channels[k];
            if id_repeated(&self.channels, k) {
                let mut message = String::new();
                push_str(&mut message, "Duplicate channel ID: ChannelId(");
                append_decimal(&mut message, channel.id.0 as u64);
                push_str(&mut message, ")");
                assert(config_problem(*self, rates) == Some(duplicate_id(chs[k as int].id)));
                return Err(TelemetryError::ConfigError { message });
            }
            if name_repeated(&self.channels, k) {
                let mut message = String::new();
                push_str(&mut message, "Duplicate channel name: ");
                push_str(&mut message, channel.name.as_str());
                assert(config_problem(*self, rates) == Some(duplicate_name(chs[k as int].name@)));
                return Err(TelemetryError::ConfigError { message });
            }
            let verdict = rate_problem(channel);
            let ghost prev = rates;
            proof {
                let next = rates.push(verdict);
                lemma_problem_same_prefix(chs, rates, next, 0, k as int);
                rates = next;
            }
            match verdict {
                Some(message) => {
                    assert(config_problem(*self, rates) == Some(message@));
                    return Err(TelemetryError::ConfigError { message });
                },
                None => {},
            }
            assert forall|i: int|
                0 <= i < k + 1 implies !id_seen(chs, i) && !name_seen(chs, i) && (#[trigger] rates[i]) is None by {
                if i < k {
                    assert(rates[i] == prev[i]);
                }
            }
            k = k + 1;
        }
        proof {
            lemma_problem_same_prefix(chs, rates, rates, 0, k as int);
        }
        assert(channel_problem_from(chs, rates, 0) is None);
        if self.system.buffer_size == 0 {
            let message = string_from("Buffer size must be greater than 0");
            assert(config_problem(*self, rates) == Some(message@));
            return Err(TelemetryError::ConfigError { message });
        }
        if self.system.worker_threads == 0 {
            let message = string_from("Worker threads must be greater than 0");
            assert(config_problem(*self, rates) == Some(message@));
            return Err(TelemetryError::ConfigError { message });
        }
        assert(config_problem(*self, rates) is None);
        Ok(())
    }

    /// The first channel with identifier `id`.
    pub fn get_channel(&self, id: ChannelId) -> (r: Option<&ChannelConfig>)
        ensures
            first_channel(self.channels@, |c: ChannelConfig| c.id == id, found_channel(r)),
    {
        let mut i: usize = 0;
        while i < self.channels.len()
            invariant
                i <= self.channels@.len(),
                forall|j: int| 0 <= j < i ==> (#[trigger] self.channels@[j]).id != id,
            decreases self.channels@.len() - i,
        {
            if self.channels[i].id.0 == id.0 {
                return Some(&self.channels[i]);
            }
            i = i + 1;
        }
        None
    }

    /// The first channel called `name`.
    pub fn get_channel_by_name(&self, name: &str) -> (r: Option<&ChannelConfig>)
        ensures
            first_channel(self.channels@, |c: ChannelConfig| c.name@ == name@, found_channel(r)),
    {
        let mut i: usize = 0;
        while i < self.channels.len()
            invariant
                i <= self.channels@.len(),
                forall|j: int| 0 <= j < i ==> (#[trigger] self.channels@[j]).name@ != name@,
            decreases self.channels@.len() - i,
        {
            if str_eq(self.channels[i].name.as_str(), name) {
                return Some(&self.channels[i]);
            }
            i = i + 1;
        }
        None
    }
}

/// Changing what is known of rates at or after `k` leaves the problems
/// before `k` alone.
proof fn lemma_problem_same_prefix(
    chs: Seq<ChannelConfig>,
    a: Seq<Option<String>>,
    b: Seq<Option<String>>,
    from: int,
    k: int,
)
    requires
        0 <= from <= k <= chs.len(),
        k <= a.len(),
        k <= b.len(),
        forall|i: int| 0 <= i < k ==> a[i] == b[i],
        forall|i: int| from <= i < k ==> !id_seen(chs, i) && !name_seen(chs, i) && a[i] is None,
    ensures
        channel_problem_from(chs, a, from) == channel_problem_from(chs, a, k),
        channel_problem_from(chs, b, from) == channel_problem_from(chs, b, k),
    decreases k - from,
{
    if from < k {
        lemma_problem_same_prefix(chs, a, b, from + 1, k);
    }
}

impl Default for TelemetryConfig {
    /// The stock configuration: no channels or interfaces, a worker per
    /// logical CPU, and the stages' usual sizes and intervals.
    fn default() -> (c: TelemetryConfig)
        ensures
            c.system.name@ == "High-Speed Telemetry System"@,
            c.system.version@ == "1.0.0"@,
            c.system.log_level@ == "info"@,
            c.system.metrics_interval_ms == 1000,
            c.system.buffer_size == 100000,
            c.system.worker_threads >= 1,
            c.ingestion.queue_size == 1000000,
            c.ingestion.batch_size == 1000,
            c.ingestion.batch_timeout_ms == 10,
            c.ingestion.can_interfaces@.len() == 0,
            c.ingestion.network_interfaces@.len() == 0,
            c.ingestion.serial_interfaces@.len() == 0,
            c.processing.analysis_window_ms == 1000,
            c.processing.statistics_enabled,
            c.processing.filtering_enabled,
            c.processing.resampling_enabled,
            c.processing.default_sample_rate == THOUSAND_HZ,
            c.ml.enabled,
            c.ml.model_path@ == "models/anomaly_detector.onnx"@,
            c.ml.anomaly_threshold == EIGHT_TENTHS,
            c.ml.training_window_samples == 10000,
            c.ml.retrain_interval_hours == 24,
            c.ml.features@.len() == 4,
            c.ml.features@[0]@ == "mean"@,
            c.ml.features@[1]@ == "std"@,
            c.ml.features@[2]@ == "min"@,
            c.ml.features@[3]@ == "max"@,
            c.alerts.enabled,
            c.alerts.notification_endpoints@.len() == 0,
            c.alerts.alert_history_size == 10000,
            c.alerts.acknowledgment_timeout_ms == 300000,
            c.dashboard.enabled,
            c.dashboard.bind_address@ == "0.0.0.0"@,
            c.dashboard.port == 8080,
            c.dashboard.update_interval_ms == 100,
            c.dashboard.max_history_points == 10000,
            c.channels@.len() == 0,
    {
        let mut features: Vec<String> = Vec::new();
        features.push(string_from("mean"));
        features.push(string_from("std"));
        features.push(string_from("min"));
        features.push(string_from("max"));
        TelemetryConfig {
            system: SystemConfig {
                name: string_from("High-Speed Telemetry System"),
                version: string_from("1.0.0"),
                log_level: string_from("info"),
                metrics_interval_ms: 1000,
                buffer_size: 100000,
                worker_threads: logical_cpus(),
            },
            ingestion: IngestionConfig {
                queue_size: 1000000,
                batch_size: 1000,
                batch_timeout_ms: 10,
                can_interfaces: Vec::new(),
                network_interfaces: Vec::new(),
                serial_interfaces: Vec::new(),
            },
            processing: ProcessingConfig {
                analysis_window_ms: 1000,
                statistics_enabled: true,
                filtering_enabled: true,
                resampling_enabled: true,
                default_sample_rate: THOUSAND_HZ,
            },
            ml: MLConfig {
                enabled: true,
                model_path: string_from("models/anomaly_detector.onnx"),
                anomaly_threshold: EIGHT_TENTHS,
                training_window_samples: 10000,
                retrain_interval_hours: 24,
                features,
            },
            alerts: AlertsConfig {
                enabled: true,
                notification_endpoints: Vec::new(),
                alert_history_size: 10000,
                acknowledgment_timeout_ms: 300000,
            },
            dashboard: DashboardConfig {
                enabled: true,
                bind_address: string_from("0.0.0.0"),
                port: 8080,
                update_interval_ms: 100,
                max_history_points: 10000,
            },
            channels: Vec::new(),
        }
    }
}

} // verus!
