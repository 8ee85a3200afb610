//! Identifiers, timestamps and quality markers shared by every stage.

use vstd::prelude::*;

verus! {

/// Channel identifier for telemetry data.
#[derive(Debug, Clone, Copy, PartialEq, Eq, Structural, Hash)]
pub struct ChannelId(pub u32);

impl From<u32> for ChannelId {
    /// The channel with identifier `id`.
    fn from(id: u32) -> (c: ChannelId) {
        ChannelId(id)
    }
}

impl vstd::std_specs::convert::FromSpecImpl<u32> for ChannelId {
    open spec fn obeys_from_spec() -> bool {
        true
    }

    open spec fn from_spec(id: u32) -> ChannelId {
        ChannelId(id)
    }
}

/// Timestamp with nanosecond precision.
#[derive(Debug, Clone, Copy, PartialEq, Eq, Structural, Ord)]
pub struct Timestamp {
    pub nanos: u64,
}

/// A moment by the UTC clock: whole seconds since the Unix epoch, and the
/// nanoseconds past that second.
#[derive(Debug, Clone, Copy, PartialEq, Eq, Structural)]
pub struct UtcMoment {
    pub secs: i64,
    pub subsec_nanos: u32,
}

/// The nanoseconds from the Unix epoch to `m`.
pub open spec fn moment_nanos(m: UtcMoment) -> int {
    m.secs * 1_000_000_000 + m.subsec_nanos
}

/// `moment_nanos(m)` where it fits an `i64`: what chrono's
/// `timestamp_nanos_opt` gives for a moment that is not a leap second.
pub open spec fn epoch_nanos_opt(m: UtcMoment) -> Option<i64> {
    if i64::MIN <= moment_nanos(m) <= i64::MAX {
        Some(moment_nanos(m) as i64)
    } else {
        None
    }
}

/// `chrono::Utc::now()`, taken apart by its `timestamp()` and
/// `timestamp_subsec_nanos()`. Chrono builds the value from the system
/// clock's sub-second nanoseconds, which std keeps below a billion, so the
/// moment is never a leap second; nothing is claimed of the seconds, which
/// are whatever the clock reads. Chrono panics when the clock reads before
/// the epoch, which no argument here can rule out.
#[verifier::external_body]
fn utc_now() -> (m: UtcMoment)
    ensures
        m.subsec_nanos < 1_000_000_000,
{
    let now = chrono::Utc::now();
    UtcMoment { secs: now.timestamp(), subsec_nanos: now.timestamp_subsec_nanos() }
}

impl UtcMoment {
    /// The current moment by the system clock.
    pub fn now() -> (m: UtcMoment)
        ensures
            m.subsec_nanos < 1_000_000_000,
    {
        utc_now()
    }

    /// Nanoseconds since the epoch, or `None` where they do not fit an
    /// `i64`.
    pub fn timestamp_nanos_opt(&self) -> (r: Option<i64>)
        ensures
            r == epoch_nanos_opt(*self),
    {
        let n: i128 = self.secs as i128 * 1_000_000_000 + self.subsec_nanos as i128;
        if i64::MIN as i128 <= n && n <= i64::MAX as i128 {
            Some(n as i64)
        } else {
            None
        }
    }
}

impl Timestamp {
    /// The current time by the system clock, or the epoch when it does not
    /// fit in nanoseconds: the timestamp of some moment the clock read, which
    /// is not a leap second.
    pub fn now() -> (t: Timestamp)
        ensures
            exists|m: UtcMoment|
                m.subsec_nanos < 1_000_000_000 && t.nanos == match #[trigger] epoch_nanos_opt(m) {
                    Some(n) => n as u64,
                    None => 0,
                },
    {
        let m = UtcMoment::now();
        let t = Timestamp::at(m);
        assert(m.subsec_nanos < 1_000_000_000 && t.nanos == match epoch_nanos_opt(m) {
            Some(n) => n as u64,
            None => 0,
        });
        t
    }

    /// The timestamp of moment `m`: its nanoseconds since the epoch as
    /// `u64` bits, or the epoch when they do not fit an `i64`.
    pub fn at(m: UtcMoment) -> (t: Timestamp)
        ensures
            t.nanos == match epoch_nanos_opt(m) {
                Some(n) => n as u64,
                None => 0,
            },
    {
        let nanos = match m.timestamp_nanos_opt() {
            Some(n) => n as u64,
            None => 0,
        };
        Timestamp { nanos }
    }

    /// A timestamp `nanos` nanoseconds after the epoch.
    pub fn from_nanos(nanos: u64) -> (t: Timestamp)
        ensures
            t.nanos == nanos,
    {
        Timestamp { nanos }
    }
}

/// A telemetry sample: a channel's value at a time, with its quality. The
/// value is an `f64`, held here as its bits.
#[derive(Debug, Clone, Copy, PartialEq, Eq, Structural)]
pub struct DataPoint {
    pub channel_id: ChannelId,
    pub timestamp: Timestamp,
    pub value: u64,
    pub quality: DataQuality,
}

/// `uuid::Uuid::new_v4()`, as its 128 bits. They are random save for the
/// version digit, 4, and the variant bits, `10`, that the crate sets as RFC
/// 9562 asks; nothing else is claimed of them.
#[verifier::external_body]
fn random_uuid() -> (id: u128)
    ensures
        (id >> 76u32) & 0xF == 4,
        (id >> 62u32) & 3 == 2,
{
    uuid::Uuid::new_v4().as_u128()
}

/// Samples received together, under a version-4 UUID (as its 128 bits) and
/// the time they arrived.
#[derive(Debug, Clone)]
pub struct DataBatch {
    pub points: Vec<DataPoint>,
    pub batch_id: u128,
    pub received_at: Timestamp,
}

impl DataBatch {
    /// A batch of `points`, received now, under a fresh identifier: stamped
    /// with the clock's reading, as [`Self::with_arrival`] makes it.
    pub fn new(points: Vec<DataPoint>) -> (b: DataBatch)
        ensures
            b.points@ == points@,
            (b.batch_id >> 76u32) & 0xF == 4,
            (b.batch_id >> 62u32) & 3 == 2,
            exists|m: UtcMoment|
                m.subsec_nanos < 1_000_000_000 && b.received_at.nanos == match #[trigger] epoch_nanos_opt(m) {
                    Some(n) => n as u64,
                    None => 0,
                },
    {
        DataBatch::with_arrival(points, random_uuid(), Timestamp::now())
    }

    /// A batch of `points` under `batch_id`, received at `received_at`.
    pub fn with_arrival(points: Vec<DataPoint>, batch_id: u128, received_at: Timestamp) -> (b: DataBatch)
        ensures
            b.points@ == points@,
            b.batch_id == batch_id,
            b.received_at == received_at,
    {
        DataBatch { points, batch_id, received_at }
    }

    /// How many samples the batch holds.
    pub fn len(&self) -> (n: usize)
        ensures
            n == self.points@.len(),
    {
        self.points.len()
    }

    /// Whether the batch holds no sample.
    pub fn is_empty(&self) -> (b: bool)
        ensures
            b == (self.points@.len() == 0),
    {
        self.points.len() == 0
    }
}

/// Quality indicator for telemetry data.
#[derive(Debug, Clone, Copy, PartialEq, Eq, Structural)]
pub enum DataQuality {
    Good,
    Suspect,
    Bad,
    Unknown,
}

/// Supported data types.
#[derive(Debug, Clone, PartialEq, Eq, Structural)]
pub enum DataType {
    Float32,
    Float64,
    Int16,
    Int32,
    UInt16,
    UInt32,
    Boolean,
}

/// Calibration of raw sensor data. The offset, the scale and the
/// polynomial's coefficients are `f64` values, held here as their bits.
#[derive(Debug, Clone)]
pub struct CalibrationConfig {
    pub offset: u64,
    pub scale: u64,
    pub polynomial: Option<Vec<u64>>,
}

/// What raises an alert. The limits, rates and sensitivities are `f64`
/// values, held here as their bits.
#[derive(Debug, Clone)]
pub enum AlertCondition {
    Threshold { min: Option<u64>, max: Option<u64> },
    RateOfChange { max_rate: u64, window_ms: u64 },
    Anomaly { sensitivity: u64 },
    Pattern { pattern_id: String },
}

/// An alert set up on a channel; its identifier is a UUID as its 128 bits.
#[derive(Debug, Clone)]
pub struct AlertConfig {
    pub id: u128,
    pub name: String,
    pub condition: AlertCondition,
    pub severity: AlertSeverity,
    pub enabled: bool,
}

/// A channel and what is known of it. The sample rate (in hertz) and the
/// limits are `f64` values, held here as their bits.
#[derive(Debug, Clone)]
pub struct ChannelConfig {
    pub id: ChannelId,
    pub name: String,
    pub unit: String,
    pub data_type: DataType,
    pub sample_rate: u64,
    pub min_value: Option<u64>,
    pub max_value: Option<u64>,
    pub calibration: Option<CalibrationConfig>,
    pub alerts: Vec<AlertConfig>,
}

/// Alert severity levels, least severe first.
#[derive(Debug, Clone, Copy, PartialEq, Eq, Structural, PartialOrd, Ord)]
pub enum AlertSeverity {
    Info,
    Warning,
    Critical,
    Emergency,
}

/// An alert raised on a channel. The identifiers are UUIDs as their 128
/// bits, and the value that raised the alert is an `f64` held as its bits.
#[derive(Debug, Clone)]
pub struct Alert {
    pub id: u128,
    pub config_id: u128,
    pub channel_id: ChannelId,
    pub timestamp: Timestamp,
    pub severity: AlertSeverity,
    pub message: String,
    pub value: u64,
    pub acknowledged: bool,
}

impl Alert {
    /// The same alert, field for field.
    pub fn duplicate(&self) -> (a: Alert)
        ensures
            a == *self,
    {
        Alert {
            id: self.id,
            config_id: self.config_id,
            channel_id: self.channel_id,
            timestamp: self.timestamp,
            severity: self.severity,
            message: self.message.clone(),
            value: self.value,
            acknowledged: self.acknowledged,
        }
    }
}

/// What went wrong in a telemetry stage.
#[derive(Debug, Clone, PartialEq, Eq)]
pub enum TelemetryError {
    /// No channel has this identifier.
    ChannelNotFound { id: ChannelId },
    /// A buffer was full.
    BufferOverflow { capacity: usize },
    /// Bytes or text did not have the expected shape.
    InvalidDataFormat { message: String },
    /// A protocol stage failed.
    ProtocolError { protocol: String, message: String },
    /// The CAN bus failed.
    CanBusError { message: String },
    /// The configuration is unusable.
    ConfigError { message: String },
    /// A model failed.
    MLError { message: String },
    /// The alert system failed.
    AlertError { message: String },
    /// Reading ran out of input; the message is what the reader reports.
    Io { message: String },
}

} // verus!
