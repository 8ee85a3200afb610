use spatiax::telemetry::base::{ChannelConfig, ChannelId, DataType, TelemetryError};
use spatiax::telemetry::config::{TelemetryConfig, EIGHT_TENTHS, THOUSAND_HZ};

fn channel(id: u32, name: &str, rate: f64) -> ChannelConfig {
    ChannelConfig {
        id: ChannelId(id),
        name: name.to_string(),
        unit: String::new(),
        data_type: DataType::Float32,
        sample_rate: rate.to_bits(),
        min_value: None,
        max_value: None,
        calibration: None,
        alerts: Vec::new(),
    }
}

fn rate_check(c: &ChannelConfig) -> Option<String> {
    let rate = f64::from_bits(c.sample_rate);
    if rate <= 0.0 {
        Some(format!("Invalid sample rate for channel {}: {}", c.name, rate))
    } else {
        None
    }
}

fn config_error(message: &str) -> Result<(), TelemetryError> {
    Err(TelemetryError::ConfigError { message: message.to_string() })
}

#[test]
fn the_default_configuration_is_valid() {
    let config = TelemetryConfig::default();
    assert_eq!(config.system.name, "High-Speed Telemetry System");
    assert_eq!(config.system.buffer_size, 100000);
    assert!(config.system.worker_threads >= 1);
    assert_eq!(config.ingestion.queue_size, 1000000);
    assert_eq!(f64::from_bits(config.processing.default_sample_rate), 1000.0);
    assert_eq!(THOUSAND_HZ, 1000.0f64.to_bits());
    assert_eq!(f64::from_bits(config.ml.anomaly_threshold), 0.8);
    assert_eq!(EIGHT_TENTHS, 0.8f64.to_bits());
    assert_eq!(config.ml.features, vec!["mean", "std", "min", "max"]);
    assert_eq!(config.alerts.acknowledgment_timeout_ms, 300000);
    assert_eq!(config.dashboard.bind_address, "0.0.0.0");
    assert_eq!(config.dashboard.port, 8080);
    assert!(config.channels.is_empty());
    assert_eq!(config.validate(rate_check), Ok(()));
}

#[test]
fn repeated_identifiers_and_names_are_refused() {
    let mut config = TelemetryConfig::default();
    config.channels = vec![channel(1, "rpm", 100.0), channel(1, "speed", 100.0)];
    assert_eq!(config.validate(rate_check), config_error("Duplicate channel ID: ChannelId(1)"));
    config.channels = vec![channel(1, "rpm", 100.0), channel(2, "rpm", 100.0)];
    assert_eq!(config.validate(rate_check), config_error("Duplicate channel name: rpm"));
}

#[test]
fn the_first_problem_in_channel_order_is_reported() {
    let mut config = TelemetryConfig::default();
    config.channels = vec![channel(1, "rpm", 0.0), channel(1, "rpm", 100.0)];
    assert_eq!(config.validate(rate_check), config_error("Invalid sample rate for channel rpm: 0"));
    config.channels = vec![channel(1, "rpm", 50.0), channel(2, "oil", -2.5), channel(2, "oil", 1.0)];
    assert_eq!(config.validate(rate_check), config_error("Invalid sample rate for channel oil: -2.5"));
}

#[test]
fn a_zero_buffer_or_worker_count_is_refused() {
    let mut config = TelemetryConfig::default();
    config.system.buffer_size = 0;
    assert_eq!(config.validate(rate_check), config_error("Buffer size must be greater than 0"));
    config.system.buffer_size = 1;
    config.system.worker_threads = 0;
    assert_eq!(config.validate(rate_check), config_error("Worker threads must be greater than 0"));
}

#[test]
fn channels_are_found_by_identifier_and_name() {
    let mut config = TelemetryConfig::default();
    config.channels = vec![channel(1, "rpm", 100.0), channel(2, "oil", 10.0), channel(2, "dup", 5.0)];
    assert_eq!(config.get_channel(ChannelId(2)).map(|c| c.name.clone()), Some("oil".to_string()));
    assert_eq!(config.get_channel_by_name("rpm").map(|c| c.id), Some(ChannelId(1)));
    assert!(config.get_channel(ChannelId(3)).is_none());
    assert!(config.get_channel_by_name("speed").is_none());
}
