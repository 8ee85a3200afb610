use spatiax::telemetry::base::{ChannelConfig, ChannelId, DataType, TelemetryError};
use spatiax::telemetry::channel::{ChannelProcessor, ChannelReading, ChannelRegistry};
use std::sync::Arc;

fn config(id: u32, name: &str, unit: &str) -> ChannelConfig {
    ChannelConfig {
        id: ChannelId(id),
        name: name.to_string(),
        unit: unit.to_string(),
        data_type: DataType::Float64,
        sample_rate: 100.0f64.to_bits(),
        min_value: None,
        max_value: Some(8000.0f64.to_bits()),
        calibration: None,
        alerts: Vec::new(),
    }
}

fn unit_of(r: Option<&ChannelConfig>) -> Option<String> {
    r.map(|c| c.unit.clone())
}

#[test]
fn a_registered_channel_is_found_by_id_and_name() {
    let mut registry = ChannelRegistry::new();
    assert!(registry.is_empty());
    registry.register(config(1, "engine_rpm", "rpm")).unwrap();
    registry.register(config(2, "oil_temp", "C")).unwrap();
    assert_eq!(registry.len(), 2);
    assert_eq!(unit_of(registry.get(ChannelId(2))), Some("C".to_string()));
    assert_eq!(unit_of(registry.get_by_name("engine_rpm")), Some("rpm".to_string()));
    assert!(registry.get(ChannelId(3)).is_none());
    assert!(registry.get_by_name("speed").is_none());
    assert_eq!(registry.get_all_ids(), vec![ChannelId(1), ChannelId(2)]);
    let names: Vec<String> = registry.get_all().iter().map(|c| c.name.clone()).collect();
    assert_eq!(names, vec!["engine_rpm".to_string(), "oil_temp".to_string()]);
}

#[test]
fn a_taken_name_is_refused() {
    let mut registry = ChannelRegistry::default();
    registry.register(config(1, "engine_rpm", "rpm")).unwrap();
    assert_eq!(
        registry.register(config(2, "engine_rpm", "rpm")),
        Err(TelemetryError::ConfigError { message: "Channel name 'engine_rpm' already exists".to_string() })
    );
    assert_eq!(registry.len(), 1);
    assert!(registry.get(ChannelId(2)).is_none());
}

#[test]
fn an_identifier_registered_again_keeps_the_new_configuration() {
    let mut registry = ChannelRegistry::new();
    registry.register(config(1, "old_name", "a")).unwrap();
    registry.register(config(1, "new_name", "b")).unwrap();
    assert_eq!(registry.len(), 1);
    assert_eq!(unit_of(registry.get(ChannelId(1))), Some("b".to_string()));
    // Both names lead to the identifier.
    assert_eq!(unit_of(registry.get_by_name("old_name")), Some("b".to_string()));
    assert_eq!(unit_of(registry.get_by_name("new_name")), Some("b".to_string()));
}

#[test]
fn removing_forgets_the_channel_and_its_name() {
    let mut registry = ChannelRegistry::new();
    registry.register(config(1, "engine_rpm", "rpm")).unwrap();
    registry.register(config(2, "oil_temp", "C")).unwrap();
    assert_eq!(registry.remove(ChannelId(1)), Ok(()));
    assert!(registry.get(ChannelId(1)).is_none());
    assert!(registry.get_by_name("engine_rpm").is_none());
    assert_eq!(registry.get_all_ids(), vec![ChannelId(2)]);
    assert_eq!(registry.remove(ChannelId(1)), Err(TelemetryError::ChannelNotFound { id: ChannelId(1) }));
    // The name is free again.
    registry.register(config(3, "engine_rpm", "rpm")).unwrap();
    assert_eq!(unit_of(registry.get_by_name("engine_rpm")), Some("rpm".to_string()));
}

#[test]
fn updating_renames_the_channel() {
    let mut registry = ChannelRegistry::new();
    registry.register(config(1, "engine_rpm", "rpm")).unwrap();
    assert_eq!(registry.update(config(1, "engine_speed", "1/min")), Ok(()));
    assert!(registry.get_by_name("engine_rpm").is_none());
    assert_eq!(unit_of(registry.get_by_name("engine_speed")), Some("1/min".to_string()));
    assert_eq!(unit_of(registry.get(ChannelId(1))), Some("1/min".to_string()));
    assert_eq!(registry.update(config(1, "engine_speed", "rpm")), Ok(()));
    assert_eq!(unit_of(registry.get_by_name("engine_speed")), Some("rpm".to_string()));
    assert_eq!(
        registry.update(config(9, "other", "x")),
        Err(TelemetryError::ChannelNotFound { id: ChannelId(9) })
    );
    assert_eq!(registry.len(), 1);
}

fn typed(id: u32, data_type: DataType) -> ChannelConfig {
    ChannelConfig { data_type, ..config(id, &format!("ch{}", id), "") }
}

#[test]
fn values_are_read_by_the_channel_data_type() {
    let mut registry = ChannelRegistry::new();
    registry.register(typed(1, DataType::Int16)).unwrap();
    registry.register(typed(2, DataType::UInt16)).unwrap();
    registry.register(typed(3, DataType::Float32)).unwrap();
    registry.register(typed(4, DataType::Float64)).unwrap();
    registry.register(typed(5, DataType::Boolean)).unwrap();
    registry.register(typed(6, DataType::Int32)).unwrap();
    registry.register(typed(7, DataType::UInt32)).unwrap();
    let p = ChannelProcessor::new(Arc::new(registry));
    let bytes = [0xFE, 0xFF, 0x01, 0x80, 0, 0, 0, 0];
    assert_eq!(p.parse_value(ChannelId(1), &bytes), Ok(ChannelReading::Signed(-2)));
    assert_eq!(p.parse_value(ChannelId(2), &bytes), Ok(ChannelReading::Unsigned(0xFFFE)));
    assert_eq!(p.parse_value(ChannelId(6), &bytes), Ok(ChannelReading::Signed(0x8001FFFEu32 as i32 as i64)));
    assert_eq!(p.parse_value(ChannelId(7), &bytes), Ok(ChannelReading::Unsigned(0x8001FFFE)));
    let f = 2.5f32.to_bits().to_le_bytes();
    assert_eq!(p.parse_value(ChannelId(3), &f), Ok(ChannelReading::Float32(2.5f32.to_bits())));
    let d = (-1.25f64).to_bits().to_le_bytes();
    assert_eq!(p.parse_value(ChannelId(4), &d), Ok(ChannelReading::Float64((-1.25f64).to_bits())));
    assert_eq!(p.parse_value(ChannelId(5), &[0]), Ok(ChannelReading::Flag(false)));
    assert_eq!(p.parse_value(ChannelId(5), &[7, 0]), Ok(ChannelReading::Flag(true)));
    assert_eq!(
        p.parse_value(ChannelId(4), &[1, 2, 3]),
        Err(TelemetryError::Io { message: "failed to fill whole buffer".to_string() })
    );
    assert_eq!(p.parse_value(ChannelId(9), &bytes), Err(TelemetryError::ChannelNotFound { id: ChannelId(9) }));
}
