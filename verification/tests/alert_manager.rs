use spatiax::telemetry::alerts::AlertEngineConfig;
use spatiax::telemetry::base::{Alert, AlertSeverity, ChannelId, Timestamp, UtcMoment};
use spatiax::telemetry::manager::AlertManager;

fn alert(id: u128, channel: u32, severity: AlertSeverity, nanos: u64) -> Alert {
    Alert {
        id,
        config_id: 7,
        channel_id: ChannelId(channel),
        timestamp: Timestamp::from_nanos(nanos),
        severity,
        message: format!("alert {}", id),
        value: 42.5f64.to_bits(),
        acknowledged: false,
    }
}

fn moment(secs: i64, subsec_nanos: u32) -> UtcMoment {
    UtcMoment { secs, subsec_nanos }
}

fn ids(alerts: &[Alert]) -> Vec<u128> {
    alerts.iter().map(|a| a.id).collect()
}

fn limits(window_ms: u64, per_channel: usize) -> AlertEngineConfig {
    AlertEngineConfig { rate_limit_window_ms: window_ms, max_alerts_per_channel: per_channel, ..AlertEngineConfig::default() }
}

#[test]
fn a_new_manager_holds_nothing() {
    let m: AlertManager<()> = AlertManager::new(10, 10);
    assert!(m.get_active_alerts().is_empty());
    let stats = m.get_stats();
    assert_eq!(stats.total_alerts, 0);
    assert_eq!(stats.active_alerts, 0);
    assert!(stats.alerts_by_channel.is_empty());
}

#[test]
fn alerts_become_active_until_the_limit() {
    let mut m: AlertManager<()> = AlertManager::new(2, 10);
    m.add_alert(alert(1, 1, AlertSeverity::Info, 0));
    m.add_alert(alert(2, 1, AlertSeverity::Info, 0));
    m.add_alert(alert(3, 2, AlertSeverity::Info, 0));
    assert_eq!(ids(&m.get_active_alerts()), vec![1, 2]);
    assert_eq!(m.get_stats().total_alerts, 3);
}

#[test]
fn an_alert_with_a_known_identifier_replaces_the_active_one() {
    let mut m: AlertManager<()> = AlertManager::new(3, 10);
    m.add_alert(alert(1, 1, AlertSeverity::Info, 0));
    m.add_alert(alert(2, 1, AlertSeverity::Info, 0));
    m.add_alert(alert(1, 5, AlertSeverity::Critical, 9));
    let active = m.get_active_alerts();
    assert_eq!(ids(&active), vec![1, 2]);
    assert_eq!(active[0].channel_id, ChannelId(5));
    assert_eq!(active[0].severity, AlertSeverity::Critical);
    assert_eq!(m.get_stats().total_alerts, 3);
}

#[test]
fn the_history_keeps_the_latest_alerts() {
    let mut m: AlertManager<()> = AlertManager::new(0, 2);
    for id in 1..=5 {
        m.add_alert(alert(id, 1, AlertSeverity::Info, 0));
    }
    let stats = m.get_stats();
    assert_eq!(stats.total_alerts, 2);
    assert_eq!(stats.active_alerts, 0);
}

#[test]
fn acknowledging_marks_only_a_known_alert() {
    let mut m: AlertManager<()> = AlertManager::new(5, 5);
    m.add_alert(alert(1, 1, AlertSeverity::Warning, 0));
    m.add_alert(alert(2, 1, AlertSeverity::Warning, 0));
    assert!(m.acknowledge_alert(2, "operator".to_string()));
    assert!(!m.acknowledge_alert(3, "operator".to_string()));
    let active = m.get_active_alerts();
    assert!(!active[0].acknowledged);
    assert!(active[1].acknowledged);
    assert_eq!(m.get_stats().acknowledged_alerts, 1);
}

#[test]
fn stats_count_severities_and_channels() {
    let mut m: AlertManager<()> = AlertManager::new(10, 10);
    m.add_alert(alert(1, 3, AlertSeverity::Critical, 0));
    m.add_alert(alert(2, 4, AlertSeverity::Emergency, 0));
    m.add_alert(alert(3, 3, AlertSeverity::Warning, 0));
    m.add_alert(alert(4, 3, AlertSeverity::Info, 0));
    m.add_alert(alert(5, 9, AlertSeverity::Info, 0));
    let stats = m.get_stats();
    assert_eq!(stats.active_alerts, 5);
    assert_eq!(stats.critical_alerts, 2);
    assert_eq!(stats.warning_alerts, 1);
    assert_eq!(stats.info_alerts, 2);
    assert_eq!(stats.acknowledged_alerts, 0);
    let mut by_channel = stats.alerts_by_channel.clone();
    by_channel.sort_by_key(|(c, _)| c.0);
    assert_eq!(by_channel, vec![(ChannelId(3), 3), (ChannelId(4), 1), (ChannelId(9), 1)]);
}

#[test]
fn a_channel_is_limited_within_its_window() {
    let mut m: AlertManager<()> = AlertManager::new(10, 10);
    let config = limits(1000, 2);
    let a = alert(1, 1, AlertSeverity::Info, 0);
    let b = alert(2, 2, AlertSeverity::Info, 0);
    assert!(m.should_process_alert_at(&a, &config, moment(100, 0)));
    assert!(m.should_process_alert_at(&a, &config, moment(100, 1_000_000)));
    assert!(!m.should_process_alert_at(&a, &config, moment(100, 999_000_000)));
    // Another channel has a window of its own.
    assert!(m.should_process_alert_at(&b, &config, moment(100, 999_000_000)));
    // Exactly the window length is not longer than the window.
    assert!(!m.should_process_alert_at(&a, &config, moment(101, 0)));
    // One nanosecond more starts a new window.
    assert!(m.should_process_alert_at(&a, &config, moment(101, 1)));
    assert!(m.should_process_alert_at(&a, &config, moment(101, 2)));
    assert!(!m.should_process_alert_at(&a, &config, moment(101, 3)));
}

#[test]
fn no_more_than_the_limit_is_admitted_in_a_window() {
    let mut m: AlertManager<()> = AlertManager::new(10, 10);
    let config = limits(60_000, 3);
    let a = alert(1, 1, AlertSeverity::Info, 0);
    let admitted = (0..20)
        .filter(|k| m.should_process_alert_at(&a, &config, moment(1_000 + k, 0)))
        .count();
    assert_eq!(admitted, 3);
}

#[test]
fn a_channel_with_no_allowance_is_always_refused() {
    let mut m: AlertManager<()> = AlertManager::new(10, 10);
    let config = limits(1000, 0);
    assert!(!m.should_process_alert_at(&alert(1, 1, AlertSeverity::Info, 0), &config, moment(5, 0)));
}

#[test]
fn the_default_configuration_admits_a_first_alert_now() {
    let mut m: AlertManager<()> = AlertManager::new(10, 10);
    assert!(m.should_process_alert(&alert(1, 1, AlertSeverity::Info, 0), &AlertEngineConfig::default()));
}

#[test]
fn cleanup_removes_old_acknowledged_alerts() {
    let mut m: AlertManager<()> = AlertManager::new(10, 10);
    m.add_alert(alert(1, 1, AlertSeverity::Info, 1_000_000_000));
    m.add_alert(alert(2, 1, AlertSeverity::Info, 1_000_000_000));
    m.add_alert(alert(3, 1, AlertSeverity::Info, 1_500_000_000));
    assert!(m.acknowledge_alert(1, "a".to_string()));
    assert!(m.acknowledge_alert(3, "a".to_string()));
    // Timeout of one second; at 2.5 s alert 1 is 1.5 s old, alert 3 exactly 1 s.
    assert_eq!(m.cleanup_alerts_at(1000, moment(2, 500_000_000)), 1);
    assert_eq!(ids(&m.get_active_alerts()), vec![2, 3]);
    assert_eq!(m.cleanup_alerts_at(1000, moment(2, 500_000_001)), 1);
    assert_eq!(ids(&m.get_active_alerts()), vec![2]);
    // Unacknowledged alerts stay, however old.
    assert_eq!(m.cleanup_alerts_at(0, moment(1_000_000, 0)), 0);
    assert_eq!(ids(&m.get_active_alerts()), vec![2]);
}

#[test]
fn cleanup_by_the_clock_removes_acknowledged_alerts_from_long_ago() {
    let mut m: AlertManager<()> = AlertManager::new(10, 10);
    m.add_alert(alert(1, 1, AlertSeverity::Info, 0));
    m.add_alert(alert(2, 1, AlertSeverity::Info, 0));
    m.acknowledge_alert(1, "a".to_string());
    assert_eq!(m.cleanup_alerts(300_000), 1);
    assert_eq!(ids(&m.get_active_alerts()), vec![2]);
}

#[test]
fn rules_are_added_replaced_and_removed() {
    let mut m: AlertManager<i64> = AlertManager::new(10, 10);
    m.add_rule(1, 10);
    m.add_rule(2, 20);
    m.add_rule(1, 5);
    let raised = m.evaluate_data_point(|threshold: &i64| {
        if 7 > *threshold { Some(alert(*threshold as u128, 1, AlertSeverity::Warning, 0)) } else { None }
    });
    assert_eq!(ids(&raised), vec![5]);
    assert!(m.remove_rule(1));
    assert!(!m.remove_rule(1));
    let raised = m.evaluate_data_point(|threshold: &i64| {
        if 30 > *threshold { Some(alert(*threshold as u128, 1, AlertSeverity::Warning, 0)) } else { None }
    });
    assert_eq!(ids(&raised), vec![20]);
}

#[test]
fn every_rule_is_evaluated_in_order() {
    let mut m: AlertManager<u128> = AlertManager::new(10, 10);
    for id in [4u128, 8, 15, 16] {
        m.add_rule(id, id);
    }
    let raised = m.evaluate_data_point(|id: &u128| Some(alert(*id, 1, AlertSeverity::Info, 0)));
    assert_eq!(ids(&raised), vec![4, 8, 15, 16]);
}

#[test]
fn moments_convert_to_nanoseconds_where_they_fit() {
    assert_eq!(moment(2, 5).timestamp_nanos_opt(), Some(2_000_000_005));
    assert_eq!(moment(-1, 500_000_000).timestamp_nanos_opt(), Some(-500_000_000));
    assert_eq!(moment(i64::MAX, 0).timestamp_nanos_opt(), None);
    assert_eq!(moment(-9_223_372_037, 0).timestamp_nanos_opt(), None);
    assert_eq!(Timestamp::at(moment(3, 7)).nanos, 3_000_000_007);
    assert_eq!(Timestamp::at(moment(i64::MAX, 0)).nanos, 0);
    assert_eq!(Timestamp::at(moment(-1, 0)).nanos, (-1_000_000_000i64) as u64);
    assert!(UtcMoment::now().secs > 1_600_000_000);
}

#[test]
fn timestamps_are_ordered_by_their_nanoseconds() {
    assert!(Timestamp::from_nanos(1) < Timestamp::from_nanos(2));
    assert!(Timestamp::from_nanos(5) <= Timestamp::from_nanos(5));
    assert!(Timestamp::from_nanos(u64::MAX) > Timestamp::from_nanos(0));
    assert_eq!(
        Timestamp::from_nanos(3).partial_cmp(&Timestamp::from_nanos(3)),
        Some(std::cmp::Ordering::Equal)
    );
}
