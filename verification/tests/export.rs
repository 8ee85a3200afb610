use spatiax::export::Metadata;
use spatiax::ld::{Channel, Session};

#[test]
fn given_strings_are_written_and_the_rest_kept() {
    let mut session = Session::new(5, 10);
    session.venue = "Spa".to_string();
    session.push(Channel::new("A", "", vec![1]));
    let meta = Metadata {
        driver: Some("Driver One".to_string()),
        vehicle: None,
        venue: None,
        event: Some("Qualifying".to_string()),
    };
    meta.apply(&mut session);
    assert_eq!(session.driver, "Driver One");
    assert_eq!(session.vehicle, "");
    assert_eq!(session.venue, "Spa");
    assert_eq!(session.event, "Qualifying");
    assert_eq!(session.started_at_us, 5);
    assert_eq!(session.rate_hz, 10);
    assert_eq!(session.channels().len(), 1);
}

#[test]
fn default_metadata_changes_nothing() {
    let mut session = Session::new(0, 1);
    session.driver = "kept".to_string();
    Metadata::default().apply(&mut session);
    assert_eq!(session.driver, "kept");
}
