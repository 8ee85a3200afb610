//! What an export adds to a session that neither the DBC nor the log
//! carries.

use vstd::prelude::*;

use crate::ld::types::{lemma_session_view, Session, SessionView};

verus! {

/// The strings i2 displays that neither the DBC nor the log carries.
#[derive(Debug, Default)]
pub struct Metadata {
    /// Driver name.
    pub driver: Option<String>,
    /// Vehicle identifier.
    pub vehicle: Option<String>,
    /// Venue name.
    pub venue: Option<String>,
    /// Free text describing the session.
    pub event: Option<String>,
}

/// `text` if it is given, else `current`.
pub open spec fn given_or(text: Option<String>, current: Seq<char>) -> Seq<char> {
    match text {
        Some(t) => t@,
        None => current,
    }
}

impl Metadata {
    /// Write every given string into `session`, leaving the others as they
    /// were.
    pub fn apply(self, session: &mut Session)
        ensures
            final(session)@ == (SessionView {
                driver: given_or(self.driver, old(session)@.driver),
                vehicle: given_or(self.vehicle, old(session)@.vehicle),
                venue: given_or(self.venue, old(session)@.venue),
                event: given_or(self.event, old(session)@.event),
                ..old(session)@
            }),
    {
        proof {
            lemma_session_view(session);
        }
        let ghost meta = self;
        if let Some(driver) = self.driver {
            session.driver = driver;
        }
        if let Some(vehicle) = self.vehicle {
            session.vehicle = vehicle;
        }
        if let Some(venue) = self.venue {
            session.venue = venue;
        }
        if let Some(event) = self.event {
            session.event = event;
        }
        proof {
            lemma_session_view(session);
        }
    }
}

} // verus!
