//! The telemetry side of the project: the data model that the ingestion,
//! CAN and alerting stages share, and the parts of those stages that decide
//! what raw bytes mean.

pub mod alerts;
pub mod can;
pub mod channel;
pub mod database;
pub mod decoder;
pub mod entries;
pub mod framing;
pub mod config;
pub mod base;
pub mod buffer;
pub mod ingestion;
pub mod manager;
pub mod moments;
