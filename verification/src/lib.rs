//! `spatiax` — a CAN bus / DBC decoder for motorsport telemetry, with the
//! decoding rules stated as contracts and proved.

pub mod candump;
pub mod dbc;
pub mod decode;
pub mod encode;
pub mod error;
pub mod export;
pub mod frame;
pub mod ld;
pub mod live;
pub mod output;
pub mod telemetry;
pub mod text;

pub use dbc::{Database, Decoded, Message, Signal};
pub use error::Error;
pub use frame::{CanFrame, CanId, MAX_FRAME_LEN};
