//! MoTeC `.ld` export: decoded CAN written as a file i2 opens.
//!
//! i2 is the analysis tool on GT3, GT4, LMP and most single-seater grids,
//! and it reads a format MoTeC has never documented. Writing it is what
//! turns "decode your log" into "decode your log and open it in the tool
//! you already use", so this module is the end of the pipeline the rest of
//! the crate builds: [`crate::candump`] supplies frames, [`crate::dbc`]
//! turns them into values, and this turns those into a file.
//!
//! Irregular CAN updates are resampled onto one fixed grid, which the
//! format forces: it has no per-sample timestamp.

pub mod sample;
pub mod types;
pub mod writer;

pub use types::{Channel, Session, NAME_LEN, SHORT_NAME_LEN, UNIT_LEN};
