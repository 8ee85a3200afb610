//! What live capture keeps of a received frame.
//!
//! Frames carry the kernel's receive time — the same clock `candump` logs —
//! so decoding a bus live and replaying a log of it give the same
//! timestamps. Remote and error frames carry no signals and are dropped.

use vstd::prelude::*;

use crate::error::Error;
use crate::frame::{len_dlc, CanFrame, CanId, MAX_FRAME_LEN};

verus! {

/// What kind of frame arrived.
#[derive(Debug, Clone, Copy, PartialEq, Eq, Structural)]
pub enum Received {
    /// A classic data frame.
    Normal,
    /// A CAN FD data frame.
    Fd,
    /// A remote request.
    Remote,
    /// An error frame.
    Fault,
}

/// Convert a received frame: `None` for remote and error frames, which
/// carry no signals.
pub fn data_frame(kind: Received, id: CanId, payload: &[u8], received_us: u64) -> (r: Option<
    Result<CanFrame, Error>,
>)
    ensures
        (kind is Remote || kind is Fault) ==> r is None,
        (kind is Normal || kind is Fd) && payload@.len() <= MAX_FRAME_LEN ==> (r matches Some(Ok(f))
            && f.payload() == payload@ && f.spec_id() == id && f.spec_timestamp() == received_us
            && f.spec_dlc() == len_dlc(payload@.len() as usize)),
        (kind is Normal || kind is Fd) && payload@.len() > MAX_FRAME_LEN ==> r == Some(
            Err::<CanFrame, Error>(Error::FrameTooLong { len: payload@.len() as usize }),
        ),
{
    match kind {
        Received::Normal | Received::Fd => {},
        Received::Remote | Received::Fault => return None,
    }
    Some(CanFrame::new(id, payload, received_us))
}

/// The receive time in microseconds since the Unix epoch, given the time
/// elapsed since the epoch in microseconds, or `None` for a clock set
/// before 1970: that reads as zero rather than failing the frame, and a
/// time past the largest `u64` reads as that largest value.
pub fn micros_since_epoch(since_epoch_us: Option<u128>) -> (us: u64)
    ensures
        us == match since_epoch_us {
            None => 0,
            Some(m) => if m > u64::MAX {
                u64::MAX as u128
            } else {
                m
            },
        },
{
    match since_epoch_us {
        None => 0,
        Some(m) => {
            if m > u64::MAX as u128 {
                u64::MAX
            } else {
                m as u64
            }
        },
    }
}

} // verus!
