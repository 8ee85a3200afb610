//! CAN frame and identifier types.
//!
//! The payload is a fixed `[u8; 64]` plus a length rather than a `Vec`: CAN
//! FD caps a payload at 64 bytes, so `CanFrame` is `Copy` and never
//! allocates.
//!
//! DBC marks a 29-bit extended identifier by setting bit 31 of the message
//! ID. [`CanId::from_dbc`] is the only place in this crate that interprets
//! that flag.

use vstd::prelude::*;
use vstd::slice::slice_subrange;

use crate::error::Error;

verus! {

/// Maximum CAN FD payload, in bytes. Classic CAN uses at most 8 of these.
pub const MAX_FRAME_LEN: usize = 64;

const DBC_EXTENDED_FLAG: u32 = 0x8000_0000;

const EXTENDED_ID_MASK: u32 = 0x1FFF_FFFF;

const STANDARD_ID_MAX: u32 = 0x7FF;

/// A CAN identifier, carrying its own width.
///
/// An 11-bit `0x100` and a 29-bit `0x100` are different frames on the wire,
/// so they are different variants and never compare equal.
#[derive(Debug, Clone, Copy, PartialEq, Eq, Structural, Hash, PartialOrd, Ord)]
pub enum CanId {
    /// 11-bit identifier.
    Standard(u16),
    /// 29-bit identifier.
    Extended(u32),
}

/// The numeric identifier of `id`, without the width distinction.
pub open spec fn id_raw(id: CanId) -> u32 {
    match id {
        CanId::Standard(v) => v as u32,
        CanId::Extended(v) => v,
    }
}

/// What a DBC `BO_` identifier means: bit 31 set marks an extended
/// identifier whose value is the low 29 bits; bit 31 clear is a standard
/// identifier that must fit in 11 bits.
pub open spec fn dbc_id(raw: u32) -> Option<CanId> {
    if raw >= 0x8000_0000 {
        Some(CanId::Extended((raw % 0x2000_0000) as u32))
    } else if raw > 0x7FF {
        None
    } else {
        Some(CanId::Standard(raw as u16))
    }
}

impl CanId {
    /// Build a standard 11-bit identifier, rejecting out-of-range values.
    pub fn standard(raw: u16) -> (res: Result<CanId, Error>)
        ensures
            raw <= 0x7FF ==> res == Ok::<CanId, Error>(CanId::Standard(raw)),
            raw > 0x7FF ==> res == Err::<CanId, Error>(
                Error::InvalidId { raw: raw as u32, reason: "exceeds the 11-bit standard identifier range" },
            ),
    {
        if (raw as u32) > STANDARD_ID_MAX {
            return Err(
                Error::InvalidId {
                    raw: raw as u32,
                    reason: "exceeds the 11-bit standard identifier range",
                },
            );
        }
        Ok(CanId::Standard(raw))
    }

    /// Build an extended 29-bit identifier, rejecting out-of-range values.
    pub fn extended(raw: u32) -> (res: Result<CanId, Error>)
        ensures
            raw <= 0x1FFF_FFFF ==> res == Ok::<CanId, Error>(CanId::Extended(raw)),
            raw > 0x1FFF_FFFF ==> res == Err::<CanId, Error>(
                Error::InvalidId { raw, reason: "exceeds the 29-bit extended identifier range" },
            ),
    {
        if raw > EXTENDED_ID_MASK {
            return Err(
                Error::InvalidId { raw, reason: "exceeds the 29-bit extended identifier range" },
            );
        }
        Ok(CanId::Extended(raw))
    }

    /// Interpret a message identifier as written in a DBC `BO_` record.
    ///
    /// Bit 31 set means extended, and the low 29 bits are the identifier.
    /// Bit 31 clear means standard, and the value must fit in 11 bits —
    /// anything larger is a malformed DBC, not something to truncate.
    pub fn from_dbc(raw: u32) -> (res: Result<CanId, Error>)
        ensures
            dbc_id(raw) matches Some(id) ==> res == Ok::<CanId, Error>(id),
            dbc_id(raw) is None ==> res == Err::<CanId, Error>(
                Error::InvalidId { raw, reason: "no extended flag set but value exceeds 11 bits" },
            ),
    {
        if raw & DBC_EXTENDED_FLAG != 0 {
            let masked = raw & EXTENDED_ID_MASK;
            assert(raw & 0x8000_0000 != 0 <==> raw >= 0x8000_0000) by (bit_vector);
            assert(raw & 0x1FFF_FFFF == raw % 0x2000_0000) by (bit_vector);
            assert(raw & 0x1FFF_FFFF <= 0x1FFF_FFFF) by (bit_vector);
            CanId::extended(masked)
        } else if raw > STANDARD_ID_MAX {
            assert(raw & 0x8000_0000 == 0 ==> raw < 0x8000_0000) by (bit_vector);
            Err(Error::InvalidId { raw, reason: "no extended flag set but value exceeds 11 bits" })
        } else {
            Ok(CanId::Standard(raw as u16))
        }
    }

    /// The numeric identifier, without the width distinction.
    pub fn raw(self) -> (r: u32)
        ensures
            r == id_raw(self),
    {
        match self {
            CanId::Standard(v) => v as u32,
            CanId::Extended(v) => v,
        }
    }

    /// Whether this is a 29-bit identifier.
    pub fn is_extended(self) -> (b: bool)
        ensures
            b == (self is Extended),
    {
        match self {
            CanId::Standard(_) => false,
            CanId::Extended(_) => true,
        }
    }
}

/// Payload length in bytes described by a CAN FD data length code.
pub open spec fn dlc_len(dlc: u8) -> Option<usize> {
    if dlc <= 8 {
        Some(dlc as usize)
    } else if dlc == 9 {
        Some(12)
    } else if dlc == 10 {
        Some(16)
    } else if dlc == 11 {
        Some(20)
    } else if dlc == 12 {
        Some(24)
    } else if dlc == 13 {
        Some(32)
    } else if dlc == 14 {
        Some(48)
    } else if dlc == 15 {
        Some(64)
    } else {
        None
    }
}

/// The data length code that describes a payload of `len` bytes, if any.
pub open spec fn len_dlc(len: usize) -> Option<u8> {
    if len <= 8 {
        Some(len as u8)
    } else if len == 12 {
        Some(9)
    } else if len == 16 {
        Some(10)
    } else if len == 20 {
        Some(11)
    } else if len == 24 {
        Some(12)
    } else if len == 32 {
        Some(13)
    } else if len == 48 {
        Some(14)
    } else if len == 64 {
        Some(15)
    } else {
        None
    }
}

/// Payload length in bytes described by a data length code: 0 to 8 stand
/// for themselves, and 9 to 15 for the CAN FD sizes 12 to 64.
pub fn dlc_to_len(dlc: u8) -> (len: Option<usize>)
    ensures
        len == dlc_len(dlc),
{
    match dlc {
        0..=8 => Some(dlc as usize),
        9 => Some(12),
        10 => Some(16),
        11 => Some(20),
        12 => Some(24),
        13 => Some(32),
        14 => Some(48),
        15 => Some(64),
        _ => None,
    }
}

/// The data length code for a payload of `len` bytes, or `None` for a
/// length no code expresses.
pub fn len_to_dlc(len: usize) -> (dlc: Option<u8>)
    ensures
        dlc == len_dlc(len),
{
    if len <= 8 {
        Some(len as u8)
    } else if len == 12 {
        Some(9)
    } else if len == 16 {
        Some(10)
    } else if len == 20 {
        Some(11)
    } else if len == 24 {
        Some(12)
    } else if len == 32 {
        Some(13)
    } else if len == 48 {
        Some(14)
    } else if len == 64 {
        Some(15)
    } else {
        None
    }
}

/// A data length code and the payload length it describes determine each
/// other: mapping either way and back returns where it started.
pub proof fn lemma_dlc_round_trip(dlc: u8, len: usize)
    ensures
        dlc_len(dlc) matches Some(n) ==> len_dlc(n) == Some(dlc),
        len_dlc(len) matches Some(d) ==> dlc_len(d) == Some(len),
{
}

/// Whether a classic frame of `len` bytes may carry data length code `dlc`:
/// the code describes exactly that length, or the frame carries its full
/// eight bytes and the code claims more (a `len8_dlc` frame).
pub open spec fn dlc_fits(dlc: u8, len: usize) -> bool {
    dlc_len(dlc) == Some(len) || (len == 8 && 9 <= dlc <= 15)
}

/// What the frame's spec functions say of its fields.
pub(crate) proof fn lemma_frame_fields(f: &CanFrame)
    ensures
        f.spec_timestamp() == f.timestamp_us,
        f.spec_id() == f.id,
        f.spec_dlc() == f.dlc,
{
}

/// A single CAN or CAN FD frame.
///
/// `Copy`, and never heap-allocates. The constructors are the only way to
/// set the length, so `len <= MAX_FRAME_LEN` holds of every frame.
#[derive(Debug, Clone, Copy, PartialEq, Eq)]
pub struct CanFrame {
    pub(crate) id: CanId,
    pub(crate) data: [u8; MAX_FRAME_LEN],
    pub(crate) len: u8,
    pub(crate) dlc: Option<u8>,
    /// Capture time in microseconds since an arbitrary epoch. The decoder
    /// does not read this; it is carried through for downstream consumers.
    pub timestamp_us: u64,
}

impl CanFrame {
    /// The payload the frame carries.
    pub closed spec fn payload(&self) -> Seq<u8> {
        let n = if self.len <= 64 { self.len as int } else { 64 };
        self.data@.take(n)
    }

    /// The frame's identifier.
    pub closed spec fn spec_id(&self) -> CanId {
        self.id
    }

    /// The frame's capture time.
    pub closed spec fn spec_timestamp(&self) -> u64 {
        self.timestamp_us
    }

    /// The data length code the frame declares.
    pub closed spec fn spec_dlc(&self) -> Option<u8> {
        self.dlc
    }

    fn build(id: CanId, payload: &[u8], timestamp_us: u64, dlc: Option<u8>) -> (f: CanFrame)
        requires
            payload@.len() <= MAX_FRAME_LEN,
        ensures
            f.payload() == payload@,
            f.spec_id() == id,
            f.spec_dlc() == dlc,
            f.spec_timestamp() == timestamp_us,
    {
        let mut data = [0u8; 64];
        let mut i: usize = 0;
        while i < payload.len()
            invariant
                i <= payload@.len() <= 64,
                data@.len() == 64,
                forall|j: int| 0 <= j < i ==> data@[j] == payload@[j],
            decreases payload@.len() - i,
        {
            data[i] = payload[i];
            i = i + 1;
        }
        let f = CanFrame { id, data, len: payload.len() as u8, dlc, timestamp_us };
        assert(f.payload() =~= payload@);
        f
    }

    /// Build a frame from a payload slice, rejecting over-long payloads.
    ///
    /// The frame's data length code is the one that describes the payload's
    /// length, if there is one.
    pub fn new(id: CanId, payload: &[u8], timestamp_us: u64) -> (res: Result<CanFrame, Error>)
        ensures
            payload@.len() > MAX_FRAME_LEN ==> res == Err::<CanFrame, Error>(
                Error::FrameTooLong { len: payload@.len() as usize },
            ),
            payload@.len() <= MAX_FRAME_LEN ==> (res matches Ok(f) && f.payload() == payload@
                && f.spec_id() == id && f.spec_timestamp() == timestamp_us && f.spec_dlc() == len_dlc(
                payload@.len() as usize,
            )),
    {
        if payload.len() > MAX_FRAME_LEN {
            return Err(Error::FrameTooLong { len: payload.len() });
        }
        let dlc = len_to_dlc(payload.len());
        Ok(CanFrame::build(id, payload, timestamp_us, dlc))
    }

    /// Build a classic frame that declares data length code `dlc`.
    ///
    /// The code must describe the payload's length, or — for a frame that
    /// carries its full eight bytes — may claim more, as `len8_dlc` frames
    /// do.
    pub fn with_dlc(id: CanId, payload: &[u8], timestamp_us: u64, dlc: u8) -> (res: Result<
        CanFrame,
        Error,
    >)
        ensures
            payload@.len() > MAX_FRAME_LEN ==> res == Err::<CanFrame, Error>(
                Error::FrameTooLong { len: payload@.len() as usize },
            ),
            payload@.len() <= MAX_FRAME_LEN && !dlc_fits(dlc, payload@.len() as usize) ==> res
                == Err::<CanFrame, Error>(
                Error::DlcMismatch { dlc, len: payload@.len() as usize },
            ),
            payload@.len() <= MAX_FRAME_LEN && dlc_fits(dlc, payload@.len() as usize) ==> (res matches Ok(f)
                && f.payload() == payload@ && f.spec_id() == id && f.spec_timestamp() == timestamp_us
                && f.spec_dlc() == Some(dlc)),
    {
        if payload.len() > MAX_FRAME_LEN {
            return Err(Error::FrameTooLong { len: payload.len() });
        }
        let exact = match dlc_to_len(dlc) {
            Some(n) => n == payload.len(),
            None => false,
        };
        if !(exact || (payload.len() == 8 && 9 <= dlc && dlc <= 15)) {
            return Err(Error::DlcMismatch { dlc, len: payload.len() });
        }
        Ok(CanFrame::build(id, payload, timestamp_us, Some(dlc)))
    }

    /// The frame's identifier.
    pub fn id(&self) -> (id: CanId)
        ensures
            id == self.spec_id(),
    {
        self.id
    }

    /// The payload actually carried, not the full 64-byte backing array.
    pub fn data(&self) -> (d: &[u8])
        ensures
            d@ == self.payload(),
    {
        let n: usize = if self.len <= 64 {
            self.len as usize
        } else {
            64
        };
        slice_subrange(self.data.as_slice(), 0, n)
    }

    /// Payload length in bytes.
    pub fn len(&self) -> (n: usize)
        ensures
            n == self.payload().len(),
            n <= 64,
    {
        if self.len <= 64 {
            self.len as usize
        } else {
            64
        }
    }

    /// Whether the frame carries no payload.
    pub fn is_empty(&self) -> (b: bool)
        ensures
            b == (self.payload().len() == 0),
    {
        self.len == 0
    }

    /// The data length code the frame declares: the one given to
    /// [`CanFrame::with_dlc`], or else the one that describes its length.
    /// `None` for a payload length no code expresses.
    pub fn dlc(&self) -> (d: Option<u8>)
        ensures
            d == self.spec_dlc(),
    {
        self.dlc
    }
}

} // verus!
