//! Reading typed values out of raw sensor bytes.

use vstd::prelude::*;

use std::collections::HashMap;

use crate::telemetry::base::{ChannelId, DataQuality, TelemetryError, Timestamp};
use crate::dbc::parser::{lemma_line_end_bounds, line_at, line_end};
use crate::telemetry::entries::{has_key, key_slot, keys_distinct, lemma_key_slot, upsert_entry};
use crate::text::{
    append_decimal, append_hex_lower, chars_of, decimal, hex_lower, parse_uint, parse_unsigned,
    push_char, push_str, starts_with, string_of, token_vec,
};
use vstd::utf8::{decode_utf8, valid_utf8};

verus! {

broadcast use vstd::std_specs::hash::group_hash_axioms;

/// Data types supported by the decoder.
#[derive(Debug, Clone, Copy, PartialEq, Eq, Structural)]
pub enum DecoderDataType {
    UInt8,
    Int8,
    UInt16,
    Int16,
    UInt32,
    Int32,
    UInt64,
    Int64,
    Float32,
    Float64,
    Boolean,
}

/// Byte order for multi-byte values.
#[derive(Debug, Clone, Copy, PartialEq, Eq, Structural)]
pub enum ByteOrder {
    LittleEndian,
    BigEndian,
}

/// Where a channel's value sits in a raw frame and how it is read; the
/// scaling applied afterwards is not part of it.
#[derive(Debug, Clone, Copy)]
pub struct ValueLayout {
    pub data_type: DecoderDataType,
    pub byte_order: ByteOrder,
    pub offset: usize,
    pub bit_mask: Option<u32>,
    pub bit_shift: u8,
}

/// What the bytes of a channel say, before scaling.
#[derive(Debug, Clone, Copy, PartialEq, Eq, Structural)]
pub enum RawReading {
    /// An unsigned integer type read whole, or any integer type masked and
    /// shifted (the mask applies to the low 32 bits).
    Integer(u64),
    /// A signed integer type read whole, sign-extended.
    Signed(i64),
    /// The bits of an `f32`.
    Float32(u32),
    /// The bits of an `f64`.
    Float64(u64),
    /// A boolean: whether the masked bits are set.
    Flag(bool),
}

/// Bytes a value of type `t` occupies.
pub open spec fn width(t: DecoderDataType) -> nat {
    match t {
        DecoderDataType::UInt8 | DecoderDataType::Int8 | DecoderDataType::Boolean => 1,
        DecoderDataType::UInt16 | DecoderDataType::Int16 => 2,
        DecoderDataType::UInt32 | DecoderDataType::Int32 | DecoderDataType::Float32 => 4,
        DecoderDataType::UInt64 | DecoderDataType::Int64 | DecoderDataType::Float64 => 8,
    }
}

/// The name of type `t` in messages.
pub open spec fn kind_label(t: DecoderDataType) -> Seq<char> {
    match t {
        DecoderDataType::UInt8 => "UInt8"@,
        DecoderDataType::Int8 => "Int8"@,
        DecoderDataType::UInt16 => "UInt16"@,
        DecoderDataType::Int16 => "Int16"@,
        DecoderDataType::UInt32 => "UInt32"@,
        DecoderDataType::Int32 => "Int32"@,
        DecoderDataType::UInt64 => "UInt64"@,
        DecoderDataType::Int64 => "Int64"@,
        DecoderDataType::Float32 => "Float32"@,
        DecoderDataType::Float64 => "Float64"@,
        DecoderDataType::Boolean => "Boolean"@,
    }
}

/// The number `bytes` spell least significant first.
pub open spec fn le_value(bytes: Seq<u8>) -> nat
    decreases bytes.len(),
{
    if bytes.len() == 0 {
        0
    } else {
        (bytes[0] + 256 * le_value(bytes.drop_first())) as nat
    }
}

/// The number `bytes` spell most significant first.
pub open spec fn be_value(bytes: Seq<u8>) -> nat
    decreases bytes.len(),
{
    if bytes.len() == 0 {
        0
    } else {
        (be_value(bytes.drop_last()) * 256 + bytes.last()) as nat
    }
}

/// The unsigned number the `n` bytes at `offset` spell in `order`.
pub open spec fn word(data: Seq<u8>, offset: int, n: nat, order: ByteOrder) -> nat {
    let bytes = data.subrange(offset, offset + n);
    match order {
        ByteOrder::LittleEndian => le_value(bytes),
        ByteOrder::BigEndian => be_value(bytes),
    }
}

/// An integer of type `t` read at `offset`, widened to 64 bits: signed
/// types are sign-extended.
pub open spec fn integer_at(data: Seq<u8>, offset: int, t: DecoderDataType, order: ByteOrder) -> u64 {
    let w = word(data, offset, width(t), order);
    match t {
        DecoderDataType::Int8 => ((w as u8) as i8) as i64 as u64,
        DecoderDataType::Int16 => ((w as u16) as i16) as i64 as u64,
        DecoderDataType::Int32 => ((w as u32) as i32) as i64 as u64,
        _ => w as u64,
    }
}

/// Whether `t` is a signed integer type.
pub open spec fn is_signed(t: DecoderDataType) -> bool {
    t is Int8 || t is Int16 || t is Int32 || t is Int64
}

/// Whether reading `data` under `layout` shifts the masked bits: a mask is
/// set, the type is an integer or a boolean, and the value's bytes are in
/// `data`.
pub open spec fn shifts(data: Seq<u8>, layout: ValueLayout) -> bool {
    &&& layout.bit_mask is Some
    &&& !(layout.data_type is Float32 || layout.data_type is Float64)
    &&& layout.offset + width(layout.data_type) <= data.len()
}

/// `raw` through the optional mask and shift.
pub open spec fn masked(raw: u32, mask: Option<u32>, shift: u8) -> u32 {
    match mask {
        Some(m) => (raw & m) >> shift,
        None => raw,
    }
}

/// What the bytes of `data` say under `layout`, or why they cannot say it.
pub open spec fn reading(data: Seq<u8>, layout: ValueLayout) -> Result<RawReading, Seq<char>> {
    let o = layout.offset as int;
    let t = layout.data_type;
    if o >= data.len() {
        Err("Offset "@ + decimal(o as nat) + " exceeds data length "@ + decimal(data.len()))
    } else if o + width(t) > data.len() {
        Err("Insufficient data for "@ + kind_label(t))
    } else {
        match t {
            DecoderDataType::Float32 => Ok(
                RawReading::Float32(word(data, o, 4, layout.byte_order) as u32),
            ),
            DecoderDataType::Float64 => Ok(
                RawReading::Float64(word(data, o, 8, layout.byte_order) as u64),
            ),
            DecoderDataType::Boolean => Ok(
                RawReading::Flag(masked(data[o] as u32, layout.bit_mask, layout.bit_shift) != 0),
            ),
            _ => {
                let v = integer_at(data, o, t, layout.byte_order);
                match layout.bit_mask {
                    None => if is_signed(t) {
                        Ok(RawReading::Signed(v as i64))
                    } else {
                        Ok(RawReading::Integer(v))
                    },
                    Some(_) => Ok(
                        RawReading::Integer(masked(v as u32, layout.bit_mask, layout.bit_shift) as u64),
                    ),
                }
            },
        }
    }
}

/// Read the `n` bytes at `offset` as an unsigned number in `order`.
pub(crate) fn read_word(data: &[u8], offset: usize, n: usize, order: ByteOrder) -> (w: u64)
    requires
        1 <= n <= 8,
        offset + n <= data@.len(),
    ensures
        w as nat == word(data@, offset as int, n as nat, order),
        (w as nat) < pow256(n as nat),
{
    let ghost bytes = data@.subrange(offset as int, offset + n);
    let len = data.len();
    let mut acc: u64 = 0;
    let mut k: usize = 0;
    match order {
        ByteOrder::BigEndian => {
            while k < n
                invariant
                    1 <= n <= 8,
                    len == data@.len(),
                    offset + n <= data@.len(),
                    bytes == data@.subrange(offset as int, offset + n),
                    k <= n,
                    acc as nat == be_value(bytes.take(k as int)),
                    acc < pow256(k as nat),
                decreases n - k,
            {
                proof {
                    assert(bytes.take(k + 1).drop_last() =~= bytes.take(k as int));
                    assert(bytes.take(k + 1).last() == data@[offset + k]);
                    lemma_pow256_bound(k as nat);
                }
                acc = acc * 256 + data[offset + k] as u64;
                k = k + 1;
            }
            assert(bytes.take(n as int) =~= bytes);
        },
        ByteOrder::LittleEndian => {
            while k < n
                invariant
                    1 <= n <= 8,
                    len == data@.len(),
                    offset + n <= data@.len(),
                    bytes == data@.subrange(offset as int, offset + n),
                    k <= n,
                    acc as nat == le_value(bytes.skip((n - k) as int)),
                    acc < pow256(k as nat),
                decreases n - k,
            {
                proof {
                    let rest = bytes.skip((n - k - 1) as int);
                    assert(rest.drop_first() =~= bytes.skip((n - k) as int));
                    assert(rest[0] == data@[offset + n - k - 1]);
                    lemma_pow256_bound(k as nat);
                }
                acc = acc * 256 + data[offset + n - k - 1] as u64;
                proof {
                    let rest = bytes.skip((n - k - 1) as int);
                    assert(le_value(rest) == rest[0] + 256 * le_value(rest.drop_first()));
                }
                k = k + 1;
            }
            assert(bytes.skip(0) =~= bytes);
        },
    }
    acc
}

/// 256 to the power `k`.
pub open spec fn pow256(k: nat) -> nat
    decreases k,
{
    if k == 0 {
        1
    } else {
        256 * pow256((k - 1) as nat)
    }
}

proof fn lemma_pow256_values()
    ensures
        pow256(2) == 0x1_0000,
        pow256(4) == 0x1_0000_0000,
{
    reveal_with_fuel(pow256, 5);
}

proof fn lemma_pow256_bound(k: nat)
    requires
        k < 8,
    ensures
        pow256(k) <= 0x100_0000_0000_0000,
{
    reveal_with_fuel(pow256, 9);
}

fn kind_text(t: DecoderDataType) -> (s: &'static str)
    ensures
        s@ == kind_label(t),
{
    match t {
        DecoderDataType::UInt8 => "UInt8",
        DecoderDataType::Int8 => "Int8",
        DecoderDataType::UInt16 => "UInt16",
        DecoderDataType::Int16 => "Int16",
        DecoderDataType::UInt32 => "UInt32",
        DecoderDataType::Int32 => "Int32",
        DecoderDataType::UInt64 => "UInt64",
        DecoderDataType::Int64 => "Int64",
        DecoderDataType::Float32 => "Float32",
        DecoderDataType::Float64 => "Float64",
        DecoderDataType::Boolean => "Boolean",
    }
}

fn width_of(t: DecoderDataType) -> (n: usize)
    ensures
        n == width(t),
        1 <= n <= 8,
{
    match t {
        DecoderDataType::UInt8 | DecoderDataType::Int8 | DecoderDataType::Boolean => 1,
        DecoderDataType::UInt16 | DecoderDataType::Int16 => 2,
        DecoderDataType::UInt32 | DecoderDataType::Int32 | DecoderDataType::Float32 => 4,
        DecoderDataType::UInt64 | DecoderDataType::Int64 | DecoderDataType::Float64 => 8,
    }
}

fn apply_mask(raw: u32, mask: Option<u32>, shift: u8) -> (v: u32)
    requires
        mask is Some ==> shift < 32,
    ensures
        v == masked(raw, mask, shift),
{
    match mask {
        Some(m) => (raw & m) >> shift,
        None => raw,
    }
}

/// Read a channel's value out of `data`, before scaling: the integer or
/// floating-point bits at the layout's offset, or whether a boolean's
/// masked bits are set.
pub fn extract_value(data: &[u8], layout: &ValueLayout) -> (r: Result<RawReading, TelemetryError>)
    requires
        shifts(data@, *layout) ==> layout.bit_shift < 32,
    ensures
        match r {
            Ok(v) => reading(data@, *layout) == Ok::<RawReading, Seq<char>>(v),
            Err(e) => reading(data@, *layout) matches Err(m) && e matches TelemetryError::InvalidDataFormat {
                message,
            } && message@ == m,
        },
{
    let offset = layout.offset;
    if offset >= data.len() {
        let mut message = String::new();
        push_str(&mut message, "Offset ");
        append_decimal(&mut message, offset as u64);
        push_str(&mut message, " exceeds data length ");
        append_decimal(&mut message, data.len() as u64);
        return Err(TelemetryError::InvalidDataFormat { message });
    }
    let t = layout.data_type;
    let n = width_of(t);
    if data.len() - offset < n {
        let mut message = String::new();
        push_str(&mut message, "Insufficient data for ");
        push_str(&mut message, kind_text(t));
        return Err(TelemetryError::InvalidDataFormat { message });
    }
    let w = read_word(data, offset, n, layout.byte_order);
    match t {
        DecoderDataType::Float32 => Ok(RawReading::Float32(w as u32)),
        DecoderDataType::Float64 => Ok(RawReading::Float64(w)),
        DecoderDataType::Boolean => {
            proof {
                let bytes = data@.subrange(offset as int, offset + 1);
                assert(bytes.drop_first().len() == 0);
                assert(bytes.drop_last().len() == 0);
                assert(bytes[0] == data@[offset as int]);
            }
            Ok(RawReading::Flag(apply_mask(data[offset] as u32, layout.bit_mask, layout.bit_shift) != 0))
        },
        _ => {
            let v: u64 = match t {
                DecoderDataType::Int8 => ((w as u8) as i8) as i64 as u64,
                DecoderDataType::Int16 => ((w as u16) as i16) as i64 as u64,
                DecoderDataType::Int32 => ((w as u32) as i32) as i64 as u64,
                _ => w,
            };
            match layout.bit_mask {
                None => {
                    let signed = match t {
                        DecoderDataType::Int8 | DecoderDataType::Int16 | DecoderDataType::Int32
                        | DecoderDataType::Int64 => true,
                        _ => false,
                    };
                    if signed {
                        Ok(RawReading::Signed(v as i64))
                    } else {
                        Ok(RawReading::Integer(v))
                    }
                },
                Some(_) => Ok(
                    RawReading::Integer(apply_mask(v as u32, layout.bit_mask, layout.bit_shift) as u64),
                ),
            }
        },
    }
}

/// One bit of the reflected CRC-16 register: shift right, and fold in the
/// reflected polynomial 0x1021 (0x8408) when a one drops out.
pub open spec fn crc_bit(reg: u16) -> u16 {
    if reg % 2 == 1 {
        ((reg / 2) as u16 ^ 0x8408u16) as u16
    } else {
        (reg / 2) as u16
    }
}

/// The register after `k` more bit steps.
pub open spec fn crc_bits(reg: u16, k: nat) -> u16
    decreases k,
{
    if k == 0 {
        reg
    } else {
        crc_bits(crc_bit(reg), (k - 1) as nat)
    }
}

/// The register after the bytes `bytes`, each taken least significant bit
/// first.
pub open spec fn crc_register(bytes: Seq<u8>) -> u16
    decreases bytes.len(),
{
    if bytes.len() == 0 {
        0xFFFF
    } else {
        crc_bits(crc_register(bytes.drop_last()) ^ (bytes.last() as u16), 8)
    }
}

/// The CRC-16/IBM-SDLC checksum of `bytes`: polynomial 0x1021, reflected
/// input and output, register starting at 0xFFFF and inverted at the end.
pub open spec fn crc16_ibm_sdlc(bytes: Seq<u8>) -> u16 {
    crc_register(bytes) ^ 0xFFFFu16
}

/// `crc::Crc::<u16>::new(&crc::CRC_16_IBM_SDLC).checksum`: the catalogue
/// entry's parameters are those [`crc16_ibm_sdlc`] states.
#[verifier::external_body]
fn checksum(bytes: &[u8]) -> (c: u16)
    ensures
        c == crc16_ibm_sdlc(bytes@),
{
    crc::Crc::<u16>::new(&crc::CRC_16_IBM_SDLC).checksum(bytes)
}

/// One value a binary frame carries, with its `f32` kept as bits.
#[derive(Debug, Clone, Copy, PartialEq, Eq, Structural)]
pub struct RawPoint {
    pub channel_id: ChannelId,
    pub timestamp: Timestamp,
    pub value_bits: u32,
    pub quality: DataQuality,
}

/// Why a binary frame was refused: its shape, or input that ran out.
pub enum FrameFault {
    Format(Seq<char>),
    OutOfInput,
}

/// The message a reader gives when input runs out mid-value.
pub open spec fn eof_text() -> Seq<char> {
    "failed to fill whole buffer"@
}

/// The little-endian number of the `n` bytes at `i`.
pub open spec fn le_at(data: Seq<u8>, i: int, n: nat) -> nat {
    le_value(data.subrange(i, i + n))
}

/// The quality a quality byte stands for.
pub open spec fn quality_of(b: u8) -> DataQuality {
    if b == 0 {
        DataQuality::Good
    } else if b == 1 {
        DataQuality::Suspect
    } else if b == 2 {
        DataQuality::Bad
    } else {
        DataQuality::Unknown
    }
}

/// The mapped points of the seven-byte records from `pos` up to `stop`.
pub open spec fn records(
    data: Seq<u8>,
    mapping: Map<u16, ChannelId>,
    ts: u64,
    pos: int,
    stop: int,
) -> Seq<RawPoint>
    decreases stop + 7 - pos,
{
    if pos >= stop {
        Seq::empty()
    } else {
        let id = le_at(data, pos, 2) as u16;
        let here = if mapping.contains_key(id) {
            seq![
                RawPoint {
                    channel_id: mapping[id],
                    timestamp: Timestamp { nanos: ts },
                    value_bits: le_at(data, pos + 2, 4) as u32,
                    quality: quality_of(data[pos + 6]),
                },
            ]
        } else {
            Seq::empty()
        };
        here + records(data, mapping, ts, pos + 7, stop)
    }
}

/// The declared length of a binary frame.
pub open spec fn frame_length(data: Seq<u8>) -> nat {
    le_at(data, 2, 2)
}

/// Whether decoding reaches the checksum: the frame has its sync pattern,
/// its header, and the length it declares.
pub open spec fn reaches_checksum(data: Seq<u8>) -> bool {
    data.len() >= 14 && le_at(data, 0, 2) == 0x55AA && data.len() >= frame_length(data) + 4
}

/// `n` as `{:#04x}` writes it: `0x` and at least two lower-case digits.
pub open spec fn hex_pair(n: nat) -> Seq<char> {
    "0x"@ + if n < 16 {
        seq!['0'] + hex_lower(n)
    } else {
        hex_lower(n)
    }
}

/// The bytes a binary frame's checksum covers.
pub open spec fn checked_body(data: Seq<u8>) -> Seq<u8> {
    data.subrange(6, frame_length(data) - 2)
}

/// What a binary frame holds when its body's checksum is `actual`: the
/// points of the channels with a mapping, or why the frame is refused.
pub open spec fn frame_with_crc(data: Seq<u8>, mapping: Map<u16, ChannelId>, actual: u16) -> Result<
    Seq<RawPoint>,
    FrameFault,
> {
    if data.len() < 8 {
        Err(FrameFault::Format("Binary frame too short"@))
    } else if le_at(data, 0, 2) != 0x55AA {
        Err(FrameFault::Format("Invalid sync pattern"@))
    } else if data.len() < 12 {
        Err(FrameFault::OutOfInput)
    } else if data.len() < frame_length(data) + 4 {
        Err(FrameFault::Format("Frame length mismatch"@))
    } else if data.len() < 14 {
        Err(FrameFault::OutOfInput)
    } else {
        let fl = frame_length(data) as int;
        let expected = le_at(data, 12, 2);
        if expected != actual {
            Err(
                FrameFault::Format(
                    "CRC mismatch: expected "@ + hex_pair(expected) + ", got "@ + hex_pair(
                        actual as nat,
                    ),
                ),
            )
        } else {
            Ok(records(data, mapping, le_at(data, 4, 8) as u64, 14, fl - 2))
        }
    }
}

/// What a binary frame holds: the points of the channels with a mapping,
/// or why the frame is refused.
pub open spec fn binary_frame(data: Seq<u8>, mapping: Map<u16, ChannelId>) -> Result<
    Seq<RawPoint>,
    FrameFault,
> {
    frame_with_crc(data, mapping, crc16_ibm_sdlc(checked_body(data)))
}

/// Whether `e` is the error `fault` describes.
pub open spec fn fault_is(e: TelemetryError, fault: FrameFault) -> bool {
    match fault {
        FrameFault::Format(m) => e matches TelemetryError::InvalidDataFormat { message }
            && message@ == m,
        FrameFault::OutOfInput => e matches TelemetryError::Io { message } && message@
            == eof_text(),
    }
}

/// Decoder of the binary telemetry protocol.
pub struct BinaryProtocolDecoder {
    name: String,
    channel_mapping: HashMap<u16, ChannelId>,
}

fn format_error(text: &str) -> (e: TelemetryError)
    ensures
        e matches TelemetryError::InvalidDataFormat { message } && message@ == text@,
{
    let mut message = String::new();
    push_str(&mut message, text);
    assert(message@ =~= text@);
    TelemetryError::InvalidDataFormat { message }
}

pub(crate) fn eof_error() -> (e: TelemetryError)
    ensures
        e matches TelemetryError::Io { message } && message@ == eof_text(),
{
    let mut message = String::new();
    push_str(&mut message, "failed to fill whole buffer");
    assert(message@ =~= eof_text());
    TelemetryError::Io { message }
}

fn append_hex_pair(s: &mut String, n: u16)
    ensures
        final(s)@ == old(s)@ + hex_pair(n as nat),
{
    let ghost start = s@;
    push_str(s, "0x");
    if n < 16 {
        push_char(s, '0');
    }
    append_hex_lower(s, n as u64);
    assert(s@ =~= start + hex_pair(n as nat));
}

impl BinaryProtocolDecoder {
    /// The protocol-identifier-to-channel mapping.
    pub closed spec fn mapping(&self) -> Map<u16, ChannelId> {
        self.channel_mapping@
    }

    /// The decoder's name.
    pub closed spec fn spec_name(&self) -> Seq<char> {
        self.name@
    }

    /// A decoder called `name` that maps no identifier yet.
    pub fn new(name: String) -> (d: BinaryProtocolDecoder)
        ensures
            d.spec_name() == name@,
            d.mapping() == Map::<u16, ChannelId>::empty(),
    {
        BinaryProtocolDecoder { name, channel_mapping: HashMap::new() }
    }

    /// Map protocol identifier `protocol_id` to `channel_id`, replacing an
    /// earlier mapping of it.
    pub fn add_channel_mapping(&mut self, protocol_id: u16, channel_id: ChannelId)
        ensures
            final(self).mapping() == old(self).mapping().insert(protocol_id, channel_id),
            final(self).spec_name() == old(self).spec_name(),
    {
        self.channel_mapping.insert(protocol_id, channel_id);
    }

    /// The decoder's name.
    pub fn get_name(&self) -> (n: &str)
        ensures
            n@ == self.spec_name(),
    {
        self.name.as_str()
    }

    /// Decode one binary frame: a sync pattern, the frame length, a
    /// nanosecond timestamp, a checksum over the body, and seven-byte records
    /// of identifier, `f32` value and quality.
    pub fn decode(&self, data: &[u8]) -> (r: Result<Vec<RawPoint>, TelemetryError>)
        requires
            reaches_checksum(data@) ==> frame_length(data@) >= 8,
        ensures
            match r {
                Ok(points) => binary_frame(data@, self.mapping()) == Ok::<
                    Seq<RawPoint>,
                    FrameFault,
                >(points@),
                Err(e) => binary_frame(data@, self.mapping()) matches Err(fault) && fault_is(
                    e,
                    fault,
                ),
            },
    {
        proof {
            lemma_pow256_values();
        }
        let len = data.len();
        let mut actual: u16 = 0;
        if len >= 14 && read_word(data, 0, 2, ByteOrder::LittleEndian) == 0x55AA {
            let fl = read_word(data, 2, 2, ByteOrder::LittleEndian) as usize;
            if len >= fl + 4 {
                let body = vstd::slice::slice_subrange(data, 6, fl - 2);
                actual = checksum(body);
            }
        }
        self.decode_with_crc(data, actual)
    }

    /// Decode one binary frame whose body's checksum is `actual`.
    pub fn decode_with_crc(&self, data: &[u8], actual: u16) -> (r: Result<Vec<RawPoint>, TelemetryError>)
        requires
            reaches_checksum(data@) ==> frame_length(data@) >= 8,
        ensures
            match r {
                Ok(points) => frame_with_crc(data@, self.mapping(), actual) == Ok::<
                    Seq<RawPoint>,
                    FrameFault,
                >(points@),
                Err(e) => frame_with_crc(data@, self.mapping(), actual) matches Err(fault)
                    && fault_is(e, fault),
            },
    {
        let len = data.len();
        proof {
            lemma_pow256_values();
        }
        if len < 8 {
            return Err(format_error("Binary frame too short"));
        }
        let sync = read_word(data, 0, 2, ByteOrder::LittleEndian);
        if sync != 0x55AA {
            return Err(format_error("Invalid sync pattern"));
        }
        let fl = read_word(data, 2, 2, ByteOrder::LittleEndian) as usize;
        if len < 12 {
            return Err(eof_error());
        }
        let timestamp_ns = read_word(data, 4, 8, ByteOrder::LittleEndian);
        let timestamp = Timestamp::from_nanos(timestamp_ns);
        if len < fl + 4 {
            return Err(format_error("Frame length mismatch"));
        }
        if len < 14 {
            return Err(eof_error());
        }
        let expected = read_word(data, 12, 2, ByteOrder::LittleEndian) as u16;
        if expected != actual {
            let mut message = String::new();
            push_str(&mut message, "CRC mismatch: expected ");
            append_hex_pair(&mut message, expected);
            push_str(&mut message, ", got ");
            append_hex_pair(&mut message, actual);
            return Err(TelemetryError::InvalidDataFormat { message });
        }
        let mut points: Vec<RawPoint> = Vec::new();
        let stop = fl - 2;
        let mut pos: usize = 14;
        let ghost m = self.mapping();
        while pos < stop
            invariant
                len == data@.len(),
                stop + 6 <= len,
                14 <= pos,
                m == self.channel_mapping@,
                timestamp == (Timestamp { nanos: timestamp_ns }),
                pow256(2) == 0x1_0000,
                pow256(4) == 0x1_0000_0000,
                records(data@, m, timestamp_ns, 14, stop as int) == points@ + records(
                    data@,
                    m,
                    timestamp_ns,
                    pos as int,
                    stop as int,
                ),
            decreases stop + 7 - pos,
        {
            let id = read_word(data, pos, 2, ByteOrder::LittleEndian) as u16;
            let bits = read_word(data, pos + 2, 4, ByteOrder::LittleEndian) as u32;
            let q = data[pos + 6];
            let quality = if q == 0 {
                DataQuality::Good
            } else if q == 1 {
                DataQuality::Suspect
            } else if q == 2 {
                DataQuality::Bad
            } else {
                DataQuality::Unknown
            };
            let ghost before = points@;
            let ghost spec_id = le_at(data@, pos as int, 2) as u16;
            assert(id == spec_id);
            assert(bits == le_at(data@, pos + 2, 4) as u32);
            assert(quality == quality_of(data@[pos + 6]));
            match self.channel_mapping.get(&id) {
                Some(channel_id) => {
                    points.push(
                        RawPoint { channel_id: *channel_id, timestamp, value_bits: bits, quality },
                    );
                    proof {
                        assert(m.contains_key(spec_id));
                        assert(timestamp == Timestamp { nanos: timestamp_ns });
                        let p = RawPoint {
                            channel_id: m[spec_id],
                            timestamp: Timestamp { nanos: timestamp_ns },
                            value_bits: le_at(data@, pos + 2, 4) as u32,
                            quality: quality_of(data@[pos + 6]),
                        };
                        let rest = records(data@, m, timestamp_ns, pos + 7, stop as int);
                        assert(records(data@, m, timestamp_ns, pos as int, stop as int) == seq![p]
                            + rest);
                        assert(points@ == before.push(p));
                        assert(points@ + rest =~= before + (seq![p] + rest));
                    }
                },
                None => {
                    proof {
                        assert(!m.contains_key(spec_id));
                        let rest = records(data@, m, timestamp_ns, pos + 7, stop as int);
                        assert(records(data@, m, timestamp_ns, pos as int, stop as int)
                            =~= rest);
                    }
                },
            }
            pos = pos + 7;
        }
        assert(points@ + records(data@, m, timestamp_ns, pos as int, stop as int) =~= points@);
        Ok(points)
    }
}

/// How a channel is read out of a raw frame and scaled. The scale and the
/// bias are `f64` values, held here as their bits.
#[derive(Debug, Clone, Copy)]
pub struct ChannelDecoderConfig {
    pub channel_id: ChannelId,
    pub data_type: DecoderDataType,
    pub byte_order: ByteOrder,
    pub offset: usize,
    pub scale: u64,
    pub bias: u64,
    pub bit_mask: Option<u32>,
    pub bit_shift: u8,
}

/// Where a configured channel sits in a frame and how it is read.
pub open spec fn layout_of(c: ChannelDecoderConfig) -> ValueLayout {
    ValueLayout {
        data_type: c.data_type,
        byte_order: c.byte_order,
        offset: c.offset,
        bit_mask: c.bit_mask,
        bit_shift: c.bit_shift,
    }
}

impl ChannelDecoderConfig {
    /// Where the channel sits in a frame and how it is read.
    pub fn layout(&self) -> (l: ValueLayout)
        ensures
            l == layout_of(*self),
    {
        ValueLayout {
            data_type: self.data_type,
            byte_order: self.byte_order,
            offset: self.offset,
            bit_mask: self.bit_mask,
            bit_shift: self.bit_shift,
        }
    }
}

/// A channel's reading from a frame, with the scale and bias (as `f64`
/// bits) that turn it into a value.
#[derive(Debug, Clone, Copy, PartialEq, Eq, Structural)]
pub struct RawSample {
    pub channel_id: ChannelId,
    pub timestamp: Timestamp,
    pub reading: RawReading,
    pub scale: u64,
    pub bias: u64,
}

/// The sample a channel configured by `c` gives for `data` at `timestamp`,
/// or `None` when the frame does not hold its value.
pub open spec fn sample_of(c: ChannelDecoderConfig, data: Seq<u8>, timestamp: Timestamp) -> Option<RawSample> {
    match reading(data, layout_of(c)) {
        Ok(r) => Some(
            RawSample { channel_id: c.channel_id, timestamp, reading: r, scale: c.scale, bias: c.bias },
        ),
        Err(_) => None,
    }
}

/// The samples the channels of `configs` give for `data`, in order,
/// leaving out those whose value the frame does not hold.
pub open spec fn frame_samples(
    configs: Seq<(ChannelId, ChannelDecoderConfig)>,
    data: Seq<u8>,
    timestamp: Timestamp,
) -> Seq<RawSample> {
    configs.filter_map(|e: (ChannelId, ChannelDecoderConfig)| sample_of(e.1, data, timestamp))
}

/// Decoder of raw sensor frames: each channel read as its configuration
/// says.
pub struct DataDecoder {
    channel_configs: Vec<(ChannelId, ChannelDecoderConfig)>,
}

impl DataDecoder {
    /// The configurations by channel, in the order the channels were first
    /// added.
    pub closed spec fn configs(&self) -> Seq<(ChannelId, ChannelDecoderConfig)> {
        self.channel_configs@
    }

    /// No channel occurs twice, and each configuration is kept under its
    /// own channel.
    pub closed spec fn well_formed(&self) -> bool {
        &&& keys_distinct(self.channel_configs@)
        &&& forall|i: int|
            0 <= i < self.channel_configs@.len() ==> (#[trigger] self.channel_configs@[i]).0
                == self.channel_configs@[i].1.channel_id
    }

    /// A decoder with no channels.
    pub fn new() -> (d: DataDecoder)
        ensures
            d.well_formed(),
            d.configs() == Seq::<(ChannelId, ChannelDecoderConfig)>::empty(),
    {
        DataDecoder { channel_configs: Vec::new() }
    }

    /// Add a channel's configuration, replacing the one it had.
    pub fn add_channel(&mut self, config: ChannelDecoderConfig)
        requires
            old(self).well_formed(),
        ensures
            final(self).well_formed(),
            final(self).configs() == upsert_entry(old(self).configs(), config.channel_id, config),
    {
        let id = config.channel_id;
        match self.position(id) {
            Some(i) => {
                self.channel_configs.set(i, (id, config));
            },
            None => {
                self.channel_configs.push((id, config));
            },
        }
    }

    fn position(&self, id: ChannelId) -> (r: Option<usize>)
        requires
            self.well_formed(),
        ensures
            match r {
                Some(i) => i < self.channel_configs@.len() && self.channel_configs@[i as int].0 == id && key_slot(
                    self.channel_configs@,
                    id,
                ) == i && has_key(self.channel_configs@, id),
                None => !has_key(self.channel_configs@, id),
            },
    {
        let mut i: usize = 0;
        while i < self.channel_configs.len()
            invariant
                i <= self.channel_configs@.len(),
                keys_distinct(self.channel_configs@),
                forall|j: int| 0 <= j < i ==> (#[trigger] self.channel_configs@[j]).0 != id,
            decreases self.channel_configs@.len() - i,
        {
            if self.channel_configs[i].0.0 == id.0 {
                proof {
                    lemma_key_slot(self.channel_configs@, i as int);
                }
                return Some(i);
            }
            i = i + 1;
        }
        None
    }

    /// The samples of every channel whose value `data` holds, in the order
    /// the channels were added; channels whose value it does not hold are
    /// left out.
    pub fn decode_frame(&self, data: &[u8], timestamp: Timestamp) -> (r: Result<Vec<RawSample>, TelemetryError>)
        requires
            forall|i: int|
                0 <= i < self.configs().len() ==> (shifts(data@, layout_of((#[trigger] self.configs()[i]).1))
                    ==> self.configs()[i].1.bit_shift < 32),
        ensures
            r matches Ok(v) && v@ == frame_samples(self.configs(), data@, timestamp),
    {
        let ghost f = |e: (ChannelId, ChannelDecoderConfig)| sample_of(e.1, data@, timestamp);
        let mut points: Vec<RawSample> = Vec::new();
        let mut i: usize = 0;
        assert(self.channel_configs@.take(0).filter_map(f) =~= Seq::<RawSample>::empty());
        while i < self.channel_configs.len()
            invariant
                f == (|e: (ChannelId, ChannelDecoderConfig)| sample_of(e.1, data@, timestamp)),
                i <= self.channel_configs@.len(),
                forall|j: int|
                    0 <= j < self.configs().len() ==> (shifts(data@, layout_of((#[trigger] self.configs()[j]).1))
                        ==> self.configs()[j].1.bit_shift < 32),
                points@ == self.channel_configs@.take(i as int).filter_map(f),
            decreases self.channel_configs@.len() - i,
        {
            let config = &self.channel_configs[i].1;
            let layout = config.layout();
            assert(self.configs()[i as int].1 == *config);
            proof {
                assert(self.channel_configs@.take(i + 1).drop_last() =~= self.channel_configs@.take(i as int));
            }
            match extract_value(data, &layout) {
                Ok(reading) => {
                    points.push(
                        RawSample {
                            channel_id: config.channel_id,
                            timestamp,
                            reading,
                            scale: config.scale,
                            bias: config.bias,
                        },
                    );
                },
                Err(_) => {},
            }
            i = i + 1;
        }
        assert(self.channel_configs@.take(i as int) =~= self.channel_configs@);
        Ok(points)
    }
}

impl Default for DataDecoder {
    /// A decoder with no channels.
    fn default() -> (d: DataDecoder)
        ensures
            d.well_formed(),
            d.configs() == Seq::<(ChannelId, ChannelDecoderConfig)>::empty(),
    {
        DataDecoder::new()
    }
}

/// The bits of the `f64` 1.0.
pub const UNIT_SCALE: u64 = 0x3FF0_0000_0000_0000;

/// Builder of channel decoder configurations.
pub struct ChannelDecoderBuilder {
    config: ChannelDecoderConfig,
}

impl ChannelDecoderBuilder {
    /// The configuration built so far.
    pub closed spec fn spec_config(&self) -> ChannelDecoderConfig {
        self.config
    }

    /// A little-endian `f32` at offset zero of channel `channel_id`, scaled
    /// by one with no bias and no mask.
    pub fn new(channel_id: ChannelId) -> (b: ChannelDecoderBuilder)
        ensures
            b.spec_config() == (ChannelDecoderConfig {
                channel_id,
                data_type: DecoderDataType::Float32,
                byte_order: ByteOrder::LittleEndian,
                offset: 0,
                scale: UNIT_SCALE,
                bias: 0,
                bit_mask: None,
                bit_shift: 0,
            }),
    {
        ChannelDecoderBuilder {
            config: ChannelDecoderConfig {
                channel_id,
                data_type: DecoderDataType::Float32,
                byte_order: ByteOrder::LittleEndian,
                offset: 0,
                scale: UNIT_SCALE,
                bias: 0,
                bit_mask: None,
                bit_shift: 0,
            },
        }
    }

    /// Read the value as `data_type`.
    pub fn data_type(self, data_type: DecoderDataType) -> (b: ChannelDecoderBuilder)
        ensures
            b.spec_config() == (ChannelDecoderConfig { data_type, ..self.spec_config() }),
    {
        ChannelDecoderBuilder { config: ChannelDecoderConfig { data_type, ..self.config } }
    }

    /// Read the value in `byte_order`.
    pub fn byte_order(self, byte_order: ByteOrder) -> (b: ChannelDecoderBuilder)
        ensures
            b.spec_config() == (ChannelDecoderConfig { byte_order, ..self.spec_config() }),
    {
        ChannelDecoderBuilder { config: ChannelDecoderConfig { byte_order, ..self.config } }
    }

    /// Read the value at byte `offset`.
    pub fn offset(self, offset: usize) -> (b: ChannelDecoderBuilder)
        ensures
            b.spec_config() == (ChannelDecoderConfig { offset, ..self.spec_config() }),
    {
        ChannelDecoderBuilder { config: ChannelDecoderConfig { offset, ..self.config } }
    }

    /// Multiply the value by the `f64` whose bits are `scale`.
    pub fn scale(self, scale: u64) -> (b: ChannelDecoderBuilder)
        ensures
            b.spec_config() == (ChannelDecoderConfig { scale, ..self.spec_config() }),
    {
        ChannelDecoderBuilder { config: ChannelDecoderConfig { scale, ..self.config } }
    }

    /// Add the `f64` whose bits are `bias` to the value.
    pub fn bias(self, bias: u64) -> (b: ChannelDecoderBuilder)
        ensures
            b.spec_config() == (ChannelDecoderConfig { bias, ..self.spec_config() }),
    {
        ChannelDecoderBuilder { config: ChannelDecoderConfig { bias, ..self.config } }
    }

    /// Mask the raw integer with `mask`, then shift it right by `shift`.
    pub fn bit_mask(self, mask: u32, shift: u8) -> (b: ChannelDecoderBuilder)
        ensures
            b.spec_config() == (ChannelDecoderConfig {
                bit_mask: Some(mask),
                bit_shift: shift,
                ..self.spec_config()
            }),
    {
        ChannelDecoderBuilder { config: ChannelDecoderConfig { bit_mask: Some(mask), bit_shift: shift, ..self.config } }
    }

    /// The configuration.
    pub fn build(self) -> (c: ChannelDecoderConfig)
        ensures
            c == self.spec_config(),
    {
        self.config
    }
}

/// Decoder of the JSON telemetry protocol.
pub struct JsonProtocolDecoder {
    name: String,
}

impl JsonProtocolDecoder {
    /// The decoder's name.
    pub closed spec fn spec_name(&self) -> Seq<char> {
        self.name@
    }

    /// A decoder called `name`.
    pub fn new(name: String) -> (d: JsonProtocolDecoder)
        ensures
            d.spec_name() == name@,
    {
        JsonProtocolDecoder { name }
    }

    /// The decoder's name.
    pub fn get_name(&self) -> (n: &str)
        ensures
            n@ == self.spec_name(),
    {
        self.name.as_str()
    }
}

/// `std::str::from_utf8`: the text that `data` encodes when it is valid
/// UTF-8, else the `Display` text of the error. What that text says (where
/// the bad sequence starts, how long it is) is not described here.
#[verifier::external_body]
fn utf8_text(data: &[u8]) -> (r: Result<&str, String>)
    ensures
        match r {
            Ok(text) => valid_utf8(data@) && text@ == decode_utf8(data@),
            Err(_) => !valid_utf8(data@),
        },
{
    match std::str::from_utf8(data) {
        Ok(text) => Ok(text),
        Err(e) => Err(format!("{}", e)),
    }
}

/// The fields of a CSV line: the text before, between and after its
/// commas.
pub open spec fn comma_fields(line: Seq<char>) -> Seq<Seq<char>>
    decreases line.len(),
{
    if line.len() == 0 {
        seq![Seq::empty()]
    } else {
        let f = comma_fields(line.drop_last());
        if line.last() == ',' {
            f.push(Seq::empty())
        } else {
            f.update(f.len() - 1, f.last().push(line.last()))
        }
    }
}

proof fn lemma_comma_fields_len(line: Seq<char>)
    ensures
        comma_fields(line).len() >= 1,
    decreases line.len(),
{
    if line.len() > 0 {
        lemma_comma_fields_len(line.drop_last());
    }
}

/// A value of a CSV line: the channel of its column, the line's time, and
/// the field's text, which the caller reads as a number.
pub struct CsvField {
    pub channel_id: ChannelId,
    pub timestamp: Timestamp,
    pub text: String,
}

/// A CSV value with its text as characters.
pub struct CsvFieldView {
    pub channel_id: ChannelId,
    pub timestamp: Timestamp,
    pub text: Seq<char>,
}

impl View for CsvField {
    type V = CsvFieldView;

    open spec fn view(&self) -> CsvFieldView {
        CsvFieldView { channel_id: self.channel_id, timestamp: self.timestamp, text: self.text@ }
    }
}

/// The views of `v`.
pub open spec fn field_views(v: Seq<CsvField>) -> Seq<CsvFieldView> {
    v.map_values(|f: CsvField| f@)
}

/// The values of one CSV line. A line with no more fields than the
/// timestamp column's index, or than there are channel columns, gives none.
/// Otherwise its time is the timestamp field read as a `u64` count of
/// nanoseconds, or `now` when that field is no such number, and the first
/// fields give the channels' values, one field per channel in order.
pub open spec fn csv_line_fields(line: Seq<char>, setup: CsvSetup, now: Timestamp) -> Seq<CsvFieldView> {
    let f = comma_fields(line);
    if f.len() <= setup.timestamp_column || f.len() <= setup.channel_columns.len() {
        Seq::empty()
    } else {
        let ts = match parse_unsigned(f[setup.timestamp_column as int], 10, u64::MAX as nat) {
            Some(n) => Timestamp { nanos: n as u64 },
            None => now,
        };
        Seq::new(
            setup.channel_columns.len(),
            |k: int| CsvFieldView { channel_id: setup.channel_columns[k], timestamp: ts, text: f[k] },
        )
    }
}

/// The values of the lines of `s` from position `i` on, leaving out the
/// first of them when `skip`.
pub open spec fn csv_fields_from(s: Seq<char>, i: int, skip: bool, setup: CsvSetup, now: Timestamp) -> Seq<
    CsvFieldView,
>
    decreases s.len() + 1 - i,
{
    if i < 0 || i >= s.len() {
        Seq::empty()
    } else {
        let here = if skip {
            Seq::empty()
        } else {
            csv_line_fields(line_at(s, i), setup, now)
        };
        proof {
            lemma_line_end_bounds(s, i);
        }
        here + csv_fields_from(s, line_end(s, i) + 1, false, setup, now)
    }
}

/// The values of a CSV text, line by line as `str::lines` splits it, after
/// a header line when the decoder expects one.
pub open spec fn csv_fields(text: Seq<char>, setup: CsvSetup, now: Timestamp) -> Seq<CsvFieldView> {
    csv_fields_from(text, 0, setup.has_header, setup, now)
}

/// The error for bytes that are not UTF-8.
pub open spec fn not_utf8(e: TelemetryError) -> bool {
    e matches TelemetryError::InvalidDataFormat { message } && starts_with(message@, "Invalid UTF-8: "@)
}

/// Split `line` at its commas.
fn split_commas(line: &[char]) -> (f: Vec<Vec<char>>)
    ensures
        f@.map_values(|v: Vec<char>| v@) == comma_fields(line@),
{
    let mut done: Vec<Vec<char>> = Vec::new();
    let mut cur: Vec<char> = Vec::new();
    let mut i: usize = 0;
    assert(line@.take(0) =~= Seq::<char>::empty());
    assert(done@.map_values(|v: Vec<char>| v@).push(cur@) =~= comma_fields(line@.take(0)));
    while i < line.len()
        invariant
            i <= line@.len(),
            done@.map_values(|v: Vec<char>| v@).push(cur@) == comma_fields(line@.take(i as int)),
        decreases line@.len() - i,
    {
        assert(line@.take(i + 1).drop_last() =~= line@.take(i as int));
        let ghost before = done@.map_values(|v: Vec<char>| v@);
        if line[i] == ',' {
            done.push(cur);
            cur = Vec::new();
            assert(done@.map_values(|v: Vec<char>| v@) =~= before.push(comma_fields(line@.take(i as int)).last()));
        } else {
            cur.push(line[i]);
            assert(done@.map_values(|v: Vec<char>| v@) =~= before);
        }
        i = i + 1;
        assert(done@.map_values(|v: Vec<char>| v@).push(cur@) =~= comma_fields(line@.take(i as int)));
    }
    done.push(cur);
    assert(line@.take(i as int) =~= line@);
    assert(done@.map_values(|v: Vec<char>| v@) =~= comma_fields(line@));
    done
}

/// Decoder of the CSV telemetry protocol.
pub struct CsvProtocolDecoder {
    name: String,
    channel_columns: Vec<ChannelId>,
    timestamp_column: usize,
    has_header: bool,
}

/// What a CSV decoder is set up with.
pub struct CsvSetup {
    pub name: Seq<char>,
    pub channel_columns: Seq<ChannelId>,
    pub timestamp_column: usize,
    pub has_header: bool,
}

impl CsvProtocolDecoder {
    /// What the decoder is set up with.
    pub closed spec fn setup(&self) -> CsvSetup {
        CsvSetup {
            name: self.name@,
            channel_columns: self.channel_columns@,
            timestamp_column: self.timestamp_column,
            has_header: self.has_header,
        }
    }

    /// A decoder called `name` that reads the channels in `channel_columns`
    /// and the time from column `timestamp_column`, skipping a header row
    /// when `has_header`.
    pub fn new(
        name: String,
        channel_columns: Vec<ChannelId>,
        timestamp_column: usize,
        has_header: bool,
    ) -> (d: CsvProtocolDecoder)
        ensures
            d.setup() == (CsvSetup {
                name: name@,
                channel_columns: channel_columns@,
                timestamp_column,
                has_header,
            }),
    {
        CsvProtocolDecoder { name, channel_columns, timestamp_column, has_header }
    }

    /// The decoder's name.
    pub fn get_name(&self) -> (n: &str)
        ensures
            n@ == self.setup().name,
    {
        self.name.as_str()
    }

    /// Append the values of `line` to `out`, with `now` as the time of a
    /// line whose timestamp field is no number.
    fn line_fields(&self, line: &[char], now: Timestamp, out: &mut Vec<CsvField>)
        ensures
            field_views(final(out)@) == field_views(old(out)@) + csv_line_fields(line@, self.setup(), now),
    {
        let fields = split_commas(line);
        let ghost f = comma_fields(line@);
        assert(fields@.len() == f.len());
        if fields.len() <= self.timestamp_column || fields.len() <= self.channel_columns.len() {
            assert(csv_line_fields(line@, self.setup(), now) =~= Seq::<CsvFieldView>::empty());
            assert(field_views(out@) + Seq::<CsvFieldView>::empty() =~= field_views(out@));
            return;
        }
        assert(fields@[self.timestamp_column as int]@ == f[self.timestamp_column as int]);
        let timestamp = match parse_uint(fields[self.timestamp_column].as_slice(), 10, u64::MAX) {
            Some(n) => Timestamp::from_nanos(n),
            None => now,
        };
        let ghost start = field_views(out@);
        let ghost all = csv_line_fields(line@, self.setup(), now);
        let mut k: usize = 0;
        while k < self.channel_columns.len()
            invariant
                k <= self.channel_columns@.len(),
                self.channel_columns@.len() < fields@.len(),
                fields@.map_values(|v: Vec<char>| v@) == f,
                all.len() == self.channel_columns@.len(),
                forall|j: int|
                    0 <= j < all.len() ==> #[trigger] all[j] == (CsvFieldView {
                        channel_id: self.channel_columns@[j],
                        timestamp,
                        text: f[j],
                    }),
                field_views(out@) == start + all.take(k as int),
            decreases self.channel_columns@.len() - k,
        {
            let text = string_of(fields[k].as_slice());
            assert(fields@[k as int]@ == f[k as int]);
            let ghost prev = out@;
            out.push(CsvField { channel_id: self.channel_columns[k], timestamp, text });
            assert(out@[prev.len() as int]@ == all[k as int]);
            assert(field_views(out@) =~= field_views(prev).push(all[k as int]));
            assert(all.take(k + 1) =~= all.take(k as int).push(all[k as int]));
            k = k + 1;
        }
        assert(all.take(k as int) =~= all);
    }

    /// The values of the CSV text `data`, with `now` as the time of each
    /// line whose timestamp field is no number; an error when `data` is not
    /// UTF-8.
    pub fn decode_at(&self, data: &[u8], now: Timestamp) -> (r: Result<Vec<CsvField>, TelemetryError>)
        ensures
            match r {
                Ok(v) => valid_utf8(data@) && field_views(v@) == csv_fields(decode_utf8(data@), self.setup(), now),
                Err(e) => !valid_utf8(data@) && not_utf8(e),
            },
    {
        let text = match utf8_text(data) {
            Ok(text) => text,
            Err(detail) => {
                let mut message = String::new();
                push_str(&mut message, "Invalid UTF-8: ");
                push_str(&mut message, detail.as_str());
                proof {
                    reveal_strlit("Invalid UTF-8: ");
                    assert(message@.subrange(0, "Invalid UTF-8: "@.len() as int) =~= "Invalid UTF-8: "@);
                }
                return Err(TelemetryError::InvalidDataFormat { message });
            },
        };
        let s = chars_of(text);
        let mut out: Vec<CsvField> = Vec::new();
        let mut skip = self.has_header;
        let mut i: usize = 0;
        assert(field_views(out@) =~= Seq::<CsvFieldView>::empty());
        while i < s.len()
            invariant
                s@ == decode_utf8(data@),
                i <= s@.len(),
                csv_fields(s@, self.setup(), now) == field_views(out@) + csv_fields_from(
                    s@,
                    i as int,
                    skip,
                    self.setup(),
                    now,
                ),
            decreases s@.len() - i,
        {
            let mut e = i;
            while e < s.len() && s[e] != '\n'
                invariant
                    i <= e <= s@.len(),
                    line_end(s@, i as int) == line_end(s@, e as int),
                decreases s@.len() - e,
            {
                e = e + 1;
            }
            proof {
                lemma_line_end_bounds(s@, i as int);
            }
            let mut stop = e;
            if e < s.len() && e > i && s[e - 1] == '\r' {
                stop = e - 1;
            }
            let line = token_vec(s.as_slice(), i, stop);
            assert(line@ =~= line_at(s@, i as int));
            let ghost before = field_views(out@);
            if !skip {
                self.line_fields(line.as_slice(), now, &mut out);
            } else {
                assert(before + Seq::<CsvFieldView>::empty() =~= before);
            }
            skip = false;
            proof {
                assert(line_end(s@, e as int) == e);
                if e == s.len() {
                    assert(csv_fields_from(s@, e + 1, false, self.setup(), now) == csv_fields_from(
                        s@,
                        e as int,
                        false,
                        self.setup(),
                        now,
                    ));
                }
            }
            if e < s.len() {
                i = e + 1;
            } else {
                i = e;
            }
        }
        assert(csv_fields_from(s@, i as int, skip, self.setup(), now) =~= Seq::<CsvFieldView>::empty());
        assert(field_views(out@) + Seq::<CsvFieldView>::empty() =~= field_views(out@));
        Ok(out)
    }

    /// The values of the CSV text `data`, with the time now by the system
    /// clock for each line whose timestamp field is no number, as
    /// [`Self::decode_at`] reads them; an error when `data` is not UTF-8.
    pub fn decode(&self, data: &[u8]) -> (r: Result<Vec<CsvField>, TelemetryError>)
        ensures
            match r {
                Ok(v) => valid_utf8(data@) && exists|now: Timestamp|
                    field_views(v@) == #[trigger] csv_fields(decode_utf8(data@), self.setup(), now),
                Err(e) => !valid_utf8(data@) && not_utf8(e),
            },
    {
        let now = Timestamp::now();
        self.decode_at(data, now)
    }
}

} // verus!
