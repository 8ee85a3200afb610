# spatiax

A CAN bus / DBC decoder for motorsport telemetry, written in Verus: the
decoding rules are stated as `requires` / `ensures` contracts and proved.

## Layout

- `src/` — the verified library.
  - `frame.rs` — CAN identifiers (the DBC extended flag has one
    interpretation site) and fixed-size frames of up to 64 bytes.
  - `decode.rs`, `encode.rs` — bit extraction and insertion for Intel and
    Motorola layouts, with the laws that tie them together
    (insert-then-extract, insertion touches only the signal's bits,
    `required_bytes` is the span touched).
  - `dbc/` — the DBC model, the parser for `BO_`, `SG_` and `VAL_` records,
    multiplexed decoding, value-table labels and the layout checks.
  - `candump.rs` — `candump` log lines into frames.
  - `ld/` — resampling decoded signals onto a grid and writing MoTeC `.ld`
    files.
  - `output.rs`, `export.rs`, `live.rs` — the text and CSV forms of decoded
    values, the session metadata an export adds, and what live capture
    keeps of a received frame.
  - `telemetry/` — the telemetry stages: frame boundaries of serial and
    network streams, the binary and CSV protocol decoders, the per-channel
    ring buffers and the bounded ingestion queue, CAN signal layouts and
    databases, the channel registry, the configuration and its checks, and
    the alert lifecycle (active alerts, history, rate limiting, cleanup).
- `app/` — the `spatiax` command line (`decode`, `check`, `export`,
  `live`), file and socket I/O, and the floating-point scaling of raw
  values.
- `tests/` — tests run against the compiled library.

Every `f64` the library carries (scales, offsets, limits) is held as its
bits; the arithmetic on them happens in `app/`.

The keyed collections of the telemetry stages (the channel registry's
channels and names, the per-channel buffers, the alert manager's rules and
states, the decoder's channel layouts) are vectors of entries under the
invariant that no key repeats, not concurrent or hashed maps. The library
changes them only through `&mut self`, so no map that mutates behind a
shared reference is needed, and a vector lets every operation's contract
say exactly which entry it adds, replaces or removes, and in which order a
listing returns them. The CAN database keeps its messages in a vector in
insertion order, with a `HashMap` from identifier to position as its index.
