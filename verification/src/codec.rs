//! The wire codec for events: the tagged `{"type": ..., "payload": ...}`
//! structure, as compact JSON text in UTF-8 bytes — a tag-and-payload
//! encoding, not a positional one.
//!
//! The tag is the variant name; the payload is the variant's data: a JSON
//! string for a market status, an object with `id`, `state` and `reason`
//! (a string or `null`) for an asset transition, an object of integer
//! readings for a telemetry snapshot. Strings escape the quote, the
//! backslash and control characters; integers are canonical decimal.
//! Decoding rejects malformed input — an unrecognized tag, a missing or
//! unterminated field, text that is not UTF-8 or a bad escape, a number
//! out of range, or trailing bytes — and never fabricates an event:
//! `parse_event` is the grammar's meaning, every encoder image is
//! accepted unchanged (the round-trip law), and anything outside the
//! grammar is rejected with the exact reason.

use vstd::prelude::*;
use vstd::string::StrSliceExecFns;
use vstd::utf8::decode_utf8;
use vstd::utf8::encode_utf8;
use vstd::utf8::encode_utf8_decode_utf8;
use vstd::utf8::encode_utf8_valid_utf8;
use vstd::utf8::valid_utf8;

use crate::event::SysEvent;
use crate::event::SysEventModel;
use crate::event::TelemetryField;
use crate::event::TelemetryFieldModel;
use crate::event::sample_model;

verus! {

/// Why a byte string was rejected during decoding.
#[derive(Debug, PartialEq, Eq)]
pub enum MalformedEvent {
    /// The tag names no known event variant.
    UnknownTag(String),
    /// The named required field (or its enclosing structure) is absent,
    /// mismatched or unterminated.
    MissingField(String),
    /// A string is not valid UTF-8, holds a bad escape, or holds a raw
    /// control byte.
    InvalidText,
    /// An integer reading is not canonical decimal or does not fit 64
    /// signed bits.
    InvalidNumber,
    /// Bytes remain after a complete event.
    TrailingData,
}

/// Mathematical image of a decoding error.
pub enum MalformedModel {
    UnknownTag(Seq<char>),
    MissingField(Seq<char>),
    InvalidText,
    InvalidNumber,
    TrailingData,
}

impl View for MalformedEvent {
    type V = MalformedModel;

    open spec fn view(&self) -> MalformedModel {
        match self {
            MalformedEvent::UnknownTag(t) => MalformedModel::UnknownTag(t@),
            MalformedEvent::MissingField(f) => MalformedModel::MissingField(f@),
            MalformedEvent::InvalidText => MalformedModel::InvalidText,
            MalformedEvent::InvalidNumber => MalformedModel::InvalidNumber,
            MalformedEvent::TrailingData => MalformedModel::TrailingData,
        }
    }
}

/// The bytes of `{"type":`.
pub open spec fn lit_type() -> Seq<u8> {
    seq![0x7bu8, 0x22u8, 0x74u8, 0x79u8, 0x70u8, 0x65u8, 0x22u8, 0x3au8]
}

/// The bytes of `,"payload":`.
pub open spec fn lit_payload() -> Seq<u8> {
    seq![0x2cu8, 0x22u8, 0x70u8, 0x61u8, 0x79u8, 0x6cu8, 0x6fu8, 0x61u8, 0x64u8, 0x22u8, 0x3au8]
}

/// The bytes of `{"id":`.
pub open spec fn lit_id() -> Seq<u8> {
    seq![0x7bu8, 0x22u8, 0x69u8, 0x64u8, 0x22u8, 0x3au8]
}

/// The bytes of `,"state":`.
pub open spec fn lit_state() -> Seq<u8> {
    seq![0x2cu8, 0x22u8, 0x73u8, 0x74u8, 0x61u8, 0x74u8, 0x65u8, 0x22u8, 0x3au8]
}

/// The bytes of `,"reason":`.
pub open spec fn lit_reason() -> Seq<u8> {
    seq![0x2cu8, 0x22u8, 0x72u8, 0x65u8, 0x61u8, 0x73u8, 0x6fu8, 0x6eu8, 0x22u8, 0x3au8]
}

/// The bytes of `null`.
pub open spec fn lit_null() -> Seq<u8> {
    seq![0x6eu8, 0x75u8, 0x6cu8, 0x6cu8]
}

/// The byte of a hexadecimal digit, lowercase.
pub open spec fn hex_digit(d: nat) -> u8
    recommends
        d < 16,
{
    if d < 10 {
        (0x30 + d) as u8
    } else {
        (0x57 + d) as u8
    }
}

/// The escape of one byte of UTF-8 text: quote and backslash as two-byte
/// escapes, control bytes as `\u00xx`, everything else verbatim.
pub open spec fn esc_byte(b: u8) -> Seq<u8> {
    if b == 0x22u8 {
        seq![0x5cu8, 0x22u8]
    } else if b == 0x5cu8 {
        seq![0x5cu8, 0x5cu8]
    } else if b < 0x20u8 {
        seq![0x5cu8, 0x75u8, 0x30u8, 0x30u8, hex_digit((b / 16) as nat), hex_digit((b % 16) as nat)]
    } else {
        seq![b]
    }
}

/// The escape of a whole byte string.
pub open spec fn esc_bytes(b: Seq<u8>) -> Seq<u8>
    decreases b.len(),
{
    if b.len() == 0 {
        Seq::empty()
    } else {
        esc_byte(b[0]) + esc_bytes(b.drop_first())
    }
}

/// A JSON string: a quote, the escaped UTF-8 bytes, a quote.
pub open spec fn ser_jstr(t: Seq<char>) -> Seq<u8> {
    seq![0x22u8] + esc_bytes(encode_utf8(t)) + seq![0x22u8]
}

/// The byte of a decimal digit.
pub open spec fn digit_byte(d: nat) -> u8
    recommends
        d < 10,
{
    (0x30 + d) as u8
}

/// The canonical decimal digits of a natural number.
pub open spec fn dec_bytes(n: nat) -> Seq<u8>
    decreases n,
{
    if n < 10 {
        seq![digit_byte(n)]
    } else {
        dec_bytes(n / 10).push(digit_byte(n % 10))
    }
}

/// A signed integer: an optional minus sign, then decimal digits.
pub open spec fn ser_int(v: int) -> Seq<u8> {
    if v < 0 {
        seq![0x2du8] + dec_bytes((-v) as nat)
    } else {
        dec_bytes(v as nat)
    }
}

/// One telemetry field: its key as a JSON string, a colon, its reading.
pub open spec fn ser_field(f: TelemetryFieldModel) -> Seq<u8> {
    ser_jstr(f.key) + seq![0x3au8] + ser_int(f.value)
}

/// The members after the first, each preceded by a comma.
pub open spec fn ser_fields_rest(fs: Seq<TelemetryFieldModel>) -> Seq<u8>
    decreases fs.len(),
{
    if fs.len() == 0 {
        Seq::empty()
    } else {
        seq![0x2cu8] + ser_field(fs[0]) + ser_fields_rest(fs.drop_first())
    }
}

/// The members of the telemetry object, comma-separated.
pub open spec fn ser_fields(fs: Seq<TelemetryFieldModel>) -> Seq<u8> {
    if fs.len() == 0 {
        Seq::empty()
    } else {
        ser_field(fs[0]) + ser_fields_rest(fs.drop_first())
    }
}

/// The `reason` member: a JSON string, or `null` when absent.
pub open spec fn ser_opt(o: Option<Seq<char>>) -> Seq<u8> {
    match o {
        Option::None => lit_null(),
        Option::Some(t) => ser_jstr(t),
    }
}

/// The asset-transition payload: an object with `id`, `state` and
/// `reason`, followed by the event's closing brace.
pub open spec fn ser_asset_payload(id: Seq<char>, state: Seq<char>, reason: Option<Seq<char>>) -> Seq<u8> {
    lit_id() + ser_jstr(id) + lit_state() + ser_jstr(state) + lit_reason() + ser_opt(reason)
        + seq![0x7du8, 0x7du8]
}

/// The whole wire image of an event: `{"type":` the variant name, then
/// `,"payload":` and the variant's data where it has any, then `}`.
pub open spec fn ser_event(m: SysEventModel) -> Seq<u8> {
    match m {
        SysEventModel::ConfigReloaded => lit_type() + ser_jstr("ConfigReloaded"@) + seq![0x7du8],
        SysEventModel::MarketStatus(t) => lit_type() + ser_jstr("MarketStatus"@) + lit_payload()
            + ser_jstr(t) + seq![0x7du8],
        SysEventModel::AssetTransition { id, state, reason } => lit_type() + ser_jstr(
            "AssetTransition"@,
        ) + lit_payload() + ser_asset_payload(id, state, reason),
        SysEventModel::TelemetryTick(fs) => lit_type() + ser_jstr("TelemetryTick"@) + lit_payload()
            + seq![0x7bu8] + ser_fields(fs) + seq![0x7du8, 0x7du8],
    }
}

/// A field whose reading is a 64-bit signed value — which every real
/// `TelemetryField` satisfies.
pub open spec fn wf_field(f: TelemetryFieldModel) -> bool {
    i64::MIN <= f.value <= i64::MAX
}

/// An event image every real `SysEvent` satisfies.
pub open spec fn wf_event(m: SysEventModel) -> bool {
    match m {
        SysEventModel::TelemetryTick(fs) => forall|i: int|
            0 <= i < fs.len() ==> wf_field(#[trigger] fs[i]),
        _ => true,
    }
}

/// A decimal digit byte.
pub open spec fn is_digit(b: u8) -> bool {
    0x30u8 <= b <= 0x39u8
}

/// A lowercase hexadecimal digit byte.
pub open spec fn is_hex(b: u8) -> bool {
    is_digit(b) || (0x61u8 <= b <= 0x66u8)
}

/// The value of a hexadecimal digit byte.
pub open spec fn hex_val(b: u8) -> nat
    recommends
        is_hex(b),
{
    if is_digit(b) {
        (b - 0x30u8) as nat
    } else {
        (b - 0x57u8) as nat
    }
}

/// Scans a JSON string's content from `i` (just past the opening quote)
/// to its closing quote, unescaping into `acc`; rejects an unterminated
/// string (naming the field being read), a bad escape or a raw control
/// byte.
pub open spec fn parse_content(s: Seq<u8>, i: int, acc: Seq<u8>, field: Seq<char>) -> Result<
    (Seq<u8>, int),
    MalformedModel,
>
    decreases s.len() - i,
{
    if i < 0 || i >= s.len() {
        Result::Err(MalformedModel::MissingField(field))
    } else if s[i] == 0x22u8 {
        Result::Ok((acc, i + 1))
    } else if s[i] == 0x5cu8 {
        if i + 2 <= s.len() && s[i + 1] == 0x22u8 {
            parse_content(s, i + 2, acc.push(0x22u8), field)
        } else if i + 2 <= s.len() && s[i + 1] == 0x5cu8 {
            parse_content(s, i + 2, acc.push(0x5cu8), field)
        } else if i + 2 <= s.len() && s[i + 1] == 0x75u8 {
            if i + 6 <= s.len() && s[i + 2] == 0x30u8 && s[i + 3] == 0x30u8 && is_hex(s[i + 4])
                && is_hex(s[i + 5]) {
                parse_content(
                    s,
                    i + 6,
                    acc.push((hex_val(s[i + 4]) * 16 + hex_val(s[i + 5])) as u8),
                    field,
                )
            } else {
                Result::Err(MalformedModel::InvalidText)
            }
        } else if i + 2 <= s.len() {
            Result::Err(MalformedModel::InvalidText)
        } else {
            Result::Err(MalformedModel::MissingField(field))
        }
    } else if s[i] < 0x20u8 {
        Result::Err(MalformedModel::InvalidText)
    } else {
        parse_content(s, i + 1, acc.push(s[i]), field)
    }
}

/// Reads a JSON string at `i`: a quoted, escaped UTF-8 text.
pub open spec fn parse_jstr(s: Seq<u8>, i: int, field: Seq<char>) -> Result<
    (Seq<char>, int),
    MalformedModel,
> {
    if 0 <= i < s.len() && s[i] == 0x22u8 {
        match parse_content(s, i + 1, Seq::empty(), field) {
            Result::Ok((raw, j)) => if valid_utf8(raw) {
                Result::Ok((decode_utf8(raw), j))
            } else {
                Result::Err(MalformedModel::InvalidText)
            },
            Result::Err(e) => Result::Err(e),
        }
    } else {
        Result::Err(MalformedModel::MissingField(field))
    }
}

/// The position of the first non-digit at or after `i`.
pub open spec fn digits_end(s: Seq<u8>, i: int) -> int
    decreases s.len() - i,
{
    if 0 <= i < s.len() && is_digit(s[i]) {
        digits_end(s, i + 1)
    } else {
        i
    }
}

/// The value of the digit run `s[i .. j)`.
pub open spec fn digits_val(s: Seq<u8>, i: int, j: int) -> nat
    decreases j - i,
{
    if i < j {
        digits_val(s, i, j - 1) * 10 + (if is_digit(s[j - 1]) {
            (s[j - 1] - 0x30u8) as nat
        } else {
            0
        })
    } else {
        0
    }
}

/// Reads a signed decimal integer at `i`: at most 19 digits, within the
/// 64-bit signed range.
pub open spec fn parse_int(s: Seq<u8>, i: int, field: Seq<char>) -> Result<
    (int, int),
    MalformedModel,
> {
    if i < 0 || i >= s.len() {
        Result::Err(MalformedModel::MissingField(field))
    } else {
        let neg = s[i] == 0x2du8;
        let start = if neg {
            i + 1
        } else {
            i
        };
        if start < s.len() && is_digit(s[start]) {
            let j = digits_end(s, start);
            if j - start > 19 {
                Result::Err(MalformedModel::InvalidNumber)
            } else {
                let m = digits_val(s, start, j);
                let v = if neg {
                    -(m as int)
                } else {
                    m as int
                };
                if i64::MIN <= v <= i64::MAX {
                    Result::Ok((v, j))
                } else {
                    Result::Err(MalformedModel::InvalidNumber)
                }
            }
        } else {
            Result::Err(MalformedModel::InvalidNumber)
        }
    }
}

/// Matches the bytes of `{"type":` at `i`.
pub open spec fn parse_type_key(s: Seq<u8>, i: int) -> Result<int, MalformedModel> {
    if 0 <= i && i + 8 <= s.len() && s[i] == 0x7bu8 && s[i + 1] == 0x22u8 && s[i + 2] == 0x74u8
        && s[i + 3] == 0x79u8 && s[i + 4] == 0x70u8 && s[i + 5] == 0x65u8 && s[i + 6] == 0x22u8
        && s[i + 7] == 0x3au8 {
        Result::Ok(i + 8)
    } else {
        Result::Err(MalformedModel::MissingField("type"@))
    }
}

/// Matches the bytes of `,"payload":` at `i`.
pub open spec fn parse_payload_key(s: Seq<u8>, i: int) -> Result<int, MalformedModel> {
    if 0 <= i && i + 11 <= s.len() && s[i] == 0x2cu8 && s[i + 1] == 0x22u8 && s[i + 2] == 0x70u8
        && s[i + 3] == 0x61u8 && s[i + 4] == 0x79u8 && s[i + 5] == 0x6cu8 && s[i + 6] == 0x6fu8
        && s[i + 7] == 0x61u8 && s[i + 8] == 0x64u8 && s[i + 9] == 0x22u8 && s[i + 10] == 0x3au8 {
        Result::Ok(i + 11)
    } else {
        Result::Err(MalformedModel::MissingField("payload"@))
    }
}

/// Matches the bytes of `{"id":` at `i`.
pub open spec fn parse_id_key(s: Seq<u8>, i: int) -> Result<int, MalformedModel> {
    if 0 <= i && i + 6 <= s.len() && s[i] == 0x7bu8 && s[i + 1] == 0x22u8 && s[i + 2] == 0x69u8
        && s[i + 3] == 0x64u8 && s[i + 4] == 0x22u8 && s[i + 5] == 0x3au8 {
        Result::Ok(i + 6)
    } else {
        Result::Err(MalformedModel::MissingField("id"@))
    }
}

/// Matches the bytes of `,"state":` at `i`.
pub open spec fn parse_state_key(s: Seq<u8>, i: int) -> Result<int, MalformedModel> {
    if 0 <= i && i + 9 <= s.len() && s[i] == 0x2cu8 && s[i + 1] == 0x22u8 && s[i + 2] == 0x73u8
        && s[i + 3] == 0x74u8 && s[i + 4] == 0x61u8 && s[i + 5] == 0x74u8 && s[i + 6] == 0x65u8
        && s[i + 7] == 0x22u8 && s[i + 8] == 0x3au8 {
        Result::Ok(i + 9)
    } else {
        Result::Err(MalformedModel::MissingField("state"@))
    }
}

/// Matches the bytes of `,"reason":` at `i`.
pub open spec fn parse_reason_key(s: Seq<u8>, i: int) -> Result<int, MalformedModel> {
    if 0 <= i && i + 10 <= s.len() && s[i] == 0x2cu8 && s[i + 1] == 0x22u8 && s[i + 2] == 0x72u8
        && s[i + 3] == 0x65u8 && s[i + 4] == 0x61u8 && s[i + 5] == 0x73u8 && s[i + 6] == 0x6fu8
        && s[i + 7] == 0x6eu8 && s[i + 8] == 0x22u8 && s[i + 9] == 0x3au8 {
        Result::Ok(i + 10)
    } else {
        Result::Err(MalformedModel::MissingField("reason"@))
    }
}

/// Reads the `reason` member at `i`: a JSON string, or `null`.
pub open spec fn parse_reason_value(s: Seq<u8>, i: int) -> Result<
    (Option<Seq<char>>, int),
    MalformedModel,
> {
    if 0 <= i && i + 4 <= s.len() && s[i] == 0x6eu8 && s[i + 1] == 0x75u8 && s[i + 2] == 0x6cu8
        && s[i + 3] == 0x6cu8 {
        Result::Ok((Option::None, i + 4))
    } else {
        match parse_jstr(s, i, "reason"@) {
            Result::Ok((t, j)) => Result::Ok((Option::Some(t), j)),
            Result::Err(e) => Result::Err(e),
        }
    }
}

/// Reads one telemetry member at `i`: a key, a colon, a reading.
pub open spec fn parse_field(s: Seq<u8>, i: int) -> Result<
    (TelemetryFieldModel, int),
    MalformedModel,
> {
    match parse_jstr(s, i, "payload"@) {
        Result::Err(e) => Result::Err(e),
        Result::Ok((key, j)) => if 0 <= j < s.len() && s[j] == 0x3au8 {
            match parse_int(s, j + 1, "payload"@) {
                Result::Err(e) => Result::Err(e),
                Result::Ok((v, j2)) => Result::Ok((TelemetryFieldModel { key: key, value: v }, j2)),
            }
        } else {
            Result::Err(MalformedModel::MissingField("payload"@))
        },
    }
}

/// After one member: a comma and a further member, or the closing brace.
/// A member never stands still, so the advance guard never fires on
/// input the grammar produces.
pub open spec fn parse_fields_more(s: Seq<u8>, i: int, acc: Seq<TelemetryFieldModel>) -> Result<
    (Seq<TelemetryFieldModel>, int),
    MalformedModel,
>
    decreases s.len() - i,
{
    if i < 0 || i >= s.len() {
        Result::Err(MalformedModel::MissingField("payload"@))
    } else if s[i] == 0x7du8 {
        Result::Ok((acc, i + 1))
    } else if s[i] == 0x2cu8 {
        match parse_field(s, i + 1) {
            Result::Err(e) => Result::Err(e),
            Result::Ok((f, j)) => if i < j <= s.len() {
                parse_fields_more(s, j, acc.push(f))
            } else {
                Result::Err(MalformedModel::InvalidText)
            },
        }
    } else {
        Result::Err(MalformedModel::MissingField("payload"@))
    }
}

/// Reads the telemetry object's members at `i` (just past its `{`).
pub open spec fn parse_fields(s: Seq<u8>, i: int) -> Result<
    (Seq<TelemetryFieldModel>, int),
    MalformedModel,
> {
    if 0 <= i < s.len() && s[i] == 0x7du8 {
        Result::Ok((Seq::empty(), i + 1))
    } else {
        match parse_field(s, i) {
            Result::Err(e) => Result::Err(e),
            Result::Ok((f, j)) => parse_fields_more(s, j, seq![f]),
        }
    }
}

/// The payload and end of a market-status event, after its tag.
pub open spec fn parse_market_body(s: Seq<u8>, i: int) -> Result<SysEventModel, MalformedModel> {
    match parse_payload_key(s, i) {
        Result::Err(e) => Result::Err(e),
        Result::Ok(i3) => match parse_jstr(s, i3, "payload"@) {
            Result::Err(e) => Result::Err(e),
            Result::Ok((t, i4)) => if i4 < s.len() && s[i4] == 0x7du8 {
                if i4 + 1 == s.len() {
                    Result::Ok(SysEventModel::MarketStatus(t))
                } else {
                    Result::Err(MalformedModel::TrailingData)
                }
            } else {
                Result::Err(MalformedModel::MissingField("payload"@))
            },
        },
    }
}

/// The payload and end of an asset-transition event, after its tag.
pub open spec fn parse_asset_body(s: Seq<u8>, i: int) -> Result<SysEventModel, MalformedModel> {
    match parse_payload_key(s, i) {
        Result::Err(e) => Result::Err(e),
        Result::Ok(i3) => match parse_id_key(s, i3) {
            Result::Err(e) => Result::Err(e),
            Result::Ok(i4) => match parse_jstr(s, i4, "id"@) {
                Result::Err(e) => Result::Err(e),
                Result::Ok((id, i5)) => match parse_state_key(s, i5) {
                    Result::Err(e) => Result::Err(e),
                    Result::Ok(i6) => match parse_jstr(s, i6, "state"@) {
                        Result::Err(e) => Result::Err(e),
                        Result::Ok((state, i7)) => match parse_reason_key(s, i7) {
                            Result::Err(e) => Result::Err(e),
                            Result::Ok(i8) => match parse_reason_value(s, i8) {
                                Result::Err(e) => Result::Err(e),
                                Result::Ok((reason, i9)) => if i9 + 2 <= s.len() && s[i9] == 0x7du8
                                    && s[i9 + 1] == 0x7du8 {
                                    if i9 + 2 == s.len() {
                                        Result::Ok(
                                            SysEventModel::AssetTransition {
                                                id: id,
                                                state: state,
                                                reason: reason,
                                            },
                                        )
                                    } else {
                                        Result::Err(MalformedModel::TrailingData)
                                    }
                                } else {
                                    Result::Err(MalformedModel::MissingField("payload"@))
                                },
                            },
                        },
                    },
                },
            },
        },
    }
}

/// The payload and end of a telemetry event, after its tag.
pub open spec fn parse_tick_body(s: Seq<u8>, i: int) -> Result<SysEventModel, MalformedModel> {
    match parse_payload_key(s, i) {
        Result::Err(e) => Result::Err(e),
        Result::Ok(i3) => if i3 < s.len() && s[i3] == 0x7bu8 {
            match parse_fields(s, i3 + 1) {
                Result::Err(e) => Result::Err(e),
                Result::Ok((fs, i4)) => if i4 < s.len() && s[i4] == 0x7du8 {
                    if i4 + 1 == s.len() {
                        Result::Ok(SysEventModel::TelemetryTick(fs))
                    } else {
                        Result::Err(MalformedModel::TrailingData)
                    }
                } else {
                    Result::Err(MalformedModel::MissingField("payload"@))
                },
            }
        } else {
            Result::Err(MalformedModel::MissingField("payload"@))
        },
    }
}

/// The decoder's meaning: the event a byte string denotes, or exactly why
/// it denotes none. The tag picks the variant, the payload must be
/// complete, and nothing may follow the closing brace.
pub open spec fn parse_event(s: Seq<u8>) -> Result<SysEventModel, MalformedModel> {
    match parse_type_key(s, 0) {
        Result::Err(e) => Result::Err(e),
        Result::Ok(i) => match parse_jstr(s, i, "type"@) {
            Result::Err(e) => Result::Err(e),
            Result::Ok((tag, i2)) => if tag == "ConfigReloaded"@ {
                if i2 < s.len() && s[i2] == 0x7du8 {
                    if i2 + 1 == s.len() {
                        Result::Ok(SysEventModel::ConfigReloaded)
                    } else {
                        Result::Err(MalformedModel::TrailingData)
                    }
                } else {
                    Result::Err(MalformedModel::MissingField("type"@))
                }
            } else if tag == "MarketStatus"@ {
                parse_market_body(s, i2)
            } else if tag == "AssetTransition"@ {
                parse_asset_body(s, i2)
            } else if tag == "TelemetryTick"@ {
                parse_tick_body(s, i2)
            } else {
                Result::Err(MalformedModel::UnknownTag(tag))
            },
        },
    }
}

/// One byte of a matched subrange./// One byte of a matched subrange.
proof fn lemma_at(s: Seq<u8>, i: int, w: Seq<u8>, k: int)
    requires
        0 <= i,
        0 <= k < w.len(),
        i + w.len() <= s.len(),
        s.subrange(i, i + w.len() as int) == w,
    ensures
        s[i + k] == w[k],
{
    assert(s.subrange(i, i + w.len() as int)[k] == w[k]);
}

/// A matched concatenation splits into its two matched parts.
proof fn lemma_split_prefix(s: Seq<u8>, i: int, a: Seq<u8>, c: Seq<u8>)
    requires
        0 <= i,
        i + a.len() + c.len() <= s.len(),
        s.subrange(i, i + a.len() + c.len()) == a + c,
    ensures
        s.subrange(i, i + a.len() as int) == a,
        s.subrange(i + a.len(), i + a.len() + c.len()) == c,
{
    assert(s.subrange(i, i + a.len() as int) =~= a) by {
        assert forall|k: int| 0 <= k < a.len() implies #[trigger] s.subrange(
            i,
            i + a.len() as int,
        )[k] == a[k] by {
            assert(s.subrange(i, i + a.len() + c.len())[k] == (a + c)[k]);
        }
    }
    assert(s.subrange(i + a.len(), i + a.len() + c.len()) =~= c) by {
        assert forall|k: int| 0 <= k < c.len() implies #[trigger] s.subrange(
            i + a.len(),
            i + a.len() + c.len(),
        )[k] == c[k] by {
            assert(s.subrange(i, i + a.len() + c.len())[a.len() + k] == (a + c)[a.len() + k]);
            assert((a + c)[a.len() + k] == c[k]);
            assert(s.subrange(i + a.len(), i + a.len() + c.len())[k] == s[i + a.len() + k]);
        }
    }
}

/// Escaped content scans back to the bytes it escaped, up to the closing
/// quote.
proof fn lemma_parse_content_at(s: Seq<u8>, i: int, b: Seq<u8>, acc: Seq<u8>, field: Seq<char>)
    requires
        0 <= i,
        i + esc_bytes(b).len() < s.len(),
        s.subrange(i, i + esc_bytes(b).len() as int) == esc_bytes(b),
        s[i + esc_bytes(b).len()] == 0x22u8,
    ensures
        parse_content(s, i, acc, field) == Result::Ok::<(Seq<u8>, int), MalformedModel>(
            (acc + b, i + esc_bytes(b).len() + 1),
        ),
    decreases b.len(),
{
    if b.len() == 0 {
        assert(acc + b =~= acc);
    } else {
        let whole = esc_bytes(b);
        let b0 = b[0];
        let head = esc_byte(b0);
        let rest = esc_bytes(b.drop_first());
        assert(whole == head + rest);
        lemma_split_prefix(s, i, head, rest);
        let j = i + head.len();
        assert(s[j + rest.len()] == 0x22u8);
        if b0 == 0x22u8 {
            lemma_at(s, i, head, 0);
            lemma_at(s, i, head, 1);
            lemma_parse_content_at(s, j, b.drop_first(), acc.push(0x22u8), field);
            assert(acc.push(b0) + b.drop_first() =~= acc + b);
        } else if b0 == 0x5cu8 {
            lemma_at(s, i, head, 0);
            lemma_at(s, i, head, 1);
            lemma_parse_content_at(s, j, b.drop_first(), acc.push(0x5cu8), field);
            assert(acc.push(b0) + b.drop_first() =~= acc + b);
        } else if b0 < 0x20u8 {
            lemma_at(s, i, head, 0);
            lemma_at(s, i, head, 1);
            lemma_at(s, i, head, 2);
            lemma_at(s, i, head, 3);
            lemma_at(s, i, head, 4);
            lemma_at(s, i, head, 5);
            assert(s[i + 4] == hex_digit((b0 / 16) as nat));
            assert(s[i + 5] == hex_digit((b0 % 16) as nat));
            assert(is_hex(s[i + 4]) && hex_val(s[i + 4]) == b0 / 16);
            assert(is_hex(s[i + 5]) && hex_val(s[i + 5]) == b0 % 16);
            assert((hex_val(s[i + 4]) * 16 + hex_val(s[i + 5])) as u8 == b0);
            lemma_parse_content_at(s, j, b.drop_first(), acc.push(b0), field);
            assert(acc.push(b0) + b.drop_first() =~= acc + b);
        } else {
            lemma_at(s, i, head, 0);
            lemma_parse_content_at(s, j, b.drop_first(), acc.push(b0), field);
            assert(acc.push(b0) + b.drop_first() =~= acc + b);
        }
    }
}

/// A JSON-string parse at a position holding a string's image recovers
/// it.
proof fn lemma_parse_jstr_at(s: Seq<u8>, i: int, t: Seq<char>, field: Seq<char>)
    requires
        0 <= i,
        i + ser_jstr(t).len() <= s.len(),
        s.subrange(i, i + ser_jstr(t).len() as int) == ser_jstr(t),
    ensures
        parse_jstr(s, i, field) == Result::Ok::<(Seq<char>, int), MalformedModel>(
            (t, i + ser_jstr(t).len()),
        ),
{
    broadcast use encode_utf8_valid_utf8;

    let enc = encode_utf8(t);
    let e = esc_bytes(enc);
    let q = seq![0x22u8];
    assert(ser_jstr(t) =~= q + (e + q));
    lemma_split_prefix(s, i, q, e + q);
    lemma_at(s, i, q, 0);
    lemma_split_prefix(s, i + 1, e, q);
    lemma_at(s, i + 1 + e.len(), q, 0);
    lemma_parse_content_at(s, i + 1, enc, Seq::empty(), field);
    assert(Seq::<u8>::empty() + enc =~= enc);
    encode_utf8_decode_utf8(t);
}

/// The digits of a number are digits, and their run decodes to it.
proof fn lemma_dec_val(s: Seq<u8>, i: int, n: nat)
    requires
        0 <= i,
        i + dec_bytes(n).len() <= s.len(),
        s.subrange(i, i + dec_bytes(n).len() as int) == dec_bytes(n),
    ensures
        forall|k: int| 0 <= k < dec_bytes(n).len() ==> is_digit(#[trigger] s[i + k]),
        digits_val(s, i, i + dec_bytes(n).len()) == n,
    decreases n,
{
    let d = dec_bytes(n);
    if n < 10 {
        lemma_at(s, i, d, 0);
        assert(s[i + 0] == digit_byte(n));
        assert(is_digit(s[i + 0]));
        assert forall|k: int| 0 <= k < d.len() implies is_digit(#[trigger] s[i + k]) by {
            assert(k == 0);
        }
        assert(digits_val(s, i, i) == 0);
        assert(digits_val(s, i, i + 1) == (s[i + 1 - 1] - 0x30u8) as nat);
        assert(digits_val(s, i, i + 1) == n);
    } else {
        let d2 = dec_bytes(n / 10);
        let last = seq![digit_byte(n % 10)];
        assert(d =~= d2 + last);
        lemma_split_prefix(s, i, d2, last);
        lemma_dec_val(s, i, n / 10);
        lemma_at(s, i + d2.len(), last, 0);
        assert(s[i + d2.len() + 0] == digit_byte(n % 10));
        assert(is_digit(s[i + d2.len() + 0]));
        assert forall|k: int| 0 <= k < d.len() implies is_digit(#[trigger] s[i + k]) by {
            if k < d2.len() {
                assert(is_digit(s[i + k]));
            } else {
                assert(i + k == i + d2.len() + 0);
            }
        }
        assert(digits_val(s, i, i + d.len()) == digits_val(s, i, i + d.len() - 1) * 10 + (s[i
            + d.len() - 1] - 0x30u8) as nat);
        assert(digits_val(s, i, i + d2.len()) == n / 10);
        assert((n / 10) * 10 + n % 10 == n);
    }
}

/// A digit run followed by a non-digit ends exactly there.
proof fn lemma_digits_end_at(s: Seq<u8>, i: int, len: int)
    requires
        0 <= i,
        0 <= len,
        i + len <= s.len(),
        forall|k: int| 0 <= k < len ==> is_digit(#[trigger] s[i + k]),
        i + len == s.len() || !is_digit(s[i + len]),
    ensures
        digits_end(s, i) == i + len,
    decreases len,
{
    if len == 0 {
    } else {
        assert(is_digit(s[i + 0]));
        assert forall|k: int| 0 <= k < len - 1 implies is_digit(#[trigger] s[(i + 1) + k]) by {
            assert(is_digit(s[i + (k + 1)]));
        }
        lemma_digits_end_at(s, i + 1, len - 1);
    }
}

/// Powers of ten.
pub open spec fn pow10(k: nat) -> nat
    decreases k,
{
    if k == 0 {
        1
    } else {
        10 * pow10((k - 1) as nat)
    }
}

/// A number below the `k`-th power of ten has at most `k` digits.
proof fn lemma_dec_len(n: nat, k: nat)
    requires
        1 <= k,
        n < pow10(k),
    ensures
        dec_bytes(n).len() <= k,
    decreases n,
{
    if n < 10 {
    } else {
        if k == 1 {
            assert(pow10(1) == 10) by {
                reveal_with_fuel(pow10, 3);
            }
            assert(false);
        }
        assert(pow10(k) == 10 * pow10((k - 1) as nat));
        assert(n / 10 < pow10((k - 1) as nat)) by (nonlinear_arith)
            requires
                n < 10 * pow10((k - 1) as nat),
        ;
        lemma_dec_len(n / 10, (k - 1) as nat);
    }
}

/// The value of a digit run is below the power of ten of its length.
proof fn lemma_digits_val_bound(s: Seq<u8>, i: int, j: int)
    requires
        i <= j,
    ensures
        digits_val(s, i, j) < pow10((j - i) as nat),
    decreases j - i,
{
    if i < j {
        lemma_digits_val_bound(s, i, j - 1);
        assert(pow10((j - i) as nat) == 10 * pow10((j - 1 - i) as nat));
    }
}

/// An integer parse at a position holding its image recovers it.
proof fn lemma_parse_int_at(s: Seq<u8>, i: int, v: int, field: Seq<char>)
    requires
        0 <= i,
        i64::MIN <= v <= i64::MAX,
        i + ser_int(v).len() <= s.len(),
        s.subrange(i, i + ser_int(v).len() as int) == ser_int(v),
        i + ser_int(v).len() == s.len() || !is_digit(s[i + ser_int(v).len()]),
    ensures
        parse_int(s, i, field) == Result::Ok::<(int, int), MalformedModel>(
            (v, i + ser_int(v).len()),
        ),
{
    assert(pow10(19) == 10_000_000_000_000_000_000) by {
        reveal_with_fuel(pow10, 21);
    }
    if v >= 0 {
        let d = dec_bytes(v as nat);
        lemma_dec_val(s, i, v as nat);
        assert(is_digit(s[i + 0]));
        assert(s[i] != 0x2du8);
        lemma_digits_end_at(s, i, d.len() as int);
        lemma_dec_len(v as nat, 19);
    } else {
        let m = (-v) as nat;
        let d = dec_bytes(m);
        let sign = seq![0x2du8];
        assert(ser_int(v) =~= sign + d);
        lemma_split_prefix(s, i, sign, d);
        lemma_at(s, i, sign, 0);
        lemma_dec_val(s, i + 1, m);
        assert(is_digit(s[(i + 1) + 0]));
        lemma_digits_end_at(s, i + 1, d.len() as int);
        lemma_dec_len(m, 19);
    }
}

/// A member parse at a position holding a member's image recovers it.
proof fn lemma_parse_field_at(s: Seq<u8>, i: int, f: TelemetryFieldModel)
    requires
        0 <= i,
        wf_field(f),
        i + ser_field(f).len() <= s.len(),
        s.subrange(i, i + ser_field(f).len() as int) == ser_field(f),
        i + ser_field(f).len() == s.len() || !is_digit(s[i + ser_field(f).len()]),
    ensures
        parse_field(s, i) == Result::Ok::<(TelemetryFieldModel, int), MalformedModel>(
            (f, i + ser_field(f).len()),
        ),
        i < i + ser_field(f).len(),
{
    let ks = ser_jstr(f.key);
    let colon = seq![0x3au8];
    let vs = ser_int(f.value);
    assert(ser_field(f) =~= ks + (colon + vs));
    lemma_split_prefix(s, i, ks, colon + vs);
    lemma_parse_jstr_at(s, i, f.key, "payload"@);
    let j = i + ks.len();
    lemma_split_prefix(s, j, colon, vs);
    lemma_at(s, j, colon, 0);
    lemma_parse_int_at(s, j + 1, f.value, "payload"@);
}

/// Members after the first parse back in order up to the closing brace.
proof fn lemma_parse_fields_rest_at(
    s: Seq<u8>,
    i: int,
    fs: Seq<TelemetryFieldModel>,
    acc: Seq<TelemetryFieldModel>,
)
    requires
        0 <= i,
        forall|x: int| 0 <= x < fs.len() ==> wf_field(#[trigger] fs[x]),
        i + ser_fields_rest(fs).len() < s.len(),
        s.subrange(i, i + ser_fields_rest(fs).len() as int) == ser_fields_rest(fs),
        s[i + ser_fields_rest(fs).len()] == 0x7du8,
    ensures
        parse_fields_more(s, i, acc) == Result::Ok::<
            (Seq<TelemetryFieldModel>, int),
            MalformedModel,
        >((acc + fs, i + ser_fields_rest(fs).len() + 1)),
    decreases fs.len(),
{
    if fs.len() == 0 {
        assert(acc + fs =~= acc);
    } else {
        let comma = seq![0x2cu8];
        let head = ser_field(fs[0]);
        let rest = ser_fields_rest(fs.drop_first());
        assert(ser_fields_rest(fs) =~= comma + (head + rest));
        lemma_split_prefix(s, i, comma, head + rest);
        lemma_at(s, i, comma, 0);
        lemma_split_prefix(s, i + 1, head, rest);
        let j = i + 1 + head.len();
        assert(s[j + rest.len()] == 0x7du8);
        if rest.len() == 0 {
            assert(!is_digit(s[j]));
        } else {
            let tail2 = ser_field(fs.drop_first()[0]) + ser_fields_rest(
                fs.drop_first().drop_first(),
            );
            assert(rest =~= comma + tail2);
            lemma_at(s, j, rest, 0);
            assert(s[j + 0] == (comma + tail2)[0]);
            assert(!is_digit(s[j]));
        }
        assert(wf_field(fs[0]));
        lemma_parse_field_at(s, i + 1, fs[0]);
        assert(forall|x: int|
            0 <= x < fs.drop_first().len() ==> wf_field(#[trigger] fs.drop_first()[x]));
        lemma_parse_fields_rest_at(s, j, fs.drop_first(), acc.push(fs[0]));
        assert(acc.push(fs[0]) + fs.drop_first() =~= acc + fs);
    }
}

/// The telemetry object's members parse back in order.
proof fn lemma_parse_fields_at(s: Seq<u8>, i: int, fs: Seq<TelemetryFieldModel>)
    requires
        0 <= i,
        forall|x: int| 0 <= x < fs.len() ==> wf_field(#[trigger] fs[x]),
        i + ser_fields(fs).len() < s.len(),
        s.subrange(i, i + ser_fields(fs).len() as int) == ser_fields(fs),
        s[i + ser_fields(fs).len()] == 0x7du8,
    ensures
        parse_fields(s, i) == Result::Ok::<(Seq<TelemetryFieldModel>, int), MalformedModel>(
            (fs, i + ser_fields(fs).len() + 1),
        ),
{
    if fs.len() == 0 {
        assert(Seq::<TelemetryFieldModel>::empty() =~= fs);
    } else {
        let head = ser_field(fs[0]);
        let rest = ser_fields_rest(fs.drop_first());
        assert(ser_fields(fs) =~= head + rest);
        assert(s.subrange(i, i + head.len() + rest.len()) == head + rest);
        lemma_split_prefix(s, i, head, rest);
        let j = i + head.len();
        assert(s[j + rest.len()] == 0x7du8);
        if rest.len() == 0 {
            assert(!is_digit(s[j]));
        } else {
            let comma = seq![0x2cu8];
            let tail2 = ser_field(fs.drop_first()[0]) + ser_fields_rest(
                fs.drop_first().drop_first(),
            );
            assert(rest =~= comma + tail2);
            lemma_at(s, j, rest, 0);
            assert(s[j + 0] == (comma + tail2)[0]);
            assert(!is_digit(s[j]));
        }
        let q = seq![0x22u8];
        let enc = esc_bytes(encode_utf8(fs[0].key));
        assert(head =~= (q + (enc + q)) + (seq![0x3au8] + ser_int(fs[0].value)));
        lemma_at(s, i, head, 0);
        assert(head[0] == ((q + (enc + q)) + (seq![0x3au8] + ser_int(fs[0].value)))[0]);
        assert(head[0] == (q + (enc + q))[0]);
        assert(s[i + 0] == 0x22u8);
        assert(s[i] != 0x7du8);
        assert(wf_field(fs[0]));
        lemma_parse_field_at(s, i, fs[0]);
        lemma_parse_fields_rest_at(s, j, fs.drop_first(), seq![fs[0]]);
        assert(seq![fs[0]] + fs.drop_first() =~= fs);
    }
}

/// The four variant names are pairwise distinct.
proof fn lemma_tag_facts()
    ensures
        "MarketStatus"@ != "ConfigReloaded"@,
        "AssetTransition"@ != "ConfigReloaded"@,
        "AssetTransition"@ != "MarketStatus"@,
        "TelemetryTick"@ != "ConfigReloaded"@,
        "TelemetryTick"@ != "MarketStatus"@,
        "TelemetryTick"@ != "AssetTransition"@,
{
    reveal_strlit("ConfigReloaded");
    reveal_strlit("MarketStatus");
    reveal_strlit("AssetTransition");
    reveal_strlit("TelemetryTick");
    assert("ConfigReloaded"@.len() == 14);
    assert("MarketStatus"@.len() == 12);
    assert("AssetTransition"@.len() == 15);
    assert("TelemetryTick"@.len() == 13);
}


/// `{"type":` parses where its bytes stand.
proof fn lemma_type_key_at(s: Seq<u8>, i: int)
    requires
        0 <= i,
        i + 8 <= s.len(),
        s.subrange(i, i + lit_type().len() as int) == lit_type(),
    ensures
        parse_type_key(s, i) == Result::Ok::<int, MalformedModel>(i + 8),
{
    lemma_at(s, i, lit_type(), 0);
    lemma_at(s, i, lit_type(), 1);
    lemma_at(s, i, lit_type(), 2);
    lemma_at(s, i, lit_type(), 3);
    lemma_at(s, i, lit_type(), 4);
    lemma_at(s, i, lit_type(), 5);
    lemma_at(s, i, lit_type(), 6);
    lemma_at(s, i, lit_type(), 7);
}

/// `,"payload":` parses where its bytes stand.
proof fn lemma_payload_key_at(s: Seq<u8>, i: int)
    requires
        0 <= i,
        i + 11 <= s.len(),
        s.subrange(i, i + lit_payload().len() as int) == lit_payload(),
    ensures
        parse_payload_key(s, i) == Result::Ok::<int, MalformedModel>(i + 11),
{
    lemma_at(s, i, lit_payload(), 0);
    lemma_at(s, i, lit_payload(), 1);
    lemma_at(s, i, lit_payload(), 2);
    lemma_at(s, i, lit_payload(), 3);
    lemma_at(s, i, lit_payload(), 4);
    lemma_at(s, i, lit_payload(), 5);
    lemma_at(s, i, lit_payload(), 6);
    lemma_at(s, i, lit_payload(), 7);
    lemma_at(s, i, lit_payload(), 8);
    lemma_at(s, i, lit_payload(), 9);
    lemma_at(s, i, lit_payload(), 10);
}

/// `{"id":` parses where its bytes stand.
proof fn lemma_id_key_at(s: Seq<u8>, i: int)
    requires
        0 <= i,
        i + 6 <= s.len(),
        s.subrange(i, i + lit_id().len() as int) == lit_id(),
    ensures
        parse_id_key(s, i) == Result::Ok::<int, MalformedModel>(i + 6),
{
    lemma_at(s, i, lit_id(), 0);
    lemma_at(s, i, lit_id(), 1);
    lemma_at(s, i, lit_id(), 2);
    lemma_at(s, i, lit_id(), 3);
    lemma_at(s, i, lit_id(), 4);
    lemma_at(s, i, lit_id(), 5);
}

/// `,"state":` parses where its bytes stand.
proof fn lemma_state_key_at(s: Seq<u8>, i: int)
    requires
        0 <= i,
        i + 9 <= s.len(),
        s.subrange(i, i + lit_state().len() as int) == lit_state(),
    ensures
        parse_state_key(s, i) == Result::Ok::<int, MalformedModel>(i + 9),
{
    lemma_at(s, i, lit_state(), 0);
    lemma_at(s, i, lit_state(), 1);
    lemma_at(s, i, lit_state(), 2);
    lemma_at(s, i, lit_state(), 3);
    lemma_at(s, i, lit_state(), 4);
    lemma_at(s, i, lit_state(), 5);
    lemma_at(s, i, lit_state(), 6);
    lemma_at(s, i, lit_state(), 7);
    lemma_at(s, i, lit_state(), 8);
}

/// `,"reason":` parses where its bytes stand.
proof fn lemma_reason_key_at(s: Seq<u8>, i: int)
    requires
        0 <= i,
        i + 10 <= s.len(),
        s.subrange(i, i + lit_reason().len() as int) == lit_reason(),
    ensures
        parse_reason_key(s, i) == Result::Ok::<int, MalformedModel>(i + 10),
{
    lemma_at(s, i, lit_reason(), 0);
    lemma_at(s, i, lit_reason(), 1);
    lemma_at(s, i, lit_reason(), 2);
    lemma_at(s, i, lit_reason(), 3);
    lemma_at(s, i, lit_reason(), 4);
    lemma_at(s, i, lit_reason(), 5);
    lemma_at(s, i, lit_reason(), 6);
    lemma_at(s, i, lit_reason(), 7);
    lemma_at(s, i, lit_reason(), 8);
    lemma_at(s, i, lit_reason(), 9);
}

/// A JSON string opens with a quote.
proof fn lemma_jstr_first(t: Seq<char>)
    ensures
        ser_jstr(t).len() >= 2,
        ser_jstr(t)[0] == 0x22u8,
{
    let q = seq![0x22u8];
    let e = esc_bytes(encode_utf8(t));
    assert(ser_jstr(t) == (q + e) + q);
    assert(((q + e) + q)[0] == (q + e)[0]);
    assert((q + e)[0] == 0x22u8);
}

/// The `reason` member parses where its image stands.
proof fn lemma_reason_value_at(s: Seq<u8>, i: int, o: Option<Seq<char>>)
    requires
        0 <= i,
        i + ser_opt(o).len() <= s.len(),
        s.subrange(i, i + ser_opt(o).len() as int) == ser_opt(o),
    ensures
        parse_reason_value(s, i) == Result::Ok::<(Option<Seq<char>>, int), MalformedModel>(
            (o, i + ser_opt(o).len()),
        ),
{
    match o {
        Option::None => {
            lemma_at(s, i, lit_null(), 0);
            lemma_at(s, i, lit_null(), 1);
            lemma_at(s, i, lit_null(), 2);
            lemma_at(s, i, lit_null(), 3);
        },
        Option::Some(t) => {
            lemma_jstr_first(t);
            lemma_at(s, i, ser_jstr(t), 0);
            assert(s[i + 0] == 0x22u8);
            lemma_parse_jstr_at(s, i, t, "reason"@);
        },
    }
}

/// The round trip for a config-reload event.
proof fn lemma_rt_config()
    ensures
        parse_event(ser_event(SysEventModel::ConfigReloaded)) == Result::Ok::<
            SysEventModel,
            MalformedModel,
        >(SysEventModel::ConfigReloaded),
{
    lemma_tag_facts();
    let s = ser_event(SysEventModel::ConfigReloaded);
    let a1 = ser_jstr("ConfigReloaded"@);
    let a2 = seq![0x7du8];
    assert(s =~= lit_type() + (a1 + a2));
    assert(s.subrange(0, s.len() as int) =~= s);
    lemma_split_prefix(s, 0, lit_type(), a1 + a2);
    lemma_type_key_at(s, 0);
    lemma_split_prefix(s, 8int, a1, a2);
    lemma_parse_jstr_at(s, 8, "ConfigReloaded"@, "type"@);
    let i2: int = 8 + a1.len() as int;
    lemma_at(s, i2, a2, 0);
}

/// The round trip for a market-status event.
#[verifier::rlimit(100)]
#[verifier::spinoff_prover]
proof fn lemma_rt_market(t: Seq<char>)
    ensures
        parse_event(ser_event(SysEventModel::MarketStatus(t))) == Result::Ok::<
            SysEventModel,
            MalformedModel,
        >(SysEventModel::MarketStatus(t)),
{
    lemma_tag_facts();
    let s = ser_event(SysEventModel::MarketStatus(t));
    let a1 = ser_jstr("MarketStatus"@);
    let a3 = ser_jstr(t);
    let a4 = seq![0x7du8];
    let x0 = lit_type();
    let x1 = x0 + a1;
    let x2 = x1 + lit_payload();
    let x3 = x2 + a3;
    assert(s == x3 + a4);
    assert(s.subrange(0, s.len() as int) =~= s);
    lemma_split_prefix(s, 0, x3, a4);
    lemma_split_prefix(s, 0, x2, a3);
    lemma_split_prefix(s, 0, x1, lit_payload());
    lemma_split_prefix(s, 0, x0, a1);
    lemma_type_key_at(s, 0);
    lemma_parse_jstr_at(s, 8, "MarketStatus"@, "type"@);
    let i2: int = 8 + a1.len() as int;
    lemma_payload_key_at(s, i2);
    let i3: int = i2 + 11;
    lemma_parse_jstr_at(s, i3, t, "payload"@);
    let i4: int = i3 + a3.len() as int;
    lemma_at(s, i4, a4, 0);
}

/// The asset payload parses back piecewise where its image stands at the
/// end of the buffer.
#[verifier::rlimit(100)]
#[verifier::spinoff_prover]
proof fn lemma_rt_asset_obj(
    s: Seq<u8>,
    i3: int,
    id: Seq<char>,
    state: Seq<char>,
    reason: Option<Seq<char>>,
)
    requires
        0 <= i3,
        i3 + ser_asset_payload(id, state, reason).len() == s.len(),
        s.subrange(i3, s.len() as int) == ser_asset_payload(id, state, reason),
    ensures
        ({
            let i4 = i3 + 6;
            let i5 = i4 + ser_jstr(id).len();
            let i6 = i5 + 9;
            let i7 = i6 + ser_jstr(state).len();
            let i8 = i7 + 10;
            let i9 = i8 + ser_opt(reason).len();
            &&& parse_id_key(s, i3) == Result::Ok::<int, MalformedModel>(i4)
            &&& parse_jstr(s, i4, "id"@) == Result::Ok::<(Seq<char>, int), MalformedModel>(
                (id, i5),
            )
            &&& parse_state_key(s, i5) == Result::Ok::<int, MalformedModel>(i6)
            &&& parse_jstr(s, i6, "state"@) == Result::Ok::<(Seq<char>, int), MalformedModel>(
                (state, i7),
            )
            &&& parse_reason_key(s, i7) == Result::Ok::<int, MalformedModel>(i8)
            &&& parse_reason_value(s, i8) == Result::Ok::<
                (Option<Seq<char>>, int),
                MalformedModel,
            >((reason, i9))
            &&& s[i9] == 0x7du8
            &&& s[i9 + 1] == 0x7du8
            &&& i9 + 2 == s.len()
        }),
{
    let a4 = ser_jstr(id);
    let a6 = ser_jstr(state);
    let a8 = ser_opt(reason);
    let a9 = seq![0x7du8, 0x7du8];
    let x0 = lit_id();
    let x1 = x0 + a4;
    let x2 = x1 + lit_state();
    let x3 = x2 + a6;
    let x4 = x3 + lit_reason();
    let x5 = x4 + a8;
    assert(ser_asset_payload(id, state, reason) == x5 + a9);
    lemma_split_prefix(s, i3, x5, a9);
    lemma_split_prefix(s, i3, x4, a8);
    lemma_split_prefix(s, i3, x3, lit_reason());
    lemma_split_prefix(s, i3, x2, a6);
    lemma_split_prefix(s, i3, x1, lit_state());
    lemma_split_prefix(s, i3, x0, a4);
    lemma_id_key_at(s, i3);
    let i4 = i3 + 6;
    lemma_parse_jstr_at(s, i4, id, "id"@);
    let i5 = i4 + a4.len();
    lemma_state_key_at(s, i5);
    let i6 = i5 + 9;
    lemma_parse_jstr_at(s, i6, state, "state"@);
    let i7 = i6 + a6.len();
    lemma_reason_key_at(s, i7);
    let i8 = i7 + 10;
    lemma_reason_value_at(s, i8, reason);
    let i9 = i8 + a8.len();
    lemma_at(s, i9, a9, 0);
    lemma_at(s, i9, a9, 1);
}

/// The round trip for an asset-transition event.
#[verifier::rlimit(100)]
#[verifier::spinoff_prover]
proof fn lemma_rt_asset(id: Seq<char>, state: Seq<char>, reason: Option<Seq<char>>)
    ensures
        parse_event(
            ser_event(SysEventModel::AssetTransition { id: id, state: state, reason: reason }),
        ) == Result::Ok::<SysEventModel, MalformedModel>(
            SysEventModel::AssetTransition { id: id, state: state, reason: reason },
        ),
{
    lemma_tag_facts();
    let s = ser_event(SysEventModel::AssetTransition { id: id, state: state, reason: reason });
    let a1 = ser_jstr("AssetTransition"@);
    let obj = ser_asset_payload(id, state, reason);
    let x0 = lit_type();
    let x1 = x0 + a1;
    let x2 = x1 + lit_payload();
    assert(s == x2 + obj);
    assert(s.subrange(0, s.len() as int) =~= s);
    lemma_split_prefix(s, 0, x2, obj);
    lemma_split_prefix(s, 0, x1, lit_payload());
    lemma_split_prefix(s, 0, x0, a1);
    lemma_type_key_at(s, 0);
    lemma_parse_jstr_at(s, 8, "AssetTransition"@, "type"@);
    let i2: int = 8 + a1.len() as int;
    lemma_payload_key_at(s, i2);
    let i3: int = i2 + 11;
    lemma_rt_asset_obj(s, i3, id, state, reason);
}

/// The round trip for a telemetry event.
#[verifier::rlimit(100)]
#[verifier::spinoff_prover]
proof fn lemma_rt_tick(fs: Seq<TelemetryFieldModel>)
    requires
        forall|i: int| 0 <= i < fs.len() ==> wf_field(#[trigger] fs[i]),
    ensures
        parse_event(ser_event(SysEventModel::TelemetryTick(fs))) == Result::Ok::<
            SysEventModel,
            MalformedModel,
        >(SysEventModel::TelemetryTick(fs)),
{
    lemma_tag_facts();
    let s = ser_event(SysEventModel::TelemetryTick(fs));
    let a1 = ser_jstr("TelemetryTick"@);
    let a3 = seq![0x7bu8];
    let a4 = ser_fields(fs);
    let a5 = seq![0x7du8, 0x7du8];
    let x0 = lit_type();
    let x1 = x0 + a1;
    let x2 = x1 + lit_payload();
    let x3 = x2 + a3;
    let x4 = x3 + a4;
    assert(s == x4 + a5);
    assert(s.subrange(0, s.len() as int) =~= s);
    lemma_split_prefix(s, 0, x4, a5);
    lemma_split_prefix(s, 0, x3, a4);
    lemma_split_prefix(s, 0, x2, a3);
    lemma_split_prefix(s, 0, x1, lit_payload());
    lemma_split_prefix(s, 0, x0, a1);
    lemma_type_key_at(s, 0);
    lemma_parse_jstr_at(s, 8, "TelemetryTick"@, "type"@);
    let i2: int = 8 + a1.len() as int;
    lemma_payload_key_at(s, i2);
    let i3: int = i2 + 11;
    lemma_at(s, i3, a3, 0);
    let i4: int = i3 + 1;
    lemma_at(s, i4 + a4.len(), a5, 0);
    lemma_at(s, i4 + a4.len(), a5, 1);
    lemma_parse_fields_at(s, i4, fs);
    let i5: int = i4 + a4.len() as int + 1;
    assert(s[i5] == 0x7du8);
}

/// Decoding accepts exactly what encoding produced: for every event image
/// whose readings fit 64 signed bits — which every real `SysEvent`
/// satisfies — the decoder returns that image, unchanged.
pub proof fn lemma_round_trip(m: SysEventModel)
    requires
        wf_event(m),
    ensures
        parse_event(ser_event(m)) == Result::Ok::<SysEventModel, MalformedModel>(m),
{
    match m {
        SysEventModel::ConfigReloaded => {
            lemma_rt_config();
        },
        SysEventModel::MarketStatus(t) => {
            lemma_rt_market(t);
        },
        SysEventModel::AssetTransition { id, state, reason } => {
            lemma_rt_asset(id, state, reason);
        },
        SysEventModel::TelemetryTick(fs) => {
            lemma_rt_tick(fs);
        },
    }
}


/// Escaping one more byte extends the escape at its end.
proof fn lemma_esc_snoc(b: Seq<u8>, x: u8)
    ensures
        esc_bytes(b.push(x)) == esc_bytes(b) + esc_byte(x),
    decreases b.len(),
{
    if b.len() == 0 {
        assert(b.push(x).drop_first() =~= Seq::<u8>::empty());
        assert(b.push(x)[0] == x);
        assert(esc_bytes(b.push(x)) == esc_byte(x) + esc_bytes(Seq::<u8>::empty()));
        assert(esc_bytes(b.push(x)) =~= esc_bytes(b) + esc_byte(x));
    } else {
        assert(b.push(x).drop_first() =~= b.drop_first().push(x));
        lemma_esc_snoc(b.drop_first(), x);
        assert(b.push(x)[0] == b[0]);
        assert(esc_bytes(b.push(x)) == esc_byte(b[0]) + esc_bytes(b.drop_first().push(x)));
        assert(esc_bytes(b) == esc_byte(b[0]) + esc_bytes(b.drop_first()));
        assert(esc_bytes(b.push(x)) =~= esc_bytes(b) + esc_byte(x));
    }
}

/// One more member extends the tail members at their end.
proof fn lemma_fields_rest_snoc(fs: Seq<TelemetryFieldModel>, f: TelemetryFieldModel)
    ensures
        ser_fields_rest(fs.push(f)) == ser_fields_rest(fs) + seq![0x2cu8] + ser_field(f),
    decreases fs.len(),
{
    if fs.len() == 0 {
        assert(fs.push(f).drop_first() =~= Seq::<TelemetryFieldModel>::empty());
        assert(fs.push(f)[0] == f);
        assert(ser_fields_rest(fs.push(f)) == seq![0x2cu8] + ser_field(f) + ser_fields_rest(
            Seq::<TelemetryFieldModel>::empty(),
        ));
        assert(ser_fields_rest(fs.push(f)) =~= ser_fields_rest(fs) + seq![0x2cu8] + ser_field(f));
    } else {
        assert(fs.push(f).drop_first() =~= fs.drop_first().push(f));
        lemma_fields_rest_snoc(fs.drop_first(), f);
        assert(fs.push(f)[0] == fs[0]);
        assert(ser_fields_rest(fs.push(f)) == seq![0x2cu8] + ser_field(fs[0]) + ser_fields_rest(
            fs.drop_first().push(f),
        ));
        assert(ser_fields_rest(fs) == seq![0x2cu8] + ser_field(fs[0]) + ser_fields_rest(
            fs.drop_first(),
        ));
        assert(ser_fields_rest(fs.push(f)) =~= ser_fields_rest(fs) + seq![0x2cu8] + ser_field(f));
    }
}

/// One more member extends the object members at their end, behind a
/// comma unless it is the first.
proof fn lemma_fields_snoc(fs: Seq<TelemetryFieldModel>, f: TelemetryFieldModel)
    ensures
        fs.len() == 0 ==> ser_fields(fs.push(f)) == ser_field(f),
        fs.len() > 0 ==> ser_fields(fs.push(f)) == ser_fields(fs) + seq![0x2cu8] + ser_field(f),
{
    if fs.len() == 0 {
        assert(fs.push(f).drop_first() =~= Seq::<TelemetryFieldModel>::empty());
        assert(fs.push(f)[0] == f);
        assert(ser_fields(fs.push(f)) == ser_field(f) + ser_fields_rest(
            Seq::<TelemetryFieldModel>::empty(),
        ));
        assert(ser_fields(fs.push(f)) =~= ser_field(f));
    } else {
        assert(fs.push(f).drop_first() =~= fs.drop_first().push(f));
        lemma_fields_rest_snoc(fs.drop_first(), f);
        assert(fs.push(f)[0] == fs[0]);
        assert(ser_fields(fs.push(f)) == ser_field(fs[0]) + ser_fields_rest(
            fs.drop_first().push(f),
        ));
        assert(ser_fields(fs) == ser_field(fs[0]) + ser_fields_rest(fs.drop_first()));
        assert(ser_fields(fs.push(f)) =~= ser_fields(fs) + seq![0x2cu8] + ser_field(f));
    }
}

/// Appends the bytes of `{"type":`.
fn push_type_key(out: &mut Vec<u8>)
    ensures
        final(out)@ == old(out)@ + lit_type(),
{
    out.push(0x7bu8);
    out.push(0x22u8);
    out.push(0x74u8);
    out.push(0x79u8);
    out.push(0x70u8);
    out.push(0x65u8);
    out.push(0x22u8);
    out.push(0x3au8);
    proof {
        assert(final(out)@ =~= old(out)@ + lit_type());
    }
}

/// Appends the bytes of `,"payload":`.
fn push_payload_key(out: &mut Vec<u8>)
    ensures
        final(out)@ == old(out)@ + lit_payload(),
{
    out.push(0x2cu8);
    out.push(0x22u8);
    out.push(0x70u8);
    out.push(0x61u8);
    out.push(0x79u8);
    out.push(0x6cu8);
    out.push(0x6fu8);
    out.push(0x61u8);
    out.push(0x64u8);
    out.push(0x22u8);
    out.push(0x3au8);
    proof {
        assert(final(out)@ =~= old(out)@ + lit_payload());
    }
}

/// Appends the bytes of `{"id":`.
fn push_id_key(out: &mut Vec<u8>)
    ensures
        final(out)@ == old(out)@ + lit_id(),
{
    out.push(0x7bu8);
    out.push(0x22u8);
    out.push(0x69u8);
    out.push(0x64u8);
    out.push(0x22u8);
    out.push(0x3au8);
    proof {
        assert(final(out)@ =~= old(out)@ + lit_id());
    }
}

/// Appends the bytes of `,"state":`.
fn push_state_key(out: &mut Vec<u8>)
    ensures
        final(out)@ == old(out)@ + lit_state(),
{
    out.push(0x2cu8);
    out.push(0x22u8);
    out.push(0x73u8);
    out.push(0x74u8);
    out.push(0x61u8);
    out.push(0x74u8);
    out.push(0x65u8);
    out.push(0x22u8);
    out.push(0x3au8);
    proof {
        assert(final(out)@ =~= old(out)@ + lit_state());
    }
}

/// Appends the bytes of `,"reason":`.
fn push_reason_key(out: &mut Vec<u8>)
    ensures
        final(out)@ == old(out)@ + lit_reason(),
{
    out.push(0x2cu8);
    out.push(0x22u8);
    out.push(0x72u8);
    out.push(0x65u8);
    out.push(0x61u8);
    out.push(0x73u8);
    out.push(0x6fu8);
    out.push(0x6eu8);
    out.push(0x22u8);
    out.push(0x3au8);
    proof {
        assert(final(out)@ =~= old(out)@ + lit_reason());
    }
}

/// Appends the bytes of `null`.
fn push_null(out: &mut Vec<u8>)
    ensures
        final(out)@ == old(out)@ + lit_null(),
{
    out.push(0x6eu8);
    out.push(0x75u8);
    out.push(0x6cu8);
    out.push(0x6cu8);
    proof {
        assert(final(out)@ =~= old(out)@ + lit_null());
    }
}

/// Appends a string's image: a quote, its escaped UTF-8 bytes, a quote.
fn push_jstr(out: &mut Vec<u8>, s: &str)
    ensures
        final(out)@ == old(out)@ + ser_jstr(s@),
{
    out.push(0x22u8);
    let b = s.as_bytes_vec();
    let ghost base = out@;
    let mut k: usize = 0;
    while k < b.len()
        invariant
            k <= b@.len(),
            out@ == base + esc_bytes(b@.take(k as int)),
        decreases b@.len() - k,
    {
        let ghost sofar = b@.take(k as int);
        let x = b[k];
        if x == 0x22u8 {
            out.push(0x5cu8);
            out.push(0x22u8);
        } else if x == 0x5cu8 {
            out.push(0x5cu8);
            out.push(0x5cu8);
        } else if x < 0x20u8 {
            out.push(0x5cu8);
            out.push(0x75u8);
            out.push(0x30u8);
            out.push(0x30u8);
            let hi = x / 16;
            let lo = x % 16;
            out.push(if hi < 10 {
                0x30u8 + hi
            } else {
                0x57u8 + hi
            });
            out.push(if lo < 10 {
                0x30u8 + lo
            } else {
                0x57u8 + lo
            });
        } else {
            out.push(x);
        }
        proof {
            lemma_esc_snoc(sofar, b@[k as int]);
            assert(b@.take(k + 1) =~= sofar.push(b@[k as int]));
            assert(out@ =~= base + esc_bytes(b@.take(k + 1)));
        }
        k = k + 1;
    }
    proof {
        assert(b@.take(b@.len() as int) =~= b@);
    }
    out.push(0x22u8);
    proof {
        assert(final(out)@ =~= old(out)@ + ser_jstr(s@));
    }
}

/// Appends the canonical decimal digits of a number.
fn push_dec(out: &mut Vec<u8>, n: u64)
    ensures
        final(out)@ == old(out)@ + dec_bytes(n as nat),
    decreases n,
{
    if n >= 10 {
        push_dec(out, n / 10);
    }
    out.push(0x30u8 + (n % 10) as u8);
    proof {
        assert(final(out)@ =~= old(out)@ + dec_bytes(n as nat));
    }
}

/// Appends a signed reading, minus sign and decimal digits.
fn push_int(out: &mut Vec<u8>, v: i64)
    ensures
        final(out)@ == old(out)@ + ser_int(v as int),
{
    if v >= 0 {
        push_dec(out, v as u64);
    } else {
        out.push(0x2du8);
        let m = (-(v as i128)) as u64;
        push_dec(out, m);
        proof {
            assert(m as nat == (-(v as int)) as nat);
            assert(final(out)@ =~= old(out)@ + ser_int(v as int));
        }
    }
}

/// Encodes an event into its wire image: the tagged `{"type", "payload"}`
/// JSON text, in UTF-8 bytes.
pub fn serialize(event: &SysEvent) -> (r: Vec<u8>)
    ensures
        r@ == ser_event(event@),
{
    let mut out: Vec<u8> = Vec::new();
    push_type_key(&mut out);
    match event {
        SysEvent::ConfigReloaded => {
            push_jstr(&mut out, "ConfigReloaded");
            out.push(0x7du8);
            proof {
                assert(out@ =~= ser_event(event@));
            }
        },
        SysEvent::MarketStatus(t) => {
            push_jstr(&mut out, "MarketStatus");
            push_payload_key(&mut out);
            push_jstr(&mut out, t.as_str());
            out.push(0x7du8);
            proof {
                assert(out@ =~= ser_event(event@));
            }
        },
        SysEvent::AssetTransition { id, state, reason } => {
            push_jstr(&mut out, "AssetTransition");
            push_payload_key(&mut out);
            push_id_key(&mut out);
            push_jstr(&mut out, id.as_str());
            push_state_key(&mut out);
            push_jstr(&mut out, state.as_str());
            push_reason_key(&mut out);
            match reason {
                Option::Some(why) => {
                    push_jstr(&mut out, why.as_str());
                },
                Option::None => {
                    push_null(&mut out);
                },
            }
            out.push(0x7du8);
            out.push(0x7du8);
            proof {
                assert(out@ =~= ser_event(event@));
            }
        },
        SysEvent::TelemetryTick(fields) => {
            push_jstr(&mut out, "TelemetryTick");
            push_payload_key(&mut out);
            out.push(0x7bu8);
            let ghost base = out@;
            let mut i: usize = 0;
            while i < fields.len()
                invariant
                    i <= fields@.len(),
                    out@ == base + ser_fields(sample_model(fields@).take(i as int)),
                decreases fields@.len() - i,
            {
                let ghost sofar = sample_model(fields@).take(i as int);
                if i > 0 {
                    out.push(0x2cu8);
                }
                push_jstr(&mut out, fields[i].key.as_str());
                out.push(0x3au8);
                push_int(&mut out, fields[i].value);
                proof {
                    lemma_fields_snoc(sofar, fields@[i as int]@);
                    assert(sample_model(fields@).take(i + 1) =~= sofar.push(fields@[i as int]@));
                    assert(out@ =~= base + ser_fields(sample_model(fields@).take(i + 1)));
                }
                i = i + 1;
            }
            proof {
                assert(sample_model(fields@).take(fields@.len() as int) =~= sample_model(fields@));
            }
            out.push(0x7du8);
            out.push(0x7du8);
            proof {
                assert(out@ =~= ser_event(event@));
            }
        },
    }
    out
}


/// Relies on String::from_utf8: it returns the decoded string exactly when
/// the bytes are valid UTF-8, and rejects them otherwise.
#[verifier::external_body]
fn decode_text(bytes: Vec<u8>) -> (r: Option<String>)
    ensures
        r is Some <==> valid_utf8(bytes@),
        r matches Some(s) ==> s@ == decode_utf8(bytes@),
{
    match String::from_utf8(bytes) {
        Ok(s) => Some(s),
        Err(_) => None,
    }
}

/// Scans and unescapes a string's content up to its closing quote.
fn read_content(bytes: &Vec<u8>, i: usize, field: &str) -> (r: Result<(Vec<u8>, usize), MalformedEvent>)
    ensures
        (match r {
            Ok((raw, j)) => parse_content(bytes@, i as int, Seq::empty(), field@) == Result::Ok::<
                (Seq<u8>, int),
                MalformedModel,
            >((raw@, j as int)) && i < j <= bytes@.len(),
            Err(e) => parse_content(bytes@, i as int, Seq::empty(), field@) == Result::Err::<
                (Seq<u8>, int),
                MalformedModel,
            >(e@),
        }),
{
    if i >= bytes.len() {
        return Err(MalformedEvent::MissingField(field.to_owned()));
    }
    let mut out: Vec<u8> = Vec::new();
    let mut cur: usize = i;
    loop
        invariant
            i <= cur <= bytes@.len(),
            parse_content(bytes@, i as int, Seq::empty(), field@) == parse_content(
                bytes@,
                cur as int,
                out@,
                field@,
            ),
        decreases bytes@.len() - cur,
    {
        if cur >= bytes.len() {
            return Err(MalformedEvent::MissingField(field.to_owned()));
        }
        let x = bytes[cur];
        if x == 0x22u8 {
            return Ok((out, cur + 1));
        } else if x == 0x5cu8 {
            if bytes.len() - cur >= 2 && bytes[cur + 1] == 0x22u8 {
                out.push(0x22u8);
                cur = cur + 2;
            } else if bytes.len() - cur >= 2 && bytes[cur + 1] == 0x5cu8 {
                out.push(0x5cu8);
                cur = cur + 2;
            } else if bytes.len() - cur >= 2 && bytes[cur + 1] == 0x75u8 {
                if bytes.len() - cur >= 6 && bytes[cur + 2] == 0x30u8 && bytes[cur + 3] == 0x30u8 {
                    let hi = bytes[cur + 4];
                    let lo = bytes[cur + 5];
                    let hv: u8 = if 0x30u8 <= hi && hi <= 0x39u8 {
                        hi - 0x30u8
                    } else if 0x61u8 <= hi && hi <= 0x66u8 {
                        hi - 0x57u8
                    } else {
                        return Err(MalformedEvent::InvalidText);
                    };
                    let lv: u8 = if 0x30u8 <= lo && lo <= 0x39u8 {
                        lo - 0x30u8
                    } else if 0x61u8 <= lo && lo <= 0x66u8 {
                        lo - 0x57u8
                    } else {
                        return Err(MalformedEvent::InvalidText);
                    };
                    out.push(hv * 16 + lv);
                    cur = cur + 6;
                } else {
                    return Err(MalformedEvent::InvalidText);
                }
            } else if bytes.len() - cur >= 2 {
                return Err(MalformedEvent::InvalidText);
            } else {
                return Err(MalformedEvent::MissingField(field.to_owned()));
            }
        } else if x < 0x20u8 {
            return Err(MalformedEvent::InvalidText);
        } else {
            out.push(x);
            cur = cur + 1;
        }
    }
}

/// Reads a JSON string: a quoted, escaped UTF-8 text.
fn read_jstr(bytes: &Vec<u8>, i: usize, field: &str) -> (r: Result<(String, usize), MalformedEvent>)
    ensures
        (match r {
            Ok((t, j)) => parse_jstr(bytes@, i as int, field@) == Result::Ok::<
                (Seq<char>, int),
                MalformedModel,
            >((t@, j as int)) && i < j <= bytes@.len(),
            Err(e) => parse_jstr(bytes@, i as int, field@) == Result::Err::<
                (Seq<char>, int),
                MalformedModel,
            >(e@),
        }),
{
    if i < bytes.len() && bytes[i] == 0x22u8 {
        match read_content(bytes, i + 1, field) {
            Err(e) => Err(e),
            Ok((raw, j)) => match decode_text(raw) {
                Some(t) => Ok((t, j)),
                None => Err(MalformedEvent::InvalidText),
            },
        }
    } else {
        Err(MalformedEvent::MissingField(field.to_owned()))
    }
}

/// Reads a signed decimal reading: at most 19 digits, within the 64-bit
/// signed range.
fn read_int(bytes: &Vec<u8>, i: usize, field: &str) -> (r: Result<(i64, usize), MalformedEvent>)
    ensures
        (match r {
            Ok((v, j)) => parse_int(bytes@, i as int, field@) == Result::Ok::<
                (int, int),
                MalformedModel,
            >((v as int, j as int)) && i < j <= bytes@.len(),
            Err(e) => parse_int(bytes@, i as int, field@) == Result::Err::<
                (int, int),
                MalformedModel,
            >(e@),
        }),
{
    if i >= bytes.len() {
        return Err(MalformedEvent::MissingField(field.to_owned()));
    }
    let neg = bytes[i] == 0x2du8;
    let start: usize = if neg {
        i + 1
    } else {
        i
    };
    if !(start < bytes.len() && 0x30u8 <= bytes[start] && bytes[start] <= 0x39u8) {
        return Err(MalformedEvent::InvalidNumber);
    }
    let mut j: usize = start;
    while j < bytes.len() && 0x30u8 <= bytes[j] && bytes[j] <= 0x39u8
        invariant
            start <= j <= bytes@.len(),
            digits_end(bytes@, start as int) == digits_end(bytes@, j as int),
            forall|x: int| start <= x < j ==> is_digit(#[trigger] bytes@[x]),
        decreases bytes@.len() - j,
    {
        j = j + 1;
    }
    assert(digits_end(bytes@, start as int) == j as int);
    if j - start > 19 {
        return Err(MalformedEvent::InvalidNumber);
    }
    proof {
        assert(pow10(19) == 10_000_000_000_000_000_000) by {
            reveal_with_fuel(pow10, 21);
        }
    }
    let mut acc: u64 = 0;
    let mut k: usize = start;
    while k < j
        invariant
            start <= k <= j <= bytes@.len(),
            j as int == digits_end(bytes@, start as int),
            j - start <= 19,
            forall|x: int| start <= x < j ==> is_digit(#[trigger] bytes@[x]),
            acc as nat == digits_val(bytes@, start as int, k as int),
            (acc as nat) < pow10((k - start) as nat),
            pow10(19) == 10_000_000_000_000_000_000,
        decreases j - k,
    {
        proof {
            lemma_pow10_le((k - start) as nat, 18);
        }
        acc = acc * 10 + (bytes[k] - 0x30u8) as u64;
        k = k + 1;
        proof {
            lemma_digits_val_bound(bytes@, start as int, k as int);
        }
    }
    if neg {
        if acc > 0x8000_0000_0000_0000u64 {
            return Err(MalformedEvent::InvalidNumber);
        }
        let v: i64 = if acc == 0x8000_0000_0000_0000u64 {
            i64::MIN
        } else {
            -(acc as i64)
        };
        Ok((v, j))
    } else {
        if acc > 0x7fff_ffff_ffff_ffffu64 {
            return Err(MalformedEvent::InvalidNumber);
        }
        Ok((acc as i64, j))
    }
}

/// Powers of ten do not shrink as the exponent grows.
proof fn lemma_pow10_le(a: nat, b: nat)
    requires
        a <= b,
    ensures
        pow10(a) <= pow10(b),
    decreases b,
{
    if a < b {
        lemma_pow10_le(a, (b - 1) as nat);
        assert(pow10(b) == 10 * pow10((b - 1) as nat));
    }
}


/// Matches the bytes of `,"payload":`.
fn eat_payload_key(bytes: &Vec<u8>, i: usize) -> (r: Option<usize>)
    ensures
        (match r {
            Some(j) => parse_payload_key(bytes@, i as int) == Result::Ok::<int, MalformedModel>(
                j as int,
            ) && j <= bytes@.len(),
            None => parse_payload_key(bytes@, i as int) == Result::Err::<int, MalformedModel>(
                MalformedModel::MissingField("payload"@),
            ),
        }),
{
    if bytes.len() >= 11 && i <= bytes.len() - 11 && bytes[i] == 0x2cu8 && bytes[i + 1] == 0x22u8
        && bytes[i + 2] == 0x70u8 && bytes[i + 3] == 0x61u8 && bytes[i + 4] == 0x79u8 && bytes[i
        + 5] == 0x6cu8 && bytes[i + 6] == 0x6fu8 && bytes[i + 7] == 0x61u8 && bytes[i + 8]
        == 0x64u8 && bytes[i + 9] == 0x22u8 && bytes[i + 10] == 0x3au8 {
        Some(i + 11)
    } else {
        None
    }
}

/// Matches the bytes of `{"id":`.
fn eat_id_key(bytes: &Vec<u8>, i: usize) -> (r: Option<usize>)
    ensures
        (match r {
            Some(j) => parse_id_key(bytes@, i as int) == Result::Ok::<int, MalformedModel>(
                j as int,
            ) && j <= bytes@.len(),
            None => parse_id_key(bytes@, i as int) == Result::Err::<int, MalformedModel>(
                MalformedModel::MissingField("id"@),
            ),
        }),
{
    if bytes.len() >= 6 && i <= bytes.len() - 6 && bytes[i] == 0x7bu8 && bytes[i + 1] == 0x22u8
        && bytes[i + 2] == 0x69u8 && bytes[i + 3] == 0x64u8 && bytes[i + 4] == 0x22u8 && bytes[i
        + 5] == 0x3au8 {
        Some(i + 6)
    } else {
        None
    }
}

/// Matches the bytes of `,"state":`.
fn eat_state_key(bytes: &Vec<u8>, i: usize) -> (r: Option<usize>)
    ensures
        (match r {
            Some(j) => parse_state_key(bytes@, i as int) == Result::Ok::<int, MalformedModel>(
                j as int,
            ) && j <= bytes@.len(),
            None => parse_state_key(bytes@, i as int) == Result::Err::<int, MalformedModel>(
                MalformedModel::MissingField("state"@),
            ),
        }),
{
    if bytes.len() >= 9 && i <= bytes.len() - 9 && bytes[i] == 0x2cu8 && bytes[i + 1] == 0x22u8
        && bytes[i + 2] == 0x73u8 && bytes[i + 3] == 0x74u8 && bytes[i + 4] == 0x61u8 && bytes[i
        + 5] == 0x74u8 && bytes[i + 6] == 0x65u8 && bytes[i + 7] == 0x22u8 && bytes[i + 8]
        == 0x3au8 {
        Some(i + 9)
    } else {
        None
    }
}

/// Matches the bytes of `,"reason":`.
fn eat_reason_key(bytes: &Vec<u8>, i: usize) -> (r: Option<usize>)
    ensures
        (match r {
            Some(j) => parse_reason_key(bytes@, i as int) == Result::Ok::<int, MalformedModel>(
                j as int,
            ) && j <= bytes@.len(),
            None => parse_reason_key(bytes@, i as int) == Result::Err::<int, MalformedModel>(
                MalformedModel::MissingField("reason"@),
            ),
        }),
{
    if bytes.len() >= 10 && i <= bytes.len() - 10 && bytes[i] == 0x2cu8 && bytes[i + 1] == 0x22u8
        && bytes[i + 2] == 0x72u8 && bytes[i + 3] == 0x65u8 && bytes[i + 4] == 0x61u8 && bytes[i
        + 5] == 0x73u8 && bytes[i + 6] == 0x6fu8 && bytes[i + 7] == 0x6eu8 && bytes[i + 8]
        == 0x22u8 && bytes[i + 9] == 0x3au8 {
        Some(i + 10)
    } else {
        None
    }
}

/// Reads the `reason` member: a JSON string, or `null`.
fn read_reason_value(bytes: &Vec<u8>, i: usize) -> (r: Result<
    (Option<String>, usize),
    MalformedEvent,
>)
    ensures
        (match r {
            Ok((o, j)) => parse_reason_value(bytes@, i as int) == Result::Ok::<
                (Option<Seq<char>>, int),
                MalformedModel,
            >(
                (
                    match o {
                        Option::Some(t) => Option::Some(t@),
                        Option::None => Option::None,
                    },
                    j as int,
                ),
            ) && j <= bytes@.len(),
            Err(e) => parse_reason_value(bytes@, i as int) == Result::Err::<
                (Option<Seq<char>>, int),
                MalformedModel,
            >(e@),
        }),
{
    if bytes.len() >= 4 && i <= bytes.len() - 4 && bytes[i] == 0x6eu8 && bytes[i + 1] == 0x75u8
        && bytes[i + 2] == 0x6cu8 && bytes[i + 3] == 0x6cu8 {
        Ok((None, i + 4))
    } else {
        match read_jstr(bytes, i, "reason") {
            Ok((t, j)) => Ok((Some(t), j)),
            Err(e) => Err(e),
        }
    }
}

/// Reads one telemetry member: a key, a colon, a reading.
fn read_field(bytes: &Vec<u8>, i: usize) -> (r: Result<(TelemetryField, usize), MalformedEvent>)
    ensures
        (match r {
            Ok((f, j)) => parse_field(bytes@, i as int) == Result::Ok::<
                (TelemetryFieldModel, int),
                MalformedModel,
            >((f@, j as int)) && i < j <= bytes@.len(),
            Err(e) => parse_field(bytes@, i as int) == Result::Err::<
                (TelemetryFieldModel, int),
                MalformedModel,
            >(e@),
        }),
{
    match read_jstr(bytes, i, "payload") {
        Err(e) => Err(e),
        Ok((key, j)) => if j < bytes.len() && bytes[j] == 0x3au8 {
            match read_int(bytes, j + 1, "payload") {
                Err(e) => Err(e),
                Ok((value, j2)) => Ok((TelemetryField { key, value }, j2)),
            }
        } else {
            Err(MalformedEvent::MissingField("payload".to_owned()))
        },
    }
}

/// Reads the telemetry object's members, just past its opening brace.
fn read_fields(bytes: &Vec<u8>, i: usize) -> (r: Result<
    (Vec<TelemetryField>, usize),
    MalformedEvent,
>)
    ensures
        (match r {
            Ok((fs, j)) => parse_fields(bytes@, i as int) == Result::Ok::<
                (Seq<TelemetryFieldModel>, int),
                MalformedModel,
            >((sample_model(fs@), j as int)) && j <= bytes@.len(),
            Err(e) => parse_fields(bytes@, i as int) == Result::Err::<
                (Seq<TelemetryFieldModel>, int),
                MalformedModel,
            >(e@),
        }),
{
    if i < bytes.len() && bytes[i] == 0x7du8 {
        let empty: Vec<TelemetryField> = Vec::new();
        proof {
            assert(sample_model(empty@) =~= Seq::<TelemetryFieldModel>::empty());
        }
        return Ok((empty, i + 1));
    }
    let (first, j0) = match read_field(bytes, i) {
        Ok(p) => p,
        Err(e) => {
            return Err(e);
        },
    };
    let ghost target = parse_fields_more(bytes@, j0 as int, seq![first@]);
    let mut done: Vec<TelemetryField> = Vec::new();
    done.push(first);
    let mut cur: usize = j0;
    proof {
        assert(sample_model(done@) =~= seq![done@[0]@]);
    }
    loop
        invariant
            cur <= bytes@.len(),
            parse_fields(bytes@, i as int) == parse_fields_more(
                bytes@,
                cur as int,
                sample_model(done@),
            ),
        decreases bytes@.len() - cur,
    {
        if cur >= bytes.len() {
            return Err(MalformedEvent::MissingField("payload".to_owned()));
        }
        let x = bytes[cur];
        if x == 0x7du8 {
            return Ok((done, cur + 1));
        } else if x == 0x2cu8 {
            let (f, j) = match read_field(bytes, cur + 1) {
                Ok(p) => p,
                Err(e) => {
                    return Err(e);
                },
            };
            proof {
                assert(sample_model(done@.push(f)) =~= sample_model(done@).push(f@));
            }
            done.push(f);
            cur = j;
        } else {
            return Err(MalformedEvent::MissingField("payload".to_owned()));
        }
    }
}

/// Decodes an event from its wire image; a malformed byte string is
/// rejected with the exact reason `parse_event` assigns it, so decoding
/// succeeds precisely on the byte strings that denote an event.
pub fn deserialize(bytes: &Vec<u8>) -> (r: Result<SysEvent, MalformedEvent>)
    ensures
        (match r {
            Ok(e) => parse_event(bytes@) == Result::Ok::<SysEventModel, MalformedModel>(e@),
            Err(er) => parse_event(bytes@) == Result::Err::<SysEventModel, MalformedModel>(er@),
        }),
{
    if !(bytes.len() >= 8 && bytes[0] == 0x7bu8 && bytes[1] == 0x22u8 && bytes[2] == 0x74u8
        && bytes[3] == 0x79u8 && bytes[4] == 0x70u8 && bytes[5] == 0x65u8 && bytes[6] == 0x22u8
        && bytes[7] == 0x3au8) {
        return Err(MalformedEvent::MissingField("type".to_owned()));
    }
    let (tag, i2) = match read_jstr(bytes, 8, "type") {
        Ok(p) => p,
        Err(e) => {
            return Err(e);
        },
    };
    if tag == "ConfigReloaded".to_owned() {
        if i2 < bytes.len() && bytes[i2] == 0x7du8 {
            if i2 + 1 == bytes.len() {
                Ok(SysEvent::ConfigReloaded)
            } else {
                Err(MalformedEvent::TrailingData)
            }
        } else {
            Err(MalformedEvent::MissingField("type".to_owned()))
        }
    } else if tag == "MarketStatus".to_owned() {
        let i3 = match eat_payload_key(bytes, i2) {
            Some(j) => j,
            None => {
                return Err(MalformedEvent::MissingField("payload".to_owned()));
            },
        };
        match read_jstr(bytes, i3, "payload") {
            Err(e) => Err(e),
            Ok((t, i4)) => if i4 < bytes.len() && bytes[i4] == 0x7du8 {
                if i4 + 1 == bytes.len() {
                    Ok(SysEvent::MarketStatus(t))
                } else {
                    Err(MalformedEvent::TrailingData)
                }
            } else {
                Err(MalformedEvent::MissingField("payload".to_owned()))
            },
        }
    } else if tag == "AssetTransition".to_owned() {
        let i3 = match eat_payload_key(bytes, i2) {
            Some(j) => j,
            None => {
                return Err(MalformedEvent::MissingField("payload".to_owned()));
            },
        };
        let i4 = match eat_id_key(bytes, i3) {
            Some(j) => j,
            None => {
                return Err(MalformedEvent::MissingField("id".to_owned()));
            },
        };
        let (id, i5) = match read_jstr(bytes, i4, "id") {
            Ok(p) => p,
            Err(e) => {
                return Err(e);
            },
        };
        let i6 = match eat_state_key(bytes, i5) {
            Some(j) => j,
            None => {
                return Err(MalformedEvent::MissingField("state".to_owned()));
            },
        };
        let (state, i7) = match read_jstr(bytes, i6, "state") {
            Ok(p) => p,
            Err(e) => {
                return Err(e);
            },
        };
        let i8 = match eat_reason_key(bytes, i7) {
            Some(j) => j,
            None => {
                return Err(MalformedEvent::MissingField("reason".to_owned()));
            },
        };
        let (reason, i9) = match read_reason_value(bytes, i8) {
            Ok(p) => p,
            Err(e) => {
                return Err(e);
            },
        };
        if bytes.len() - i9 >= 2 && bytes[i9] == 0x7du8 && bytes[i9 + 1] == 0x7du8 {
            if i9 + 2 == bytes.len() {
                Ok(SysEvent::AssetTransition { id, state, reason })
            } else {
                Err(MalformedEvent::TrailingData)
            }
        } else {
            Err(MalformedEvent::MissingField("payload".to_owned()))
        }
    } else if tag == "TelemetryTick".to_owned() {
        let i3 = match eat_payload_key(bytes, i2) {
            Some(j) => j,
            None => {
                return Err(MalformedEvent::MissingField("payload".to_owned()));
            },
        };
        if i3 < bytes.len() && bytes[i3] == 0x7bu8 {
            match read_fields(bytes, i3 + 1) {
                Err(e) => Err(e),
                Ok((fs, i4)) => if i4 < bytes.len() && bytes[i4] == 0x7du8 {
                    if i4 + 1 == bytes.len() {
                        Ok(SysEvent::TelemetryTick(fs))
                    } else {
                        Err(MalformedEvent::TrailingData)
                    }
                } else {
                    Err(MalformedEvent::MissingField("payload".to_owned()))
                },
            }
        } else {
            Err(MalformedEvent::MissingField("payload".to_owned()))
        }
    } else {
        Err(MalformedEvent::UnknownTag(tag))
    }
}

} // verus!
