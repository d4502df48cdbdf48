use sysbus::codec::MalformedEvent;
use sysbus::codec::deserialize;
use sysbus::codec::serialize;
use sysbus::event::SysEvent;
use sysbus::event::TelemetryField;

fn round_trips(event: SysEvent) {
    let bytes = serialize(&event);
    assert_eq!(deserialize(&bytes), Ok(event));
}

#[test]
fn config_reloaded_round_trips() {
    round_trips(SysEvent::ConfigReloaded);
}

#[test]
fn market_status_round_trips() {
    round_trips(SysEvent::MarketStatus("pre-open".to_string()));
    round_trips(SysEvent::MarketStatus(String::new()));
    round_trips(SysEvent::MarketStatus("geöffnet — 開場".to_string()));
    round_trips(SysEvent::MarketStatus("with \"quotes\", back\\slash,\nnewline\ttab".to_string()));
}

#[test]
fn asset_transition_round_trips() {
    round_trips(SysEvent::AssetTransition {
        id: "AAPL".to_string(),
        state: "halted".to_string(),
        reason: Some("circuit-breaker".to_string()),
    });
    round_trips(SysEvent::AssetTransition {
        id: "MSFT".to_string(),
        state: "active".to_string(),
        reason: None,
    });
}

#[test]
fn telemetry_tick_round_trips() {
    round_trips(SysEvent::TelemetryTick(vec![]));
    round_trips(SysEvent::TelemetryTick(vec![
        TelemetryField { key: "queue_depth".to_string(), value: 42 },
        TelemetryField { key: "drift_ns".to_string(), value: -7 },
        TelemetryField { key: "floor".to_string(), value: i64::MIN },
        TelemetryField { key: "ceiling".to_string(), value: i64::MAX },
    ]));
}

#[test]
fn wire_image_is_the_tagged_structure() {
    assert_eq!(
        serialize(&SysEvent::ConfigReloaded),
        br#"{"type":"ConfigReloaded"}"#.to_vec()
    );
    assert_eq!(
        serialize(&SysEvent::MarketStatus("open".to_string())),
        br#"{"type":"MarketStatus","payload":"open"}"#.to_vec()
    );
    assert_eq!(
        serialize(&SysEvent::AssetTransition {
            id: "AAPL".to_string(),
            state: "halted".to_string(),
            reason: Some("circuit-breaker".to_string()),
        }),
        br#"{"type":"AssetTransition","payload":{"id":"AAPL","state":"halted","reason":"circuit-breaker"}}"#
            .to_vec()
    );
    assert_eq!(
        serialize(&SysEvent::AssetTransition {
            id: "X".to_string(),
            state: "active".to_string(),
            reason: None,
        }),
        br#"{"type":"AssetTransition","payload":{"id":"X","state":"active","reason":null}}"#
            .to_vec()
    );
    assert_eq!(
        serialize(&SysEvent::TelemetryTick(vec![
            TelemetryField { key: "queue_depth".to_string(), value: 42 },
            TelemetryField { key: "drift_ns".to_string(), value: -7 },
        ])),
        br#"{"type":"TelemetryTick","payload":{"queue_depth":42,"drift_ns":-7}}"#.to_vec()
    );
    assert_eq!(
        serialize(&SysEvent::TelemetryTick(vec![])),
        br#"{"type":"TelemetryTick","payload":{}}"#.to_vec()
    );
}

#[test]
fn unknown_tag_is_named() {
    let bytes = br#"{"type":"HeartBeat"}"#.to_vec();
    assert_eq!(
        deserialize(&bytes),
        Err(MalformedEvent::UnknownTag("HeartBeat".to_string()))
    );
}

#[test]
fn missing_fields_are_named() {
    assert_eq!(
        deserialize(&Vec::new()),
        Err(MalformedEvent::MissingField("type".to_string()))
    );
    let unterminated = br#"{"type":"MarketStatus","payload":"op"#.to_vec();
    assert_eq!(
        deserialize(&unterminated),
        Err(MalformedEvent::MissingField("payload".to_string()))
    );
    let no_state = br#"{"type":"AssetTransition","payload":{"id":"AAPL"}}"#.to_vec();
    assert_eq!(
        deserialize(&no_state),
        Err(MalformedEvent::MissingField("state".to_string()))
    );
}

#[test]
fn invalid_text_is_rejected() {
    let mut bytes = serialize(&SysEvent::MarketStatus("a".to_string()));
    let len = bytes.len();
    bytes[len - 3] = 0xff;
    assert_eq!(deserialize(&bytes), Err(MalformedEvent::InvalidText));
    let bad_escape = br#"{"type":"MarketStatus","payload":"\x"}"#.to_vec();
    assert_eq!(deserialize(&bad_escape), Err(MalformedEvent::InvalidText));
}

#[test]
fn out_of_range_reading_is_rejected() {
    let too_big = br#"{"type":"TelemetryTick","payload":{"k":9223372036854775808}}"#.to_vec();
    assert_eq!(deserialize(&too_big), Err(MalformedEvent::InvalidNumber));
    let too_long = br#"{"type":"TelemetryTick","payload":{"k":99999999999999999999}}"#.to_vec();
    assert_eq!(deserialize(&too_long), Err(MalformedEvent::InvalidNumber));
}

#[test]
fn trailing_bytes_are_rejected() {
    let mut bytes = serialize(&SysEvent::ConfigReloaded);
    bytes.push(0x20);
    assert_eq!(deserialize(&bytes), Err(MalformedEvent::TrailingData));
}
