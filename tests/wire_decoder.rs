use pipeline::telemetry::{DecodeError, FastTelemetry, TelemetryDecoder};
use std::collections::BTreeMap;

/// {"id": 42, "p": 0, "spd": 310}
fn sample_record() -> Vec<u8> {
    vec![
        0x83, 0xa2, b'i', b'd', 42, 0xa1, b'p', 0, 0xa3, b's', b'p', b'd', 0xcd, 0x01, 0x36,
    ]
}

#[test]
fn find_field_positions_at_value() {
    let data = sample_record();
    let mut d = TelemetryDecoder::new(&data);
    assert_eq!(d.find_field("spd"), Ok(true));
    assert_eq!(d.read_u64(), Ok(310));
    assert_eq!(d.find_field("id"), Ok(true));
    assert_eq!(d.read_u64(), Ok(42));
}

#[test]
fn find_field_absent_key() {
    let data = sample_record();
    let mut d = TelemetryDecoder::new(&data);
    assert_eq!(d.find_field("rpm"), Ok(false));
    assert_eq!(d.find_field("i"), Ok(false));
}

#[test]
fn fast_telemetry_reads_fields() {
    let data = sample_record();
    let mut t = FastTelemetry::new(&data);
    assert_eq!(t.packet_id(), Ok(42));
    assert_eq!(t.priority(), Ok(0));
    assert_eq!(t.speed(), Ok(310));
    // a second request returns the kept value
    assert_eq!(t.packet_id(), Ok(42));
    assert_eq!(t.speed(), Ok(310));
}

#[test]
fn missing_required_fields_are_not_found() {
    // {"t": 5}
    let data = vec![0x81, 0xa1, b't', 5];
    let mut t = FastTelemetry::new(&data);
    assert_eq!(t.packet_id(), Err(DecodeError::FieldNotFound));
    assert_eq!(t.speed(), Err(DecodeError::FieldNotFound));
}

#[test]
fn missing_priority_defaults_to_high() {
    let data = vec![0x81, 0xa2, b'i', b'd', 7];
    let mut t = FastTelemetry::new(&data);
    assert_eq!(t.priority(), Ok(1));
}

#[test]
fn truncated_record_underflows() {
    let mut data = sample_record();
    data.truncate(13);
    let mut t = FastTelemetry::new(&data);
    assert_eq!(t.packet_id(), Ok(42));
    assert_eq!(t.speed(), Err(DecodeError::BufferUnderflow));
    let empty: Vec<u8> = Vec::new();
    let mut d = TelemetryDecoder::new(&empty);
    assert_eq!(d.find_field("id"), Err(DecodeError::BufferUnderflow));
}

#[test]
fn unknown_marker_is_refused() {
    // {"x": <0xc1>, "id": 1}
    let data = vec![0x82, 0xa1, b'x', 0xc1, 0xa2, b'i', b'd', 1];
    let mut d = TelemetryDecoder::new(&data);
    assert_eq!(d.find_field("id"), Err(DecodeError::UnknownMarker));
}

#[test]
fn non_map_record_is_a_type_mismatch() {
    let data = vec![0x92, 1, 2];
    let mut d = TelemetryDecoder::new(&data);
    assert_eq!(d.find_field("id"), Err(DecodeError::TypeMismatch));
}

#[test]
fn non_integer_value_is_a_type_mismatch() {
    // {"id": "ab"}
    let data = vec![0x81, 0xa2, b'i', b'd', 0xa2, b'a', b'b'];
    let mut t = FastTelemetry::new(&data);
    assert_eq!(t.packet_id(), Err(DecodeError::TypeMismatch));
}

#[test]
fn skips_nested_and_wide_values() {
    // {"a": [1.0f32, {"k": nil}], "s": str8 "hello", "n": -3, "b": true, "id": uint32 70000}
    let data = vec![
        0x85, 0xa1, b'a', 0x92, 0xca, 0x3f, 0x80, 0x00, 0x00, 0x81, 0xa1, b'k', 0xc0, 0xa1, b's',
        0xd9, 5, b'h', b'e', b'l', b'l', b'o', 0xa1, b'n', 0xfd, 0xa1, b'b', 0xc3, 0xa2, b'i',
        b'd', 0xce, 0x00, 0x01, 0x11, 0x70,
    ];
    let mut t = FastTelemetry::new(&data);
    assert_eq!(t.packet_id(), Ok(70000));
}

#[test]
fn map16_header_and_uint64() {
    // map16 with one entry {"id": uint64 2^32 + 5}
    let data = vec![
        0xde, 0x00, 0x01, 0xa2, b'i', b'd', 0xcf, 0, 0, 0, 1, 0, 0, 0, 5,
    ];
    let mut d = TelemetryDecoder::new(&data);
    assert_eq!(d.find_field("id"), Ok(true));
    assert_eq!(d.read_u64(), Ok(0x1_0000_0005));
    // the record id keeps the low 32 bits
    let mut t = FastTelemetry::new(&data);
    assert_eq!(t.packet_id(), Ok(5));
}

#[test]
fn narrow_reads_keep_low_bits() {
    // {"p": 258, "spd": 70000}
    let data = vec![
        0x82, 0xa1, b'p', 0xcd, 0x01, 0x02, 0xa3, b's', b'p', b'd', 0xce, 0x00, 0x01, 0x11, 0x70,
    ];
    let mut d = TelemetryDecoder::new(&data);
    assert_eq!(d.find_field("p"), Ok(true));
    assert_eq!(d.read_priority(), Ok(2));
    assert_eq!(d.find_field("spd"), Ok(true));
    assert_eq!(d.read_u16(), Ok(70000u32 as u16));
}

#[test]
fn record_encoded_by_rmp_serde_reads_back() {
    let mut m: BTreeMap<&str, u64> = BTreeMap::new();
    m.insert("t", 1_700_000_000_123);
    m.insert("id", 70_001);
    m.insert("p", 2);
    m.insert("spd", 287);
    m.insert("rpm", 11_500);
    let bytes = rmp_serde::to_vec(&m).unwrap();
    let mut t = FastTelemetry::new(&bytes);
    assert_eq!(t.packet_id(), Ok(70_001));
    assert_eq!(t.priority(), Ok(2));
    assert_eq!(t.speed(), Ok(287));
    let mut d = TelemetryDecoder::new(&bytes);
    assert_eq!(d.find_field("t"), Ok(true));
    assert_eq!(d.read_u64(), Ok(1_700_000_000_123));
    assert_eq!(d.find_field("gear"), Ok(false));
}

#[test]
fn full_size_record_uses_map16_and_reads_back() {
    let keys = [
        "t", "id", "p", "spd", "thr", "brk", "str", "g", "rpm", "drs", "oilp", "oilt", "h2ot",
        "tp", "tt", "ers", "mguk", "fuel",
    ];
    let mut m: BTreeMap<&str, u64> = BTreeMap::new();
    for (i, k) in keys.iter().enumerate() {
        m.insert(k, 1000 * i as u64 + 7);
    }
    let bytes = rmp_serde::to_vec(&m).unwrap();
    assert_eq!(bytes[0], 0xde);
    let mut t = FastTelemetry::new(&bytes);
    assert_eq!(t.packet_id(), Ok(1007));
    assert_eq!(t.priority(), Ok((2007u64 % 256) as u8));
    assert_eq!(t.speed(), Ok(3007));
    let mut d = TelemetryDecoder::new(&bytes);
    for (i, k) in keys.iter().enumerate() {
        assert_eq!(d.find_field(k), Ok(true));
        assert_eq!(d.read_u64(), Ok(1000 * i as u64 + 7));
    }
    assert_eq!(d.find_field("lap"), Ok(false));
}

#[test]
fn skips_nested_map16_value() {
    // {"m": map16 {"a": 1}, "id": 9}
    let data = vec![
        0x82, 0xa1, b'm', 0xde, 0x00, 0x01, 0xa1, b'a', 1, 0xa2, b'i', b'd', 9,
    ];
    let mut t = FastTelemetry::new(&data);
    assert_eq!(t.packet_id(), Ok(9));
    // a map16 whose length bytes are cut short
    let cut = vec![0x82, 0xa1, b'm', 0xde, 0x00];
    let mut d = TelemetryDecoder::new(&cut);
    assert_eq!(d.find_field("id"), Err(DecodeError::BufferUnderflow));
}

#[test]
fn miss_returns_cursor_to_start() {
    let data = sample_record();
    let mut d = TelemetryDecoder::new(&data);
    assert_eq!(d.find_field("rpm"), Ok(false));
    // the cursor is back on the map header, so a read there is no integer
    assert_eq!(d.read_u64(), Err(DecodeError::TypeMismatch));
    assert_eq!(d.find_field("rpm"), Ok(false));
    assert_eq!(d.read_u64(), Err(DecodeError::TypeMismatch));
}
