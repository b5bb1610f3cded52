use osc::data::OscArg::{OscBlob, OscFloat, OscInt, OscStr};
use osc::data::OscPacket::{OscBundle, OscMessage};
use osc::data::{get_args_with_addr, packet_has_addr, OscPacket};
use osc::receiver::{decode_packet, is_bundle, read_message, read_packet, OscError};
use osc::sender::packet_to_buffer;

fn roundtrip(p: OscPacket) {
    let buf = packet_to_buffer(p.clone());
    let res = read_packet(&buf[4..]).unwrap();
    assert_eq!(p, res);
}

#[test]
fn test_roundtrip_message() {
    // Scenario A: a message with all four argument kinds survives the trip
    roundtrip(OscMessage {
        addr: b"/test/addr".to_vec(),
        args: vec![
            OscInt(123),
            OscFloat(1.23f32.to_bits()),
            OscStr(b"teststr".to_vec()),
            OscBlob(vec![0u8, 5u8, 10u8]),
        ],
    });
}

fn nested_bundle() -> OscPacket {
    OscBundle {
        time_tag: (0, 1),
        conts: vec![
            OscMessage { addr: b"/t".to_vec(), args: vec![OscInt(123)] },
            OscBundle {
                time_tag: (123, 456),
                conts: vec![
                    OscMessage {
                        addr: b"/a".to_vec(),
                        args: vec![OscFloat(0.0f32.to_bits()), OscStr(b"abc".to_vec())],
                    },
                    OscMessage { addr: b"/b".to_vec(), args: vec![OscBlob(vec![1, 2, 3, 4, 5])] },
                ],
            },
        ],
    }
}

#[test]
fn test_roundtrip_bundle_nesting() {
    // Scenario B: the nested bundle's payload is 96 bytes and survives
    let p = nested_bundle();
    let buf = packet_to_buffer(p.clone());
    assert_eq!(buf.len() - 4, 96);
    let res = read_packet(&buf[4..]).unwrap();
    assert_eq!(p, res);
}

#[test]
fn test_roundtrip_edges() {
    roundtrip(OscMessage { addr: b"".to_vec(), args: vec![] });
    roundtrip(OscMessage { addr: b"/n".to_vec(), args: vec![OscInt(-2147483648)] });
    roundtrip(OscMessage { addr: b"/b".to_vec(), args: vec![OscBlob(vec![])] });
    roundtrip(OscMessage { addr: b"/s".to_vec(), args: vec![OscStr(b"".to_vec())] });
    roundtrip(OscBundle { time_tag: (u32::MAX, u32::MAX), conts: vec![] });
    roundtrip(OscBundle {
        time_tag: (0, 0),
        conts: vec![OscBundle { time_tag: (1, 1), conts: vec![] }],
    });
}

#[test]
fn test_address_query_scenarios() {
    // Scenario C: the nested bundle holds /a but not /z
    let p = nested_bundle();
    assert!(packet_has_addr(&p, b"/a"));
    assert_eq!(get_args_with_addr(p, b"/z"), None);
}

#[test]
fn test_missing_type_tag_comma() {
    // Scenario D: a message whose second string is "x" (no leading comma)
    let mut buf: Vec<u8> = Vec::new();
    buf.extend_from_slice(b"/a\0\0");
    buf.extend_from_slice(b"x\0\0\0");
    assert_eq!(read_message(&buf), Err(OscError::MissingTypeTagComma));
    assert_eq!(decode_packet(&buf), Err(OscError::MissingTypeTagComma));
}

#[test]
fn test_packet_too_small() {
    assert_eq!(decode_packet(&[0u8; 7]), Err(OscError::PacketTooSmall));
    assert_eq!(decode_packet(&[]), Err(OscError::PacketTooSmall));
}

#[test]
fn test_unknown_type_tag() {
    let mut buf: Vec<u8> = Vec::new();
    buf.extend_from_slice(b"/a\0\0");
    buf.extend_from_slice(b",x\0\0");
    assert_eq!(read_message(&buf), Err(OscError::UnknownTypeTag(b'x')));
}

#[test]
fn test_invalid_utf8_address() {
    let mut buf: Vec<u8> = Vec::new();
    buf.extend_from_slice(&[0xffu8, 0, 0, 0]);
    buf.extend_from_slice(b",\0\0\0");
    assert_eq!(read_message(&buf), Err(OscError::InvalidEncoding));
}

#[test]
fn test_bad_bundle_header() {
    let mut buf: Vec<u8> = Vec::new();
    buf.extend_from_slice(b"#bundlX\0");
    buf.extend_from_slice(&0u32.to_be_bytes());
    buf.extend_from_slice(&0u32.to_be_bytes());
    assert_eq!(read_packet(&buf), Err(OscError::InvalidEncoding));
}

#[test]
fn test_truncation_message() {
    // cutting a message's payload anywhere must fail, never panic and
    // never decode successfully
    let buf = packet_to_buffer(OscMessage {
        addr: b"/test/addr".to_vec(),
        args: vec![
            OscInt(123),
            OscFloat(1.23f32.to_bits()),
            OscStr(b"teststr".to_vec()),
            OscBlob(vec![0u8, 5u8, 10u8]),
        ],
    });
    let payload = &buf[4..];
    for cut in 0..payload.len() {
        assert!(read_packet(&payload[..cut]).is_err());
    }
}

#[test]
fn test_truncation_bundle() {
    // cutting a bundle's payload fails everywhere except exactly at an
    // element boundary, where the prefix reads back as a shorter bundle
    let buf = packet_to_buffer(nested_bundle());
    let payload = &buf[4..];
    assert_eq!(payload.len(), 96);
    for cut in 0..payload.len() {
        let r = read_packet(&payload[..cut]);
        if cut == 16 {
            // header only: an empty bundle
            assert_eq!(r, Ok(OscBundle { time_tag: (0, 1), conts: vec![] }));
        } else if cut == 32 {
            // header plus the first element
            assert_eq!(
                r,
                Ok(OscBundle {
                    time_tag: (0, 1),
                    conts: vec![OscMessage { addr: b"/t".to_vec(), args: vec![OscInt(123)] }],
                })
            );
        } else {
            assert!(r.is_err());
        }
    }
}

#[test]
fn test_is_bundle_dispatch() {
    assert!(is_bundle(b"#bundle\0"));
    assert!(!is_bundle(b"/addr\0\0\0"));
}

#[test]
fn test_trailing_bytes_after_message_args_are_ignored() {
    let mut buf: Vec<u8> = Vec::new();
    buf.extend_from_slice(b"/a\0\0");
    buf.extend_from_slice(b",i\0\0");
    buf.extend_from_slice(&7i32.to_be_bytes());
    buf.extend_from_slice(&[9u8, 9u8]);
    assert_eq!(
        read_message(&buf),
        Ok(OscMessage { addr: b"/a".to_vec(), args: vec![OscInt(7)] })
    );
}

#[test]
fn test_negative_element_size_is_truncation() {
    let mut buf: Vec<u8> = Vec::new();
    buf.extend_from_slice(b"#bundle\0");
    buf.extend_from_slice(&0u32.to_be_bytes());
    buf.extend_from_slice(&0u32.to_be_bytes());
    buf.extend_from_slice(&(-5i32).to_be_bytes());
    assert_eq!(read_packet(&buf), Err(OscError::Truncated));
}

#[test]
fn test_zero_sized_element_decodes_as_empty_message_failure() {
    // a zero-length element is an empty buffer handed to the nested
    // decoder, which cannot even read an address string
    let mut buf: Vec<u8> = Vec::new();
    buf.extend_from_slice(b"#bundle\0");
    buf.extend_from_slice(&0u32.to_be_bytes());
    buf.extend_from_slice(&0u32.to_be_bytes());
    buf.extend_from_slice(&0i32.to_be_bytes());
    assert_eq!(read_packet(&buf), Err(OscError::Truncated));
}
