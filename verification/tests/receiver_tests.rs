use osc::data::OscArg::{OscBlob, OscFloat, OscInt, OscStr};
use osc::data::OscPacket::{OscBundle, OscMessage};
use osc::receiver::{read_blob, read_bundle, read_message, read_null_term_string};
use osc::sender::packet_to_buffer;

#[test]
fn osc_receiver_test_read_message() {
    let tmess = OscMessage {
        addr: b"/test/addr".to_vec(),
        args: vec![
            OscInt(123),
            OscFloat(1.23f32.to_bits()),
            OscStr(b"teststr".to_vec()),
            OscBlob(vec![0u8, 5u8, 10u8]),
        ],
    };

    let buf = packet_to_buffer(tmess.clone());
    let resmess = read_message(&buf[4..]).unwrap();

    assert_eq!(tmess, resmess);
}

#[test]
fn receiver_test_read_message() {
    let tmess = OscMessage {
        addr: b"/test/addr".to_vec(),
        args: vec![
            OscInt(123),
            OscFloat(1.23f32.to_bits()),
            OscStr(b"teststr".to_vec()),
            OscBlob(vec![0u8, 5u8, 10u8]),
        ],
    };

    let buf = packet_to_buffer(tmess.clone());
    let resmess = read_message(&buf[4..]).unwrap();

    assert_eq!(tmess, resmess);
}

fn nested_bundle() -> osc::data::OscPacket {
    let a1 = OscInt(123);
    let a2 = OscFloat(0.0f32.to_bits());
    let a3 = OscStr(b"abc".to_vec());
    let a4 = OscBlob(vec![1u8, 2u8, 3u8, 4u8, 5u8]);

    OscBundle {
        time_tag: (0, 1),
        conts: vec![
            OscMessage { addr: b"/t".to_vec(), args: vec![a1] },
            OscBundle {
                time_tag: (123, 456),
                conts: vec![
                    OscMessage { addr: b"/a".to_vec(), args: vec![a2, a3] },
                    OscMessage { addr: b"/b".to_vec(), args: vec![a4] },
                ],
            },
        ],
    }
}

#[test]
fn osc_receiver_test_read_bundle() {
    let packet = nested_bundle();
    let buf = packet_to_buffer(packet.clone());
    let res = read_bundle(&buf[4..]).unwrap();
    assert_eq!(packet, res);
}

#[test]
fn receiver_test_read_bundle() {
    let packet = nested_bundle();
    let buf = packet_to_buffer(packet.clone());
    let res = read_bundle(&buf[4..]).unwrap();
    assert_eq!(packet, res);
}

#[test]
fn osc_receiver_test_read_null_term_string() {
    // remember that OSC strings are always multiples of 4 bytes!

    // simple case
    let buf1 = [97u8, 98u8, 99u8, 0u8];
    assert_eq!(read_null_term_string(&buf1, 0).unwrap(), (b"abc".to_vec(), 4));

    // multiple nulls and multiple calls; the second field's padded extent
    // runs one byte past the buffer, so reading it reports truncation
    let buf2 = [97u8, 98u8, 0u8, 0u8, 99u8, 0u8];
    assert_eq!(read_null_term_string(&buf2, 0).unwrap(), (b"ab".to_vec(), 4));
    assert!(read_null_term_string(&buf2, 4).is_err());

    // some corner cases
    let buf3 = [];
    assert!(read_null_term_string(&buf3, 0).is_err());

    // a lone null is a cut-off empty-string field: its padded form is four
    // bytes long
    let buf4 = [0u8];
    assert!(read_null_term_string(&buf4, 0).is_err());

    let buf5 = [0u8, 0u8, 0u8, 0u8, 0u8];
    assert_eq!(read_null_term_string(&buf5, 0).unwrap(), (b"".to_vec(), 4));
    assert!(read_null_term_string(&buf5, 4).is_err());
}

#[test]
fn receiver_test_read_null_term_string() {
    let buf1 = [97u8, 98u8, 99u8, 0u8];
    assert_eq!(read_null_term_string(&buf1, 0).unwrap(), (b"abc".to_vec(), 4));

    let buf2 = [97u8, 98u8, 0u8, 0u8, 99u8, 0u8];
    assert_eq!(read_null_term_string(&buf2, 0).unwrap(), (b"ab".to_vec(), 4));
    assert!(read_null_term_string(&buf2, 4).is_err());

    let buf3 = [];
    assert!(read_null_term_string(&buf3, 0).is_err());

    let buf4 = [0u8];
    assert!(read_null_term_string(&buf4, 0).is_err());

    let buf5 = [0u8, 0u8, 0u8, 0u8, 0u8];
    assert_eq!(read_null_term_string(&buf5, 0).unwrap(), (b"".to_vec(), 4));
    assert!(read_null_term_string(&buf5, 4).is_err());
}

#[test]
fn osc_receiver_test_read_blob() {
    let mut buf: Vec<u8> = Vec::new();
    buf.extend_from_slice(&9i32.to_be_bytes());
    buf.extend_from_slice(&[0u8, 1u8, 2u8, 3u8, 4u8, 5u8, 10u8, 15u8, 20u8, 0u8, 0u8, 0u8]);

    let (res, newpos) = read_blob(&buf, 0).unwrap();

    assert_eq!(res, vec![0u8, 1u8, 2u8, 3u8, 4u8, 5u8, 10u8, 15u8, 20u8]);
    // the read consumed the whole buffer, padding included
    assert_eq!(newpos, buf.len());
}

#[test]
fn receiver_test_read_blob() {
    let mut buf: Vec<u8> = Vec::new();
    buf.extend_from_slice(&9i32.to_be_bytes());
    buf.extend_from_slice(&[0u8, 1u8, 2u8, 3u8, 4u8, 5u8, 10u8, 15u8, 20u8, 0u8, 0u8, 0u8]);

    let (res, newpos) = read_blob(&buf, 0).unwrap();

    assert_eq!(res, vec![0u8, 1u8, 2u8, 3u8, 4u8, 5u8, 10u8, 15u8, 20u8]);
    assert_eq!(newpos, buf.len());
}
