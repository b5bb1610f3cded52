use osc::data::OscArg::{OscBlob, OscFloat, OscInt, OscStr};
use osc::data::OscPacket::{OscBundle, OscMessage};
use osc::sender::{arg_to_type_tag, packet_to_buffer, to_osc_string, write_arg};
use osc::util::four_byte_pad;

#[test]
fn osc_sender_test_packet_to_buffer_message() {
    let a1 = OscInt(123);
    let a2 = OscFloat(0.0f32.to_bits());
    let a3 = OscStr(b"abc".to_vec());
    let a4 = OscBlob(vec![1u8, 2u8, 3u8, 4u8, 5u8]);

    let mess = OscMessage { addr: b"/test/addr".to_vec(), args: vec![a1, a2, a3, a4] };

    let buf = packet_to_buffer(mess);

    let mut tbuf: Vec<u8> = Vec::new();
    tbuf.extend_from_slice(&44i32.to_be_bytes());
    tbuf.extend_from_slice(b"/test/addr\0\0");
    tbuf.extend_from_slice(b",ifsb\0\0\0");
    tbuf.extend_from_slice(&123i32.to_be_bytes());
    tbuf.extend_from_slice(&0.0f32.to_be_bytes());
    tbuf.extend_from_slice(b"abc\0");
    tbuf.extend_from_slice(&5i32.to_be_bytes());
    tbuf.extend_from_slice(&[1u8, 2u8, 3u8, 4u8, 5u8, 0u8, 0u8, 0u8]);

    assert_eq!(buf, tbuf);
}

#[test]
fn sender_test_packet_to_buffer_message() {
    let a1 = OscInt(123);
    let a2 = OscFloat(0.0f32.to_bits());
    let a3 = OscStr(b"abc".to_vec());
    let a4 = OscBlob(vec![1u8, 2u8, 3u8, 4u8, 5u8]);

    let mess = OscMessage { addr: b"/test/addr".to_vec(), args: vec![a1, a2, a3, a4] };

    let buf = packet_to_buffer(mess);
    assert_eq!(buf.len(), 48);
    assert_eq!(&buf[0..4], &44i32.to_be_bytes());
    assert_eq!(&buf[4..16], b"/test/addr\0\0");
    assert_eq!(&buf[16..24], b",ifsb\0\0\0");
    assert_eq!(&buf[24..28], &123i32.to_be_bytes());
    assert_eq!(&buf[28..32], &0.0f32.to_be_bytes());
    assert_eq!(&buf[32..36], b"abc\0");
    assert_eq!(&buf[36..40], &5i32.to_be_bytes());
    assert_eq!(&buf[40..48], &[1u8, 2u8, 3u8, 4u8, 5u8, 0u8, 0u8, 0u8]);
}

fn nested_test_bundle() -> osc::data::OscPacket {
    let a1 = OscInt(123);
    let a2 = OscFloat(0.0f32.to_bits());
    let a3 = OscStr(b"abc".to_vec());
    let a4 = OscBlob(vec![1u8, 2u8, 3u8, 4u8, 5u8]);

    OscBundle {
        time_tag: (0, 1),
        conts: vec![
            OscMessage { addr: b"/t".to_vec(), args: vec![a1] },
            OscBundle {
                time_tag: (123, 456),
                conts: vec![
                    OscMessage { addr: b"/a".to_vec(), args: vec![a2, a3] },
                    OscMessage { addr: b"/b".to_vec(), args: vec![a4] },
                ],
            },
        ],
    }
}

fn nested_test_bundle_bytes() -> Vec<u8> {
    let mut tbuf: Vec<u8> = Vec::new();
    tbuf.extend_from_slice(&96i32.to_be_bytes()); // size of total packet

    tbuf.extend_from_slice(b"#bundle\0");
    tbuf.extend_from_slice(&0u32.to_be_bytes());
    tbuf.extend_from_slice(&1u32.to_be_bytes());

    tbuf.extend_from_slice(&12i32.to_be_bytes()); // size of first bundle element
    tbuf.extend_from_slice(b"/t\0\0");
    tbuf.extend_from_slice(b",i\0\0");
    tbuf.extend_from_slice(&123i32.to_be_bytes());

    tbuf.extend_from_slice(&60i32.to_be_bytes()); // size of second bundle element

    tbuf.extend_from_slice(b"#bundle\0");
    tbuf.extend_from_slice(&123u32.to_be_bytes());
    tbuf.extend_from_slice(&456u32.to_be_bytes());

    tbuf.extend_from_slice(&16i32.to_be_bytes()); // size of first bundle message
    tbuf.extend_from_slice(b"/a\0\0");
    tbuf.extend_from_slice(b",fs\0");
    tbuf.extend_from_slice(&0.0f32.to_be_bytes());
    tbuf.extend_from_slice(b"abc\0");

    tbuf.extend_from_slice(&20i32.to_be_bytes()); // size of second bundle message
    tbuf.extend_from_slice(b"/b\0\0");
    tbuf.extend_from_slice(b",b\0\0");
    tbuf.extend_from_slice(&5i32.to_be_bytes());
    tbuf.extend_from_slice(&[1u8, 2u8, 3u8, 4u8, 5u8, 0u8, 0u8, 0u8]);

    tbuf
}

#[test]
fn osc_sender_test_packet_to_buffer_bundle() {
    let res = packet_to_buffer(nested_test_bundle());
    let tbuf = nested_test_bundle_bytes();
    assert_eq!(tbuf, res);
}

#[test]
fn sender_test_packet_to_buffer_bundle() {
    let res = packet_to_buffer(nested_test_bundle());
    let tbuf = nested_test_bundle_bytes();
    // the payload, excluding the outer 4-byte size, is exactly 96 bytes
    assert_eq!(res.len() - 4, 96);
    assert_eq!(tbuf, res);
}

#[test]
fn osc_sender_test_to_osc_string() {
    let t0 = b"a".to_vec();
    assert_eq!(b"a\0\0\0".to_vec(), to_osc_string(t0));

    let t1 = b"hello".to_vec();
    assert_eq!(b"hello\0\0\0".to_vec(), to_osc_string(t1));

    let t2 = b"".to_vec();
    assert_eq!(b"\0\0\0\0".to_vec(), to_osc_string(t2));
}

#[test]
fn sender_test_to_osc_string() {
    let t0 = b"a".to_vec();
    assert_eq!(b"a\0\0\0".to_vec(), to_osc_string(t0));

    let t1 = b"hello".to_vec();
    assert_eq!(b"hello\0\0\0".to_vec(), to_osc_string(t1));

    let t2 = b"".to_vec();
    assert_eq!(b"\0\0\0\0".to_vec(), to_osc_string(t2));
}

#[test]
fn osc_sender_test_write_arg() {
    let mut buf: Vec<u8> = Vec::new();

    let a1 = OscInt(123);
    let a2 = OscFloat(0.0f32.to_bits());
    let a3 = OscStr(b"abc".to_vec());
    let a4 = OscBlob(vec![1u8, 2u8, 3u8, 4u8, 5u8]);

    write_arg(&mut buf, a1);
    write_arg(&mut buf, a2);
    write_arg(&mut buf, a3);
    write_arg(&mut buf, a4);

    let mut tbuf: Vec<u8> = Vec::new();
    tbuf.extend_from_slice(&123i32.to_be_bytes());
    tbuf.extend_from_slice(&0.0f32.to_be_bytes());
    tbuf.extend_from_slice(b"abc\0");
    tbuf.extend_from_slice(&5i32.to_be_bytes());
    tbuf.extend_from_slice(&[1u8, 2u8, 3u8, 4u8, 5u8, 0u8, 0u8, 0u8]);

    assert_eq!(buf, tbuf);
}

#[test]
fn sender_test_write_arg() {
    let mut buf: Vec<u8> = Vec::new();

    write_arg(&mut buf, OscInt(123));
    write_arg(&mut buf, OscFloat(0.0f32.to_bits()));
    write_arg(&mut buf, OscStr(b"abc".to_vec()));
    write_arg(&mut buf, OscBlob(vec![1u8, 2u8, 3u8, 4u8, 5u8]));

    let mut tbuf: Vec<u8> = Vec::new();
    tbuf.extend_from_slice(&123i32.to_be_bytes());
    tbuf.extend_from_slice(&0.0f32.to_be_bytes());
    tbuf.extend_from_slice(b"abc\0");
    tbuf.extend_from_slice(&5i32.to_be_bytes());
    tbuf.extend_from_slice(&[1u8, 2u8, 3u8, 4u8, 5u8, 0u8, 0u8, 0u8]);

    assert_eq!(buf, tbuf);
}

#[test]
fn test_arg_to_type_tag_table() {
    assert_eq!(arg_to_type_tag(&OscInt(0)), 'i');
    assert_eq!(arg_to_type_tag(&OscFloat(0)), 'f');
    assert_eq!(arg_to_type_tag(&OscStr(vec![])), 's');
    assert_eq!(arg_to_type_tag(&OscBlob(vec![])), 'b');
}

#[test]
fn test_four_byte_pad_values() {
    assert_eq!(four_byte_pad(0), 0);
    assert_eq!(four_byte_pad(1), 3);
    assert_eq!(four_byte_pad(2), 2);
    assert_eq!(four_byte_pad(3), 1);
    assert_eq!(four_byte_pad(4), 0);
    assert_eq!(four_byte_pad(9), 3);
}

#[test]
fn test_string_padding_lengths() {
    // every encoded string is a positive multiple of four bytes
    for n in 0..10usize {
        let s = vec![b'x'; n];
        let e = to_osc_string(s);
        assert!(e.len() % 4 == 0);
        assert!(e.len() >= 4);
        assert!(e.len() >= n + 1);
    }
}

#[test]
fn test_blob_padding_lengths() {
    // a blob's wire form is a 4-byte length prefix plus content padded to
    // a multiple of four; the prefix carries the unpadded length
    for n in 0..10usize {
        let mut buf: Vec<u8> = Vec::new();
        write_arg(&mut buf, OscBlob(vec![7u8; n]));
        assert!((buf.len() - 4) % 4 == 0);
        assert_eq!(&buf[0..4], &(n as i32).to_be_bytes());
    }
}
