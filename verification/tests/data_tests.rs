use osc::data::OscArg::{OscBlob, OscFloat, OscInt, OscStr};
use osc::data::OscPacket::{OscBundle, OscMessage};
use osc::data::{get_args_with_addr, packet_has_addr};

#[test]
fn test_packet_has_addr() {
    let p1 = OscMessage { addr: b"hello/test/address".to_vec(), args: vec![OscInt(0)] };
    let p2 = OscBundle {
        time_tag: (0, 1),
        conts: vec![
            OscMessage { addr: b"hello/another/test".to_vec(), args: vec![OscFloat(1.0f32.to_bits())] },
            OscMessage { addr: b"whatwhat/test/again".to_vec(), args: vec![OscStr(b"payload".to_vec())] },
        ],
    };

    assert!(packet_has_addr(&p1, b"hello/test/address"));
    assert!(packet_has_addr(&p2, b"hello/another/test"));
    assert!(packet_has_addr(&p2, b"whatwhat/test/again"));

    assert!(!packet_has_addr(&p1, b"ouch"));
    assert!(!packet_has_addr(&p2, b"wooooo"));
    assert!(!packet_has_addr(&p2, b""));
}

#[test]
fn test_get_args_with_addr() {
    let p1 = OscMessage {
        addr: b"hello/test/address".to_vec(),
        args: vec![
            OscInt(123),
            OscFloat(1.0f32.to_bits()),
            OscStr(b"I am a test string".to_vec()),
        ],
    };
    let p2 = OscBundle {
        time_tag: (0, 1),
        conts: vec![
            OscMessage {
                addr: b"hello/another/test".to_vec(),
                args: vec![OscFloat(3.0f32.to_bits()), OscFloat(1.5f32.to_bits())],
            },
            OscMessage {
                addr: b"whatwhat/test/again".to_vec(),
                args: vec![OscStr(b"payload".to_vec())],
            },
        ],
    };

    let p3 = OscBundle {
        time_tag: (0, 1),
        conts: vec![
            OscMessage {
                addr: b"double/addr/test".to_vec(),
                args: vec![OscFloat(3.0f32.to_bits()), OscFloat(1.5f32.to_bits())],
            },
            OscMessage {
                addr: b"double/addr/test".to_vec(),
                args: vec![OscStr(b"payload".to_vec())],
            },
        ],
    };

    assert_eq!(
        get_args_with_addr(p1.clone(), b"hello/test/address"),
        Some(vec![
            OscInt(123),
            OscFloat(1.0f32.to_bits()),
            OscStr(b"I am a test string".to_vec()),
        ])
    );
    assert_eq!(get_args_with_addr(p1, b"hello"), None);

    assert_eq!(
        get_args_with_addr(p2.clone(), b"hello/another/test"),
        Some(vec![OscFloat(3.0f32.to_bits()), OscFloat(1.5f32.to_bits())])
    );
    assert_eq!(
        get_args_with_addr(p2.clone(), b"whatwhat/test/again"),
        Some(vec![OscStr(b"payload".to_vec())])
    );
    assert_eq!(get_args_with_addr(p2.clone(), b"whatwhat"), None);

    assert_eq!(
        get_args_with_addr(p3, b"double/addr/test"),
        Some(vec![
            OscFloat(3.0f32.to_bits()),
            OscFloat(1.5f32.to_bits()),
            OscStr(b"payload".to_vec()),
        ])
    );
}

#[test]
fn test_empty_match_is_some_empty() {
    // A matching message with zero args yields Some(empty), which must be
    // kept distinct from the no-match None.
    let p = OscBundle {
        time_tag: (0, 0),
        conts: vec![OscMessage { addr: b"/silent".to_vec(), args: vec![] }],
    };
    assert_eq!(get_args_with_addr(p.clone(), b"/silent"), Some(vec![]));
    assert_eq!(get_args_with_addr(p, b"/loud"), None);
}

#[test]
fn test_clone_preserves_structure() {
    let p = OscBundle {
        time_tag: (7, 9),
        conts: vec![
            OscMessage {
                addr: b"/x".to_vec(),
                args: vec![OscBlob(vec![1, 2]), OscStr(b"s".to_vec())],
            },
            OscBundle { time_tag: (1, 2), conts: vec![] },
        ],
    };
    assert_eq!(p.clone(), p);
}
