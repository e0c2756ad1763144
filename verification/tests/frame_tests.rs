use bytes::BytesMut;
use moba_proto::frame::{decode_frame, encodable_message, frame_bytes, FrameDecode, MessageFramer};
use moba_proto::model::{CodecError, Message, Status};

fn buf(bytes: &[u8]) -> BytesMut {
    let mut b = BytesMut::new();
    b.extend_from_slice(bytes);
    b
}

#[test]
fn decode_battle_init() {
    let mut framer = MessageFramer::new();
    let mut b = buf(&[1, 2, 0, 0, 7, 9, 42]);
    let r = framer.decode(&mut b).unwrap();
    match r {
        Some(Message::BattleInit { battle, player }) => {
            assert_eq!(battle, 7);
            assert_eq!(player, 9);
        }
        other => panic!("unexpected {:?}", other),
    }
    assert_eq!(&b[..], &[42]);
}

#[test]
fn decode_incomplete_header_consumes_nothing() {
    let mut framer = MessageFramer::new();
    let mut b = buf(&[1, 2, 0]);
    assert!(framer.decode(&mut b).unwrap().is_none());
    assert_eq!(&b[..], &[1, 2, 0]);
}

#[test]
fn decode_incomplete_payload_consumes_nothing() {
    let mut framer = MessageFramer::new();
    let mut b = buf(&[1, 2, 0, 0, 7]);
    assert!(framer.decode(&mut b).unwrap().is_none());
    assert_eq!(&b[..], &[1, 2, 0, 0, 7]);
}

#[test]
fn decode_unknown_flag_is_error() {
    let mut framer = MessageFramer::new();
    let mut b = buf(&[9, 1, 0, 0, 7]);
    let r = framer.decode(&mut b);
    assert!(r.is_err());
    assert_eq!(&b[..], &[9, 1, 0, 0, 7]);
}

#[test]
fn decode_wrong_length_is_error() {
    let mut framer = MessageFramer::new();
    // BattleStart takes exactly one byte
    let mut b = buf(&[3, 2, 0, 0, 7, 8]);
    assert!(framer.decode(&mut b).is_err());
}

#[test]
fn decode_battle_test_and_meta() {
    let mut framer = MessageFramer::new();
    let mut b = buf(&[0, 3, 0, 0, 2, 10, 11, 2, 5, 0, 0, 1, 4, 2, 1, 3, 6]);
    match framer.decode(&mut b).unwrap() {
        Some(Message::BattleTest { raw }) => assert_eq!(raw, vec![10, 11]),
        other => panic!("unexpected {:?}", other),
    }
    match framer.decode(&mut b).unwrap() {
        Some(Message::BattleMeta { battle, player, raw }) => {
            assert_eq!(battle, 1);
            assert_eq!(player, 4);
            assert_eq!(raw, vec![1, 3]);
        }
        other => panic!("unexpected {:?}", other),
    }
    assert_eq!(&b[..], &[6]);
}

#[test]
fn decode_data_input_and_frame() {
    let mut framer = MessageFramer::new();
    let mut b = buf(&[5, 4, 0, 0, 1, 2, 30, 31, 6, 6, 0, 0, 1, 4, 3, 2, 1, 9]);
    match framer.decode(&mut b).unwrap() {
        Some(Message::DataInput { battle, player, actions }) => {
            assert_eq!((battle, player), (1, 2));
            assert_eq!(actions, vec![30, 31]);
        }
        other => panic!("unexpected {:?}", other),
    }
    match framer.decode(&mut b).unwrap() {
        Some(Message::DataFrame { battle, frame, actions }) => {
            assert_eq!(battle, 1);
            assert_eq!(frame, 0x01020304);
            assert_eq!(actions, vec![9]);
        }
        other => panic!("unexpected {:?}", other),
    }
    assert!(b.is_empty());
}

#[test]
fn decode_short_data_frame_is_error() {
    let mut framer = MessageFramer::new();
    let mut b = buf(&[6, 1, 0, 0, 1]);
    assert!(framer.decode(&mut b).is_err());
}

#[test]
fn decode_frame_on_slice() {
    match decode_frame(&[4, 1, 0, 0, 3]) {
        FrameDecode::Complete(Message::BattleStop { battle }, used) => {
            assert_eq!(battle, 3);
            assert_eq!(used, 5);
        }
        _ => panic!("expected BattleStop"),
    }
    assert!(matches!(decode_frame(&[5, 1, 0, 0, 3]), FrameDecode::Invalid));
    assert!(matches!(decode_frame(&[6, 4, 0, 0, 3, 0, 0, 0]), FrameDecode::Invalid));
    assert!(matches!(decode_frame(&[5, 9, 0, 0, 3]), FrameDecode::Incomplete));
}

#[test]
fn encode_layouts() {
    let mut framer = MessageFramer::new();
    let mut b = BytesMut::new();
    framer.encode(Message::BattleInit { battle: 7, player: 9 }, &mut b).unwrap();
    assert_eq!(&b[..], &[1, 2, 0, 0, 7, 9]);
    let mut b = BytesMut::new();
    framer.encode(Message::BattleMeta { battle: 1, player: 2, raw: vec![5, 6] }, &mut b).unwrap();
    assert_eq!(&b[..], &[2, 5, 0, 0, 1, 2, 2, 5, 6]);
    let mut b = BytesMut::new();
    framer.encode(Message::DataInput { battle: 3, player: 4, actions: vec![1, 2] }, &mut b).unwrap();
    assert_eq!(&b[..], &[5, 4, 0, 0, 3, 4, 1, 2]);
    let mut b = BytesMut::new();
    framer.encode(Message::DataInput { battle: 1, player: 2, actions: vec![7, 8] }, &mut b).unwrap();
    assert_eq!(&b[..], &[5u8, 4, 0, 0, 1, 2, 7, 8]);
    let mut b = BytesMut::new();
    framer
        .encode(Message::DataFrame { battle: 3, frame: 0x01020304, actions: vec![8] }, &mut b)
        .unwrap();
    assert_eq!(&b[..], &[6, 6, 0, 0, 3, 4, 3, 2, 1, 8]);
}

#[test]
fn encode_appends_to_existing_bytes() {
    let mut framer = MessageFramer::new();
    let mut b = buf(&[99]);
    framer.encode(Message::BattleStart { battle: 4 }, &mut b).unwrap();
    assert_eq!(&b[..], &[99, 3, 1, 0, 0, 4]);
}

#[test]
fn encode_refuses_what_no_frame_carries() {
    let mut framer = MessageFramer::new();
    let mut b = buf(&[42]);
    // a raw byte count above 255 does not fit its one byte
    assert!(framer.encode(Message::BattleTest { raw: vec![0u8; 300] }, &mut b).is_err());
    assert!(framer
        .encode(Message::BattleMeta { battle: 1, player: 2, raw: vec![0u8; 256] }, &mut b)
        .is_err());
    // a frame number above 2^32 - 1 does not fit its four bytes
    if usize::max_value() as u64 > u32::max_value() as u64 {
        let frame = (u32::max_value() as usize).wrapping_add(1);
        assert!(framer.encode(Message::DataFrame { battle: 1, frame, actions: vec![] }, &mut b).is_err());
    }
    assert_eq!(&b[..], &[42]);
}

#[test]
fn encode_header_gives_payload_length() {
    let out = frame_bytes(&Message::DataInput { battle: 1, player: 2, actions: vec![7u8; 65536] });
    assert_eq!(&out[..4], &[5, 2, 0, 1]);
    assert_eq!(out.len() - 4, 65538);
}

#[test]
fn large_data_input_roundtrip() {
    let actions: Vec<u8> = (0..70000u32).map(|i| (i % 253) as u8).collect();
    let mut framer = MessageFramer::new();
    let mut b = BytesMut::new();
    framer.encode(Message::DataInput { battle: 4, player: 5, actions: actions.clone() }, &mut b).unwrap();
    match framer.decode(&mut b).unwrap() {
        Some(Message::DataInput { battle, player, actions: got }) => {
            assert_eq!((battle, player), (4, 5));
            assert_eq!(got, actions);
        }
        other => panic!("unexpected {:?}", other),
    }
    assert!(b.is_empty());
}

#[test]
fn roundtrip_law_on_values() {
    let msgs = vec![
        Message::BattleTest { raw: vec![1, 2, 3] },
        Message::BattleInit { battle: 1, player: 200 },
        Message::BattleMeta { battle: 2, player: 3, raw: vec![4; 255] },
        Message::BattleStart { battle: 9 },
        Message::BattleStop { battle: 10 },
        Message::DataInput { battle: 3, player: 4, actions: vec![5, 6, 7] },
        Message::DataInput { battle: 3, player: 4, actions: vec![] },
        Message::DataFrame { battle: 3, frame: 77, actions: vec![8, 9] },
        Message::DataFrame { battle: 3, frame: 0xffff_ffff, actions: vec![] },
    ];
    let mut framer = MessageFramer::new();
    let mut b = BytesMut::new();
    for m in msgs.iter() {
        framer.encode(m.clone(), &mut b).unwrap();
    }
    b.extend_from_slice(&[1, 2]);
    for m in msgs.iter() {
        let d = framer.decode(&mut b).unwrap().unwrap();
        assert_eq!(format!("{:?}", d), format!("{:?}", m));
    }
    assert_eq!(&b[..], &[1, 2]);
}

#[test]
fn long_data_input_roundtrip() {
    let actions: Vec<u8> = (0..65533u32).map(|i| (i % 251) as u8).collect();
    let mut framer = MessageFramer::new();
    let mut b = BytesMut::new();
    framer.encode(Message::DataInput { battle: 1, player: 2, actions: actions.clone() }, &mut b).unwrap();
    match framer.decode(&mut b).unwrap() {
        Some(Message::DataInput { battle, player, actions: got }) => {
            assert_eq!((battle, player), (1, 2));
            assert_eq!(got, actions);
        }
        other => panic!("unexpected {:?}", other),
    }
    assert!(b.is_empty());
}

#[test]
fn encodable_limits() {
    assert!(encodable_message(&Message::BattleTest { raw: vec![0; 255] }));
    assert!(!encodable_message(&Message::BattleTest { raw: vec![0; 256] }));
    assert!(encodable_message(&Message::DataInput { battle: 0, player: 0, actions: vec![0; 65534] }));
    assert!(encodable_message(&Message::DataFrame { battle: 0, frame: 0, actions: vec![0; 65531] }));
    assert!(encodable_message(&Message::BattleStop { battle: 0 }));
}

#[test]
fn no_lookahead_on_values() {
    let a = decode_frame(&[3, 1, 0, 0, 4]);
    let b = decode_frame(&[3, 1, 0, 0, 4, 0xff, 0xff]);
    match (a, b) {
        (FrameDecode::Complete(Message::BattleStart { battle: x }, n), FrameDecode::Complete(Message::BattleStart { battle: y }, m)) => {
            assert_eq!((x, n), (y, m));
        }
        _ => panic!("expected two BattleStart frames"),
    }
}

#[test]
fn status_numbers_roundtrip() {
    for n in 0..6usize {
        assert_eq!(Status::from_usize(n).as_usize(), n);
    }
    assert_eq!(Status::from_usize(2), Status::Wait);
    assert_eq!(Status::Stop.as_usize(), 5);
}

#[test]
fn codec_error_text() {
    assert_eq!(CodecError.description(), "Bad data");
}
