use protocore::codec::{decode_msg, encode_error, encode_ticket, Decoded, Msg};
use protocore::speed::Ticket;

#[test]
fn codec_decode_plate() {
    let buf: Vec<u8> = vec![0x20, 4, b'U', b'N', b'1', b'X', 0, 0, 0, 40];
    match decode_msg(&buf) {
        Decoded::Complete { msg: Msg::Plate { plate, timestamp }, used } => {
            assert_eq!(plate, b"UN1X".to_vec());
            assert_eq!(timestamp, 40);
            assert_eq!(used, 10);
        }
        _ => panic!("expected a complete plate message"),
    }
}

#[test]
fn codec_decode_want_heartbeat() {
    let buf: Vec<u8> = vec![0x40, 0, 0, 0x04, 0xdb];
    match decode_msg(&buf) {
        Decoded::Complete { msg: Msg::WantHeartbeat { interval }, used } => {
            assert_eq!(interval, 1243);
            assert_eq!(used, 5);
        }
        _ => panic!("expected a complete heartbeat request"),
    }
}

#[test]
fn codec_decode_camera() {
    let buf: Vec<u8> = vec![0x80, 0x00, 0x42, 0x00, 0x64, 0x00, 0x3c];
    match decode_msg(&buf) {
        Decoded::Complete { msg: Msg::IAmCamera { road, mile, limit }, used } => {
            assert_eq!(road, 66);
            assert_eq!(mile, 100);
            assert_eq!(limit, 60);
            assert_eq!(used, 7);
        }
        _ => panic!("expected a complete camera declaration"),
    }
}

#[test]
fn codec_decode_dispatcher() {
    let buf: Vec<u8> = vec![0x81, 3, 0x00, 0x42, 0x01, 0x70, 0x13, 0x88];
    match decode_msg(&buf) {
        Decoded::Complete { msg: Msg::IAmDispatcher { roads }, used } => {
            assert_eq!(roads, vec![66, 368, 5000]);
            assert_eq!(used, 8);
        }
        _ => panic!("expected a complete dispatcher declaration"),
    }
}

#[test]
fn codec_decode_incomplete() {
    assert!(matches!(decode_msg(&[]), Decoded::Incomplete));
    assert!(matches!(decode_msg(&[0x20]), Decoded::Incomplete));
    assert!(matches!(decode_msg(&[0x20, 4, b'U', b'N']), Decoded::Incomplete));
    assert!(matches!(decode_msg(&[0x40, 0, 0]), Decoded::Incomplete));
    assert!(matches!(decode_msg(&[0x80, 0, 1, 0, 2, 0]), Decoded::Incomplete));
    assert!(matches!(decode_msg(&[0x81, 2, 0, 1]), Decoded::Incomplete));
}

#[test]
fn codec_decode_bad_tag() {
    match decode_msg(&[0x99, 1, 2, 3]) {
        Decoded::BadTag { tag } => assert_eq!(tag, 0x99),
        _ => panic!("expected a protocol violation"),
    }
    // server-to-client tags are not valid client messages
    assert!(matches!(decode_msg(&[0x10, 0]), Decoded::BadTag { tag: 0x10 }));
    assert!(matches!(decode_msg(&[0x41]), Decoded::BadTag { tag: 0x41 }));
}

#[test]
fn codec_decode_consumes_exactly_one_frame() {
    // a plate frame followed by the start of another message
    let buf: Vec<u8> = vec![0x20, 1, b'A', 0, 0, 0, 7, 0x40, 0, 0];
    match decode_msg(&buf) {
        Decoded::Complete { msg: Msg::Plate { plate, timestamp }, used } => {
            assert_eq!(plate, b"A".to_vec());
            assert_eq!(timestamp, 7);
            assert_eq!(used, 7);
        }
        _ => panic!("expected a complete plate message"),
    }
}

#[test]
fn codec_encode_ticket() {
    let t = Ticket {
        plate: b"UN1X".to_vec(),
        road: 1,
        mile1: 0,
        timestamp1: 0,
        mile2: 1,
        timestamp2: 40,
        speed: 9000,
    };
    let bytes = encode_ticket(&t);
    assert_eq!(
        bytes,
        vec![
            4, b'U', b'N', b'1', b'X', // plate, length-prefixed
            0x00, 0x01, // road
            0x00, 0x00, // mile1
            0x00, 0x00, 0x00, 0x00, // timestamp1
            0x00, 0x01, // mile2
            0x00, 0x00, 0x00, 0x28, // timestamp2
            0x23, 0x28, // speed, 90.00 mph
        ]
    );
}

#[test]
fn codec_encode_error() {
    assert_eq!(encode_error(&[]), vec![0x10, 0]);
    assert_eq!(encode_error(b"bad"), vec![0x10, 3, b'b', b'a', b'd']);
}

#[test]
fn codec_decode_dispatcher_with_no_roads() {
    match decode_msg(&[0x81, 0]) {
        Decoded::Complete { msg: Msg::IAmDispatcher { roads }, used } => {
            assert!(roads.is_empty());
            assert_eq!(used, 2);
        }
        _ => panic!("expected a complete dispatcher declaration"),
    }
}

#[test]
fn codec_decode_empty_plate() {
    match decode_msg(&[0x20, 0, 0, 0, 0, 5]) {
        Decoded::Complete { msg: Msg::Plate { plate, timestamp }, used } => {
            assert!(plate.is_empty());
            assert_eq!(timestamp, 5);
            assert_eq!(used, 6);
        }
        _ => panic!("expected a complete plate message"),
    }
}
