use pocket_apps::crypto::double_sha256;
use pocket_apps::handshake::{
    create_getblocks_payload, create_version_payload, frame_message, handle_message,
    message_is_readable,
    parse_header, parse_message, parse_version_payload, BitcoinMessage, HeaderError,
    VersionPayloadError,
};

fn hex(s: &str) -> Vec<u8> {
    (0..s.len()).step_by(2).map(|i| u8::from_str_radix(&s[i..i + 2], 16).unwrap()).collect()
}

const VERSION_AT_1700000000: &str = "f9beb4d976657273696f6e00000000006100000053bf697f0001117f0000000000000001000000006553f100000000000000000100000000000000000000000000000000208d000000000000000100000000000000000000000000000000208d59ff4b26163ee4060b6d792d6170702d6e616d650000000001";

#[test]
fn double_sha256_of_hello() {
    assert_eq!(
        double_sha256(b"hello"),
        hex("9595c9df90075148eb06860365df33584b75bff782a510c6cd4883a419833d50")
    );
}

#[test]
fn version_message_bytes() {
    let message = create_version_payload(1700000000);
    assert_eq!(message, hex(VERSION_AT_1700000000));
    assert_eq!(message.len(), 24 + 97);
}

#[test]
fn getblocks_payload_bytes() {
    let payload = create_getblocks_payload();
    let mut expected = vec![0x7f, 0x11, 0x01, 0x00, 0x01];
    expected.extend([0u8; 64]);
    assert_eq!(payload, expected);
}

#[test]
fn framed_messages() {
    assert_eq!(
        frame_message("verack", &[]),
        vec![
            249, 190, 180, 217, 118, 101, 114, 97, 99, 107, 0, 0, 0, 0, 0, 0, 0, 0, 0, 0, 93,
            246, 224, 226
        ]
    );
    assert_eq!(
        frame_message("pong", &[8, 7, 6, 5, 4, 3, 2, 1]),
        vec![
            249, 190, 180, 217, 112, 111, 110, 103, 0, 0, 0, 0, 0, 0, 0, 0, 8, 0, 0, 0, 59, 90,
            117, 19, 8, 7, 6, 5, 4, 3, 2, 1
        ]
    );
    assert_eq!(frame_message("sendaddrv2xx", &[]).len(), 24);
}

#[test]
fn framed_header_reads_back() {
    for (command, payload) in [("verack", vec![]), ("pong", vec![1u8, 2, 3]), ("getblocks", vec![0u8; 300])] {
        let message = frame_message(command, &payload);
        let mut header = [0u8; 24];
        header.copy_from_slice(&message[..24]);
        assert_eq!(parse_header(&header), Ok((String::from(command), payload.len() as u32)));
        assert_eq!(&message[24..], &payload[..]);
    }
}

#[test]
fn readable_messages() {
    assert!(message_is_readable("verack", &[]));
    assert!(message_is_readable("ping", &[0u8; 8]));
    assert!(!message_is_readable("ping", &[0u8; 7]));
    assert!(!message_is_readable("pong", &[0u8; 3]));
    assert!(message_is_readable("version", &[0u8; 86]));
    assert!(!message_is_readable("version", &[0u8; 85]));
    assert!(message_is_readable("inv", &[1, 2, 3]));
}

#[test]
fn header_of_version_message() {
    let message = hex(VERSION_AT_1700000000);
    let mut header = [0u8; 24];
    header.copy_from_slice(&message[..24]);
    assert_eq!(parse_header(&header), Ok((String::from("version"), 97)));
    header[0] = 0;
    assert_eq!(parse_header(&header), Err(HeaderError::InvalidMagic));
}

#[test]
fn header_command_is_decoded_leniently() {
    let mut header = [0u8; 24];
    header[..4].copy_from_slice(&[0xf9, 0xbe, 0xb4, 0xd9]);
    header[4..8].copy_from_slice(b"ab\xffc");
    header[16] = 1;
    header[17] = 2;
    assert_eq!(parse_header(&header), Ok((String::from("ab\u{fffd}c"), 0x0201)));
}

#[test]
fn version_payload_fields_are_read_little_endian() {
    let message = hex(VERSION_AT_1700000000);
    let fields = parse_version_payload(&message[24..]).ok().unwrap();
    assert_eq!(fields.protocol_version, 2131820800);
    assert_eq!(fields.services, 72057594037927936);
    assert_eq!(fields.timestamp, 67927162644070400);
    assert_eq!(fields.addr_recv_services, 72057594037927936);
    assert_eq!(fields.addr_recv_ip, vec![0u8; 16]);
    assert_eq!(fields.addr_recv_port, 36128);
    assert_eq!(fields.nonce, 496590123770314585);
    assert_eq!(fields.user_agent, b"my-app-name".to_vec());
    assert_eq!(fields.start_height, 0);
    assert_eq!(fields.relay, 1);
}

#[test]
fn short_version_payload_is_refused() {
    assert!(matches!(parse_version_payload(&[0u8; 85]), Err(VersionPayloadError::InvalidLength)));
    assert!(parse_version_payload(&[0u8; 86]).is_ok());
}

#[test]
fn messages_by_command() {
    assert!(matches!(parse_message("verack", &[]), BitcoinMessage::VerAck));
    assert!(matches!(parse_message("ping", &[1, 0, 0, 0, 0, 0, 0, 0]), BitcoinMessage::Ping(1)));
    assert!(matches!(
        parse_message("pong", &[0, 0, 0, 0, 0, 0, 0, 0x80]),
        BitcoinMessage::Pong(0x8000000000000000)
    ));
    match parse_message("version", &[0u8; 86]) {
        BitcoinMessage::Version(p) => assert_eq!(p, vec![0u8; 86]),
        _ => panic!("expected a version message"),
    }
    match parse_message("sendaddrv2", &[1, 2]) {
        BitcoinMessage::Other(c, p) => {
            assert_eq!(c, "sendaddrv2");
            assert_eq!(p, vec![1, 2]);
        }
        _ => panic!("expected another message"),
    }
}

#[test]
fn answers_to_messages() {
    let o = handle_message(&BitcoinMessage::Version(vec![]));
    let r = o.reply.unwrap();
    assert_eq!(r.command, "verack");
    assert!(r.payload.is_empty());
    assert!(!o.handshake_complete);

    let o = handle_message(&BitcoinMessage::VerAck);
    assert!(o.reply.is_none());
    assert!(o.handshake_complete);

    let o = handle_message(&BitcoinMessage::Ping(0x0102030405060708));
    let r = o.reply.unwrap();
    assert_eq!(r.command, "pong");
    assert_eq!(r.payload, vec![8, 7, 6, 5, 4, 3, 2, 1]);
    assert!(!o.handshake_complete);

    for m in [BitcoinMessage::Pong(3), BitcoinMessage::Other(String::from("x"), vec![]), BitcoinMessage::Empty] {
        let o = handle_message(&m);
        assert!(o.reply.is_none());
        assert!(!o.handshake_complete);
    }
}

#[test]
fn pong_reply_reads_back_as_the_same_nonce() {
    let nonce = 0xdead_beef_0bad_f00d;
    let r = handle_message(&BitcoinMessage::Ping(nonce)).reply.unwrap();
    assert!(matches!(parse_message(&r.command, &r.payload), BitcoinMessage::Pong(n) if n == nonce));
}
