use lan_mouse::clipboard_sync::{
    frame_len, frame_prefix, transfer_chunks, is_allowed, parse_public_key, peers, private_key_from_bytes, to_hex,
    wants_push, ConfigClient, FrameError, PeerAddr, MAX_HANDSHAKE_MSG,
};

const KEY_HEX: &str = "000102030405060708090a0b0c0d0e0f101112131415161718191a1b1c1d1e1f";

fn key_bytes() -> [u8; 32] {
    let mut k = [0u8; 32];
    for (i, b) in k.iter_mut().enumerate() {
        *b = i as u8;
    }
    k
}

#[test]
fn parse_valid_key() {
    assert_eq!(parse_public_key(KEY_HEX), Some(key_bytes()));
    let upper = KEY_HEX.to_uppercase();
    assert_eq!(parse_public_key(&upper), Some(key_bytes()));
}

#[test]
fn parse_key_wrong_length() {
    assert_eq!(parse_public_key(""), None);
    assert_eq!(parse_public_key(&KEY_HEX[..62]), None);
    assert_eq!(parse_public_key(&format!("{KEY_HEX}00")), None);
}

#[test]
fn parse_key_bad_digit() {
    let mut bad = KEY_HEX.to_string();
    bad.replace_range(10..11, "g");
    assert_eq!(parse_public_key(&bad), None);
}

#[test]
fn parse_key_only_hex_digits() {
    // a key is 64 hex digits: no sign, no spaces
    assert_eq!(parse_public_key(&"+f".repeat(32)), None);
    let plus = format!("+f{}", &KEY_HEX[2..]);
    assert_eq!(parse_public_key(&plus), None);
    let minus = format!("-f{}", &KEY_HEX[2..]);
    assert_eq!(parse_public_key(&minus), None);
    let space = format!(" f{}", &KEY_HEX[2..]);
    assert_eq!(parse_public_key(&space), None);
}

#[test]
fn parse_key_multibyte_characters() {
    // a three-byte character straddling a pair boundary gives None
    let s = format!("a€{}", &KEY_HEX[4..]);
    assert_eq!(s.len(), 64);
    assert_eq!(parse_public_key(&s), None);
}

#[test]
fn parse_key_two_byte_chars_fail_cleanly() {
    // 32 two-byte characters: 64 bytes, each pair a whole character
    let s = "é".repeat(32);
    assert_eq!(s.len(), 64);
    assert_eq!(parse_public_key(&s), None);
}

#[test]
fn hex_encoding() {
    assert_eq!(to_hex(&[]), "");
    assert_eq!(to_hex(&[0x00, 0x0f, 0xa0, 0xff]), "000fa0ff");
    assert_eq!(to_hex(&key_bytes()), KEY_HEX);
}

#[test]
fn hex_round_trip() {
    let k = [0xde, 0xad, 0xbe, 0xef].repeat(8);
    let hex = to_hex(&k);
    assert_eq!(parse_public_key(&hex).unwrap().to_vec(), k);
}

#[test]
fn allow_list() {
    let allow = vec!["ff".repeat(32), KEY_HEX.to_string()];
    assert!(is_allowed(&allow, &key_bytes()));
    assert!(!is_allowed(&allow, &[1u8; 32]));
    assert!(!is_allowed(&[], &key_bytes()));
    // the allow list is compared in lowercase hex
    assert!(!is_allowed(&[KEY_HEX.to_uppercase()], &key_bytes()));
}

#[test]
fn push_decision() {
    let text = vec!["UTF8_STRING".to_string(), "text/plain;charset=utf-8".to_string()];
    assert!(wants_push(&text, false));
    assert!(!wants_push(&text, true));
    assert!(!wants_push(&["image/png".to_string()], false));
    assert!(!wants_push(&[], false));
}

#[test]
fn peer_list() {
    let v4 = PeerAddr::V4([192, 168, 1, 2]);
    let v6 = PeerAddr::V6([0; 16]);
    let clients = vec![
        ConfigClient { clipboard: true, clipboard_key: Some(KEY_HEX.to_string()), ips: vec![v4, v6] },
        // clipboard off
        ConfigClient { clipboard: false, clipboard_key: Some(KEY_HEX.to_string()), ips: vec![v4] },
        // no key
        ConfigClient { clipboard: true, clipboard_key: None, ips: vec![v4] },
        // invalid key
        ConfigClient { clipboard: true, clipboard_key: Some("zz".to_string()), ips: vec![v4] },
        ConfigClient {
            clipboard: true,
            clipboard_key: Some("ab".repeat(32)),
            ips: vec![PeerAddr::V4([10, 0, 0, 1])],
        },
    ];
    let ps = peers(&clients, 9022);
    assert_eq!(ps.len(), 3);
    assert_eq!(ps[0].ip, v4);
    assert_eq!(ps[1].ip, v6);
    assert_eq!(ps[0].public_key, key_bytes());
    assert_eq!(ps[2].ip, PeerAddr::V4([10, 0, 0, 1]));
    assert_eq!(ps[2].public_key, [0xab; 32]);
    assert!(ps.iter().all(|p| p.port == 9022));
}

#[test]
fn private_key_length() {
    assert_eq!(private_key_from_bytes(&[7u8; 32]), Some([7u8; 32]));
    assert_eq!(private_key_from_bytes(&[7u8; 31]), None);
    assert_eq!(private_key_from_bytes(&[7u8; 33]), None);
}

#[test]
fn frame_lengths() {
    assert_eq!(frame_len([0, 48]), Ok(48));
    assert_eq!(frame_len([4, 0]), Ok(1024));
    assert_eq!(frame_len([0, 0]), Err(FrameError::InvalidFrameLength(0)));
    assert_eq!(frame_len([4, 1]), Err(FrameError::InvalidFrameLength(1025)));
    assert_eq!(frame_prefix(48), Ok([0, 48]));
    assert_eq!(frame_prefix(MAX_HANDSHAKE_MSG), Ok([4, 0]));
    assert_eq!(frame_prefix(0), Err(FrameError::InvalidMessageLength));
    assert_eq!(frame_prefix(1025), Err(FrameError::InvalidMessageLength));
}

#[test]
fn transfer_chunk_ranges() {
    assert_eq!(transfer_chunks(0, 4), vec![]);
    assert_eq!(transfer_chunks(3, 4), vec![(0, 3)]);
    assert_eq!(transfer_chunks(8, 4), vec![(0, 4), (4, 8)]);
    assert_eq!(transfer_chunks(9, 4), vec![(0, 4), (4, 8), (8, 9)]);
    let payload: Vec<u8> = (0..=255u8).cycle().take(1000).collect();
    let rebuilt: Vec<u8> = transfer_chunks(payload.len(), 64)
        .into_iter()
        .flat_map(|(a, b)| payload[a..b].to_vec())
        .collect();
    assert_eq!(rebuilt, payload);
}
