use mini_irc::frame::{decode_frame, encode_frame, frame_length, Codec};
use mini_irc::protocol::{ChanOp, MessageReceiver, Response};

#[test]
fn receiver_channel_and_user() {
    assert_eq!(MessageReceiver::from_str("#general"), Ok(MessageReceiver::Channel("general".to_string())));
    assert_eq!(MessageReceiver::from_str("@bob"), Ok(MessageReceiver::User("bob".to_string())));
}

#[test]
fn receiver_errors_name_the_address() {
    assert_eq!(MessageReceiver::from_str("general"), Err("Unrecognized receiver: general".to_string()));
    assert_eq!(
        MessageReceiver::from_str("#"),
        Err("Channel or username must be at least one character long: #".to_string())
    );
}

#[test]
fn receiver_too_short_or_unknown() {
    assert!(MessageReceiver::from_str("").is_err());
    assert!(MessageReceiver::from_str("#").is_err());
    assert!(MessageReceiver::from_str("general").is_err());
    // one character of two bytes is long enough, but names nothing
    assert!(MessageReceiver::from_str("é").is_err());
    assert_eq!(MessageReceiver::from_str("#é"), Ok(MessageReceiver::Channel("é".to_string())));
}

#[test]
fn response_clone_is_equal() {
    let r = Response::AckJoin { chan: "general".to_string(), users: vec!["alice".to_string(), "bob".to_string()] };
    assert_eq!(r.clone(), r);
    let e = Response::Channel {
        op: ChanOp::Message { from: "alice".to_string(), content: "hi".to_string() },
        chan: "general".to_string(),
    };
    assert_eq!(e.clone(), e);
}

#[test]
fn frame_has_big_endian_length_prefix() {
    let f = encode_frame(&vec![7u8, 8, 9]);
    assert_eq!(f, vec![0, 0, 0, 3, 7, 8, 9]);
    let big = vec![1u8; 258];
    let f = encode_frame(&big);
    assert_eq!(&f[0..4], &[0, 0, 1, 2]);
    assert_eq!(frame_length(&f), 258);
}

#[test]
fn frame_round_trip_with_trailing_bytes() {
    let payload = b"hello".to_vec();
    let mut stream = encode_frame(&payload);
    stream.extend_from_slice(&[1, 2, 3]);
    assert_eq!(decode_frame(&stream), Some((payload, 9)));
}

#[test]
fn frame_incomplete_gives_nothing() {
    assert_eq!(decode_frame(&vec![0, 0, 0]), None);
    assert_eq!(decode_frame(&vec![0, 0, 0, 5, 1, 2]), None);
    assert_eq!(decode_frame(&vec![0, 0, 0, 0]), Some((vec![], 4)));
}

#[test]
fn plain_codec_round_trip() {
    let c = Codec::new();
    let payload = vec![1u8, 2, 3, 4];
    let f = c.encode(&payload).unwrap();
    assert_eq!(f, encode_frame(&payload));
    let (p, n) = decode_frame(&f).unwrap();
    assert_eq!(n, f.len());
    assert_eq!(c.decode(&p), Some(payload));
}

#[test]
fn sealed_codec_round_trip() {
    let mut c = Codec::new();
    c.set_shared_key(vec![42u8; 32]);
    for payload in [vec![], vec![0u8], b"some request bytes".to_vec(), vec![255u8; 1000]] {
        let f = c.encode(&payload).unwrap();
        let (p, _) = decode_frame(&f).unwrap();
        assert_eq!(p.len(), payload.len() + 40);
        if payload.len() > 8 {
            assert_ne!(p[24..24 + payload.len()].to_vec(), payload);
        }
        assert_eq!(c.decode(&p), Some(payload));
    }
}

#[test]
fn sealed_codec_rejects_tampering() {
    let mut c = Codec::new();
    c.set_shared_key(vec![7u8; 32]);
    let payload = b"join general".to_vec();
    let f = c.encode(&payload).unwrap();
    let (p, _) = decode_frame(&f).unwrap();
    for i in 0..p.len() {
        let mut t = p.clone();
        t[i] ^= 0x01;
        assert_eq!(c.decode(&t), None, "tampered byte {i} was accepted");
    }
}

#[test]
fn sealed_codec_rejects_other_key_and_short_input() {
    let mut a = Codec::new();
    a.set_shared_key(vec![1u8; 32]);
    let mut b = Codec::new();
    b.set_shared_key(vec![2u8; 32]);
    let f = a.encode(&b"hi".to_vec()).unwrap();
    let (p, _) = decode_frame(&f).unwrap();
    assert_eq!(b.decode(&p), None);
    assert_eq!(a.decode(&vec![0u8; 10]), None);
}
