use kimchi::message::KimchiMessage;

#[test]
fn round_trip_joined() {
    let m = KimchiMessage::Joined { user: String::from("alice") };
    let frame = KimchiMessage::to_str(&m).unwrap();
    let back = KimchiMessage::from_str(&frame).unwrap();
    assert_eq!(back, m);
}

#[test]
fn round_trip_public() {
    let m = KimchiMessage::Public {
        user: String::from("alice"),
        message: String::from("hello everyone"),
    };
    let frame = KimchiMessage::to_str(&m).unwrap();
    let back = KimchiMessage::from_str(&frame).unwrap();
    assert_eq!(back, m);
}

#[test]
fn round_trip_private() {
    let m = KimchiMessage::Private {
        user: String::from("alice"),
        to_user: String::from("bob"),
        message: String::from("psst"),
    };
    let frame = KimchiMessage::to_str(&m).unwrap();
    let back = KimchiMessage::from_str(&frame).unwrap();
    assert_eq!(back, m);
}

#[test]
fn round_trip_video() {
    let m = KimchiMessage::Video { user: String::from("cam"), data: vec![0, 1, 9, 10, 99, 100, 255] };
    let frame = KimchiMessage::to_str(&m).unwrap();
    let back = KimchiMessage::from_str(&frame).unwrap();
    assert_eq!(back, m);
}

#[test]
fn round_trip_escaped_characters() {
    let m = KimchiMessage::Public {
        user: String::from("a\"b\\c"),
        message: String::from("say \"hi\" \\ done\nnew line \u{00e9}\u{4e16}"),
    };
    let frame = KimchiMessage::to_str(&m).unwrap();
    let back = KimchiMessage::from_str(&frame).unwrap();
    assert_eq!(back, m);
}

#[test]
fn round_trip_empty_fields() {
    let m = KimchiMessage::Public { user: String::new(), message: String::new() };
    let frame = KimchiMessage::to_str(&m).unwrap();
    let back = KimchiMessage::from_str(&frame).unwrap();
    assert_eq!(back, m);

    let v = KimchiMessage::Video { user: String::new(), data: Vec::new() };
    let vframe = KimchiMessage::to_str(&v).unwrap();
    let vback = KimchiMessage::from_str(&vframe).unwrap();
    assert_eq!(vback, v);
}

#[test]
fn exact_frame_joined() {
    let m = KimchiMessage::Joined { user: String::from("A") };
    let frame = KimchiMessage::to_str(&m).unwrap();
    assert_eq!(frame, "{\"type\":\"Joined\",\"user\":\"A\"}");
}

#[test]
fn exact_frame_public() {
    let m = KimchiMessage::Public { user: String::from("A"), message: String::from("hi") };
    let frame = KimchiMessage::to_str(&m).unwrap();
    assert_eq!(frame, "{\"type\":\"Public\",\"user\":\"A\",\"message\":\"hi\"}");
}

#[test]
fn exact_frame_private() {
    let m = KimchiMessage::Private {
        user: String::from("A"),
        to_user: String::from("B"),
        message: String::from("x"),
    };
    let frame = KimchiMessage::to_str(&m).unwrap();
    assert_eq!(
        frame,
        "{\"type\":\"Private\",\"user\":\"A\",\"to_user\":\"B\",\"message\":\"x\"}"
    );
}

#[test]
fn exact_frame_video() {
    let m = KimchiMessage::Video { user: String::from("v"), data: vec![0, 7, 42, 255] };
    let frame = KimchiMessage::to_str(&m).unwrap();
    assert_eq!(frame, "{\"type\":\"Video\",\"user\":\"v\",\"data\":[0,7,42,255]}");
}

#[test]
fn exact_frame_escapes() {
    let m = KimchiMessage::Joined { user: String::from("a\"b\\c") };
    let frame = KimchiMessage::to_str(&m).unwrap();
    assert_eq!(frame, "{\"type\":\"Joined\",\"user\":\"a\\\"b\\\\c\"}");
}

#[test]
fn decode_rejects_missing_type() {
    assert!(KimchiMessage::from_str("{\"user\":\"A\"}").is_none());
}

#[test]
fn decode_rejects_truncated_frame() {
    assert!(KimchiMessage::from_str("{\"type\":\"Joi").is_none());
    assert!(KimchiMessage::from_str("{\"type\":\"Joined\",\"user\":\"A\"").is_none());
    assert!(KimchiMessage::from_str("").is_none());
    assert!(KimchiMessage::from_str("{").is_none());
}

#[test]
fn decode_rejects_unknown_variant() {
    assert!(KimchiMessage::from_str("{\"type\":\"Whisper\",\"user\":\"A\"}").is_none());
}

#[test]
fn decode_rejects_byte_out_of_range() {
    assert!(
        KimchiMessage::from_str("{\"type\":\"Video\",\"user\":\"v\",\"data\":[256]}").is_none()
    );
    assert!(
        KimchiMessage::from_str("{\"type\":\"Video\",\"user\":\"v\",\"data\":[1234]}").is_none()
    );
}

#[test]
fn decode_rejects_plain_garbage() {
    assert!(KimchiMessage::from_str("not json at all").is_none());
    assert!(KimchiMessage::from_str("{\"type\":42}").is_none());
}

#[test]
fn decode_ignores_trailing_members() {
    let got = KimchiMessage::from_str("{\"type\":\"Joined\",\"user\":\"A\",\"extra\":\"x\"}");
    assert_eq!(got, Some(KimchiMessage::Joined { user: String::from("A") }));
}

#[test]
fn video_frame_round_trips_byte_exact() {
    // one 320x240 RGB frame: 230,400 bytes
    let mut data = Vec::with_capacity(320 * 240 * 3);
    for i in 0..320 * 240 * 3 {
        data.push((i % 251) as u8);
    }
    assert_eq!(data.len(), 230_400);
    let m = KimchiMessage::Video { user: String::from("cam"), data: data.clone() };
    let frame = KimchiMessage::to_str(&m).unwrap();
    let back = KimchiMessage::from_str(&frame).unwrap();
    match back {
        KimchiMessage::Video { user, data: d } => {
            assert_eq!(user, "cam");
            assert_eq!(d, data);
        }
        _ => panic!("wrong variant"),
    }
}
