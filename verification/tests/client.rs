use kimchi::client::Chat;
use kimchi::message::KimchiMessage;

#[test]
fn chat_appends_decoded_messages() {
    let mut chat = Chat::new();
    let m = KimchiMessage::Public { user: String::from("A"), message: String::from("hi") };
    let frame = KimchiMessage::to_str(&m).unwrap();
    chat.apply_frame(&frame);
    assert_eq!(chat.messages, vec![m]);
    assert!(chat.video.is_none());
}

#[test]
fn chat_keeps_latest_video_frame() {
    let mut chat = Chat::new();
    let v1 = KimchiMessage::Video { user: String::from("cam"), data: vec![1, 2, 3] };
    let v2 = KimchiMessage::Video { user: String::from("cam"), data: vec![4, 5] };
    chat.apply_frame(&KimchiMessage::to_str(&v1).unwrap());
    chat.apply_frame(&KimchiMessage::to_str(&v2).unwrap());
    assert_eq!(chat.video, Some(vec![4, 5]));
    // video frames do not enter the message log
    assert!(chat.messages.is_empty());
}

#[test]
fn chat_ignores_undecodable_frames() {
    let mut chat = Chat::new();
    chat.apply_frame("garbage");
    chat.apply_frame("{\"type\":\"Nope\",\"user\":\"A\"}");
    assert!(chat.messages.is_empty());
    assert!(chat.video.is_none());
}

#[test]
fn send_public_joins_own_log_and_encodes() {
    let mut chat = Chat::new();
    let frame = chat.send_public(&String::from("A"), &String::from("hi"));
    let expected = KimchiMessage::Public { user: String::from("A"), message: String::from("hi") };
    assert_eq!(chat.messages, vec![expected.clone()]);
    assert_eq!(KimchiMessage::from_str(&frame), Some(expected));
}
