use flash_messages::codec::{decode_messages, encode_messages};
use flash_messages::message::Message;

fn msg(level: &str, text: &str) -> Message {
    Message::new(String::from(level), String::from(text))
}

fn chars(s: &str) -> Vec<char> {
    s.chars().collect()
}

#[test]
fn encode_one_message() {
    let encoded = encode_messages(&vec![msg("info", "Saved")]);
    assert_eq!(encoded, chars("4:info5:Saved"));
}

#[test]
fn encode_empty_queue_is_empty() {
    let encoded = encode_messages(&Vec::new());
    assert!(encoded.is_empty());
}

#[test]
fn encode_empty_fields() {
    let encoded = encode_messages(&vec![msg("", "")]);
    assert_eq!(encoded, chars("0:0:"));
}

#[test]
fn encode_several_messages() {
    let encoded = encode_messages(&vec![msg("info", "Saved"), msg("error", "Nope")]);
    assert_eq!(encoded, chars("4:info5:Saved5:error4:Nope"));
}

#[test]
fn decode_inverts_encode() {
    let queued = vec![
        msg("info", "Saved"),
        msg("", ""),
        msg("warning", "digits 10:17 and : survive"),
        msg("süß", "héllo ✓"),
    ];
    let decoded = decode_messages(&encode_messages(&queued)).unwrap();
    assert_eq!(decoded.len(), queued.len());
    for (original, recovered) in queued.iter().zip(decoded.iter()) {
        assert_eq!(original.level, recovered.level);
        assert_eq!(original.text, recovered.text);
    }
}

#[test]
fn decode_rejects_garbage() {
    assert!(decode_messages(&chars("hello")).is_none());
    assert!(decode_messages(&chars(":")).is_none());
    assert!(decode_messages(&chars("4:info")).is_none());
    assert!(decode_messages(&chars("4:info5:Sav")).is_none());
    assert!(decode_messages(&chars("4:info5:Savedx")).is_none());
    assert!(decode_messages(&chars("04:info5:Saved")).is_none());
    assert!(decode_messages(&chars("9999999999999999999999:a")).is_none());
}

#[test]
fn decode_empty_is_empty_queue() {
    let decoded = decode_messages(&Vec::new()).unwrap();
    assert!(decoded.is_empty());
}
