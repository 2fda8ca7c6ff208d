//! The wire codec: exact lines, round trips, and rejected input.

use unique_ids::codec::{decode, encode};
use unique_ids::msg::{Body, Message, Payload};

fn msg(src: &str, dest: &str, payload: Payload, msg_id: Option<usize>, irt: Option<usize>) -> Message {
    Message {
        src: src.to_string(),
        dest: dest.to_string(),
        body: Body { payload, msg_id, in_reply_to: irt },
    }
}

#[test]
fn encode_init_exact() {
    let m = msg(
        "c1",
        "n1",
        Payload::Init { node_id: "n1".to_string(), node_ids: vec!["n2".to_string(), "n1".to_string()] },
        Some(1),
        None,
    );
    assert_eq!(
        encode(&m),
        "{\"src\":\"c1\",\"dest\":\"n1\",\"body\":{\"type\":\"init\",\"msg_id\":1,\"node_id\":\"n1\",\"node_ids\":[\"n2\",\"n1\"]}}\n"
    );
}

#[test]
fn encode_generate_ok_exact() {
    let m = msg("n1", "c1", Payload::GenerateOk { id: 1234567 }, None, Some(42));
    assert_eq!(
        encode(&m),
        "{\"src\":\"n1\",\"dest\":\"c1\",\"body\":{\"type\":\"generate_ok\",\"in_reply_to\":42,\"id\":1234567}}\n"
    );
}

fn assert_round_trip(m: &Message) {
    let line = encode(m);
    let back = decode(&line).expect("an encoded line decodes");
    assert_eq!(back.src, m.src);
    assert_eq!(back.dest, m.dest);
    assert_eq!(back.body.msg_id, m.body.msg_id);
    assert_eq!(back.body.in_reply_to, m.body.in_reply_to);
    match (&back.body.payload, &m.body.payload) {
        (Payload::Generate, Payload::Generate) => {}
        (Payload::InitOk, Payload::InitOk) => {}
        (Payload::GenerateOk { id: a }, Payload::GenerateOk { id: b }) => assert_eq!(a, b),
        (
            Payload::Init { node_id: a, node_ids: av },
            Payload::Init { node_id: b, node_ids: bv },
        ) => {
            assert_eq!(a, b);
            assert_eq!(av, bv);
        }
        _ => panic!("the payload variant changed in the round trip"),
    }
}

#[test]
fn round_trip_every_variant() {
    assert_round_trip(&msg("a", "b", Payload::Generate, Some(7), None));
    assert_round_trip(&msg("a", "b", Payload::Generate, None, None));
    assert_round_trip(&msg("a", "b", Payload::InitOk, None, Some(0)));
    assert_round_trip(&msg("a", "b", Payload::GenerateOk { id: 0 }, Some(3), Some(9)));
    assert_round_trip(&msg("a", "b", Payload::GenerateOk { id: usize::MAX }, None, None));
    assert_round_trip(&msg(
        "node-one",
        "c 2",
        Payload::Init { node_id: "x".to_string(), node_ids: vec![] },
        Some(usize::MAX),
        Some(1),
    ));
    assert_round_trip(&msg(
        "",
        "",
        Payload::Init {
            node_id: "".to_string(),
            node_ids: vec!["".to_string(), "n1".to_string(), "n2".to_string()],
        },
        None,
        None,
    ));
}

#[test]
fn decode_accepts_trailing_newline() {
    let with_nl = "{\"src\":\"a\",\"dest\":\"b\",\"body\":{\"type\":\"generate\",\"msg_id\":2}}\n";
    let m = decode(with_nl).expect("a full line decodes");
    assert!(matches!(m.body.payload, Payload::Generate));
    assert_eq!(m.body.msg_id, Some(2));
}

#[test]
fn decode_rejects_unknown_tag() {
    let line = "{\"src\":\"a\",\"dest\":\"b\",\"body\":{\"type\":\"echo\",\"msg_id\":2}}";
    assert!(decode(line).is_err());
}

#[test]
fn decode_rejects_trailing_garbage() {
    let line = "{\"src\":\"a\",\"dest\":\"b\",\"body\":{\"type\":\"generate\"}}x";
    assert!(decode(line).is_err());
}

#[test]
fn decode_rejects_leading_zero_number() {
    let line = "{\"src\":\"a\",\"dest\":\"b\",\"body\":{\"type\":\"generate\",\"msg_id\":007}}";
    assert!(decode(line).is_err());
}

#[test]
fn decode_rejects_number_out_of_range() {
    let line = "{\"src\":\"a\",\"dest\":\"b\",\"body\":{\"type\":\"generate\",\"msg_id\":99999999999999999999999999}}";
    assert!(decode(line).is_err());
}

#[test]
fn decode_rejects_unterminated_string() {
    let line = "{\"src\":\"a\",\"dest\":\"b";
    assert!(decode(line).is_err());
}

#[test]
fn decode_rejects_escape_in_string() {
    let line = "{\"src\":\"a\\\\b\",\"dest\":\"c\",\"body\":{\"type\":\"generate\"}}";
    assert!(decode(line).is_err());
}

#[test]
fn decode_error_carries_line() {
    let line = "nonsense";
    let err = decode(line).expect_err("nonsense is refused");
    assert_eq!(err.line, line);
}

#[test]
fn decode_largest_number() {
    let line = format!(
        "{{\"src\":\"a\",\"dest\":\"b\",\"body\":{{\"type\":\"generate\",\"msg_id\":{}}}}}",
        usize::MAX
    );
    let m = decode(&line).expect("usize::MAX fits");
    assert_eq!(m.body.msg_id, Some(usize::MAX));
}
