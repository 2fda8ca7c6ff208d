//! End-to-end scenarios: one decoded line in, one encoded line out.

use unique_ids::codec::{decode, encode};
use unique_ids::msg::Payload;
use unique_ids::node::UniqueIdNode;

#[test]
fn scenario_init() {
    let input = "{\"src\":\"c1\",\"dest\":\"n1\",\"body\":{\"type\":\"init\",\"msg_id\":1,\"node_id\":\"n1\",\"node_ids\":[\"n1\"]}}";
    let mut node = UniqueIdNode::new(None, None);
    let msg = decode(input).expect("the init line decodes");
    let reply = node.generate(msg).expect("init succeeds").expect("init is answered");
    let line = encode(&reply);
    assert_eq!(
        line,
        "{\"src\":\"n1\",\"dest\":\"c1\",\"body\":{\"type\":\"init_ok\",\"in_reply_to\":1}}\n"
    );
    assert_eq!(node.cluster_size(), 1);
    assert_eq!(node.own_rank(), Some(0));
}

#[test]
fn scenario_generate() {
    let init = "{\"src\":\"c1\",\"dest\":\"n1\",\"body\":{\"type\":\"init\",\"msg_id\":1,\"node_id\":\"n1\",\"node_ids\":[\"n1\"]}}";
    let gen = "{\"src\":\"c1\",\"dest\":\"n1\",\"body\":{\"type\":\"generate\",\"msg_id\":2}}";
    let mut node = UniqueIdNode::new(None, None);
    node.generate(decode(init).unwrap()).unwrap();
    let reply1 = node.generate(decode(gen).unwrap()).unwrap().unwrap();
    let line1 = encode(&reply1);
    assert_eq!(
        line1,
        "{\"src\":\"n1\",\"dest\":\"c1\",\"body\":{\"type\":\"generate_ok\",\"in_reply_to\":2,\"id\":0}}\n"
    );
    let reply2 = node.generate(decode(gen).unwrap()).unwrap().unwrap();
    assert!(matches!(reply2.body.payload, Payload::GenerateOk { id: 1 }));
}

#[test]
fn scenario_sorted_rank() {
    let input = "{\"src\":\"c1\",\"dest\":\"n2\",\"body\":{\"type\":\"init\",\"msg_id\":1,\"node_id\":\"n2\",\"node_ids\":[\"n3\",\"n1\",\"n2\"]}}";
    let gen = "{\"src\":\"c1\",\"dest\":\"n2\",\"body\":{\"type\":\"generate\",\"msg_id\":2}}";
    let mut node = UniqueIdNode::new(None, None);
    node.generate(decode(input).unwrap()).unwrap();
    assert_eq!(node.own_rank(), Some(1));
    assert_eq!(node.cluster_size(), 3);
    let reply = node.generate(decode(gen).unwrap()).unwrap().unwrap();
    assert!(matches!(reply.body.payload, Payload::GenerateOk { id: 1 }));
}

#[test]
fn scenario_malformed_line() {
    let input = "{\"src\":\"c1\",\"dest\":\"n1\",\"body\":{\"msg_id\":1}}";
    let err = decode(input).expect_err("a line without a type tag is refused");
    assert_eq!(err.line, input);
}
