//! The protocol handler: lifecycle, uniqueness of identifiers, errors.

use unique_ids::msg::{Body, Message, Payload};
use unique_ids::node::{NodeError, UniqueIdNode};
use unique_ids::order::{position_of, sort_strings, str_leq};

fn request(payload: Payload, msg_id: Option<usize>) -> Message {
    Message {
        src: "c1".to_string(),
        dest: "n1".to_string(),
        body: Body { payload, msg_id, in_reply_to: None },
    }
}

fn init_msg(own: &str, ids: &[&str]) -> Message {
    request(
        Payload::Init {
            node_id: own.to_string(),
            node_ids: ids.iter().map(|s| s.to_string()).collect(),
        },
        Some(1),
    )
}

fn generated_id(node: &mut UniqueIdNode) -> usize {
    let reply = node.generate(request(Payload::Generate, Some(2))).unwrap().unwrap();
    match reply.body.payload {
        Payload::GenerateOk { id } => id,
        _ => panic!("a generate request is answered with generate_ok"),
    }
}

#[test]
fn new_node_is_uninitialized() {
    let node = UniqueIdNode::new(None, None);
    assert_eq!(node.own_rank(), None);
    assert_eq!(node.cluster_size(), 0);
    assert_eq!(node.counter_value(), 0);
}

#[test]
fn generate_before_init_fails_loudly() {
    let mut node = UniqueIdNode::new(None, None);
    let r = node.generate(request(Payload::Generate, Some(2)));
    assert!(matches!(r, Err(NodeError::PreconditionViolation)));
    assert_eq!(node.counter_value(), 0);
}

#[test]
fn init_with_missing_own_id_fails() {
    let mut node = UniqueIdNode::new(None, None);
    let r = node.generate(init_msg("n9", &["n1", "n2"]));
    assert!(matches!(r, Err(NodeError::ConfigurationInvariantViolation)));
    assert_eq!(node.own_rank(), None);
}

#[test]
fn ids_follow_the_residue_class() {
    let mut node = UniqueIdNode::new(None, None);
    node.generate(init_msg("n2", &["n1", "n2", "n3"])).unwrap();
    assert_eq!(generated_id(&mut node), 1);
    assert_eq!(generated_id(&mut node), 4);
    assert_eq!(generated_id(&mut node), 7);
    assert_eq!(node.counter_value(), 3);
}

#[test]
fn two_nodes_never_collide() {
    let mut a = UniqueIdNode::new(None, None);
    let mut b = UniqueIdNode::new(None, None);
    a.generate(init_msg("n1", &["n1", "n2"])).unwrap();
    b.generate(init_msg("n2", &["n1", "n2"])).unwrap();
    let mut seen = Vec::new();
    for _ in 0..10 {
        seen.push(generated_id(&mut a));
        seen.push(generated_id(&mut b));
    }
    for i in 0..seen.len() {
        for j in 0..i {
            assert_ne!(seen[i], seen[j]);
        }
    }
}

#[test]
fn rank_ignores_list_order() {
    let mut a = UniqueIdNode::new(None, None);
    let mut b = UniqueIdNode::new(None, None);
    a.generate(init_msg("n2", &["n3", "n1", "n2"])).unwrap();
    b.generate(init_msg("n2", &["n1", "n2", "n3"])).unwrap();
    assert_eq!(a.own_rank(), b.own_rank());
    assert_eq!(a.own_rank(), Some(1));
}

#[test]
fn acknowledgments_are_inert() {
    let mut node = UniqueIdNode::new(None, None);
    node.generate(init_msg("n1", &["n1"])).unwrap();
    let r1 = node.generate(request(Payload::InitOk, None)).unwrap();
    assert!(r1.is_none());
    let r2 = node.generate(request(Payload::GenerateOk { id: 5 }, None)).unwrap();
    assert!(r2.is_none());
    assert_eq!(node.counter_value(), 0);
}

#[test]
fn replies_swap_addresses_and_echo_msg_id() {
    let mut node = UniqueIdNode::new(None, None);
    let reply = node.generate(init_msg("n1", &["n1"])).unwrap().unwrap();
    assert_eq!(reply.src, "n1");
    assert_eq!(reply.dest, "c1");
    assert_eq!(reply.body.msg_id, None);
    assert_eq!(reply.body.in_reply_to, Some(1));
    assert!(matches!(reply.body.payload, Payload::InitOk));
}

#[test]
fn sort_strings_orders_lexicographically() {
    let v = vec!["n10".to_string(), "n1".to_string(), "m".to_string(), "n1".to_string()];
    let sorted = sort_strings(v);
    assert_eq!(sorted, vec!["m", "n1", "n1", "n10"]);
}

#[test]
fn position_of_finds_first_occurrence() {
    let v = vec!["a".to_string(), "b".to_string(), "b".to_string()];
    assert_eq!(position_of(&v, &"b".to_string()), Some(1));
    assert_eq!(position_of(&v, &"z".to_string()), None);
}

#[test]
fn str_leq_is_lexicographic() {
    assert!(str_leq("", "a"));
    assert!(str_leq("a", "a"));
    assert!(str_leq("a", "ab"));
    assert!(!str_leq("ab", "a"));
    assert!(str_leq("n1", "n10"));
    assert!(!str_leq("n3", "n10"));
}
