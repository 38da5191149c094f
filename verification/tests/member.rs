use quickwit_core::address::{
    grpc_addr_from_listen_addr_for_test, IpAddr, Ipv6Addr, SocketAddr,
};
use quickwit_core::member::{Member, MemberError, NodeId};
use quickwit_core::text::ParseDecimalError;

fn node_id(id: &str) -> NodeId {
    NodeId {
        id: id.to_string(),
        gossip_public_address: SocketAddr::localhost(7280),
    }
}

#[test]
fn new_member_is_self() {
    let member = Member::new("node_1".to_string(), 3, SocketAddr::localhost(1));
    assert_eq!(
        member,
        Member {
            node_unique_id: "node_1".to_string(),
            generation: 3,
            gossip_public_address: SocketAddr::localhost(1),
            is_self: true,
        }
    );
    assert_eq!(member.clone(), member);
}

#[test]
fn internal_id_holds_id_and_generation() {
    let member = Member::new("node_1".to_string(), 1, SocketAddr::localhost(1));
    assert_eq!(member.internal_id(), "node_1/1");
    let member = Member::new(String::new(), u64::MAX, SocketAddr::localhost(1));
    assert_eq!(member.internal_id(), "/18446744073709551615");
}

#[test]
fn internal_ids_tell_members_apart() {
    let of = |id: &str, generation: u64| {
        Member::new(id.to_string(), generation, SocketAddr::localhost(1)).internal_id()
    };
    assert_ne!(of("node_1", 1), of("node_1", 2));
    assert_ne!(of("node_1", 1), of("node_2", 1));
    assert_ne!(of("a/1", 2), of("a", 12));
}

#[test]
fn member_survives_its_node_id() {
    let member = Member::new("node_1".to_string(), 1_660_000_000_000, SocketAddr::localhost(9));
    let node_id = NodeId::from(member.clone());
    assert_eq!(node_id.id, "node_1/1660000000000");
    assert_eq!(node_id.gossip_public_address, SocketAddr::localhost(9));
    let expected = Member {
        is_self: false,
        ..member
    };
    assert_eq!(Member::try_from(node_id), Ok(expected));
}

#[test]
fn node_id_without_slash_is_refused() {
    let error = Member::try_from(node_id("node_1")).unwrap_err();
    assert_eq!(
        error,
        MemberError::MissingSeparator {
            node_id: "node_1".to_string()
        }
    );
    assert_eq!(
        error.message(),
        "Could not create a Member instance from NodeId `node_1`"
    );
}

#[test]
fn node_id_without_a_number_is_refused() {
    let refused = |id: &str| match Member::try_from(node_id(id)).unwrap_err() {
        MemberError::InvalidGeneration { error } => error,
        other => panic!("{:?}", other),
    };
    assert_eq!(refused("node_1/"), ParseDecimalError::Empty);
    assert_eq!(refused("node_1/x"), ParseDecimalError::InvalidDigit);
    assert_eq!(
        refused("node_1/18446744073709551616"),
        ParseDecimalError::PosOverflow
    );
    let error = Member::try_from(node_id("node_1/x")).unwrap_err();
    assert_eq!(error.message(), "invalid digit found in string");
}

#[test]
fn member_with_a_slash_does_not_survive_its_node_id() {
    let member = Member::new("eu/node_1".to_string(), 1, SocketAddr::localhost(9));
    assert_eq!(
        Member::try_from(NodeId::from(member)),
        Err(MemberError::InvalidGeneration {
            error: ParseDecimalError::InvalidDigit
        })
    );
}

#[test]
fn generation_may_have_a_plus_sign() {
    let member = Member::try_from(node_id("node_1/+5")).unwrap();
    assert_eq!(member.generation, 5);
    assert_eq!(member.node_unique_id, "node_1");
    assert!(!member.is_self);
}

#[test]
fn grpc_port_follows_the_gossip_port() {
    let ip = IpAddr::V6(Ipv6Addr(0, 0, 0, 0, 0, 0, 0, 1));
    let addr = SocketAddr::new(ip, 7280);
    let grpc_addr = grpc_addr_from_listen_addr_for_test(addr);
    assert_eq!(grpc_addr.ip(), addr.ip());
    assert_eq!(grpc_addr.port(), 7281);
    assert_eq!(
        grpc_addr_from_listen_addr_for_test(SocketAddr::localhost(65_534)),
        SocketAddr::localhost(65_535)
    );
}

#[test]
fn flow_information_and_scope_are_kept() {
    let ip = Ipv6Addr(0xfe80, 0, 0, 0, 0, 0, 0, 1);
    let addr = SocketAddr::V6 {
        ip,
        port: 7280,
        flow_info: 11,
        scope_id: 2,
    };
    assert!(!addr.is_plain());
    assert_eq!(addr.ip(), IpAddr::V6(ip));
    let member = Member::new("node_1".to_string(), 1, addr);
    let node_id = NodeId::from(member);
    assert_eq!(node_id.gossip_public_address, addr);
    assert_eq!(
        Member::try_from(node_id).unwrap().gossip_public_address,
        addr
    );
    // The gRPC address has the IP address alone.
    let grpc_addr = grpc_addr_from_listen_addr_for_test(addr);
    assert_eq!(grpc_addr, SocketAddr::new(IpAddr::V6(ip), 7281));
    assert!(grpc_addr.is_plain());
    assert!(SocketAddr::localhost(1).is_plain());
}
