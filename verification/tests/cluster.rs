use chitchat::{Chitchat, ChitchatConfig};
use quickwit_core::address::{IpAddr, Ipv4Addr, Ipv6Addr, SocketAddr};
use quickwit_core::cluster::{
    create_cluster_for_test, members_from_nodes, missing_key_message, test_node_with_id, Cluster,
    ClusterError, GrpcAddressError, JoinRequest, MonitorStep, TestNodeIds, WaitError, WaitEvent,
    AVAILABLE_SERVICES_KEY, GRPC_ADDRESS_KEY, TEST_CLUSTER_ID,
};
use quickwit_core::member::{Member, MemberError, NodeId};
use quickwit_core::service::{QuickwitService, UnknownService};

fn gossip_node_id(node_id: &NodeId) -> chitchat::NodeId {
    let port = node_id.gossip_public_address.port();
    let address = match node_id.gossip_public_address {
        SocketAddr::V4 {
            ip: Ipv4Addr(a, b, c, d),
            ..
        } => ([a, b, c, d], port).into(),
        SocketAddr::V6 {
            ip: Ipv6Addr(a, b, c, d, e, f, g, h),
            flow_info: 0,
            scope_id: 0,
            ..
        } => ([a, b, c, d, e, f, g, h], port).into(),
        SocketAddr::V6 {
            ip: Ipv6Addr(a, b, c, d, e, f, g, h),
            flow_info: 0,
            scope_id,
            ..
        } => format!(
            "[{:x}:{:x}:{:x}:{:x}:{:x}:{:x}:{:x}:{:x}%{}]:{}",
            a, b, c, d, e, f, g, h, scope_id, port
        )
        .parse()
        .unwrap(),
        other => panic!("{:?}", other),
    };
    chitchat::NodeId::new(node_id.id.clone(), address)
}

fn start(node_id: &NodeId, key_values: Vec<(String, String)>) -> Chitchat {
    let (_, seeds) = tokio::sync::watch::channel(Default::default());
    let config = ChitchatConfig {
        node_id: gossip_node_id(node_id),
        cluster_id: TEST_CLUSTER_ID.to_string(),
        ..Default::default()
    };
    Chitchat::with_node_id_and_seeds(config, seeds, key_values)
}

fn exchange(a: &mut Chitchat, b: &mut Chitchat) {
    let syn = a.create_syn_message();
    let syn_ack = b.process_message(syn).unwrap();
    let ack = a.process_message(syn_ack).unwrap();
    assert!(b.process_message(ack).is_none());
}

fn text_of(addr: SocketAddr) -> String {
    match addr.ip() {
        IpAddr::V4(Ipv4Addr(a, b, c, d)) => format!("{}.{}.{}.{}:{}", a, b, c, d, addr.port()),
        IpAddr::V6(_) => panic!("not of version 4"),
    }
}

fn request(id: u16, services: &[QuickwitService]) -> JoinRequest {
    let node = test_node_with_id(id);
    JoinRequest::new(
        &node.me,
        &services.to_vec(),
        node.listen_addr,
        TEST_CLUSTER_ID.to_string(),
        text_of(node.grpc_addr),
        Vec::new(),
    )
}

fn join(id: u16) -> Cluster {
    let node = test_node_with_id(id);
    Cluster::join(
        node.me,
        TEST_CLUSTER_ID.to_string(),
        node.listen_addr,
        Ok(()),
    )
    .ok()
    .unwrap()
}

fn follow(cluster: &mut Cluster, live_nodes: Vec<NodeId>) {
    match cluster.on_live_nodes(live_nodes) {
        MonitorStep::Publish(_) => cluster.on_published(true),
        other => panic!("{:?}", other),
    }
}

fn port(text: &str) -> Result<u16, String> {
    match text.strip_prefix("127.0.0.1:") {
        Some(port) => port.parse().map_err(|_| text.to_string()),
        None => Err(text.to_string()),
    }
}

#[test]
fn join_request_advertises_address_and_services() {
    let node = test_node_with_id(11);
    let request = JoinRequest::new(
        &node.me,
        &vec![QuickwitService::Searcher, QuickwitService::Indexer],
        node.listen_addr,
        "cluster1".to_string(),
        "127.0.0.1:12".to_string(),
        vec!["127.0.0.1:1".to_string()],
    );
    assert_eq!(request.node_id, NodeId::from(node.me));
    assert_eq!(request.node_id.id, "node_11/1");
    assert_eq!(request.cluster_id, "cluster1");
    assert_eq!(request.listen_addr, SocketAddr::localhost(11));
    assert_eq!(request.seed_nodes, vec!["127.0.0.1:1".to_string()]);
    assert_eq!(
        request.initial_key_values,
        vec![
            ("grpc_address".to_string(), "127.0.0.1:12".to_string()),
            (
                "available_services".to_string(),
                "searcher,indexer".to_string()
            ),
        ]
    );
}

#[test]
fn node_that_joined_is_its_only_member() {
    let cluster = join(1);
    assert_eq!(cluster.cluster_id, "test-cluster");
    assert_eq!(cluster.node_id, "node_1/1");
    assert_eq!(cluster.gossip_listen_addr, SocketAddr::localhost(1));
    assert_eq!(cluster.gossip_listen_addr(), SocketAddr::localhost(1));
    assert_eq!(cluster.cluster_id(), "test-cluster");
    assert_eq!(cluster.node_id(), "node_1/1");
    assert_eq!(cluster.members(), vec![test_node_with_id(1).me]);
    assert!(cluster.is_monitoring());
}

#[test]
fn node_that_cannot_listen_does_not_join() {
    let node = test_node_with_id(1);
    let error = Cluster::join(
        node.me,
        TEST_CLUSTER_ID.to_string(),
        node.listen_addr,
        Err("address in use".to_string()),
    )
    .err()
    .unwrap();
    assert_eq!(
        error,
        ClusterError::UDPPortBindingError {
            listen_addr: SocketAddr::localhost(1),
            cause: "address in use".to_string(),
        }
    );
}

#[test]
fn members_follow_the_live_nodes() {
    let mut cluster = join(1);
    let node_2 = request(2, &[]).node_id;
    let node_3 = request(3, &[]).node_id;
    let addresses = |cluster: &Cluster| -> Vec<SocketAddr> {
        let members = cluster.members();
        members.iter().map(|m| m.gossip_public_address).collect()
    };

    follow(&mut cluster, vec![node_2, node_3.clone()]);
    let expected: Vec<SocketAddr> = [2, 3, 1].map(SocketAddr::localhost).to_vec();
    assert_eq!(addresses(&cluster), expected);
    let selves: Vec<bool> = cluster.members().iter().map(|m| m.is_self).collect();
    assert_eq!(selves, vec![false, false, true]);

    follow(&mut cluster, vec![node_3]);
    assert_eq!(
        addresses(&cluster),
        [3, 1].map(SocketAddr::localhost).to_vec()
    );

    follow(&mut cluster, vec![]);
    assert_eq!(cluster.members(), vec![test_node_with_id(1).me]);
}

#[test]
fn node_that_rejoins_under_another_id() {
    let mut cluster = join(1);
    let node_2 = test_node_with_id(2);
    follow(&mut cluster, vec![NodeId::from(node_2.me)]);
    assert_eq!(cluster.members().len(), 2);
    follow(&mut cluster, vec![]);
    assert_eq!(cluster.members().len(), 1);
    let new_me = Member::new("new_id".to_string(), 1, node_2.listen_addr);
    follow(&mut cluster, vec![NodeId::from(new_me)]);
    let members = cluster.members();
    let ids: Vec<&str> = members.iter().map(|m| m.node_unique_id.as_str()).collect();
    assert_eq!(ids, vec!["new_id", "node_1"]);
}

#[test]
fn change_is_not_seen_before_it_is_published() {
    let mut cluster = join(1);
    let step = cluster.on_live_nodes(vec![request(2, &[]).node_id]);
    assert!(matches!(step, MonitorStep::Publish(members) if members.len() == 2));
    assert_eq!(cluster.members().len(), 1);
    cluster.on_published(false);
    assert_eq!(cluster.members().len(), 1);
    assert!(!cluster.is_monitoring());
}

#[test]
fn node_that_left_publishes_nothing() {
    let mut cluster = join(1);
    follow(&mut cluster, vec![request(2, &[]).node_id]);
    cluster.leave();
    assert!(cluster.is_monitoring());
    let step = cluster.on_live_nodes(vec![]);
    assert_eq!(step, MonitorStep::Stop);
    assert_eq!(cluster.members().len(), 2);
    assert!(!cluster.is_monitoring());
}

#[test]
fn node_that_shut_down_publishes_nothing() {
    let mut cluster = join(1);
    cluster.shutdown();
    assert_eq!(
        cluster.on_live_nodes(vec![request(2, &[]).node_id]),
        MonitorStep::Stop
    );
    assert_eq!(cluster.members().len(), 1);
}

#[test]
fn live_node_that_is_no_member() {
    let stranger = NodeId {
        id: "stranger".to_string(),
        gossip_public_address: SocketAddr::localhost(9),
    };
    let mut cluster = join(1);
    cluster.leave();
    let step = cluster.on_live_nodes(vec![request(2, &[]).node_id, stranger.clone()]);
    assert_eq!(
        step,
        MonitorStep::Fail(MemberError::MissingSeparator {
            node_id: "stranger".to_string()
        })
    );
    assert_eq!(cluster.members().len(), 1);
    assert!(!cluster.is_monitoring());
    assert!(members_from_nodes(vec![stranger]).is_err());
    assert_eq!(members_from_nodes(vec![]), Ok(vec![]));
}

fn three_nodes() -> (Cluster, Chitchat) {
    let first = request(1, &[QuickwitService::Searcher, QuickwitService::Indexer]);
    let second = request(2, &[QuickwitService::Indexer]);
    let third = request(3, &[QuickwitService::Searcher]);
    let mut cluster = join(1);
    follow(
        &mut cluster,
        vec![third.node_id.clone(), second.node_id.clone()],
    );
    let mut chitchat = start(&first.node_id, first.initial_key_values);
    let mut chitchat_2 = start(&second.node_id, second.initial_key_values);
    let mut chitchat_3 = start(&third.node_id, third.initial_key_values);
    exchange(&mut chitchat, &mut chitchat_2);
    exchange(&mut chitchat, &mut chitchat_3);
    (cluster, chitchat)
}

#[test]
fn members_that_serve_a_service() {
    let (cluster, chitchat) = three_nodes();
    assert_eq!(
        cluster.members_grpc_addresses_for_service(&chitchat, QuickwitService::Searcher, port),
        Ok(vec![4, 2])
    );
    assert_eq!(
        cluster.members_grpc_addresses_for_service(&chitchat, QuickwitService::Indexer, port),
        Ok(vec![3, 2])
    );
    assert_eq!(
        cluster.find_grpc_addresses_for_service(&chitchat, QuickwitService::Indexer, port),
        Some(Ok(vec![3, 2]))
    );
}

#[test]
fn member_that_the_gossip_does_not_know() {
    let (mut cluster, chitchat) = three_nodes();
    follow(&mut cluster, vec![request(4, &[]).node_id]);
    assert_eq!(
        cluster.find_grpc_addresses_for_service(&chitchat, QuickwitService::Searcher, port),
        None
    );
    // Same identifier, other address: not the same node.
    let mut moved = request(2, &[]).node_id;
    moved.gossip_public_address = SocketAddr::localhost(77);
    follow(&mut cluster, vec![moved]);
    assert_eq!(
        cluster.find_grpc_addresses_for_service(&chitchat, QuickwitService::Searcher, port),
        None
    );
}

#[test]
fn node_without_services_is_passed_over() {
    let me = test_node_with_id(1).me;
    let chitchat = start(&NodeId::from(me), vec![]);
    assert_eq!(
        join(1).find_grpc_addresses_for_service(&chitchat, QuickwitService::Searcher, port),
        Some(Ok(vec![]))
    );
}

#[test]
fn serving_node_without_address() {
    let me = test_node_with_id(1).me;
    let chitchat = start(
        &NodeId::from(me),
        vec![(AVAILABLE_SERVICES_KEY.to_string(), "searcher".to_string())],
    );
    assert_eq!(
        join(1).find_grpc_addresses_for_service(&chitchat, QuickwitService::Searcher, port),
        Some(Err(GrpcAddressError::MissingAddress {
            node_id: "node_1/1".to_string()
        }))
    );
    assert_eq!(
        missing_key_message(GRPC_ADDRESS_KEY, "node_1/1"),
        "Could not find `grpc_address` key on node `node_1/1` state."
    );
}

#[test]
fn serving_node_with_a_bad_address() {
    let me = test_node_with_id(1).me;
    let chitchat = start(
        &NodeId::from(me),
        vec![
            (AVAILABLE_SERVICES_KEY.to_string(), "searcher".to_string()),
            (GRPC_ADDRESS_KEY.to_string(), "somewhere".to_string()),
        ],
    );
    let cluster = join(1);
    assert_eq!(
        cluster.find_grpc_addresses_for_service(&chitchat, QuickwitService::Searcher, port),
        Some(Err(GrpcAddressError::InvalidAddress(
            "somewhere".to_string()
        )))
    );
    assert_eq!(
        cluster.find_grpc_addresses_for_service(&chitchat, QuickwitService::Indexer, port),
        Some(Ok(vec![]))
    );
}

#[test]
fn node_with_an_address_of_version_6() {
    let ip = IpAddr::V6(Ipv6Addr(0xfe80, 0, 0, 0, 1, 2, 3, 4));
    let addr = SocketAddr::new(ip, 7280);
    let me = Member::new("node_v6".to_string(), 5, addr);
    let request = JoinRequest::new(
        &me,
        &vec![QuickwitService::Searcher],
        addr,
        TEST_CLUSTER_ID.to_string(),
        "127.0.0.1:9".to_string(),
        vec![],
    );
    let chitchat = start(&request.node_id, request.initial_key_values);
    let cluster = Cluster::join(me, TEST_CLUSTER_ID.to_string(), addr, Ok(()))
        .ok()
        .unwrap();
    assert_eq!(
        cluster.members_grpc_addresses_for_service(&chitchat, QuickwitService::Searcher, port),
        Ok(vec![9])
    );
}

#[test]
fn nodes_for_tests() {
    let node = test_node_with_id(21);
    assert_eq!(node.me.node_unique_id, "node_21");
    assert_eq!(node.me.generation, 1);
    assert_eq!(node.listen_addr, SocketAddr::localhost(21));
    assert_eq!(node.grpc_addr, SocketAddr::localhost(22));
}

#[test]
fn waiting_for_members() {
    let me = test_node_with_id(1).me;
    let three = |members: &Vec<Member>| members.len() == 3;
    assert_eq!(
        Cluster::wait_for_members(WaitEvent::Members(vec![me.clone()]), three),
        None
    );
    assert_eq!(
        Cluster::wait_for_members(WaitEvent::Members(vec![me.clone(), me.clone(), me]), three),
        Some(Ok(()))
    );
    assert_eq!(
        Cluster::wait_for_members(WaitEvent::Closed, three),
        Some(Err(WaitError::Closed))
    );
    assert_eq!(
        Cluster::wait_for_members(WaitEvent::Elapsed, three),
        Some(Err(WaitError::Elapsed))
    );
}

#[test]
fn waiting_for_what_never_holds() {
    let me = test_node_with_id(1).me;
    let never = |_: &Vec<Member>| false;
    assert_eq!(
        Cluster::wait_for_members(WaitEvent::Members(vec![me]), never),
        None
    );
    assert_eq!(
        Cluster::wait_for_members(WaitEvent::Closed, never),
        Some(Err(WaitError::Closed))
    );
    // What would hold of any list does not make up for the list.
    assert_eq!(
        Cluster::wait_for_members(WaitEvent::Closed, |_: &Vec<Member>| true),
        Some(Err(WaitError::Closed))
    );
}

#[test]
fn values_that_members_advertise() {
    let (mut cluster, mut chitchat) = three_nodes();
    let value = |text: &str| Some(text.to_string());
    assert_eq!(
        cluster.advertised_service_values(&chitchat),
        vec![
            ("node_3/1".to_string(), value("searcher")),
            ("node_2/1".to_string(), value("indexer")),
            ("node_1/1".to_string(), value("searcher,indexer")),
        ]
    );
    // One member has set nothing, and one is not known to the gossip.
    let silent = request(5, &[]).node_id;
    let mut chitchat_5 = start(&silent, vec![]);
    exchange(&mut chitchat, &mut chitchat_5);
    follow(&mut cluster, vec![silent, request(6, &[]).node_id]);
    assert_eq!(
        cluster.advertised_service_values(&chitchat),
        vec![
            ("node_5/1".to_string(), None),
            ("node_1/1".to_string(), value("searcher,indexer")),
        ]
    );
}

#[test]
fn clusters_for_tests() {
    let names = |parts: &[&str]| -> Vec<String> {
        parts.iter().map(|part| part.to_string()).collect()
    };
    let mut ids = TestNodeIds::new();
    let first = create_cluster_for_test(&mut ids, &names(&["indexer", "indexer"])).unwrap();
    assert_eq!(first.cluster_id, "test-cluster");
    assert_eq!(first.node, test_node_with_id(1));
    assert_eq!(first.services, vec![QuickwitService::Indexer]);
    // A name of no service refuses the list, and uses up a number all the same.
    assert_eq!(
        create_cluster_for_test(&mut ids, &names(&["searcher", "janitor", "x"])),
        Err(UnknownService {
            service: "janitor".to_string()
        })
    );
    let third = create_cluster_for_test(&mut ids, &names(&[])).unwrap();
    assert_eq!(third.node, test_node_with_id(3));
    assert_eq!(third.services, vec![]);
    assert_eq!(ids.next, 4);
    assert_ne!(first.node.me.internal_id(), third.node.me.internal_id());
    assert_ne!(first.node.listen_addr, third.node.listen_addr);
    assert_ne!(first.node.grpc_addr, third.node.grpc_addr);
}

#[test]
fn numbers_of_test_nodes_start_over() {
    let mut ids = TestNodeIds { next: 65535 };
    let unknown = create_cluster_for_test(&mut ids, &vec!["x".to_string()]);
    assert!(unknown.is_err());
    assert_eq!(ids.take(), 0);
    assert_eq!(ids.take(), 1);
}

#[test]
fn node_with_an_address_with_a_scope() {
    let addr = SocketAddr::V6 {
        ip: Ipv6Addr(0xfe80, 0, 0, 0, 1, 2, 3, 4),
        port: 7280,
        flow_info: 0,
        scope_id: 3,
    };
    let me = Member::new("node_v6".to_string(), 5, addr);
    let request = JoinRequest::new(
        &me,
        &vec![QuickwitService::Searcher],
        addr,
        TEST_CLUSTER_ID.to_string(),
        "127.0.0.1:9".to_string(),
        vec![],
    );
    assert_eq!(request.node_id.gossip_public_address, addr);
    let mut chitchat = start(&request.node_id, request.initial_key_values);
    let mut cluster = Cluster::join(me.clone(), TEST_CLUSTER_ID.to_string(), addr, Ok(()))
        .ok()
        .unwrap();
    assert_eq!(cluster.members(), vec![me.clone()]);
    assert_eq!(
        cluster.members_grpc_addresses_for_service(&chitchat, QuickwitService::Searcher, port),
        Ok(vec![9])
    );
    // It still finds others by theirs.
    let other = self::request(2, &[QuickwitService::Searcher]);
    let mut chitchat_2 = start(&other.node_id, other.initial_key_values);
    exchange(&mut chitchat, &mut chitchat_2);
    follow(&mut cluster, vec![other.node_id]);
    assert_eq!(cluster.members()[1], me);
    assert_eq!(
        cluster.find_grpc_addresses_for_service(&chitchat, QuickwitService::Searcher, port),
        Some(Ok(vec![3, 9]))
    );
    assert_eq!(
        cluster.advertised_service_values(&chitchat),
        vec![
            ("node_2/1".to_string(), Some("searcher".to_string())),
            ("node_v6/5".to_string(), Some("searcher".to_string())),
        ]
    );
    // The same node without its scope is another one, and nobody knows it.
    let mut without = NodeId::from(me);
    without.gossip_public_address = SocketAddr::new(addr.ip(), addr.port());
    follow(&mut cluster, vec![without]);
    assert_eq!(
        cluster.find_grpc_addresses_for_service(&chitchat, QuickwitService::Searcher, port),
        None
    );
}

#[test]
fn list_that_is_being_published_when_the_node_leaves() {
    let mut cluster = join(1);
    let step = cluster.on_live_nodes(vec![request(2, &[]).node_id]);
    assert!(matches!(step, MonitorStep::Publish(_)));
    cluster.leave();
    cluster.on_published(true);
    assert_eq!(cluster.members().len(), 2);
    assert_eq!(cluster.on_live_nodes(vec![]), MonitorStep::Stop);
    assert_eq!(cluster.members().len(), 2);
    assert!(!cluster.is_monitoring());
}
