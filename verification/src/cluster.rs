//! The membership of a cluster: joining it, following who is in it, and finding who serves what.

use crate::address::{grpc_addr_from_listen_addr_for_test, SocketAddr};
use crate::gossip::known_value;
use crate::member::{Member, MemberError, MemberErrorView, MemberView, NodeId, NodeIdView};
use crate::service::{
    available_services_val, has_service, parse_available_services_val, services_from_names,
    QuickwitService, UnknownService,
};
use crate::text::to_decimal;
use chitchat::Chitchat;
use vstd::prelude::*;

verus! {

/// The key under which a node advertises the address of its gRPC server.
pub const GRPC_ADDRESS_KEY: &'static str = "grpc_address";

/// The key under which a node advertises its services.
pub const AVAILABLE_SERVICES_KEY: &'static str = "available_services";

/// Why a cluster could not be joined.
#[derive(Debug, PartialEq)]
pub enum ClusterError {
    /// The gossip server could not listen on its address.
    UDPPortBindingError { listen_addr: SocketAddr, cause: String },
}

pub type ClusterResult<T> = Result<T, ClusterError>;

// ---------------------------------------------------------------------------------------------
// Joining
// ---------------------------------------------------------------------------------------------

/// What the gossip server of a joining node is started with.
#[derive(Debug, PartialEq)]
pub struct JoinRequest {
    pub node_id: NodeId,
    pub cluster_id: String,
    pub listen_addr: SocketAddr,
    pub seed_nodes: Vec<String>,
    pub initial_key_values: Vec<(String, String)>,
}

/// The characters of a list of pairs of strings.
pub open spec fn key_value_texts(pairs: Seq<(String, String)>) -> Seq<(Seq<char>, Seq<char>)> {
    pairs.map_values(|pair: (String, String)| (pair.0@, pair.1@))
}

/// The keys and values that a joining node sets in its own state.
pub open spec fn advertised(grpc_address: Seq<char>, services: Seq<QuickwitService>) -> Seq<
    (Seq<char>, Seq<char>),
> {
    seq![
        (GRPC_ADDRESS_KEY@, grpc_address),
        (AVAILABLE_SERVICES_KEY@, crate::service::advertised_services(services)),
    ]
}

/// The state in which the pairs have been set one after the other.
pub open spec fn state_with(pairs: Seq<(Seq<char>, Seq<char>)>) -> Map<Seq<char>, Seq<char>>
    decreases pairs.len(),
{
    if pairs.len() == 0 {
        Map::empty()
    } else {
        state_with(pairs.drop_last()).insert(pairs.last().0, pairs.last().1)
    }
}

impl JoinRequest {
    /// What `me` asks of the gossip to join `cluster_id`. The gRPC address is advertised as the
    /// text that it is given in.
    pub fn new(
        me: &Member,
        services: &Vec<QuickwitService>,
        gossip_listen_addr: SocketAddr,
        cluster_id: String,
        grpc_public_addr: String,
        peer_seed_addrs: Vec<String>,
    ) -> (request: Self)
        ensures
            request.node_id@ == me@.node_id(),
            request.cluster_id@ == cluster_id@,
            request.listen_addr == gossip_listen_addr,
            request.seed_nodes@ == peer_seed_addrs@,
            key_value_texts(request.initial_key_values@) == advertised(
                grpc_public_addr@,
                services@,
            ),
            request.node_id.id@ == me.node_unique_id@ + seq!['/'] + crate::text::decimal(
                me.generation as nat,
            ),
            request.node_id.gossip_public_address == me.gossip_public_address,
            request.initial_key_values@.len() == 2,
            request.initial_key_values@[0].0@ == "grpc_address"@,
            request.initial_key_values@[0].1@ == grpc_public_addr@,
            request.initial_key_values@[1].0@ == "available_services"@,
            request.initial_key_values@[1].1@ == crate::service::advertised_services(services@),
    {
        let mut initial_key_values: Vec<(String, String)> = Vec::new();
        initial_key_values.push((GRPC_ADDRESS_KEY.to_owned(), grpc_public_addr));
        initial_key_values.push(
            (AVAILABLE_SERVICES_KEY.to_owned(), available_services_val(services)),
        );
        assert(key_value_texts(initial_key_values@) =~= advertised(grpc_public_addr@, services@));
        JoinRequest {
            node_id: NodeId::from(me.clone()),
            cluster_id,
            listen_addr: gossip_listen_addr,
            seed_nodes: peer_seed_addrs,
            initial_key_values,
        }
    }
}

// ---------------------------------------------------------------------------------------------
// Membership
// ---------------------------------------------------------------------------------------------

/// The membership of a cluster as one node sees it: who is in it, and whether the node still
/// follows its changes.
pub struct Cluster {
    /// ID of the cluster joined.
    pub cluster_id: String,
    /// Node ID.
    pub node_id: String,
    /// A socket address that represents itself.
    pub gossip_listen_addr: SocketAddr,
    /// The node itself.
    me: Member,
    /// The members, as last published.
    members: Vec<Member>,
    /// The members that are being published.
    pending: Option<Vec<Member>>,
    /// Set once the node has left: no change is published any more.
    stop: bool,
    /// Is the task that follows the changes still running?
    monitoring: bool,
}

/// What a [`Cluster`] is, with its texts as characters.
#[verifier::ext_equal]
pub struct ClusterView {
    pub cluster_id: Seq<char>,
    pub node_id: Seq<char>,
    pub gossip_listen_addr: SocketAddr,
    pub me: MemberView,
    pub members: Seq<MemberView>,
    pub pending: Option<Seq<MemberView>>,
    pub stopped: bool,
    pub monitoring: bool,
}

/// What the members of a list are.
pub open spec fn member_views(members: Seq<Member>) -> Seq<MemberView> {
    members.map_values(|member: Member| member@)
}

/// What the node identifiers of a list are.
pub open spec fn node_id_views(nodes: Seq<NodeId>) -> Seq<NodeIdView> {
    nodes.map_values(|node: NodeId| node@)
}

impl View for Cluster {
    type V = ClusterView;

    closed spec fn view(&self) -> ClusterView {
        ClusterView {
            cluster_id: self.cluster_id@,
            node_id: self.node_id@,
            gossip_listen_addr: self.gossip_listen_addr,
            me: self.me@,
            members: member_views(self.members@),
            pending: match self.pending {
                None => None,
                Some(members) => Some(member_views(members@)),
            },
            stopped: self.stop,
            monitoring: self.monitoring,
        }
    }
}

/// Is `members` what `me` takes the cluster to be: itself last, and before it others, none of
/// which is self?
pub open spec fn is_membership_of(members: Seq<MemberView>, me: MemberView) -> bool {
    &&& members.len() > 0
    &&& members.last() == me
    &&& forall|i: int| 0 <= i < members.len() - 1 ==> !(#[trigger] members[i]).is_self
}

impl ClusterView {
    /// The node is always a member of its own cluster, and the only one that it takes for self.
    pub open spec fn wf(self) -> bool {
        &&& is_membership_of(self.members, self.me)
        &&& self.pending matches Some(members) ==> is_membership_of(members, self.me)
    }

    /// The states of the nodes that the node can look up.
    pub open spec fn known_states(self, chitchat: Chitchat) -> Map<
        NodeIdView,
        Map<Seq<char>, Seq<char>>,
    > {
        crate::gossip::states_known_to(chitchat, self.me.node_id())
    }
}

/// The members that gossip under `nodes`, in their order; or the error of the first of them that
/// is no member.
pub open spec fn members_of(nodes: Seq<NodeIdView>) -> Result<Seq<MemberView>, MemberErrorView>
    decreases nodes.len(),
{
    if nodes.len() == 0 {
        Ok(Seq::empty())
    } else {
        match members_of(nodes.drop_last()) {
            Err(error) => Err(error),
            Ok(front) => match crate::member::member_of(nodes.last()) {
                Err(error) => Err(error),
                Ok(member) => Ok(front.push(member)),
            },
        }
    }
}

impl ClusterView {
    /// What a change of the live nodes leaves: their members and the node itself are pending,
    /// unless one of them is no member or the node has left, which ends the following.
    pub open spec fn after_live_nodes(self, nodes: Seq<NodeIdView>) -> ClusterView {
        match members_of(nodes) {
            Ok(others) if !self.stopped => ClusterView {
                pending: Some(others.push(self.me)),
                ..self
            },
            _ => ClusterView { monitoring: false, ..self },
        }
    }

    /// What publishing the pending members leaves: they are the members; or, where nobody listens
    /// any more, the following ends.
    pub open spec fn after_published(self, sent: bool) -> ClusterView {
        if sent {
            ClusterView { members: self.pending->0, pending: None, ..self }
        } else {
            ClusterView { monitoring: false, pending: None, ..self }
        }
    }

    /// What leaving the cluster leaves.
    pub open spec fn after_leaving(self) -> ClusterView {
        ClusterView { stopped: true, ..self }
    }
}

/// What follows from a change of the live nodes.
#[derive(Debug, PartialEq)]
pub enum MonitorStep {
    /// Publish these members.
    Publish(Vec<Member>),
    /// The node has left: stop following the cluster.
    Stop,
    /// A live node is no member: stop following the cluster with this error.
    Fail(MemberError),
}

/// Reads the members out of the identifiers of the live nodes.
pub fn members_from_nodes(nodes: Vec<NodeId>) -> (members: Result<Vec<Member>, MemberError>)
    ensures
        match members {
            Ok(list) => members_of(node_id_views(nodes@)) == Ok::<
                Seq<MemberView>,
                MemberErrorView,
            >(member_views(list@)),
            Err(error) => members_of(node_id_views(nodes@)) == Err::<
                Seq<MemberView>,
                MemberErrorView,
            >(error@),
        },
{
    let ghost all = node_id_views(nodes@);
    let mut members: Vec<Member> = Vec::new();
    let mut i: usize = 0;
    assert(all.take(0) =~= Seq::<NodeIdView>::empty());
    assert(member_views(members@) =~= Seq::<MemberView>::empty());
    while i < nodes.len()
        invariant
            i <= nodes.len(),
            all == node_id_views(nodes@),
            members_of(all.take(i as int)) == Ok::<Seq<MemberView>, MemberErrorView>(
                member_views(members@),
            ),
        decreases nodes.len() - i,
    {
        let ghost before = members@;
        proof {
            assert(all.take(i + 1).drop_last() =~= all.take(i as int));
            assert(all.take(i + 1).last() == nodes@[i as int]@);
        }
        match Member::try_from(nodes[i].clone()) {
            Ok(member) => {
                members.push(member);
                assert(member_views(members@) =~= member_views(before).push(member@));
            },
            Err(error) => {
                proof {
                    lemma_first_refusal_stays(all, i + 1);
                }
                return Err(error);
            },
        }
        i = i + 1;
    }
    assert(all.take(i as int) =~= all);
    Ok(members)
}

/// A node of a prefix that is no member refuses the whole list.
proof fn lemma_first_refusal_stays(nodes: Seq<NodeIdView>, n: int)
    requires
        0 <= n <= nodes.len(),
        members_of(nodes.take(n)) is Err,
    ensures
        members_of(nodes) == members_of(nodes.take(n)),
    decreases nodes.len(),
{
    if n == nodes.len() {
        assert(nodes.take(n) =~= nodes);
    } else {
        assert(nodes.drop_last().take(n) =~= nodes.take(n));
        lemma_first_refusal_stays(nodes.drop_last(), n);
    }
}

/// There is one member for each live node, in their order, and it is the one that gossips under its
/// identifier; or the first that is no member is refused with its error.
pub proof fn every_live_node_is_a_member(nodes: Seq<NodeIdView>) -> (refused: int)
    ensures
        match members_of(nodes) {
            Ok(members) => members.len() == nodes.len() && forall|i: int|
                0 <= i < nodes.len() ==> crate::member::member_of(#[trigger] nodes[i]) == Ok::<
                    MemberView,
                    MemberErrorView,
                >(members[i]),
            Err(error) => {
                &&& 0 <= refused < nodes.len()
                &&& crate::member::member_of(nodes[refused]) == Err::<MemberView, MemberErrorView>(
                    error,
                )
                &&& forall|i: int|
                    0 <= i < refused ==> crate::member::member_of(#[trigger] nodes[i]) is Ok
            },
        },
    decreases nodes.len(),
{
    if nodes.len() == 0 {
        0
    } else {
        let front = nodes.drop_last();
        let refused = every_live_node_is_a_member(front);
        assert forall|i: int| 0 <= i < front.len() implies #[trigger] nodes[i] == front[i] by {}
        if members_of(front) is Err {
            refused
        } else {
            nodes.len() - 1
        }
    }
}

/// What is said of a list of members, of identifiers, of keys and values, or of advertised values
/// is said of each of them.
pub proof fn lists_are_shown_one_by_one(
    members: Seq<Member>,
    nodes: Seq<NodeId>,
    pairs: Seq<(String, String)>,
    values: Seq<(String, Option<String>)>,
)
    ensures
        member_views(members).len() == members.len(),
        forall|i: int|
            0 <= i < members.len() ==> #[trigger] member_views(members)[i] == (MemberView {
                node_unique_id: members[i].node_unique_id@,
                generation: members[i].generation,
                gossip_public_address: members[i].gossip_public_address,
                is_self: members[i].is_self,
            }),
        node_id_views(nodes).len() == nodes.len(),
        forall|i: int|
            0 <= i < nodes.len() ==> #[trigger] node_id_views(nodes)[i] == (NodeIdView {
                id: nodes[i].id@,
                gossip_public_address: nodes[i].gossip_public_address,
            }),
        key_value_texts(pairs).len() == pairs.len(),
        forall|i: int|
            0 <= i < pairs.len() ==> #[trigger] key_value_texts(pairs)[i] == (
                pairs[i].0@,
                pairs[i].1@,
            ),
        value_texts(values).len() == values.len(),
        forall|i: int|
            0 <= i < values.len() ==> (#[trigger] value_texts(values)[i]).0 == values[i].0@,
        forall|i: int|
            0 <= i < values.len() ==> ((#[trigger] value_texts(values)[i]).1 is Some
                <==> values[i].1 is Some),
        forall|i: int|
            0 <= i < values.len() && values[i].1 is Some ==> (#[trigger] value_texts(
                values,
            )[i]).1 == Some(values[i].1->0@),
{
}

/// Who is read out of an identifier is never self, and there is one member for each identifier.
pub proof fn members_of_nodes_are_others(nodes: Seq<NodeIdView>)
    ensures
        members_of(nodes) matches Ok(members) ==> {
            &&& members.len() == nodes.len()
            &&& forall|i: int| 0 <= i < members.len() ==> !(#[trigger] members[i]).is_self
        },
    decreases nodes.len(),
{
    if nodes.len() > 0 {
        members_of_nodes_are_others(nodes.drop_last());
    }
}

/// Peers whose unique IDs hold no `/` are read out of their identifiers as they are, in the same
/// order, only that to this node they are not self.
pub proof fn live_peers_are_members(peers: Seq<MemberView>)
    requires
        forall|i: int| 0 <= i < peers.len() ==> !(#[trigger] peers[i]).node_unique_id.contains('/'),
    ensures
        members_of(peers.map_values(|peer: MemberView| peer.node_id())) == Ok::<
            Seq<MemberView>,
            MemberErrorView,
        >(peers.map_values(|peer: MemberView| MemberView { is_self: false, ..peer })),
    decreases peers.len(),
{
    let nodes = peers.map_values(|peer: MemberView| peer.node_id());
    let others = peers.map_values(|peer: MemberView| MemberView { is_self: false, ..peer });
    if peers.len() == 0 {
        assert(others =~= Seq::empty());
    } else {
        let front = peers.drop_last();
        live_peers_are_members(front);
        crate::member::member_survives_gossip(peers.last());
        assert(nodes.drop_last() =~= front.map_values(|peer: MemberView| peer.node_id()));
        assert(others =~= front.map_values(
            |peer: MemberView| MemberView { is_self: false, ..peer },
        ).push(MemberView { is_self: false, ..peers.last() }));
    }
}

fn copy_members(members: &Vec<Member>) -> (copy: Vec<Member>)
    ensures
        copy@ == members@,
{
    let mut copy: Vec<Member> = Vec::new();
    let mut i: usize = 0;
    while i < members.len()
        invariant
            i <= members.len(),
            copy@ == members@.take(i as int),
        decreases members.len() - i,
    {
        copy.push(members[i].clone());
        i = i + 1;
    }
    assert(members@.take(i as int) =~= members@);
    copy
}

impl Cluster {
    /// The cluster that `me` has joined once its gossip server has started, with itself as the
    /// only member; or the error, where the server could not start.
    pub fn join(
        me: Member,
        cluster_id: String,
        gossip_listen_addr: SocketAddr,
        started: Result<(), String>,
    ) -> (cluster: ClusterResult<Self>)
        ensures
            match started {
                Ok(()) => cluster matches Ok(c) && c@.wf() && c@ == (ClusterView {
                    cluster_id: cluster_id@,
                    node_id: me@.internal_id(),
                    gossip_listen_addr,
                    me: me@,
                    members: seq![me@],
                    pending: None,
                    stopped: false,
                    monitoring: true,
                }),
                Err(cause) => cluster == Err::<Self, ClusterError>(
                    ClusterError::UDPPortBindingError { listen_addr: gossip_listen_addr, cause },
                ),
            },
    {
        match started {
            Ok(()) => {
                let mut members: Vec<Member> = Vec::new();
                members.push(me.clone());
                let cluster = Cluster {
                    cluster_id,
                    node_id: me.internal_id(),
                    gossip_listen_addr,
                    me,
                    members,
                    pending: None,
                    stop: false,
                    monitoring: true,
                };
                assert(cluster@.members =~= seq![me@]);
                Ok(cluster)
            },
            Err(cause) => Err(
                ClusterError::UDPPortBindingError { listen_addr: gossip_listen_addr, cause },
            ),
        }
    }

    /// ID of the cluster joined.
    pub fn cluster_id(&self) -> (cluster_id: &String)
        ensures
            cluster_id@ == self@.cluster_id,
    {
        &self.cluster_id
    }

    /// Node ID.
    pub fn node_id(&self) -> (node_id: &String)
        ensures
            node_id@ == self@.node_id,
    {
        &self.node_id
    }

    /// A socket address that represents itself.
    pub fn gossip_listen_addr(&self) -> (gossip_listen_addr: SocketAddr)
        ensures
            gossip_listen_addr == self@.gossip_listen_addr,
    {
        self.gossip_listen_addr
    }

    /// Returns the `members` list.
    pub fn members(&self) -> (members: Vec<Member>)
        ensures
            member_views(members@) == self@.members,
    {
        copy_members(&self.members)
    }

    /// Is the node still following the changes of the cluster?
    pub fn is_monitoring(&self) -> (monitoring: bool)
        ensures
            monitoring == self@.monitoring,
    {
        self.monitoring
    }

    /// Decides what follows from a change of the live nodes: their members and this node itself
    /// are to be published, unless one of them is no member or this node has left.
    pub fn on_live_nodes(&mut self, live_nodes: Vec<NodeId>) -> (step: MonitorStep)
        requires
            old(self)@.wf(),
            old(self)@.monitoring,
            old(self)@.pending is None,
        ensures
            final(self)@.wf(),
            final(self)@ == old(self)@.after_live_nodes(node_id_views(live_nodes@)),
            match members_of(node_id_views(live_nodes@)) {
                Err(error) => step matches MonitorStep::Fail(e) && e@ == error,
                Ok(others) => if old(self)@.stopped {
                    step is Stop
                } else {
                    step matches MonitorStep::Publish(members) && member_views(members@)
                        == others.push(old(self)@.me)
                },
            },
            step matches MonitorStep::Publish(members) ==> final(self)@.pending == Some(
                member_views(members@),
            ) && members@.len() == live_nodes@.len() + 1,
            step matches MonitorStep::Publish(members) ==> forall|i: int|
                0 <= i < live_nodes@.len() ==> crate::member::member_of(
                    (#[trigger] live_nodes@[i])@,
                ) == Ok::<MemberView, MemberErrorView>(members@[i]@),
            !(step is Publish) ==> final(self)@.members == old(self)@.members
                && final(self)@.pending is None,
            final(self)@.members == old(self)@.members,
            final(self)@.me == old(self)@.me,
    {
        let ghost nodes = node_id_views(live_nodes@);
        proof {
            members_of_nodes_are_others(nodes);
            every_live_node_is_a_member(nodes);
            assert forall|i: int| 0 <= i < live_nodes@.len() implies (
            #[trigger] live_nodes@[i])@ == nodes[i] by {}
        }
        match members_from_nodes(live_nodes) {
            Err(error) => {
                self.monitoring = false;
                MonitorStep::Fail(error)
            },
            Ok(mut members) => {
                let ghost others = member_views(members@);
                members.push(self.me.clone());
                proof {
                    assert(member_views(members@) =~= others.push(self.me@));
                    assert forall|i: int| 0 <= i < live_nodes@.len() implies others[i]
                        == (#[trigger] members@[i])@ by {
                        assert(member_views(members@)[i] == members@[i]@);
                    }
                    assert forall|i: int|
                        0 <= i < live_nodes@.len() implies crate::member::member_of(
                        (#[trigger] live_nodes@[i])@,
                    ) == Ok::<MemberView, MemberErrorView>(members@[i]@) by {
                        assert(nodes[i] == live_nodes@[i]@);
                        assert(others[i] == members@[i]@);
                    }
                }
                if self.stop {
                    self.monitoring = false;
                    return MonitorStep::Stop;
                }
                self.pending = Some(copy_members(&members));
                MonitorStep::Publish(members)
            },
        }
    }

    /// Takes note of whether the pending members were published. They are the members from then
    /// on; or, where nobody listens any more, the node stops following the cluster.
    pub fn on_published(&mut self, sent: bool)
        requires
            old(self)@.wf(),
            old(self)@.pending is Some,
        ensures
            final(self)@.wf(),
            final(self)@ == old(self)@.after_published(sent),
            final(self)@.members == (if sent {
                old(self)@.pending->0
            } else {
                old(self)@.members
            }),
            final(self)@.pending is None,
            final(self)@.monitoring == (old(self)@.monitoring && sent),
    {
        match self.pending.take() {
            Some(members) => {
                if sent {
                    self.members = members;
                } else {
                    self.monitoring = false;
                }
            },
            None => {},
        }
    }

    /// Leaves the cluster: from the next change of the live nodes on, none is published.
    pub fn leave(&mut self)
        ensures
            final(self)@ == old(self)@.after_leaving(),
    {
        self.stop = true;
    }

    /// Leaves the cluster once the gossip server is down, whether it went down in order or not.
    pub fn shutdown(&mut self)
        ensures
            final(self)@ == old(self)@.after_leaving(),
    {
        self.stop = true;
    }
}

/// When the live nodes change and the change is published, the members are the members of all live
/// nodes, in their order, and the node itself behind them. Nothing else changes.
pub proof fn members_follow_the_live_nodes(cluster: ClusterView, nodes: Seq<NodeIdView>)
    requires
        !cluster.stopped,
        members_of(nodes) is Ok,
    ensures
        ({
            let after = cluster.after_live_nodes(nodes).after_published(true);
            &&& after.members.len() == nodes.len() + 1
            &&& after.members.last() == cluster.me
            &&& forall|i: int|
                0 <= i < nodes.len() ==> crate::member::member_of(#[trigger] nodes[i]) == Ok::<
                    MemberView,
                    MemberErrorView,
                >(after.members[i])
            &&& after.pending is None
            &&& after.cluster_id == cluster.cluster_id
            &&& after.node_id == cluster.node_id
            &&& after.gossip_listen_addr == cluster.gossip_listen_addr
            &&& after.me == cluster.me
            &&& !after.stopped
            &&& after.monitoring == cluster.monitoring
        }),
{
    every_live_node_is_a_member(nodes);
}

/// Nothing is published, and the members stay, where a live node is no member, where the node has
/// left, and where nobody listens: then it does not follow the cluster any more. While a change is
/// not published yet the members stay as well; and leaving alone changes none.
pub proof fn members_stay_unless_a_change_is_published(
    cluster: ClusterView,
    nodes: Seq<NodeIdView>,
)
    ensures
        cluster.after_live_nodes(nodes).members == cluster.members,
        cluster.stopped || members_of(nodes) is Err ==> {
            let after = cluster.after_live_nodes(nodes);
            &&& after.pending == cluster.pending
            &&& !after.monitoring
            &&& after.stopped == cluster.stopped
            &&& after.me == cluster.me
        },
        ({
            let after = cluster.after_published(false);
            &&& after.members == cluster.members
            &&& after.pending is None
            &&& !after.monitoring
            &&& after.stopped == cluster.stopped
            &&& after.me == cluster.me
        }),
        ({
            let after = cluster.after_published(true);
            &&& cluster.pending == Some(after.members) || cluster.pending is None
            &&& after.pending is None
            &&& after.monitoring == cluster.monitoring
            &&& after.stopped == cluster.stopped
            &&& after.me == cluster.me
        }),
        ({
            let after = cluster.after_leaving();
            &&& after.stopped
            &&& after.members == cluster.members
            &&& after.pending == cluster.pending
            &&& after.monitoring == cluster.monitoring
            &&& after.me == cluster.me
        }),
{
}

/// Something that happens to a node of a cluster.
pub enum ClusterEvent {
    /// The live nodes have changed.
    LiveNodes(Seq<NodeIdView>),
    /// The pending members were published, or could not be.
    Published(bool),
    /// The node leaves.
    Leaves,
}

impl ClusterView {
    /// Can the event happen now?
    pub open spec fn admits(self, event: ClusterEvent) -> bool {
        match event {
            ClusterEvent::LiveNodes(_) => self.monitoring && self.pending is None,
            ClusterEvent::Published(_) => self.pending is Some,
            ClusterEvent::Leaves => true,
        }
    }

    /// What the event leaves.
    pub open spec fn after(self, event: ClusterEvent) -> ClusterView {
        match event {
            ClusterEvent::LiveNodes(nodes) => self.after_live_nodes(nodes),
            ClusterEvent::Published(sent) => self.after_published(sent),
            ClusterEvent::Leaves => self.after_leaving(),
        }
    }

    /// What the events leave, one after the other.
    pub open spec fn after_all(self, events: Seq<ClusterEvent>) -> ClusterView
        decreases events.len(),
    {
        if events.len() == 0 {
            self
        } else {
            self.after_all(events.drop_last()).after(events.last())
        }
    }

    /// Can the events happen, one after the other?
    pub open spec fn admits_all(self, events: Seq<ClusterEvent>) -> bool
        decreases events.len(),
    {
        events.len() == 0 || {
            &&& self.admits_all(events.drop_last())
            &&& self.after_all(events.drop_last()).admits(events.last())
        }
    }
}

/// Whatever happens, a node stays who it is and the last of its members, and the only one that it
/// takes for self; and once it does not follow the cluster any more, or has left it, this stays
/// so.
pub proof fn node_stays_its_own_member(cluster: ClusterView, events: Seq<ClusterEvent>)
    requires
        cluster.wf(),
        cluster.admits_all(events),
    ensures
        ({
            let after = cluster.after_all(events);
            &&& after.wf()
            &&& after.me == cluster.me
            &&& after.members.last() == cluster.me
            &&& after.cluster_id == cluster.cluster_id
            &&& after.node_id == cluster.node_id
            &&& after.gossip_listen_addr == cluster.gossip_listen_addr
            &&& cluster.stopped ==> after.stopped
            &&& !cluster.monitoring ==> !after.monitoring
        }),
    decreases events.len(),
{
    if events.len() > 0 {
        node_stays_its_own_member(cluster, events.drop_last());
        match events.last() {
            ClusterEvent::LiveNodes(nodes) => {
                members_of_nodes_are_others(nodes);
            },
            _ => {},
        }
    }
}

/// Once a node has left, its members do not change any more, but for a list that was being
/// published when it left.
pub proof fn members_stay_after_leaving(cluster: ClusterView, events: Seq<ClusterEvent>)
    requires
        cluster.stopped,
        cluster.admits_all(events),
    ensures
        ({
            let after = cluster.after_all(events);
            &&& after.members == cluster.members || cluster.pending == Some(after.members)
            &&& cluster.pending is None ==> after.pending is None && after.members
                == cluster.members
        }),
{
    lemma_pending_after_leaving(cluster, events);
}

proof fn lemma_pending_after_leaving(cluster: ClusterView, events: Seq<ClusterEvent>)
    requires
        cluster.stopped,
        cluster.admits_all(events),
    ensures
        ({
            let after = cluster.after_all(events);
            &&& after.stopped
            &&& after.pending is None || after.pending == cluster.pending && after.members
                == cluster.members
            &&& after.members == cluster.members || cluster.pending == Some(after.members)
        }),
    decreases events.len(),
{
    if events.len() > 0 {
        lemma_pending_after_leaving(cluster, events.drop_last());
    }
}

/// What happens to somebody who waits for the members of a cluster.
#[derive(Debug, PartialEq)]
pub enum WaitEvent {
    /// A list of members is published.
    Members(Vec<Member>),
    /// No list will be published any more.
    Closed,
    /// The time is over.
    Elapsed,
}

/// Why waiting for the members ended without them being as wished.
#[derive(Clone, Copy, Debug, PartialEq, Eq, Structural)]
pub enum WaitError {
    /// The time was over.
    Elapsed,
    /// No list could follow any more.
    Closed,
}

impl Cluster {
    /// Decides whether waiting for the predicate to hold of the members is over, and how it ended:
    /// well, once the predicate holds of a list, and only then. Nothing is returned while it goes
    /// on.
    pub fn wait_for_members<F: FnOnce(&Vec<Member>) -> bool>(
        event: WaitEvent,
        predicate: F,
    ) -> (outcome: Option<Result<(), WaitError>>)
        requires
            event matches WaitEvent::Members(members) ==> predicate.requires((&members,)),
        ensures
            match event {
                WaitEvent::Members(members) => exists|holds: bool| #[trigger]
                    predicate.ensures((&members,), holds) && outcome == if holds {
                        Some(Ok::<(), WaitError>(()))
                    } else {
                        None
                    },
                WaitEvent::Closed => outcome == Some(Err::<(), WaitError>(WaitError::Closed)),
                WaitEvent::Elapsed => outcome == Some(Err::<(), WaitError>(WaitError::Elapsed)),
            },
            outcome == Some(Ok::<(), WaitError>(())) ==> (event matches WaitEvent::Members(members)
                && predicate.ensures((&members,), true)),
    {
        match event {
            WaitEvent::Members(members) => {
                if predicate(&members) {
                    Some(Ok(()))
                } else {
                    None
                }
            },
            WaitEvent::Closed => Some(Err(WaitError::Closed)),
            WaitEvent::Elapsed => Some(Err(WaitError::Elapsed)),
        }
    }
}

// ---------------------------------------------------------------------------------------------
// Who serves what
// ---------------------------------------------------------------------------------------------

/// Why the gRPC addresses of the members could not be listed.
#[derive(Debug, PartialEq)]
pub enum GrpcAddressError<E> {
    /// The node advertises the service but no gRPC address.
    MissingAddress { node_id: String },
    /// What a node advertises as its gRPC address is none.
    InvalidAddress(E),
}

/// Says that the state of a node lacks a key.
pub fn missing_key_message(key: &str, node_id: &str) -> (message: String)
    ensures
        message@ == "Could not find `"@ + key@ + "` key on node `"@ + node_id@ + "` state."@,
{
    "Could not find `".to_owned().concat(key).concat("` key on node `").concat(node_id).concat(
        "` state.",
    )
}

/// Does `member` advertise `service`?
pub open spec fn serves(
    states: Map<NodeIdView, Map<Seq<char>, Seq<char>>>,
    member: MemberView,
    service: QuickwitService,
) -> bool {
    let state = states[member.node_id()];
    &&& state.contains_key(AVAILABLE_SERVICES_KEY@)
    &&& crate::service::advertised_by(state[AVAILABLE_SERVICES_KEY@]).contains(service)
}

/// Can `parse` make `outcome` out of `text`?
pub open spec fn can_parse<A, E, F: Fn(&str) -> Result<A, E>>(
    parse: F,
    text: Seq<char>,
    outcome: Result<A, E>,
) -> bool {
    exists|s: &str| s@ == text && #[trigger] parse.ensures((s,), outcome)
}

/// Are `addresses` the gRPC addresses of those of `members` that advertise `service`, in the
/// order of the members? All members have to be known then, and those that advertise the service
/// to advertise an address that `parse` accepts.
pub open spec fn are_grpc_addresses<A, E, F: Fn(&str) -> Result<A, E>>(
    states: Map<NodeIdView, Map<Seq<char>, Seq<char>>>,
    members: Seq<MemberView>,
    service: QuickwitService,
    parse: F,
    addresses: Seq<A>,
) -> bool
    decreases members.len(),
{
    if members.len() == 0 {
        addresses.len() == 0
    } else {
        let member = members.last();
        &&& states.contains_key(member.node_id())
        &&& if serves(states, member, service) {
            &&& addresses.len() > 0
            &&& states[member.node_id()].contains_key(GRPC_ADDRESS_KEY@)
            &&& can_parse(
                parse,
                states[member.node_id()][GRPC_ADDRESS_KEY@],
                Ok::<A, E>(addresses.last()),
            )
            &&& are_grpc_addresses(
                states,
                members.drop_last(),
                service,
                parse,
                addresses.drop_last(),
            )
        } else {
            are_grpc_addresses(states, members.drop_last(), service, parse, addresses)
        }
    }
}

/// Is member `n` reached, that is, are the addresses of the members before it listed without an
/// error?
pub open spec fn is_reached<A, E, F: Fn(&str) -> Result<A, E>>(
    states: Map<NodeIdView, Map<Seq<char>, Seq<char>>>,
    members: Seq<MemberView>,
    service: QuickwitService,
    parse: F,
    n: int,
) -> bool {
    &&& 0 <= n < members.len()
    &&& exists|addresses: Seq<A>|
        are_grpc_addresses(states, members.take(n), service, parse, addresses)
}

/// Is this what the lookup of the members in their order comes to?
pub open spec fn is_lookup_result<A, E, F: Fn(&str) -> Result<A, E>>(
    states: Map<NodeIdView, Map<Seq<char>, Seq<char>>>,
    members: Seq<MemberView>,
    service: QuickwitService,
    parse: F,
    result: Result<Vec<A>, GrpcAddressError<E>>,
) -> bool {
    match result {
        Ok(addresses) => are_grpc_addresses(states, members, service, parse, addresses@),
        Err(GrpcAddressError::MissingAddress { node_id }) => exists|n: int| #[trigger]
            is_reached(states, members, service, parse, n) && {
                &&& states.contains_key(members[n].node_id())
                &&& serves(states, members[n], service)
                &&& !states[members[n].node_id()].contains_key(GRPC_ADDRESS_KEY@)
                &&& node_id@ == members[n].internal_id()
            },
        Err(GrpcAddressError::InvalidAddress(error)) => exists|n: int| #[trigger]
            is_reached(states, members, service, parse, n) && {
                &&& states.contains_key(members[n].node_id())
                &&& serves(states, members[n], service)
                &&& states[members[n].node_id()].contains_key(GRPC_ADDRESS_KEY@)
                &&& can_parse(
                    parse,
                    states[members[n].node_id()][GRPC_ADDRESS_KEY@],
                    Err::<A, E>(error),
                )
            },
    }
}

impl Cluster {
    /// Returns the gRPC addresses of the members providing the specified service, as `parse` reads
    /// them. Every member that is reached has to be known to the gossip.
    pub fn members_grpc_addresses_for_service<A, E, F: Fn(&str) -> Result<A, E>>(
        &self,
        chitchat: &Chitchat,
        service: QuickwitService,
        parse: F,
    ) -> (result: Result<Vec<A>, GrpcAddressError<E>>)
        requires
            forall|s: &str| parse.requires((s,)),
            forall|n: int| #[trigger]
                is_reached(
                    self@.known_states(*chitchat),
                    self@.members,
                    service,
                    parse,
                    n,
                ) ==> self@.known_states(*chitchat).contains_key(
                    self@.members[n].node_id(),
                ),
        ensures
            is_lookup_result(
                self@.known_states(*chitchat),
                self@.members,
                service,
                parse,
                result,
            ),
    {
        self.find_grpc_addresses_for_service(chitchat, service, parse).unwrap()
    }

    /// Returns the gRPC addresses of the members providing the specified service, as `parse` reads
    /// them; or nothing, where a member is reached that the gossip does not know.
    pub fn find_grpc_addresses_for_service<A, E, F: Fn(&str) -> Result<A, E>>(
        &self,
        chitchat: &Chitchat,
        service: QuickwitService,
        parse: F,
    ) -> (found: Option<Result<Vec<A>, GrpcAddressError<E>>>)
        requires
            forall|s: &str| parse.requires((s,)),
        ensures
            match found {
                Some(result) => is_lookup_result(
                    self@.known_states(*chitchat),
                    self@.members,
                    service,
                    parse,
                    result,
                ),
                None => exists|n: int| #[trigger]
                    is_reached(
                        self@.known_states(*chitchat),
                        self@.members,
                        service,
                        parse,
                        n,
                    ) && !self@.known_states(*chitchat).contains_key(
                        self@.members[n].node_id(),
                    ),
            },
    {
        let ghost states = self@.known_states(*chitchat);
        let ghost members = self@.members;
        let me = NodeId::from(self.me.clone());
        let mut addresses: Vec<A> = Vec::new();
        let mut i: usize = 0;
        while i < self.members.len()
            invariant
                i <= self.members.len(),
                states == self@.known_states(*chitchat),
                me@ == self@.me.node_id(),
                members == member_views(self.members@),
                members == self@.members,
                forall|s: &str| parse.requires((s,)),
                are_grpc_addresses(states, members.take(i as int), service, parse, addresses@),
            decreases self.members.len() - i,
        {
            let member = &self.members[i];
            proof {
                assert(member@ == members[i as int]);
                assert(is_reached::<A, E, F>(states, members, service, parse, i as int));
                assert(members.take(i + 1).drop_last() =~= members.take(i as int));
                assert(members.take(i + 1).last() == member@);
            }
            let node_id = NodeId::from(member.clone());
            let serving = match known_value(chitchat, &me, &node_id, AVAILABLE_SERVICES_KEY) {
                None => {
                    return None;
                },
                Some(None) => false,
                Some(Some(value)) => has_service(
                    &parse_available_services_val(value.as_str()),
                    service,
                ),
            };
            assert(serving == serves(states, member@, service));
            if serving {
                match known_value(chitchat, &me, &node_id, GRPC_ADDRESS_KEY) {
                    None => {
                        return None;
                    },
                    Some(None) => {
                        return Some(
                            Err(GrpcAddressError::MissingAddress { node_id: member.internal_id() }),
                        );
                    },
                    Some(Some(text)) => {
                        let ghost before = addresses@;
                        let outcome = parse(text.as_str());
                        assert(can_parse(parse, text@, outcome));
                        match outcome {
                            Ok(address) => {
                                addresses.push(address);
                                assert(addresses@.drop_last() =~= before);
                            },
                            Err(error) => {
                                return Some(Err(GrpcAddressError::InvalidAddress(error)));
                            },
                        }
                    },
                }
            }
            i = i + 1;
        }
        assert(members.take(i as int) =~= members);
        Some(Ok(addresses))
    }
}

/// What the known members advertise as their services, in the order of the members: the internal
/// ID of each, and the value, if its state holds one.
pub open spec fn advertised_values(
    states: Map<NodeIdView, Map<Seq<char>, Seq<char>>>,
    members: Seq<MemberView>,
) -> Seq<(Seq<char>, Option<Seq<char>>)>
    decreases members.len(),
{
    if members.len() == 0 {
        Seq::empty()
    } else {
        let front = advertised_values(states, members.drop_last());
        let member = members.last();
        if !states.contains_key(member.node_id()) {
            front
        } else if states[member.node_id()].contains_key(AVAILABLE_SERVICES_KEY@) {
            front.push(
                (
                    member.internal_id(),
                    Some(states[member.node_id()][AVAILABLE_SERVICES_KEY@]),
                ),
            )
        } else {
            front.push((member.internal_id(), None))
        }
    }
}

/// The characters of a value, if there is one.
pub open spec fn value_text(value: Option<String>) -> Option<Seq<char>> {
    match value {
        None => None,
        Some(text) => Some(text@),
    }
}

/// The characters of a list of internal IDs with their values.
pub open spec fn value_texts(values: Seq<(String, Option<String>)>) -> Seq<
    (Seq<char>, Option<Seq<char>>),
> {
    values.map_values(|value: (String, Option<String>)| (value.0@, value_text(value.1)))
}

impl Cluster {
    /// Lists what the known members advertise as their services. A member without a value has set
    /// none.
    pub fn advertised_service_values(&self, chitchat: &Chitchat) -> (values: Vec<
        (String, Option<String>),
    >)
        ensures
            value_texts(values@) == advertised_values(
                self@.known_states(*chitchat),
                self@.members,
            ),
    {
        let ghost states = self@.known_states(*chitchat);
        let ghost members = self@.members;
        let me = NodeId::from(self.me.clone());
        let mut values: Vec<(String, Option<String>)> = Vec::new();
        let mut i: usize = 0;
        assert(members.take(0) =~= Seq::<MemberView>::empty());
        assert(value_texts(values@) =~= Seq::<(Seq<char>, Option<Seq<char>>)>::empty());
        while i < self.members.len()
            invariant
                i <= self.members.len(),
                states == self@.known_states(*chitchat),
                me@ == self@.me.node_id(),
                members == member_views(self.members@),
                value_texts(values@) == advertised_values(states, members.take(i as int)),
            decreases self.members.len() - i,
        {
            let member = &self.members[i];
            let ghost before = values@;
            proof {
                assert(member@ == members[i as int]);
                assert(members.take(i + 1).drop_last() =~= members.take(i as int));
                assert(members.take(i + 1).last() == member@);
            }
            let node_id = NodeId::from(member.clone());
            match known_value(chitchat, &me, &node_id, AVAILABLE_SERVICES_KEY) {
                None => {},
                Some(value) => {
                    let ghost text = value_text(value);
                    values.push((member.internal_id(), value));
                    assert(value_texts(values@) =~= value_texts(before).push(
                        (member@.internal_id(), text),
                    ));
                },
            }
            i = i + 1;
        }
        assert(members.take(i as int) =~= members);
        values
    }
}

/// The members that advertise `service`, in their order.
pub open spec fn serving_members(
    states: Map<NodeIdView, Map<Seq<char>, Seq<char>>>,
    members: Seq<MemberView>,
    service: QuickwitService,
) -> Seq<MemberView>
    decreases members.len(),
{
    if members.len() == 0 {
        Seq::empty()
    } else {
        let front = serving_members(states, members.drop_last(), service);
        if serves(states, members.last(), service) {
            front.push(members.last())
        } else {
            front
        }
    }
}

/// A list of gRPC addresses holds one address for each member that advertises the service, in the
/// order of the members, and it is read out of what that member advertises.
pub proof fn one_address_per_serving_member<A, E, F: Fn(&str) -> Result<A, E>>(
    states: Map<NodeIdView, Map<Seq<char>, Seq<char>>>,
    members: Seq<MemberView>,
    service: QuickwitService,
    parse: F,
    addresses: Seq<A>,
)
    requires
        are_grpc_addresses::<A, E, F>(states, members, service, parse, addresses),
    ensures
        addresses.len() == serving_members(states, members, service).len(),
        forall|i: int|
            0 <= i < addresses.len() ==> can_parse(
                parse,
                states[serving_members(states, members, service)[i].node_id()][GRPC_ADDRESS_KEY@],
                Ok::<A, E>(#[trigger] addresses[i]),
            ),
    decreases members.len(),
{
    if members.len() > 0 {
        let front = members.drop_last();
        if serves(states, members.last(), service) {
            let before = addresses.drop_last();
            one_address_per_serving_member::<A, E, F>(states, front, service, parse, before);
            let serving = serving_members(states, members, service);
            assert forall|i: int| 0 <= i < addresses.len() implies can_parse(
                parse,
                states[serving[i].node_id()][GRPC_ADDRESS_KEY@],
                Ok::<A, E>(#[trigger] addresses[i]),
            ) by {
                if i < before.len() {
                    assert(addresses[i] == before[i]);
                    assert(serving[i] == serving_members(states, front, service)[i]);
                } else {
                    assert(addresses[i] == addresses.last());
                    assert(serving[i] == members.last());
                }
            }
        } else {
            one_address_per_serving_member::<A, E, F>(states, front, service, parse, addresses);
        }
    }
}

/// A member serves what it advertises: one of the pieces of its value is the name of the service.
pub proof fn member_serves_what_it_advertises(
    states: Map<NodeIdView, Map<Seq<char>, Seq<char>>>,
    member: MemberView,
    service: QuickwitService,
)
    ensures
        serves(states, member, service) <==> {
            let state = states[member.node_id()];
            &&& state.contains_key("available_services"@)
            &&& crate::text::split_on(state["available_services"@], ',').contains(service.name())
        },
{
    let state = states[member.node_id()];
    if state.contains_key(AVAILABLE_SERVICES_KEY@) {
        let value = state[AVAILABLE_SERVICES_KEY@];
        let pieces = crate::text::split_on(value, ',');
        let services = crate::service::advertised_by(value);
        let at = crate::service::advertised_pieces_are_services(value);
        if services.contains(service) {
            let i = choose|i: int| 0 <= i < services.len() && services[i] == service;
            assert(pieces[at[i]] == service.name());
        }
        if pieces.contains(service.name()) {
            let piece = choose|piece: int|
                0 <= piece < pieces.len() && pieces[piece] == service.name();
            assert(at.contains(piece));
            let i = choose|i: int| 0 <= i < at.len() && at[i] == piece;
            assert(services[i].name() == service.name());
            crate::service::service_name_is_its_own(service);
            crate::service::service_name_is_its_own(services[i]);
        }
    }
}

/// A lookup that succeeds gives one address for every member whose value names the service, in the
/// order of the members (`at` says whose each is), and each is what `parse` makes of the address
/// that the member advertises. All members are known then.
pub proof fn lookup_finds_every_serving_member<A, E, F: Fn(&str) -> Result<A, E>>(
    states: Map<NodeIdView, Map<Seq<char>, Seq<char>>>,
    members: Seq<MemberView>,
    service: QuickwitService,
    parse: F,
    result: Result<Vec<A>, GrpcAddressError<E>>,
) -> (at: Seq<int>)
    requires
        is_lookup_result(states, members, service, parse, result),
        result is Ok,
    ensures
        at.len() == result->Ok_0@.len(),
        forall|i: int, j: int| 0 <= i < j < at.len() ==> #[trigger] at[i] < #[trigger] at[j],
        forall|i: int| 0 <= i < at.len() ==> 0 <= #[trigger] at[i] < members.len(),
        forall|i: int|
            0 <= i < at.len() ==> states[members[#[trigger] at[i]].node_id()].contains_key(
                "available_services"@,
            ),
        forall|i: int|
            0 <= i < at.len() ==> crate::text::split_on(
                states[members[#[trigger] at[i]].node_id()]["available_services"@],
                ',',
            ).contains(service.name()),
        forall|i: int|
            0 <= i < at.len() ==> states[members[#[trigger] at[i]].node_id()].contains_key(
                "grpc_address"@,
            ),
        forall|i: int|
            0 <= i < at.len() && 0 <= #[trigger] at[i] ==> exists|s: &str|
                s@ == states[members[at[i]].node_id()]["grpc_address"@]
                    && #[trigger] parse.ensures((s,), Ok::<A, E>(result->Ok_0@[i])),
        forall|n: int|
            0 <= n < members.len() ==> states.contains_key((#[trigger] members[n]).node_id()),
        forall|n: int|
            0 <= n < members.len() && states[(#[trigger] members[n]).node_id()].contains_key(
                "available_services"@,
            ) && crate::text::split_on(
                states[members[n].node_id()]["available_services"@],
                ',',
            ).contains(service.name()) ==> at.contains(n),
{
    let addresses = result->Ok_0@;
    let at = lemma_address_places::<A, E, F>(states, members, service, parse, addresses);
    assert forall|i: int| 0 <= i < at.len() implies states[members[#[trigger] at[
        i
    ]].node_id()].contains_key("available_services"@) by {
        member_serves_what_it_advertises(states, members[at[i]], service);
    }
    assert forall|i: int| 0 <= i < at.len() implies crate::text::split_on(
        states[members[#[trigger] at[i]].node_id()]["available_services"@],
        ',',
    ).contains(service.name()) by {
        member_serves_what_it_advertises(states, members[at[i]], service);
    }
    assert forall|i: int| 0 <= i < at.len() && 0 <= #[trigger] at[i] implies exists|s: &str|
        s@ == states[members[at[i]].node_id()]["grpc_address"@]
            && #[trigger] parse.ensures((s,), Ok::<A, E>(addresses[i])) by {
        assert(can_parse(
            parse,
            states[members[at[i]].node_id()][GRPC_ADDRESS_KEY@],
            Ok::<A, E>(addresses[i]),
        ));
    }
    assert forall|n: int|
        0 <= n < members.len() && states[(#[trigger] members[n]).node_id()].contains_key(
            "available_services"@,
        ) && crate::text::split_on(
            states[members[n].node_id()]["available_services"@],
            ',',
        ).contains(service.name()) implies at.contains(n) by {
        member_serves_what_it_advertises(states, members[n], service);
    }
    at
}

/// Whose the addresses of a list are.
proof fn lemma_address_places<A, E, F: Fn(&str) -> Result<A, E>>(
    states: Map<NodeIdView, Map<Seq<char>, Seq<char>>>,
    members: Seq<MemberView>,
    service: QuickwitService,
    parse: F,
    addresses: Seq<A>,
) -> (at: Seq<int>)
    requires
        are_grpc_addresses::<A, E, F>(states, members, service, parse, addresses),
    ensures
        at.len() == addresses.len(),
        forall|i: int, j: int| 0 <= i < j < at.len() ==> #[trigger] at[i] < #[trigger] at[j],
        forall|i: int| 0 <= i < at.len() ==> 0 <= #[trigger] at[i] < members.len(),
        forall|i: int| 0 <= i < at.len() ==> serves(states, members[#[trigger] at[i]], service),
        forall|i: int|
            0 <= i < at.len() ==> states[members[#[trigger] at[i]].node_id()].contains_key(
                GRPC_ADDRESS_KEY@,
            ),
        forall|i: int|
            0 <= i < at.len() ==> can_parse(
                parse,
                states[members[#[trigger] at[i]].node_id()][GRPC_ADDRESS_KEY@],
                Ok::<A, E>(addresses[i]),
            ),
        forall|n: int|
            0 <= n < members.len() ==> states.contains_key((#[trigger] members[n]).node_id()),
        forall|n: int|
            0 <= n < members.len() && serves(states, #[trigger] members[n], service)
                ==> at.contains(n),
    decreases members.len(),
{
    if members.len() == 0 {
        Seq::empty()
    } else {
        let front = members.drop_last();
        let last = members.len() - 1;
        let serving = serves(states, members.last(), service);
        let listed = if serving {
            addresses.drop_last()
        } else {
            addresses
        };
        let before = lemma_address_places::<A, E, F>(states, front, service, parse, listed);
        let at = if serving {
            before.push(last)
        } else {
            before
        };
        assert forall|n: int| 0 <= n < front.len() implies #[trigger] members[n] == front[n] by {}
        assert forall|i: int| 0 <= i < before.len() implies #[trigger] at[i] == before[i]
            && members[at[i]] == front[before[i]] by {}
        assert forall|i: int| 0 <= i < at.len() implies can_parse(
            parse,
            states[members[#[trigger] at[i]].node_id()][GRPC_ADDRESS_KEY@],
            Ok::<A, E>(addresses[i]),
        ) by {
            if i < before.len() {
                assert(at[i] == before[i]);
                assert(listed[i] == addresses[i]);
            }
        }
        assert forall|n: int|
            0 <= n < members.len() && serves(
                states,
                #[trigger] members[n],
                service,
            ) implies at.contains(n) by {
            crate::lists::lemma_contains_push(before, last, n);
        }
        at
    }
}

/// A lookup that fails does so at a member that serves, and advertises no address or one that
/// `parse` refuses. The members before it are all known, and those of them that serve advertise an
/// address that `parse` accepts.
pub proof fn lookup_fails_at_the_first_bad_member<A, E, F: Fn(&str) -> Result<A, E>>(
    states: Map<NodeIdView, Map<Seq<char>, Seq<char>>>,
    members: Seq<MemberView>,
    service: QuickwitService,
    parse: F,
    result: Result<Vec<A>, GrpcAddressError<E>>,
) -> (at: int)
    requires
        is_lookup_result(states, members, service, parse, result),
        result is Err,
    ensures
        0 <= at < members.len(),
        states.contains_key(members[at].node_id()),
        states[members[at].node_id()].contains_key("available_services"@),
        crate::text::split_on(
            states[members[at].node_id()]["available_services"@],
            ',',
        ).contains(service.name()),
        match result->Err_0 {
            GrpcAddressError::MissingAddress { node_id } => {
                &&& node_id@ == members[at].internal_id()
                &&& !states[members[at].node_id()].contains_key("grpc_address"@)
            },
            GrpcAddressError::InvalidAddress(error) => {
                &&& states[members[at].node_id()].contains_key("grpc_address"@)
                &&& exists|s: &str|
                    s@ == states[members[at].node_id()]["grpc_address"@]
                        && #[trigger] parse.ensures((s,), Err::<A, E>(error))
            },
        },
        forall|n: int|
            0 <= n < at ==> states.contains_key((#[trigger] members[n]).node_id()),
        forall|n: int|
            0 <= n < at && serves(states, #[trigger] members[n], service) ==> states[
                members[n].node_id()
            ].contains_key("grpc_address"@),
{
    let at = match result->Err_0 {
        GrpcAddressError::MissingAddress { node_id } => choose|n: int| #[trigger]
            is_reached(states, members, service, parse, n) && {
                &&& states.contains_key(members[n].node_id())
                &&& serves(states, members[n], service)
                &&& !states[members[n].node_id()].contains_key(GRPC_ADDRESS_KEY@)
                &&& node_id@ == members[n].internal_id()
            },
        GrpcAddressError::InvalidAddress(error) => choose|n: int| #[trigger]
            is_reached(states, members, service, parse, n) && {
                &&& states.contains_key(members[n].node_id())
                &&& serves(states, members[n], service)
                &&& states[members[n].node_id()].contains_key(GRPC_ADDRESS_KEY@)
                &&& can_parse(
                    parse,
                    states[members[n].node_id()][GRPC_ADDRESS_KEY@],
                    Err::<A, E>(error),
                )
            },
    };
    member_serves_what_it_advertises(states, members[at], service);
    reached_member_follows_good_ones::<A, E, F>(states, members, service, parse, at);
    at
}

/// Before a member that is reached all members are known, and those that serve advertise an
/// address that `parse` accepts.
pub proof fn reached_member_follows_good_ones<A, E, F: Fn(&str) -> Result<A, E>>(
    states: Map<NodeIdView, Map<Seq<char>, Seq<char>>>,
    members: Seq<MemberView>,
    service: QuickwitService,
    parse: F,
    at: int,
)
    requires
        is_reached(states, members, service, parse, at),
    ensures
        0 <= at < members.len(),
        forall|n: int|
            0 <= n < at ==> states.contains_key((#[trigger] members[n]).node_id()),
        forall|n: int|
            0 <= n < at && serves(states, #[trigger] members[n], service) ==> states[
                members[n].node_id()
            ].contains_key("grpc_address"@),
        forall|n: int|
            0 <= n < at && serves(states, #[trigger] members[n], service) ==> exists|address: A|
                can_parse(
                    parse,
                    states[members[n].node_id()]["grpc_address"@],
                    Ok::<A, E>(address),
                ),
{
    let front = members.take(at);
    let addresses = choose|addresses: Seq<A>|
        are_grpc_addresses::<A, E, F>(states, front, service, parse, addresses);
    let places = lemma_address_places::<A, E, F>(states, front, service, parse, addresses);
    assert forall|n: int| 0 <= n < at implies states.contains_key(
        (#[trigger] members[n]).node_id(),
    ) by {
        assert(front[n] == members[n]);
    }
    assert forall|n: int|
        0 <= n < at && serves(states, #[trigger] members[n], service) implies states[
        members[n].node_id()
    ].contains_key("grpc_address"@) && exists|address: A|
        can_parse(
            parse,
            states[members[n].node_id()]["grpc_address"@],
            Ok::<A, E>(address),
        ) by {
        assert(front[n] == members[n]);
        assert(places.contains(n));
        let i = choose|i: int| 0 <= i < places.len() && places[i] == n;
        assert(can_parse(
            parse,
            states[front[places[i]].node_id()][GRPC_ADDRESS_KEY@],
            Ok::<A, E>(addresses[i]),
        ));
    }
}

/// Every known member is listed with its value, in the order of the members (`at` says which each
/// is): the one that its state holds, if it holds one.
pub proof fn every_known_member_is_listed(
    states: Map<NodeIdView, Map<Seq<char>, Seq<char>>>,
    members: Seq<MemberView>,
) -> (at: Seq<int>)
    ensures
        at.len() == advertised_values(states, members).len(),
        forall|i: int, j: int| 0 <= i < j < at.len() ==> #[trigger] at[i] < #[trigger] at[j],
        forall|i: int| 0 <= i < at.len() ==> 0 <= #[trigger] at[i] < members.len(),
        forall|i: int|
            0 <= i < at.len() ==> advertised_values(states, members)[i] == {
                let state = states[members[#[trigger] at[i]].node_id()];
                (
                    members[at[i]].internal_id(),
                    if state.contains_key("available_services"@) {
                        Some(state["available_services"@])
                    } else {
                        None
                    },
                )
            },
        forall|n: int|
            0 <= n < members.len() ==> (at.contains(n) <==> states.contains_key(
                (#[trigger] members[n]).node_id(),
            )),
    decreases members.len(),
{
    if members.len() == 0 {
        Seq::empty()
    } else {
        let front = members.drop_last();
        let last = members.len() - 1;
        let before = every_known_member_is_listed(states, front);
        let values = advertised_values(states, members);
        let at = if states.contains_key(members.last().node_id()) {
            before.push(last)
        } else {
            before
        };
        assert forall|i: int| 0 <= i < at.len() implies values[i] == {
            let state = states[members[#[trigger] at[i]].node_id()];
            (
                members[at[i]].internal_id(),
                if state.contains_key("available_services"@) {
                    Some(state["available_services"@])
                } else {
                    None
                },
            )
        } by {
            if i < before.len() {
                assert(at[i] == before[i]);
                assert(members[at[i]] == front[before[i]]);
                assert(values[i] == advertised_values(states, front)[i]);
            } else {
                assert(at[i] == last);
            }
        }
        assert forall|n: int| 0 <= n < members.len() implies (at.contains(n)
            <==> states.contains_key((#[trigger] members[n]).node_id())) by {
            crate::lists::lemma_contains_push(before, last, n);
            if n < last {
                assert(front[n] == members[n]);
            } else if before.contains(n) {
                let i = choose|i: int| 0 <= i < before.len() && before[i] == n;
                assert(before[i] < front.len());
            }
        }
        at
    }
}

/// What a node can look up of a member with nothing but an IP address and a port is what the
/// gossip holds under its unique ID, its generation and its address.
pub proof fn member_is_looked_up_under_its_identifier(
    cluster: ClusterView,
    chitchat: Chitchat,
    member: MemberView,
)
    requires
        member.gossip_public_address.is_plain(),
    ensures
        ({
            let node = NodeIdView {
                id: member.node_unique_id + seq!['/'] + crate::text::decimal(
                    member.generation as nat,
                ),
                gossip_public_address: member.gossip_public_address,
            };
            let states = crate::gossip::node_states(chitchat);
            &&& member.node_id() == node
            &&& cluster.known_states(chitchat).contains_key(node) <==> states.contains_key(node)
            &&& states.contains_key(node) ==> cluster.known_states(chitchat)[node] == states[node]
        }),
        cluster.known_states(chitchat) == crate::gossip::states_known_to(
            chitchat,
            cluster.me.node_id(),
        ),
{
    crate::gossip::known_states_are_those_of_the_gossip(
        chitchat,
        cluster.me.node_id(),
        member.node_id(),
    );
}

/// Does `parse` make at most one thing of each text?
pub open spec fn parses_in_one_way<A, E, F: Fn(&str) -> Result<A, E>>(parse: F) -> bool {
    forall|text: Seq<char>, a: Result<A, E>, b: Result<A, E>|
        #![trigger can_parse(parse, text, a), can_parse(parse, text, b)]
        can_parse(parse, text, a) && can_parse(parse, text, b) ==> a == b
}

/// A lookup does not fail where every member that advertises the service advertises an address
/// that `parse` accepts.
pub proof fn lookup_succeeds_where_every_address_parses<A, E, F: Fn(&str) -> Result<A, E>>(
    states: Map<NodeIdView, Map<Seq<char>, Seq<char>>>,
    members: Seq<MemberView>,
    service: QuickwitService,
    parse: F,
    result: Result<Vec<A>, GrpcAddressError<E>>,
)
    requires
        parses_in_one_way(parse),
        is_lookup_result(states, members, service, parse, result),
        forall|i: int|
            0 <= i < members.len() && serves(states, #[trigger] members[i], service) ==> {
                &&& states[members[i].node_id()].contains_key(GRPC_ADDRESS_KEY@)
                &&& exists|address: A|
                    can_parse(
                        parse,
                        states[members[i].node_id()][GRPC_ADDRESS_KEY@],
                        Ok::<A, E>(address),
                    )
            },
    ensures
        result is Ok,
{
}

/// Setting what a joining node advertises leaves both of its values set: neither key overwrites
/// the other.
pub proof fn joined_state_holds_both(grpc_address: Seq<char>, services: Seq<QuickwitService>)
    ensures
        ({
            let state = state_with(advertised(grpc_address, services));
            &&& state.contains_key(GRPC_ADDRESS_KEY@)
            &&& state[GRPC_ADDRESS_KEY@] == grpc_address
            &&& state.contains_key(AVAILABLE_SERVICES_KEY@)
            &&& state[AVAILABLE_SERVICES_KEY@] == crate::service::advertised_services(services)
        }),
{
    reveal_strlit("grpc_address");
    reveal_strlit("available_services");
    reveal_with_fuel(state_with, 3);
    let pairs = advertised(grpc_address, services);
    assert(pairs.drop_last() =~= seq![pairs[0]]);
    assert(pairs.drop_last().last() == pairs[0]);
    assert(GRPC_ADDRESS_KEY@.len() != AVAILABLE_SERVICES_KEY@.len());
}

/// A member whose state holds what it advertised when it joined serves exactly the services that
/// it joined with.
pub proof fn joined_member_serves_its_services(
    states: Map<NodeIdView, Map<Seq<char>, Seq<char>>>,
    member: MemberView,
    services: Seq<QuickwitService>,
    service: QuickwitService,
)
    requires
        states[member.node_id()].contains_key(AVAILABLE_SERVICES_KEY@),
        states[member.node_id()][AVAILABLE_SERVICES_KEY@] == crate::service::advertised_services(
            services,
        ),
    ensures
        serves(states, member, service) == services.contains(service),
{
    crate::service::advertised_services_read_back(services);
}

// ---------------------------------------------------------------------------------------------
// Clusters for tests
// ---------------------------------------------------------------------------------------------

/// The cluster that test nodes join.
pub const TEST_CLUSTER_ID: &'static str = "test-cluster";

/// A node that is made for tests.
#[derive(Debug, PartialEq)]
pub struct TestNode {
    pub me: Member,
    pub listen_addr: SocketAddr,
    pub grpc_addr: SocketAddr,
}

/// What a [`TestNode`] is.
pub struct TestNodeView {
    pub me: MemberView,
    pub listen_addr: SocketAddr,
    pub grpc_addr: SocketAddr,
}

impl View for TestNode {
    type V = TestNodeView;

    open spec fn view(&self) -> TestNodeView {
        TestNodeView {
            me: self.me@,
            listen_addr: self.listen_addr,
            grpc_addr: self.grpc_addr,
        }
    }
}

/// `port` on the loopback interface.
pub open spec fn localhost(port: u16) -> SocketAddr {
    SocketAddr::V4 { ip: crate::address::Ipv4Addr(127, 0, 0, 1), port }
}

/// The test node of a number: it is named after it, listens on the port of that number and takes
/// the next port for gRPC.
pub open spec fn test_node(node_id: u16) -> TestNodeView {
    TestNodeView {
        me: MemberView {
            node_unique_id: "node_"@ + crate::text::decimal(node_id as nat),
            generation: 1,
            gossip_public_address: localhost(node_id),
            is_self: true,
        },
        listen_addr: localhost(node_id),
        grpc_addr: localhost((node_id + 1) as u16),
    }
}

/// Makes the test node of a number. The last port has no next one.
pub fn test_node_with_id(node_id: u16) -> (node: TestNode)
    requires
        node_id < u16::MAX,
    ensures
        node@ == test_node(node_id),
        node.me.node_unique_id@ == "node_"@ + crate::text::decimal(node_id as nat),
        node.me.generation == 1,
        node.me.is_self,
        node.me.gossip_public_address == node.listen_addr,
        node.listen_addr == (SocketAddr::V4 {
            ip: crate::address::Ipv4Addr(127, 0, 0, 1),
            port: node_id,
        }),
        node.grpc_addr == (SocketAddr::V4 {
            ip: crate::address::Ipv4Addr(127, 0, 0, 1),
            port: (node_id + 1) as u16,
        }),
{
    let listen_addr = SocketAddr::localhost(node_id);
    let name = "node_".to_owned().concat(to_decimal(node_id as u64).as_str());
    TestNode {
        me: Member::new(name, 1, listen_addr),
        listen_addr,
        grpc_addr: grpc_addr_from_listen_addr_for_test(listen_addr),
    }
}

/// A cluster of one node that is made for tests.
#[derive(Debug, PartialEq)]
pub struct TestCluster {
    pub cluster_id: String,
    pub node: TestNode,
    pub services: Vec<QuickwitService>,
}

/// What a [`TestCluster`] is.
pub struct TestClusterView {
    pub cluster_id: Seq<char>,
    pub node: TestNodeView,
    pub services: Seq<QuickwitService>,
}

impl View for TestCluster {
    type V = TestClusterView;

    open spec fn view(&self) -> TestClusterView {
        TestClusterView {
            cluster_id: self.cluster_id@,
            node: self.node@,
            services: self.services@,
        }
    }
}

/// The cluster of the test node of a number with the services of these names; or the first name
/// that is of no service.
pub open spec fn test_cluster(node_id: u16, services: Seq<Seq<char>>) -> Result<
    TestClusterView,
    Seq<char>,
> {
    match crate::service::services_named(services) {
        Err(name) => Err(name),
        Ok(list) => Ok(
            TestClusterView {
                cluster_id: TEST_CLUSTER_ID@,
                node: test_node(node_id),
                services: list,
            },
        ),
    }
}

/// Gives out the numbers of test nodes, one after the other.
#[derive(Debug)]
pub struct TestNodeIds {
    /// The number that is given out next.
    pub next: u16,
}

impl TestNodeIds {
    /// Starts with number 1.
    pub fn new() -> (ids: Self)
        ensures
            ids.next == 1,
    {
        TestNodeIds { next: 1 }
    }

    /// Gives out a number.
    pub fn take(&mut self) -> (node_id: u16)
        ensures
            node_id == old(self).next,
            final(self).next == old(self).next.wrapping_add(1),
    {
        let node_id: u16 = self.next;
        self.next = node_id.wrapping_add(1);
        node_id
    }
}

/// Makes the cluster of a test node with the next number and with the services of these names.
/// The number is used up even where a name is of no service and there is no cluster. The last
/// port has no next one for gRPC.
pub fn create_cluster_for_test(ids: &mut TestNodeIds, services: &Vec<String>) -> (cluster: Result<
    TestCluster,
    UnknownService,
>)
    requires
        crate::service::services_named(crate::text::texts(services@)) is Ok ==> old(ids).next
            < u16::MAX,
    ensures
        match test_cluster(old(ids).next, crate::text::texts(services@)) {
            Err(name) => cluster matches Err(error) && error.service@ == name,
            Ok(view) => cluster matches Ok(c) && c@ == view,
        },
        final(ids).next == old(ids).next.wrapping_add(1),
        cluster matches Ok(c) ==> {
            &&& c.cluster_id@ == "test-cluster"@
            &&& c.node.listen_addr.port() == old(ids).next
            &&& c.services@.no_duplicates()
        },
{
    let node_id: u16 = ids.take();
    proof {
        crate::service::services_named_are_distinct(crate::text::texts(services@));
    }
    match services_from_names(services) {
        Err(error) => Err(error),
        Ok(services) => Ok(
            TestCluster {
                cluster_id: TEST_CLUSTER_ID.to_owned(),
                node: test_node_with_id(node_id),
                services,
            },
        ),
    }
}

/// What making one cluster after the other comes to, each with the services of one of the lists
/// of names, when the first number is `first`.
pub open spec fn test_clusters(first: u16, calls: Seq<Seq<Seq<char>>>) -> Seq<
    Result<TestClusterView, Seq<char>>,
> {
    Seq::new(calls.len(), |i: int| test_cluster((first + i) as u16, calls[i]))
}

/// Of the clusters that are made for tests, a list of names is refused exactly where one of them
/// is of no service. The others all have the same ID, listen on the loopback interface and have
/// exactly the services that were named, each once; and no two of them share a gossip port, a
/// gRPC port or a node ID.
pub proof fn test_clusters_are_told_apart(calls: Seq<Seq<Seq<char>>>, i: int, j: int)
    requires
        calls.len() < u16::MAX,
        0 <= i < calls.len(),
        0 <= j < calls.len(),
    ensures
        test_clusters(1, calls)[i] is Err <==> exists|k: int|
            0 <= k < calls[i].len() && crate::service::service_named(
                #[trigger] calls[i][k],
            ) is None,
        test_clusters(1, calls)[i] matches Ok(c) ==> {
            &&& c.cluster_id == TEST_CLUSTER_ID@
            &&& c.node.listen_addr == localhost(c.node.listen_addr.port())
            &&& c.services.no_duplicates()
            &&& forall|service: QuickwitService| #[trigger]
                c.services.contains(service) <==> calls[i].contains(service.name())
        },
        test_clusters(1, calls)[i] matches Ok(a) ==> test_clusters(1, calls)[j] matches Ok(b) ==> i
            != j ==> {
            &&& a.node.listen_addr.port() != b.node.listen_addr.port()
            &&& a.node.grpc_addr.port() != b.node.grpc_addr.port()
            &&& a.node.me.internal_id() != b.node.me.internal_id()
        },
{
    crate::service::unknown_name_refuses_the_list(calls[i]);
    if test_clusters(1, calls)[i] is Ok {
        crate::service::services_named_are_distinct(calls[i]);
        assert forall|service: QuickwitService| #[trigger]
            crate::service::services_named(calls[i])->Ok_0.contains(service)
                <==> calls[i].contains(service.name()) by {
            crate::service::services_named_are_those_named(calls[i], service);
        }
    }
    if i != j {
        test_nodes_are_told_apart((1 + i) as u16, (1 + j) as u16);
    }
}

/// A test node is named after its number, listens on the loopback interface on the port of that
/// number, and takes the next port for gRPC.
pub proof fn test_node_is_made_of_its_number(node_id: u16)
    requires
        node_id < u16::MAX,
    ensures
        ({
            let ip = crate::address::Ipv4Addr(127, 0, 0, 1);
            let node = test_node(node_id);
            &&& node.me.node_unique_id == "node_"@ + crate::text::decimal(node_id as nat)
            &&& node.me.generation == 1
            &&& node.me.is_self
            &&& node.me.gossip_public_address == (SocketAddr::V4 { ip, port: node_id })
            &&& node.listen_addr == (SocketAddr::V4 { ip, port: node_id })
            &&& node.grpc_addr == (SocketAddr::V4 { ip, port: (node_id + 1) as u16 })
        }),
{
}

/// Test nodes of different numbers share no gossip port, no gRPC port and no node ID. All of them
/// are on the same interface.
pub proof fn test_nodes_are_told_apart(a: u16, b: u16)
    requires
        a != b,
        a < u16::MAX,
        b < u16::MAX,
    ensures
        test_node(a).listen_addr.ip() == test_node(b).listen_addr.ip(),
        test_node(a).listen_addr.port() != test_node(b).listen_addr.port(),
        test_node(a).grpc_addr.port() != test_node(b).grpc_addr.port(),
        test_node(a).me.node_unique_id != test_node(b).me.node_unique_id,
        test_node(a).me.internal_id() != test_node(b).me.internal_id(),
{
    let x = crate::text::decimal(a as nat);
    let y = crate::text::decimal(b as nat);
    let n = "node_"@.len() as int;
    if test_node(a).me.node_unique_id == test_node(b).me.node_unique_id {
        assert(test_node(a).me.node_unique_id.skip(n) =~= x);
        assert(test_node(b).me.node_unique_id.skip(n) =~= y);
        crate::text::decimal_reads_back(a as u64);
        crate::text::decimal_reads_back(b as u64);
    }
    if test_node(a).me.internal_id() == test_node(b).me.internal_id() {
        crate::member::internal_id_is_unique(test_node(a).me, test_node(b).me);
    }
}

} // verus!
