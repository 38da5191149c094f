//! What the nodes of the cluster have told each other, as `chitchat` keeps it.

use crate::address::{IpAddr, Ipv4Addr, Ipv6Addr};
use crate::member::{NodeId, NodeIdView};
use chitchat::Chitchat;
use vstd::prelude::*;

verus! {

/// `chitchat::Chitchat`: the local copy of the states of all nodes.
#[verifier::external_type_specification]
#[verifier::external_body]
pub struct ExChitchat(Chitchat);

/// The states that a [`Chitchat`] holds: of each node that it knows, the keys that are set and
/// their values.
pub uninterp spec fn node_states(chitchat: Chitchat) -> Map<NodeIdView, Map<Seq<char>, Seq<char>>>;

/// The identifier under which a [`Chitchat`] gossips itself.
pub uninterp spec fn own_node(chitchat: Chitchat) -> NodeIdView;

/// Calls `Chitchat::node_state` and, on the state that it finds, `NodeState::get`: nothing where
/// the node is not known, else the value that its state holds under the key, if there is one.
/// The two calls stand together because the type of the state has no public path. The identifier
/// is made out of an IP address and a port: of an address that holds more nothing is claimed.
#[verifier::external_body]
fn node_value(chitchat: &Chitchat, node: &NodeId, key: &str) -> (value: Option<Option<String>>)
    requires
        node@.gossip_public_address.is_plain(),
    ensures
        is_value_in(node_states(*chitchat), node@, key@, value),
{
    let port = node.gossip_public_address.port();
    let address = match node.gossip_public_address.ip() {
        IpAddr::V4(Ipv4Addr(a, b, c, d)) => ([a, b, c, d], port).into(),
        IpAddr::V6(Ipv6Addr(a, b, c, d, e, f, g, h)) => ([a, b, c, d, e, f, g, h], port).into(),
    };
    let node_id = chitchat::NodeId::new(node.id.clone(), address);
    chitchat.node_state(&node_id).map(|state| state.get(key).map(str::to_string))
}

/// Calls `Chitchat::node_state` with what `Chitchat::self_node_id` gives, and `NodeState::get` on
/// the state that it finds: the value that the state of the node itself holds under the key.
#[verifier::external_body]
fn own_value(chitchat: &Chitchat, key: &str) -> (value: Option<Option<String>>)
    ensures
        is_value_in(node_states(*chitchat), own_node(*chitchat), key@, value),
{
    let state = chitchat.node_state(chitchat.self_node_id());
    state.map(|state| state.get(key).map(str::to_string))
}

/// Is this what the state of `node` holds under the key: nothing where the node is not known, else
/// the value, if there is one?
pub open spec fn is_value_in(
    states: Map<NodeIdView, Map<Seq<char>, Seq<char>>>,
    node: NodeIdView,
    key: Seq<char>,
    value: Option<Option<String>>,
) -> bool {
    match value {
        None => !states.contains_key(node),
        Some(None) => states.contains_key(node) && !states[node].contains_key(key),
        Some(Some(text)) => states.contains_key(node) && states[node].contains_key(key) && text@
            == states[node][key],
    }
}

/// The states that the node `me` can look up. Nodes send each other the IP address and the port of
/// an address and no more, so this is what others are known by; a node whose address holds more is
/// found only where it is `me`, by what the [`Chitchat`] holds of itself.
pub open spec fn states_known_to(chitchat: Chitchat, me: NodeIdView) -> Map<
    NodeIdView,
    Map<Seq<char>, Seq<char>>,
> {
    let states = node_states(chitchat);
    let own = own_node(chitchat);
    Map::new(
        |node: NodeIdView|
            if node.gossip_public_address.is_plain() {
                states.contains_key(node)
            } else {
                node == me && states.contains_key(own)
            },
        |node: NodeIdView|
            if node.gossip_public_address.is_plain() {
                states[node]
            } else {
                states[own]
            },
    )
}

/// Looks up what the node `me` knows of the state of `node` under a key.
pub(crate) fn known_value(chitchat: &Chitchat, me: &NodeId, node: &NodeId, key: &str) -> (value:
    Option<Option<String>>)
    ensures
        is_value_in(states_known_to(*chitchat, me@), node@, key@, value),
{
    if node.gossip_public_address.is_plain() {
        node_value(chitchat, node, key)
    } else if node.id == me.id && node.gossip_public_address == me.gossip_public_address {
        own_value(chitchat, key)
    } else {
        None
    }
}

/// A node with nothing but an IP address and a port is known by the state that the gossip holds
/// of it, and so is `me` by what it holds of itself.
pub proof fn known_states_are_those_of_the_gossip(
    chitchat: Chitchat,
    me: NodeIdView,
    node: NodeIdView,
)
    ensures
        node.gossip_public_address.is_plain() ==> {
            &&& states_known_to(chitchat, me).contains_key(node) <==> node_states(
                chitchat,
            ).contains_key(node)
            &&& node_states(chitchat).contains_key(node) ==> states_known_to(chitchat, me)[node]
                == node_states(chitchat)[node]
        },
        node == me && !node.gossip_public_address.is_plain() ==> {
            &&& states_known_to(chitchat, me).contains_key(node) <==> node_states(
                chitchat,
            ).contains_key(own_node(chitchat))
            &&& node_states(chitchat).contains_key(own_node(chitchat)) ==> states_known_to(
                chitchat,
                me,
            )[node] == node_states(chitchat)[own_node(chitchat)]
        },
        node != me && !node.gossip_public_address.is_plain() ==> !states_known_to(
            chitchat,
            me,
        ).contains_key(node),
{
}

/// A value that is found is the one that the state holds, and one is found exactly where the state
/// holds one.
pub proof fn found_value_is_the_one_held(
    states: Map<NodeIdView, Map<Seq<char>, Seq<char>>>,
    node: NodeIdView,
    key: Seq<char>,
    value: Option<Option<String>>,
)
    requires
        is_value_in(states, node, key, value),
    ensures
        value is Some <==> states.contains_key(node),
        states.contains_key(node) ==> (value->0 is Some <==> states[node].contains_key(key)),
        value is Some && value->0 is Some ==> value->0->0@ == states[node][key],
{
}

/// A node knows all states where it gossips under its own identifier and no other node has an
/// address with flow information or a scope.
pub proof fn all_states_are_known(chitchat: Chitchat, me: NodeIdView)
    requires
        own_node(chitchat) == me,
        forall|node: NodeIdView| #[trigger]
            node_states(chitchat).contains_key(node) ==> node == me
                || node.gossip_public_address.is_plain(),
    ensures
        states_known_to(chitchat, me) == node_states(chitchat),
{
    assert(states_known_to(chitchat, me) =~= node_states(chitchat));
}

} // verus!
