//! Members of the cluster and the identifiers under which they gossip.

use crate::address::SocketAddr;
use crate::text::{parse_decimal, split_text_once, to_decimal, ParseDecimalError};
use vstd::prelude::*;

verus! {

/// A member information.
#[derive(Debug, PartialEq)]
pub struct Member {
    /// An ID that makes a member unique.
    pub node_unique_id: String,
    /// Timestamp (ms) when the node started.
    pub generation: u64,
    /// Advertised gossip address.
    pub gossip_public_address: SocketAddr,
    /// If true, it means self.
    pub is_self: bool,
}

impl Clone for Member {
    fn clone(&self) -> (member: Self)
        ensures
            member == *self,
    {
        Self {
            node_unique_id: self.node_unique_id.clone(),
            generation: self.generation,
            gossip_public_address: self.gossip_public_address,
            is_self: self.is_self,
        }
    }
}

/// What a [`Member`] is, with its text as characters.
pub struct MemberView {
    pub node_unique_id: Seq<char>,
    pub generation: u64,
    pub gossip_public_address: SocketAddr,
    pub is_self: bool,
}

impl View for Member {
    type V = MemberView;

    open spec fn view(&self) -> MemberView {
        MemberView {
            node_unique_id: self.node_unique_id@,
            generation: self.generation,
            gossip_public_address: self.gossip_public_address,
            is_self: self.is_self,
        }
    }
}

/// The identifier of a node in the gossip: a text, and the address that its peers use.
#[derive(Debug, PartialEq)]
pub struct NodeId {
    pub id: String,
    pub gossip_public_address: SocketAddr,
}

impl Clone for NodeId {
    fn clone(&self) -> (node_id: Self)
        ensures
            node_id == *self,
    {
        Self { id: self.id.clone(), gossip_public_address: self.gossip_public_address }
    }
}

/// What a [`NodeId`] is, with its text as characters.
pub struct NodeIdView {
    pub id: Seq<char>,
    pub gossip_public_address: SocketAddr,
}

impl View for NodeId {
    type V = NodeIdView;

    open spec fn view(&self) -> NodeIdView {
        NodeIdView { id: self.id@, gossip_public_address: self.gossip_public_address }
    }
}

/// Why a node identifier is not that of a member.
#[derive(Debug, PartialEq)]
pub enum MemberError {
    /// No `/` parts the unique ID from the generation.
    MissingSeparator { node_id: String },
    /// What stands behind the first `/` is not a number.
    InvalidGeneration { error: ParseDecimalError },
}

/// What a [`MemberError`] is, with its text as characters.
pub enum MemberErrorView {
    MissingSeparator { node_id: Seq<char> },
    InvalidGeneration { error: ParseDecimalError },
}

impl View for MemberError {
    type V = MemberErrorView;

    open spec fn view(&self) -> MemberErrorView {
        match *self {
            MemberError::MissingSeparator { node_id } => MemberErrorView::MissingSeparator {
                node_id: node_id@,
            },
            MemberError::InvalidGeneration { error } => MemberErrorView::InvalidGeneration {
                error,
            },
        }
    }
}

impl MemberErrorView {
    /// What is said of the error.
    pub open spec fn text(self) -> Seq<char> {
        match self {
            MemberErrorView::MissingSeparator { node_id } =>
                "Could not create a Member instance from NodeId `"@ + node_id + "`"@,
            MemberErrorView::InvalidGeneration { error } => error.text(),
        }
    }
}

impl MemberError {
    /// What is said of the error.
    pub fn message(&self) -> (message: String)
        ensures
            message@ == self@.text(),
            match *self {
                MemberError::MissingSeparator { node_id } => message@
                    == "Could not create a Member instance from NodeId `"@ + node_id@ + "`"@,
                MemberError::InvalidGeneration { error } => message@ == error.text(),
            },
    {
        match self {
            MemberError::MissingSeparator { node_id } =>
                "Could not create a Member instance from NodeId `".to_owned().concat(
                node_id.as_str(),
            ).concat("`"),
            MemberError::InvalidGeneration { error } => error.message().to_owned(),
        }
    }
}

impl MemberView {
    /// The unique ID, a `/` and the generation.
    pub open spec fn internal_id(self) -> Seq<char> {
        self.node_unique_id + seq!['/'] + crate::text::decimal(self.generation as nat)
    }

    /// The identifier under which the member gossips.
    pub open spec fn node_id(self) -> NodeIdView {
        NodeIdView { id: self.internal_id(), gossip_public_address: self.gossip_public_address }
    }
}

/// The member that gossips under `node`: its identifier is cut at the first `/`, and what stands
/// behind is its generation. It is never this node itself.
pub open spec fn member_of(node: NodeIdView) -> Result<MemberView, MemberErrorView> {
    match crate::text::split_once(node.id, '/') {
        None => Err(MemberErrorView::MissingSeparator { node_id: node.id }),
        Some((node_unique_id, generation)) => match crate::text::decimal_value(generation) {
            Err(error) => Err(MemberErrorView::InvalidGeneration { error }),
            Ok(generation) => Ok(
                MemberView {
                    node_unique_id,
                    generation: generation as u64,
                    gossip_public_address: node.gossip_public_address,
                    is_self: false,
                },
            ),
        },
    }
}

impl Member {
    pub fn new(
        node_unique_id: String,
        generation: u64,
        gossip_public_address: SocketAddr,
    ) -> (member: Self)
        ensures
            member@ == (MemberView {
                node_unique_id: node_unique_id@,
                generation,
                gossip_public_address,
                is_self: true,
            }),
            member.node_unique_id@ == node_unique_id@,
            member.generation == generation,
            member.gossip_public_address == gossip_public_address,
            member.is_self,
    {
        Self { node_unique_id, gossip_public_address, generation, is_self: true }
    }

    /// The unique ID, a `/` and the generation.
    pub fn internal_id(&self) -> (id: String)
        ensures
            id@ == self@.internal_id(),
            id@ == self.node_unique_id@ + seq!['/'] + crate::text::decimal(self.generation as nat),
    {
        proof {
            reveal_strlit("/");
            assert("/"@ =~= seq!['/']);
        }
        self.node_unique_id.clone().concat("/").concat(to_decimal(self.generation).as_str())
    }
}

impl vstd::std_specs::convert::TryFromSpecImpl<NodeId> for Member {
    /// What `try_from` returns is stated at `try_from`, over the views.
    open spec fn obeys_try_from_spec() -> bool {
        false
    }

    open spec fn try_from_spec(node_id: NodeId) -> Result<Self, MemberError> {
        arbitrary()
    }
}

impl TryFrom<NodeId> for Member {
    type Error = MemberError;

    fn try_from(node_id: NodeId) -> (member: Result<Self, MemberError>)
        ensures
            match member {
                Ok(m) => member_of(node_id@) == Ok::<MemberView, MemberErrorView>(m@),
                Err(e) => member_of(node_id@) == Err::<MemberView, MemberErrorView>(e@),
            },
            match member {
                Ok(m) => {
                    &&& m.gossip_public_address == node_id.gossip_public_address
                    &&& !m.is_self
                    &&& !m.node_unique_id@.contains('/')
                    &&& node_id.id@.len() > m.node_unique_id@.len()
                    &&& node_id.id@.take(m.node_unique_id@.len() as int) == m.node_unique_id@
                    &&& node_id.id@[m.node_unique_id@.len() as int] == '/'
                    &&& crate::text::decimal_value(
                        node_id.id@.skip((m.node_unique_id@.len() + 1) as int),
                    ) == Ok::<nat, ParseDecimalError>(m.generation as nat)
                },
                Err(MemberError::MissingSeparator { node_id: text }) => text@ == node_id.id@
                    && !node_id.id@.contains('/'),
                Err(MemberError::InvalidGeneration { error }) => exists|cut: int|
                    0 <= cut < node_id.id@.len() && !node_id.id@.take(cut).contains('/')
                        && #[trigger] node_id.id@[cut] == '/' && crate::text::decimal_value(
                        node_id.id@.skip(cut + 1),
                    ) == Err::<nat, ParseDecimalError>(error),
            },
    {
        proof {
            member_is_read_out_of_its_identifier(node_id@);
        }
        match split_text_once(node_id.id.as_str(), '/') {
            None => Err(MemberError::MissingSeparator { node_id: node_id.id }),
            Some((node_unique_id, generation)) => match parse_decimal(generation.as_str()) {
                Err(error) => Err(MemberError::InvalidGeneration { error }),
                Ok(generation) => Ok(
                    Self {
                        node_unique_id,
                        generation,
                        gossip_public_address: node_id.gossip_public_address,
                        is_self: false,
                    },
                ),
            },
        }
    }
}

impl vstd::std_specs::convert::FromSpecImpl<Member> for NodeId {
    /// What `from` returns is stated at `from`, over the views.
    open spec fn obeys_from_spec() -> bool {
        false
    }

    open spec fn from_spec(member: Member) -> Self {
        arbitrary()
    }
}

impl From<Member> for NodeId {
    fn from(member: Member) -> (node_id: Self)
        ensures
            node_id@ == member@.node_id(),
            node_id.id@ == member.node_unique_id@ + seq!['/'] + crate::text::decimal(
                member.generation as nat,
            ),
            node_id.gossip_public_address == member.gossip_public_address,
    {
        NodeId {
            id: member.internal_id(),
            gossip_public_address: member.gossip_public_address,
        }
    }
}

/// A member is read out of an identifier by the first `/`: what stands before is its unique ID,
/// what stands behind the decimal form of its generation. An identifier without `/`, or with
/// anything else behind it, is refused with the reason.
pub proof fn member_is_read_out_of_its_identifier(node: NodeIdView) -> (cut: int)
    ensures
        match member_of(node) {
            Ok(member) => {
                &&& member.gossip_public_address == node.gossip_public_address
                &&& !member.is_self
                &&& cut == member.node_unique_id.len()
                &&& 0 <= cut < node.id.len()
                &&& node.id.take(cut) == member.node_unique_id
                &&& !node.id.take(cut).contains('/')
                &&& node.id[cut] == '/'
                &&& crate::text::decimal_value(node.id.skip(cut + 1)) == Ok::<
                    nat,
                    ParseDecimalError,
                >(member.generation as nat)
            },
            Err(MemberErrorView::MissingSeparator { node_id }) => node_id == node.id
                && !node.id.contains('/'),
            Err(MemberErrorView::InvalidGeneration { error }) => {
                &&& 0 <= cut < node.id.len()
                &&& !node.id.take(cut).contains('/')
                &&& node.id[cut] == '/'
                &&& crate::text::decimal_value(node.id.skip(cut + 1)) == Err::<
                    nat,
                    ParseDecimalError,
                >(error)
            },
        },
{
    crate::text::split_once_cuts_at_the_first(node.id, '/');
    match crate::text::split_once(node.id, '/') {
        None => 0,
        Some((head, tail)) => {
            let cut = head.len() as int;
            assert(node.id.take(cut) =~= head);
            assert(node.id.skip(cut + 1) =~= tail);
            crate::text::decimal_value_fits(tail);
            cut
        },
    }
}

/// A member gossips under its unique ID, a `/` and its generation, at its own address; and what is
/// said of members and identifiers is said of what they hold.
pub proof fn member_gossips_under_what_it_holds(member: Member, node: NodeId)
    ensures
        member@.node_id().id == member.node_unique_id@ + seq!['/'] + crate::text::decimal(
            member.generation as nat,
        ),
        member@.internal_id() == member@.node_id().id,
        member@.node_id().gossip_public_address == member.gossip_public_address,
        member@.node_unique_id == member.node_unique_id@,
        member@.generation == member.generation,
        member@.gossip_public_address == member.gossip_public_address,
        member@.is_self == member.is_self,
        node@.id == node.id@,
        node@.gossip_public_address == node.gossip_public_address,
{
}

/// A member whose unique ID holds no `/` gossips under an identifier that its peers read back as
/// the same member, only that to them it is not self.
pub proof fn member_survives_gossip(member: MemberView)
    requires
        !member.node_unique_id.contains('/'),
    ensures
        member_of(member.node_id()) == Ok::<MemberView, MemberErrorView>(
            MemberView { is_self: false, ..member },
        ),
{
    let id = member.internal_id();
    let n = member.node_unique_id.len() as int;
    let generation = crate::text::decimal(member.generation as nat);
    assert(forall|j: int| 0 <= j < n ==> id[j] == member.node_unique_id[j]);
    assert(forall|j: int| 0 <= j < n ==> member.node_unique_id[j] != '/');
    assert(id[n] == '/');
    crate::text::split_once_at(id, '/', n);
    assert(id.take(n) =~= member.node_unique_id);
    assert(id.skip(n + 1) =~= generation);
    crate::text::decimal_reads_back(member.generation);
}

/// A member whose unique ID holds a `/` is no member to its peers: they take what stands behind
/// the first `/` for its generation.
pub proof fn member_with_slash_is_refused(member: MemberView)
    requires
        member.node_unique_id.contains('/'),
    ensures
        member_of(member.node_id()) matches Err(MemberErrorView::InvalidGeneration { .. }),
{
    let id = member.internal_id();
    let n = member.node_unique_id.len() as int;
    member.node_unique_id.index_of_first_ensures('/');
    let i = member.node_unique_id.index_of_first('/')->0;
    assert(forall|j: int| 0 <= j < n ==> id[j] == member.node_unique_id[j]);
    crate::text::split_once_at(id, '/', i);
    let generation = id.skip(i + 1);
    assert(id[n] == '/');
    assert(generation[n - i - 1] == '/');
    crate::text::decimal_value_is_digits(generation);
    if crate::text::decimal_value(generation) is Ok {
        let digits = crate::text::without_sign(generation);
        let at = if generation[0] == '+' { n - i - 2 } else { n - i - 1 };
        assert(digits[at] == '/');
        assert(false);
    }
}

/// The internal ID tells members apart: two that share it have the same unique ID and generation.
pub proof fn internal_id_is_unique(a: MemberView, b: MemberView)
    requires
        a.internal_id() == b.internal_id(),
    ensures
        a.node_unique_id == b.node_unique_id,
        a.generation == b.generation,
    decreases a.node_unique_id.len(),
{
    if a.node_unique_id.len() > b.node_unique_id.len() {
        internal_id_is_unique(b, a);
    } else {
        let n = a.node_unique_id.len() as int;
        let m = b.node_unique_id.len() as int;
        let x = crate::text::decimal(a.generation as nat);
        let y = crate::text::decimal(b.generation as nat);
        crate::text::decimal_is_digits(a.generation as nat);
        crate::text::decimal_is_digits(b.generation as nat);
        assert(a.internal_id().len() == n + 1 + x.len());
        assert(b.internal_id().len() == m + 1 + y.len());
        if n < m {
            assert(a.internal_id()[m] == x[m - n - 1]);
            assert(b.internal_id()[m] == '/');
            assert(crate::text::is_digit(x[m - n - 1]));
        }
        assert(n == m);
        assert(a.internal_id().take(n) =~= a.node_unique_id);
        assert(b.internal_id().take(n) =~= b.node_unique_id);
        assert(a.internal_id().skip(n + 1) =~= x);
        assert(b.internal_id().skip(n + 1) =~= y);
        crate::text::decimal_reads_back(a.generation);
        crate::text::decimal_reads_back(b.generation);
    }
}

} // verus!
