//! Vertex identities: a principal together with the role it plays.

use std::cmp::Ordering;
use vstd::prelude::*;
use vstd::std_specs::cmp::PartialEqSpec;
use vstd::std_specs::cmp::PartialOrdSpec;

verus! {

/// The role that a vertex plays in the support graph.
#[derive(PartialEq, Eq, Structural, Ord, Clone, Copy, Debug)]
pub enum NodeRole {
    /// A voter: the party that distributes its stake.
    Voter,
    /// A target: a candidate that receives support.
    Target,
}

impl NodeRole {
    /// The place of a role in the order of roles: voters come before targets.
    pub open spec fn rank(&self) -> int {
        match self {
            NodeRole::Voter => 0,
            NodeRole::Target => 1,
        }
    }
}

impl PartialOrd for NodeRole {
    fn partial_cmp(&self, other: &NodeRole) -> (r: Option<Ordering>) {
        match (self, other) {
            (NodeRole::Voter, NodeRole::Target) => Some(Ordering::Less),
            (NodeRole::Target, NodeRole::Voter) => Some(Ordering::Greater),
            _ => Some(Ordering::Equal),
        }
    }
}

impl vstd::std_specs::cmp::PartialOrdSpecImpl for NodeRole {
    open spec fn obeys_partial_cmp_spec() -> bool {
        true
    }

    open spec fn partial_cmp_spec(&self, other: &NodeRole) -> Option<Ordering> {
        if self.rank() < other.rank() {
            Some(Ordering::Less)
        } else if self.rank() > other.rank() {
            Some(Ordering::Greater)
        } else {
            Some(Ordering::Equal)
        }
    }
}

/// The identity of a vertex.
///
/// One principal may vote for itself, and then appears twice in the graph: once
/// as a voter and once as a target. The role keeps the two vertices apart.
#[derive(Ord, Clone, Debug)]
pub struct NodeId<A> {
    /// The account-like identifier of the principal.
    pub who: A,
    /// The role in which the principal appears.
    pub role: NodeRole,
}

impl<A> NodeId<A> {
    /// Builds the identity of the vertex that `who` occupies in the given role.
    pub fn from(who: A, role: NodeRole) -> (id: Self)
        ensures
            id == (NodeId { who, role }),
    {
        NodeId { who, role }
    }
}

impl<A: PartialEq> NodeId<A> {
    /// Two identities are the same when `==` finds the principals equal and the
    /// roles are the same.
    pub open spec fn same_as(&self, other: &NodeId<A>) -> bool {
        self.who.eq_spec(&other.who) && self.role == other.role
    }
}

impl<A: PartialEq> PartialEq for NodeId<A> {
    fn eq(&self, other: &NodeId<A>) -> (r: bool) {
        self.who == other.who && self.role == other.role
    }
}

impl<A: PartialEq> vstd::std_specs::cmp::PartialEqSpecImpl for NodeId<A> {
    open spec fn obeys_eq_spec() -> bool {
        A::obeys_eq_spec()
    }

    open spec fn eq_spec(&self, other: &NodeId<A>) -> bool {
        self.same_as(other)
    }
}

impl<A: PartialEq> Eq for NodeId<A> {}

impl<A: PartialOrd> NodeId<A> {
    /// How two identities compare: by principal first, and by role where the
    /// principals are equal.
    pub open spec fn compared_to(&self, other: &NodeId<A>) -> Option<Ordering> {
        match self.who.partial_cmp_spec(&other.who) {
            Some(Ordering::Equal) => self.role.partial_cmp_spec(&other.role),
            unequal => unequal,
        }
    }
}

impl<A: PartialOrd> PartialOrd for NodeId<A> {
    fn partial_cmp(&self, other: &NodeId<A>) -> (r: Option<Ordering>) {
        match self.who.partial_cmp(&other.who) {
            Some(Ordering::Equal) => self.role.partial_cmp(&other.role),
            unequal => unequal,
        }
    }
}

impl<A: PartialOrd> vstd::std_specs::cmp::PartialOrdSpecImpl for NodeId<A> {
    open spec fn obeys_partial_cmp_spec() -> bool {
        A::obeys_partial_cmp_spec()
    }

    open spec fn partial_cmp_spec(&self, other: &NodeId<A>) -> Option<Ordering> {
        self.compared_to(other)
    }
}

/// A principal that votes and a principal that stands are never the same
/// vertex, even where they are one principal: the roles tell them apart.
pub proof fn lemma_roles_tell_apart<A: PartialEq>(voter: A, target: A)
    ensures
        !(NodeId { who: voter, role: NodeRole::Voter }).same_as(
            &(NodeId { who: target, role: NodeRole::Target }),
        ),
        !PartialEqSpec::eq_spec(
            &(NodeId { who: voter, role: NodeRole::Voter }),
            &(NodeId { who: target, role: NodeRole::Target }),
        ),
{
}

/// Where the order of the principals agrees with their equality, the order of
/// identities agrees with the equality of identities.
pub proof fn lemma_order_agrees_with_equality<A: PartialOrd>(a: NodeId<A>, b: NodeId<A>)
    requires
        (a.who.partial_cmp_spec(&b.who) == Some(Ordering::Equal)) == a.who.eq_spec(&b.who),
    ensures
        (a.compared_to(&b) == Some(Ordering::Equal)) == a.same_as(&b),
{
}

/// Voters are ordered before targets, and each role is level with itself.
pub proof fn lemma_voter_before_target()
    ensures
        PartialOrdSpec::partial_cmp_spec(&NodeRole::Voter, &NodeRole::Target) == Some(
            Ordering::Less,
        ),
        PartialOrdSpec::partial_cmp_spec(&NodeRole::Target, &NodeRole::Voter) == Some(
            Ordering::Greater,
        ),
        forall|role: NodeRole| PartialOrdSpec::partial_cmp_spec(&role, &role) == Some(Ordering::Equal),
{
}

} // verus!
