//! Vertices, the forest that owns them, and the operations on parent links.

use crate::identity::NodeId;
use vstd::prelude::*;
use vstd::std_specs::cmp::PartialEqSpec;

verus! {

/// A handle to a vertex of a [`Forest`].
///
/// Handles are small and freely copied: every edge that names a vertex holds one,
/// and all of them see the same parent link. Two handles denote the same vertex
/// when their identities are equal; the slot they point at plays no part in that.
#[derive(Clone, Copy, Debug)]
pub struct NodeRef {
    /// The slot of the vertex in the forest that issued the handle.
    pub index: usize,
}

/// A vertex of a one-way graph: it knows its identity and, at most, one parent.
#[derive(Clone, Debug)]
pub struct Node<A> {
    /// The identity of the vertex.
    pub id: NodeId<A>,
    /// The parent link.
    pub parent: Option<NodeRef>,
}

impl<A: PartialEq> PartialEq for Node<A> {
    /// Vertices are compared by identity alone. The parent link is left out on
    /// purpose: parent chains may be long or cyclic, and equality must not follow
    /// them.
    fn eq(&self, other: &Node<A>) -> (r: bool) {
        self.id == other.id
    }
}

impl<A: PartialEq> vstd::std_specs::cmp::PartialEqSpecImpl for Node<A> {
    open spec fn obeys_eq_spec() -> bool {
        A::obeys_eq_spec()
    }

    open spec fn eq_spec(&self, other: &Node<A>) -> bool {
        self.id.same_as(&other.id)
    }
}

impl<A: PartialEq> Eq for Node<A> {}

/// Whether two vertices are equal is a matter of their identities alone: the
/// parent links may differ in any way. Two vertices of one principal, equal to
/// itself, and one role are equal.
pub proof fn lemma_equality_ignores_parent<A: PartialEq>(
    a: NodeId<A>,
    b: NodeId<A>,
    parent_of_a: Option<NodeRef>,
    parent_of_b: Option<NodeRef>,
)
    ensures
        PartialEqSpec::eq_spec(
            &(Node { id: a, parent: parent_of_a }),
            &(Node { id: b, parent: parent_of_b }),
        ) == a.same_as(&b),
        a.who.eq_spec(&b.who) && a.role == b.role ==> PartialEqSpec::eq_spec(
            &(Node { id: a, parent: parent_of_a }),
            &(Node { id: b, parent: parent_of_b }),
        ),
{
}

/// The owner of a set of vertices.
///
/// Vertices are never removed, so a handle stays valid for as long as the forest
/// lives. The parent relation is not restricted: a vertex may be its own parent,
/// and parent chains may run in circles.
pub struct Forest<A> {
    nodes: Vec<Node<A>>,
}

impl<A> View for Forest<A> {
    type V = Seq<Node<A>>;

    /// The vertices in the order in which they entered the forest.
    closed spec fn view(&self) -> Seq<Node<A>> {
        self.nodes@
    }
}

impl<A> Forest<A> {
    /// Whether `r` is a handle to a vertex of this forest.
    pub open spec fn contains(&self, r: NodeRef) -> bool {
        r.index < self@.len()
    }

    /// The vertex behind a handle.
    pub open spec fn at(&self, r: NodeRef) -> Node<A> {
        self@[r.index as int]
    }

    /// Whether the vertices behind `a` and `b` have equal identities, as `==`
    /// between the two vertices decides it, with `a` on the left.
    pub open spec fn same_identity(&self, a: NodeRef, b: NodeRef) -> bool where A: PartialEq {
        self.at(a).id.same_as(&self.at(b).id)
    }

    /// Every parent link leads to a vertex of this forest.
    pub open spec fn wf(&self) -> bool {
        forall|i: int|
            0 <= i < self@.len() ==> match (#[trigger] self@[i]).parent {
                Some(p) => self.contains(p),
                None => true,
            }
    }

    /// The vertices of `self` with the parent link of `who` replaced.
    pub open spec fn with_parent(&self, who: NodeRef, parent: Option<NodeRef>) -> Seq<Node<A>> {
        self@.update(who.index as int, Node { id: self.at(who).id, parent })
    }

    /// A forest without vertices.
    pub fn new() -> (forest: Self)
        ensures
            forest@ == Seq::<Node<A>>::empty(),
            forest.wf(),
    {
        Forest { nodes: Vec::new() }
    }

    /// The number of vertices.
    pub fn len(&self) -> (n: usize)
        ensures
            n == self@.len(),
    {
        self.nodes.len()
    }

    /// The vertex behind a handle.
    pub fn node(&self, r: NodeRef) -> (node: &Node<A>)
        requires
            self.contains(r),
        ensures
            *node == self.at(r),
    {
        &self.nodes[r.index]
    }
}

impl<A: PartialEq> Node<A> {
    /// A vertex with the given identity and no parent.
    pub fn new(id: NodeId<A>) -> (node: Node<A>)
        ensures
            node == (Node { id, parent: None }),
    {
        Node { id, parent: None }
    }

    /// Whether `other` is the parent of `who`: whether `who` has a parent that
    /// carries the identity of `other`.
    pub fn is_parent_of(forest: &Forest<A>, who: NodeRef, other: NodeRef) -> (r: bool)
        requires
            forest.wf(),
            forest.contains(who),
            forest.contains(other),
        ensures
            forest.at(who).parent is None ==> !r,
            A::obeys_eq_spec() ==> r == match forest.at(who).parent {
                Some(parent) => forest.same_identity(parent, other),
                None => false,
            },
    {
        match forest.nodes[who.index].parent {
            Some(parent) => forest.nodes[parent.index] == forest.nodes[other.index],
            None => false,
        }
    }

    /// Removes the parent link of `who`.
    pub fn remove_parent(forest: &mut Forest<A>, who: NodeRef)
        requires
            old(forest).wf(),
            old(forest).contains(who),
        ensures
            final(forest)@ == old(forest).with_parent(who, None),
            final(forest).wf(),
    {
        forest.nodes[who.index].parent = None;
    }

    /// Makes `parent` the parent of `who`, whatever parent `who` had before.
    pub fn set_parent_of(forest: &mut Forest<A>, who: NodeRef, parent: NodeRef)
        requires
            old(forest).wf(),
            old(forest).contains(who),
            old(forest).contains(parent),
        ensures
            final(forest)@ == old(forest).with_parent(who, Some(parent)),
            final(forest).wf(),
    {
        forest.nodes[who.index].parent = Some(parent);
    }

    /// Finds the root of `start`: walks from `start` to its parent, from there to
    /// that vertex's parent, and so on, until it stands on a vertex without a
    /// parent, or on one whose parent carries the identity of `start`.
    ///
    /// Returns the vertex on which the walk ended, and the vertices that it
    /// passed, `start` first and the root last. A walk that ended because the
    /// chain came back to `start` reports the vertex before the closing link as
    /// its root, and does not list `start` a second time.
    ///
    /// The walk watches for the identity of `start` only. It must come to an
    /// end ([`Forest::has_ascent`]), as it does along a chain that ends in a
    /// vertex without a parent ([`Forest::lemma_root_of_chain`]) and along one
    /// that closes on `start` ([`Forest::lemma_root_of_cycle`]). A chain that
    /// runs into a circle which `start` is not part of has no root. Where that
    /// cannot be ruled out, use [`Node::try_root`].
    pub fn root(forest: &Forest<A>, start: NodeRef) -> (r: (NodeRef, Vec<NodeRef>))
        requires
            forest.wf(),
            forest.contains(start),
            A::obeys_eq_spec(),
            forest.has_ascent(start),
        ensures
            (r.0, r.1@) == forest.root_of(start),
            forest.is_ascent(start, r.1@),
    {
        let mut parent_path: Vec<NodeRef> = Vec::new();
        parent_path.push(start);
        let mut current = start;
        loop
            invariant
                forest.wf(),
                forest.contains(start),
                A::obeys_eq_spec(),
                forest.has_ascent(start),
                forest.is_climb(start, parent_path@),
                current == parent_path@.last(),
                forest.contains(current),
            ensures
                forest.step(start, current) is None,
            decreases forest.ascent(start).len() - parent_path@.len(),
        {
            match forest.nodes[current.index].parent {
                None => {
                    break ;
                },
                Some(next) => {
                    if forest.nodes[start.index] == forest.nodes[next.index] {
                        break ;
                    }
                    proof {
                        let longer = parent_path@.push(next);
                        forest.lemma_climb_extends(start, parent_path@, next);
                        forest.lemma_climb_begins_ascent(
                            start,
                            longer,
                            forest.ascent(start),
                            longer.len() - 1,
                        );
                    }
                    parent_path.push(next);
                    current = next;
                },
            }
        }
        proof {
            forest.lemma_ascent_known(start, parent_path@);
        }
        (current, parent_path)
    }

    /// Finds the root of `start` as [`Node::root`] does, on any forest: where the
    /// walk from `start` never ends, it says so instead.
    ///
    /// An ascent passes no vertex twice, so a walk that has made as many steps as
    /// the forest has vertices is caught in a circle.
    pub fn try_root(forest: &Forest<A>, start: NodeRef) -> (r: Option<(NodeRef, Vec<NodeRef>)>)
        requires
            forest.wf(),
            forest.contains(start),
        ensures
            A::obeys_eq_spec() ==> match r {
                Some(found) => forest.has_ascent(start) && (found.0, found.1@) == forest.root_of(
                    start,
                ),
                None => !forest.has_ascent(start),
            },
    {
        let limit: usize = forest.nodes.len();
        let mut parent_path: Vec<NodeRef> = Vec::new();
        parent_path.push(start);
        let mut current = start;
        loop
            invariant
                forest.wf(),
                forest.contains(start),
                limit == forest@.len(),
                A::obeys_eq_spec() ==> forest.is_climb(start, parent_path@),
                0 < parent_path@.len() <= limit,
                current == parent_path@.last(),
                forest.contains(current),
            decreases limit - parent_path@.len(),
        {
            match forest.nodes[current.index].parent {
                None => {
                    proof {
                        if A::obeys_eq_spec() {
                            forest.lemma_ascent_known(start, parent_path@);
                        }
                    }
                    return Some((current, parent_path));
                },
                Some(next) => {
                    if forest.nodes[start.index] == forest.nodes[next.index] {
                        proof {
                            if A::obeys_eq_spec() {
                                forest.lemma_ascent_known(start, parent_path@);
                            }
                        }
                        return Some((current, parent_path));
                    }
                    if parent_path.len() == limit {
                        proof {
                            if A::obeys_eq_spec() && forest.has_ascent(start) {
                                let longer = parent_path@.push(next);
                                let whole = forest.ascent(start);
                                forest.lemma_climb_extends(start, parent_path@, next);
                                forest.lemma_climb_begins_ascent(start, longer, whole, limit as int);
                                forest.lemma_ascent_bounded(start, whole);
                            }
                        }
                        return None;
                    }
                    proof {
                        if A::obeys_eq_spec() {
                            forest.lemma_climb_extends(start, parent_path@, next);
                        }
                    }
                    parent_path.push(next);
                    current = next;
                },
            }
        }
    }

    /// Moves the vertex into `forest` and returns the handle under which it lives
    /// there from now on.
    pub fn into_ref(self, forest: &mut Forest<A>) -> (r: NodeRef)
        requires
            old(forest).wf(),
            match self.parent {
                Some(p) => old(forest).contains(p),
                None => true,
            },
        ensures
            final(forest)@ == old(forest)@.push(self),
            r.index == old(forest)@.len(),
            final(forest).wf(),
    {
        let index: usize = forest.nodes.len();
        forest.nodes.push(self);
        NodeRef { index }
    }
}

} // verus!
