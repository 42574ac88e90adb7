//! The walk from a vertex up its parent chain, stated as mathematics.
//!
//! The walk that begins at `start` moves from a vertex to its parent for as long
//! as there is a parent and that parent does not carry the identity of `start`.
//! A walk that comes to an end is an *ascent*; its last vertex is the root that
//! the walk reports.

use crate::node::Forest;
use crate::node::NodeRef;
use vstd::prelude::*;
use vstd::set_lib::lemma_int_range;
use vstd::set_lib::lemma_len_subset;
use vstd::set_lib::set_int_range;

verus! {

impl<A: PartialEq> Forest<A> {
    /// Where the walk that began at `start` goes after `at`: to the parent of
    /// `at`, unless there is none or it carries the identity of `start`.
    pub open spec fn step(&self, start: NodeRef, at: NodeRef) -> Option<NodeRef> {
        match self.at(at).parent {
            Some(next) => if self.same_identity(start, next) {
                None
            } else {
                Some(next)
            },
            None => None,
        }
    }

    /// The walk that began at `start` goes from `path[i]` to `path[i + 1]`.
    pub open spec fn steps_at(&self, start: NodeRef, path: Seq<NodeRef>, i: int) -> bool {
        self.step(start, path[i]) == Some(path[i + 1])
    }

    /// `path` is a beginning of the walk from `start`: it opens with `start`, and
    /// each further vertex is the one that the walk goes to next.
    pub open spec fn is_climb(&self, start: NodeRef, path: Seq<NodeRef>) -> bool {
        &&& path.len() > 0
        &&& path[0] == start
        &&& forall|i: int| 0 <= i < path.len() - 1 ==> #[trigger] self.steps_at(start, path, i)
    }

    /// `path` is the whole walk from `start`: a climb that goes no further.
    pub open spec fn is_ascent(&self, start: NodeRef, path: Seq<NodeRef>) -> bool {
        &&& self.is_climb(start, path)
        &&& self.step(start, path.last()) is None
    }

    /// The walk from `start` comes to an end.
    pub open spec fn has_ascent(&self, start: NodeRef) -> bool {
        exists|path: Seq<NodeRef>| self.is_ascent(start, path)
    }

    /// The walk from `start`, where it comes to an end.
    pub open spec fn ascent(&self, start: NodeRef) -> Seq<NodeRef> {
        choose|path: Seq<NodeRef>| self.is_ascent(start, path)
    }

    /// The vertex at which the walk from `start` ends, and the walk itself.
    pub open spec fn root_of(&self, start: NodeRef) -> (NodeRef, Seq<NodeRef>) {
        (self.ascent(start).last(), self.ascent(start))
    }

    /// A climb never leaves the forest.
    pub proof fn lemma_climb_contained(&self, start: NodeRef, path: Seq<NodeRef>, i: int)
        requires
            self.wf(),
            self.contains(start),
            self.is_climb(start, path),
            0 <= i < path.len(),
        ensures
            self.contains(path[i]),
        decreases i,
    {
        if i > 0 {
            self.lemma_climb_contained(start, path, i - 1);
            assert(self.steps_at(start, path, i - 1));
            assert(self@[path[i - 1].index as int].parent == Some(path[i]));
        }
    }

    /// A climb grows by the vertex that the walk goes to next.
    pub proof fn lemma_climb_extends(&self, start: NodeRef, path: Seq<NodeRef>, next: NodeRef)
        requires
            self.wf(),
            self.contains(start),
            self.is_climb(start, path),
            self.step(start, path.last()) == Some(next),
        ensures
            self.is_climb(start, path.push(next)),
            self.contains(next),
    {
        let longer = path.push(next);
        assert forall|i: int| 0 <= i < longer.len() - 1 implies self.steps_at(start, longer, i) by {
            if i < path.len() - 1 {
                assert(self.steps_at(start, path, i));
            }
        }
        self.lemma_climb_contained(start, longer, longer.len() - 1);
    }

    /// A climb is a beginning of the ascent, if there is one: the walk has no
    /// choice.
    pub proof fn lemma_climb_begins_ascent(
        &self,
        start: NodeRef,
        climb: Seq<NodeRef>,
        ascent: Seq<NodeRef>,
        i: int,
    )
        requires
            self.is_climb(start, climb),
            self.is_ascent(start, ascent),
            0 <= i < climb.len(),
        ensures
            i < ascent.len(),
            climb[i] == ascent[i],
        decreases i,
    {
        if i > 0 {
            self.lemma_climb_begins_ascent(start, climb, ascent, i - 1);
            assert(self.steps_at(start, climb, i - 1));
            if i - 1 < ascent.len() - 1 {
                assert(self.steps_at(start, ascent, i - 1));
            }
        }
    }

    /// There is at most one ascent from a vertex.
    pub proof fn lemma_ascent_unique(&self, start: NodeRef, p: Seq<NodeRef>, q: Seq<NodeRef>)
        requires
            self.is_ascent(start, p),
            self.is_ascent(start, q),
        ensures
            p == q,
    {
        self.lemma_climb_begins_ascent(start, p, q, p.len() - 1);
        self.lemma_climb_begins_ascent(start, q, p, q.len() - 1);
        assert forall|i: int| 0 <= i < p.len() implies p[i] == q[i] by {
            self.lemma_climb_begins_ascent(start, p, q, i);
        }
        assert(p =~= q);
    }

    /// In an ascent, a vertex that occurred once would occur again and again: if
    /// `path[i]` and `path[j]` are one vertex, so are the vertices that follow
    /// them at equal distances.
    proof fn lemma_repeat_recurs(&self, start: NodeRef, path: Seq<NodeRef>, i: int, j: int, k: int)
        requires
            self.is_ascent(start, path),
            0 <= i < j <= k < path.len(),
            path[i] == path[j],
        ensures
            path[k - (j - i)] == path[k],
        decreases k - j,
    {
        if k > j {
            self.lemma_repeat_recurs(start, path, i, j, k - 1);
            assert(self.steps_at(start, path, k - 1));
            assert(self.steps_at(start, path, k - 1 - (j - i)));
        }
    }

    /// An ascent passes no vertex twice.
    pub proof fn lemma_ascent_simple(&self, start: NodeRef, path: Seq<NodeRef>, i: int, j: int)
        requires
            self.is_ascent(start, path),
            0 <= i < j < path.len(),
        ensures
            path[i] != path[j],
    {
        if path[i] == path[j] {
            let last = path.len() - 1;
            self.lemma_repeat_recurs(start, path, i, j, last);
            assert(self.steps_at(start, path, last - (j - i)));
        }
    }

    /// An ascent is no longer than the forest is large.
    pub proof fn lemma_ascent_bounded(&self, start: NodeRef, path: Seq<NodeRef>)
        requires
            self.wf(),
            self.contains(start),
            self.is_ascent(start, path),
        ensures
            path.len() <= self@.len(),
    {
        let slots = path.map_values(|r: NodeRef| r.index as int);
        let all = set_int_range(0, self@.len() as int);
        assert forall|i: int, j: int| 0 <= i < j < slots.len() implies slots[i] != slots[j] by {
            self.lemma_ascent_simple(start, path, i, j);
        }
        slots.unique_seq_to_set();
        assert forall|slot: int| slots.to_set().contains(slot) implies all.contains(slot) by {
            let i = choose|i: int| 0 <= i < slots.len() && slots[i] == slot;
            self.lemma_climb_contained(start, path, i);
        }
        lemma_int_range(0, self@.len() as int);
        lemma_len_subset(slots.to_set(), all);
    }

    /// An ascent that is known is the ascent.
    pub proof fn lemma_ascent_known(&self, start: NodeRef, path: Seq<NodeRef>)
        requires
            self.is_ascent(start, path),
        ensures
            self.has_ascent(start),
            self.ascent(start) == path,
            self.root_of(start) == (path.last(), path),
    {
        self.lemma_ascent_unique(start, path, self.ascent(start));
    }

    /// A vertex without a parent is its own root, and the walk from it passes no
    /// other vertex.
    pub proof fn lemma_root_of_parentless(&self, v: NodeRef)
        requires
            self.at(v).parent is None,
        ensures
            self.has_ascent(v),
            self.root_of(v) == (v, seq![v]),
    {
        self.lemma_ascent_known(v, seq![v]);
    }

    /// Along a chain of parent links that ends in a vertex without a parent, the
    /// root of the first vertex is the last one, and the walk passes the whole
    /// chain in order. The walk stops before a vertex that carries the identity
    /// of the first one, so no later vertex of the chain may carry it.
    pub proof fn lemma_root_of_chain(&self, chain: Seq<NodeRef>)
        requires
            chain.len() > 0,
            forall|i: int|
                0 <= i < chain.len() - 1 ==> (#[trigger] self.at(chain[i])).parent == Some(
                    chain[i + 1],
                ),
            self.at(chain.last()).parent is None,
            forall|i: int| 0 < i < chain.len() ==> !self.same_identity(chain[0], #[trigger] chain[i]),
        ensures
            self.has_ascent(chain[0]),
            self.root_of(chain[0]) == (chain.last(), chain),
    {
        assert forall|i: int| 0 <= i < chain.len() - 1 implies self.steps_at(
            chain[0],
            chain,
            i,
        ) by {
            assert(self.at(chain[i]).parent == Some(chain[i + 1]));
            assert(!self.same_identity(chain[0], chain[i + 1]));
        }
        self.lemma_ascent_known(chain[0], chain);
    }

    /// Along a chain of parent links that closes on its first vertex, the walk
    /// from the first vertex passes the chain once and reports the vertex before
    /// the closing link as the root. This asks that the first vertex is the only
    /// one on the circle with its identity, and that its identity equals itself.
    pub proof fn lemma_root_of_cycle(&self, cycle: Seq<NodeRef>)
        requires
            cycle.len() > 0,
            forall|i: int|
                0 <= i < cycle.len() - 1 ==> (#[trigger] self.at(cycle[i])).parent == Some(
                    cycle[i + 1],
                ),
            self.at(cycle.last()).parent == Some(cycle[0]),
            self.same_identity(cycle[0], cycle[0]),
            forall|i: int| 0 < i < cycle.len() ==> !self.same_identity(cycle[0], #[trigger] cycle[i]),
        ensures
            self.has_ascent(cycle[0]),
            self.root_of(cycle[0]) == (cycle.last(), cycle),
    {
        assert forall|i: int| 0 <= i < cycle.len() - 1 implies self.steps_at(
            cycle[0],
            cycle,
            i,
        ) by {
            assert(self.at(cycle[i]).parent == Some(cycle[i + 1]));
            assert(!self.same_identity(cycle[0], cycle[i + 1]));
        }
        self.lemma_ascent_known(cycle[0], cycle);
    }

    /// A walk that comes to a vertex a second time never ends: it is caught in a
    /// circle, and the identity of `start` is not on it. Such a vertex has no
    /// root.
    pub proof fn lemma_no_root_from_repeating_climb(
        &self,
        start: NodeRef,
        climb: Seq<NodeRef>,
        i: int,
        j: int,
    )
        requires
            self.is_climb(start, climb),
            0 <= i < j < climb.len(),
            climb[i] == climb[j],
        ensures
            !self.has_ascent(start),
    {
        if self.has_ascent(start) {
            let whole = self.ascent(start);
            self.lemma_climb_begins_ascent(start, climb, whole, i);
            self.lemma_climb_begins_ascent(start, climb, whole, j);
            self.lemma_ascent_simple(start, whole, i, j);
        }
    }

    /// What changing the parent link of `who` does to the walk from `v`: nothing
    /// but where it goes after `who`.
    proof fn lemma_reparent_steps(
        &self,
        after: &Forest<A>,
        who: NodeRef,
        parent: Option<NodeRef>,
        v: NodeRef,
        at: NodeRef,
    )
        requires
            self.wf(),
            self.contains(who),
            parent matches Some(p) ==> self.contains(p),
            after@ == self.with_parent(who, parent),
            self.contains(v),
            self.contains(at),
        ensures
            at != who ==> after.step(v, at) == self.step(v, at),
            after.step(v, who) == match parent {
                Some(p) => if self.same_identity(v, p) {
                    None
                } else {
                    Some(p)
                },
                None => None,
            },
    {
        match after.at(at).parent {
            Some(next) => {
                assert(after.at(next).id == self.at(next).id);
            },
            None => {},
        }
    }

    /// Changing the parent link of a vertex leaves the root of every vertex
    /// whose walk does not pass that vertex as it was, and the walk with it.
    pub proof fn lemma_reparent_spares_unrelated(
        &self,
        after: &Forest<A>,
        who: NodeRef,
        parent: Option<NodeRef>,
        v: NodeRef,
    )
        requires
            self.wf(),
            self.contains(who),
            parent matches Some(p) ==> self.contains(p),
            after@ == self.with_parent(who, parent),
            self.contains(v),
            self.has_ascent(v),
            !self.ascent(v).contains(who),
        ensures
            after.has_ascent(v),
            after.root_of(v) == self.root_of(v),
    {
        let path = self.ascent(v);
        assert forall|i: int| 0 <= i < path.len() implies after.step(v, path[i]) == self.step(
            v,
            path[i],
        ) by {
            self.lemma_climb_contained(v, path, i);
            self.lemma_reparent_steps(after, who, parent, v, path[i]);
        }
        assert forall|i: int| 0 <= i < path.len() - 1 implies after.steps_at(v, path, i) by {
            assert(self.steps_at(v, path, i));
        }
        after.lemma_ascent_known(v, path);
    }

    /// Changing the parent link of a vertex redirects the walk of every vertex
    /// that passes it, the vertex itself and its descendants: the walk comes to
    /// the vertex as before, and goes on from there by the new link. Where the
    /// new link leads the walk elsewhere than the old one did, the root and the
    /// walk that are reported change.
    pub proof fn lemma_reparent_redirects(
        &self,
        after: &Forest<A>,
        who: NodeRef,
        parent: Option<NodeRef>,
        v: NodeRef,
        k: int,
    )
        requires
            self.wf(),
            self.contains(who),
            parent matches Some(p) ==> self.contains(p),
            after@ == self.with_parent(who, parent),
            self.contains(v),
            self.has_ascent(v),
            0 <= k < self.ascent(v).len(),
            self.ascent(v)[k] == who,
        ensures
            after.is_climb(v, self.ascent(v).take(k + 1)),
            after.step(v, who) == match parent {
                Some(p) => if self.same_identity(v, p) {
                    None
                } else {
                    Some(p)
                },
                None => None,
            },
            after.step(v, who) is None ==> after.has_ascent(v) && after.root_of(v) == (
                who,
                self.ascent(v).take(k + 1),
            ),
            after.step(v, who) matches Some(next) ==> after.is_climb(
                v,
                self.ascent(v).take(k + 1).push(next),
            ),
            after.has_ascent(v) ==> after.ascent(v).len() > k && after.ascent(v).take(k + 1)
                == self.ascent(v).take(k + 1),
            after.has_ascent(v) && after.step(v, who) != self.step(v, who) ==> after.root_of(v)
                != self.root_of(v),
    {
        let path = self.ascent(v);
        let head = path.take(k + 1);
        self.lemma_reparent_steps(after, who, parent, v, who);
        assert forall|i: int| 0 <= i < head.len() - 1 implies after.steps_at(v, head, i) by {
            self.lemma_ascent_simple(v, path, i, k);
            self.lemma_climb_contained(v, path, i);
            self.lemma_reparent_steps(after, who, parent, v, path[i]);
            assert(self.steps_at(v, path, i));
        }
        assert(after.is_climb(v, head));
        assert(head.last() == who);
        match after.step(v, who) {
            None => {
                after.lemma_ascent_known(v, head);
            },
            Some(next) => {
                let longer = head.push(next);
                assert forall|i: int| 0 <= i < longer.len() - 1 implies after.steps_at(
                    v,
                    longer,
                    i,
                ) by {
                    if i < head.len() - 1 {
                        assert(after.steps_at(v, head, i));
                    }
                }
            },
        }
        if after.has_ascent(v) {
            let redirected = after.ascent(v);
            after.lemma_climb_begins_ascent(v, head, redirected, k);
            assert forall|i: int| 0 <= i < head.len() implies redirected[i] == head[i] by {
                after.lemma_climb_begins_ascent(v, head, redirected, i);
            }
            assert(redirected.take(k + 1) =~= head);
            if redirected == path {
                if k < path.len() - 1 {
                    assert(self.steps_at(v, path, k));
                    assert(after.steps_at(v, redirected, k));
                }
            }
        }
    }
}

} // verus!
