use phragmen_node::identity::NodeId;
use phragmen_node::identity::NodeRole;
use phragmen_node::node::Forest;
use phragmen_node::node::Node;
use phragmen_node::node::NodeRef;

fn id(i: u32) -> NodeId<u32> {
    NodeId::from(i, NodeRole::Target)
}

/// The vertices behind a root and its path, so that results compare by identity.
fn seen<'a>(
    forest: &'a Forest<u32>,
    found: (NodeRef, Vec<NodeRef>),
) -> (&'a Node<u32>, Vec<&'a Node<u32>>) {
    (forest.node(found.0), found.1.iter().map(|r| forest.node(*r)).collect())
}

/// The slots of a root and its path, so that results compare by vertex.
fn slots(found: (NodeRef, Vec<NodeRef>)) -> (usize, Vec<usize>) {
    (found.0.index, found.1.iter().map(|r| r.index).collect())
}

#[test]
fn basic_create_works() {
    let node = Node::new(id(10));
    assert_eq!(node, Node { id: NodeId { who: 10, role: NodeRole::Target }, parent: None });
}

#[test]
fn set_parent_works() {
    let mut forest = Forest::new();
    let a = Node::new(id(10)).into_ref(&mut forest);
    let b = Node::new(id(20)).into_ref(&mut forest);

    assert_eq!(forest.node(a).parent.map(|p| forest.node(p)), None);
    Node::set_parent_of(&mut forest, a, b);
    assert_eq!(forest.node(forest.node(a).parent.unwrap()), forest.node(b));
}

#[test]
fn get_root_singular() {
    let mut forest = Forest::new();
    let a = Node::new(id(1)).into_ref(&mut forest);
    assert_eq!(
        seen(&forest, Node::root(&forest, a)),
        (forest.node(a), vec![forest.node(a)]),
    );
}

#[test]
fn get_root_works() {
    //	D <-- A <-- B <-- C
    //			\
    //			 <-- E
    let mut forest = Forest::new();
    let a = Node::new(id(1)).into_ref(&mut forest);
    let b = Node::new(id(2)).into_ref(&mut forest);
    let c = Node::new(id(3)).into_ref(&mut forest);
    let d = Node::new(id(4)).into_ref(&mut forest);
    let e = Node::new(id(5)).into_ref(&mut forest);
    let f = Node::new(id(6)).into_ref(&mut forest);

    Node::set_parent_of(&mut forest, c, b);
    Node::set_parent_of(&mut forest, b, a);
    Node::set_parent_of(&mut forest, e, a);
    Node::set_parent_of(&mut forest, a, d);

    assert_eq!(
        seen(&forest, Node::root(&forest, e)),
        (forest.node(d), vec![forest.node(e), forest.node(a), forest.node(d)]),
    );

    assert_eq!(
        seen(&forest, Node::root(&forest, a)),
        (forest.node(d), vec![forest.node(a), forest.node(d)]),
    );

    assert_eq!(
        seen(&forest, Node::root(&forest, c)),
        (
            forest.node(d),
            vec![forest.node(c), forest.node(b), forest.node(a), forest.node(d)],
        ),
    );

    //	D 	    A <-- B <-- C
    //	F <-- /	\
    //			 <-- E
    Node::set_parent_of(&mut forest, a, f);

    assert_eq!(
        seen(&forest, Node::root(&forest, a)),
        (forest.node(f), vec![forest.node(a), forest.node(f)]),
    );

    assert_eq!(
        seen(&forest, Node::root(&forest, c)),
        (
            forest.node(f),
            vec![forest.node(c), forest.node(b), forest.node(a), forest.node(f)],
        ),
    );
}

#[test]
fn get_root_on_cycle() {
    // A ---> B
    // |      |
    //  <---- C
    let mut forest = Forest::new();
    let a = Node::new(id(1)).into_ref(&mut forest);
    let b = Node::new(id(2)).into_ref(&mut forest);
    let c = Node::new(id(3)).into_ref(&mut forest);

    Node::set_parent_of(&mut forest, a, b);
    Node::set_parent_of(&mut forest, b, c);
    Node::set_parent_of(&mut forest, c, a);

    let (root, path) = Node::root(&forest, a);
    assert_eq!(forest.node(root), forest.node(c));
    assert_eq!(
        path.iter().map(|r| forest.node(*r)).collect::<Vec<_>>(),
        vec![forest.node(a), forest.node(b), forest.node(c)],
    );
}

#[test]
fn node_cmp_stack_overflows_on_non_unique_elements() {
    // Comparing two vertices must not follow their parent links: on a circle
    // that would never end.
    let mut forest = Forest::new();
    let a = Node::new(id(1)).into_ref(&mut forest);
    let b = Node::new(id(2)).into_ref(&mut forest);
    let c = Node::new(id(3)).into_ref(&mut forest);

    Node::set_parent_of(&mut forest, a, b);
    Node::set_parent_of(&mut forest, b, c);
    Node::set_parent_of(&mut forest, c, a);

    Node::root(&forest, a);
}

#[test]
fn root_reports_the_very_vertices_of_the_chain() {
    let mut forest = Forest::new();
    let v0 = Node::new(id(7)).into_ref(&mut forest);
    let v1 = Node::new(id(8)).into_ref(&mut forest);
    let v2 = Node::new(id(9)).into_ref(&mut forest);
    let v3 = Node::new(id(10)).into_ref(&mut forest);
    Node::set_parent_of(&mut forest, v0, v1);
    Node::set_parent_of(&mut forest, v1, v2);
    Node::set_parent_of(&mut forest, v2, v3);

    assert_eq!(slots(Node::root(&forest, v0)), (3, vec![0, 1, 2, 3]));
    assert_eq!(slots(Node::root(&forest, v2)), (3, vec![2, 3]));
    assert_eq!(slots(Node::root(&forest, v3)), (3, vec![3]));
}

#[test]
fn self_parent_is_its_own_root() {
    let mut forest = Forest::new();
    let a = Node::new(id(1)).into_ref(&mut forest);
    Node::set_parent_of(&mut forest, a, a);
    assert_eq!(slots(Node::root(&forest, a)), (0, vec![0]));
}

#[test]
fn cycle_root_is_the_vertex_before_the_closing_link() {
    let mut forest = Forest::new();
    let a = Node::new(id(1)).into_ref(&mut forest);
    let b = Node::new(id(2)).into_ref(&mut forest);
    let c = Node::new(id(3)).into_ref(&mut forest);
    Node::set_parent_of(&mut forest, a, b);
    Node::set_parent_of(&mut forest, b, c);
    Node::set_parent_of(&mut forest, c, a);

    assert_eq!(slots(Node::root(&forest, a)), (c.index, vec![a.index, b.index, c.index]));
    assert_eq!(slots(Node::root(&forest, b)), (a.index, vec![b.index, c.index, a.index]));
    assert_eq!(slots(Node::root(&forest, c)), (b.index, vec![c.index, a.index, b.index]));
}

#[test]
fn walk_stops_before_a_vertex_with_the_identity_of_the_start() {
    // The second vertex with identity 1 is another vertex, but the walk from
    // the first one takes it for its own start.
    let mut forest = Forest::new();
    let first = Node::new(id(1)).into_ref(&mut forest);
    let between = Node::new(id(2)).into_ref(&mut forest);
    let twin = Node::new(id(1)).into_ref(&mut forest);
    let top = Node::new(id(3)).into_ref(&mut forest);
    Node::set_parent_of(&mut forest, first, between);
    Node::set_parent_of(&mut forest, between, twin);
    Node::set_parent_of(&mut forest, twin, top);

    assert_eq!(slots(Node::root(&forest, first)), (between.index, vec![first.index, between.index]));
    assert_eq!(
        slots(Node::root(&forest, between)),
        (top.index, vec![between.index, twin.index, top.index]),
    );
}

#[test]
fn reparenting_redirects_descendants_and_spares_the_rest() {
    let mut forest = Forest::new();
    let a = Node::new(id(1)).into_ref(&mut forest);
    let b = Node::new(id(2)).into_ref(&mut forest);
    let c = Node::new(id(3)).into_ref(&mut forest);
    let d = Node::new(id(4)).into_ref(&mut forest);
    let x = Node::new(id(5)).into_ref(&mut forest);
    let y = Node::new(id(6)).into_ref(&mut forest);
    Node::set_parent_of(&mut forest, c, b);
    Node::set_parent_of(&mut forest, b, a);
    Node::set_parent_of(&mut forest, x, y);

    let unrelated = slots(Node::root(&forest, x));
    let above = slots(Node::root(&forest, a));
    assert_eq!(slots(Node::root(&forest, c)), (a.index, vec![c.index, b.index, a.index]));

    Node::set_parent_of(&mut forest, b, d);

    assert_eq!(slots(Node::root(&forest, b)), (d.index, vec![b.index, d.index]));
    assert_eq!(slots(Node::root(&forest, c)), (d.index, vec![c.index, b.index, d.index]));
    assert_eq!(slots(Node::root(&forest, x)), unrelated);
    assert_eq!(slots(Node::root(&forest, a)), above);
}

#[test]
fn remove_parent_ends_the_walk() {
    let mut forest = Forest::new();
    let a = Node::new(id(1)).into_ref(&mut forest);
    let b = Node::new(id(2)).into_ref(&mut forest);
    let c = Node::new(id(3)).into_ref(&mut forest);
    Node::set_parent_of(&mut forest, a, b);
    Node::set_parent_of(&mut forest, b, c);

    Node::remove_parent(&mut forest, b);

    assert!(forest.node(b).parent.is_none());
    assert_eq!(forest.node(a).parent.map(|p| p.index), Some(b.index));
    assert_eq!(slots(Node::root(&forest, a)), (b.index, vec![a.index, b.index]));

    Node::remove_parent(&mut forest, b);
    assert!(forest.node(b).parent.is_none());
}

#[test]
fn try_root_agrees_with_root_where_the_walk_ends() {
    let mut forest = Forest::new();
    let a = Node::new(id(1)).into_ref(&mut forest);
    let b = Node::new(id(2)).into_ref(&mut forest);
    let c = Node::new(id(3)).into_ref(&mut forest);
    Node::set_parent_of(&mut forest, a, b);
    Node::set_parent_of(&mut forest, b, c);

    assert_eq!(Node::try_root(&forest, a).map(slots), Some(slots(Node::root(&forest, a))));
    assert_eq!(Node::try_root(&forest, c).map(slots), Some((c.index, vec![c.index])));

    Node::set_parent_of(&mut forest, c, a);
    assert_eq!(
        Node::try_root(&forest, a).map(slots),
        Some((c.index, vec![a.index, b.index, c.index])),
    );
}

#[test]
fn try_root_finds_no_root_on_a_circle_that_misses_the_start() {
    // x --> y --> z --> y
    let mut forest = Forest::new();
    let x = Node::new(id(1)).into_ref(&mut forest);
    let y = Node::new(id(2)).into_ref(&mut forest);
    let z = Node::new(id(3)).into_ref(&mut forest);
    Node::set_parent_of(&mut forest, x, y);
    Node::set_parent_of(&mut forest, y, z);
    Node::set_parent_of(&mut forest, z, y);

    assert!(Node::try_root(&forest, x).is_none());
    // From inside the circle the walk comes back to its start and ends.
    assert_eq!(Node::try_root(&forest, y).map(slots), Some((z.index, vec![y.index, z.index])));
    assert_eq!(Node::try_root(&forest, z).map(slots), Some((y.index, vec![z.index, y.index])));
}

#[test]
fn try_root_walks_a_chain_through_the_whole_forest() {
    let mut forest = Forest::new();
    let mut handles = Vec::new();
    for i in 0..50u32 {
        handles.push(Node::new(id(i)).into_ref(&mut forest));
    }
    for i in 0..49usize {
        Node::set_parent_of(&mut forest, handles[i], handles[i + 1]);
    }
    let (root, path) = Node::try_root(&forest, handles[0]).unwrap();
    assert_eq!(root.index, 49);
    assert_eq!(path.iter().map(|r| r.index).collect::<Vec<_>>(), (0..50).collect::<Vec<usize>>());
}
