use ardent::event::{Event, EventCallback, EventHandler};
use ardent::node::{generate_id, IdAllocator, Node, NodeId, FIRST_ID};
use ardent::scalar::Scalar;
use ardent::scene::{Scene, SceneError};
use ardent::shape::{Rect, Shape};
use ardent::style::{Color, Fill};
use ardent::transform::{Transform, TransformMode};

struct Quiet;

impl EventCallback for Quiet {
    fn on_event(&self, _event: Event) {}
}

fn scalar(x: f32) -> Scalar {
    Scalar::from_bits(x.to_bits())
}

fn rectangle(width: f32, height: f32) -> Shape {
    Shape::Rect(Rect::new(scalar(width), scalar(height)))
}

fn attach(scene: &mut Scene, ids: &mut IdAllocator, parent: NodeId) -> NodeId {
    let node = Node::new(ids);
    let id = node.id();
    assert_eq!(scene.add_node(parent, node), Ok(()));
    id
}

fn walk(scene: &Scene) -> Vec<NodeId> {
    scene.traverse(|node| node.id())
}

/// R with children A and D; A with children B and C.
fn family(ids: &mut IdAllocator) -> (Scene, NodeId, NodeId, NodeId, NodeId, NodeId) {
    let mut scene = Scene::new(ids);
    let r = scene.root();
    let a = attach(&mut scene, ids, r);
    let b = attach(&mut scene, ids, a);
    let c = attach(&mut scene, ids, a);
    let d = attach(&mut scene, ids, r);
    (scene, r, a, b, c, d)
}

#[test]
fn identities_start_above_zero_and_increase() {
    let mut ids = IdAllocator::new();
    assert_eq!(FIRST_ID, 1);
    assert_eq!(ids.remaining(), u64::MAX - 1);
    assert_eq!(generate_id(&mut ids), NodeId(1));
    assert_eq!(generate_id(&mut ids), NodeId(2));
    assert_eq!(generate_id(&mut ids), NodeId(3));
    assert_eq!(ids.remaining(), u64::MAX - 4);
}

#[test]
fn new_elements_take_successive_identities() {
    let mut ids = IdAllocator::new();
    let first = Node::new(&mut ids);
    let second = Node::new(&mut ids);
    assert_eq!(first.id(), NodeId(1));
    assert_eq!(second.id(), NodeId(2));
    assert_ne!(first.id(), second.id());
}

#[test]
fn new_element_is_detached_plain_and_dirty() {
    let mut ids = IdAllocator::new();
    let node = Node::new(&mut ids);
    assert_eq!(node.parent(), None);
    assert!(node.children().is_empty());
    assert_eq!(*node.transform(), Transform::default());
    assert!(node.transform().is_identity());
    assert!(node.shape().is_none());
    assert!(node.style().fill.is_none());
    assert!(node.style().stroke.is_none());
    assert!(node.event_handler().is_none());
    assert!(node.is_dirty());
}

#[test]
fn changes_of_appearance_mark_dirty() {
    let mut ids = IdAllocator::new();
    let mut node = Node::new(&mut ids);

    node.clear_dirty();
    assert!(!node.is_dirty());
    node.set_shape(rectangle(200.0, 100.0));
    assert!(node.is_dirty());
    assert_eq!(node.shape(), Some(&rectangle(200.0, 100.0)));

    node.clear_dirty();
    node.style_mut().fill = Some(Fill { color: Color::white(), gradient: None });
    assert!(node.is_dirty());
    assert_eq!(node.style().fill, Some(Fill { color: Color::white(), gradient: None }));

    node.clear_dirty();
    node.transform_mut().translate = (scalar(3.0), scalar(4.0));
    assert!(node.is_dirty());
    assert_eq!(node.transform().translate, (scalar(3.0), scalar(4.0)));
    assert_eq!(node.transform().scale, (scalar(1.0), scalar(1.0)));

    node.clear_dirty();
    node.clear_shape();
    assert!(node.is_dirty());
    assert!(node.shape().is_none());

    node.clear_dirty();
    node.mark_dirty();
    assert!(node.is_dirty());
}

#[test]
fn handlers_do_not_mark_dirty() {
    let mut ids = IdAllocator::new();
    let mut node = Node::new(&mut ids);
    node.clear_dirty();
    node.set_event_handler(EventHandler::new(Box::new(Quiet)));
    assert!(!node.is_dirty());
    assert!(node.event_handler().is_some());
    node.clear_event_handler();
    assert!(!node.is_dirty());
    assert!(node.event_handler().is_none());
}

#[test]
fn new_scene_holds_only_its_root() {
    let mut ids = IdAllocator::new();
    let scene = Scene::new(&mut ids);
    let r = scene.root();
    assert_eq!(r, NodeId(1));
    assert!(scene.contains(r));
    assert!(!scene.contains(NodeId(2)));
    let root = scene.get_node(r).unwrap();
    assert_eq!(root.id(), r);
    assert_eq!(root.parent(), None);
    assert!(root.children().is_empty());
    assert!(root.is_dirty());
    assert_eq!(walk(&scene), vec![r]);
}

#[test]
fn attach_sets_both_links() {
    let mut ids = IdAllocator::new();
    let mut scene = Scene::new(&mut ids);
    let r = scene.root();
    let a = attach(&mut scene, &mut ids, r);
    assert_eq!(scene.get_node(a).unwrap().parent(), Some(r));
    assert_eq!(scene.get_node(r).unwrap().children(), &[a]);
    assert!(scene.get_node(a).unwrap().children().is_empty());
}

#[test]
fn traversal_follows_attach_order() {
    let mut ids = IdAllocator::new();
    let mut scene = Scene::new(&mut ids);
    let r = scene.root();
    let a = attach(&mut scene, &mut ids, r);
    let b = attach(&mut scene, &mut ids, a);
    let c = attach(&mut scene, &mut ids, a);
    assert_eq!(scene.get_node(a).unwrap().children(), &[b, c]);
    assert_eq!(walk(&scene), vec![r, a, b, c]);
}

#[test]
fn traversal_is_depth_first_and_visits_each_once() {
    let mut ids = IdAllocator::new();
    let (mut scene, r, a, b, c, d) = family(&mut ids);
    let e = attach(&mut scene, &mut ids, b);
    let f = attach(&mut scene, &mut ids, d);
    let g = attach(&mut scene, &mut ids, r);
    let order = walk(&scene);
    assert_eq!(order, vec![r, a, b, e, c, d, f, g]);
    for id in [r, a, b, c, d, e, f, g] {
        assert_eq!(order.iter().filter(|x| **x == id).count(), 1);
    }
    for id in [a, b, c, d, e, f, g] {
        let parent = scene.get_node(id).unwrap().parent().unwrap();
        let at = order.iter().position(|x| *x == id).unwrap();
        let parent_at = order.iter().position(|x| *x == parent).unwrap();
        assert!(parent_at < at);
    }
}

#[test]
fn attach_under_unknown_parent_fails_and_changes_nothing() {
    let mut ids = IdAllocator::new();
    let (mut scene, r, a, b, c, d) = family(&mut ids);
    let stray = Node::new(&mut ids);
    let stray_id = stray.id();
    assert_eq!(scene.add_node(NodeId(999), stray), Err(SceneError::MissingParent));
    assert!(!scene.contains(stray_id));
    assert!(!scene.contains(NodeId(999)));
    assert_eq!(walk(&scene), vec![r, a, b, c, d]);
    assert_eq!(scene.get_node(r).unwrap().children(), &[a, d]);
}

#[test]
fn attach_of_a_known_identity_is_refused() {
    let mut ids = IdAllocator::new();
    let mut scene = Scene::new(&mut ids);
    let r = scene.root();
    let a = attach(&mut scene, &mut ids, r);
    let mut other_ids = IdAllocator::new();
    let twin_of_root = Node::new(&mut other_ids);
    let twin_of_a = Node::new(&mut other_ids);
    assert_eq!(twin_of_root.id(), r);
    assert_eq!(twin_of_a.id(), a);
    assert_eq!(scene.add_node(r, twin_of_a), Err(SceneError::AlreadyAttached));
    assert_eq!(scene.add_node(a, twin_of_root), Err(SceneError::AlreadyAttached));
    assert_eq!(walk(&scene), vec![r, a]);
    assert_eq!(scene.get_node(r).unwrap().children(), &[a]);
}

#[test]
fn attach_of_an_element_with_links_is_refused() {
    let mut ids = IdAllocator::new();
    let mut scene = Scene::new(&mut ids);
    let r = scene.root();
    let a = attach(&mut scene, &mut ids, r);
    let b = attach(&mut scene, &mut ids, a);
    let mut spare = Some(Node::new(&mut ids));
    let mut taken: Vec<Node> = Vec::new();
    scene.traverse_mut(|node| {
        if node.id() == a {
            if let Some(fresh) = spare.take() {
                taken.push(std::mem::replace(node, fresh));
            }
        }
    });
    let linked = taken.pop().unwrap();
    assert_eq!(linked.parent(), Some(r));
    assert_eq!(linked.children(), &[b]);
    assert_eq!(scene.add_node(r, linked), Err(SceneError::AlreadyAttached));
    assert_eq!(walk(&scene), vec![r, a, b]);
}

#[test]
fn missing_parent_is_reported_before_already_attached() {
    let mut ids = IdAllocator::new();
    let mut scene = Scene::new(&mut ids);
    let mut other_ids = IdAllocator::new();
    let twin_of_root = Node::new(&mut other_ids);
    assert_eq!(scene.add_node(NodeId(999), twin_of_root), Err(SceneError::MissingParent));
}

#[test]
fn detach_removes_the_subtree_and_the_link() {
    let mut ids = IdAllocator::new();
    let (mut scene, r, a, b, c, d) = family(&mut ids);
    scene.remove_node(a);
    assert!(!scene.contains(a));
    assert!(!scene.contains(b));
    assert!(!scene.contains(c));
    assert!(scene.contains(r));
    assert!(scene.contains(d));
    assert_eq!(scene.get_node(r).unwrap().children(), &[d]);
    assert_eq!(walk(&scene), vec![r, d]);
}

#[test]
fn detach_of_a_leaf_keeps_its_siblings_in_order() {
    let mut ids = IdAllocator::new();
    let (mut scene, r, a, b, c, d) = family(&mut ids);
    let e = attach(&mut scene, &mut ids, a);
    scene.remove_node(c);
    assert_eq!(scene.get_node(a).unwrap().children(), &[b, e]);
    assert_eq!(walk(&scene), vec![r, a, b, e, d]);
}

#[test]
fn detach_of_an_unknown_identity_changes_nothing() {
    let mut ids = IdAllocator::new();
    let (mut scene, r, a, b, c, d) = family(&mut ids);
    scene.remove_node(NodeId(999));
    assert_eq!(walk(&scene), vec![r, a, b, c, d]);
}

#[test]
fn detach_of_the_root_leaves_an_empty_scene() {
    let mut ids = IdAllocator::new();
    let (mut scene, r, a, b, c, d) = family(&mut ids);
    scene.remove_node(r);
    for id in [r, a, b, c, d] {
        assert!(!scene.contains(id));
    }
    assert_eq!(scene.root(), r);
    assert_eq!(walk(&scene), Vec::<NodeId>::new());
    assert_eq!(scene.traverse_mut(|node| node.id()), Vec::<NodeId>::new());
    let late = Node::new(&mut ids);
    assert_eq!(scene.add_node(r, late), Err(SceneError::MissingParent));
}

#[test]
fn an_identity_can_be_attached_again_after_its_detach() {
    let mut ids = IdAllocator::new();
    let mut scene = Scene::new(&mut ids);
    let r = scene.root();
    let a = attach(&mut scene, &mut ids, r);
    scene.remove_node(a);
    let mut other_ids = IdAllocator::new();
    let _ = Node::new(&mut other_ids);
    let twin_of_a = Node::new(&mut other_ids);
    assert_eq!(scene.add_node(r, twin_of_a), Ok(()));
    assert_eq!(walk(&scene), vec![r, a]);
}

#[test]
fn order_from_walks_one_subtree() {
    let mut ids = IdAllocator::new();
    let (scene, r, a, b, c, d) = family(&mut ids);
    assert_eq!(scene.order_from(r), vec![r, a, b, c, d]);
    assert_eq!(scene.order_from(a), vec![a, b, c]);
    assert_eq!(scene.order_from(d), vec![d]);
    assert_eq!(scene.order_from(NodeId(999)), Vec::<NodeId>::new());
}

#[test]
fn deep_chains_are_walked_without_recursion() {
    let mut ids = IdAllocator::new();
    let mut scene = Scene::new(&mut ids);
    let mut expected = vec![scene.root()];
    let mut parent = scene.root();
    for _ in 0..20000 {
        parent = attach(&mut scene, &mut ids, parent);
        expected.push(parent);
    }
    assert_eq!(walk(&scene), expected);
    scene.remove_node(expected[1]);
    assert_eq!(walk(&scene), vec![expected[0]]);
}

#[test]
fn get_node_mut_reaches_the_stored_element() {
    let mut ids = IdAllocator::new();
    let mut scene = Scene::new(&mut ids);
    let r = scene.root();
    let a = attach(&mut scene, &mut ids, r);
    scene.get_node_mut(a).unwrap().clear_dirty();
    assert!(!scene.get_node(a).unwrap().is_dirty());
    scene.get_node_mut(a).unwrap().set_shape(rectangle(2.0, 1.0));
    assert!(scene.get_node(a).unwrap().is_dirty());
    assert_eq!(scene.get_node(a).unwrap().shape(), Some(&rectangle(2.0, 1.0)));
    assert!(scene.get_node_mut(NodeId(999)).is_none());
    assert!(scene.get_node(NodeId(999)).is_none());
}

#[test]
fn traverse_mut_changes_elements_in_walk_order() {
    let mut ids = IdAllocator::new();
    let (mut scene, r, a, b, c, d) = family(&mut ids);
    let visited = scene.traverse_mut(|node| {
        node.clear_dirty();
        node.set_shape(Shape::Rect(Rect::new(Scalar::from_bits(node.id().0 as u32), Scalar::zero())));
        node.id()
    });
    assert_eq!(visited, vec![r, a, b, c, d]);
    for id in [r, a, b, c, d] {
        let node = scene.get_node(id).unwrap();
        assert!(node.is_dirty());
        assert_eq!(
            node.shape(),
            Some(&Shape::Rect(Rect::new(Scalar::from_bits(id.0 as u32), Scalar::zero())))
        );
    }
    assert_eq!(walk(&scene), vec![r, a, b, c, d]);
}

#[test]
fn traverse_mut_keeps_the_hierarchy_whatever_the_visitor_does() {
    let mut ids = IdAllocator::new();
    let (mut scene, r, a, b, c, d) = family(&mut ids);
    let mut spares: Vec<Node> = Vec::new();
    for _ in 0..5 {
        let mut spare = Node::new(&mut ids);
        spare.clear_dirty();
        spares.push(spare);
    }
    let visited = scene.traverse_mut(|node| {
        let id = node.id();
        *node = spares.pop().unwrap();
        id
    });
    assert_eq!(visited, vec![r, a, b, c, d]);
    assert_eq!(walk(&scene), vec![r, a, b, c, d]);
    assert_eq!(scene.get_node(a).unwrap().id(), a);
    assert_eq!(scene.get_node(a).unwrap().parent(), Some(r));
    assert_eq!(scene.get_node(a).unwrap().children(), &[b, c]);
    assert_eq!(scene.get_node(r).unwrap().parent(), None);
    assert!(!scene.get_node(a).unwrap().is_dirty());
}

#[test]
fn path_leads_from_the_root_to_the_element() {
    let mut ids = IdAllocator::new();
    let (scene, r, a, _b, c, d) = family(&mut ids);
    assert_eq!(scene.path(r), vec![r]);
    assert_eq!(scene.path(c), vec![r, a, c]);
    assert_eq!(scene.path(d), vec![r, d]);
    assert_eq!(scene.path(NodeId(999)), Vec::<NodeId>::new());
}

#[test]
fn placement_is_local_or_composed_from_the_root() {
    let mut ids = IdAllocator::new();
    let (mut scene, r, a, _b, c, _d) = family(&mut ids);
    scene.get_node_mut(r).unwrap().transform_mut().translate = (scalar(10.0), scalar(20.0));
    scene.get_node_mut(a).unwrap().transform_mut().scale = (scalar(2.0), scalar(2.0));
    scene.get_node_mut(c).unwrap().transform_mut().rotate = scalar(0.5);
    let of_r = *scene.get_node(r).unwrap().transform();
    let of_a = *scene.get_node(a).unwrap().transform();
    let of_c = *scene.get_node(c).unwrap().transform();
    assert_eq!(TransformMode::default(), TransformMode::Local);
    assert_eq!(scene.placement(c, TransformMode::Local), vec![of_c]);
    assert_eq!(scene.placement(c, TransformMode::World), vec![of_r, of_a, of_c]);
    assert_eq!(scene.placement(r, TransformMode::World), vec![of_r]);
    assert_eq!(scene.placement(NodeId(999), TransformMode::Local), Vec::<Transform>::new());
    assert_eq!(scene.placement(NodeId(999), TransformMode::World), Vec::<Transform>::new());
}

/// Checks by hand what must hold of a scene between operations, given every
/// identity that was ever issued.
fn check_tree(scene: &Scene, issued: &[NodeId]) {
    let order = walk(scene);
    let root = scene.root();
    if scene.contains(root) {
        assert_eq!(scene.get_node(root).unwrap().parent(), None);
        assert_eq!(order[0], root);
    } else {
        assert!(order.is_empty());
    }
    for id in issued {
        let held = scene.contains(*id);
        assert_eq!(order.iter().filter(|x| *x == id).count(), if held { 1 } else { 0 });
        if !held {
            continue;
        }
        let node = scene.get_node(*id).unwrap();
        assert_eq!(node.id(), *id);
        if *id != root {
            let parent = node.parent().unwrap();
            let siblings = scene.get_node(parent).unwrap().children();
            assert_eq!(siblings.iter().filter(|x| *x == id).count(), 1);
            let at = order.iter().position(|x| x == id).unwrap();
            let parent_at = order.iter().position(|x| *x == parent).unwrap();
            assert!(parent_at < at);
        }
        let mut last = None;
        for child in node.children() {
            assert_eq!(scene.get_node(*child).unwrap().parent(), Some(*id));
            let at = order.iter().position(|x| x == child).unwrap();
            assert!(last < Some(at));
            last = Some(at);
        }
        let path = scene.path(*id);
        assert_eq!(path[0], root);
        assert_eq!(path[path.len() - 1], *id);
        for step in 1..path.len() {
            assert_eq!(scene.get_node(path[step]).unwrap().parent(), Some(path[step - 1]));
        }
    }
    assert_eq!(order.len(), issued.iter().filter(|id| scene.contains(**id)).count());
}

#[test]
fn the_tree_stays_consistent_under_attach_and_detach() {
    let mut ids = IdAllocator::new();
    let mut scene = Scene::new(&mut ids);
    let mut issued = vec![scene.root()];
    let mut state: u64 = 0x2545_F491_4F6C_DD1D;
    check_tree(&scene, &issued);
    for _ in 0..400 {
        state = state.wrapping_mul(6364136223846793005).wrapping_add(1442695040888963407);
        let pick = issued[((state >> 33) as usize) % issued.len()];
        let detach = (state >> 20) % 5 == 0;
        if detach && pick != scene.root() {
            let before = walk(&scene);
            let doomed = scene.order_from(pick);
            scene.remove_node(pick);
            let after = walk(&scene);
            let expected: Vec<NodeId> =
                before.iter().copied().filter(|id| !doomed.contains(id)).collect();
            assert_eq!(after, expected);
        } else {
            let node = Node::new(&mut ids);
            let id = node.id();
            issued.push(id);
            let known = scene.contains(pick);
            let before = walk(&scene);
            let outcome = scene.add_node(pick, node);
            if known {
                assert_eq!(outcome, Ok(()));
                assert_eq!(scene.get_node(pick).unwrap().children().last(), Some(&id));
                assert_eq!(walk(&scene).len(), before.len() + 1);
            } else {
                assert_eq!(outcome, Err(SceneError::MissingParent));
                assert_eq!(walk(&scene), before);
            }
        }
        check_tree(&scene, &issued);
    }
    assert!(walk(&scene).len() > 10);
}
