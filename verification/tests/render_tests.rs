use ardent::node::{IdAllocator, Node, NodeId};
use ardent::renderer::{RenderError, Renderer};
use ardent::scalar::Scalar;
use ardent::scene::Scene;
use ardent::shape::{Rect, Shape};
use ardent::style::{Color, Fill};

fn scalar(x: f32) -> Scalar {
    Scalar::from_bits(x.to_bits())
}

fn rectangle(width: f32, height: f32) -> Shape {
    Shape::Rect(Rect::new(scalar(width), scalar(height)))
}

fn attach_shape(scene: &mut Scene, ids: &mut IdAllocator, parent: NodeId, shape: Shape) -> NodeId {
    let mut node = Node::new(ids);
    node.set_shape(shape);
    let id = node.id();
    assert_eq!(scene.add_node(parent, node), Ok(()));
    id
}

fn attach_plain(scene: &mut Scene, ids: &mut IdAllocator, parent: NodeId) -> NodeId {
    let node = Node::new(ids);
    let id = node.id();
    assert_eq!(scene.add_node(parent, node), Ok(()));
    id
}

/// Geometry for tests: the corners of the rectangle, as bit patterns.
fn corners(shape: &Shape) -> Option<Vec<(u32, u32)>> {
    match shape {
        Shape::Rect(rect) => Some(vec![
            (0, 0),
            (rect.width.to_bits(), 0),
            (rect.width.to_bits(), rect.height.to_bits()),
            (0, rect.height.to_bits()),
        ]),
    }
}

#[test]
fn first_frame_draws_and_caches_then_a_restyle_refreshes_once() {
    let mut ids = IdAllocator::new();
    let mut scene = Scene::new(&mut ids);
    let r = scene.root();
    let a = attach_shape(&mut scene, &mut ids, r, rectangle(200.0, 100.0));
    let mut renderer: Renderer<Vec<(u32, u32)>> = Renderer::new();
    let mut calls = 0;

    let frame = renderer
        .render(&mut scene, true, |shape| {
            calls += 1;
            corners(shape)
        })
        .unwrap();
    assert_eq!(frame.draw_list, vec![a]);
    assert_eq!(frame.refreshed, vec![a]);
    assert!(frame.failed.is_empty());
    assert_eq!(calls, 1);
    assert!(renderer.is_cached(a));
    assert!(!renderer.is_cached(r));
    assert_eq!(
        renderer.cached(a),
        Some(&vec![
            (0, 0),
            (200f32.to_bits(), 0),
            (200f32.to_bits(), 100f32.to_bits()),
            (0, 100f32.to_bits())
        ])
    );
    assert!(!scene.get_node(a).unwrap().is_dirty());

    scene.get_node_mut(a).unwrap().style_mut().fill = Some(Fill {
        color: Color::rgb(scalar(0.2), scalar(0.5), scalar(0.8)),
        gradient: None,
    });
    assert!(scene.get_node(a).unwrap().is_dirty());

    let frame = renderer
        .render(&mut scene, true, |shape| {
            calls += 1;
            corners(shape)
        })
        .unwrap();
    assert_eq!(calls, 2);
    assert_eq!(frame.draw_list, vec![a]);
    assert_eq!(frame.refreshed, vec![a]);
    assert!(!scene.get_node(a).unwrap().is_dirty());
}

#[test]
fn unchanged_elements_keep_their_geometry() {
    let mut ids = IdAllocator::new();
    let mut scene = Scene::new(&mut ids);
    let r = scene.root();
    let a = attach_shape(&mut scene, &mut ids, r, rectangle(2.0, 1.0));
    let b = attach_shape(&mut scene, &mut ids, r, rectangle(4.0, 3.0));
    let mut renderer: Renderer<u32> = Renderer::new();
    let mut serial = 0;

    let frame = renderer.draw_scene(&mut scene, |_shape| {
        serial += 1;
        Some(serial)
    });
    assert_eq!(frame.refreshed, vec![a, b]);
    assert_eq!(renderer.cached(a), Some(&1));
    assert_eq!(renderer.cached(b), Some(&2));

    let frame = renderer.draw_scene(&mut scene, |_shape| {
        serial += 1;
        Some(serial)
    });
    assert_eq!(serial, 2);
    assert!(frame.refreshed.is_empty());
    assert_eq!(frame.draw_list, vec![a, b]);
    assert_eq!(renderer.cached(a), Some(&1));
    assert_eq!(renderer.cached(b), Some(&2));

    scene.get_node_mut(b).unwrap().set_shape(rectangle(5.0, 5.0));
    let frame = renderer.draw_scene(&mut scene, |_shape| {
        serial += 1;
        Some(serial)
    });
    assert_eq!(serial, 3);
    assert_eq!(frame.refreshed, vec![b]);
    assert_eq!(frame.draw_list, vec![a, b]);
    assert_eq!(renderer.cached(a), Some(&1));
    assert_eq!(renderer.cached(b), Some(&3));
}

#[test]
fn a_clean_element_without_geometry_is_refreshed() {
    let mut ids = IdAllocator::new();
    let mut scene = Scene::new(&mut ids);
    let r = scene.root();
    let a = attach_shape(&mut scene, &mut ids, r, rectangle(2.0, 1.0));
    scene.get_node_mut(a).unwrap().clear_dirty();
    let mut renderer: Renderer<u32> = Renderer::new();
    assert!(renderer.needs_refresh(scene.get_node(a).unwrap()));
    assert!(!renderer.needs_refresh(scene.get_node(r).unwrap()));
    let frame = renderer.draw_scene(&mut scene, |_shape| Some(7));
    assert_eq!(frame.refreshed, vec![a]);
    assert_eq!(renderer.cached(a), Some(&7));
    assert!(!renderer.needs_refresh(scene.get_node(a).unwrap()));
}

#[test]
fn detached_elements_leave_the_cache() {
    let mut ids = IdAllocator::new();
    let mut scene = Scene::new(&mut ids);
    let r = scene.root();
    let a = attach_shape(&mut scene, &mut ids, r, rectangle(200.0, 100.0));
    let b = attach_shape(&mut scene, &mut ids, a, rectangle(20.0, 10.0));
    let c = attach_shape(&mut scene, &mut ids, a, rectangle(2.0, 1.0));
    let mut renderer: Renderer<Vec<(u32, u32)>> = Renderer::new();
    let frame = renderer.render(&mut scene, true, corners).unwrap();
    assert_eq!(frame.draw_list, vec![a, b, c]);
    assert!(!renderer.is_empty());

    scene.remove_node(a);
    let mut calls = 0;
    let frame = renderer
        .render(&mut scene, true, |shape| {
            calls += 1;
            corners(shape)
        })
        .unwrap();
    assert!(frame.draw_list.is_empty());
    assert!(frame.refreshed.is_empty());
    assert!(frame.failed.is_empty());
    assert_eq!(calls, 0);
    assert!(renderer.is_empty());
    for id in [a, b, c] {
        assert!(!renderer.is_cached(id));
        assert!(renderer.cached(id).is_none());
    }
}

#[test]
fn a_scene_without_root_renders_as_empty() {
    let mut ids = IdAllocator::new();
    let mut scene = Scene::new(&mut ids);
    let r = scene.root();
    let a = attach_shape(&mut scene, &mut ids, r, rectangle(2.0, 1.0));
    let mut renderer: Renderer<Vec<(u32, u32)>> = Renderer::new();
    renderer.render(&mut scene, true, corners).unwrap();
    assert!(renderer.is_cached(a));
    scene.remove_node(r);
    let frame = renderer.render(&mut scene, true, corners).unwrap();
    assert!(frame.draw_list.is_empty());
    assert!(renderer.is_empty());
}

#[test]
fn elements_without_shape_are_neither_cached_nor_drawn() {
    let mut ids = IdAllocator::new();
    let mut scene = Scene::new(&mut ids);
    let r = scene.root();
    let group = attach_plain(&mut scene, &mut ids, r);
    let a = attach_shape(&mut scene, &mut ids, group, rectangle(2.0, 1.0));
    let mut renderer: Renderer<Vec<(u32, u32)>> = Renderer::new();
    let frame = renderer.render(&mut scene, true, corners).unwrap();
    assert_eq!(frame.draw_list, vec![a]);
    assert!(!renderer.is_cached(r));
    assert!(!renderer.is_cached(group));
    assert!(scene.get_node(group).unwrap().is_dirty());
    assert!(scene.get_node(r).unwrap().is_dirty());
}

#[test]
fn draw_list_follows_the_walk() {
    let mut ids = IdAllocator::new();
    let mut scene = Scene::new(&mut ids);
    let r = scene.root();
    let a = attach_shape(&mut scene, &mut ids, r, rectangle(1.0, 1.0));
    let d = attach_shape(&mut scene, &mut ids, r, rectangle(4.0, 4.0));
    let b = attach_shape(&mut scene, &mut ids, a, rectangle(2.0, 2.0));
    let group = attach_plain(&mut scene, &mut ids, a);
    let c = attach_shape(&mut scene, &mut ids, group, rectangle(3.0, 3.0));
    let mut renderer: Renderer<Vec<(u32, u32)>> = Renderer::new();
    let mut seen: Vec<Shape> = Vec::new();
    let frame = renderer.draw_scene(&mut scene, |shape| {
        seen.push(*shape);
        corners(shape)
    });
    assert_eq!(frame.draw_list, vec![a, b, c, d]);
    assert_eq!(frame.refreshed, vec![a, b, c, d]);
    assert_eq!(
        seen,
        vec![rectangle(1.0, 1.0), rectangle(2.0, 2.0), rectangle(3.0, 3.0), rectangle(4.0, 4.0)]
    );
}

#[test]
fn a_failed_tessellation_skips_the_element_and_is_retried() {
    let mut ids = IdAllocator::new();
    let mut scene = Scene::new(&mut ids);
    let r = scene.root();
    let a = attach_shape(&mut scene, &mut ids, r, rectangle(-1.0, 1.0));
    let b = attach_shape(&mut scene, &mut ids, r, rectangle(2.0, 1.0));
    let mut renderer: Renderer<Vec<(u32, u32)>> = Renderer::new();
    let picky = |shape: &Shape| if shape.has_valid_dimensions() { corners(shape) } else { None };

    let frame = renderer.render(&mut scene, true, picky).unwrap();
    assert_eq!(frame.draw_list, vec![b]);
    assert_eq!(frame.refreshed, vec![b]);
    assert_eq!(frame.failed, vec![a]);
    assert!(!renderer.is_cached(a));
    assert!(renderer.is_cached(b));
    assert!(scene.get_node(a).unwrap().is_dirty());
    assert!(!scene.get_node(b).unwrap().is_dirty());

    let frame = renderer.render(&mut scene, true, picky).unwrap();
    assert_eq!(frame.failed, vec![a]);
    assert_eq!(frame.draw_list, vec![b]);
    assert!(frame.refreshed.is_empty());

    scene.get_node_mut(a).unwrap().set_shape(rectangle(1.0, 1.0));
    let frame = renderer.render(&mut scene, true, picky).unwrap();
    assert!(frame.failed.is_empty());
    assert_eq!(frame.refreshed, vec![a]);
    assert_eq!(frame.draw_list, vec![a, b]);
    assert!(!scene.get_node(a).unwrap().is_dirty());
}

#[test]
fn a_failure_drops_geometry_of_an_earlier_shape() {
    let mut ids = IdAllocator::new();
    let mut scene = Scene::new(&mut ids);
    let r = scene.root();
    let a = attach_shape(&mut scene, &mut ids, r, rectangle(2.0, 1.0));
    let mut renderer: Renderer<u32> = Renderer::new();
    renderer.draw_scene(&mut scene, |_shape| Some(1));
    assert_eq!(renderer.cached(a), Some(&1));
    scene.get_node_mut(a).unwrap().set_shape(rectangle(-2.0, 1.0));
    let frame = renderer.draw_scene(&mut scene, |_shape| None);
    assert_eq!(frame.failed, vec![a]);
    assert!(frame.draw_list.is_empty());
    assert!(!renderer.is_cached(a));
    assert!(scene.get_node(a).unwrap().is_dirty());
}

#[test]
fn a_frame_without_surface_is_skipped() {
    let mut ids = IdAllocator::new();
    let mut scene = Scene::new(&mut ids);
    let r = scene.root();
    let a = attach_shape(&mut scene, &mut ids, r, rectangle(2.0, 1.0));
    let mut renderer: Renderer<u32> = Renderer::new();
    let mut calls = 0;
    let outcome = renderer.render(&mut scene, false, |_shape| {
        calls += 1;
        Some(1)
    });
    assert_eq!(outcome.unwrap_err(), RenderError::SurfaceUnavailable);
    assert_eq!(calls, 0);
    assert!(renderer.is_empty());
    assert!(scene.get_node(a).unwrap().is_dirty());

    renderer.render(&mut scene, true, |_shape| Some(1)).unwrap();
    let outcome = renderer.render(&mut scene, false, |_shape| Some(2));
    assert_eq!(outcome.unwrap_err(), RenderError::SurfaceUnavailable);
    assert_eq!(renderer.cached(a), Some(&1));
    assert!(!scene.get_node(a).unwrap().is_dirty());
}

#[test]
fn refresh_writes_down_success_and_failure() {
    let mut ids = IdAllocator::new();
    let mut node = Node::new(&mut ids);
    node.set_shape(rectangle(2.0, 1.0));
    let id = node.id();
    let mut renderer: Renderer<u32> = Renderer::new();

    assert_eq!(renderer.refresh(&mut node, Some(5)), Ok(()));
    assert_eq!(renderer.cached(id), Some(&5));
    assert!(!node.is_dirty());

    assert_eq!(renderer.refresh(&mut node, Some(6)), Ok(()));
    assert_eq!(renderer.cached(id), Some(&6));

    node.mark_dirty();
    assert_eq!(renderer.refresh(&mut node, None), Err(RenderError::TessellationFailed));
    assert!(renderer.cached(id).is_none());
    assert!(node.is_dirty());
}

#[test]
fn prune_keeps_what_the_scene_holds() {
    let mut ids = IdAllocator::new();
    let mut scene = Scene::new(&mut ids);
    let r = scene.root();
    let a = attach_shape(&mut scene, &mut ids, r, rectangle(2.0, 1.0));
    let b = attach_shape(&mut scene, &mut ids, r, rectangle(3.0, 1.0));
    let mut renderer: Renderer<u32> = Renderer::new();
    renderer.draw_scene(&mut scene, |_shape| Some(1));
    scene.remove_node(a);
    renderer.prune(&scene);
    assert!(!renderer.is_cached(a));
    assert_eq!(renderer.cached(b), Some(&1));
}

#[test]
fn retain_keeps_the_listed_elements() {
    let mut ids = IdAllocator::new();
    let mut scene = Scene::new(&mut ids);
    let r = scene.root();
    let a = attach_shape(&mut scene, &mut ids, r, rectangle(2.0, 1.0));
    let b = attach_shape(&mut scene, &mut ids, r, rectangle(3.0, 1.0));
    let c = attach_shape(&mut scene, &mut ids, r, rectangle(4.0, 1.0));
    let mut renderer: Renderer<u32> = Renderer::new();
    let mut serial = 0;
    renderer.draw_scene(&mut scene, |_shape| {
        serial += 1;
        Some(serial)
    });
    renderer.retain(&vec![c, a, c, NodeId(999)]);
    assert_eq!(renderer.cached(a), Some(&1));
    assert!(renderer.cached(b).is_none());
    assert_eq!(renderer.cached(c), Some(&3));
    renderer.retain(&vec![]);
    assert!(renderer.is_empty());
}

#[test]
fn geometry_of_a_shape_that_was_taken_away_is_not_drawn() {
    let mut ids = IdAllocator::new();
    let mut scene = Scene::new(&mut ids);
    let r = scene.root();
    let a = attach_shape(&mut scene, &mut ids, r, rectangle(2.0, 1.0));
    let mut renderer: Renderer<u32> = Renderer::new();
    renderer.draw_scene(&mut scene, |_shape| Some(1));
    scene.get_node_mut(a).unwrap().clear_shape();
    let mut calls = 0;
    let frame = renderer.draw_scene(&mut scene, |_shape| {
        calls += 1;
        Some(2)
    });
    assert_eq!(calls, 0);
    assert!(frame.draw_list.is_empty());
    assert!(frame.refreshed.is_empty());
    scene.get_node_mut(a).unwrap().set_shape(rectangle(3.0, 1.0));
    let frame = renderer.draw_scene(&mut scene, |_shape| {
        calls += 1;
        Some(2)
    });
    assert_eq!(calls, 1);
    assert_eq!(frame.draw_list, vec![a]);
    assert_eq!(renderer.cached(a), Some(&2));
}
