use libgibson::cell::Style;
use libgibson::node::{Node, NodeKind, WrapMode};
use libgibson::scene::{Scene, SceneEntity, SceneId, SceneTarget, TagId};
use libgibson::surface::Rect;

fn text(label: &str) -> Node {
    Node::new(NodeKind::Text { text: label.to_string(), style: Style::default(), wrap: WrapMode::NoWrap }, Rect::new(0, 0, 4, 1))
}

#[test]
fn add_assigns_stable_ids_and_interns_tags() {
    let mut scene = Scene::new();
    let a = scene.add(SceneEntity::new("a", text("a")).tag("crew"));
    let b = scene.add(SceneEntity::new("b", text("b")).tag("crew").tag("city"));
    assert_ne!(a, b);
    assert_eq!(scene.id_of("a"), Some(a));
    let crew = scene.tag("crew");
    let mut ids = scene.resolve(SceneTarget::Tag(crew));
    ids.sort();
    assert_eq!(ids, vec![a.min(b), a.max(b)]);
    assert_eq!(scene.len(), 2);
}

#[test]
fn ids_follow_insertion_and_tags_first_use() {
    let mut scene = Scene::new();
    assert!(scene.is_empty());
    let a = scene.add(SceneEntity::new("a", text("a")).tag("x").tag("y").tag("x"));
    let b = scene.add(SceneEntity::new("b", text("b")).tag("y").tag("z"));
    assert_eq!((a, b), (SceneId(0), SceneId(1)));
    assert_eq!(scene.tag("x"), TagId(0));
    assert_eq!(scene.tag("y"), TagId(1));
    assert_eq!(scene.tag("z"), TagId(2));
    assert_eq!(scene.tag("w"), TagId(3));
    assert_eq!(scene.entity(a).unwrap().tags, vec![TagId(0), TagId(1), TagId(0)]);
    assert_eq!(scene.entity(b).unwrap().tags, vec![TagId(1), TagId(2)]);
    assert_eq!(scene.resolve(SceneTarget::Tag(TagId(1))), vec![a, b]);
    assert_eq!(scene.resolve(SceneTarget::Tag(TagId(3))), vec![]);
    assert_eq!(scene.resolve(SceneTarget::Id(b)), vec![b]);
    assert_eq!(scene.resolve(SceneTarget::Id(SceneId(7))), vec![]);
    assert_eq!(scene.entity(a).unwrap().tag_labels().len(), 3);
}

#[test]
fn labels_targets_and_baselines() {
    let mut scene = Scene::new();
    let a = scene.add(SceneEntity::new("a", text("a")).offset(2, 3).z(4));
    let b = scene.add(SceneEntity::new("b", text("b")).hidden());
    let a2 = scene.add(SceneEntity::new("a", text("c")));
    // The last entity added under a label answers for it.
    assert_eq!(scene.id_of("a"), Some(a2));
    assert_eq!(scene.id_of("nope"), None);
    assert_eq!(scene.target("b"), Some(SceneTarget::Id(b)));
    assert_eq!(scene.target("nope"), None);
    assert_eq!(scene.baseline_offset(a), (2, 3));
    assert_eq!(scene.baseline_offset(SceneId(9)), (0, 0));
    assert!(scene.baseline_visible(a));
    assert!(!scene.baseline_visible(b));
    assert!(!scene.baseline_visible(SceneId(9)));
    assert_eq!(scene.entities()[0].z, 4);
}

#[test]
fn set_node_replaces_only_a_known_entity() {
    let mut scene = Scene::new();
    let a = scene.add(SceneEntity::new("a", text("a")));
    assert!(scene.set_node(a, text("zz")));
    match &scene.entity(a).unwrap().node.kind {
        NodeKind::Text { text, .. } => assert_eq!(text, "zz"),
        _ => panic!("kind changed"),
    }
    assert!(!scene.set_node(SceneId(5), text("q")));
    assert_eq!(scene.entity(SceneId(5)).map(|e| e.id), None);
}

#[test]
fn interning_twice_gives_the_same_tag() {
    let mut scene = Scene::new();
    let x = scene.tag("x");
    let y = scene.tag("y");
    assert_eq!(scene.tag("x"), x);
    assert_eq!(scene.tag("y"), y);
    assert_eq!(scene.tag_names.len(), 2);
}
