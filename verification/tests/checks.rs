use bevy::color::Color;
use bevy::ecs::entity::Entity;
use bevy::ecs::world::World;
use bevy::hierarchy::Children;
use bevy::hierarchy::Parent;
use bevy::ui::BackgroundColor;
use bevy::ui::Outline;
use bevy::ui::widget::ImageNode;
use bevy_dioxus::applier::MutationApplier;
use bevy_dioxus::registry::ElementEntities;
use bevy_dioxus::registry::EntityElements;
use bevy_dioxus::registry::TemplateRegistry;
use bevy_dioxus::template::find_unsupported;
use bevy_dioxus::template::find_unsupported_among;
use bevy_dioxus::template::is_bevy_tag;
use bevy_dioxus::template::same_str;
use bevy_dioxus::template::ParsedAttributes;
use bevy_dioxus::template::BevyTemplate;
use bevy_dioxus::template::BevyTemplateNode;
use bevy_dioxus::template::StyleComponents;
use bevy_dioxus::template::Template;
use bevy_dioxus::template::TemplateNode;

fn no_attributes(_name: &String, _value: &String, parsed: ParsedAttributes) -> ParsedAttributes {
    parsed
}

fn setup() -> (World, u64, MutationApplier) {
    let mut world = World::new();
    let root = world.spawn_empty().id().to_bits();
    let applier = MutationApplier::new(ElementEntities::new(), EntityElements::new(), TemplateRegistry::new(), root);
    (world, root, applier)
}

fn children(world: &World, e: u64) -> Option<Vec<u64>> {
    world
        .entity(Entity::from_bits(e))
        .get::<Children>()
        .map(|c| c.iter().map(|x| x.to_bits()).collect())
}

/// Every listed child names its lister, and every named parent lists its child.
fn hierarchy_consistent(world: &mut World) -> bool {
    let mut query = world.query::<(Entity, Option<&Parent>, Option<&Children>)>();
    let rows: Vec<(Entity, Option<Entity>, Option<Vec<Entity>>)> = query
        .iter(world)
        .map(|(e, p, c)| (e, p.map(|p| p.get()), c.map(|c| c.to_vec())))
        .collect();
    for (e, parent, kids) in &rows {
        if let Some(kids) = kids {
            for (i, k) in kids.iter().enumerate() {
                if kids[..i].contains(k) {
                    return false;
                }
                if world.entity(*k).get::<Parent>().map(|p| p.get()) != Some(*e) {
                    return false;
                }
            }
        }
        if let Some(p) = parent {
            let listed = world.entity(*p).get::<Children>().map(|c| c.contains(e)).unwrap_or(false);
            if !listed {
                return false;
            }
        }
    }
    true
}

fn element(tag: &str, namespace: Option<&str>, children: Vec<TemplateNode>) -> TemplateNode {
    TemplateNode::Element {
        tag: tag.to_string(),
        namespace: namespace.map(|n| n.to_string()),
        attrs: vec![],
        children,
    }
}

#[test]
fn same_str_compares_characters() {
    assert!(same_str("bevy_ui", "bevy_ui"));
    assert!(!same_str("bevy_ui", "bevy"));
    assert!(!same_str("node", "nodf"));
    assert!(same_str("", ""));
}

#[test]
fn bevy_tags() {
    let ui = Some("bevy_ui".to_string());
    assert!(is_bevy_tag("node", &ui));
    assert!(is_bevy_tag("text", &ui));
    assert!(is_bevy_tag("image", &ui));
    assert!(!is_bevy_tag("div", &ui));
    assert!(!is_bevy_tag("node", &None));
    assert!(!is_bevy_tag("node", &Some("svg".to_string())));
}

#[test]
fn finds_first_unsupported_element() {
    let ok = element("node", Some("bevy_ui"), vec![TemplateNode::Text { text: "a".to_string() }]);
    assert!(find_unsupported(&ok).is_none());
    let bad = element(
        "node",
        Some("bevy_ui"),
        vec![element("div", None, vec![]), element("circle", Some("svg"), vec![])],
    );
    assert_eq!(find_unsupported(&bad), Some(("div".to_string(), None)));
    let roots = vec![ok, element("image", Some("bevy_ui"), vec![element("circle", Some("svg"), vec![])])];
    assert_eq!(find_unsupported_among(&roots), Some(("circle".to_string(), Some("svg".to_string()))));
}

#[test]
fn bevy_form_of_template() {
    let template = Template {
        name: "t".to_string(),
        roots: vec![
            element("text", Some("bevy_ui"), vec![TemplateNode::DynamicText { id: 0 }]),
            TemplateNode::Dynamic { id: 1 },
        ],
    };
    let bevy = BevyTemplate::from_dioxus(&template, &no_attributes);
    assert_eq!(bevy.root_count(), 2);
    match bevy.root(0) {
        BevyTemplateNode::TextNode { text, children, .. } => {
            assert_eq!(text, "");
            assert_eq!(children.len(), 1);
            assert!(matches!(&children[0], BevyTemplateNode::IntrinsicTextNode(s) if s.is_empty()));
        }
        _ => panic!("expected a text node"),
    }
    match bevy.root(1) {
        BevyTemplateNode::Node { children, .. } => assert!(children.is_empty()),
        _ => panic!("expected an empty node"),
    }
}

#[test]
fn append_checks() {
    let (mut world, root, mut applier) = setup();
    assert!(applier.can_append_children(&world, 0, 0));
    assert!(!applier.can_append_children(&world, 0, 1));
    assert!(!applier.can_append_children(&world, 0, 2));
    assert!(!applier.can_append_children(&world, 5, 0));
    applier.create_placeholder(&mut world, 1);
    assert!(applier.can_append_children(&world, 0, 1));
    assert!(!applier.can_append_children(&world, 1, 2));
    applier.append_children(&mut world, 0, 1);
    assert_eq!(applier.stack_len(), 1);
    assert_eq!(applier.stack_entry(0), root);
}

#[test]
fn placing_checks() {
    let (mut world, _root, mut applier) = setup();
    applier.create_placeholder(&mut world, 1);
    // Not a child yet: no parent to place next to.
    assert!(!applier.can_insert_nodes_after(&world, 1, 0));
    applier.append_children(&mut world, 0, 1);
    assert!(applier.can_insert_nodes_after(&world, 1, 0));
    assert!(applier.can_insert_nodes_before(&world, 1, 0));
    assert!(!applier.can_replace_node_with(&world, 0, 0));
    applier.create_placeholder(&mut world, 2);
    assert!(applier.can_insert_nodes_before(&world, 1, 1));
    assert!(applier.can_replace_node_with(&world, 1, 1));
    // The root is on the stack below: it cannot go under itself.
    assert!(!applier.can_insert_nodes_before(&world, 1, 2));
    assert!(!applier.can_insert_nodes_after(&world, 7, 1));
    assert!(hierarchy_consistent(&mut world));
}

#[test]
fn path_checks() {
    let (mut world, root, mut applier) = setup();
    applier.create_placeholder(&mut world, 1);
    applier.create_text_node(&mut world, "a", 2);
    applier.append_children(&mut world, 1, 1);
    let outer = applier.entity_of(1).unwrap();
    let inner = applier.entity_of(2).unwrap();
    assert_eq!(applier.resolve_path(&world, &[]), Some(outer));
    assert_eq!(applier.resolve_path(&world, &[0]), Some(inner));
    assert_eq!(applier.resolve_path(&world, &[1]), None);
    assert_eq!(applier.resolve_path(&world, &[0, 0]), None);
    assert!(applier.can_replace_placeholder_with_nodes(&world, &[], 0) == false);
    applier.append_children(&mut world, 0, 1);
    assert_eq!(children(&world, root), Some(vec![outer]));
    assert!(applier.can_replace_placeholder_with_nodes(&world, &[0], 0));
    assert!(!applier.can_replace_placeholder_with_nodes(&world, &[0], 1));
    assert!(MutationApplier::is_alive(&world, inner));
    applier.remove_node(&mut world, 1);
    assert!(!MutationApplier::is_alive(&world, inner));
    assert!(!MutationApplier::is_alive(&world, outer));
}

#[test]
fn template_lookups() {
    let (_world, _root, mut applier) = setup();
    assert_eq!(applier.template_root_count("t"), None);
    let template = Template {
        name: "t".to_string(),
        roots: vec![TemplateNode::Text { text: "x".to_string() }, TemplateNode::Dynamic { id: 0 }],
    };
    applier.register_template(&template, &no_attributes);
    assert_eq!(applier.template_root_count("t"), Some(2));
    assert_eq!(applier.template_root_count("u"), None);
}

#[test]
fn registry_maps() {
    let mut world = World::new();
    let e = world.spawn_empty().id().to_bits();
    let applier = MutationApplier::new(ElementEntities::new(), EntityElements::new(), TemplateRegistry::new(), e);
    let (elements, owners, templates) = applier.into_parts();
    assert_eq!(elements.get(0), Some(e));
    assert_eq!(elements.get(1), None);
    assert_eq!(owners.get(e), Some(0));
    let again = MutationApplier::new(elements, owners, templates, e);
    assert_eq!(again.entity_of(0), Some(e));
}

#[test]
fn spawned_image_carries_image_and_style() {
    let mut world = World::new();
    let mut style = StyleComponents::default();
    style.background_color = BackgroundColor(Color::srgb(0.25, 0.5, 0.75));
    let image = ImageNode::default().with_color(Color::srgb(1.0, 0.0, 0.0));
    let node = BevyTemplateNode::ImageNode { image: image.clone(), style, children: vec![] };
    let e = Entity::from_bits(node.spawn(&mut world));
    let carried = world.entity(e).get::<ImageNode>().expect("an image");
    assert_eq!(carried.color, image.color);
    assert_eq!(world.entity(e).get::<BackgroundColor>().unwrap().0, Color::srgb(0.25, 0.5, 0.75));
    let plain = BevyTemplateNode::Node { style: StyleComponents::default(), children: vec![] };
    let p = Entity::from_bits(plain.spawn(&mut world));
    assert!(world.entity(p).get::<ImageNode>().is_none());
    assert!(world.entity(p).get::<Outline>().is_some());
}

#[test]
fn placeholder_and_text_carry_required_style() {
    let (mut world, _root, mut applier) = setup();
    applier.create_placeholder(&mut world, 1);
    let p = Entity::from_bits(applier.entity_of(1).unwrap());
    assert!(world.entity(p).get::<bevy::ui::Node>().is_some());
    assert!(world.entity(p).get::<BackgroundColor>().is_some());
    assert!(world.entity(p).get::<Outline>().is_none());
    assert!(world.entity(p).get::<bevy::ui::GlobalZIndex>().is_none());
    // A text write puts back a required style component that was taken away,
    // and keeps the node.
    world.entity_mut(p).remove::<BackgroundColor>();
    applier.set_node_text(&mut world, "t", 1);
    assert!(world.entity(p).get::<BackgroundColor>().is_some());
    assert!(world.entity(p).get::<bevy::ui::Node>().is_some());
    assert!(world.entity(p).get::<bevy::text::TextLayoutInfo>().is_some());
}
