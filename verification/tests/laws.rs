use bevy::ecs::entity::Entity;
use bevy::ecs::world::World;
use bevy::hierarchy::Children;
use bevy::hierarchy::Parent;
use bevy_dioxus::applier::MutationApplier;
use bevy_dioxus::registry::ElementEntities;
use bevy_dioxus::registry::EntityElements;
use bevy_dioxus::registry::TemplateRegistry;
use bevy_dioxus::template::ParsedAttributes;
use bevy_dioxus::template::Template;
use bevy_dioxus::template::TemplateNode;

fn no_attributes(_name: &String, _value: &String, parsed: ParsedAttributes) -> ParsedAttributes {
    parsed
}

fn children(world: &World, e: u64) -> Option<Vec<u64>> {
    world
        .entity(Entity::from_bits(e))
        .get::<Children>()
        .map(|c| c.iter().map(|x| x.to_bits()).collect())
}

fn consistent(world: &mut World) -> bool {
    let mut query = world.query::<(Entity, Option<&Parent>, Option<&Children>)>();
    let rows: Vec<(Entity, Option<Entity>, Option<Vec<Entity>>)> = query
        .iter(world)
        .map(|(e, p, c)| (e, p.map(|p| p.get()), c.map(|c| c.to_vec())))
        .collect();
    rows.iter().all(|(e, parent, kids)| {
        let kids_ok = kids.as_ref().map_or(true, |kids| {
            kids.iter().enumerate().all(|(i, k)| {
                !kids[..i].contains(k) && world.entity(*k).get::<Parent>().map(|p| p.get()) == Some(*e)
            })
        });
        let parent_ok = parent.map_or(true, |p| {
            world.entity(p).get::<Children>().map(|c| c.contains(e)).unwrap_or(false)
        });
        kids_ok && parent_ok
    })
}

fn setup() -> (World, u64, MutationApplier) {
    let mut world = World::new();
    let root = world.spawn_empty().id().to_bits();
    let applier = MutationApplier::new(ElementEntities::new(), EntityElements::new(), TemplateRegistry::new(), root);
    (world, root, applier)
}

fn maps_inverse(applier: MutationApplier, ids: &[usize]) -> (bool, MutationApplier) {
    let (elements, owners, templates) = applier.into_parts();
    let mut ok = true;
    for id in ids {
        if let Some(e) = elements.get(*id) {
            ok = ok && owners.get(e) == Some(*id);
        }
    }
    let root = elements.get(0).unwrap();
    (ok, MutationApplier::new(elements, owners, templates, root))
}

#[test]
fn appended_children_end_the_list() {
    let (mut world, root, mut applier) = setup();
    applier.create_placeholder(&mut world, 1);
    applier.create_placeholder(&mut world, 2);
    applier.append_children(&mut world, 0, 2);
    let a = applier.entity_of(1).unwrap();
    let b = applier.entity_of(2).unwrap();
    applier.create_text_node(&mut world, "c", 3);
    applier.push_root(1);
    applier.append_children(&mut world, 0, 2);
    let c = applier.entity_of(3).unwrap();
    // The former children not moved come first, then the moved ones in stack order.
    assert_eq!(children(&world, root), Some(vec![b, c, a]));
    assert!(consistent(&mut world));
}

#[test]
fn moving_under_another_parent_keeps_hierarchy_consistent() {
    let (mut world, root, mut applier) = setup();
    applier.create_placeholder(&mut world, 1);
    applier.create_placeholder(&mut world, 2);
    applier.create_text_node(&mut world, "t", 3);
    applier.append_children(&mut world, 0, 3);
    let a = applier.entity_of(1).unwrap();
    let t = applier.entity_of(3).unwrap();
    // Move the text under `a`.
    applier.push_root(3);
    applier.append_children(&mut world, 1, 1);
    assert_eq!(children(&world, a), Some(vec![t]));
    assert_eq!(children(&world, root).unwrap().len(), 2);
    assert!(consistent(&mut world));
    // Move it back before `a`.
    applier.push_root(3);
    applier.insert_nodes_before(&mut world, 1, 1);
    assert_eq!(children(&world, root).unwrap()[0], t);
    assert_eq!(children(&world, a), None);
    assert!(consistent(&mut world));
}

#[test]
fn replacing_and_removing_keep_hierarchy_consistent() {
    let (mut world, root, mut applier) = setup();
    let template = Template {
        name: "list".to_string(),
        roots: vec![TemplateNode::Element {
            tag: "node".to_string(),
            namespace: Some("bevy_ui".to_string()),
            attrs: vec![],
            children: vec![TemplateNode::Dynamic { id: 0 }, TemplateNode::Text { text: "end".to_string() }],
        }],
    };
    applier.register_template(&template, &no_attributes);
    applier.load_template(&mut world, "list", 0, 1);
    assert!(consistent(&mut world));
    applier.append_children(&mut world, 0, 1);
    applier.push_root(1);
    applier.create_text_node(&mut world, "x", 2);
    applier.create_text_node(&mut world, "y", 3);
    assert!(applier.can_replace_placeholder_with_nodes(&world, &[0], 2));
    applier.replace_placeholder_with_nodes(&mut world, &[0], 2);
    assert!(consistent(&mut world));
    let list = applier.entity_of(1).unwrap();
    assert_eq!(children(&world, list).unwrap().len(), 3);
    applier.remove_node(&mut world, 2);
    assert!(consistent(&mut world));
    assert_eq!(children(&world, list).unwrap().len(), 2);
    applier.remove_node(&mut world, 1);
    assert!(consistent(&mut world));
    assert_eq!(children(&world, root), Some(vec![]));
}

#[test]
fn fresh_registrations_keep_maps_inverse() {
    let (mut world, _root, mut applier) = setup();
    applier.create_placeholder(&mut world, 1);
    applier.create_text_node(&mut world, "a", 2);
    applier.append_children(&mut world, 1, 1);
    let (ok, mut applier) = maps_inverse(applier, &[0, 1, 2]);
    assert!(ok);
    applier.remove_node(&mut world, 2);
    assert_eq!(applier.entity_of(2), None);
    let (ok, applier) = maps_inverse(applier, &[0, 1, 2]);
    assert!(ok);
    assert!(applier.entity_of(1).is_some());
}

#[test]
fn every_child_has_a_sibling_slot() {
    let (mut world, _root, mut applier) = setup();
    applier.create_placeholder(&mut world, 1);
    applier.create_placeholder(&mut world, 2);
    applier.create_placeholder(&mut world, 3);
    applier.append_children(&mut world, 0, 3);
    for id in 1..4 {
        assert!(applier.can_insert_nodes_before(&world, id, 0));
        assert!(applier.can_insert_nodes_after(&world, id, 0));
    }
    assert!(!applier.can_insert_nodes_before(&world, 0, 0));
}

#[test]
fn loading_twice_spawns_two_trees() {
    let (mut world, _root, mut applier) = setup();
    let template = Template {
        name: "pair".to_string(),
        roots: vec![TemplateNode::Element {
            tag: "image".to_string(),
            namespace: Some("bevy_ui".to_string()),
            attrs: vec![],
            children: vec![TemplateNode::Text { text: "caption".to_string() }],
        }],
    };
    applier.register_template(&template, &no_attributes);
    applier.load_template(&mut world, "pair", 0, 1);
    applier.load_template(&mut world, "pair", 0, 2);
    let first = applier.entity_of(1).unwrap();
    let second = applier.entity_of(2).unwrap();
    assert_ne!(first, second);
    let a = children(&world, first).unwrap();
    let b = children(&world, second).unwrap();
    assert_eq!(a.len(), 1);
    assert_eq!(b.len(), 1);
    assert_ne!(a[0], b[0]);
    assert!(consistent(&mut world));
}

/// Builds root → [a, b] and puts a new placeholder either after `a` or
/// before `b`; returns the root's children as element ids.
fn place_between(after: bool) -> Vec<Option<usize>> {
    let (mut world, root, mut applier) = setup();
    applier.create_placeholder(&mut world, 1);
    applier.create_placeholder(&mut world, 2);
    applier.append_children(&mut world, 0, 2);
    applier.create_placeholder(&mut world, 3);
    if after {
        applier.insert_nodes_after(&mut world, 1, 1);
    } else {
        applier.insert_nodes_before(&mut world, 2, 1);
    }
    let list = children(&world, root).unwrap();
    let (elements, owners, _) = applier.into_parts();
    let _ = elements;
    list.iter().map(|e| owners.get(*e)).collect()
}

#[test]
fn before_next_is_after() {
    assert_eq!(place_between(true), vec![Some(1), Some(3), Some(2)]);
    assert_eq!(place_between(false), place_between(true));
}

#[test]
fn creating_keeps_maps_inverse() {
    let (mut world, _root, applier) = setup();
    let mut applier = applier;
    applier.create_placeholder(&mut world, 4);
    applier.create_text_node(&mut world, "x", 5);
    let (ok, _) = maps_inverse(applier, &[0, 4, 5]);
    assert!(ok);
}

#[test]
fn text_write_keeps_layout_and_other_entities() {
    let (mut world, _root, mut applier) = setup();
    applier.create_text_node(&mut world, "a", 1);
    applier.create_placeholder(&mut world, 2);
    let t = Entity::from_bits(applier.entity_of(1).unwrap());
    let p = Entity::from_bits(applier.entity_of(2).unwrap());
    world.entity_mut(t).get_mut::<bevy::text::TextLayoutInfo>().unwrap().size = bevy::math::Vec2::new(3.0, 4.0);
    applier.set_node_text(&mut world, "b", 1);
    assert_eq!(world.entity(t).get::<bevy::text::TextLayoutInfo>().unwrap().size, bevy::math::Vec2::new(3.0, 4.0));
    assert_eq!(world.entity(t).get::<bevy::ui::widget::Text>().unwrap().0, "b");
    assert!(world.entity(p).get::<bevy::ui::widget::Text>().is_none());
}
