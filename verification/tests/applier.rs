use bevy::ecs::entity::Entity;
use bevy::ecs::world::World;
use bevy::hierarchy::Children;
use bevy::hierarchy::Parent;
use bevy::ui::widget::ImageNode;
use bevy::ui::widget::Text;
use bevy_dioxus::applier::AttributeValue;
use bevy_dioxus::applier::MutationApplier;
use bevy_dioxus::registry::ElementEntities;
use bevy_dioxus::registry::EntityElements;
use bevy_dioxus::registry::TemplateRegistry;
use bevy_dioxus::template::ParsedAttributes;
use bevy_dioxus::template::Template;
use bevy_dioxus::template::TemplateAttribute;
use bevy_dioxus::template::TemplateNode;

fn children(world: &World, e: u64) -> Option<Vec<u64>> {
    world
        .entity(Entity::from_bits(e))
        .get::<Children>()
        .map(|c| c.iter().map(|x| x.to_bits()).collect())
}

fn parent(world: &World, e: u64) -> Option<u64> {
    world.entity(Entity::from_bits(e)).get::<Parent>().map(|p| p.get().to_bits())
}

fn text(world: &World, e: u64) -> Option<String> {
    world.entity(Entity::from_bits(e)).get::<Text>().map(|t| t.0.clone())
}

fn alive(world: &World, e: u64) -> bool {
    world.get_entity(Entity::from_bits(e)).is_ok()
}

fn setup() -> (World, u64, MutationApplier) {
    let mut world = World::new();
    let root = world.spawn_empty().id().to_bits();
    let applier = MutationApplier::new(ElementEntities::new(), EntityElements::new(), TemplateRegistry::new(), root);
    (world, root, applier)
}

/// Sets the text of text elements from an attribute named `value`.
fn text_attributes(name: &String, value: &String, mut parsed: ParsedAttributes) -> ParsedAttributes {
    if name == "value" {
        parsed.text = value.clone();
    }
    parsed
}

fn element(tag: &str, attrs: Vec<TemplateAttribute>, children: Vec<TemplateNode>) -> TemplateNode {
    TemplateNode::Element {
        tag: tag.to_string(),
        namespace: Some("bevy_ui".to_string()),
        attrs,
        children,
    }
}

#[test]
fn root_is_element_zero() {
    let (_world, root, applier) = setup();
    assert_eq!(applier.entity_of(0), Some(root));
    assert_eq!(applier.entity_of(1), None);
    let (elements, owners, _) = applier.into_parts();
    assert_eq!(elements.get(0), Some(root));
    assert_eq!(owners.get(root), Some(0));
}

#[test]
fn placeholder_appended_to_root() {
    let (mut world, root, mut applier) = setup();
    applier.create_placeholder(&mut world, 1);
    let placeholder = applier.entity_of(1).unwrap();
    assert_ne!(placeholder, root);
    applier.append_children(&mut world, 0, 1);
    assert_eq!(children(&world, root), Some(vec![placeholder]));
    assert_eq!(parent(&world, placeholder), Some(root));
    assert_eq!(text(&world, placeholder), None);
}

#[test]
fn append_keeps_stack_order() {
    let (mut world, root, mut applier) = setup();
    applier.create_text_node(&mut world, "a", 1);
    applier.create_text_node(&mut world, "b", 2);
    applier.create_text_node(&mut world, "c", 3);
    let a = applier.entity_of(1).unwrap();
    let b = applier.entity_of(2).unwrap();
    let c = applier.entity_of(3).unwrap();
    applier.append_children(&mut world, 0, 2);
    assert_eq!(children(&world, root), Some(vec![b, c]));
    applier.append_children(&mut world, 0, 1);
    assert_eq!(children(&world, root), Some(vec![b, c, a]));
    assert_eq!(text(&world, a).as_deref(), Some("a"));
    assert_eq!(text(&world, c).as_deref(), Some("c"));
}

#[test]
fn append_moves_a_child_to_the_end() {
    let (mut world, root, mut applier) = setup();
    applier.create_placeholder(&mut world, 1);
    applier.create_placeholder(&mut world, 2);
    let a = applier.entity_of(1).unwrap();
    let b = applier.entity_of(2).unwrap();
    applier.append_children(&mut world, 0, 2);
    applier.push_root(1);
    applier.append_children(&mut world, 0, 1);
    assert_eq!(children(&world, root), Some(vec![b, a]));
}

#[test]
fn insert_before_and_after() {
    let (mut world, root, mut applier) = setup();
    applier.create_placeholder(&mut world, 1);
    applier.append_children(&mut world, 0, 1);
    let middle = applier.entity_of(1).unwrap();
    applier.create_text_node(&mut world, "before", 2);
    applier.insert_nodes_before(&mut world, 1, 1);
    applier.create_text_node(&mut world, "after", 3);
    applier.create_text_node(&mut world, "last", 4);
    applier.insert_nodes_after(&mut world, 1, 2);
    let before = applier.entity_of(2).unwrap();
    let after = applier.entity_of(3).unwrap();
    let last = applier.entity_of(4).unwrap();
    assert_eq!(children(&world, root), Some(vec![before, middle, after, last]));
    assert_eq!(parent(&world, after), Some(root));
}

#[test]
fn replace_node_takes_its_place() {
    let (mut world, root, mut applier) = setup();
    applier.create_placeholder(&mut world, 1);
    applier.create_placeholder(&mut world, 2);
    applier.create_placeholder(&mut world, 3);
    applier.append_children(&mut world, 0, 3);
    let first = applier.entity_of(1).unwrap();
    let old = applier.entity_of(2).unwrap();
    let third = applier.entity_of(3).unwrap();
    applier.create_text_node(&mut world, "x", 4);
    applier.create_text_node(&mut world, "y", 5);
    applier.replace_node_with(&mut world, 2, 2);
    let x = applier.entity_of(4).unwrap();
    let y = applier.entity_of(5).unwrap();
    assert_eq!(children(&world, root), Some(vec![first, x, y, third]));
    assert!(!alive(&world, old));
    assert_eq!(applier.entity_of(2), None);
}

#[test]
fn remove_node_despawns_subtree() {
    let (mut world, root, mut applier) = setup();
    applier.create_placeholder(&mut world, 1);
    applier.create_text_node(&mut world, "inner", 2);
    applier.append_children(&mut world, 1, 1);
    applier.append_children(&mut world, 0, 1);
    let outer = applier.entity_of(1).unwrap();
    let inner = applier.entity_of(2).unwrap();
    applier.remove_node(&mut world, 1);
    assert!(!alive(&world, outer));
    assert!(!alive(&world, inner));
    assert_eq!(applier.entity_of(1), None);
    // The element of the inner node is kept, as before.
    assert_eq!(applier.entity_of(2), Some(inner));
    assert_eq!(children(&world, root), Some(vec![]));
}

#[test]
fn set_node_text_changes_text() {
    let (mut world, _root, mut applier) = setup();
    applier.create_text_node(&mut world, "old", 1);
    applier.set_node_text(&mut world, "new", 1);
    let e = applier.entity_of(1).unwrap();
    assert_eq!(text(&world, e).as_deref(), Some("new"));
}

fn card_template() -> Template {
    Template {
        name: "card".to_string(),
        roots: vec![
            element(
                "node",
                vec![],
                vec![
                    element(
                        "text",
                        vec![TemplateAttribute::Static {
                            name: "value".to_string(),
                            value: "title".to_string(),
                            namespace: None,
                        }],
                        vec![],
                    ),
                    TemplateNode::Dynamic { id: 0 },
                    TemplateNode::DynamicText { id: 1 },
                    TemplateNode::Text { text: "fixed".to_string() },
                ],
            ),
            element("image", vec![], vec![]),
        ],
    }
}

#[test]
fn load_template_builds_the_tree() {
    let (mut world, root, mut applier) = setup();
    applier.register_template(&card_template(), &text_attributes);
    applier.load_template(&mut world, "card", 0, 7);
    let card = applier.entity_of(7).unwrap();
    let kids = children(&world, card).unwrap();
    assert_eq!(kids.len(), 4);
    assert_eq!(text(&world, kids[0]).as_deref(), Some("title"));
    assert_eq!(children(&world, kids[0]), None);
    assert_eq!(text(&world, kids[1]), None);
    assert_eq!(text(&world, kids[2]).as_deref(), Some(""));
    assert_eq!(text(&world, kids[3]).as_deref(), Some("fixed"));
    for kid in &kids {
        assert_eq!(parent(&world, *kid), Some(card));
    }
    assert_eq!(parent(&world, card), None);
    applier.append_children(&mut world, 0, 1);
    assert_eq!(children(&world, root), Some(vec![card]));
}

#[test]
fn load_second_root_of_template() {
    let (mut world, _root, mut applier) = setup();
    applier.register_template(&card_template(), &text_attributes);
    applier.load_template(&mut world, "card", 1, 3);
    let image = applier.entity_of(3).unwrap();
    assert_eq!(children(&world, image), None);
    assert!(world.entity(Entity::from_bits(image)).get::<ImageNode>().is_some());
}

#[test]
fn assign_and_hydrate_along_path() {
    let (mut world, _root, mut applier) = setup();
    applier.register_template(&card_template(), &text_attributes);
    applier.load_template(&mut world, "card", 0, 7);
    let card = applier.entity_of(7).unwrap();
    let kids = children(&world, card).unwrap();
    applier.assign_node_id(&world, &[1], 8);
    assert_eq!(applier.entity_of(8), Some(kids[1]));
    applier.hydrate_text_node(&mut world, &[2], "hello", 9);
    assert_eq!(applier.entity_of(9), Some(kids[2]));
    assert_eq!(text(&world, kids[2]).as_deref(), Some("hello"));
    applier.assign_node_id(&world, &[], 10);
    assert_eq!(applier.entity_of(10), Some(card));
}

#[test]
fn replace_placeholder_inside_template() {
    let (mut world, _root, mut applier) = setup();
    applier.register_template(&card_template(), &text_attributes);
    applier.load_template(&mut world, "card", 0, 7);
    let card = applier.entity_of(7).unwrap();
    let kids = children(&world, card).unwrap();
    applier.create_text_node(&mut world, "one", 11);
    applier.create_text_node(&mut world, "two", 12);
    applier.replace_placeholder_with_nodes(&mut world, &[1], 2);
    let one = applier.entity_of(11).unwrap();
    let two = applier.entity_of(12).unwrap();
    assert_eq!(children(&world, card), Some(vec![kids[0], one, two, kids[2], kids[3]]));
    assert!(!alive(&world, kids[1]));
}

#[test]
fn attribute_target_gives_entity_and_text() {
    let (_world, root, applier) = setup();
    let value = AttributeValue::Text("width: 10px".to_string());
    let (entity, text) = applier.attribute_target(&value, 0);
    assert_eq!(entity, root);
    assert_eq!(text, "width: 10px");
}

#[test]
fn template_registered_twice_keeps_last() {
    let (mut world, _root, mut applier) = setup();
    applier.register_template(&card_template(), &text_attributes);
    let single = Template { name: "card".to_string(), roots: vec![TemplateNode::Text { text: "only".to_string() }] };
    applier.register_template(&single, &text_attributes);
    applier.load_template(&mut world, "card", 0, 1);
    let e = applier.entity_of(1).unwrap();
    assert_eq!(text(&world, e).as_deref(), Some("only"));
}
