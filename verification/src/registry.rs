//! The two maps between dioxus element ids and bevy entities.
use vstd::prelude::*;
use bevy::ecs::entity::Entity;
use bevy::ecs::entity::EntityHashMap;
use bevy::utils::HashMap;
use dioxus::dioxus_core::ElementId;
use crate::template::BevyTemplate;
use crate::world::valid_entity_bits;

verus! {

/// Element id to entity, kept in a `bevy::utils::HashMap<ElementId, Entity>`
/// and reached only through the functions below.
#[verifier::external_body]
pub struct ElementEntities {
    map: HashMap<ElementId, Entity>,
}

/// Entity to element id, kept in a `bevy::ecs::entity::EntityHashMap<ElementId>`.
#[verifier::external_body]
pub struct EntityElements {
    map: EntityHashMap<ElementId>,
}

/// The pairs held by an `ElementEntities`: element id to entity bits.
pub uninterp spec fn element_entities(m: ElementEntities) -> Map<usize, u64>;

/// The pairs held by an `EntityElements`: entity bits to element id.
pub uninterp spec fn entity_elements(m: EntityElements) -> Map<u64, usize>;

/// Every entity in the map converts back with `Entity::from_bits`.
pub open spec fn entities_valid(m: Map<usize, u64>) -> bool {
    forall|id: usize| m.contains_key(id) ==> #[trigger] valid_entity_bits(m[id])
}

/// Calls `HashMap::default()`: an empty map.
#[verifier::external_body]
fn element_entities_empty() -> (m: ElementEntities)
    ensures
        element_entities(m).dom().is_empty(),
{
    ElementEntities { map: HashMap::default() }
}

/// Calls `HashMap::get(&ElementId(id))`, handing the entity out as bits.
#[verifier::external_body]
pub(crate) fn element_entities_get(m: &ElementEntities, id: usize) -> (r: Option<u64>)
    ensures
        r is Some <==> element_entities(*m).contains_key(id),
        r matches Some(e) ==> e == element_entities(*m)[id] && valid_entity_bits(e),
{
    m.map.get(&ElementId(id)).map(|e| e.to_bits())
}

/// Calls `HashMap::insert(ElementId(id), Entity::from_bits(e))`.
#[verifier::external_body]
pub(crate) fn element_entities_insert(m: &mut ElementEntities, id: usize, e: u64)
    requires
        valid_entity_bits(e),
    ensures
        element_entities(*final(m)) == element_entities(*old(m)).insert(id, e),
{
    m.map.insert(ElementId(id), Entity::from_bits(e));
}

/// Calls `HashMap::remove(&ElementId(id))`: the pair goes, and its entity is
/// handed out as bits.
#[verifier::external_body]
pub(crate) fn element_entities_remove(m: &mut ElementEntities, id: usize) -> (r: Option<u64>)
    ensures
        element_entities(*final(m)) == element_entities(*old(m)).remove(id),
        r is Some <==> element_entities(*old(m)).contains_key(id),
        r matches Some(e) ==> e == element_entities(*old(m))[id],
{
    m.map.remove(&ElementId(id)).map(|e| e.to_bits())
}

/// Calls `EntityHashMap::default()`: an empty map.
#[verifier::external_body]
fn entity_elements_empty() -> (m: EntityElements)
    ensures
        entity_elements(m).dom().is_empty(),
{
    EntityElements { map: EntityHashMap::default() }
}

/// Calls `EntityHashMap::get(&Entity::from_bits(e))`, handing the id out as a number.
#[verifier::external_body]
pub(crate) fn entity_elements_get(m: &EntityElements, e: u64) -> (r: Option<usize>)
    requires
        valid_entity_bits(e),
    ensures
        r is Some <==> entity_elements(*m).contains_key(e),
        r matches Some(id) ==> id == entity_elements(*m)[e],
{
    m.map.get(&Entity::from_bits(e)).map(|id| id.0)
}

/// Calls `EntityHashMap::insert(Entity::from_bits(e), ElementId(id))`.
#[verifier::external_body]
pub(crate) fn entity_elements_insert(m: &mut EntityElements, e: u64, id: usize)
    requires
        valid_entity_bits(e),
    ensures
        entity_elements(*final(m)) == entity_elements(*old(m)).insert(e, id),
{
    m.map.insert(Entity::from_bits(e), ElementId(id));
}

/// Calls `EntityHashMap::remove(&Entity::from_bits(e))`: the pair goes, and
/// its id is handed out.
#[verifier::external_body]
pub(crate) fn entity_elements_remove(m: &mut EntityElements, e: u64) -> (r: Option<usize>)
    requires
        valid_entity_bits(e),
    ensures
        entity_elements(*final(m)) == entity_elements(*old(m)).remove(e),
        r is Some <==> entity_elements(*old(m)).contains_key(e),
        r matches Some(id) ==> id == entity_elements(*old(m))[e],
{
    m.map.remove(&Entity::from_bits(e)).map(|id| id.0)
}

/// Template name to template, kept in a `bevy::utils::HashMap<String, BevyTemplate>`.
#[verifier::external_body]
pub struct TemplateRegistry {
    map: HashMap<String, BevyTemplate>,
}

/// The templates held by a `TemplateRegistry`, by name.
pub uninterp spec fn registered_templates(r: TemplateRegistry) -> Map<Seq<char>, BevyTemplate>;

/// Calls `HashMap::default()`: no template.
#[verifier::external_body]
fn templates_empty() -> (r: TemplateRegistry)
    ensures
        registered_templates(r).dom().is_empty(),
{
    TemplateRegistry { map: HashMap::default() }
}

/// Calls `HashMap::insert(name, template)`: `name` now names `template`.
#[verifier::external_body]
pub(crate) fn templates_insert(r: &mut TemplateRegistry, name: String, template: BevyTemplate)
    ensures
        registered_templates(*final(r)) == registered_templates(*old(r)).insert(name@, template),
{
    r.map.insert(name, template);
}

/// Calls `HashMap::get(name)`.
#[verifier::external_body]
pub(crate) fn templates_get<'a>(r: &'a TemplateRegistry, name: &str) -> (t: Option<&'a BevyTemplate>)
    ensures
        t is Some <==> registered_templates(*r).contains_key(name@),
        t matches Some(t) ==> *t == registered_templates(*r)[name@],
{
    r.map.get(name)
}

impl TemplateRegistry {
    /// A registry with no template.
    pub fn new() -> (r: Self)
        ensures
            registered_templates(r).dom().is_empty(),
    {
        templates_empty()
    }
}

impl ElementEntities {
    /// A map with no pairs.
    pub fn new() -> (m: Self)
        ensures
            element_entities(m).dom().is_empty(),
    {
        element_entities_empty()
    }

    /// The entity that shows element `id`, if any.
    pub fn get(&self, id: usize) -> (r: Option<u64>)
        ensures
            r is Some <==> element_entities(*self).contains_key(id),
            r matches Some(e) ==> e == element_entities(*self)[id],
    {
        element_entities_get(self, id)
    }
}

impl EntityElements {
    /// A map with no pairs.
    pub fn new() -> (m: Self)
        ensures
            entity_elements(m).dom().is_empty(),
    {
        entity_elements_empty()
    }

    /// The element that entity `e` shows, if any.
    pub fn get(&self, e: u64) -> (r: Option<usize>)
        requires
            valid_entity_bits(e),
        ensures
            r is Some <==> entity_elements(*self).contains_key(e),
            r matches Some(id) ==> id == entity_elements(*self)[e],
    {
        entity_elements_get(self, e)
    }
}

} // verus!
