//! Applies the mutations that dioxus emits to a bevy world: a stack of
//! entities being assembled, the maps between element ids and entities,
//! and the hierarchy of the world.
use vstd::prelude::*;
use vstd::slice::slice_subrange;
use bevy::ecs::world::World;
use crate::registry::ElementEntities;
use crate::registry::EntityElements;
use crate::registry::TemplateRegistry;
use crate::registry::element_entities;
use crate::registry::element_entities_get;
use crate::registry::element_entities_insert;
use crate::registry::element_entities_remove;
use crate::registry::entities_valid;
use crate::registry::entity_elements;
use crate::registry::entity_elements_insert;
use crate::registry::entity_elements_remove;
use crate::registry::registered_templates;
use crate::registry::templates_get;
use crate::registry::templates_insert;
use crate::spawn::spawned_tree_into;
use crate::template::ParsedAttributes;
use crate::template::all_parsed_from;
use crate::template::BevyTemplate;
use crate::template::Template;
use crate::template::all_mirror_from;
use crate::template::all_supported_from;
use crate::world::Components;
use crate::world::WorldView;
use crate::world::add_child;
use crate::world::can_insert_children;
use crate::world::child_appended;
use crate::world::children_inserted;
use crate::world::despawn_recursive;
use crate::world::despawned_into;
use crate::world::entity_alive;
use crate::world::entity_children;
use crate::world::entity_parent;
use crate::world::changed_to;
use crate::world::insert_children;
use crate::world::is_live;
use crate::world::not_among;
use crate::world::set_text;
use crate::world::set_text_with_layout;
use crate::world::spawn_placeholder;
use crate::world::spawn_text;
use crate::world::spawned_into;
use crate::world::text_written;
use crate::world::valid_entity_bits;
use crate::world::world_view;

verus! {

/// The entity reached from `start` by taking, for each step of `path`, the
/// child at that position; `None` where bevy would panic on the way (a dead
/// entity, no `Children`, or a position past the end).
pub open spec fn path_target(v: WorldView, start: u64, path: Seq<u8>) -> Option<u64>
    decreases path.len(),
{
    if path.len() == 0 {
        Some(start)
    } else if is_live(v, start) && v.parts.children.contains_key(start)
        && (path[0] as int) < v.parts.children[start].len() {
        path_target(v, v.parts.children[start][path[0] as int], path.skip(1))
    } else {
        None
    }
}

/// The first position of `x` in `s`.
pub open spec fn first_index_of(s: Seq<u64>, x: u64) -> int {
    choose|i: int| 0 <= i < s.len() && s[i] == x && forall|j: int| 0 <= j < i ==> s[j] != x
}

/// The last `m` entries of `s`.
pub open spec fn top(s: Seq<u64>, m: int) -> Seq<u64> {
    s.subrange(s.len() - m, s.len() as int)
}

/// `s` without its last `m` entries.
pub open spec fn below_top(s: Seq<u64>, m: int) -> Seq<u64> {
    s.subrange(0, s.len() - m)
}

/// The parent of `x` and the position of `x` among its children can be
/// read without a panic.
pub open spec fn has_sibling_slot(v: WorldView, x: u64) -> bool {
    &&& is_live(v, x)
    &&& v.parts.parents.contains_key(x)
    &&& is_live(v, v.parts.parents[x])
    &&& v.parts.children.contains_key(v.parts.parents[x])
    &&& v.parts.children[v.parts.parents[x]].contains(x)
}

/// The position of `x` among the children of its parent, plus `offset`.
pub open spec fn slot_index(c: Components, x: u64, offset: int) -> int {
    first_index_of(c.children[c.parents[x]], x) + offset
}

/// Putting `kids` among the children of the parent of `x`, `offset` places
/// after `x`, does not panic.
pub open spec fn can_place_near(v: WorldView, x: u64, offset: int, kids: Seq<u64>) -> bool {
    &&& has_sibling_slot(v, x)
    &&& can_insert_children(v, v.parts.parents[x], slot_index(v.parts, x, offset), kids)
}

/// The components once `kids` are inserted among the children of the parent
/// of `x`, `offset` places after `x`.
pub open spec fn placed_near(c: Components, x: u64, offset: int, kids: Seq<u64>) -> Components {
    children_inserted(c, c.parents[x], slot_index(c, x, offset), kids)
}

/// `add_child` of each of `kids` in turn to `parent`.
pub open spec fn children_appended_one_by_one(c: Components, parent: u64, kids: Seq<u64>) -> Components
    decreases kids.len(),
{
    if kids.len() == 0 {
        c
    } else {
        child_appended(children_appended_one_by_one(c, parent, kids.drop_last()), parent, kids.last())
    }
}

/// The element map once the element shown by `e` is forgotten, if there is one.
pub open spec fn forget_owner(elements: Map<usize, u64>, owners: Map<u64, usize>, e: u64) -> Map<usize, u64> {
    if owners.contains_key(e) {
        elements.remove(owners[e])
    } else {
        elements
    }
}

/// Follows `path` from `start` through the `Children` lists of `world`.
fn follow_path(world: &World, start: u64, path: &[u8]) -> (r: u64)
    requires
        valid_entity_bits(start),
        path_target(world_view(*world), start, path@) is Some,
    ensures
        path_target(world_view(*world), start, path@) == Some(r),
        valid_entity_bits(r),
{
    let ghost v = world_view(*world);
    let mut entity = start;
    let mut i: usize = 0;
    assert(path@.skip(0) =~= path@);
    while i < path.len()
        invariant
            0 <= i <= path@.len(),
            v == world_view(*world),
            valid_entity_bits(entity),
            path_target(v, start, path@) == path_target(v, entity, path@.skip(i as int)),
            path_target(v, start, path@) is Some,
        decreases path.len() - i,
    {
        let ghost rest = path@.skip(i as int);
        assert(rest[0] == path@[i as int]);
        assert(rest.skip(1) =~= path@.skip(i + 1));
        let kids = entity_children(world, entity).unwrap();
        entity = kids[path[i] as usize];
        i += 1;
    }
    assert(path@.skip(path@.len() as int) =~= Seq::<u8>::empty());
    entity
}

/// Follows `path` from `start`, or `None` where that would panic.
fn try_follow_path(world: &World, start: u64, path: &[u8]) -> (r: Option<u64>)
    requires
        valid_entity_bits(start),
    ensures
        r == path_target(world_view(*world), start, path@),
        r matches Some(e) ==> valid_entity_bits(e),
{
    let ghost v = world_view(*world);
    let mut entity = start;
    let mut i: usize = 0;
    assert(path@.skip(0) =~= path@);
    while i < path.len()
        invariant
            0 <= i <= path@.len(),
            v == world_view(*world),
            valid_entity_bits(entity),
            path_target(v, start, path@) == path_target(v, entity, path@.skip(i as int)),
        decreases path.len() - i,
    {
        let ghost rest = path@.skip(i as int);
        assert(rest[0] == path@[i as int]);
        assert(rest.skip(1) =~= path@.skip(i + 1));
        if !entity_alive(world, entity) {
            return None;
        }
        let kids = match entity_children(world, entity) {
            Some(list) => list,
            None => return None,
        };
        let index = path[i] as usize;
        if index >= kids.len() {
            return None;
        }
        entity = kids[index];
        i += 1;
    }
    assert(path@.skip(path@.len() as int) =~= Seq::<u8>::empty());
    Some(entity)
}

/// The last `m` entries of `stack`.
fn slice_top(stack: &Vec<u64>, m: usize) -> (r: &[u64])
    requires
        m <= stack@.len(),
    ensures
        r@ == top(stack@, m as int),
{
    let s = stack.as_slice();
    slice_subrange(s, stack.len() - m, stack.len())
}

/// The position of the first `x` in `list`.
fn position_of(list: &Vec<u64>, x: u64) -> (r: usize)
    requires
        list@.contains(x),
    ensures
        r == first_index_of(list@, x),
        r < list@.len(),
        list@[r as int] == x,
{
    let mut i: usize = 0;
    while i < list.len()
        invariant
            0 <= i <= list@.len(),
            list@.contains(x),
            forall|j: int| 0 <= j < i ==> list@[j] != x,
        decreases list.len() - i,
    {
        if list[i] == x {
            let ghost k = first_index_of(list@, x);
            assert(0 <= k < list@.len() && list@[k] == x && forall|j: int| 0 <= j < k ==> list@[j] != x);
            assert(k == i) by {
                if k < i {
                    assert(list@[k] != x);
                } else if k > i {
                    assert(list@[i as int] != x);
                }
            }
            return i;
        }
        i += 1;
    }
    assert(false);
    0
}

/// The parent of `x` and the position of `x` among the children of that
/// parent, plus `offset`.
fn sibling_slot(world: &World, x: u64, offset: usize) -> (r: (u64, usize))
    requires
        has_sibling_slot(world_view(*world), x),
        offset <= 1,
    ensures
        r.0 == world_view(*world).parts.parents[x],
        r.1 == slot_index(world_view(*world).parts, x, offset as int),
        valid_entity_bits(r.0),
{
    let parent = entity_parent(world, x).unwrap();
    let siblings = entity_children(world, parent).unwrap();
    let index = position_of(&siblings, x);
    (parent, index + offset)
}

/// A recursive despawn reads the same against a view that differs only in
/// being quiet.
proof fn lemma_despawn_from_grown(v: WorldView, v1: WorldView, w: WorldView, e: u64)
    requires
        v.entities == v1.entities,
        v1.parts == v.parts,
        despawned_into(v1, w, e),
    ensures
        despawned_into(v, w, e),
{
}

/// What the applier tells apart in the value of a dynamic attribute.
pub enum AttributeValue {
    /// A text value.
    Text(String),
    /// No value: the attribute is to be removed.
    Unset,
    /// A number, a flag, a listener or a value of another kind.
    Other,
}

/// `list` holds `x`.
fn holds(list: &[u64], x: u64) -> (r: bool)
    ensures
        r == list@.contains(x),
{
    let mut i: usize = 0;
    while i < list.len()
        invariant
            0 <= i <= list@.len(),
            forall|j: int| 0 <= j < i ==> list@[j] != x,
        decreases list.len() - i,
    {
        if list[i] == x {
            assert(list@[i as int] == x);
            return true;
        }
        i += 1;
    }
    false
}

/// How many of `list` are not among `kids`.
fn count_not_among(list: &Vec<u64>, kids: &[u64]) -> (n: usize)
    ensures
        n == list@.filter(not_among(kids@)).len(),
{
    let mut n: usize = 0;
    let mut i: usize = 0;
    while i < list.len()
        invariant
            0 <= i <= list@.len(),
            n == list@.take(i as int).filter(not_among(kids@)).len(),
            n <= i,
        decreases list.len() - i,
    {
        proof {
            let before = list@.take(i as int);
            assert(list@.take(i + 1) =~= before.push(list@[i as int]));
            before.lemma_filter_push(list@[i as int], not_among(kids@));
        }
        if !holds(kids, list[i]) {
            n += 1;
        }
        i += 1;
    }
    assert(list@.take(list@.len() as int) =~= list@);
    n
}

/// Whether `kids` can be put among the children of the parent of `x`,
/// `offset` places after `x`, without a panic.
fn check_place_near(world: &World, x: u64, offset: usize, kids: &[u64]) -> (r: bool)
    requires
        valid_entity_bits(x),
        offset <= 1,
        forall|i: int| 0 <= i < kids@.len() ==> #[trigger] valid_entity_bits(kids@[i]),
    ensures
        r == can_place_near(world_view(*world), x, offset as int, kids@),
{
    let ghost v = world_view(*world);
    if !entity_alive(world, x) {
        return false;
    }
    let parent = match entity_parent(world, x) {
        Some(p) => p,
        None => return false,
    };
    if !entity_alive(world, parent) {
        return false;
    }
    let siblings = match entity_children(world, parent) {
        Some(list) => list,
        None => return false,
    };
    if !holds(siblings.as_slice(), x) {
        return false;
    }
    let index = position_of(&siblings, x) + offset;
    if holds(kids, parent) {
        return false;
    }
    let mut i: usize = 0;
    while i < kids.len()
        invariant
            0 <= i <= kids@.len(),
            v == world_view(*world),
            forall|j: int| 0 <= j < kids@.len() ==> #[trigger] valid_entity_bits(kids@[j]),
            forall|j: int| 0 <= j < i ==> #[trigger] is_live(v, kids@[j]),
        decreases kids.len() - i,
    {
        if !entity_alive(world, kids[i]) {
            assert(!is_live(v, kids@[i as int]));
            return false;
        }
        i += 1;
    }
    let kept = count_not_among(&siblings, kids);
    index <= kept
}

/// Applies dioxus mutations to a bevy world.
pub struct MutationApplier {
    element_to_entity: ElementEntities,
    entity_to_element: EntityElements,
    templates: TemplateRegistry,
    stack: Vec<u64>,
}

impl MutationApplier {
    /// Element id to entity.
    pub closed spec fn elements(&self) -> Map<usize, u64> {
        element_entities(self.element_to_entity)
    }

    /// Entity to element id.
    pub closed spec fn owners(&self) -> Map<u64, usize> {
        entity_elements(self.entity_to_element)
    }

    /// The registered templates, by name.
    pub closed spec fn templates(&self) -> Map<Seq<char>, BevyTemplate> {
        registered_templates(self.templates)
    }

    /// The entities being assembled, the last one on top.
    pub closed spec fn stack(&self) -> Seq<u64> {
        self.stack@
    }

    /// Every entity that the applier holds converts back to a bevy entity.
    pub closed spec fn wf(&self) -> bool {
        &&& entities_valid(self.elements())
        &&& forall|i: int| 0 <= i < self.stack@.len() ==> #[trigger] valid_entity_bits(self.stack@[i])
    }

    /// Starts applying mutations with `root_entity` as element 0, which is
    /// also the only entity on the stack.
    pub fn new(
        element_to_entity: ElementEntities,
        entity_to_element: EntityElements,
        templates: TemplateRegistry,
        root_entity: u64,
    ) -> (r: Self)
        requires
            valid_entity_bits(root_entity),
            entities_valid(element_entities(element_to_entity)),
        ensures
            r.wf(),
            r.elements() == element_entities(element_to_entity).insert(0, root_entity),
            r.owners() == entity_elements(entity_to_element).insert(root_entity, 0),
            r.templates() == registered_templates(templates),
            r.stack() == seq![root_entity],
    {
        let mut element_to_entity = element_to_entity;
        let mut entity_to_element = entity_to_element;
        element_entities_insert(&mut element_to_entity, 0, root_entity);
        entity_elements_insert(&mut entity_to_element, root_entity, 0);
        let mut stack = Vec::new();
        stack.push(root_entity);
        let r = MutationApplier { element_to_entity, entity_to_element, templates, stack };
        assert(r.stack@ =~= seq![root_entity]);
        r
    }

    /// Gives back the two maps and the templates, to be kept for the next
    /// batch of mutations.
    pub fn into_parts(self) -> (r: (ElementEntities, EntityElements, TemplateRegistry))
        requires
            self.wf(),
        ensures
            entities_valid(element_entities(r.0)),
            element_entities(r.0) == self.elements(),
            entity_elements(r.1) == self.owners(),
            registered_templates(r.2) == self.templates(),
    {
        (self.element_to_entity, self.entity_to_element, self.templates)
    }

    /// The number of entities on the stack.
    pub fn stack_len(&self) -> (n: usize)
        ensures
            n == self.stack().len(),
    {
        self.stack.len()
    }

    /// The entity at position `i` of the stack, counted from the bottom.
    pub fn stack_entry(&self, i: usize) -> (e: u64)
        requires
            self.wf(),
            i < self.stack().len(),
        ensures
            e == self.stack()[i as int],
            valid_entity_bits(e),
    {
        self.stack[i]
    }

    /// The entity that shows element `id`, if any.
    pub fn entity_of(&self, id: usize) -> (r: Option<u64>)
        requires
            self.wf(),
        ensures
            r is Some <==> self.elements().contains_key(id),
            r matches Some(e) ==> e == self.elements()[id] && valid_entity_bits(e),
    {
        element_entities_get(&self.element_to_entity, id)
    }

    /// Records that element `id` is shown by `e`, both ways.
    fn register(&mut self, id: usize, e: u64)
        requires
            old(self).wf(),
            valid_entity_bits(e),
        ensures
            final(self).wf(),
            final(self).elements() == old(self).elements().insert(id, e),
            final(self).owners() == old(self).owners().insert(e, id),
            final(self).stack() == old(self).stack(),
            final(self).templates() == old(self).templates(),
    {
        element_entities_insert(&mut self.element_to_entity, id, e);
        entity_elements_insert(&mut self.entity_to_element, e, id);
    }

    /// Forgets the element shown by `e`: the entity-to-element pair of `e`
    /// goes, and so does the element-to-entity pair of that element.
    fn unregister(&mut self, e: u64)
        requires
            old(self).wf(),
            valid_entity_bits(e),
        ensures
            final(self).wf(),
            final(self).owners() == old(self).owners().remove(e),
            final(self).elements() == forget_owner(old(self).elements(), old(self).owners(), e),
            final(self).stack() == old(self).stack(),
            final(self).templates() == old(self).templates(),
    {
        if let Some(existing_element_id) = entity_elements_remove(&mut self.entity_to_element, e) {
            element_entities_remove(&mut self.element_to_entity, existing_element_id);
        }
    }

    /// Moves the top `m` entities of the stack under the entity of element
    /// `id`, one after another, at the end of its children.
    pub fn append_children(&mut self, world: &mut World, id: usize, m: usize)
        requires
            old(self).wf(),
            world_view(*old(world)).quiet,
            old(self).elements().contains_key(id),
            m <= old(self).stack().len(),
            is_live(world_view(*old(world)), old(self).elements()[id]),
            forall|i: int| 0 <= i < m ==> {
                let kid = #[trigger] top(old(self).stack(), m as int)[i];
                &&& world_view(*old(world)).entities.contains(kid)
                &&& kid != old(self).elements()[id]
            },
        ensures
            final(self).wf(),
            final(self).templates() == old(self).templates(),
            final(self).elements() == old(self).elements(),
            final(self).owners() == old(self).owners(),
            final(self).stack() == below_top(old(self).stack(), m as int),
            changed_to(
                world_view(*old(world)),
                children_appended_one_by_one(
                    world_view(*old(world)).parts,
                    old(self).elements()[id],
                    top(old(self).stack(), m as int),
                ),
                world_view(*final(world)),
            ),
    {
        let parent = element_entities_get(&self.element_to_entity, id).unwrap();
        let at = self.stack.len() - m;
        let moved = self.stack.split_off(at);
        let ghost v0 = world_view(*world);
        let ghost kids = moved@;
        assert(kids =~= top(old(self).stack(), m as int));
        assert forall|j: int| 0 <= j < kids.len() implies {
            let kid = #[trigger] kids[j];
            &&& v0.entities.contains(kid)
            &&& kid != parent
            &&& valid_entity_bits(kid)
        } by {
            assert(kids[j] == top(old(self).stack(), m as int)[j]);
            assert(kids[j] == old(self).stack@[at + j]);
        }
        let mut i: usize = 0;
        while i < moved.len()
            invariant
                kids == moved@,
                kids == top(old(self).stack(), m as int),
                0 <= i <= moved.len(),
                self.wf(),
                valid_entity_bits(parent),
                parent == old(self).elements()[id],
                v0.entities.contains(parent),
                forall|j: int| 0 <= j < kids.len() ==> {
                    let kid = #[trigger] kids[j];
                    &&& v0.entities.contains(kid)
                    &&& kid != parent
                    &&& valid_entity_bits(kid)
                },
                changed_to(v0, children_appended_one_by_one(v0.parts, parent, kids.take(i as int)), world_view(*world)),
            decreases moved.len() - i,
        {
            let child = moved[i];
            add_child(world, parent, child);
            assert(kids.take(i + 1).drop_last() =~= kids.take(i as int));
            i += 1;
        }
        assert(kids.take(moved.len() as int) =~= kids);
    }

    /// Gives element `id` to the entity reached from the top of the stack
    /// along `path`.
    pub fn assign_node_id(&mut self, world: &World, path: &[u8], id: usize)
        requires
            old(self).wf(),
            old(self).stack().len() > 0,
            path_target(world_view(*world), old(self).stack().last(), path@) is Some,
        ensures
            final(self).wf(),
            final(self).templates() == old(self).templates(),
            ({
                let target = path_target(world_view(*world), old(self).stack().last(), path@)->0;
                &&& final(self).elements() == old(self).elements().insert(id, target)
                &&& final(self).owners() == old(self).owners().insert(target, id)
            }),
            final(self).stack() == old(self).stack(),
    {
        let start = self.stack[self.stack.len() - 1];
        let entity = follow_path(world, start, path);
        self.register(id, entity);
    }

    /// Spawns an empty UI node for element `id` and pushes it on the stack.
    pub fn create_placeholder(&mut self, world: &mut World, id: usize)
        requires
            old(self).wf(),
            world_view(*old(world)).quiet,
        ensures
            final(self).wf(),
            final(self).templates() == old(self).templates(),
            ({
                let e = final(self).stack().last();
                &&& final(self).stack() == old(self).stack().push(e)
                &&& spawned_into(world_view(*old(world)), world_view(*final(world)), e, None, None, None)
                &&& final(self).elements() == old(self).elements().insert(id, e)
                &&& final(self).owners() == old(self).owners().insert(e, id)
            }),
    {
        let entity = spawn_placeholder(world);
        self.register(id, entity);
        self.stack.push(entity);
    }

    /// Spawns a text entity showing `value` for element `id` and pushes it
    /// on the stack.
    pub fn create_text_node(&mut self, world: &mut World, value: &str, id: usize)
        requires
            old(self).wf(),
            world_view(*old(world)).quiet,
        ensures
            final(self).wf(),
            final(self).templates() == old(self).templates(),
            ({
                let e = final(self).stack().last();
                &&& final(self).stack() == old(self).stack().push(e)
                &&& spawned_into(world_view(*old(world)), world_view(*final(world)), e, Some(value@), None, None)
                &&& final(self).elements() == old(self).elements().insert(id, e)
                &&& final(self).owners() == old(self).owners().insert(e, id)
            }),
    {
        let entity = spawn_text(world, value);
        self.register(id, entity);
        self.stack.push(entity);
    }

    /// Makes the entity reached from the top of the stack along `path` show
    /// `value` (with fresh text layout data), and gives it element `id`.
    pub fn hydrate_text_node(&mut self, world: &mut World, path: &[u8], value: &str, id: usize)
        requires
            old(self).wf(),
            world_view(*old(world)).quiet,
            old(self).stack().len() > 0,
            path_target(world_view(*old(world)), old(self).stack().last(), path@) matches Some(t)
                && is_live(world_view(*old(world)), t),
        ensures
            final(self).wf(),
            final(self).templates() == old(self).templates(),
            ({
                let v = world_view(*old(world));
                let target = path_target(v, old(self).stack().last(), path@)->0;
                &&& text_written(v, target, value@, world_view(*final(world)))
                &&& world_view(*final(world)).parts.fresh_layouts.contains(target)
                &&& final(self).elements() == old(self).elements().insert(id, target)
                &&& final(self).owners() == old(self).owners().insert(target, id)
            }),
            final(self).stack() == old(self).stack(),
    {
        let start = self.stack[self.stack.len() - 1];
        let entity = follow_path(world, start, path);
        set_text_with_layout(world, entity, value);
        self.register(id, entity);
    }

    /// Puts the top `m` entities of the stack in the place of the entity of
    /// element `id` among its siblings, then despawns that entity with all
    /// below it and forgets its element.
    pub fn replace_node_with(&mut self, world: &mut World, id: usize, m: usize)
        requires
            old(self).wf(),
            world_view(*old(world)).quiet,
            old(self).elements().contains_key(id),
            m <= old(self).stack().len(),
            can_place_near(world_view(*old(world)), old(self).elements()[id], 0, top(old(self).stack(), m as int)),
        ensures
            final(self).wf(),
            final(self).templates() == old(self).templates(),
            final(self).stack() == below_top(old(self).stack(), m as int),
            ({
                let v = world_view(*old(world));
                let x = old(self).elements()[id];
                let placed = placed_near(v.parts, x, 0, top(old(self).stack(), m as int));
                &&& despawned_into(WorldView { entities: v.entities, quiet: v.quiet, parts: placed }, world_view(*final(world)), x)
                &&& final(self).owners() == old(self).owners().remove(x)
                &&& final(self).elements() == forget_owner(old(self).elements(), old(self).owners(), x)
            }),
    {
        let existing = element_entities_get(&self.element_to_entity, id).unwrap();
        self.replace_with_top(world, existing, m);
    }

    /// Puts the top `m` entities of the stack in the place of the entity
    /// reached along `path` from the entry just below them, then despawns that
    /// entity with all below it and forgets its element.
    pub fn replace_placeholder_with_nodes(&mut self, world: &mut World, path: &[u8], m: usize)
        requires
            old(self).wf(),
            world_view(*old(world)).quiet,
            m < old(self).stack().len(),
            ({
                let s = old(self).stack();
                let v = world_view(*old(world));
                path_target(v, s[s.len() - m - 1], path@) matches Some(x)
                    && can_place_near(v, x, 0, top(s, m as int))
            }),
        ensures
            final(self).wf(),
            final(self).templates() == old(self).templates(),
            final(self).stack() == below_top(old(self).stack(), m as int),
            ({
                let s = old(self).stack();
                let v = world_view(*old(world));
                let x = path_target(v, s[s.len() - m - 1], path@)->0;
                let placed = placed_near(v.parts, x, 0, top(s, m as int));
                &&& despawned_into(WorldView { entities: v.entities, quiet: v.quiet, parts: placed }, world_view(*final(world)), x)
                &&& final(self).owners() == old(self).owners().remove(x)
                &&& final(self).elements() == forget_owner(old(self).elements(), old(self).owners(), x)
            }),
    {
        let start = self.stack[self.stack.len() - m - 1];
        let existing = follow_path(world, start, path);
        self.replace_with_top(world, existing, m);
    }

    fn replace_with_top(&mut self, world: &mut World, existing: u64, m: usize)
        requires
            old(self).wf(),
            world_view(*old(world)).quiet,
            valid_entity_bits(existing),
            m <= old(self).stack().len(),
            can_place_near(world_view(*old(world)), existing, 0, top(old(self).stack(), m as int)),
        ensures
            final(self).wf(),
            final(self).templates() == old(self).templates(),
            final(self).stack() == below_top(old(self).stack(), m as int),
            ({
                let v = world_view(*old(world));
                let placed = placed_near(v.parts, existing, 0, top(old(self).stack(), m as int));
                &&& despawned_into(WorldView { entities: v.entities, quiet: v.quiet, parts: placed }, world_view(*final(world)), existing)
                &&& final(self).owners() == old(self).owners().remove(existing)
                &&& final(self).elements() == forget_owner(old(self).elements(), old(self).owners(), existing)
            }),
    {
        let ghost v0 = world_view(*world);
        let (parent, index) = sibling_slot(world, existing, 0);
        let at = self.stack.len() - m;
        let moved = self.stack.split_off(at);
        assert(moved@ =~= top(old(self).stack(), m as int));
        insert_children(world, parent, index, moved.as_slice());
        let ghost v1 = world_view(*world);
        despawn_recursive(world, existing);
        proof {
            let placed = placed_near(v0.parts, existing, 0, moved@);
            lemma_despawn_from_grown(WorldView { entities: v0.entities, quiet: v0.quiet, parts: placed }, v1, world_view(*world), existing);
        }
        self.unregister(existing);
    }

    /// Puts the top `m` entities of the stack right after the entity of
    /// element `id` among its siblings.
    pub fn insert_nodes_after(&mut self, world: &mut World, id: usize, m: usize)
        requires
            old(self).wf(),
            world_view(*old(world)).quiet,
            old(self).elements().contains_key(id),
            m <= old(self).stack().len(),
            can_place_near(world_view(*old(world)), old(self).elements()[id], 1, top(old(self).stack(), m as int)),
        ensures
            final(self).wf(),
            final(self).templates() == old(self).templates(),
            final(self).elements() == old(self).elements(),
            final(self).owners() == old(self).owners(),
            final(self).stack() == below_top(old(self).stack(), m as int),
            changed_to(
                world_view(*old(world)),
                placed_near(world_view(*old(world)).parts, old(self).elements()[id], 1, top(old(self).stack(), m as int)),
                world_view(*final(world)),
            ),
    {
        let entity = element_entities_get(&self.element_to_entity, id).unwrap();
        self.place_top_near(world, entity, 1, m);
    }

    /// Puts the top `m` entities of the stack right before the entity of
    /// element `id` among its siblings.
    pub fn insert_nodes_before(&mut self, world: &mut World, id: usize, m: usize)
        requires
            old(self).wf(),
            world_view(*old(world)).quiet,
            old(self).elements().contains_key(id),
            m <= old(self).stack().len(),
            can_place_near(world_view(*old(world)), old(self).elements()[id], 0, top(old(self).stack(), m as int)),
        ensures
            final(self).wf(),
            final(self).templates() == old(self).templates(),
            final(self).elements() == old(self).elements(),
            final(self).owners() == old(self).owners(),
            final(self).stack() == below_top(old(self).stack(), m as int),
            changed_to(
                world_view(*old(world)),
                placed_near(world_view(*old(world)).parts, old(self).elements()[id], 0, top(old(self).stack(), m as int)),
                world_view(*final(world)),
            ),
    {
        let existing = element_entities_get(&self.element_to_entity, id).unwrap();
        self.place_top_near(world, existing, 0, m);
    }

    fn place_top_near(&mut self, world: &mut World, x: u64, offset: usize, m: usize)
        requires
            old(self).wf(),
            world_view(*old(world)).quiet,
            offset <= 1,
            m <= old(self).stack().len(),
            can_place_near(world_view(*old(world)), x, offset as int, top(old(self).stack(), m as int)),
        ensures
            final(self).wf(),
            final(self).templates() == old(self).templates(),
            final(self).elements() == old(self).elements(),
            final(self).owners() == old(self).owners(),
            final(self).stack() == below_top(old(self).stack(), m as int),
            changed_to(
                world_view(*old(world)),
                placed_near(world_view(*old(world)).parts, x, offset as int, top(old(self).stack(), m as int)),
                world_view(*final(world)),
            ),
    {
        let (parent, index) = sibling_slot(world, x, offset);
        let at = self.stack.len() - m;
        let moved = self.stack.split_off(at);
        assert(moved@ =~= top(old(self).stack(), m as int));
        insert_children(world, parent, index, moved.as_slice());
    }

    /// Makes the entity of element `id` show `value`.
    pub fn set_node_text(&mut self, world: &mut World, value: &str, id: usize)
        requires
            old(self).wf(),
            world_view(*old(world)).quiet,
            old(self).elements().contains_key(id),
            is_live(world_view(*old(world)), old(self).elements()[id]),
        ensures
            *final(self) == *old(self),
            text_written(world_view(*old(world)), old(self).elements()[id], value@, world_view(*final(world))),
            world_view(*old(world)).parts.fresh_layouts.contains(old(self).elements()[id])
                ==> world_view(*final(world)).parts.fresh_layouts.contains(old(self).elements()[id]),
            world_view(*old(world)).parts.layouts.contains(old(self).elements()[id])
                ==> (world_view(*final(world)).parts.fresh_layouts.contains(old(self).elements()[id])
                    == world_view(*old(world)).parts.fresh_layouts.contains(old(self).elements()[id])),
    {
        let entity = element_entities_get(&self.element_to_entity, id).unwrap();
        set_text(world, entity, value);
    }

    /// Despawns the entity of element `id` with all below it, and forgets
    /// its element.
    pub fn remove_node(&mut self, world: &mut World, id: usize)
        requires
            old(self).wf(),
            world_view(*old(world)).quiet,
            old(self).elements().contains_key(id),
        ensures
            final(self).wf(),
            final(self).templates() == old(self).templates(),
            final(self).stack() == old(self).stack(),
            ({
                let x = old(self).elements()[id];
                &&& despawned_into(world_view(*old(world)), world_view(*final(world)), x)
                &&& final(self).owners() == old(self).owners().remove(x)
                &&& final(self).elements() == forget_owner(old(self).elements(), old(self).owners(), x)
            }),
    {
        let entity = element_entities_get(&self.element_to_entity, id).unwrap();
        despawn_recursive(world, entity);
        self.unregister(entity);
    }

    /// Pushes the entity of element `id` on the stack.
    pub fn push_root(&mut self, id: usize)
        requires
            old(self).wf(),
            old(self).elements().contains_key(id),
        ensures
            final(self).wf(),
            final(self).templates() == old(self).templates(),
            final(self).elements() == old(self).elements(),
            final(self).owners() == old(self).owners(),
            final(self).stack() == old(self).stack().push(old(self).elements()[id]),
    {
        let entity = element_entities_get(&self.element_to_entity, id).unwrap();
        self.stack.push(entity);
    }

    /// Registers the bevy form of `template` under its name, parsing fixed
    /// attributes with `parse`.
    pub fn register_template<F: Fn(&String, &String, ParsedAttributes) -> ParsedAttributes>(
        &mut self,
        template: &Template,
        parse: &F,
    )
        requires
            old(self).wf(),
            all_supported_from(template.roots@, 0),
            forall|n: &String, v: &String, p: ParsedAttributes| #[trigger] parse.requires((n, v, p)),
        ensures
            final(self).wf(),
            final(self).elements() == old(self).elements(),
            final(self).owners() == old(self).owners(),
            final(self).stack() == old(self).stack(),
            final(self).templates().dom() == old(self).templates().dom().insert(template.name@),
            forall|n: Seq<char>| n != template.name@ && #[trigger] old(self).templates().contains_key(n)
                ==> final(self).templates()[n] == old(self).templates()[n],
            ({
                let t = final(self).templates()[template.name@];
                &&& t.roots().len() == template.roots@.len()
                &&& all_mirror_from(template.roots@, t.roots(), 0)
                &&& all_parsed_from(*parse, template.roots@, t.roots(), 0)
            }),
    {
        let bevy_template = BevyTemplate::from_dioxus(template, parse);
        templates_insert(&mut self.templates, template.name.clone(), bevy_template);
    }

    /// Spawns the tree of root `index` of the template named `name`, gives
    /// element `id` to its root entity, and pushes that entity on the stack.
    pub fn load_template(&mut self, world: &mut World, name: &str, index: usize, id: usize)
        requires
            old(self).wf(),
            world_view(*old(world)).quiet,
            old(self).templates().contains_key(name@),
            index < old(self).templates()[name@].roots().len(),
        ensures
            final(self).wf(),
            final(self).templates() == old(self).templates(),
            ({
                let e = final(self).stack().last();
                &&& final(self).stack() == old(self).stack().push(e)
                &&& spawned_tree_into(
                    world_view(*old(world)),
                    world_view(*final(world)),
                    e,
                    old(self).templates()[name@].roots()[index as int],
                )
                &&& final(self).elements() == old(self).elements().insert(id, e)
                &&& final(self).owners() == old(self).owners().insert(e, id)
            }),
    {
        let template = templates_get(&self.templates, name).unwrap();
        let entity = template.root(index).spawn(world);
        self.register(id, entity);
        self.stack.push(entity);
    }

    /// The entity whose attribute a dioxus `SetAttribute` changes, and the
    /// text it is set to. Only text values are applied.
    pub fn attribute_target<'a>(&self, value: &'a AttributeValue, id: usize) -> (r: (u64, &'a str))
        requires
            self.wf(),
            value is Text,
            self.elements().contains_key(id),
        ensures
            r.0 == self.elements()[id],
            valid_entity_bits(r.0),
            r.1@ == value->Text_0@,
    {
        let entity = element_entities_get(&self.element_to_entity, id).unwrap();
        match value {
            AttributeValue::Text(text) => (entity, text.as_str()),
            _ => (entity, ""),
        }
    }

    /// Whether `e` is alive in `world`.
    pub fn is_alive(world: &World, e: u64) -> (r: bool)
        requires
            valid_entity_bits(e),
        ensures
            r == world_view(*world).entities.contains(e),
    {
        entity_alive(world, e)
    }

    /// The entity reached from the top of the stack along `path`, or `None`
    /// where following it would panic.
    pub fn resolve_path(&self, world: &World, path: &[u8]) -> (r: Option<u64>)
        requires
            self.wf(),
            self.stack().len() > 0,
        ensures
            r == path_target(world_view(*world), self.stack().last(), path@),
            r matches Some(e) ==> valid_entity_bits(e),
    {
        let start = self.stack[self.stack.len() - 1];
        try_follow_path(world, start, path)
    }

    /// The number of roots of the template named `name`, if there is one.
    pub fn template_root_count(&self, name: &str) -> (r: Option<usize>)
        ensures
            r is Some <==> self.templates().contains_key(name@),
            r matches Some(n) ==> n == self.templates()[name@].roots().len(),
    {
        match templates_get(&self.templates, name) {
            Some(t) => Some(t.root_count()),
            None => None,
        }
    }

    /// Whether `append_children(world, id, m)` can run without a panic.
    pub fn can_append_children(&self, world: &World, id: usize, m: usize) -> (r: bool)
        requires
            self.wf(),
        ensures
            r == ({
                &&& self.elements().contains_key(id)
                &&& m <= self.stack().len()
                &&& is_live(world_view(*world), self.elements()[id])
                &&& forall|i: int| 0 <= i < m ==> {
                    let kid = #[trigger] top(self.stack(), m as int)[i];
                    &&& world_view(*world).entities.contains(kid)
                    &&& kid != self.elements()[id]
                }
            }),
    {
        let parent = match element_entities_get(&self.element_to_entity, id) {
            Some(p) => p,
            None => return false,
        };
        if m > self.stack.len() || !entity_alive(world, parent) {
            return false;
        }
        let len = self.stack.len();
        let at = len - m;
        let ghost kids = top(self.stack@, m as int);
        let mut i: usize = 0;
        while i < m
            invariant
                0 <= i <= m,
                at + m == len,
                len == self.stack@.len(),
                kids == top(self.stack@, m as int),
                self.wf(),
                parent == self.elements()[id],
                forall|j: int| 0 <= j < i ==> {
                    let kid = #[trigger] kids[j];
                    &&& world_view(*world).entities.contains(kid)
                    &&& kid != parent
                },
            decreases m - i,
        {
            let kid = self.stack[at + i];
            assert(kid == kids[i as int]);
            if kid == parent || !entity_alive(world, kid) {
                return false;
            }
            i += 1;
        }
        true
    }

    /// Whether putting the top `m` entities of the stack next to `x`,
    /// `offset` places after it, can run without a panic.
    fn can_place_top_near(&self, world: &World, x: u64, offset: usize, m: usize) -> (r: bool)
        requires
            self.wf(),
            valid_entity_bits(x),
            offset <= 1,
        ensures
            r == (m <= self.stack().len() && can_place_near(world_view(*world), x, offset as int, top(self.stack(), m as int))),
    {
        if m > self.stack.len() {
            return false;
        }
        let kids = slice_top(&self.stack, m);
        assert forall|i: int| 0 <= i < kids@.len() implies #[trigger] valid_entity_bits(kids@[i]) by {
            assert(kids@[i] == self.stack@[self.stack@.len() - m + i]);
        }
        check_place_near(world, x, offset, kids)
    }

    /// Whether `replace_node_with(world, id, m)` can run without a panic.
    pub fn can_replace_node_with(&self, world: &World, id: usize, m: usize) -> (r: bool)
        requires
            self.wf(),
        ensures
            r == (self.elements().contains_key(id) && m <= self.stack().len()
                && can_place_near(world_view(*world), self.elements()[id], 0, top(self.stack(), m as int))),
    {
        match element_entities_get(&self.element_to_entity, id) {
            Some(x) => self.can_place_top_near(world, x, 0, m),
            None => false,
        }
    }

    /// Whether `insert_nodes_after(world, id, m)` can run without a panic.
    pub fn can_insert_nodes_after(&self, world: &World, id: usize, m: usize) -> (r: bool)
        requires
            self.wf(),
        ensures
            r == (self.elements().contains_key(id) && m <= self.stack().len()
                && can_place_near(world_view(*world), self.elements()[id], 1, top(self.stack(), m as int))),
    {
        match element_entities_get(&self.element_to_entity, id) {
            Some(x) => self.can_place_top_near(world, x, 1, m),
            None => false,
        }
    }

    /// Whether `insert_nodes_before(world, id, m)` can run without a panic.
    pub fn can_insert_nodes_before(&self, world: &World, id: usize, m: usize) -> (r: bool)
        requires
            self.wf(),
        ensures
            r == (self.elements().contains_key(id) && m <= self.stack().len()
                && can_place_near(world_view(*world), self.elements()[id], 0, top(self.stack(), m as int))),
    {
        match element_entities_get(&self.element_to_entity, id) {
            Some(x) => self.can_place_top_near(world, x, 0, m),
            None => false,
        }
    }

    /// Whether `replace_placeholder_with_nodes(world, path, m)` can run
    /// without a panic.
    pub fn can_replace_placeholder_with_nodes(&self, world: &World, path: &[u8], m: usize) -> (r: bool)
        requires
            self.wf(),
        ensures
            r == (m < self.stack().len() && ({
                let s = self.stack();
                let v = world_view(*world);
                path_target(v, s[s.len() - m - 1], path@) matches Some(x)
                    && can_place_near(v, x, 0, top(s, m as int))
            })),
    {
        if m >= self.stack.len() {
            return false;
        }
        let start = self.stack[self.stack.len() - m - 1];
        match try_follow_path(world, start, path) {
            Some(x) => self.can_place_top_near(world, x, 0, m),
            None => false,
        }
    }
}

} // verus!
