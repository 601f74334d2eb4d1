//! The bevy `World` as the applier sees it: which entities are alive, how
//! they are linked by `Parent` and `Children`, what text, style and image
//! they carry, and whether anything waits for the world's next flush.
use vstd::prelude::*;
use bevy::ecs::entity::Entity;
use bevy::ecs::world::Command;
use bevy::ecs::world::World;
use bevy::hierarchy::BuildChildren;
use bevy::hierarchy::Children;
use bevy::hierarchy::DespawnRecursive;
use bevy::hierarchy::Parent;
use bevy::render::view::Visibility;
use bevy::text::TextLayoutInfo;
use bevy::transform::components::Transform;
use bevy::ui::BackgroundColor;
use bevy::ui::BorderColor;
use bevy::ui::ContentSize;
use bevy::ui::GlobalZIndex;
use bevy::ui::Node;
use bevy::ui::Outline;
use bevy::ui::ZIndex;
use bevy::ui::widget::ImageNode;
use bevy::ui::widget::Text;

verus! {

#[verifier::external_type_specification]
#[verifier::external_body]
pub struct ExWorld(World);

/// The style components of an entity that carries a `Node`: the node
/// itself, and each of the others that it carries.
pub struct Look {
    pub node: Node,
    pub border_color: Option<BorderColor>,
    pub background_color: Option<BackgroundColor>,
    pub transform: Option<Transform>,
    pub visibility: Option<Visibility>,
    pub z_index: Option<ZIndex>,
    pub outline: Option<Outline>,
    pub global_z_index: Option<GlobalZIndex>,
}

/// `l` holds each component that `Node` requires: border and background
/// colours, transform, visibility and z-index.
pub open spec fn has_required_style(l: Look) -> bool {
    &&& l.border_color is Some
    &&& l.background_color is Some
    &&& l.transform is Some
    &&& l.visibility is Some
    &&& l.z_index is Some
}

/// The style of an entity that got its `Node` and the rest from required
/// defaults: the components `Node` requires, and no outline or global
/// z-index.
pub open spec fn default_shaped(l: Look) -> bool {
    &&& has_required_style(l)
    &&& l.outline is None
    &&& l.global_z_index is None
}

/// `b` is `a` with, at most, components that `a` lacked filled in by
/// required defaults: the node, the outline, the global z-index and every
/// component that `a` held stay.
pub open spec fn look_kept(a: Look, b: Look) -> bool {
    &&& b.node == a.node
    &&& b.outline == a.outline
    &&& b.global_z_index == a.global_z_index
    &&& a.border_color is Some ==> b.border_color == a.border_color
    &&& a.background_color is Some ==> b.background_color == a.background_color
    &&& a.transform is Some ==> b.transform == a.transform
    &&& a.visibility is Some ==> b.visibility == a.visibility
    &&& a.z_index is Some ==> b.z_index == a.z_index
}

/// The components of a world that the applier reads and writes.
pub struct Components {
    /// For each entity with a `Parent` component, the entity it names.
    pub parents: Map<u64, u64>,
    /// For each entity with a `Children` component, the entities it lists, in order.
    pub children: Map<u64, Seq<u64>>,
    /// For each entity with a `Text` component, the string it holds.
    pub texts: Map<u64, Seq<char>>,
    /// For each entity with a `Node` component, its style components.
    pub looks: Map<u64, Look>,
    /// For each entity with an `ImageNode` component, its value.
    pub images: Map<u64, ImageNode>,
    /// The entities that carry the default `TextLayoutInfo` and the default
    /// `ContentSize`: text whose layout data is still to be computed.
    pub fresh_layouts: Set<u64>,
    /// The entities that carry a `TextLayoutInfo` and a `ContentSize`.
    pub layouts: Set<u64>,
}

/// What the applier sees of a world.
pub struct WorldView {
    /// The entities that are alive.
    pub entities: Set<u64>,
    /// Their hierarchy links, texts, styles and images.
    pub parts: Components,
    /// Nothing waits for the world's next flush (no command in the world's
    /// own queue, no entity reserved but not yet spawned), and no component
    /// hook or observer of the program reacts when the calls below add,
    /// change or remove components. The calls below are described for such
    /// worlds only, and keep them so.
    pub quiet: bool,
}

/// The entities, hierarchy links, texts, styles and images of a bevy world,
/// and whether it is quiet.
pub uninterp spec fn world_view(w: World) -> WorldView;

/// Bits that `Entity::from_bits` turns back into an entity: a nonzero
/// generation in the high half, with the placeholder flag clear.
pub open spec fn valid_entity_bits(bits: u64) -> bool {
    0x1_0000_0000u64 <= bits && bits < 0x8000_0000_0000_0000u64
}

/// `e` names an entity that is alive in `v`.
pub open spec fn is_live(v: WorldView, e: u64) -> bool {
    valid_entity_bits(e) && v.entities.contains(e)
}

/// Keeps every entity but `k`.
pub open spec fn other_than(k: u64) -> spec_fn(u64) -> bool {
    |x: u64| x != k
}

/// Keeps the entities that are not among `kids`.
pub open spec fn not_among(kids: Seq<u64>) -> spec_fn(u64) -> bool {
    |x: u64| !kids.contains(x)
}

/// The `Children` of `e` in `c`, empty when it has none.
pub open spec fn children_or_empty(c: Components, e: u64) -> Seq<u64> {
    if c.children.contains_key(e) { c.children[e] } else { Seq::empty() }
}

/// `c` with `child` dropped from the `Children` of `parent`; the component
/// goes away when nothing is left in it.
pub open spec fn forget_child(c: Components, parent: u64, child: u64) -> Components {
    if c.children.contains_key(parent) {
        let rest = c.children[parent].filter(other_than(child));
        if rest.len() == 0 {
            Components { children: c.children.remove(parent), ..c }
        } else {
            Components { children: c.children.insert(parent, rest), ..c }
        }
    } else {
        c
    }
}

/// `child` now names `parent` as its parent, and a different former parent
/// forgets it.
pub open spec fn reparent(c: Components, child: u64, parent: u64) -> Components {
    let moved = Components { parents: c.parents.insert(child, parent), ..c };
    if c.parents.contains_key(child) && c.parents[child] != parent {
        forget_child(moved, c.parents[child], child)
    } else {
        moved
    }
}

/// `reparent` applied to each of `kids` in turn, first to last.
pub open spec fn reparent_all(c: Components, parent: u64, kids: Seq<u64>) -> Components
    decreases kids.len(),
{
    if kids.len() == 0 {
        c
    } else {
        reparent(reparent_all(c, parent, kids.drop_last()), kids.last(), parent)
    }
}

/// `c` with `list` as the `Children` of `parent`.
pub open spec fn with_children(c: Components, parent: u64, list: Seq<u64>) -> Components {
    Components { children: c.children.insert(parent, list), ..c }
}

/// The components after `add_child(child)` on `parent`.
pub open spec fn child_appended(c: Components, parent: u64, child: u64) -> Components {
    let w = reparent(c, child, parent);
    if w.children.contains_key(parent) {
        with_children(w, parent, w.children[parent].filter(other_than(child)).push(child))
    } else {
        with_children(w, parent, seq![child])
    }
}

/// The components after `add_children(kids)` on `parent`.
pub open spec fn children_appended(c: Components, parent: u64, kids: Seq<u64>) -> Components {
    if kids.len() == 0 {
        c
    } else {
        let w = reparent_all(c, parent, kids);
        if w.children.contains_key(parent) {
            with_children(w, parent, w.children[parent].filter(not_among(kids)) + kids)
        } else {
            with_children(w, parent, kids)
        }
    }
}

/// The `Children` of `parent` once `kids` are taken out of them.
pub open spec fn kept_children(c: Components, parent: u64, kids: Seq<u64>) -> Seq<u64> {
    c.children[parent].filter(not_among(kids))
}

/// `insert_children(index, kids)` on `parent` does not panic.
pub open spec fn can_insert_children(v: WorldView, parent: u64, index: int, kids: Seq<u64>) -> bool {
    &&& is_live(v, parent)
    &&& !kids.contains(parent)
    &&& forall|i: int| 0 <= i < kids.len() ==> #[trigger] is_live(v, kids[i])
    &&& v.parts.children.contains_key(parent) ==> index <= kept_children(v.parts, parent, kids).len()
}

/// The components after `insert_children(index, kids)` on `parent`.
pub open spec fn children_inserted(c: Components, parent: u64, index: int, kids: Seq<u64>) -> Components {
    let w = reparent_all(c, parent, kids);
    if w.children.contains_key(parent) {
        let kept = w.children[parent].filter(not_among(kids));
        with_children(w, parent, kept.take(index) + kids + kept.skip(index))
    } else {
        with_children(w, parent, kids)
    }
}

/// `x` is `root` or lies below it along `Children` lists.
pub open spec fn descends_from(c: Components, root: u64, x: u64) -> bool {
    exists|path: Seq<u64>|
        #![trigger path.last(), path[0]]
        {
            &&& path.len() >= 1
            &&& path[0] == root
            &&& path.last() == x
            &&& forall|i: int|
                0 <= i < path.len() - 1 ==> #[trigger] c.children.contains_key(path[i])
                    && c.children[path[i]].contains(path[i + 1])
        }
}

/// `c` with `e` dropped from its parent's `Children` (the component stays,
/// empty or not).
pub open spec fn detached(c: Components, e: u64) -> Components {
    if c.parents.contains_key(e) && c.children.contains_key(c.parents[e]) {
        let p = c.parents[e];
        with_children(c, p, c.children[p].filter(other_than(e)))
    } else {
        c
    }
}

/// The world after a recursive despawn of `e`: `e` is detached from its
/// parent, then `e` and all below it go, with their components.
pub open spec fn subtree_despawned(v: WorldView, e: u64) -> WorldView {
    let d = detached(v.parts, e);
    let gone = |x: u64| descends_from(d, e, x);
    WorldView {
        entities: v.entities.filter(|x: u64| !gone(x)),
        parts: Components {
            parents: d.parents.restrict(d.parents.dom().filter(|x: u64| !gone(x))),
            children: d.children.restrict(d.children.dom().filter(|x: u64| !gone(x))),
            texts: d.texts.restrict(d.texts.dom().filter(|x: u64| !gone(x))),
            looks: d.looks.restrict(d.looks.dom().filter(|x: u64| !gone(x))),
            images: d.images.restrict(d.images.dom().filter(|x: u64| !gone(x))),
            fresh_layouts: d.fresh_layouts.filter(|x: u64| !gone(x)),
            layouts: d.layouts.filter(|x: u64| !gone(x)),
        },
        quiet: v.quiet,
    }
}

/// `w` has the entities of `v`, the components `parts`, and is quiet.
pub open spec fn changed_to(v: WorldView, parts: Components, w: WorldView) -> bool {
    &&& w.entities == v.entities
    &&& w.parts == parts
    &&& w.quiet
}

/// `w` is `v` after a recursive despawn of `e`, and quiet.
pub open spec fn despawned_into(v: WorldView, w: WorldView, e: u64) -> bool {
    let t = subtree_despawned(v, e);
    &&& w.entities == t.entities
    &&& w.parts == t.parts
    &&& w.quiet
}

/// `w` is `v` with one more entity `e`, linked to nothing, with `text` as its
/// `Text` when it has one (and then with fresh layout data), a `Node` with
/// `look` as its style components when given, and `image` as its
/// `ImageNode` when given, or none; `w` is quiet. (An entity that was not
/// alive has no component. Without a `look`, `e` has its `Node` and style
/// from required defaults: `default_shaped`, the values left open.)
pub open spec fn spawned_into(
    v: WorldView,
    w: WorldView,
    e: u64,
    text: Option<Seq<char>>,
    look: Option<Look>,
    image: Option<ImageNode>,
) -> bool {
    &&& valid_entity_bits(e)
    &&& !v.entities.contains(e)
    &&& w.entities == v.entities.insert(e)
    &&& w.quiet
    &&& !v.parts.parents.contains_key(e)
    &&& !v.parts.children.contains_key(e)
    &&& !v.parts.texts.contains_key(e)
    &&& !v.parts.looks.contains_key(e)
    &&& !v.parts.images.contains_key(e)
    &&& !v.parts.fresh_layouts.contains(e)
    &&& !v.parts.layouts.contains(e)
    &&& w.parts.looks.contains_key(e)
    &&& w.parts.fresh_layouts == (if text is Some { v.parts.fresh_layouts.insert(e) } else { v.parts.fresh_layouts })
    &&& w.parts.layouts == (if text is Some { v.parts.layouts.insert(e) } else { v.parts.layouts })
    &&& w.parts.parents == v.parts.parents
    &&& w.parts.children == v.parts.children
    &&& w.parts.texts == (match text {
        Some(t) => v.parts.texts.insert(e, t),
        None => v.parts.texts,
    })
    &&& (match look {
        Some(l) => w.parts.looks == v.parts.looks.insert(e, l),
        None => w.parts.looks.remove(e) == v.parts.looks && default_shaped(w.parts.looks[e]),
    })
    &&& w.parts.images == (match image {
        Some(i) => v.parts.images.insert(e, i),
        None => v.parts.images,
    })
}

/// `w` is `v` with `value` as the text of `e`, and quiet. Nothing else
/// changes at other entities. At `e`, the components that `Text` requires
/// and `e` lacked come in with their defaults: `e` carries a `Node` with
/// the components `Node` requires, and keeps every style component it
/// held; an `e` without a `Node` before gets one whose value is left open.
/// `e` then carries layout data; whether it is fresh is left to the caller.
pub open spec fn text_written(v: WorldView, e: u64, value: Seq<char>, w: WorldView) -> bool {
    &&& w.entities == v.entities
    &&& w.quiet
    &&& w.parts.parents == v.parts.parents
    &&& w.parts.children == v.parts.children
    &&& w.parts.images == v.parts.images
    &&& w.parts.texts == v.parts.texts.insert(e, value)
    &&& w.parts.looks.remove(e) == v.parts.looks.remove(e)
    &&& w.parts.looks.contains_key(e)
    &&& has_required_style(w.parts.looks[e])
    &&& v.parts.looks.contains_key(e) ==> look_kept(v.parts.looks[e], w.parts.looks[e])
    &&& w.parts.fresh_layouts.remove(e) == v.parts.fresh_layouts.remove(e)
    &&& w.parts.layouts == v.parts.layouts.insert(e)
}

/// Calls `World::get_entity(e).is_ok()`: whether `e` is alive.
#[verifier::external_body]
pub(crate) fn entity_alive(world: &World, e: u64) -> (r: bool)
    requires
        valid_entity_bits(e),
    ensures
        r == world_view(*world).entities.contains(e),
{
    world.get_entity(Entity::from_bits(e)).is_ok()
}

/// Calls `World::entity(e).get::<Children>()` and hands out the listed
/// entities as bits: `None` exactly when `e` has no `Children` component.
#[verifier::external_body]
pub(crate) fn entity_children(world: &World, e: u64) -> (r: Option<Vec<u64>>)
    requires
        is_live(world_view(*world), e),
    ensures
        r is Some <==> world_view(*world).parts.children.contains_key(e),
        r matches Some(list) ==> list@ == world_view(*world).parts.children[e],
        r matches Some(list) ==> forall|i: int|
            0 <= i < list@.len() ==> #[trigger] valid_entity_bits(list@[i]),
{
    world.entity(Entity::from_bits(e)).get::<Children>().map(|c| c.iter().map(|x| x.to_bits()).collect())
}

/// Calls `World::entity(e).get::<Parent>()`: the entity that `Parent` names,
/// as bits, or `None` when `e` has no `Parent` component.
#[verifier::external_body]
pub(crate) fn entity_parent(world: &World, e: u64) -> (r: Option<u64>)
    requires
        is_live(world_view(*world), e),
    ensures
        r is Some <==> world_view(*world).parts.parents.contains_key(e),
        r matches Some(p) ==> p == world_view(*world).parts.parents[e] && valid_entity_bits(p),
{
    world.entity(Entity::from_bits(e)).get::<Parent>().map(|p| p.get().to_bits())
}

/// Calls `EntityWorldMut::add_child` (bevy_hierarchy) on `parent`. The child
/// leaves its former parent's `Children`, names `parent` as its `Parent`, and
/// ends the `Children` of `parent` (appearing there once). Bevy panics when
/// `child == parent` or either is dead.
#[verifier::external_body]
pub(crate) fn add_child(world: &mut World, parent: u64, child: u64)
    requires
        world_view(*old(world)).quiet,
        is_live(world_view(*old(world)), parent),
        is_live(world_view(*old(world)), child),
        child != parent,
    ensures
        changed_to(world_view(*old(world)), child_appended(world_view(*old(world)).parts, parent, child), world_view(*final(world))),
{
    world.entity_mut(Entity::from_bits(parent)).add_child(Entity::from_bits(child));
}

/// Calls `EntityWorldMut::add_children` (bevy_hierarchy) on `parent`: each
/// of `kids` is moved under `parent` as by `add_child`, and the list ends
/// with `kids` in their order. An empty `kids` changes nothing. Bevy panics
/// when `kids` holds `parent` or a dead entity.
#[verifier::external_body]
pub(crate) fn add_children(world: &mut World, parent: u64, kids: &[u64])
    requires
        world_view(*old(world)).quiet,
        is_live(world_view(*old(world)), parent),
        !kids@.contains(parent),
        forall|i: int| 0 <= i < kids@.len() ==> #[trigger] is_live(world_view(*old(world)), kids@[i]),
    ensures
        changed_to(world_view(*old(world)), children_appended(world_view(*old(world)).parts, parent, kids@), world_view(*final(world))),
{
    let kids: Vec<Entity> = kids.iter().map(|k| Entity::from_bits(*k)).collect();
    world.entity_mut(Entity::from_bits(parent)).add_children(&kids);
}

/// Calls `EntityWorldMut::insert_children` (bevy_hierarchy) on `parent`:
/// each of `kids` names `parent` as its `Parent` and leaves a former parent's
/// `Children`; `kids` are taken out of the list of `parent` and put back, in
/// their order, at `index` of what is left. When `parent` had no `Children`,
/// the list becomes `kids` whatever `index` is. Bevy panics when `kids` holds
/// `parent` or a dead entity, or when `index` is past the end of what is left.
#[verifier::external_body]
pub(crate) fn insert_children(world: &mut World, parent: u64, index: usize, kids: &[u64])
    requires
        world_view(*old(world)).quiet,
        can_insert_children(world_view(*old(world)), parent, index as int, kids@),
    ensures
        changed_to(
            world_view(*old(world)),
            children_inserted(world_view(*old(world)).parts, parent, index as int, kids@),
            world_view(*final(world)),
        ),
{
    let kids: Vec<Entity> = kids.iter().map(|k| Entity::from_bits(*k)).collect();
    world.entity_mut(Entity::from_bits(parent)).insert_children(index, &kids);
}

/// Applies the bevy_hierarchy command `DespawnRecursive { entity: e, warn:
/// true }`: `e` leaves its parent's `Children` (the component stays), then
/// `e` and everything below it along `Children` lists are despawned. A dead
/// `e` changes nothing. (Each despawn flushes the world first, which in a
/// quiet world has nothing to do.)
#[verifier::external_body]
pub(crate) fn despawn_recursive(world: &mut World, e: u64)
    requires
        world_view(*old(world)).quiet,
        valid_entity_bits(e),
    ensures
        despawned_into(world_view(*old(world)), world_view(*final(world)), e),
{
    DespawnRecursive { entity: Entity::from_bits(e), warn: true }.apply(world);
}

/// Calls `World::spawn(Node::default())`: a new entity, a UI node with no
/// links, no text and no image. (The spawn flushes the world first, which in
/// a quiet world has nothing to do.)
#[verifier::external_body]
pub(crate) fn spawn_placeholder(world: &mut World) -> (e: u64)
    requires
        world_view(*old(world)).quiet,
    ensures
        spawned_into(world_view(*old(world)), world_view(*final(world)), e, None, None, None),
{
    world.spawn(Node::default()).id().to_bits()
}

/// Calls `World::spawn(Text::new(value))`: a new entity with `value` as
/// its text, no links and no image. (The spawn flushes the world first,
/// which in a quiet world has nothing to do.)
#[verifier::external_body]
pub(crate) fn spawn_text(world: &mut World, value: &str) -> (e: u64)
    requires
        world_view(*old(world)).quiet,
    ensures
        spawned_into(world_view(*old(world)), world_view(*final(world)), e, Some(value@), None, None),
{
    world.spawn(Text::new(value)).id().to_bits()
}

/// Calls `World::entity_mut(e).insert(Text::new(value))`: the text of `e`
/// becomes `value`; links stay, and layout data that `e` had stays. Bevy
/// panics when `e` is dead.
#[verifier::external_body]
pub(crate) fn set_text(world: &mut World, e: u64, value: &str)
    requires
        world_view(*old(world)).quiet,
        is_live(world_view(*old(world)), e),
    ensures
        text_written(world_view(*old(world)), e, value@, world_view(*final(world))),
        world_view(*old(world)).parts.fresh_layouts.contains(e) ==> world_view(*final(world)).parts.fresh_layouts.contains(e),
        world_view(*old(world)).parts.layouts.contains(e) ==> (world_view(*final(world)).parts.fresh_layouts.contains(e)
            == world_view(*old(world)).parts.fresh_layouts.contains(e)),
{
    world.entity_mut(Entity::from_bits(e)).insert(Text::new(value));
}

/// Calls `World::entity_mut(e).insert((Text::new(value),
/// TextLayoutInfo::default(), ContentSize::default()))`: the text of `e`
/// becomes `value`, with fresh layout data; links stay. Bevy panics when `e`
/// is dead.
#[verifier::external_body]
pub(crate) fn set_text_with_layout(world: &mut World, e: u64, value: &str)
    requires
        world_view(*old(world)).quiet,
        is_live(world_view(*old(world)), e),
    ensures
        text_written(world_view(*old(world)), e, value@, world_view(*final(world))),
        world_view(*final(world)).parts.fresh_layouts.contains(e),
{
    world.entity_mut(Entity::from_bits(e)).insert((
        Text::new(value),
        TextLayoutInfo::default(),
        ContentSize::default(),
    ));
}

} // verus!
