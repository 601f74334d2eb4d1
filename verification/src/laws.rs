//! Properties of the applier that span its operations.
use vstd::prelude::*;
use vstd::seq_lib::lemma_no_dup_in_concat;
use bevy::ui::widget::ImageNode;
use crate::applier::can_place_near;
use crate::applier::children_appended_one_by_one;
use crate::applier::first_index_of;
use crate::applier::forget_owner;
use crate::applier::has_sibling_slot;
use crate::applier::path_target;
use crate::applier::placed_near;
use crate::applier::slot_index;
use crate::spawn::builds;
use crate::spawn::lemma_builds_consistent;
use crate::spawn::same_at;
use crate::spawn::spawned_tree_into;
use crate::spawn::subtree;
use crate::template::BevyTemplate;
use crate::template::BevyTemplateNode;
use crate::template::TemplateNode;
use crate::template::all_mirror_from;
use crate::template::lemma_all_mirror;
use crate::template::mirrors;
use crate::world::Components;
use crate::world::Look;
use crate::world::WorldView;
use crate::world::can_insert_children;
use crate::world::child_appended;
use crate::world::children_inserted;
use crate::world::children_or_empty;
use crate::world::descends_from;
use crate::world::despawned_into;
use crate::world::detached;
use crate::world::changed_to;
use crate::world::is_live;
use crate::world::kept_children;
use crate::world::not_among;
use crate::world::other_than;
use crate::world::reparent;
use crate::world::reparent_all;
use crate::world::spawned_into;
use crate::world::text_written;
use crate::world::valid_entity_bits;

verus! {

/// The two maps pair element ids and entities one to one.
pub open spec fn maps_inverse(elements: Map<usize, u64>, owners: Map<u64, usize>) -> bool {
    &&& forall|id: usize| #[trigger] elements.contains_key(id)
        ==> owners.contains_key(elements[id]) && owners[elements[id]] == id
    &&& forall|e: u64| #[trigger] owners.contains_key(e)
        ==> elements.contains_key(owners[e]) && elements[owners[e]] == e
}

/// Giving a new element id to a new entity, as the create and load
/// operations do, keeps the maps one to one.
pub proof fn law_register_keeps_maps_inverse(
    elements: Map<usize, u64>,
    owners: Map<u64, usize>,
    id: usize,
    e: u64,
)
    requires
        maps_inverse(elements, owners),
        !elements.contains_key(id),
        !owners.contains_key(e),
    ensures
        maps_inverse(elements.insert(id, e), owners.insert(e, id)),
{
}

/// Forgetting the element of an entity, as the remove and replace
/// operations do, keeps the maps one to one.
pub proof fn law_unregister_keeps_maps_inverse(elements: Map<usize, u64>, owners: Map<u64, usize>, x: u64)
    requires
        maps_inverse(elements, owners),
    ensures
        maps_inverse(forget_owner(elements, owners, x), owners.remove(x)),
{
}

/// Removing the node of element `id` when the maps are one to one forgets
/// `id` and leaves every other element where it was.
pub proof fn law_remove_forgets_element(elements: Map<usize, u64>, owners: Map<u64, usize>, id: usize)
    requires
        maps_inverse(elements, owners),
        elements.contains_key(id),
    ensures
        forget_owner(elements, owners, elements[id]) == elements.remove(id),
{
}

/// A recursive despawn of a live entity leaves it dead, and everything
/// below it along `Children` lists dead too.
pub proof fn law_despawn_kills_subtree(v: WorldView, w: WorldView, x: u64, y: u64)
    requires
        despawned_into(v, w, x),
        is_live(v, x),
        v.entities.contains(y),
        descends_from(detached(v.parts, x), x, y),
    ensures
        !w.entities.contains(y),
{
}

/// The entity of a despawned subtree is dead afterwards.
pub proof fn law_despawn_kills_root(v: WorldView, w: WorldView, x: u64)
    requires
        despawned_into(v, w, x),
        is_live(v, x),
    ensures
        !w.entities.contains(x),
{
    let path = seq![x];
    assert(path.last() == x && path[0] == x);
    assert(descends_from(detached(v.parts, x), x, x));
}

/// Loading root `index` of a template registered from the dioxus template
/// `t` spawns a fresh tree of the bevy form of that dioxus root.
pub proof fn law_load_spawns_registered_root(
    t: Seq<TemplateNode>,
    registered: BevyTemplate,
    index: int,
    before: WorldView,
    after: WorldView,
    e: u64,
)
    requires
        registered.roots().len() == t.len(),
        all_mirror_from(t, registered.roots(), 0),
        0 <= index < t.len(),
        spawned_tree_into(before, after, e, registered.roots()[index]),
    ensures
        exists|b: BevyTemplateNode| mirrors(t[index], b) && #[trigger] builds(after.parts, e, b),
        !before.entities.contains(e),
        after.entities.contains(e),
{
    lemma_all_mirror(t, registered.roots(), 0);
    let b = registered.roots()[index];
    assert(mirrors(t[index], b));
    assert(builds(after.parts, e, b));
    crate::spawn::lemma_root_in_subtree(after.parts, e, b);
}

/// A filter that keeps every entry changes nothing.
proof fn lemma_filter_keeps_all(s: Seq<u64>, p: spec_fn(u64) -> bool)
    requires
        forall|i: int| 0 <= i < s.len() ==> p(#[trigger] s[i]),
    ensures
        s.filter(p) == s,
    decreases s.len(),
{
    reveal(Seq::filter);
    if s.len() > 0 {
        let front = s.drop_last();
        assert forall|i: int| 0 <= i < front.len() implies p(#[trigger] front[i]) by {
            assert(front[i] == s[i]);
        }
        lemma_filter_keeps_all(front, p);
        assert(front.push(s.last()) =~= s);
    }
}

/// Filtering twice is filtering once by both tests.
proof fn lemma_filter_twice(s: Seq<u64>, p: spec_fn(u64) -> bool, q: spec_fn(u64) -> bool, r: spec_fn(u64) -> bool)
    requires
        forall|x: u64| #[trigger] r(x) == (p(x) && q(x)),
    ensures
        s.filter(p).filter(q) == s.filter(r),
    decreases s.len(),
{
    reveal(Seq::filter);
    if s.len() > 0 {
        lemma_filter_twice(s.drop_last(), p, q, r);
        let f = s.drop_last().filter(p);
        if p(s.last()) {
            f.lemma_filter_push(s.last(), q);
        }
    }
}

/// `reparent` leaves the `Children` of `parent` alone.
proof fn lemma_reparent_keeps_list(c: Components, child: u64, parent: u64)
    ensures
        reparent(c, child, parent).children.contains_key(parent) == c.children.contains_key(parent),
        c.children.contains_key(parent) ==> reparent(c, child, parent).children[parent] == c.children[parent],
        reparent(c, child, parent).parents.contains_key(child),
        reparent(c, child, parent).parents[child] == parent,
        forall|x: u64| x != child && #[trigger] c.parents.contains_key(x) ==>
            reparent(c, child, parent).parents.contains_key(x) && reparent(c, child, parent).parents[x] == c.parents[x],
{
}

/// `reparent_all` leaves the `Children` of `parent` alone and gives each
/// of `kids` the parent `parent`.
proof fn lemma_reparent_all_keeps_list(c: Components, parent: u64, kids: Seq<u64>)
    ensures
        reparent_all(c, parent, kids).children.contains_key(parent) == c.children.contains_key(parent),
        c.children.contains_key(parent) ==> reparent_all(c, parent, kids).children[parent] == c.children[parent],
        forall|i: int| 0 <= i < kids.len() ==> reparent_all(c, parent, kids).parents.contains_key(#[trigger] kids[i])
            && reparent_all(c, parent, kids).parents[kids[i]] == parent,
        forall|x: u64| !kids.contains(x) && #[trigger] c.parents.contains_key(x) ==>
            reparent_all(c, parent, kids).parents.contains_key(x) && reparent_all(c, parent, kids).parents[x] == c.parents[x],
    decreases kids.len(),
{
    if kids.len() > 0 {
        let front = kids.drop_last();
        lemma_reparent_all_keeps_list(c, parent, front);
        let r0 = reparent_all(c, parent, front);
        lemma_reparent_keeps_list(r0, kids.last(), parent);
        assert forall|i: int| 0 <= i < kids.len() implies reparent_all(c, parent, kids).parents.contains_key(#[trigger] kids[i])
            && reparent_all(c, parent, kids).parents[kids[i]] == parent by {
            if i < kids.len() - 1 {
                assert(kids[i] == front[i]);
            }
        }
        assert forall|x: u64| !kids.contains(x) && #[trigger] c.parents.contains_key(x) implies
            reparent_all(c, parent, kids).parents.contains_key(x) && reparent_all(c, parent, kids).parents[x] == c.parents[x] by {
            assert(kids[kids.len() - 1] == kids.last());
            if front.contains(x) {
                let j = choose|j: int| 0 <= j < front.len() && front[j] == x;
                assert(kids[j] == x);
            }
        }
    }
}

/// After `add_child` of each of `kids` in turn, the children of `parent`
/// end with `kids`, in order, after its former children that are not
/// among them; each of `kids` names `parent` as its parent.
pub proof fn law_appended_children_end_the_list(c: Components, parent: u64, kids: Seq<u64>)
    requires
        kids.no_duplicates(),
    ensures
        children_or_empty(children_appended_one_by_one(c, parent, kids), parent)
            == children_or_empty(c, parent).filter(not_among(kids)) + kids,
        kids.len() > 0 ==> children_appended_one_by_one(c, parent, kids).children.contains_key(parent),
        forall|i: int| 0 <= i < kids.len() ==> children_appended_one_by_one(c, parent, kids).parents.contains_key(#[trigger] kids[i])
            && children_appended_one_by_one(c, parent, kids).parents[kids[i]] == parent,
    decreases kids.len(),
{
    let l0 = children_or_empty(c, parent);
    if kids.len() == 0 {
        lemma_filter_keeps_all(l0, not_among(kids));
        assert(l0 + kids =~= l0);
    } else {
        let front = kids.drop_last();
        let k = kids.last();
        assert(front.no_duplicates());
        law_appended_children_end_the_list(c, parent, front);
        let r0 = children_appended_one_by_one(c, parent, front);
        lemma_reparent_keeps_list(r0, k, parent);
        let before = children_or_empty(r0, parent);
        let not_k = other_than(k);
        assert(!front.contains(k)) by {
            if front.contains(k) {
                let j = choose|j: int| 0 <= j < front.len() && front[j] == k;
                assert(kids[j] == kids[kids.len() - 1]);
            }
        }
        reveal(Seq::filter);
        if !reparent(r0, k, parent).children.contains_key(parent) {
            assert(before.filter(not_k) =~= Seq::<u64>::empty());
            assert(before.filter(not_k).push(k) =~= seq![k]);
        }
        assert(children_or_empty(children_appended_one_by_one(c, parent, kids), parent) == before.filter(not_k).push(k));
        let keep_front = not_among(front);
        let keep_kids = not_among(kids);
        Seq::filter_distributes_over_add(l0.filter(keep_front), front, not_k);
        lemma_filter_keeps_all(front, not_k);
        assert forall|x: u64| #[trigger] keep_kids(x) == (keep_front(x) && not_k(x)) by {
            assert(kids =~= front.push(k));
            if front.contains(x) {
                let j = choose|j: int| 0 <= j < front.len() && front[j] == x;
                assert(kids[j] == x);
            }
            if kids.contains(x) && x != k {
                let j = choose|j: int| 0 <= j < kids.len() && kids[j] == x;
                assert(front[j] == x);
            }
        }
        lemma_filter_twice(l0, keep_front, not_k, keep_kids);
        assert(front.push(k) =~= kids);
        assert((l0.filter(keep_kids) + front).push(k) =~= l0.filter(keep_kids) + kids);
        assert forall|i: int| 0 <= i < kids.len() implies children_appended_one_by_one(c, parent, kids).parents.contains_key(#[trigger] kids[i])
            && children_appended_one_by_one(c, parent, kids).parents[kids[i]] == parent by {
            if i < kids.len() - 1 {
                assert(kids[i] == front[i]);
                assert(kids[i] != k);
            }
        }
    }
}

/// When none of `kids` is a child of `parent` yet, inserting them at
/// `index` puts them there, between the former children before and after
/// `index`; each of `kids` names `parent` as its parent.
pub proof fn law_inserted_children_take_the_slot(c: Components, parent: u64, index: int, kids: Seq<u64>)
    requires
        c.children.contains_key(parent),
        0 <= index <= c.children[parent].len(),
        forall|i: int| 0 <= i < kids.len() ==> !c.children[parent].contains(#[trigger] kids[i]),
    ensures
        children_inserted(c, parent, index, kids).children[parent]
            == c.children[parent].take(index) + kids + c.children[parent].skip(index),
        forall|i: int| 0 <= i < kids.len() ==> children_inserted(c, parent, index, kids).parents.contains_key(#[trigger] kids[i])
            && children_inserted(c, parent, index, kids).parents[kids[i]] == parent,
{
    let l = c.children[parent];
    lemma_reparent_all_keeps_list(c, parent, kids);
    assert forall|i: int| 0 <= i < l.len() implies not_among(kids)(#[trigger] l[i]) by {
        if kids.contains(l[i]) {
            let j = choose|j: int| 0 <= j < kids.len() && kids[j] == l[i];
            assert(!l.contains(kids[j]));
        }
    }
    lemma_filter_keeps_all(l, not_among(kids));
}

/// Replacing `x` by `kids` that are not yet among its siblings leaves
/// `kids` in its place: where its parent survives, the parent's children
/// are those before `x`, then `kids`, then those after `x`; `x` is dead.
pub proof fn law_replaced_node_gives_up_its_slot(v: WorldView, w: WorldView, x: u64, kids: Seq<u64>)
    requires
        has_sibling_slot(v, x),
        v.parts.children[v.parts.parents[x]].no_duplicates(),
        forall|i: int| 0 <= i < kids.len() ==> !v.parts.children[v.parts.parents[x]].contains(#[trigger] kids[i]),
        despawned_into(WorldView { entities: v.entities, quiet: v.quiet, parts: placed_near(v.parts, x, 0, kids) }, w, x),
    ensures
        !w.entities.contains(x),
        ({
            let p = v.parts.parents[x];
            let l = v.parts.children[p];
            let idx = first_index_of(l, x);
            w.parts.children.contains_key(p) ==> w.parts.children[p] == l.take(idx) + kids + l.skip(idx + 1)
        }),
{
    let p = v.parts.parents[x];
    let l = v.parts.children[p];
    assert(exists|i: int| 0 <= i < l.len() && l[i] == x && forall|j: int| 0 <= j < i ==> l[j] != x) by {
        let k = choose|k: int| 0 <= k < l.len() && l[k] == x;
        assert(0 <= k < l.len() && l[k] == x && forall|j: int| 0 <= j < k ==> l[j] != x);
    }
    let idx = first_index_of(l, x);
    assert(0 <= idx < l.len() && l[idx] == x);
    assert(!kids.contains(x)) by {
        if kids.contains(x) {
            let j = choose|j: int| 0 <= j < kids.len() && kids[j] == x;
            assert(!l.contains(kids[j]));
        }
    }
    law_inserted_children_take_the_slot(v.parts, p, idx, kids);
    lemma_reparent_all_keeps_list(v.parts, p, kids);
    let placed = placed_near(v.parts, x, 0, kids);
    assert(placed.parents[x] == p);
    let ox = other_than(x);
    let before = l.take(idx);
    let after = l.skip(idx + 1);
    assert(l.skip(idx) =~= seq![x] + after);
    assert(placed.children[p] =~= before + kids + (seq![x] + after));
    Seq::filter_distributes_over_add(before + kids, seq![x] + after, ox);
    Seq::filter_distributes_over_add(before, kids, ox);
    Seq::filter_distributes_over_add(seq![x], after, ox);
    lemma_filter_keeps_all(before, ox);
    lemma_filter_keeps_all(kids, ox);
    assert forall|i: int| 0 <= i < after.len() implies ox(#[trigger] after[i]) by {
        assert(after[i] == l[idx + 1 + i]);
    }
    lemma_filter_keeps_all(after, ox);
    reveal(Seq::filter);
    assert(seq![x].drop_last() =~= Seq::<u64>::empty());
    assert(Seq::<u64>::empty().filter(ox) =~= Seq::<u64>::empty());
    assert(!ox(x));
    assert(seq![x].filter(ox) =~= Seq::<u64>::empty());
    assert(Seq::<u64>::empty() + after =~= after);
    law_despawn_kills_root(WorldView { entities: v.entities, quiet: v.quiet, parts: placed }, w, x);
}

/// `x` is in what `p` keeps of `s` exactly when it is in `s` and `p` keeps it.
proof fn lemma_filter_member(s: Seq<u64>, p: spec_fn(u64) -> bool, x: u64)
    ensures
        s.filter(p).contains(x) <==> (s.contains(x) && p(x)),
{
    if s.filter(p).contains(x) {
        s.lemma_filter_contains_rev(p, x);
        let j = choose|j: int| 0 <= j < s.filter(p).len() && s.filter(p)[j] == x;
        s.lemma_filter_pred(p, j);
    }
    if s.contains(x) && p(x) {
        let j = choose|j: int| 0 <= j < s.len() && s[j] == x;
        s.lemma_filter_contains(p, j);
    }
}

/// Filtering keeps a list free of repeats.
proof fn lemma_filter_no_duplicates(s: Seq<u64>, p: spec_fn(u64) -> bool)
    requires
        s.no_duplicates(),
    ensures
        s.filter(p).no_duplicates(),
    decreases s.len(),
{
    reveal(Seq::filter);
    if s.len() > 0 {
        let front = s.drop_last();
        assert(front.no_duplicates());
        lemma_filter_no_duplicates(front, p);
        if p(s.last()) {
            lemma_filter_member(front, p, s.last());
            assert(!front.contains(s.last())) by {
                if front.contains(s.last()) {
                    let j = choose|j: int| 0 <= j < front.len() && front[j] == s.last();
                    assert(s[j] == s[s.len() - 1]);
                }
            }
            let f = front.filter(p);
            assert(!f.contains(s.last()));
            assert forall|i: int, j: int| 0 <= i < f.push(s.last()).len() && 0 <= j < f.push(s.last()).len() && i != j
                implies f.push(s.last())[i] != f.push(s.last())[j] by {
                if i == f.len() {
                    assert(f.push(s.last())[j] == f[j]);
                } else if j == f.len() {
                    assert(f.push(s.last())[i] == f[i]);
                }
            }
        }
    }
}

/// The `Parent` and `Children` components agree: a listed child names the
/// entity that lists it as its parent, a parent lists each child that names
/// it, no list holds an entity twice, and links name live entities only.
pub open spec fn hierarchy_consistent(v: WorldView) -> bool {
    let c = v.parts;
    &&& forall|e: u64| #[trigger] c.children.contains_key(e) ==> v.entities.contains(e) && c.children[e].no_duplicates()
    &&& forall|e: u64, k: u64| c.children.contains_key(e) && #[trigger] c.children[e].contains(k)
        ==> c.parents.contains_key(k) && c.parents[k] == e
    &&& forall|k: u64| #[trigger] c.parents.contains_key(k)
        ==> v.entities.contains(k) && c.children.contains_key(c.parents[k]) && c.children[c.parents[k]].contains(k)
}

/// `add_child` keeps the hierarchy consistent.
pub proof fn law_add_child_keeps_hierarchy_consistent(v: WorldView, parent: u64, child: u64)
    requires
        hierarchy_consistent(v),
        v.entities.contains(parent),
        v.entities.contains(child),
        child != parent,
    ensures
        hierarchy_consistent(WorldView { entities: v.entities, quiet: v.quiet, parts: child_appended(v.parts, parent, child) }),
{
    let c = v.parts;
    let w = reparent(c, child, parent);
    let r = child_appended(c, parent, child);
    let ok = other_than(child);
    let old_list = children_or_empty(c, parent);
    let new_list = old_list.filter(ok).push(child);
    reveal(Seq::filter);
    if !w.children.contains_key(parent) {
        assert(old_list.filter(ok) =~= Seq::<u64>::empty()) by {
            if c.children.contains_key(parent) {
                lemma_reparent_keeps_list(c, child, parent);
            }
        }
    }
    lemma_reparent_keeps_list(c, child, parent);
    assert(r.children[parent] == new_list);
    lemma_filter_no_duplicates(old_list, ok);
    assert forall|x: u64| #[trigger] new_list.contains(x) <==> (x == child || (old_list.contains(x) && x != child)) by {
        lemma_filter_member(old_list, ok, x);
        if new_list.contains(x) && x != child {
            let j = choose|j: int| 0 <= j < new_list.len() && new_list[j] == x;
            assert(old_list.filter(ok)[j] == x);
        }
        if x == child {
            assert(new_list[new_list.len() - 1] == child);
        }
        if old_list.contains(x) && x != child {
            let j = choose|j: int| 0 <= j < old_list.filter(ok).len() && old_list.filter(ok)[j] == x;
            assert(new_list[j] == x);
        }
    }
    assert(new_list.no_duplicates()) by {
        let f = old_list.filter(ok);
        assert(!f.contains(child)) by {
            lemma_filter_member(old_list, ok, child);
        }
        assert forall|i: int, j: int| 0 <= i < new_list.len() && 0 <= j < new_list.len() && i != j
            implies new_list[i] != new_list[j] by {
            if i == f.len() {
                assert(new_list[j] == f[j]);
            } else if j == f.len() {
                assert(new_list[i] == f[i]);
            }
        }
    }
    // The former parent, when another entity, forgets the child.
    let q = c.parents[child];
    let moved = c.parents.contains_key(child) && q != parent;
    if moved {
        lemma_filter_no_duplicates(c.children[q], ok);
    }
    assert forall|e: u64, k: u64| r.children.contains_key(e) && #[trigger] r.children[e].contains(k)
        implies r.parents.contains_key(k) && r.parents[k] == e by {
        if e == parent {
        } else if moved && e == q {
            lemma_filter_member(c.children[q], ok, k);
        } else {
            assert(c.children.contains_key(e) && c.children[e] == r.children[e]);
            assert(k != child);
        }
    }
    assert forall|k: u64| #[trigger] r.parents.contains_key(k)
        implies v.entities.contains(k) && r.children.contains_key(r.parents[k]) && r.children[r.parents[k]].contains(k) by {
        if k != child {
            let e = c.parents[k];
            assert(c.children[e].contains(k));
            if e == parent {
            } else if moved && e == q {
                lemma_filter_member(c.children[q], ok, k);
                assert(c.children[q].filter(ok).len() > 0);
            }
        }
    }
    assert forall|e: u64| #[trigger] r.children.contains_key(e) implies v.entities.contains(e) && r.children[e].no_duplicates() by {
        if e != parent && !(moved && e == q) {
            assert(c.children.contains_key(e));
        }
    }
}

/// `add_child` of each of `kids` in turn keeps the hierarchy consistent.
pub proof fn law_append_children_keeps_hierarchy_consistent(v: WorldView, parent: u64, kids: Seq<u64>)
    requires
        hierarchy_consistent(v),
        v.entities.contains(parent),
        forall|i: int| 0 <= i < kids.len() ==> v.entities.contains(#[trigger] kids[i]) && kids[i] != parent,
    ensures
        hierarchy_consistent(WorldView { entities: v.entities, quiet: v.quiet, parts: children_appended_one_by_one(v.parts, parent, kids) }),
    decreases kids.len(),
{
    if kids.len() > 0 {
        let front = kids.drop_last();
        assert forall|i: int| 0 <= i < front.len() implies v.entities.contains(#[trigger] front[i]) && front[i] != parent by {
            assert(front[i] == kids[i]);
        }
        law_append_children_keeps_hierarchy_consistent(v, parent, front);
        let r0 = children_appended_one_by_one(v.parts, parent, front);
        assert(kids.last() == kids[kids.len() - 1]);
        law_add_child_keeps_hierarchy_consistent(WorldView { entities: v.entities, quiet: v.quiet, parts: r0 }, parent, kids.last());
    }
}

/// What `reparent_all` does to a consistent hierarchy when the moved
/// entities are distinct and the new parent is not among them: they name
/// the new parent; every other list loses them, and goes when it was left
/// empty by that; the list of the new parent stays.
proof fn lemma_reparent_all_consistent(v: WorldView, parent: u64, kids: Seq<u64>)
    requires
        hierarchy_consistent(v),
        kids.no_duplicates(),
        !kids.contains(parent),
    ensures
        ({
            let c = v.parts;
            let r = reparent_all(c, parent, kids);
            &&& r.texts == c.texts
            &&& forall|x: u64| #[trigger] r.parents.contains_key(x) == (c.parents.contains_key(x) || kids.contains(x))
            &&& forall|x: u64| #[trigger] r.parents.contains_key(x) ==>
                r.parents[x] == (if kids.contains(x) { parent } else { c.parents[x] })
            &&& r.children.contains_key(parent) == c.children.contains_key(parent)
            &&& c.children.contains_key(parent) ==> r.children[parent] == c.children[parent]
            &&& forall|e: u64| e != parent ==> (#[trigger] r.children.contains_key(e) == (c.children.contains_key(e)
                && (c.children[e].filter(not_among(kids)).len() > 0
                    || forall|j: int| 0 <= j < kids.len() ==> !c.children[e].contains(#[trigger] kids[j]))))
            &&& forall|e: u64| e != parent && #[trigger] r.children.contains_key(e) ==>
                r.children[e] == c.children[e].filter(not_among(kids))
        }),
    decreases kids.len(),
{
    let c = v.parts;
    if kids.len() == 0 {
        assert forall|e: u64| e != parent && #[trigger] c.children.contains_key(e) implies
            c.children[e] == c.children[e].filter(not_among(kids)) by {
            lemma_filter_keeps_all(c.children[e], not_among(kids));
        }
    } else {
        let front = kids.drop_last();
        let k = kids.last();
        assert(kids[kids.len() - 1] == k);
        assert(front.no_duplicates());
        assert(!front.contains(parent)) by {
            if front.contains(parent) {
                let j = choose|j: int| 0 <= j < front.len() && front[j] == parent;
                assert(kids[j] == parent);
            }
        }
        assert(!front.contains(k)) by {
            if front.contains(k) {
                let j = choose|j: int| 0 <= j < front.len() && front[j] == k;
                assert(kids[j] == kids[kids.len() - 1]);
            }
        }
        assert(k != parent);
        lemma_reparent_all_consistent(v, parent, front);
        let r0 = reparent_all(c, parent, front);
        let r = reparent_all(c, parent, kids);
        assert(r == reparent(r0, k, parent));
        assert forall|x: u64| kids.contains(x) == (front.contains(x) || x == k) by {
            assert(kids =~= front.push(k));
            if kids.contains(x) && x != k {
                let j = choose|j: int| 0 <= j < kids.len() && kids[j] == x;
                assert(front[j] == x);
            }
            if front.contains(x) {
                let j = choose|j: int| 0 <= j < front.len() && front[j] == x;
                assert(kids[j] == x);
            }
        }
        assert forall|x: u64| #[trigger] not_among(kids)(x) == (not_among(front)(x) && other_than(k)(x)) by {}
        // The lists of `c` other than that of the new parent.
        assert forall|e: u64| e != parent && #[trigger] c.children.contains_key(e) implies
            c.children[e].filter(not_among(front)).filter(other_than(k)) == c.children[e].filter(not_among(kids)) by {
            lemma_filter_twice(c.children[e], not_among(front), other_than(k), not_among(kids));
        }
        let q = c.parents[k];
        let moved = c.parents.contains_key(k) && q != parent;
        assert forall|e: u64| e != parent && #[trigger] c.children.contains_key(e) && (!moved || e != q) implies
            !c.children[e].contains(k) by {}
        assert forall|e: u64| e != parent && #[trigger] c.children.contains_key(e) && (!moved || e != q) implies
            c.children[e].filter(not_among(front)) == c.children[e].filter(not_among(kids)) by {
            let f = c.children[e].filter(not_among(front));
            assert forall|i: int| 0 <= i < f.len() implies other_than(k)(#[trigger] f[i]) by {
                lemma_filter_member(c.children[e], not_among(front), f[i]);
                assert(f.contains(f[i]));
            }
            lemma_filter_keeps_all(f, other_than(k));
        }
        if moved {
            assert(c.children.contains_key(q) && c.children[q].contains(k));
            lemma_filter_member(c.children[q], not_among(front), k);
            assert(c.children[q].filter(not_among(front)).len() > 0);
            assert(r0.children.contains_key(q));
            assert(r0.parents.contains_key(k) && r0.parents[k] == q);
            lemma_filter_member(c.children[q], not_among(kids), k);
        } else {
            assert(!r0.parents.contains_key(k) || r0.parents[k] == parent);
        }
        assert forall|e: u64| e != parent implies (#[trigger] r.children.contains_key(e) == (c.children.contains_key(e)
            && (c.children[e].filter(not_among(kids)).len() > 0
                || forall|j: int| 0 <= j < kids.len() ==> !c.children[e].contains(#[trigger] kids[j])))) by {
            if c.children.contains_key(e) {
                let none_front = forall|j: int| 0 <= j < front.len() ==> !c.children[e].contains(#[trigger] front[j]);
                let none_kids = forall|j: int| 0 <= j < kids.len() ==> !c.children[e].contains(#[trigger] kids[j]);
                if none_kids {
                    assert forall|j: int| 0 <= j < front.len() implies !c.children[e].contains(#[trigger] front[j]) by {
                        assert(front[j] == kids[j]);
                    }
                }
                if none_front && !(moved && e == q) {
                    assert forall|j: int| 0 <= j < kids.len() implies !c.children[e].contains(#[trigger] kids[j]) by {
                        if j < kids.len() - 1 {
                            assert(kids[j] == front[j]);
                        }
                    }
                }
                if moved && e == q {
                    assert(!none_kids) by {
                        assert(!c.children[e].contains(kids[kids.len() - 1]) ==> false);
                    }
                }
            }
        }
    }
}

/// Putting `kids` into `kept` at `index` gives a list of exactly their
/// entities, with no repeats when there were none and they are apart.
proof fn lemma_spliced(kept: Seq<u64>, index: int, kids: Seq<u64>)
    requires
        0 <= index <= kept.len(),
        kept.no_duplicates(),
        kids.no_duplicates(),
        forall|i: int| 0 <= i < kids.len() ==> !kept.contains(#[trigger] kids[i]),
    ensures
        (kept.take(index) + kids + kept.skip(index)).no_duplicates(),
        forall|x: u64| #[trigger] (kept.take(index) + kids + kept.skip(index)).contains(x)
            == (kept.contains(x) || kids.contains(x)),
{
    let a = kept.take(index);
    let c = kept.skip(index);
    assert forall|i: int, j: int| 0 <= i < a.len() && 0 <= j < kids.len() implies a[i] != kids[j] by {
        assert(a[i] == kept[i]);
        assert(!kept.contains(kids[j]));
    }
    lemma_no_dup_in_concat(a, kids);
    assert forall|i: int, j: int| 0 <= i < (a + kids).len() && 0 <= j < c.len() implies (a + kids)[i] != c[j] by {
        assert(c[j] == kept[index + j]);
        if i < a.len() {
            assert((a + kids)[i] == kept[i]);
        } else {
            assert((a + kids)[i] == kids[i - a.len()]);
            assert(!kept.contains(kids[i - a.len()]));
        }
    }
    lemma_no_dup_in_concat(a + kids, c);
    assert forall|x: u64| #[trigger] (a + kids + c).contains(x) == (kept.contains(x) || kids.contains(x)) by {
        let s = a + kids + c;
        if s.contains(x) {
            let j = choose|j: int| 0 <= j < s.len() && s[j] == x;
            if j < a.len() {
                assert(kept[j] == x);
            } else if j < a.len() + kids.len() {
                assert(kids[j - a.len()] == x);
            } else {
                assert(kept[j - kids.len()] == x);
            }
        }
        if kept.contains(x) {
            let j = choose|j: int| 0 <= j < kept.len() && kept[j] == x;
            if j < index {
                assert(s[j] == x);
            } else {
                assert(s[j + kids.len()] == x);
            }
        }
        if kids.contains(x) {
            let j = choose|j: int| 0 <= j < kids.len() && kids[j] == x;
            assert(s[a.len() + j] == x);
        }
    }
}

/// `insert_children` of distinct entities keeps the hierarchy consistent.
#[verifier::spinoff_prover]
pub proof fn law_insert_children_keeps_hierarchy_consistent(v: WorldView, parent: u64, index: int, kids: Seq<u64>)
    requires
        hierarchy_consistent(v),
        kids.no_duplicates(),
        0 <= index,
        can_insert_children(v, parent, index, kids),
    ensures
        hierarchy_consistent(WorldView { entities: v.entities, quiet: v.quiet, parts: children_inserted(v.parts, parent, index, kids) }),
{
    let c = v.parts;
    lemma_reparent_all_consistent(v, parent, kids);
    let r = reparent_all(c, parent, kids);
    let out = children_inserted(c, parent, index, kids);
    let list = out.children[parent];
    assert forall|i: int| 0 <= i < kids.len() implies v.entities.contains(#[trigger] kids[i]) by {
        assert(is_live(v, kids[i]));
    }
    if c.children.contains_key(parent) {
        let kept = c.children[parent].filter(not_among(kids));
        lemma_filter_no_duplicates(c.children[parent], not_among(kids));
        assert forall|i: int| 0 <= i < kids.len() implies !kept.contains(#[trigger] kids[i]) by {
            lemma_filter_member(c.children[parent], not_among(kids), kids[i]);
            assert(kids.contains(kids[i]));
        }
        lemma_spliced(kept, index, kids);
        assert(list == kept.take(index) + kids + kept.skip(index));
    } else {
        assert(list == kids);
    }
    assert forall|x: u64| #[trigger] list.contains(x) == (kids.contains(x)
        || (c.children.contains_key(parent) && c.children[parent].contains(x) && !kids.contains(x))) by {
        if c.children.contains_key(parent) {
            let kept = c.children[parent].filter(not_among(kids));
            lemma_filter_member(c.children[parent], not_among(kids), x);
            lemma_spliced(kept, index, kids);
        }
    }
    assert(list.no_duplicates());
    assert forall|e: u64, k: u64| out.children.contains_key(e) && #[trigger] out.children[e].contains(k)
        implies out.parents.contains_key(k) && out.parents[k] == e by {
        assert(out.parents == r.parents);
        if e != parent {
            assert(r.children.contains_key(e));
            assert(out.children[e] == r.children[e]);
            lemma_filter_member(c.children[e], not_among(kids), k);
            assert(c.children[e].contains(k));
            assert(!kids.contains(k));
            assert(c.parents.contains_key(k) && c.parents[k] == e);
            assert(r.parents.contains_key(k));
            assert(r.parents[k] == e);
        } else {
            assert(list.contains(k));
            if !kids.contains(k) {
                assert(c.children[parent].contains(k));
                assert(c.parents.contains_key(k) && c.parents[k] == parent);
            }
            assert(r.parents.contains_key(k));
            assert(r.parents[k] == parent);
        }
    }
    assert forall|k: u64| #[trigger] out.parents.contains_key(k)
        implies v.entities.contains(k) && out.children.contains_key(out.parents[k]) && out.children[out.parents[k]].contains(k) by {
        if kids.contains(k) {
            let j = choose|j: int| 0 <= j < kids.len() && kids[j] == k;
            assert(is_live(v, kids[j]));
            assert(v.entities.contains(kids[j]));
        } else {
            let e = c.parents[k];
            assert(c.children[e].contains(k));
            if e != parent {
                lemma_filter_member(c.children[e], not_among(kids), k);
                assert(c.children[e].filter(not_among(kids)).len() > 0);
            }
        }
    }
    assert forall|e: u64| #[trigger] out.children.contains_key(e) implies v.entities.contains(e) && out.children[e].no_duplicates() by {
        if e != parent {
            lemma_filter_no_duplicates(c.children[e], not_among(kids));
        }
    }
}

/// A child of an entity below `root` is below `root`.
proof fn lemma_descends_extend(c: Components, root: u64, e: u64, k: u64)
    requires
        descends_from(c, root, e),
        c.children.contains_key(e),
        c.children[e].contains(k),
    ensures
        descends_from(c, root, k),
{
    let path = choose|path: Seq<u64>|
        #![trigger path.last(), path[0]]
        {
            &&& path.len() >= 1
            &&& path[0] == root
            &&& path.last() == e
            &&& forall|i: int|
                0 <= i < path.len() - 1 ==> #[trigger] c.children.contains_key(path[i])
                    && c.children[path[i]].contains(path[i + 1])
        };
    let longer = path.push(k);
    assert(longer[0] == root && longer.last() == k);
    assert forall|i: int| 0 <= i < longer.len() - 1 implies #[trigger] c.children.contains_key(longer[i])
        && c.children[longer[i]].contains(longer[i + 1]) by {
        if i < path.len() - 1 {
            assert(longer[i] == path[i] && longer[i + 1] == path[i + 1]);
        } else {
            assert(longer[i] == e);
        }
    }
}

/// An entity below `root`, other than `root`, is listed by an entity below `root`.
proof fn lemma_descends_step_back(c: Components, root: u64, k: u64) -> (prev: u64)
    requires
        descends_from(c, root, k),
        k != root,
    ensures
        descends_from(c, root, prev),
        c.children.contains_key(prev),
        c.children[prev].contains(k),
{
    let path = choose|path: Seq<u64>|
        #![trigger path.last(), path[0]]
        {
            &&& path.len() >= 1
            &&& path[0] == root
            &&& path.last() == k
            &&& forall|i: int|
                0 <= i < path.len() - 1 ==> #[trigger] c.children.contains_key(path[i])
                    && c.children[path[i]].contains(path[i + 1])
        };
    assert(path.len() >= 2);
    let shorter = path.drop_last();
    let prev = shorter.last();
    assert(shorter[0] == root);
    assert forall|i: int| 0 <= i < shorter.len() - 1 implies #[trigger] c.children.contains_key(shorter[i])
        && c.children[shorter[i]].contains(shorter[i + 1]) by {
        assert(shorter[i] == path[i] && shorter[i + 1] == path[i + 1]);
    }
    assert(c.children.contains_key(path[path.len() - 2]));
    prev
}

/// A recursive despawn keeps the hierarchy consistent.
pub proof fn law_despawn_keeps_hierarchy_consistent(v: WorldView, w: WorldView, x: u64)
    requires
        hierarchy_consistent(v),
        despawned_into(v, w, x),
    ensures
        hierarchy_consistent(w),
{
    let c = v.parts;
    let d = detached(c, x);
    let ox = other_than(x);
    // The lists of `d` are those of `c`, the list of the parent of `x` without `x`.
    assert forall|e: u64, k: u64| d.children.contains_key(e) && #[trigger] d.children[e].contains(k)
        implies c.children.contains_key(e) && c.children[e].contains(k) && k != x by {
        if c.parents.contains_key(x) && e == c.parents[x] && c.children.contains_key(e) {
            lemma_filter_member(c.children[e], ox, k);
        } else {
            if k == x {
                assert(c.parents.contains_key(x) && c.parents[x] == e);
            }
        }
    }
    assert forall|e: u64| #[trigger] d.children.contains_key(e) implies c.children.contains_key(e) && d.children[e].no_duplicates() by {
        if c.parents.contains_key(x) && e == c.parents[x] && c.children.contains_key(e) {
            lemma_filter_no_duplicates(c.children[e], ox);
        }
    }
    assert(d.parents == c.parents);
    let path = seq![x];
    assert(path[0] == x && path.last() == x);
    assert(descends_from(d, x, x));
    assert forall|e: u64, k: u64| w.parts.children.contains_key(e) && #[trigger] w.parts.children[e].contains(k)
        implies w.parts.parents.contains_key(k) && w.parts.parents[k] == e by {
        assert(d.children.contains_key(e) && d.children[e].contains(k));
        assert(!descends_from(d, x, e));
        assert(c.children[e].contains(k) && k != x);
        if descends_from(d, x, k) {
            let prev = lemma_descends_step_back(d, x, k);
            assert(c.children.contains_key(prev) && c.children[prev].contains(k));
        }
    }
    assert forall|k: u64| #[trigger] w.parts.parents.contains_key(k)
        implies w.entities.contains(k) && w.parts.children.contains_key(w.parts.parents[k])
            && w.parts.children[w.parts.parents[k]].contains(k) by {
        let e = c.parents[k];
        assert(!descends_from(d, x, k));
        assert(k != x);
        assert(c.children[e].contains(k));
        if c.parents.contains_key(x) && e == c.parents[x] {
            lemma_filter_member(c.children[e], ox, k);
        }
        assert(d.children.contains_key(e) && d.children[e].contains(k));
        if descends_from(d, x, e) {
            lemma_descends_extend(d, x, e, k);
        }
    }
    assert forall|e: u64| #[trigger] w.parts.children.contains_key(e) implies w.entities.contains(e) && w.parts.children[e].no_duplicates() by {
        assert(d.children.contains_key(e));
    }
}

/// In a consistent hierarchy, a live entity with a parent can be placed
/// among its siblings: the lookups of the parent and of the position do
/// not panic.
pub proof fn law_parent_gives_sibling_slot(v: WorldView, x: u64)
    requires
        hierarchy_consistent(v),
        is_live(v, x),
        v.parts.parents.contains_key(x),
        valid_entity_bits(v.parts.parents[x]),
    ensures
        has_sibling_slot(v, x),
{
}

/// The first position of an entity in a list that holds it is a position
/// of that entity.
proof fn lemma_first_index(l: Seq<u64>, x: u64)
    requires
        l.contains(x),
    ensures
        0 <= first_index_of(l, x) < l.len(),
        l[first_index_of(l, x)] == x,
        forall|j: int| 0 <= j < first_index_of(l, x) ==> l[j] != x,
{
    assert(exists|i: int| 0 <= i < l.len() && l[i] == x && forall|j: int| 0 <= j < i ==> l[j] != x) by {
        let k = choose|k: int| 0 <= k < l.len() && l[k] == x;
        lemma_first_index_exists(l, x, k);
    }
}

proof fn lemma_first_index_exists(l: Seq<u64>, x: u64, k: int)
    requires
        0 <= k < l.len(),
        l[k] == x,
    ensures
        exists|i: int| 0 <= i < l.len() && l[i] == x && forall|j: int| 0 <= j < i ==> l[j] != x,
    decreases k,
{
    if exists|j: int| 0 <= j < k && l[j] == x {
        let j = choose|j: int| 0 <= j < k && l[j] == x;
        lemma_first_index_exists(l, x, j);
    } else {
        assert(0 <= k < l.len() && l[k] == x && forall|j: int| 0 <= j < k ==> l[j] != x);
    }
}

/// More live entities, with the same links, keep a hierarchy consistent.
proof fn lemma_consistent_grown(v: WorldView, w: WorldView)
    requires
        hierarchy_consistent(v),
        v.entities.subset_of(w.entities),
        w.parts.parents == v.parts.parents,
        w.parts.children == v.parts.children,
    ensures
        hierarchy_consistent(w),
{
}

/// Spawning an entity with no links keeps the hierarchy consistent.
pub proof fn law_spawn_keeps_hierarchy_consistent(
    v: WorldView,
    w: WorldView,
    e: u64,
    text: Option<Seq<char>>,
    look: Option<Look>,
    image: Option<ImageNode>,
)
    requires
        hierarchy_consistent(v),
        spawned_into(v, w, e, text, look, image),
    ensures
        hierarchy_consistent(w),
{
    lemma_consistent_grown(v, w);
}

/// Appending the top of the stack to an entity keeps the hierarchy
/// consistent.
pub proof fn law_appending_keeps_hierarchy_consistent(v: WorldView, w: WorldView, parent: u64, kids: Seq<u64>)
    requires
        hierarchy_consistent(v),
        v.entities.contains(parent),
        forall|i: int| 0 <= i < kids.len() ==> v.entities.contains(#[trigger] kids[i]) && kids[i] != parent,
        changed_to(v, children_appended_one_by_one(v.parts, parent, kids), w),
    ensures
        hierarchy_consistent(w),
{
    law_append_children_keeps_hierarchy_consistent(v, parent, kids);
    lemma_consistent_grown(WorldView { entities: v.entities, quiet: v.quiet, parts: w.parts }, w);
}

/// Putting distinct entities next to `x` among its siblings keeps the
/// hierarchy consistent.
pub proof fn law_placing_keeps_hierarchy_consistent(v: WorldView, w: WorldView, x: u64, offset: int, kids: Seq<u64>)
    requires
        hierarchy_consistent(v),
        kids.no_duplicates(),
        0 <= offset,
        can_place_near(v, x, offset, kids),
        changed_to(v, placed_near(v.parts, x, offset, kids), w),
    ensures
        hierarchy_consistent(w),
{
    let p = v.parts.parents[x];
    lemma_first_index(v.parts.children[p], x);
    law_insert_children_keeps_hierarchy_consistent(v, p, slot_index(v.parts, x, offset), kids);
    lemma_consistent_grown(WorldView { entities: v.entities, quiet: v.quiet, parts: w.parts }, w);
}

/// Replacing `x` by distinct entities keeps the hierarchy consistent.
pub proof fn law_replacing_keeps_hierarchy_consistent(v: WorldView, w: WorldView, x: u64, kids: Seq<u64>)
    requires
        hierarchy_consistent(v),
        kids.no_duplicates(),
        can_place_near(v, x, 0, kids),
        despawned_into(WorldView { entities: v.entities, quiet: v.quiet, parts: placed_near(v.parts, x, 0, kids) }, w, x),
    ensures
        hierarchy_consistent(w),
{
    let p = v.parts.parents[x];
    lemma_first_index(v.parts.children[p], x);
    law_insert_children_keeps_hierarchy_consistent(v, p, slot_index(v.parts, x, 0), kids);
    law_despawn_keeps_hierarchy_consistent(WorldView { entities: v.entities, quiet: v.quiet, parts: placed_near(v.parts, x, 0, kids) }, w, x);
}

/// Spawning the tree of a template node keeps the hierarchy consistent.
pub proof fn law_spawned_tree_keeps_hierarchy_consistent(v: WorldView, w: WorldView, e: u64, b: BevyTemplateNode)
    requires
        hierarchy_consistent(v),
        spawned_tree_into(v, w, e, b),
    ensures
        hierarchy_consistent(w),
{
    let c = w.parts;
    let s = subtree(c, e, b);
    lemma_builds_consistent(c, e, b);
    assert forall|x: u64| #[trigger] c.children.contains_key(x) implies w.entities.contains(x) && c.children[x].no_duplicates() by {
        if !s.contains(x) {
            assert(same_at(v.parts, c, x));
        }
    }
    assert forall|x: u64, k: u64| c.children.contains_key(x) && #[trigger] c.children[x].contains(k)
        implies c.parents.contains_key(k) && c.parents[k] == x by {
        if !s.contains(x) {
            assert(same_at(v.parts, c, x));
            assert(v.entities.contains(k));
            assert(!s.contains(k));
            assert(same_at(v.parts, c, k));
        }
    }
    assert forall|k: u64| #[trigger] c.parents.contains_key(k)
        implies w.entities.contains(k) && c.children.contains_key(c.parents[k]) && c.children[c.parents[k]].contains(k) by {
        if !s.contains(k) {
            assert(same_at(v.parts, c, k));
            let p = v.parts.parents[k];
            assert(v.entities.contains(p));
            assert(!s.contains(p));
            assert(same_at(v.parts, c, p));
        }
    }
}

/// Putting entities before the next sibling of `x` is putting them after
/// `x`: both insert them at the same place of the same list.
pub proof fn law_before_next_is_after(c: Components, p: u64, i: int, x: u64, y: u64, kids: Seq<u64>)
    requires
        c.children.contains_key(p),
        c.children[p].no_duplicates(),
        0 <= i,
        i + 1 < c.children[p].len(),
        c.children[p][i] == x,
        c.children[p][i + 1] == y,
        c.parents.contains_key(x) && c.parents[x] == p,
        c.parents.contains_key(y) && c.parents[y] == p,
    ensures
        placed_near(c, y, 0, kids) == placed_near(c, x, 1, kids),
{
    let l = c.children[p];
    assert(l.contains(x));
    assert(l.contains(y));
    lemma_first_index(l, x);
    lemma_first_index(l, y);
    assert(first_index_of(l, x) == i);
    assert(first_index_of(l, y) == i + 1);
}

/// An entity that a spawn brings to life is held by no map whose entities
/// are all alive.
pub proof fn law_spawned_entity_is_unowned(
    v: WorldView,
    w: WorldView,
    e: u64,
    text: Option<Seq<char>>,
    look: Option<Look>,
    image: Option<ImageNode>,
    owners: Map<u64, usize>,
)
    requires
        spawned_into(v, w, e, text, look, image),
        forall|k: u64| #[trigger] owners.contains_key(k) ==> v.entities.contains(k),
    ensures
        !owners.contains_key(e),
{
}

/// Creating a node for a new element id keeps the maps one to one when
/// every entity the maps hold is alive.
pub proof fn law_create_keeps_maps_inverse(
    elements: Map<usize, u64>,
    owners: Map<u64, usize>,
    id: usize,
    v: WorldView,
    w: WorldView,
    e: u64,
    text: Option<Seq<char>>,
    look: Option<Look>,
    image: Option<ImageNode>,
)
    requires
        maps_inverse(elements, owners),
        !elements.contains_key(id),
        forall|k: u64| #[trigger] owners.contains_key(k) ==> v.entities.contains(k),
        spawned_into(v, w, e, text, look, image),
    ensures
        maps_inverse(elements.insert(id, e), owners.insert(e, id)),
{
    law_spawned_entity_is_unowned(v, w, e, text, look, image, owners);
    law_register_keeps_maps_inverse(elements, owners, id, e);
}

/// A recursive despawn of the same entity from the same world gives one
/// world: replacing a node by id or by path, when both reach it, ends alike.
pub proof fn law_despawn_is_determined(v: WorldView, w1: WorldView, w2: WorldView, e: u64)
    requires
        despawned_into(v, w1, e),
        despawned_into(v, w2, e),
    ensures
        w1 == w2,
{
}

/// A text write changes the world at the written entity only: every other
/// entity keeps its links, text, style, image and layout data.
pub proof fn law_text_write_is_local(v: WorldView, e: u64, value: Seq<char>, w: WorldView, x: u64)
    requires
        text_written(v, e, value, w),
        x != e,
    ensures
        w.entities == v.entities,
        same_at(v.parts, w.parts, x),
{
    assert(w.parts.looks.remove(e).contains_key(x) == v.parts.looks.remove(e).contains_key(x));
    if v.parts.looks.contains_key(x) {
        assert(w.parts.looks.remove(e)[x] == v.parts.looks.remove(e)[x]);
    }
    assert(w.parts.fresh_layouts.remove(e).contains(x) == v.parts.fresh_layouts.remove(e).contains(x));
}

/// Following `seq![i] + rest` from `s` takes child `i` of `s` first, then
/// follows `rest` from there: a path is read first step first.
pub proof fn law_path_first_step(v: WorldView, s: u64, i: u8, rest: Seq<u8>)
    requires
        is_live(v, s),
        v.parts.children.contains_key(s),
        (i as int) < v.parts.children[s].len(),
    ensures
        path_target(v, s, seq![i] + rest) == path_target(v, v.parts.children[s][i as int], rest),
{
    let p = seq![i] + rest;
    assert(p[0] == i);
    assert(p.skip(1) =~= rest);
}

/// Following `p + q` from `s` is following `p`, then `q` from where `p`
/// ended; it fails where either part does.
pub proof fn law_path_concat(v: WorldView, s: u64, p: Seq<u8>, q: Seq<u8>)
    ensures
        path_target(v, s, p + q) == (match path_target(v, s, p) {
            Some(m) => path_target(v, m, q),
            None => None,
        }),
    decreases p.len(),
{
    if p.len() == 0 {
        assert(p + q =~= q);
    } else {
        assert((p + q)[0] == p[0]);
        assert((p + q).skip(1) =~= p.skip(1) + q);
        if is_live(v, s) && v.parts.children.contains_key(s) && (p[0] as int) < v.parts.children[s].len() {
            law_path_concat(v, v.parts.children[s][p[0] as int], p.skip(1), q);
        }
    }
}

/// A one-step path from `s` reaches child `i` of `s`.
pub proof fn law_path_one_step(v: WorldView, s: u64, i: u8)
    requires
        is_live(v, s),
        v.parts.children.contains_key(s),
        (i as int) < v.parts.children[s].len(),
    ensures
        path_target(v, s, seq![i]) == Some(v.parts.children[s][i as int]),
{
    law_path_first_step(v, s, i, Seq::empty());
    assert(seq![i] + Seq::<u8>::empty() =~= seq![i]);
}

/// Placing is allowed exactly where bevy's `insert_children` at the slot
/// next to `x` does not panic.
pub proof fn law_place_near_is_insert_condition(v: WorldView, x: u64, offset: int, kids: Seq<u64>)
    ensures
        can_place_near(v, x, offset, kids) <==> (has_sibling_slot(v, x)
            && can_insert_children(v, v.parts.parents[x], slot_index(v.parts, x, offset), kids)),
{
}

/// Taking one entry out of a list without repeats shortens it by one.
proof fn lemma_filter_drops_one(s: Seq<u64>, y: u64)
    requires
        s.no_duplicates(),
        s.contains(y),
    ensures
        s.filter(not_among(seq![y])).len() == s.len() - 1,
    decreases s.len(),
{
    reveal(Seq::filter);
    let p = not_among(seq![y]);
    assert forall|z: u64| #[trigger] p(z) <==> z != y by {
        if z == y {
            assert(seq![y][0] == y);
        }
    }
    let front = s.drop_last();
    assert(front.no_duplicates());
    if s.last() == y {
        assert forall|i: int| 0 <= i < front.len() implies p(#[trigger] front[i]) by {
            assert(front[i] == s[i]);
            assert(s[i] != s[s.len() - 1]);
        }
        lemma_filter_keeps_all(front, p);
    } else {
        let j = choose|j: int| 0 <= j < s.len() && s[j] == y;
        assert(j < s.len() - 1);
        assert(front[j] == y);
        lemma_filter_drops_one(front, y);
    }
}

/// In a consistent hierarchy, a live sibling of `x` (other than its parent)
/// can be moved to just before `x`, as a keyed list reorder does.
pub proof fn law_sibling_can_move_before(v: WorldView, x: u64, y: u64)
    requires
        hierarchy_consistent(v),
        has_sibling_slot(v, x),
        is_live(v, y),
        y != v.parts.parents[x],
        v.parts.children[v.parts.parents[x]].contains(y),
    ensures
        can_place_near(v, x, 0, seq![y]),
{
    let p = v.parts.parents[x];
    let l = v.parts.children[p];
    lemma_first_index(l, x);
    lemma_filter_drops_one(l, y);
    assert(seq![y][0] == y);
    assert(!seq![y].contains(p)) by {
        if seq![y].contains(p) {
            let k = choose|k: int| 0 <= k < 1 && seq![y][k] == p;
            assert(seq![y][k] == y);
        }
    }
    assert forall|i: int| 0 <= i < seq![y].len() implies #[trigger] is_live(v, seq![y][i]) by {
        assert(seq![y][i] == y);
    }
    assert(first_index_of(l, x) <= kept_children(v.parts, p, seq![y]).len());
}

} // verus!
