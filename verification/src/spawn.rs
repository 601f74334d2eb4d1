//! Spawning a template node: one new entity per node, children before
//! their parent, linked into a tree of the template's shape.
use vstd::prelude::*;
use bevy::ecs::world::World;
use bevy::ui::widget::ImageNode;
use bevy::ui::widget::Text;
use crate::template::BevyTemplateNode;
use crate::template::StyleComponents;
use crate::template::bevy_children;
use crate::world::Components;
use crate::world::Look;
use crate::world::WorldView;
use crate::world::add_children;
use crate::world::default_shaped;
use crate::world::children_appended;
use crate::world::changed_to;
use crate::world::reparent_all;
use crate::world::spawn_text;
use crate::world::spawned_into;
use crate::world::valid_entity_bits;
use crate::world::world_view;

verus! {

/// The style components that an entity spawned with `s` carries.
pub open spec fn look_of(s: StyleComponents) -> Look {
    Look {
        node: s.style,
        border_color: Some(s.border_color),
        background_color: Some(s.background_color),
        transform: Some(s.transform),
        visibility: Some(s.visibility),
        z_index: Some(s.z_index),
        outline: Some(s.outline),
        global_z_index: None,
    }
}

/// Entity `e` of `c` carries the tree of `b`: text where `b` has text,
/// none where it has none, the style of `b` where it has one, the image of
/// `b` where it has one and no image elsewhere, and as children the entities that carry the
/// children of `b`, in order, each naming `e` as its parent and lying
/// outside its own subtree's reach of `e`.
pub open spec fn builds(c: Components, e: u64, b: BevyTemplateNode) -> bool
    decreases b, 0nat,
{
    match b {
        BevyTemplateNode::IntrinsicTextNode(s) => {
            &&& !c.children.contains_key(e)
            &&& c.texts.contains_key(e)
            &&& c.texts[e] == s@
            &&& c.looks.contains_key(e)
            &&& default_shaped(c.looks[e])
            &&& !c.images.contains_key(e)
            &&& c.fresh_layouts.contains(e)
            &&& c.layouts.contains(e)
        },
        BevyTemplateNode::Node { style, children } => {
            &&& !c.texts.contains_key(e)
            &&& !c.fresh_layouts.contains(e)
            &&& !c.layouts.contains(e)
            &&& c.looks.contains_key(e)
            &&& c.looks[e] == look_of(style)
            &&& !c.images.contains_key(e)
            &&& kids_built(c, e, children@)
        },
        BevyTemplateNode::TextNode { text, style, children } => {
            &&& c.texts.contains_key(e)
            &&& c.texts[e] == text@
            &&& c.fresh_layouts.contains(e)
            &&& c.layouts.contains(e)
            &&& c.looks.contains_key(e)
            &&& c.looks[e] == look_of(style)
            &&& !c.images.contains_key(e)
            &&& kids_built(c, e, children@)
        },
        BevyTemplateNode::ImageNode { image, style, children } => {
            &&& !c.texts.contains_key(e)
            &&& !c.fresh_layouts.contains(e)
            &&& !c.layouts.contains(e)
            &&& c.looks.contains_key(e)
            &&& c.looks[e] == look_of(style)
            &&& c.images.contains_key(e)
            &&& c.images[e] == image
            &&& kids_built(c, e, children@)
        },
    }
}

/// The children of `e` in `c` carry `bs`, in order, each once.
pub open spec fn kids_built(c: Components, e: u64, bs: Seq<BevyTemplateNode>) -> bool
    decreases bs, bs.len() + 1,
{
    if bs.len() == 0 {
        !c.children.contains_key(e)
    } else {
        &&& c.children.contains_key(e)
        &&& c.children[e].len() == bs.len()
        &&& c.children[e].no_duplicates()
        &&& built_upto(c, e, c.children[e], bs, bs.len() as int)
    }
}

/// The first `n` of `ids` carry the first `n` of `bs`, each naming `e` as
/// its parent and not reaching `e`.
pub open spec fn built_upto(c: Components, e: u64, ids: Seq<u64>, bs: Seq<BevyTemplateNode>, n: int) -> bool
    decreases bs, n,
{
    if 0 < n <= bs.len() {
        &&& built_upto(c, e, ids, bs, n - 1)
        &&& c.parents.contains_key(ids[n - 1])
        &&& c.parents[ids[n - 1]] == e
        &&& builds(c, ids[n - 1], bs[n - 1])
        &&& !subtree(c, ids[n - 1], bs[n - 1]).contains(e)
    } else {
        true
    }
}

/// The entities that carry the tree of `b` from `e` in `c`.
pub open spec fn subtree(c: Components, e: u64, b: BevyTemplateNode) -> Set<u64>
    decreases b, 0nat,
{
    match b {
        BevyTemplateNode::IntrinsicTextNode(_) => set![e],
        BevyTemplateNode::Node { children, .. } => set![e].union(kids_subtrees(c, e, children@)),
        BevyTemplateNode::TextNode { children, .. } => set![e].union(kids_subtrees(c, e, children@)),
        BevyTemplateNode::ImageNode { children, .. } => set![e].union(kids_subtrees(c, e, children@)),
    }
}

pub open spec fn kids_subtrees(c: Components, e: u64, bs: Seq<BevyTemplateNode>) -> Set<u64>
    decreases bs, bs.len() + 1,
{
    if c.children.contains_key(e) {
        union_upto(c, c.children[e], bs, bs.len() as int)
    } else {
        Set::empty()
    }
}

/// The entities that carry the trees of the first `n` of `bs` from the
/// first `n` of `ids`.
pub open spec fn union_upto(c: Components, ids: Seq<u64>, bs: Seq<BevyTemplateNode>, n: int) -> Set<u64>
    decreases bs, n,
{
    if 0 < n <= bs.len() {
        union_upto(c, ids, bs, n - 1).union(subtree(c, ids[n - 1], bs[n - 1]))
    } else {
        Set::empty()
    }
}

/// `c1` and `c2` hold the same components at `x`.
pub open spec fn same_at(c1: Components, c2: Components, x: u64) -> bool {
    &&& c1.children.contains_key(x) == c2.children.contains_key(x)
    &&& c1.children.contains_key(x) ==> c1.children[x] == c2.children[x]
    &&& c1.texts.contains_key(x) == c2.texts.contains_key(x)
    &&& c1.texts.contains_key(x) ==> c1.texts[x] == c2.texts[x]
    &&& c1.parents.contains_key(x) == c2.parents.contains_key(x)
    &&& c1.parents.contains_key(x) ==> c1.parents[x] == c2.parents[x]
    &&& c1.looks.contains_key(x) == c2.looks.contains_key(x)
    &&& c1.looks.contains_key(x) ==> c1.looks[x] == c2.looks[x]
    &&& c1.images.contains_key(x) == c2.images.contains_key(x)
    &&& c1.images.contains_key(x) ==> c1.images[x] == c2.images[x]
    &&& c1.fresh_layouts.contains(x) == c2.fresh_layouts.contains(x)
    &&& c1.layouts.contains(x) == c2.layouts.contains(x)
}

/// `c1` and `c2` agree on `s`, parents aside at `root`.
pub open spec fn agree_below(c1: Components, c2: Components, s: Set<u64>, root: u64) -> bool {
    &&& forall|x: u64| #[trigger] s.contains(x) ==> {
        &&& c1.children.contains_key(x) == c2.children.contains_key(x)
        &&& c1.children.contains_key(x) ==> c1.children[x] == c2.children[x]
        &&& c1.texts.contains_key(x) == c2.texts.contains_key(x)
        &&& c1.texts.contains_key(x) ==> c1.texts[x] == c2.texts[x]
        &&& c1.looks.contains_key(x) == c2.looks.contains_key(x)
        &&& c1.looks.contains_key(x) ==> c1.looks[x] == c2.looks[x]
        &&& c1.images.contains_key(x) == c2.images.contains_key(x)
        &&& c1.images.contains_key(x) ==> c1.images[x] == c2.images[x]
        &&& c1.fresh_layouts.contains(x) == c2.fresh_layouts.contains(x)
        &&& c1.layouts.contains(x) == c2.layouts.contains(x)
    }
    &&& forall|x: u64| #[trigger] s.contains(x) && x != root ==> {
        &&& c1.parents.contains_key(x) == c2.parents.contains_key(x)
        &&& c1.parents.contains_key(x) ==> c1.parents[x] == c2.parents[x]
    }
}

/// `w` is `v` with a new tree carrying `b` rooted at the new entity `e`:
/// every entity of the tree is new and alive, the root has no parent, and
/// nothing outside the tree changed.
pub open spec fn spawned_tree_into(v: WorldView, w: WorldView, e: u64, b: BevyTemplateNode) -> bool {
    let s = subtree(w.parts, e, b);
    &&& w.quiet
    &&& valid_entity_bits(e)
    &&& builds(w.parts, e, b)
    &&& !w.parts.parents.contains_key(e)
    &&& s.disjoint(v.entities)
    &&& w.entities == v.entities.union(s)
    &&& forall|x: u64| !s.contains(x) ==> #[trigger] same_at(v.parts, w.parts, x)
}

/// The root of a tree belongs to it.
pub proof fn lemma_root_in_subtree(c: Components, e: u64, b: BevyTemplateNode)
    ensures
        subtree(c, e, b).contains(e),
{
}

/// Agreement on a set holds on its subsets.
proof fn lemma_agree_subset(c1: Components, c2: Components, s: Set<u64>, t: Set<u64>, root: u64, root2: u64)
    requires
        agree_below(c1, c2, s, root),
        t.subset_of(s),
        root == root2 || !t.contains(root),
    ensures
        agree_below(c1, c2, t, root2),
{
    assert forall|x: u64| #[trigger] t.contains(x) && x != root2 implies {
        &&& c1.parents.contains_key(x) == c2.parents.contains_key(x)
        &&& c1.parents.contains_key(x) ==> c1.parents[x] == c2.parents[x]
    } by {
        assert(s.contains(x));
    }
}

/// A tree stays built, on the same entities, where its components stay.
proof fn lemma_builds_frame(c1: Components, c2: Components, e: u64, b: BevyTemplateNode)
    requires
        builds(c1, e, b),
        agree_below(c1, c2, subtree(c1, e, b), e),
    ensures
        builds(c2, e, b),
        subtree(c2, e, b) == subtree(c1, e, b),
    decreases b, 0nat,
{
    lemma_root_in_subtree(c1, e, b);
    assert(subtree(c1, e, b).contains(e));
    match b {
        BevyTemplateNode::IntrinsicTextNode(_) => {},
        BevyTemplateNode::Node { children, .. } => {
            assert(decreases_to!(b => children@)) by {
                assert(decreases_to!(b => children));
            }
            lemma_agree_subset(c1, c2, subtree(c1, e, b), set![e].union(kids_subtrees(c1, e, children@)), e, e);
            lemma_kids_frame(c1, c2, e, children@);
        },
        BevyTemplateNode::TextNode { children, .. } => {
            assert(decreases_to!(b => children@)) by {
                assert(decreases_to!(b => children));
            }
            lemma_agree_subset(c1, c2, subtree(c1, e, b), set![e].union(kids_subtrees(c1, e, children@)), e, e);
            lemma_kids_frame(c1, c2, e, children@);
        },
        BevyTemplateNode::ImageNode { children, .. } => {
            assert(decreases_to!(b => children@)) by {
                assert(decreases_to!(b => children));
            }
            lemma_agree_subset(c1, c2, subtree(c1, e, b), set![e].union(kids_subtrees(c1, e, children@)), e, e);
            lemma_kids_frame(c1, c2, e, children@);
        },
    }
}

proof fn lemma_kids_frame(c1: Components, c2: Components, e: u64, bs: Seq<BevyTemplateNode>)
    requires
        kids_built(c1, e, bs),
        agree_below(c1, c2, set![e].union(kids_subtrees(c1, e, bs)), e),
    ensures
        kids_built(c2, e, bs),
        kids_subtrees(c2, e, bs) == kids_subtrees(c1, e, bs),
    decreases bs, bs.len() + 1,
{
    assert(set![e].union(kids_subtrees(c1, e, bs)).contains(e));
    if bs.len() > 0 {
        let ids = c1.children[e];
        lemma_agree_subset(c1, c2, set![e].union(kids_subtrees(c1, e, bs)), union_upto(c1, ids, bs, bs.len() as int), e, e);
        lemma_upto_frame(c1, c2, e, ids, bs, bs.len() as int);
    }
}

proof fn lemma_upto_frame(c1: Components, c2: Components, e: u64, ids: Seq<u64>, bs: Seq<BevyTemplateNode>, n: int)
    requires
        built_upto(c1, e, ids, bs, n),
        agree_below(c1, c2, union_upto(c1, ids, bs, n), e),
    ensures
        built_upto(c2, e, ids, bs, n),
        union_upto(c2, ids, bs, n) == union_upto(c1, ids, bs, n),
    decreases bs, n,
{
    if 0 < n <= bs.len() {
        let k = ids[n - 1];
        let sk = subtree(c1, k, bs[n - 1]);
        let u = union_upto(c1, ids, bs, n);
        lemma_agree_subset(c1, c2, u, union_upto(c1, ids, bs, n - 1), e, e);
        lemma_upto_frame(c1, c2, e, ids, bs, n - 1);
        lemma_agree_subset(c1, c2, u, sk, e, k);
        lemma_builds_frame(c1, c2, k, bs[n - 1]);
        lemma_root_in_subtree(c1, k, bs[n - 1]);
        assert(u.contains(k));
        assert(k != e);
    }
}

/// `w` is `v` with a new forest: `ids` carry `bs`, the trees are new,
/// alive and apart, their roots have no parent, and nothing outside them
/// changed.
pub open spec fn forest_spawned(v: WorldView, w: WorldView, ids: Seq<u64>, bs: Seq<BevyTemplateNode>) -> bool {
    &&& ids.len() == bs.len()
    &&& w.quiet == v.quiet
    &&& forall|x: u64| #[trigger] w.entities.contains(x) <==> v.entities.contains(x)
        || exists|j: int| 0 <= j < ids.len() && #[trigger] subtree(w.parts, ids[j], bs[j]).contains(x)
    &&& forall|j: int| 0 <= j < ids.len() ==> {
        &&& valid_entity_bits(#[trigger] ids[j])
        &&& builds(w.parts, ids[j], bs[j])
        &&& !w.parts.parents.contains_key(ids[j])
        &&& subtree(w.parts, ids[j], bs[j]).subset_of(w.entities)
        &&& subtree(w.parts, ids[j], bs[j]).disjoint(v.entities)
    }
    &&& forall|j: int, k: int| 0 <= j < ids.len() && 0 <= k < ids.len() && j != k
        ==> !(#[trigger] subtree(w.parts, ids[j], bs[j])).contains(#[trigger] ids[k])
    &&& forall|x: u64|
        (forall|j: int| 0 <= j < ids.len() ==> !(#[trigger] subtree(w.parts, ids[j], bs[j])).contains(x))
            ==> #[trigger] same_at(v.parts, w.parts, x)
}

/// Giving parents to entities that have none adds just those parents.
proof fn lemma_reparent_orphans(c: Components, p: u64, kids: Seq<u64>)
    requires
        forall|j: int| 0 <= j < kids.len() ==> !c.parents.contains_key(#[trigger] kids[j]) || c.parents[kids[j]] == p,
    ensures
        reparent_all(c, p, kids).children == c.children,
        reparent_all(c, p, kids).texts == c.texts,
        reparent_all(c, p, kids).looks == c.looks,
        reparent_all(c, p, kids).images == c.images,
        reparent_all(c, p, kids).fresh_layouts == c.fresh_layouts,
        reparent_all(c, p, kids).layouts == c.layouts,
        forall|x: u64| #[trigger] reparent_all(c, p, kids).parents.contains_key(x)
            == (c.parents.contains_key(x) || kids.contains(x)),
        forall|x: u64| #[trigger] reparent_all(c, p, kids).parents.contains_key(x) ==>
            reparent_all(c, p, kids).parents[x] == (if kids.contains(x) { p } else { c.parents[x] }),
    decreases kids.len(),
{
    if kids.len() > 0 {
        let front = kids.drop_last();
        assert forall|j: int| 0 <= j < front.len() implies !c.parents.contains_key(#[trigger] front[j]) || c.parents[front[j]] == p by {
            assert(front[j] == kids[j]);
        }
        lemma_reparent_orphans(c, p, front);
        let r = reparent_all(c, p, front);
        let k = kids.last();
        assert(kids[kids.len() - 1] == k);
        assert forall|x: u64| kids.contains(x) == (front.contains(x) || x == k) by {
            if kids.contains(x) {
                let j = choose|j: int| 0 <= j < kids.len() && kids[j] == x;
                if j < kids.len() - 1 {
                    assert(front[j] == x);
                }
            }
            if front.contains(x) {
                let j = choose|j: int| 0 <= j < front.len() && front[j] == x;
                assert(kids[j] == x);
            }
        }
        assert(!r.parents.contains_key(k) || r.parents[k] == p);
    }
}

/// The trees of `union_upto` are those of its positions.
pub proof fn lemma_union_upto(c: Components, ids: Seq<u64>, bs: Seq<BevyTemplateNode>, n: int, x: u64)
    requires
        0 <= n <= bs.len(),
    ensures
        union_upto(c, ids, bs, n).contains(x)
            <==> exists|j: int| 0 <= j < n && #[trigger] subtree(c, ids[j], bs[j]).contains(x),
    decreases n,
{
    if n > 0 {
        lemma_union_upto(c, ids, bs, n - 1, x);
        if subtree(c, ids[n - 1], bs[n - 1]).contains(x) {
            assert(exists|j: int| 0 <= j < n && #[trigger] subtree(c, ids[j], bs[j]).contains(x));
        }
        if exists|j: int| 0 <= j < n && #[trigger] subtree(c, ids[j], bs[j]).contains(x) {
            let j = choose|j: int| 0 <= j < n && #[trigger] subtree(c, ids[j], bs[j]).contains(x);
            if j < n - 1 {
                assert(exists|j: int| 0 <= j < n - 1 && #[trigger] subtree(c, ids[j], bs[j]).contains(x));
            }
        }
    }
}

/// `built_upto` from what it says of each position.
proof fn lemma_built_upto(c: Components, e: u64, ids: Seq<u64>, bs: Seq<BevyTemplateNode>, n: int)
    requires
        0 <= n <= bs.len(),
        forall|j: int| 0 <= j < n ==> {
            &&& c.parents.contains_key(#[trigger] ids[j])
            &&& c.parents[ids[j]] == e
            &&& builds(c, ids[j], bs[j])
            &&& !subtree(c, ids[j], bs[j]).contains(e)
        },
    ensures
        built_upto(c, e, ids, bs, n),
    decreases n,
{
    if n > 0 {
        lemma_built_upto(c, e, ids, bs, n - 1);
        assert(c.parents.contains_key(ids[n - 1]));
    }
}

/// A freshly spawned entity that takes a fresh forest as its children
/// carries the whole tree.
proof fn lemma_attach(
    v0: WorldView,
    v1: WorldView,
    v2: WorldView,
    v3: WorldView,
    e: u64,
    ids: Seq<u64>,
    b: BevyTemplateNode,
    text: Option<Seq<char>>,
    image: Option<ImageNode>,
)
    requires
        forest_spawned(v0, v1, ids, bevy_children(b)),
        spawned_into(v1, v2, e, text, Some(look_of(style_of(b))), image),
        changed_to(v2, children_appended(v2.parts, e, ids), v3),
        !(b is IntrinsicTextNode),
        b is TextNode ==> text == Some(b->text@),
        !(b is TextNode) ==> text is None,
        b is ImageNode ==> image == Some(b->image),
        !(b is ImageNode) ==> image is None,
    ensures
        spawned_tree_into(v0, v3, e, b),
{
    let kids = bevy_children(b);
    let c1 = v1.parts;
    let c3 = v3.parts;
    let n = ids.len() as int;
    assert(v2.parts.children == c1.children);
    assert(v2.parts.parents == c1.parents);
    assert forall|j: int| 0 <= j < n implies #[trigger] ids[j] != e && v1.entities.contains(ids[j]) by {
        lemma_root_in_subtree(c1, ids[j], kids[j]);
        assert(subtree(c1, ids[j], kids[j]).subset_of(v1.entities));
        assert(subtree(c1, ids[j], kids[j]).contains(ids[j]));
    }
    assert(!ids.contains(e));
    if n > 0 {
        lemma_reparent_orphans(v2.parts, e, ids);
    }
    // The components after attaching: parents for the roots, the list at `e`.
    assert forall|x: u64| x != e && !ids.contains(x) implies #[trigger] same_at(c1, c3, x) by {
        if n > 0 {
            lemma_reparent_orphans(v2.parts, e, ids);
        }
    }
    assert(c3.texts == v2.parts.texts);
    // Each tree below stays built, on the same entities.
    assert forall|j: int| 0 <= j < n implies {
        &&& builds(c3, #[trigger] ids[j], kids[j])
        &&& subtree(c3, ids[j], kids[j]) == subtree(c1, ids[j], kids[j])
        &&& c3.parents.contains_key(ids[j])
        &&& c3.parents[ids[j]] == e
        &&& !subtree(c3, ids[j], kids[j]).contains(e)
    } by {
        let sj = subtree(c1, ids[j], kids[j]);
        assert forall|x: u64| #[trigger] sj.contains(x) && x != ids[j] implies !ids.contains(x) && x != e by {
            if ids.contains(x) {
                let k = choose|k: int| 0 <= k < n && ids[k] == x;
                assert(k != j);
            }
        }
        assert(agree_below(c1, c3, sj, ids[j])) by {
            assert forall|x: u64| #[trigger] sj.contains(x) implies same_at(c1, c3, x) || x == ids[j] by {}
            assert forall|x: u64| #[trigger] sj.contains(x) implies {
                &&& c1.children.contains_key(x) == c3.children.contains_key(x)
                &&& c1.children.contains_key(x) ==> c1.children[x] == c3.children[x]
                &&& c1.texts.contains_key(x) == c3.texts.contains_key(x)
                &&& c1.texts.contains_key(x) ==> c1.texts[x] == c3.texts[x]
            } by {
                if x == ids[j] {
                    assert(x != e);
                    assert(c3.children == (if n > 0 { c1.children.insert(e, ids) } else { c1.children }));
                }
            }
        }
        lemma_builds_frame(c1, c3, ids[j], kids[j]);
        assert(ids.contains(ids[j]));
        assert(builds(c3, ids[j], kids[j]));
        assert(sj.subset_of(v1.entities));
        assert(!sj.contains(e));
        assert(c3.parents == reparent_all(v2.parts, e, ids).parents);
        assert(c3.parents.contains_key(ids[j]));
        assert(c3.parents[ids[j]] == e);
    }
    if n > 0 {
        lemma_built_upto(c3, e, ids, kids, n);
        assert(c3.children[e] == ids);
        assert forall|j: int, k: int| 0 <= j < n && 0 <= k < n && j != k implies ids[j] != ids[k] by {
            lemma_root_in_subtree(c1, ids[j], kids[j]);
        }
    }
    assert(builds(c3, e, b));
    // The entities of the whole tree.
    let s = subtree(c3, e, b);
    assert forall|x: u64| s.contains(x) implies x == e || exists|j: int| 0 <= j < n && #[trigger] subtree(c1, ids[j], kids[j]).contains(x) by {
        if x != e && n > 0 {
            lemma_union_upto(c3, ids, kids, n, x);
            let j = choose|j: int| 0 <= j < n && #[trigger] subtree(c3, ids[j], kids[j]).contains(x);
            assert(subtree(c1, ids[j], kids[j]).contains(x));
        }
    }
    assert forall|x: u64| x != e && (exists|j: int| 0 <= j < n && #[trigger] subtree(c1, ids[j], kids[j]).contains(x)) implies s.contains(x) by {
        let j = choose|j: int| 0 <= j < n && #[trigger] subtree(c1, ids[j], kids[j]).contains(x);
        lemma_union_upto(c3, ids, kids, n, x);
        assert(subtree(c3, ids[j], kids[j]).contains(x));
    }
    assert(s.subset_of(v3.entities)) by {
        assert forall|x: u64| s.contains(x) implies v3.entities.contains(x) by {
            if x != e {
                let j = choose|j: int| 0 <= j < n && #[trigger] subtree(c1, ids[j], kids[j]).contains(x);
            }
        }
    }
    assert(s.disjoint(v0.entities)) by {
        assert forall|x: u64| s.contains(x) implies !v0.entities.contains(x) by {
            if x != e {
                let j = choose|j: int| 0 <= j < n && #[trigger] subtree(c1, ids[j], kids[j]).contains(x);
            }
        }
    }
    assert forall|x: u64| !s.contains(x) implies #[trigger] same_at(v0.parts, c3, x) by {
        assert(x != e);
        assert forall|j: int| 0 <= j < n implies !(#[trigger] subtree(c1, ids[j], kids[j])).contains(x) by {}
        assert(same_at(v0.parts, c1, x));
        if ids.contains(x) {
            let k = choose|k: int| 0 <= k < n && ids[k] == x;
            lemma_root_in_subtree(c1, ids[k], kids[k]);
        }
        assert(same_at(c1, c3, x));
    }
    assert(v3.entities =~= v0.entities.union(s)) by {
        assert forall|x: u64| v3.entities.contains(x) implies #[trigger] v0.entities.union(s).contains(x) by {
            if x != e && !v0.entities.contains(x) {
                assert(v1.entities.contains(x));
                let j = choose|j: int| 0 <= j < n && #[trigger] subtree(v1.parts, ids[j], kids[j]).contains(x);
                assert(subtree(c1, ids[j], kids[j]).contains(x));
            }
        }
        assert forall|x: u64| #[trigger] v0.entities.union(s).contains(x) implies v3.entities.contains(x) by {
            if !v0.entities.contains(x) && x != e {
                let j = choose|j: int| 0 <= j < n && #[trigger] subtree(c1, ids[j], kids[j]).contains(x);
                assert(subtree(c1, ids[j], kids[j]).subset_of(v1.entities));
            }
            if v0.entities.contains(x) {
                assert(v1.entities.contains(x));
            }
        }
    }
}

/// The style of a node that has one.
pub open spec fn style_of(b: BevyTemplateNode) -> StyleComponents
    recommends
        !(b is IntrinsicTextNode),
{
    match b {
        BevyTemplateNode::Node { style, .. } => style,
        BevyTemplateNode::TextNode { style, .. } => style,
        BevyTemplateNode::ImageNode { style, .. } => style,
        BevyTemplateNode::IntrinsicTextNode(_) => arbitrary(),
    }
}

/// The listed children of `x` name it as their parent, once each.
pub open spec fn children_ok(c: Components, x: u64) -> bool {
    c.children.contains_key(x) ==> {
        &&& c.children[x].no_duplicates()
        &&& forall|k: u64| #[trigger] c.children[x].contains(k) ==> c.parents.contains_key(k) && c.parents[k] == x
    }
}

/// The parent that `x` names lists it.
pub open spec fn parent_ok(c: Components, x: u64) -> bool {
    c.parents.contains_key(x) ==> c.children.contains_key(c.parents[x]) && c.children[c.parents[x]].contains(x)
}

/// The children of a bevy template node are smaller than it.
proof fn lemma_bevy_children_smaller(b: BevyTemplateNode)
    ensures
        forall|j: int| 0 <= j < bevy_children(b).len() ==> decreases_to!(b => #[trigger] bevy_children(b)[j]),
{
    match b {
        BevyTemplateNode::Node { children, .. } => {
            assert forall|j: int| 0 <= j < children@.len() implies decreases_to!(b => #[trigger] children@[j]) by {
                assert(decreases_to!(b => children));
                assert(decreases_to!(children => children@));
                assert(decreases_to!(children@ => children@[j]));
            }
        },
        BevyTemplateNode::TextNode { children, .. } => {
            assert forall|j: int| 0 <= j < children@.len() implies decreases_to!(b => #[trigger] children@[j]) by {
                assert(decreases_to!(b => children));
                assert(decreases_to!(children => children@));
                assert(decreases_to!(children@ => children@[j]));
            }
        },
        BevyTemplateNode::ImageNode { children, .. } => {
            assert forall|j: int| 0 <= j < children@.len() implies decreases_to!(b => #[trigger] children@[j]) by {
                assert(decreases_to!(b => children));
                assert(decreases_to!(children => children@));
                assert(decreases_to!(children@ => children@[j]));
            }
        },
        BevyTemplateNode::IntrinsicTextNode(_) => {},
    }
}

/// What `built_upto` says of one position.
proof fn lemma_built_at(c: Components, e: u64, ids: Seq<u64>, bs: Seq<BevyTemplateNode>, n: int, j: int)
    requires
        built_upto(c, e, ids, bs, n),
        0 <= j < n <= bs.len(),
    ensures
        c.parents.contains_key(ids[j]),
        c.parents[ids[j]] == e,
        builds(c, ids[j], bs[j]),
        !subtree(c, ids[j], bs[j]).contains(e),
    decreases n,
{
    if j < n - 1 {
        lemma_built_at(c, e, ids, bs, n - 1, j);
    }
}

/// Inside a built tree, lists name their children's parent once each, and
/// every entity but the root that names a parent is listed by it.
pub proof fn lemma_builds_consistent(c: Components, e: u64, b: BevyTemplateNode)
    requires
        builds(c, e, b),
    ensures
        forall|x: u64| #[trigger] subtree(c, e, b).contains(x) ==> children_ok(c, x) && (x == e || parent_ok(c, x)),
    decreases b,
{
    let kids = bevy_children(b);
    lemma_bevy_children_smaller(b);
    if !(b is IntrinsicTextNode) {
        assert(kids_built(c, e, kids));
        assert(subtree(c, e, b) == set![e].union(kids_subtrees(c, e, kids)));
        if kids.len() > 0 {
            let ids = c.children[e];
            let n = kids.len() as int;
            assert forall|k: u64| #[trigger] ids.contains(k) implies c.parents.contains_key(k) && c.parents[k] == e by {
                let j = choose|j: int| 0 <= j < ids.len() && ids[j] == k;
                lemma_built_at(c, e, ids, kids, n, j);
            }
            assert forall|x: u64| #[trigger] subtree(c, e, b).contains(x) && x != e
                implies children_ok(c, x) && parent_ok(c, x) by {
                lemma_union_upto(c, ids, kids, n, x);
                let j = choose|j: int| 0 <= j < n && #[trigger] subtree(c, ids[j], kids[j]).contains(x);
                lemma_built_at(c, e, ids, kids, n, j);
                lemma_builds_consistent(c, ids[j], kids[j]);
                if x == ids[j] {
                    assert(ids.contains(ids[j]));
                }
            }
        }
    }
}

/// Calls `World::spawn((style.style.clone(), style.border_color,
/// style.background_color, style.transform, style.visibility,
/// style.z_index, style.outline))`: a new UI node with no links and no text.
#[verifier::external_body]
fn spawn_node(world: &mut World, style: &StyleComponents) -> (e: u64)
    requires
        world_view(*old(world)).quiet,
    ensures
        spawned_into(world_view(*old(world)), world_view(*final(world)), e, None, Some(look_of(*style)), None),
{
    world.spawn((
        style.style.clone(),
        style.border_color,
        style.background_color,
        style.transform,
        style.visibility,
        style.z_index,
        style.outline,
    )).id().to_bits()
}

/// Calls `World::spawn((style.style.clone(), Text::new(text),
/// style.transform, style.visibility, style.z_index,
/// style.background_color, style.border_color, style.outline))`: a new UI
/// text with `text` as its string and no links.
#[verifier::external_body]
fn spawn_text_node(world: &mut World, text: &str, style: &StyleComponents) -> (e: u64)
    requires
        world_view(*old(world)).quiet,
    ensures
        spawned_into(world_view(*old(world)), world_view(*final(world)), e, Some(text@), Some(look_of(*style)), None),
{
    world.spawn((
        style.style.clone(),
        Text::new(text),
        style.transform,
        style.visibility,
        style.z_index,
        style.background_color,
        style.border_color,
        style.outline,
    )).id().to_bits()
}

/// Calls `World::spawn((style.style.clone(), image.clone(),
/// style.background_color, style.transform, style.visibility,
/// style.z_index, style.border_color, style.outline))`: a new UI image
/// with no links and no text.
#[verifier::external_body]
fn spawn_image_node(world: &mut World, image: &ImageNode, style: &StyleComponents) -> (e: u64)
    requires
        world_view(*old(world)).quiet,
    ensures
        spawned_into(world_view(*old(world)), world_view(*final(world)), e, None, Some(look_of(*style)), Some(*image)),
{
    world.spawn((
        style.style.clone(),
        image.clone(),
        style.background_color,
        style.transform,
        style.visibility,
        style.z_index,
        style.border_color,
        style.outline,
    )).id().to_bits()
}

impl BevyTemplateNode {
    /// Spawns the tree of this node into `world`: the children first, then
    /// the node itself with its components, taking them as its children.
    /// Returns the root.
    pub fn spawn(&self, world: &mut World) -> (e: u64)
        requires
            world_view(*old(world)).quiet,
        ensures
            spawned_tree_into(world_view(*old(world)), world_view(*final(world)), e, *self),
        decreases self, 0nat,
    {
        let ghost v0 = world_view(*world);
        match self {
            BevyTemplateNode::Node { style, children } => {
                proof {
                    assert(decreases_to!(*self => children@)) by {
                        assert(decreases_to!(*self => *children));
                    }
                }
                let ids = spawn_children(children, world);
                let ghost v1 = world_view(*world);
                let e = spawn_node(world, style);
                let ghost v2 = world_view(*world);
                proof {
                    lemma_forest_roots_alive(v0, v1, ids@, children@);
                }
                add_children(world, e, ids.as_slice());
                proof {
                    lemma_attach(v0, v1, v2, world_view(*world), e, ids@, *self, None, None);
                }
                e
            },
            BevyTemplateNode::TextNode { text, style, children } => {
                proof {
                    assert(decreases_to!(*self => children@)) by {
                        assert(decreases_to!(*self => *children));
                    }
                }
                let ids = spawn_children(children, world);
                let ghost v1 = world_view(*world);
                let e = spawn_text_node(world, text.as_str(), style);
                let ghost v2 = world_view(*world);
                proof {
                    lemma_forest_roots_alive(v0, v1, ids@, children@);
                }
                add_children(world, e, ids.as_slice());
                proof {
                    lemma_attach(v0, v1, v2, world_view(*world), e, ids@, *self, Some(text@), None);
                }
                e
            },
            BevyTemplateNode::ImageNode { image, style, children } => {
                proof {
                    assert(decreases_to!(*self => children@)) by {
                        assert(decreases_to!(*self => *children));
                    }
                }
                let ids = spawn_children(children, world);
                let ghost v1 = world_view(*world);
                let e = spawn_image_node(world, image, style);
                let ghost v2 = world_view(*world);
                proof {
                    lemma_forest_roots_alive(v0, v1, ids@, children@);
                }
                add_children(world, e, ids.as_slice());
                proof {
                    lemma_attach(v0, v1, v2, world_view(*world), e, ids@, *self, None, Some(*image));
                }
                e
            },
            BevyTemplateNode::IntrinsicTextNode(text) => {
                let e = spawn_text(world, text.as_str());
                proof {
                    let w = world_view(*world);
                    assert(subtree(w.parts, e, *self) == set![e]);
                    assert(w.entities =~= v0.entities.union(set![e]));
                    assert forall|x: u64| !subtree(w.parts, e, *self).contains(x) implies #[trigger] same_at(v0.parts, w.parts, x) by {
                        assert(x != e);
                    }
                }
                e
            },
        }
    }
}

/// The roots of a fresh forest are alive, valid and not `e` when `e` is new.
proof fn lemma_forest_roots_alive(v0: WorldView, v1: WorldView, ids: Seq<u64>, bs: Seq<BevyTemplateNode>)
    requires
        forest_spawned(v0, v1, ids, bs),
    ensures
        forall|j: int| 0 <= j < ids.len() ==> #[trigger] v1.entities.contains(ids[j]) && valid_entity_bits(ids[j]),
{
    assert forall|j: int| 0 <= j < ids.len() implies #[trigger] v1.entities.contains(ids[j]) && valid_entity_bits(ids[j]) by {
        lemma_root_in_subtree(v1.parts, ids[j], bs[j]);
    }
}

/// Spawns the tree of each of `children`, in order. Returns their roots.
fn spawn_children(children: &Vec<BevyTemplateNode>, world: &mut World) -> (ids: Vec<u64>)
    requires
        world_view(*old(world)).quiet,
    ensures
        forest_spawned(world_view(*old(world)), world_view(*final(world)), ids@, children@),
    decreases children@, 0nat,
{
    let ghost v0 = world_view(*world);
    let ghost bs = children@;
    let mut ids: Vec<u64> = Vec::new();
    let mut i: usize = 0;
    while i < children.len()
        invariant
            bs == children@,
            0 <= i <= bs.len(),
            forest_spawned(v0, world_view(*world), ids@, bs.take(i as int)),
            v0.quiet,
        decreases bs.len() - i,
    {
        let ghost before = world_view(*world);
        proof {
            assert(decreases_to!(children@ => children@[i as int]));
        }
        let id = children[i].spawn(world);
        let ghost after = world_view(*world);
        proof {
            lemma_forest_grows(v0, before, after, ids@, bs, i as int, id);
        }
        ids.push(id);
        i += 1;
    }
    assert(bs.take(bs.len() as int) =~= bs);
    ids
}

/// A forest and one more fresh tree make a forest.
proof fn lemma_forest_grows(
    v0: WorldView,
    before: WorldView,
    after: WorldView,
    ids: Seq<u64>,
    bs: Seq<BevyTemplateNode>,
    i: int,
    id: u64,
)
    requires
        0 <= i < bs.len(),
        v0.quiet,
        forest_spawned(v0, before, ids, bs.take(i)),
        spawned_tree_into(before, after, id, bs[i]),
    ensures
        forest_spawned(v0, after, ids.push(id), bs.take(i + 1)),
{
    let olds = bs.take(i);
    let news = bs.take(i + 1);
    let nids = ids.push(id);
    let si = subtree(after.parts, id, bs[i]);
    assert forall|j: int| 0 <= j < i implies {
        &&& builds(after.parts, #[trigger] ids[j], olds[j])
        &&& subtree(after.parts, ids[j], olds[j]) == subtree(before.parts, ids[j], olds[j])
    } by {
        let sj = subtree(before.parts, ids[j], olds[j]);
        assert(sj.subset_of(before.entities));
        assert forall|x: u64| #[trigger] sj.contains(x) implies same_at(before.parts, after.parts, x) by {
            assert(!si.contains(x));
        }
        lemma_builds_frame(before.parts, after.parts, ids[j], olds[j]);
    }
    assert forall|j: int| 0 <= j < i + 1 implies #[trigger] news[j] == (if j < i { olds[j] } else { bs[i] }) by {}
    lemma_root_in_subtree(after.parts, id, bs[i]);
    assert forall|j: int| 0 <= j < nids.len() implies {
        &&& valid_entity_bits(#[trigger] nids[j])
        &&& builds(after.parts, nids[j], news[j])
        &&& !after.parts.parents.contains_key(nids[j])
        &&& subtree(after.parts, nids[j], news[j]).subset_of(after.entities)
        &&& subtree(after.parts, nids[j], news[j]).disjoint(v0.entities)
    } by {
        if j < i {
            lemma_root_in_subtree(before.parts, ids[j], olds[j]);
            assert(nids[j] == ids[j]);
            assert(before.entities.contains(ids[j]));
            assert(!si.contains(ids[j]));
            assert(same_at(before.parts, after.parts, ids[j]));
        } else {
            assert(nids[j] == id);
        }
    }
    assert forall|j: int, k: int| 0 <= j < nids.len() && 0 <= k < nids.len() && j != k
        implies !(#[trigger] subtree(after.parts, nids[j], news[j])).contains(#[trigger] nids[k]) by {
        if j < i && k < i {
            assert(nids[j] == ids[j] && nids[k] == ids[k]);
        } else if j < i {
            assert(nids[k] == id);
            assert(subtree(before.parts, ids[j], olds[j]).subset_of(before.entities));
        } else {
            assert(nids[k] == ids[k]);
            lemma_root_in_subtree(before.parts, ids[k], olds[k]);
        }
    }
    assert forall|x: u64|
        (forall|j: int| 0 <= j < nids.len() ==> !(#[trigger] subtree(after.parts, nids[j], news[j])).contains(x))
        implies #[trigger] same_at(v0.parts, after.parts, x) by {
        assert(!subtree(after.parts, nids[i], news[i]).contains(x));
        assert forall|j: int| 0 <= j < ids.len() implies !(#[trigger] subtree(before.parts, ids[j], olds[j])).contains(x) by {
            assert(!subtree(after.parts, nids[j], news[j]).contains(x));
        }
        assert(same_at(v0.parts, before.parts, x));
        assert(same_at(before.parts, after.parts, x));
    }
    assert forall|x: u64| #[trigger] after.entities.contains(x) <==> v0.entities.contains(x)
        || exists|j: int| 0 <= j < nids.len() && #[trigger] subtree(after.parts, nids[j], news[j]).contains(x) by {
        if after.entities.contains(x) && !v0.entities.contains(x) {
            if si.contains(x) {
                assert(subtree(after.parts, nids[i], news[i]).contains(x));
            } else {
                assert(before.entities.contains(x));
                let j = choose|j: int| 0 <= j < ids.len() && #[trigger] subtree(before.parts, ids[j], olds[j]).contains(x);
                assert(subtree(after.parts, nids[j], news[j]).contains(x));
            }
        }
        if exists|j: int| 0 <= j < nids.len() && #[trigger] subtree(after.parts, nids[j], news[j]).contains(x) {
            let j = choose|j: int| 0 <= j < nids.len() && #[trigger] subtree(after.parts, nids[j], news[j]).contains(x);
            assert(subtree(after.parts, nids[j], news[j]).subset_of(after.entities));
        }
        if v0.entities.contains(x) {
            assert(before.entities.contains(x));
        }
    }
}

} // verus!
