//! Dioxus templates, as the applier receives them, and their bevy form: a
//! tree of UI nodes that can be spawned again and again.
use vstd::prelude::*;
use bevy::color::Color;
use bevy::render::view::Visibility;
use bevy::text::TextColor;
use bevy::text::TextFont;
use bevy::text::TextLayout;
use bevy::transform::components::Transform;
use bevy::ui::BackgroundColor;
use bevy::ui::BorderColor;
use bevy::ui::GlobalZIndex;
use bevy::ui::Node;
use bevy::ui::Outline;
use bevy::ui::ZIndex;
use bevy::ui::widget::ImageNode;

verus! {

#[verifier::external_type_specification]
#[verifier::external_body]
pub struct ExColor(Color);

#[verifier::external_type_specification]
#[verifier::external_body]
pub struct ExNode(Node);

#[verifier::external_type_specification]
#[verifier::external_body]
pub struct ExBorderColor(BorderColor);

#[verifier::external_type_specification]
#[verifier::external_body]
pub struct ExOutline(Outline);

#[verifier::external_type_specification]
#[verifier::external_body]
pub struct ExBackgroundColor(BackgroundColor);

#[verifier::external_type_specification]
#[verifier::external_body]
pub struct ExTransform(Transform);

#[verifier::external_type_specification]
#[verifier::external_body]
pub struct ExVisibility(Visibility);

#[verifier::external_type_specification]
#[verifier::external_body]
pub struct ExZIndex(ZIndex);

#[verifier::external_type_specification]
#[verifier::external_body]
pub struct ExGlobalZIndex(GlobalZIndex);

#[verifier::external_type_specification]
#[verifier::external_body]
pub struct ExImageNode(ImageNode);

#[verifier::external_type_specification]
#[verifier::external_body]
pub struct ExTextLayout(TextLayout);

#[verifier::external_type_specification]
#[verifier::external_body]
pub struct ExTextFont(TextFont);

#[verifier::external_type_specification]
#[verifier::external_body]
pub struct ExTextColor(TextColor);

/// An attribute of a template element.
pub enum TemplateAttribute {
    /// An attribute whose value is fixed in the template.
    Static { name: String, value: String, namespace: Option<String> },
    /// An attribute filled in when the template is used.
    Dynamic { id: usize },
}

/// A node of a dioxus template.
pub enum TemplateNode {
    Element {
        tag: String,
        namespace: Option<String>,
        attrs: Vec<TemplateAttribute>,
        children: Vec<TemplateNode>,
    },
    Text { text: String },
    Dynamic { id: usize },
    DynamicText { id: usize },
}

/// A dioxus template: a name and the nodes at its top.
pub struct Template {
    pub name: String,
    pub roots: Vec<TemplateNode>,
}

/// The components that style a UI entity of a template.
#[derive(Default)]
pub struct StyleComponents {
    pub style: Node,
    pub border_color: BorderColor,
    pub outline: Outline,
    pub background_color: BackgroundColor,
    pub transform: Transform,
    pub visibility: Visibility,
    pub z_index: ZIndex,
    pub z_index_global: GlobalZIndex,
}

/// A node of a template in bevy form.
pub enum BevyTemplateNode {
    Node { style: StyleComponents, children: Vec<BevyTemplateNode> },
    TextNode { text: String, style: StyleComponents, children: Vec<BevyTemplateNode> },
    ImageNode { image: ImageNode, style: StyleComponents, children: Vec<BevyTemplateNode> },
    IntrinsicTextNode(String),
}

/// A template in bevy form.
pub struct BevyTemplate {
    roots: Vec<BevyTemplateNode>,
}

/// The components that the fixed attributes of a template element set. The
/// attribute language belongs to the program that shows the templates: it
/// comes as a function that applies one attribute, `name` with `value`, to
/// these components and gives them back.
pub struct ParsedAttributes {
    pub style: StyleComponents,
    pub text: String,
    pub text_layout: TextLayout,
    pub text_font: TextFont,
    pub text_color: TextColor,
    pub image: ImageNode,
}

/// One attribute applied: `after` is what `f` may give for a fixed
/// attribute on `before`; a dynamic attribute changes nothing.
pub open spec fn step_applied<F: Fn(&String, &String, ParsedAttributes) -> ParsedAttributes>(
    f: F,
    a: TemplateAttribute,
    before: ParsedAttributes,
    after: ParsedAttributes,
) -> bool {
    match a {
        TemplateAttribute::Static { name, value, .. } => f.ensures((&name, &value, before), after),
        TemplateAttribute::Dynamic { .. } => after == before,
    }
}

/// Along `trace`, the first `n` attributes of `attrs` are applied in order.
pub open spec fn steps_applied<F: Fn(&String, &String, ParsedAttributes) -> ParsedAttributes>(
    f: F,
    attrs: Seq<TemplateAttribute>,
    trace: Seq<ParsedAttributes>,
    n: int,
) -> bool {
    forall|j: int| 0 <= j < n ==> #[trigger] step_applied(f, attrs[j], trace[j], trace[j + 1])
}

/// `r` is what applying `f` to each fixed attribute of `attrs`, in order,
/// gives from `start`.
pub open spec fn parsed_from<F: Fn(&String, &String, ParsedAttributes) -> ParsedAttributes>(
    f: F,
    attrs: Seq<TemplateAttribute>,
    start: ParsedAttributes,
    r: ParsedAttributes,
) -> bool {
    exists|trace: Seq<ParsedAttributes>|
        {
            &&& trace.len() == attrs.len() + 1
            &&& trace[0] == start
            &&& trace[attrs.len() as int] == r
            &&& #[trigger] steps_applied(f, attrs, trace, attrs.len() as int)
        }
}

pub open spec fn bevy_ui_namespace() -> Seq<char> {
    "bevy_ui"@
}

pub open spec fn node_tag() -> Seq<char> {
    "node"@
}

pub open spec fn text_tag() -> Seq<char> {
    "text"@
}

pub open spec fn image_tag() -> Seq<char> {
    "image"@
}

/// An element that the applier knows how to build.
pub open spec fn is_bevy_element(tag: Seq<char>, namespace: Option<String>) -> bool {
    &&& namespace matches Some(ns) && ns@ == bevy_ui_namespace()
    &&& tag == node_tag() || tag == text_tag() || tag == image_tag()
}

/// Every element of `t` is a bevy UI node, text or image.
pub open spec fn supported(t: TemplateNode) -> bool
    decreases t, 0nat,
{
    match t {
        TemplateNode::Element { tag, namespace, children, .. } => {
            &&& is_bevy_element(tag@, namespace)
            &&& all_supported_from(children@, 0)
        },
        _ => true,
    }
}

/// Every node of `ts` from position `i` on is supported.
pub open spec fn all_supported_from(ts: Seq<TemplateNode>, i: int) -> bool
    decreases ts, ts.len() - i,
{
    if 0 <= i < ts.len() {
        supported(ts[i]) && all_supported_from(ts, i + 1)
    } else {
        true
    }
}

/// The first element of `t`, in document order, that is not a bevy UI node,
/// text or image, as its tag and namespace.
pub open spec fn first_unsupported(t: TemplateNode) -> Option<(String, Option<String>)>
    decreases t, 0nat,
{
    match t {
        TemplateNode::Element { tag, namespace, children, .. } => {
            if !is_bevy_element(tag@, namespace) {
                Some((tag, namespace))
            } else {
                first_unsupported_from(children@, 0)
            }
        },
        _ => None,
    }
}

/// The first unsupported element among the nodes of `ts` from position `i` on.
pub open spec fn first_unsupported_from(ts: Seq<TemplateNode>, i: int) -> Option<(String, Option<String>)>
    decreases ts, ts.len() - i,
{
    if 0 <= i < ts.len() {
        match first_unsupported(ts[i]) {
            Some(found) => Some(found),
            None => first_unsupported_from(ts, i + 1),
        }
    } else {
        None
    }
}

/// The children of a bevy template node (none for plain text).
pub open spec fn bevy_children(b: BevyTemplateNode) -> Seq<BevyTemplateNode> {
    match b {
        BevyTemplateNode::Node { children, .. } => children@,
        BevyTemplateNode::TextNode { children, .. } => children@,
        BevyTemplateNode::ImageNode { children, .. } => children@,
        BevyTemplateNode::IntrinsicTextNode(_) => Seq::empty(),
    }
}

/// Some attribute of `attrs` is fixed in the template.
pub open spec fn has_fixed_attribute(attrs: Seq<TemplateAttribute>) -> bool {
    exists|j: int| 0 <= j < attrs.len() && #[trigger] attrs[j] is Static
}

/// `b` is the bevy form of `t`: elements become nodes, texts or images by
/// their tag, with their children in order, and a text element without a
/// fixed attribute holds empty text; a fixed text becomes plain text
/// with the same string; a dynamic node becomes an empty node; dynamic text
/// becomes empty plain text.
pub open spec fn mirrors(t: TemplateNode, b: BevyTemplateNode) -> bool
    decreases t, 0nat,
{
    match t {
        TemplateNode::Element { tag, attrs, children, .. } => {
            &&& (tag@ == node_tag() ==> b is Node)
            &&& (tag@ == text_tag() ==> b is TextNode)
            &&& (tag@ == text_tag() && !has_fixed_attribute(attrs@) ==> b->TextNode_text@.len() == 0)
            &&& (tag@ == image_tag() ==> b is ImageNode)
            &&& !(b is IntrinsicTextNode)
            &&& bevy_children(b).len() == children@.len()
            &&& all_mirror_from(children@, bevy_children(b), 0)
        },
        TemplateNode::Text { text } => b matches BevyTemplateNode::IntrinsicTextNode(s) && s@ == text@,
        TemplateNode::Dynamic { .. } => b is Node && bevy_children(b).len() == 0,
        TemplateNode::DynamicText { .. } => b matches BevyTemplateNode::IntrinsicTextNode(s) && s@.len() == 0,
    }
}

/// From position `i` on, each of `bs` is the bevy form of the node of `ts`
/// at the same position.
pub open spec fn all_mirror_from(ts: Seq<TemplateNode>, bs: Seq<BevyTemplateNode>, i: int) -> bool
    decreases ts, ts.len() - i,
{
    if 0 <= i < ts.len() {
        mirrors(ts[i], bs[i]) && all_mirror_from(ts, bs, i + 1)
    } else {
        true
    }
}

/// The components of `b`, a node, text or image, are those that applying
/// `f` to the fixed attributes `attrs` gives from a start with empty text:
/// its style, its text for a text, its image for an image.
pub open spec fn element_parsed<F: Fn(&String, &String, ParsedAttributes) -> ParsedAttributes>(
    f: F,
    attrs: Seq<TemplateAttribute>,
    b: BevyTemplateNode,
) -> bool {
    exists|start: ParsedAttributes, r: ParsedAttributes|
        {
            &&& start.text@ == Seq::<char>::empty()
            &&& #[trigger] parsed_from(f, attrs, start, r)
            &&& match b {
                BevyTemplateNode::Node { style, .. } => style == r.style,
                BevyTemplateNode::TextNode { text, style, .. } => text == r.text && style == r.style,
                BevyTemplateNode::ImageNode { image, style, .. } => image == r.image && style == r.style,
                BevyTemplateNode::IntrinsicTextNode(_) => false,
            }
        }
}

/// Every element of `t` became, in `b`, the components that `f` gives for
/// its fixed attributes.
pub open spec fn parsed_as<F: Fn(&String, &String, ParsedAttributes) -> ParsedAttributes>(
    f: F,
    t: TemplateNode,
    b: BevyTemplateNode,
) -> bool
    decreases t, 0nat,
{
    match t {
        TemplateNode::Element { attrs, children, .. } => {
            &&& element_parsed(f, attrs@, b)
            &&& all_parsed_from(f, children@, bevy_children(b), 0)
        },
        _ => true,
    }
}

/// From position `i` on, `parsed_as` holds of the nodes of `ts` and `bs` at
/// the same position.
pub open spec fn all_parsed_from<F: Fn(&String, &String, ParsedAttributes) -> ParsedAttributes>(
    f: F,
    ts: Seq<TemplateNode>,
    bs: Seq<BevyTemplateNode>,
    i: int,
) -> bool
    decreases ts, ts.len() - i,
{
    if 0 <= i < ts.len() {
        parsed_as(f, ts[i], bs[i]) && all_parsed_from(f, ts, bs, i + 1)
    } else {
        true
    }
}

/// `all_parsed_from` says it of each position.
pub proof fn lemma_all_parsed<F: Fn(&String, &String, ParsedAttributes) -> ParsedAttributes>(
    f: F,
    ts: Seq<TemplateNode>,
    bs: Seq<BevyTemplateNode>,
    i: int,
)
    requires
        0 <= i <= ts.len(),
    ensures
        all_parsed_from(f, ts, bs, i) <==> forall|j: int| i <= j < ts.len() ==> #[trigger] parsed_as(f, ts[j], bs[j]),
    decreases ts.len() - i,
{
    if i < ts.len() {
        lemma_all_parsed(f, ts, bs, i + 1);
        if all_parsed_from(f, ts, bs, i) {
            assert(parsed_as(f, ts[i], bs[i]));
            assert forall|j: int| i <= j < ts.len() implies #[trigger] parsed_as(f, ts[j], bs[j]) by {
                if j > i {
                    assert(i + 1 <= j);
                }
            }
        }
        if forall|j: int| i <= j < ts.len() ==> #[trigger] parsed_as(f, ts[j], bs[j]) {
            assert(parsed_as(f, ts[i], bs[i]));
            assert(all_parsed_from(f, ts, bs, i + 1));
        }
    }
}

/// `all_supported_from` says it of each node.
pub proof fn lemma_all_supported(ts: Seq<TemplateNode>, i: int)
    requires
        0 <= i <= ts.len(),
    ensures
        all_supported_from(ts, i) <==> forall|j: int| i <= j < ts.len() ==> #[trigger] supported(ts[j]),
    decreases ts.len() - i,
{
    if i < ts.len() {
        lemma_all_supported(ts, i + 1);
        if all_supported_from(ts, i) {
            assert(supported(ts[i]));
            assert forall|j: int| i <= j < ts.len() implies #[trigger] supported(ts[j]) by {
                if j > i {
                    assert(i + 1 <= j);
                }
            }
        }
        if forall|j: int| i <= j < ts.len() ==> #[trigger] supported(ts[j]) {
            assert(supported(ts[i]));
            assert(all_supported_from(ts, i + 1));
        }
    }
}

/// `all_mirror_from` says it of each position.
pub proof fn lemma_all_mirror(ts: Seq<TemplateNode>, bs: Seq<BevyTemplateNode>, i: int)
    requires
        0 <= i <= ts.len(),
    ensures
        all_mirror_from(ts, bs, i) <==> forall|j: int| i <= j < ts.len() ==> #[trigger] mirrors(ts[j], bs[j]),
    decreases ts.len() - i,
{
    if i < ts.len() {
        lemma_all_mirror(ts, bs, i + 1);
        if all_mirror_from(ts, bs, i) {
            assert(mirrors(ts[i], bs[i]));
            assert forall|j: int| i <= j < ts.len() implies #[trigger] mirrors(ts[j], bs[j]) by {
                if j > i {
                    assert(i + 1 <= j);
                }
            }
        }
        if forall|j: int| i <= j < ts.len() ==> #[trigger] mirrors(ts[j], bs[j]) {
            assert(mirrors(ts[i], bs[i]));
            assert(all_mirror_from(ts, bs, i + 1));
        }
    }
}

/// Calls `Color::NONE`.
#[verifier::external_body]
fn color_none() -> Color {
    Color::NONE
}

/// Calls `Color::WHITE`.
#[verifier::external_body]
fn color_white() -> Color {
    Color::WHITE
}

/// Calls `Node::default()`.
#[verifier::external_body]
fn default_node() -> Node {
    Node::default()
}

/// Calls `BorderColor::default()`.
#[verifier::external_body]
fn default_border_color() -> BorderColor {
    BorderColor::default()
}

/// Calls `Outline::default()`.
#[verifier::external_body]
fn default_outline() -> Outline {
    Outline::default()
}

/// Builds `BackgroundColor(color)`.
#[verifier::external_body]
fn background_color_of(color: Color) -> BackgroundColor {
    BackgroundColor(color)
}

/// Calls `BackgroundColor::default()`.
#[verifier::external_body]
fn default_background_color() -> BackgroundColor {
    BackgroundColor::default()
}

/// Calls `Transform::default()`.
#[verifier::external_body]
fn default_transform() -> Transform {
    Transform::default()
}

/// Calls `Visibility::default()`.
#[verifier::external_body]
fn default_visibility() -> Visibility {
    Visibility::default()
}

/// Calls `ZIndex::default()`.
#[verifier::external_body]
fn default_z_index() -> ZIndex {
    ZIndex::default()
}

/// Calls `GlobalZIndex::default()`.
#[verifier::external_body]
fn default_global_z_index() -> GlobalZIndex {
    GlobalZIndex::default()
}

/// The default component of every kind, with `background_color` behind.
fn style_with(background_color: BackgroundColor) -> StyleComponents {
    StyleComponents {
        style: default_node(),
        border_color: default_border_color(),
        outline: default_outline(),
        background_color,
        transform: default_transform(),
        visibility: default_visibility(),
        z_index: default_z_index(),
        z_index_global: default_global_z_index(),
    }
}

/// The default component of every kind, on a `color` background.
fn style_on(color: Color) -> StyleComponents {
    style_with(background_color_of(color))
}

/// The default component of every kind.
fn default_style() -> StyleComponents {
    style_with(default_background_color())
}

/// Calls `TextLayout::default()`.
#[verifier::external_body]
fn default_text_layout() -> TextLayout {
    TextLayout::default()
}

/// Calls `TextFont::default()`.
#[verifier::external_body]
fn default_text_font() -> TextFont {
    TextFont::default()
}

/// Calls `TextColor::default()`.
#[verifier::external_body]
fn default_text_color() -> TextColor {
    TextColor::default()
}

/// Calls `ImageNode::default()`.
#[verifier::external_body]
fn default_image() -> ImageNode {
    ImageNode::default()
}

/// `a` and `b` hold the same characters.
pub fn same_str(a: &str, b: &str) -> (r: bool)
    ensures
        r == (a@ == b@),
{
    let n = a.unicode_len();
    if n != b.unicode_len() {
        return false;
    }
    let mut i: usize = 0;
    while i < n
        invariant
            n == a@.len(),
            n == b@.len(),
            0 <= i <= n,
            forall|j: int| 0 <= j < i ==> a@[j] == b@[j],
        decreases n - i,
    {
        if a.get_char(i) != b.get_char(i) {
            return false;
        }
        i += 1;
    }
    assert(a@ =~= b@);
    true
}

/// The components that the fixed attributes of an element give: `parse`
/// applied to each fixed attribute, in order, starting from the defaults
/// with `background_color` behind and empty text. Dynamic attributes are
/// left alone, so without a fixed one the start comes back.
fn parse_template_attributes<F: Fn(&String, &String, ParsedAttributes) -> ParsedAttributes>(
    attributes: &Vec<TemplateAttribute>,
    background_color: Color,
    parse: &F,
) -> (r: ParsedAttributes)
    requires
        forall|n: &String, v: &String, p: ParsedAttributes| #[trigger] parse.requires((n, v, p)),
    ensures
        exists|start: ParsedAttributes|
            {
                &&& start.text@ == Seq::<char>::empty()
                &&& #[trigger] parsed_from(*parse, attributes@, start, r)
                &&& !has_fixed_attribute(attributes@) ==> r == start
            },
{
    let start = ParsedAttributes {
        style: style_on(background_color),
        text: String::new(),
        text_layout: default_text_layout(),
        text_font: default_text_font(),
        text_color: default_text_color(),
        image: default_image(),
    };
    let ghost first = start;
    let ghost mut trace: Seq<ParsedAttributes> = seq![start];
    let mut current = start;
    let mut i: usize = 0;
    while i < attributes.len()
        invariant
            0 <= i <= attributes@.len(),
            forall|n: &String, v: &String, p: ParsedAttributes| #[trigger] parse.requires((n, v, p)),
            trace.len() == i + 1,
            trace[0] == first,
            trace[i as int] == current,
            steps_applied(*parse, attributes@, trace, i as int),
            (forall|j: int| 0 <= j < i ==> !(#[trigger] attributes@[j] is Static)) ==> current == first,
        decreases attributes.len() - i,
    {
        let ghost before = trace;
        match &attributes[i] {
            TemplateAttribute::Static { name, value, .. } => {
                let next = parse(name, value, current);
                proof {
                    trace = trace.push(next);
                }
                current = next;
            },
            TemplateAttribute::Dynamic { .. } => {
                proof {
                    trace = trace.push(current);
                }
            },
        }
        proof {
            assert forall|j: int| 0 <= j < i + 1 implies #[trigger] step_applied(*parse, attributes@[j], trace[j], trace[j + 1]) by {
                if j < i {
                    assert(step_applied(*parse, attributes@[j], before[j], before[j + 1]));
                }
            }
        }
        i += 1;
    }
    proof {
        assert(steps_applied(*parse, attributes@, trace, attributes@.len() as int));
        assert(parsed_from(*parse, attributes@, first, current));
    }
    current
}

/// Whether `tag` in `namespace` names a bevy UI node, text or image.
pub fn is_bevy_tag(tag: &str, namespace: &Option<String>) -> (r: bool)
    ensures
        r == is_bevy_element(tag@, *namespace),
{
    proof {
        lemma_tags_distinct();
    }
    match namespace {
        Some(ns) => same_str(ns.as_str(), "bevy_ui")
            && (same_str(tag, "node") || same_str(tag, "text") || same_str(tag, "image")),
        None => false,
    }
}

/// The first element of `node`, in document order, that is not a bevy UI
/// node, text or image, as its tag and namespace; `None` when there is none.
pub fn find_unsupported(node: &TemplateNode) -> (r: Option<(String, Option<String>)>)
    ensures
        r is None <==> supported(*node),
        r == first_unsupported(*node),
        r matches Some((tag, namespace)) ==> !is_bevy_element(tag@, namespace),
    decreases node,
{
    match node {
        TemplateNode::Element { tag, namespace, children, .. } => {
            proof {
                lemma_children_smaller(*node);
            }
            if !is_bevy_tag(tag.as_str(), namespace) {
                let ns = match namespace {
                    Some(n) => Some(n.clone()),
                    None => None,
                };
                return Some((tag.clone(), ns));
            }
            let r = find_unsupported_among(children);
            proof {
                lemma_all_supported(children@, 0);
            }
            r
        },
        _ => None,
    }
}

/// The first unsupported element among `nodes`, in document order.
pub fn find_unsupported_among(nodes: &Vec<TemplateNode>) -> (r: Option<(String, Option<String>)>)
    ensures
        r is None <==> all_supported_from(nodes@, 0),
        r == first_unsupported_from(nodes@, 0),
        r matches Some((tag, namespace)) ==> !is_bevy_element(tag@, namespace),
    decreases nodes@, 1nat,
{
    proof {
        lemma_all_supported(nodes@, 0);
    }
    let mut i: usize = 0;
    while i < nodes.len()
        invariant
            0 <= i <= nodes@.len(),
            forall|j: int| 0 <= j < i ==> #[trigger] supported(nodes@[j]),
            all_supported_from(nodes@, 0) <==> forall|j: int| 0 <= j < nodes@.len() ==> #[trigger] supported(nodes@[j]),
            first_unsupported_from(nodes@, 0) == first_unsupported_from(nodes@, i as int),
        decreases nodes.len() - i,
    {
        proof {
            assert(decreases_to!(nodes@ => nodes@[i as int]));
        }
        let r = find_unsupported(&nodes[i]);
        if r.is_some() {
            return r;
        }
        i += 1;
    }
    assert(first_unsupported_from(nodes@, i as int) is None);
    None
}

impl BevyTemplateNode {
    /// The bevy form of a template node. Elements parse their fixed
    /// attributes with `parse`: nodes and texts on a transparent
    /// background, images on white.
    pub fn from_dioxus<F: Fn(&String, &String, ParsedAttributes) -> ParsedAttributes>(
        node: &TemplateNode,
        parse: &F,
    ) -> (r: BevyTemplateNode)
        requires
            supported(*node),
            forall|n: &String, v: &String, p: ParsedAttributes| #[trigger] parse.requires((n, v, p)),
        ensures
            mirrors(*node, r),
            parsed_as(*parse, *node, r),
        decreases node,
    {
        match node {
            TemplateNode::Element { tag, attrs, children, .. } => {
                proof {
                    lemma_children_smaller(*node);
                    lemma_all_supported(children@, 0);
                }
                let mut kids: Vec<BevyTemplateNode> = Vec::new();
                let mut i: usize = 0;
                while i < children.len()
                    invariant
                        0 <= i <= children@.len(),
                        kids@.len() == i,
                        forall|j: int| 0 <= j < children@.len() ==> #[trigger] supported(children@[j]),
                        forall|j: int| 0 <= j < children@.len() ==> decreases_to!(*node => #[trigger] children@[j]),
                        forall|j: int| 0 <= j < i ==> #[trigger] mirrors(children@[j], kids@[j]),
                        forall|j: int| 0 <= j < i ==> #[trigger] parsed_as(*parse, children@[j], kids@[j]),
                        forall|n: &String, v: &String, p: ParsedAttributes| #[trigger] parse.requires((n, v, p)),
                    decreases children.len() - i,
                {
                    let kid = Self::from_dioxus(&children[i], parse);
                    kids.push(kid);
                    i += 1;
                }
                proof {
                    lemma_all_mirror(children@, kids@, 0);
                    lemma_all_parsed(*parse, children@, kids@, 0);
                    lemma_tags_distinct();
                }
                if same_str(tag.as_str(), "node") {
                    let parsed = parse_template_attributes(attrs, color_none(), parse);
                    let r = BevyTemplateNode::Node { style: parsed.style, children: kids };
                    r
                } else if same_str(tag.as_str(), "text") {
                    let parsed = parse_template_attributes(attrs, color_none(), parse);
                    BevyTemplateNode::TextNode { text: parsed.text, style: parsed.style, children: kids }
                } else {
                    let parsed = parse_template_attributes(attrs, color_white(), parse);
                    BevyTemplateNode::ImageNode { image: parsed.image, style: parsed.style, children: kids }
                }
            },
            TemplateNode::Text { text } => BevyTemplateNode::IntrinsicTextNode(text.clone()),
            TemplateNode::Dynamic { .. } => BevyTemplateNode::Node { style: default_style(), children: Vec::new() },
            TemplateNode::DynamicText { .. } => BevyTemplateNode::IntrinsicTextNode(String::new()),
        }
    }
}

impl BevyTemplate {
    /// The nodes at the top of the template.
    pub closed spec fn roots(&self) -> Seq<BevyTemplateNode> {
        self.roots@
    }

    /// The number of nodes at the top.
    pub fn root_count(&self) -> (n: usize)
        ensures
            n == self.roots().len(),
    {
        self.roots.len()
    }

    /// The node at position `index` of the top.
    pub fn root(&self, index: usize) -> (r: &BevyTemplateNode)
        requires
            index < self.roots().len(),
        ensures
            *r == self.roots()[index as int],
    {
        &self.roots[index]
    }

    /// The bevy form of a template, root by root.
    pub fn from_dioxus<F: Fn(&String, &String, ParsedAttributes) -> ParsedAttributes>(
        template: &Template,
        parse: &F,
    ) -> (r: BevyTemplate)
        requires
            all_supported_from(template.roots@, 0),
            forall|n: &String, v: &String, p: ParsedAttributes| #[trigger] parse.requires((n, v, p)),
        ensures
            r.roots().len() == template.roots@.len(),
            all_mirror_from(template.roots@, r.roots(), 0),
            all_parsed_from(*parse, template.roots@, r.roots(), 0),
    {
        proof {
            lemma_all_supported(template.roots@, 0);
        }
        let mut roots: Vec<BevyTemplateNode> = Vec::new();
        let mut i: usize = 0;
        while i < template.roots.len()
            invariant
                0 <= i <= template.roots@.len(),
                roots@.len() == i,
                forall|j: int| 0 <= j < template.roots@.len() ==> #[trigger] supported(template.roots@[j]),
                forall|j: int| 0 <= j < i ==> #[trigger] mirrors(template.roots@[j], roots@[j]),
                forall|j: int| 0 <= j < i ==> #[trigger] parsed_as(*parse, template.roots@[j], roots@[j]),
                forall|n: &String, v: &String, p: ParsedAttributes| #[trigger] parse.requires((n, v, p)),
            decreases template.roots.len() - i,
        {
            roots.push(BevyTemplateNode::from_dioxus(&template.roots[i], parse));
            i += 1;
        }
        proof {
            lemma_all_mirror(template.roots@, roots@, 0);
            lemma_all_parsed(*parse, template.roots@, roots@, 0);
        }
        BevyTemplate { roots }
    }
}

/// The children of an element are smaller than it.
proof fn lemma_children_smaller(t: TemplateNode)
    requires
        t is Element,
    ensures
        forall|j: int| 0 <= j < t->children@.len() ==> decreases_to!(t => #[trigger] t->children@[j]),
{
    assert forall|j: int| 0 <= j < t->children@.len() implies decreases_to!(t => #[trigger] t->children@[j]) by {
        assert(decreases_to!(t => t->children));
        assert(decreases_to!(t->children => t->children@));
        assert(decreases_to!(t->children@ => t->children@[j]));
    }
}

/// The three tags differ.
proof fn lemma_tags_distinct()
    ensures
        node_tag() != text_tag(),
        node_tag() != image_tag(),
        text_tag() != image_tag(),
{
    reveal_strlit("node");
    reveal_strlit("text");
    reveal_strlit("image");
    assert(node_tag()[0] != text_tag()[0]);
    assert(node_tag()[0] != image_tag()[0]);
    assert(text_tag()[0] != image_tag()[0]);
}

} // verus!
