//! Accessibility layer: accessibility tree, focus and keyboard navigation, a screen-reader
//! announcer, a high-contrast theme, and global text scaling.
//!
//! The only effect, speaking text, sits behind the [`TtsEngine`] trait.

use vstd::prelude::*;

use crate::notification::{Notification, NotificationRequest, Priority};
use crate::shortcuts::{Key, KeyStroke};
use crate::strings::is_empty;
use crate::theme::{Shadow, Theme};
use crate::widget::{Widget, WidgetId};

verus! {

// ---------------------------------------------------------------------------
// Roles and nodes
// ---------------------------------------------------------------------------

/// The semantic role a screen reader announces for a widget.
#[derive(Clone, Copy, Debug, PartialEq, Eq, Structural)]
pub enum Role {
    /// Static, non-interactive text.
    Label,
    /// A push button.
    Button,
    /// An editable text field.
    TextInput,
    /// A list of items.
    List,
    /// A non-semantic grouping container.
    Group,
}

impl Role {
    /// The spoken name of the role.
    pub open spec fn name(self) -> Seq<char> {
        match self {
            Role::Label => "label"@,
            Role::Button => "button"@,
            Role::TextInput => "text field"@,
            Role::List => "list"@,
            Role::Group => "group"@,
        }
    }

    /// Whether the role takes part in keyboard navigation.
    pub open spec fn takes_focus(self) -> bool {
        self == Role::Button || self == Role::TextInput || self == Role::List
    }

    /// The spoken role name a screen reader prefixes the announcement with.
    pub fn spoken(self) -> (r: &'static str)
        ensures
            r@ == self.name(),
    {
        match self {
            Role::Label => "label",
            Role::Button => "button",
            Role::TextInput => "text field",
            Role::List => "list",
            Role::Group => "group",
        }
    }

    /// Whether a widget of this role can hold keyboard focus by default.
    pub fn is_focusable(self) -> (r: bool)
        ensures
            r == self.takes_focus(),
    {
        match self {
            Role::Button | Role::TextInput | Role::List => true,
            Role::Label | Role::Group => false,
        }
    }
}

/// One node of the accessibility tree exposing a widget's role, name, and state.
#[derive(Debug, PartialEq, Eq)]
pub struct A11yNode {
    /// Tree-stable id assigned during construction (depth-first pre-order).
    pub a11y_id: u32,
    /// The underlying toolkit widget id, when the widget carries one.
    pub widget_id: Option<WidgetId>,
    /// Semantic role.
    pub role: Role,
    /// Accessible name (the label/text/first item).
    pub name: String,
    /// Accessible value, when distinct from the name (e.g. a field's contents).
    pub value: Option<String>,
    /// Whether the node can receive focus.
    pub focusable: bool,
    /// Whether the node is currently disabled (not announced as actionable).
    pub disabled: bool,
    /// Child nodes, in visual order.
    pub children: Vec<A11yNode>,
}

/// What a node exposes.
pub struct Node {
    /// The id within the tree.
    pub id: int,
    /// The id of the widget.
    pub widget: Option<WidgetId>,
    /// The role.
    pub role: Role,
    /// The accessible name.
    pub name: Seq<char>,
    /// The accessible value.
    pub value: Option<Seq<char>>,
    /// Whether it can receive focus.
    pub focusable: bool,
    /// Whether it is disabled.
    pub disabled: bool,
    /// The children.
    pub children: Seq<Node>,
}

/// The characters of an optional string.
pub open spec fn maybe_text(s: Option<String>) -> Option<Seq<char>> {
    match s {
        Some(t) => Some(t@),
        None => None,
    }
}

/// What a node of the tree exposes.
pub open spec fn exposed(n: A11yNode) -> Node
    decreases n,
{
    Node {
        id: n.a11y_id as int,
        widget: n.widget_id,
        role: n.role,
        name: n.name@,
        value: maybe_text(n.value),
        focusable: n.focusable,
        disabled: n.disabled,
        children: all_exposed(n.children@),
    }
}

/// What the nodes of a list expose.
pub open spec fn all_exposed(s: Seq<A11yNode>) -> Seq<Node>
    decreases s,
{
    if s.len() == 0 {
        Seq::empty()
    } else {
        seq![exposed(s[0])] + all_exposed(s.drop_first())
    }
}

// ---------------------------------------------------------------------------
// Tree
// ---------------------------------------------------------------------------

/// The number of widgets in a hierarchy.
pub open spec fn widgets(w: Widget) -> nat
    decreases w,
{
    match w {
        Widget::Container { children, .. } => 1 + widgets_in(children@),
        _ => 1,
    }
}

/// The number of widgets in some hierarchies.
pub open spec fn widgets_in(s: Seq<Widget>) -> nat
    decreases s,
{
    if s.len() == 0 {
        0
    } else {
        widgets(s[0]) + widgets_in(s.drop_first())
    }
}

/// The node with the given role, name and value, without children.
pub open spec fn leaf(
    id: int,
    role: Role,
    widget: Option<WidgetId>,
    name: Seq<char>,
    value: Option<Seq<char>>,
) -> Node {
    Node {
        id,
        widget,
        role,
        name,
        value,
        focusable: role.takes_focus(),
        disabled: false,
        children: Seq::empty(),
    }
}

/// The accessible name of a list: its first item. A list without items is announced as such.
pub open spec fn list_name(items: Seq<String>) -> Seq<char> {
    if items.len() > 0 {
        items[0]@
    } else {
        "0 items"@
    }
}

/// The tree of a widget hierarchy whose first id is `id`.
pub open spec fn tree_of(w: Widget, id: int) -> Node
    decreases w,
{
    match w {
        Widget::Label { text, .. } => leaf(id, Role::Label, None, text@, None),
        Widget::Button { id: wid, text, .. } => leaf(id, Role::Button, Some(wid), text@, None),
        Widget::TextInput { id: wid, text, .. } => leaf(
            id,
            Role::TextInput,
            Some(wid),
            Seq::empty(),
            Some(text@),
        ),
        Widget::List { items, .. } => leaf(id, Role::List, None, list_name(items@), None),
        Widget::Container { children, .. } => Node {
            children: trees_of(children@, id + 1),
            ..leaf(id, Role::Group, None, Seq::empty(), None)
        },
    }
}

/// The trees of some widget hierarchies, numbered on from `id`.
pub open spec fn trees_of(s: Seq<Widget>, id: int) -> Seq<Node>
    decreases s,
{
    if s.len() == 0 {
        Seq::empty()
    } else {
        seq![tree_of(s[0], id)] + trees_of(s.drop_first(), id + widgets(s[0]))
    }
}

/// The nodes of a tree in depth-first pre-order.
pub open spec fn walk(n: Node) -> Seq<Node>
    decreases n,
{
    seq![n] + walk_all(n.children)
}

/// The nodes of some trees, one after the other.
pub open spec fn walk_all(s: Seq<Node>) -> Seq<Node>
    decreases s,
{
    if s.len() == 0 {
        Seq::empty()
    } else {
        walk(s[0]) + walk_all(s.drop_first())
    }
}

/// The ids of the nodes that can be focused, in the given order.
pub open spec fn focusable_ids(s: Seq<Node>) -> Seq<int>
    decreases s.len(),
{
    if s.len() == 0 {
        Seq::empty()
    } else if s[0].focusable && !s[0].disabled {
        seq![s[0].id] + focusable_ids(s.drop_first())
    } else {
        focusable_ids(s.drop_first())
    }
}

/// The first node with the given id.
pub open spec fn with_id(s: Seq<Node>, id: int) -> Option<Node>
    decreases s.len(),
{
    if s.len() == 0 {
        None
    } else if s[0].id == id {
        Some(s[0])
    } else {
        with_id(s.drop_first(), id)
    }
}

/// The integers of a list of ids.
pub open spec fn ints(s: Seq<u32>) -> Seq<int> {
    s.map_values(|i: u32| i as int)
}

/// The accessibility tree built from a [`Widget`] hierarchy.
///
/// Holds the root node plus a flattened focus order (the `a11y_id`s of the focusable nodes in
/// depth-first pre-order), which drives Tab navigation.
#[derive(Debug, PartialEq, Eq)]
pub struct A11yTree {
    root: A11yNode,
    focus_order: Vec<u32>,
}

impl View for A11yTree {
    type V = Node;

    closed spec fn view(&self) -> Node {
        exposed(self.root)
    }
}

/// A node that exposes the same.
fn copy_node(node: &A11yNode) -> (r: A11yNode)
    ensures
        exposed(r) == exposed(*node),
    decreases *node,
{
    let mut kids: Vec<A11yNode> = Vec::new();
    let mut i: usize = 0;
    let ghost all = all_exposed(node.children@);
    proof {
        assert(node.children@.skip(0) == node.children@);
        assert(all_exposed(kids@) + all == all);
    }
    while i < node.children.len()
        invariant
            i <= node.children@.len(),
            all_exposed(kids@) + all_exposed(node.children@.skip(i as int)) == all,
            decreases_to!(*node => node.children@),
        decreases node.children@.len() - i,
    {
        proof {
            let rest = node.children@.skip(i as int);
            assert(rest[0] == node.children@[i as int]);
            assert(rest.drop_first() == node.children@.skip(i + 1));
            assert(decreases_to!(node.children@ => node.children@[i as int]));
        }
        let kid = copy_node(&node.children[i]);
        let ghost before = kids@;
        kids.push(kid);
        proof {
            lemma_exposed_push(before, kid);
            let more = all_exposed(node.children@.skip(i + 1));
            assert(all_exposed(before).push(exposed(kid)) == all_exposed(before)
                + seq![exposed(kid)]);
            crate::lists::lemma_assoc(all_exposed(before), seq![exposed(kid)], more);
        }
        i = i + 1;
    }
    proof {
        assert(node.children@.skip(i as int).len() == 0);
        assert(all_exposed(kids@) + Seq::<Node>::empty() == all_exposed(kids@));
    }
    let value = match &node.value {
        Some(v) => Some(v.clone()),
        None => None,
    };
    A11yNode {
        a11y_id: node.a11y_id,
        widget_id: node.widget_id,
        role: node.role,
        name: node.name.clone(),
        value,
        focusable: node.focusable,
        disabled: node.disabled,
        children: kids,
    }
}

impl Clone for A11yNode {
    fn clone(&self) -> (r: Self)
        ensures
            exposed(r) == exposed(*self),
    {
        copy_node(self)
    }
}

impl Clone for A11yTree {
    fn clone(&self) -> (r: Self)
        ensures
            r@ == self@,
            self.wf() ==> r.wf(),
    {
        let focus_order = self.focus_order.clone();
        assert(focus_order@ =~= self.focus_order@);
        A11yTree { root: copy_node(&self.root), focus_order }
    }
}

impl A11yTree {
    /// Whether the focus order is that of the tree, and the nodes can be counted.
    pub closed spec fn wf(&self) -> bool {
        &&& ints(self.focus_order@) == focusable_ids(walk(exposed(self.root)))
        &&& walk(exposed(self.root)).len() <= u32::MAX
    }

    /// Build the accessibility tree (and its focus order) from a widget hierarchy.
    pub fn from_widget(widget: &Widget) -> (r: Self)
        requires
            widgets(*widget) <= u32::MAX,
        ensures
            r.wf(),
            r@ == tree_of(*widget, 0),
    {
        let mut next_id: u32 = 0;
        let root = build_node(widget, &mut next_id);
        let mut focus_order: Vec<u32> = Vec::new();
        assert(ints(focus_order@) =~= Seq::empty());
        collect_focus_order(&root, &mut focus_order);
        proof {
            lemma_walk_len(*widget, 0);
            let ids = focusable_ids(walk(exposed(root)));
            assert(Seq::<int>::empty() + ids == ids);
        }
        A11yTree { root, focus_order }
    }

    /// The root node.
    pub fn root(&self) -> (r: &A11yNode)
        ensures
            exposed(*r) == self@,
    {
        &self.root
    }

    /// The `a11y_id`s of the focusable nodes, in Tab order.
    pub fn focus_order(&self) -> (r: &[u32])
        requires
            self.wf(),
        ensures
            ints(r@) == focusable_ids(walk(self@)),
    {
        self.focus_order.as_slice()
    }

    /// Total number of nodes in the tree.
    pub fn node_count(&self) -> (r: usize)
        requires
            self.wf(),
        ensures
            r == walk(self@).len(),
    {
        count_nodes(&self.root)
    }

    /// Find a node by its `a11y_id`.
    pub fn node(&self, a11y_id: u32) -> (r: Option<&A11yNode>)
        ensures
            match r {
                Some(n) => with_id(walk(self@), a11y_id as int) == Some(exposed(*n)),
                None => with_id(walk(self@), a11y_id as int) is None,
            },
    {
        find_node(&self.root, a11y_id)
    }
}

proof fn lemma_exposed_push(s: Seq<A11yNode>, n: A11yNode)
    ensures
        all_exposed(s.push(n)) == all_exposed(s).push(exposed(n)),
    decreases s.len(),
{
    if s.len() == 0 {
        assert(s.push(n).drop_first() == Seq::<A11yNode>::empty());
        assert(all_exposed(s.push(n).drop_first()) == Seq::<Node>::empty());
        assert(all_exposed(s.push(n)) =~= seq![exposed(n)]);
        assert(all_exposed(s).push(exposed(n)) =~= seq![exposed(n)]);
    } else {
        lemma_exposed_push(s.drop_first(), n);
        assert(s.push(n).drop_first() == s.drop_first().push(n));
        assert(seq![exposed(s[0])] + all_exposed(s.drop_first()).push(exposed(n)) =~= (
        seq![exposed(s[0])] + all_exposed(s.drop_first())).push(exposed(n)));
    }
}

proof fn lemma_walk_len(w: Widget, id: int)
    ensures
        walk(tree_of(w, id)).len() == widgets(w),
    decreases w,
{
    match w {
        Widget::Container { children, .. } => {
            lemma_walk_all_len(children@, id + 1);
        },
        _ => {
            assert(walk_all(Seq::<Node>::empty()).len() == 0);
        },
    }
}

proof fn lemma_walk_all_len(s: Seq<Widget>, id: int)
    ensures
        walk_all(trees_of(s, id)).len() == widgets_in(s),
    decreases s,
{
    if s.len() > 0 {
        let rest = trees_of(s.drop_first(), id + widgets(s[0]));
        lemma_walk_len(s[0], id);
        lemma_walk_all_len(s.drop_first(), id + widgets(s[0]));
        assert(trees_of(s, id).drop_first() == rest);
    }
}

/// A node without children.
fn leaf_node(
    id: u32,
    role: Role,
    widget_id: Option<WidgetId>,
    name: String,
    value: Option<String>,
) -> (r: A11yNode)
    ensures
        exposed(r) == leaf(id as int, role, widget_id, name@, maybe_text(value)),
{
    let r = A11yNode {
        a11y_id: id,
        widget_id,
        role,
        name,
        value,
        focusable: role.is_focusable(),
        disabled: false,
        children: Vec::new(),
    };
    assert(all_exposed(r.children@) =~= Seq::<Node>::empty());
    r
}

/// The node of a widget and the nodes below it, numbered from `next_id` on.
fn build_node(widget: &Widget, next_id: &mut u32) -> (r: A11yNode)
    requires
        *old(next_id) + widgets(*widget) <= u32::MAX,
    ensures
        exposed(r) == tree_of(*widget, *old(next_id) as int),
        *final(next_id) == *old(next_id) + widgets(*widget),
    decreases *widget,
{
    let id: u32 = *next_id;
    *next_id = id + 1;
    match widget {
        Widget::Label { text, .. } => leaf_node(id, Role::Label, None, text.clone(), None),
        Widget::Button { id: wid, text, .. } => leaf_node(
            id,
            Role::Button,
            Some(*wid),
            text.clone(),
            None,
        ),
        Widget::TextInput { id: wid, text, .. } => {
            let name = String::new();
            assert(name@ =~= Seq::<char>::empty());
            leaf_node(id, Role::TextInput, Some(*wid), name, Some(text.clone()))
        },
        Widget::List { items, .. } => {
            let name = if items.len() > 0 {
                items[0].clone()
            } else {
                "0 items".to_owned()
            };
            leaf_node(id, Role::List, None, name, None)
        },
        Widget::Container { children, .. } => {
            let mut kids: Vec<A11yNode> = Vec::new();
            let mut i: usize = 0;
            let ghost all = trees_of(children@, id + 1);
            proof {
                assert(children@.skip(0) == children@);
                assert(all_exposed(kids@) + all == all);
            }
            while i < children.len()
                invariant
                    i <= children@.len(),
                    *next_id + widgets_in(children@.skip(i as int)) == id + 1 + widgets_in(
                        children@,
                    ),
                    id + 1 + widgets_in(children@) <= u32::MAX,
                    all_exposed(kids@) + trees_of(children@.skip(i as int), *next_id as int) == all,
                    decreases_to!(*widget => children@),
                decreases children@.len() - i,
            {
                proof {
                    let rest = children@.skip(i as int);
                    assert(rest[0] == children@[i as int]);
                    assert(rest.drop_first() == children@.skip(i + 1));
                    assert(decreases_to!(children@ => children@[i as int]));
                }
                let kid = build_node(&children[i], next_id);
                let ghost before = kids@;
                kids.push(kid);
                proof {
                    lemma_exposed_push(before, kid);
                    let more = trees_of(children@.skip(i + 1), *next_id as int);
                    assert(all_exposed(before).push(exposed(kid)) == all_exposed(before)
                        + seq![exposed(kid)]);
                    crate::lists::lemma_assoc(all_exposed(before), seq![exposed(kid)], more);
                }
                i = i + 1;
            }
            proof {
                let none = children@.skip(i as int);
                assert(none.len() == 0);
                assert(all_exposed(kids@) + Seq::<Node>::empty() == all_exposed(kids@));
            }
            let name = String::new();
            assert(name@ =~= Seq::<char>::empty());
            A11yNode {
                a11y_id: id,
                widget_id: None,
                role: Role::Group,
                name,
                value: None,
                focusable: Role::Group.is_focusable(),
                disabled: false,
                children: kids,
            }
        },
    }
}

proof fn lemma_focusable_concat(a: Seq<Node>, b: Seq<Node>)
    ensures
        focusable_ids(a + b) == focusable_ids(a) + focusable_ids(b),
    decreases a.len(),
{
    if a.len() == 0 {
        assert(a + b == b);
        assert(focusable_ids(a) + focusable_ids(b) == focusable_ids(b));
    } else {
        lemma_focusable_concat(a.drop_first(), b);
        assert((a + b).drop_first() == a.drop_first() + b);
        crate::lists::lemma_assoc(
            seq![a[0].id],
            focusable_ids(a.drop_first()),
            focusable_ids(b),
        );
    }
}

proof fn lemma_with_id_concat(a: Seq<Node>, b: Seq<Node>, id: int)
    ensures
        with_id(a + b, id) == (if with_id(a, id) is Some {
            with_id(a, id)
        } else {
            with_id(b, id)
        }),
    decreases a.len(),
{
    if a.len() == 0 {
        assert(a + b == b);
    } else {
        lemma_with_id_concat(a.drop_first(), b, id);
        assert((a + b).drop_first() == a.drop_first() + b);
    }
}

proof fn lemma_exposed_first(s: Seq<A11yNode>, i: int)
    requires
        0 <= i < s.len(),
    ensures
        walk_all(all_exposed(s.skip(i))) == walk(exposed(s[i])) + walk_all(
            all_exposed(s.skip(i + 1)),
        ),
{
    let rest = s.skip(i);
    assert(rest[0] == s[i]);
    assert(rest.drop_first() == s.skip(i + 1));
    assert(all_exposed(rest).drop_first() =~= all_exposed(s.skip(i + 1)));
}

fn collect_focus_order(node: &A11yNode, out: &mut Vec<u32>)
    ensures
        ints(final(out)@) == ints(old(out)@) + focusable_ids(walk(exposed(*node))),
    decreases *node,
{
    let ghost start = ints(out@);
    let ghost kids = walk_all(all_exposed(node.children@));
    proof {
        lemma_focusable_concat(seq![exposed(*node)], kids);
        assert(seq![exposed(*node)].drop_first() == Seq::<Node>::empty());
        assert(focusable_ids(Seq::<Node>::empty()) == Seq::<int>::empty());
    }
    if node.focusable && !node.disabled {
        out.push(node.a11y_id);
    }
    let ghost head = focusable_ids(seq![exposed(*node)]);
    proof {
        assert(ints(out@) =~= start + head);
        assert(node.children@.skip(0) == node.children@);
    }
    let mut i: usize = 0;
    while i < node.children.len()
        invariant
            i <= node.children@.len(),
            kids == walk_all(all_exposed(node.children@)),
            ints(out@) + focusable_ids(walk_all(all_exposed(node.children@.skip(i as int))))
                == start + head + focusable_ids(kids),
        decreases node.children@.len() - i,
    {
        proof {
            lemma_exposed_first(node.children@, i as int);
            lemma_focusable_concat(
                walk(exposed(node.children@[i as int])),
                walk_all(all_exposed(node.children@.skip(i + 1))),
            );
            crate::lists::lemma_assoc(
                ints(out@),
                focusable_ids(walk(exposed(node.children@[i as int]))),
                focusable_ids(walk_all(all_exposed(node.children@.skip(i + 1)))),
            );
            assert(decreases_to!(*node => node.children@));
            assert(decreases_to!(node.children@ => node.children@[i as int]));
        }
        collect_focus_order(&node.children[i], out);
        i = i + 1;
    }
    proof {
        assert(node.children@.skip(i as int).len() == 0);
        assert(ints(out@) + Seq::<int>::empty() == ints(out@));
        crate::lists::lemma_assoc(start, head, focusable_ids(kids));
    }
}

fn count_nodes(node: &A11yNode) -> (r: usize)
    requires
        walk(exposed(*node)).len() <= u32::MAX,
    ensures
        r == walk(exposed(*node)).len(),
    decreases *node,
{
    let mut n: usize = 1;
    let mut i: usize = 0;
    assert(node.children@.skip(0) == node.children@);
    while i < node.children.len()
        invariant
            i <= node.children@.len(),
            walk(exposed(*node)).len() <= u32::MAX,
            n + walk_all(all_exposed(node.children@.skip(i as int))).len() == walk(
                exposed(*node),
            ).len(),
        decreases node.children@.len() - i,
    {
        proof {
            lemma_exposed_first(node.children@, i as int);
            assert(decreases_to!(*node => node.children@));
            assert(decreases_to!(node.children@ => node.children@[i as int]));
        }
        let below: usize = count_nodes(&node.children[i]);
        n = n + below;
        i = i + 1;
    }
    assert(node.children@.skip(i as int).len() == 0);
    n
}

fn find_node(node: &A11yNode, a11y_id: u32) -> (r: Option<&A11yNode>)
    ensures
        match r {
            Some(n) => with_id(walk(exposed(*node)), a11y_id as int) == Some(exposed(*n)),
            None => with_id(walk(exposed(*node)), a11y_id as int) is None,
        },
    decreases *node,
{
    let ghost id = a11y_id as int;
    let ghost kids = walk_all(all_exposed(node.children@));
    proof {
        lemma_with_id_concat(seq![exposed(*node)], kids, id);
        assert(seq![exposed(*node)].drop_first() == Seq::<Node>::empty());
        assert(with_id(Seq::<Node>::empty(), id) is None);
    }
    if node.a11y_id == a11y_id {
        return Some(node);
    }
    let mut i: usize = 0;
    assert(node.children@.skip(0) == node.children@);
    while i < node.children.len()
        invariant
            i <= node.children@.len(),
            id == a11y_id,
            with_id(walk_all(all_exposed(node.children@.skip(i as int))), id) == with_id(
                walk(exposed(*node)),
                id,
            ),
        decreases node.children@.len() - i,
    {
        proof {
            lemma_exposed_first(node.children@, i as int);
            lemma_with_id_concat(
                walk(exposed(node.children@[i as int])),
                walk_all(all_exposed(node.children@.skip(i + 1))),
                id,
            );
            assert(decreases_to!(*node => node.children@));
            assert(decreases_to!(node.children@ => node.children@[i as int]));
        }
        match find_node(&node.children[i], a11y_id) {
            Some(n) => {
                return Some(n);
            },
            None => {},
        }
        i = i + 1;
    }
    assert(node.children@.skip(i as int).len() == 0);
    None
}

proof fn lemma_preorder(w: Widget, id: int)
    ensures
        walk(tree_of(w, id)).len() == widgets(w),
        forall|k: int| 0 <= k < widgets(w) ==> (#[trigger] walk(tree_of(w, id))[k]).id == id + k,
    decreases w,
{
    lemma_walk_len(w, id);
    match w {
        Widget::Container { children, .. } => {
            lemma_preorder_all(children@, id + 1);
            lemma_walk_all_len(children@, id + 1);
            let below = walk_all(trees_of(children@, id + 1));
            assert forall|k: int| 0 <= k < widgets(w) implies (#[trigger] walk(
                tree_of(w, id),
            )[k]).id == id + k by {
                if k > 0 {
                    assert(walk(tree_of(w, id))[k] == below[k - 1]);
                }
            }
        },
        _ => {},
    }
}

proof fn lemma_preorder_all(s: Seq<Widget>, id: int)
    ensures
        walk_all(trees_of(s, id)).len() == widgets_in(s),
        forall|k: int|
            0 <= k < widgets_in(s) ==> (#[trigger] walk_all(trees_of(s, id))[k]).id == id + k,
    decreases s,
{
    lemma_walk_all_len(s, id);
    if s.len() > 0 {
        let n = widgets(s[0]);
        let first = walk(tree_of(s[0], id));
        let more = walk_all(trees_of(s.drop_first(), id + n));
        lemma_preorder(s[0], id);
        lemma_preorder_all(s.drop_first(), id + n);
        assert(trees_of(s, id).drop_first() == trees_of(s.drop_first(), id + n));
        assert(walk_all(trees_of(s, id)) == first + more);
        assert forall|k: int| 0 <= k < widgets_in(s) implies (#[trigger] walk_all(
            trees_of(s, id),
        )[k]).id == id + k by {
            if k < n {
                assert(walk_all(trees_of(s, id))[k] == first[k]);
            } else {
                assert(walk_all(trees_of(s, id))[k] == more[k - n]);
            }
        }
    }
}

/// The tree of a widget hierarchy has one node per widget, the nodes are numbered from 0 on in
/// depth-first pre-order, and every number finds its node.
pub proof fn law_every_id_finds_its_node(w: Widget, k: int)
    requires
        0 <= k < widgets(w),
    ensures
        walk(tree_of(w, 0)).len() == widgets(w),
        walk(tree_of(w, 0))[k].id == k,
        with_id(walk(tree_of(w, 0)), k) == Some(walk(tree_of(w, 0))[k]),
{
    lemma_preorder(w, 0);
    lemma_with_id_at(walk(tree_of(w, 0)), 0, k);
}

proof fn lemma_with_id_at(s: Seq<Node>, base: int, k: int)
    requires
        0 <= k < s.len(),
        forall|j: int| 0 <= j < s.len() ==> (#[trigger] s[j]).id == base + j,
    ensures
        with_id(s, base + k) == Some(s[k]),
    decreases s.len(),
{
    if k > 0 {
        let rest = s.drop_first();
        assert forall|j: int| 0 <= j < rest.len() implies (#[trigger] rest[j]).id == base + 1
            + j by {
            assert(rest[j] == s[j + 1]);
        }
        assert(s[0].id == base);
        lemma_with_id_at(rest, base + 1, k - 1);
    } else {
        assert(s[0].id == base);
    }
}

proof fn lemma_focus_increases(s: Seq<Node>, base: int)
    requires
        forall|j: int| 0 <= j < s.len() ==> (#[trigger] s[j]).id == base + j,
    ensures
        forall|i: int|
            0 <= i < focusable_ids(s).len() ==> base <= #[trigger] focusable_ids(s)[i] < base
                + s.len() && s[focusable_ids(s)[i] - base].focusable,
        forall|i: int, j: int|
            0 <= i < j < focusable_ids(s).len() ==> #[trigger] focusable_ids(s)[i]
                < #[trigger] focusable_ids(s)[j],
    decreases s.len(),
{
    if s.len() > 0 {
        let rest = s.drop_first();
        let ids = focusable_ids(s);
        let more = focusable_ids(rest);
        assert forall|j: int| 0 <= j < rest.len() implies (#[trigger] rest[j]).id == base + 1
            + j by {
            assert(rest[j] == s[j + 1]);
        }
        lemma_focus_increases(rest, base + 1);
        assert(s[0].id == base);
        let skip: int = if s[0].focusable && !s[0].disabled {
            1
        } else {
            0
        };
        assert forall|i: int| 0 <= i < ids.len() implies base <= #[trigger] ids[i] < base + s.len()
            && s[ids[i] - base].focusable by {
            if i >= skip {
                assert(ids[i] == more[i - skip]);
                assert(rest[more[i - skip] - base - 1] == s[ids[i] - base]);
            }
        }
        assert forall|i: int, j: int| 0 <= i < j < ids.len() implies #[trigger] ids[i]
            < #[trigger] ids[j] by {
            assert(ids[j] == more[j - skip]);
            if i >= skip {
                assert(ids[i] == more[i - skip]);
            }
        }
    }
}

/// The focus order lists nodes that can be focused, each once, in the order of the tree.
pub proof fn law_focus_order_follows_the_tree(w: Widget, i: int, j: int)
    requires
        0 <= i < j < focusable_ids(walk(tree_of(w, 0))).len(),
    ensures
        ({
            let nodes = walk(tree_of(w, 0));
            let ids = focusable_ids(nodes);
            &&& 0 <= ids[i] < ids[j] < nodes.len()
            &&& nodes[ids[i]].focusable
            &&& nodes[ids[j]].focusable
        }),
{
    lemma_preorder(w, 0);
    lemma_focus_increases(walk(tree_of(w, 0)), 0);
}

// ---------------------------------------------------------------------------
// Focus and keyboard navigation
// ---------------------------------------------------------------------------

/// A focus transition from one node to another.
#[derive(Clone, Copy, Debug, PartialEq, Eq, Structural)]
pub struct FocusChange {
    /// The previously focused node, if any.
    pub from: Option<u32>,
    /// The newly focused node.
    pub to: u32,
}

/// Tracks the focused node and moves focus through the Tab order.
#[derive(Clone, Debug, PartialEq, Eq)]
pub struct FocusManager {
    order: Vec<u32>,
    current: Option<usize>,
}

/// A Tab order and the position that holds the focus.
#[verifier::ext_equal]
pub struct Focus {
    /// The ids in Tab order.
    pub order: Seq<u32>,
    /// The focused position.
    pub at: Option<int>,
}

impl View for FocusManager {
    type V = Focus;

    closed spec fn view(&self) -> Focus {
        Focus {
            order: self.order@,
            at: match self.current {
                Some(i) => Some(i as int),
                None => None,
            },
        }
    }
}

impl Focus {
    /// Whether the focused position is one of the order.
    pub open spec fn valid(self) -> bool {
        self.at matches Some(i) ==> 0 <= i < self.order.len()
    }

    /// The focused id.
    pub open spec fn focused(self) -> Option<u32> {
        match self.at {
            Some(i) => Some(self.order[i]),
            None => None,
        }
    }

    /// The focus at another position.
    pub open spec fn moved(self, i: int) -> Focus {
        Focus { order: self.order, at: Some(i) }
    }

    /// The focus one position on: the first one if there was none, and behind the last one.
    pub open spec fn next(self) -> Focus {
        if self.order.len() == 0 {
            self
        } else {
            match self.at {
                Some(i) => self.moved((i + 1) % self.order.len() as int),
                None => self.moved(0),
            }
        }
    }

    /// The focus one position back: the last one if there was none, and before the first one.
    pub open spec fn prev(self) -> Focus {
        if self.order.len() == 0 {
            self
        } else {
            match self.at {
                Some(i) => self.moved((i - 1) % self.order.len() as int),
                None => self.moved(self.order.len() - 1),
            }
        }
    }

    /// The focus after `n` steps on.
    pub open spec fn advanced(self, n: nat) -> Focus
        decreases n,
    {
        if n == 0 {
            self
        } else {
            self.advanced((n - 1) as nat).next()
        }
    }

    /// The first position of an id.
    pub open spec fn position(self, id: u32) -> int
        decreases self.order.len(),
    {
        if self.order.len() == 0 || self.order[0] == id {
            0
        } else {
            1 + (Focus { order: self.order.drop_first(), at: None }).position(id)
        }
    }
}

/// Whether a transition tells a move of the focus.
pub open spec fn tells(change: Option<FocusChange>, before: Focus, after: Focus) -> bool {
    match change {
        Some(c) => after.focused() == Some(c.to) && c.from == before.focused(),
        None => false,
    }
}

/// Stepping on and back, or back and on, returns to the focused node.
pub proof fn law_next_and_prev_are_inverse(f: Focus)
    requires
        f.valid(),
        f.at is Some,
    ensures
        f.next().prev() == f,
        f.prev().next() == f,
{
    let n = f.order.len() as int;
    let i = f.at->Some_0;
    if i + 1 < n {
        vstd::arithmetic::div_mod::lemma_small_mod((i + 1) as nat, n as nat);
        vstd::arithmetic::div_mod::lemma_small_mod(i as nat, n as nat);
    } else {
        vstd::arithmetic::div_mod::lemma_mod_self_0(n);
        lemma_before_first(n);
    }
    if i > 0 {
        vstd::arithmetic::div_mod::lemma_small_mod((i - 1) as nat, n as nat);
        vstd::arithmetic::div_mod::lemma_small_mod(i as nat, n as nat);
    } else {
        lemma_before_first(n);
        vstd::arithmetic::div_mod::lemma_mod_self_0(n);
    }
}

proof fn lemma_before_first(n: int)
    requires
        n > 0,
    ensures
        (0 - 1) % n == n - 1,
{
    vstd::arithmetic::div_mod::lemma_mod_add_multiples_vanish(-1, n);
    vstd::arithmetic::div_mod::lemma_small_mod((n - 1) as nat, n as nat);
}

proof fn lemma_advanced(f: Focus, k: nat)
    requires
        f.valid(),
        f.at is Some,
    ensures
        f.advanced(k) == f.moved((f.at->Some_0 + k) % f.order.len() as int),
    decreases k,
{
    let n = f.order.len() as int;
    let i = f.at->Some_0;
    if k == 0 {
        vstd::arithmetic::div_mod::lemma_small_mod(i as nat, n as nat);
    } else {
        lemma_advanced(f, (k - 1) as nat);
        vstd::arithmetic::div_mod::lemma_add_mod_noop(i + k - 1, 1, n);
        vstd::arithmetic::div_mod::lemma_add_mod_noop((i + k - 1) % n, 1, n);
        vstd::arithmetic::div_mod::lemma_mod_twice(i + k - 1, n);
    }
}

/// Tab reaches every node of the order and comes back after as many steps as there are nodes.
pub proof fn law_tab_cycles_through_all(f: Focus, target: int)
    requires
        f.valid(),
        f.at is Some,
        0 <= target < f.order.len(),
    ensures
        f.advanced(f.order.len()) == f,
        exists|k: nat| k < f.order.len() && f.advanced(k) == f.moved(target),
{
    let n = f.order.len() as int;
    let i = f.at->Some_0;
    lemma_advanced(f, n as nat);
    vstd::arithmetic::div_mod::lemma_mod_add_multiples_vanish(i, n);
    vstd::arithmetic::div_mod::lemma_small_mod(i as nat, n as nat);
    let k: nat = if target >= i {
        (target - i) as nat
    } else {
        (target - i + n) as nat
    };
    lemma_advanced(f, k);
    vstd::arithmetic::div_mod::lemma_mod_add_multiples_vanish(target, n);
    vstd::arithmetic::div_mod::lemma_small_mod(target as nat, n as nat);
    assert(k < f.order.len() && f.advanced(k) == f.moved(target));
}

proof fn lemma_position(f: Focus, id: u32, k: int)
    requires
        0 <= k <= f.order.len(),
        forall|j: int| 0 <= j < k ==> f.order[j] != id,
        k < f.order.len() ==> f.order[k] == id,
    ensures
        f.position(id) == k,
    decreases f.order.len(),
{
    if k > 0 {
        let rest = Focus { order: f.order.drop_first(), at: None };
        assert forall|j: int| 0 <= j < k - 1 implies rest.order[j] != id by {
            assert(rest.order[j] == f.order[j + 1]);
        }
        assert(f.order[0] != id);
        lemma_position(rest, id, k - 1);
    }
}

impl FocusManager {
    /// Create a focus manager over a Tab order (typically [`A11yTree::focus_order`]).
    pub fn new(order: Vec<u32>) -> (r: Self)
        ensures
            r@ == (Focus { order: order@, at: None }),
            r@.valid(),
    {
        FocusManager { order, current: None }
    }

    /// The currently focused `a11y_id`, if any.
    pub fn current(&self) -> (r: Option<u32>)
        requires
            self@.valid(),
        ensures
            r == self@.focused(),
    {
        match self.current {
            Some(i) => Some(self.order[i]),
            None => None,
        }
    }

    /// Whether there is nothing focusable.
    pub fn is_empty(&self) -> (r: bool)
        ensures
            r == (self@.order.len() == 0),
    {
        self.order.len() == 0
    }

    /// Move focus to the next focusable node (wraps), returning the transition.
    pub fn focus_next(&mut self) -> (r: Option<FocusChange>)
        requires
            old(self)@.valid(),
        ensures
            final(self)@ == old(self)@.next(),
            final(self)@.valid(),
            old(self)@.order.len() == 0 ==> r is None,
            old(self)@.order.len() > 0 ==> tells(r, old(self)@, final(self)@),
    {
        if self.order.len() == 0 {
            return None;
        }
        let from = self.current();
        let ghost n = self.order@.len() as int;
        let next: usize = match self.current {
            Some(i) => {
                proof {
                    vstd::arithmetic::div_mod::lemma_mod_self_0(n);
                    if i + 1 < n {
                        vstd::arithmetic::div_mod::lemma_small_mod((i + 1) as nat, n as nat);
                    }
                }
                if self.order.len() - i <= 1 {
                    0
                } else {
                    i + 1
                }
            },
            None => 0,
        };
        self.current = Some(next);
        Some(FocusChange { from, to: self.order[next] })
    }

    /// Move focus to the previous focusable node (wraps).
    pub fn focus_prev(&mut self) -> (r: Option<FocusChange>)
        requires
            old(self)@.valid(),
        ensures
            final(self)@ == old(self)@.prev(),
            final(self)@.valid(),
            old(self)@.order.len() == 0 ==> r is None,
            old(self)@.order.len() > 0 ==> tells(r, old(self)@, final(self)@),
    {
        if self.order.len() == 0 {
            return None;
        }
        let from = self.current();
        let ghost n = self.order@.len() as int;
        let prev: usize = match self.current {
            Some(i) => {
                proof {
                    lemma_before_first(n);
                    if i > 0 {
                        vstd::arithmetic::div_mod::lemma_small_mod((i - 1) as nat, n as nat);
                    }
                }
                if i == 0 {
                    self.order.len() - 1
                } else {
                    i - 1
                }
            },
            None => self.order.len() - 1,
        };
        self.current = Some(prev);
        Some(FocusChange { from, to: self.order[prev] })
    }

    /// Focus a specific node by `a11y_id`, if it is in the Tab order.
    pub fn focus(&mut self, a11y_id: u32) -> (r: Option<FocusChange>)
        requires
            old(self)@.valid(),
        ensures
            final(self)@.valid(),
            !old(self)@.order.contains(a11y_id) ==> r is None && final(self)@ == old(self)@,
            old(self)@.order.contains(a11y_id) ==> r == Some(
                FocusChange { from: old(self)@.focused(), to: a11y_id },
            ) && final(self)@ == old(self)@.moved(old(self)@.position(a11y_id)),
    {
        let mut i: usize = 0;
        while i < self.order.len()
            invariant
                i <= self.order@.len(),
                self == old(self),
                self@.valid(),
                forall|j: int| 0 <= j < i ==> self.order@[j] != a11y_id,
            decreases self.order@.len() - i,
        {
            if self.order[i] == a11y_id {
                proof {
                    lemma_position(self@, a11y_id, i as int);
                }
                let from = self.current();
                self.current = Some(i);
                return Some(FocusChange { from, to: a11y_id });
            }
            i = i + 1;
        }
        None
    }

    /// Translate a keystroke into a focus move: Tab moves on, Shift+Tab moves back. Returns `None`
    /// for keys that do not affect focus.
    pub fn handle_key(&mut self, stroke: &KeyStroke) -> (r: Option<FocusChange>)
        requires
            old(self)@.valid(),
        ensures
            final(self)@.valid(),
            final(self)@ == (if stroke.key != Key::Tab {
                old(self)@
            } else if stroke.mods.shift {
                old(self)@.prev()
            } else {
                old(self)@.next()
            }),
            stroke.key != Key::Tab || old(self)@.order.len() == 0 ==> r is None,
            stroke.key == Key::Tab && old(self)@.order.len() > 0 ==> tells(
                r,
                old(self)@,
                final(self)@,
            ),
    {
        if stroke.key != Key::Tab {
            return None;
        }
        if stroke.mods.shift {
            self.focus_prev()
        } else {
            self.focus_next()
        }
    }
}

// ---------------------------------------------------------------------------
// Screen reader
// ---------------------------------------------------------------------------

/// A text behind a comma, or nothing if it is empty.
pub open spec fn clause(s: Seq<char>) -> Seq<char> {
    if s.len() == 0 {
        Seq::empty()
    } else {
        ", "@ + s
    }
}

/// The text a screen reader speaks for a node: `<role>[, <name>][, <value>][, dimmed]`.
pub open spec fn announcement(n: Node) -> Seq<char> {
    n.role.name() + clause(n.name) + (match n.value {
        Some(v) => clause(v),
        None => Seq::empty(),
    }) + (if n.disabled {
        ", dimmed"@
    } else {
        Seq::empty()
    })
}

/// The text a screen reader speaks for `node`.
///
/// Phrasing: `"<role>, <name>[, <value>][, dimmed]"`, e.g. `"button, Save"` or
/// `"text field, Email, you@host"`.
pub fn announce(node: &A11yNode) -> (r: String)
    ensures
        r@ == announcement(exposed(*node)),
{
    let mut out = node.role.spoken().to_owned();
    if !is_empty(node.name.as_str()) {
        out.push_str(", ");
        out.push_str(node.name.as_str());
    }
    assert(out@ =~= node.role.name() + clause(node.name@));
    match &node.value {
        Some(value) => {
            if !is_empty(value.as_str()) {
                out.push_str(", ");
                out.push_str(value.as_str());
            }
        },
        None => {},
    }
    if node.disabled {
        out.push_str(", dimmed");
    }
    assert(out@ =~= announcement(exposed(*node)));
    out
}

/// The synthesizer seam.
pub trait TtsEngine {
    /// Speak `text` (or enqueue it).
    fn speak(&mut self, text: &str);
}

/// Announces the focused widget through a [`TtsEngine`].
#[derive(Debug)]
pub struct ScreenReader<T: TtsEngine> {
    tts: T,
    enabled: bool,
}

impl<T: TtsEngine> ScreenReader<T> {
    /// The engine.
    pub closed spec fn voice(&self) -> T {
        self.tts
    }

    /// Whether the reader speaks.
    pub closed spec fn speaks(&self) -> bool {
        self.enabled
    }

    /// Create a screen reader (enabled) over a TTS engine.
    pub fn new(tts: T) -> (r: Self)
        ensures
            r.voice() == tts,
            r.speaks(),
    {
        ScreenReader { tts, enabled: true }
    }

    /// Enable or disable spoken output.
    pub fn set_enabled(&mut self, enabled: bool)
        ensures
            final(self).voice() == old(self).voice(),
            final(self).speaks() == enabled,
    {
        self.enabled = enabled;
    }

    /// Whether spoken output is enabled.
    pub fn is_enabled(&self) -> (r: bool)
        ensures
            r == self.speaks(),
    {
        self.enabled
    }

    /// Announce the node a [`FocusChange`] moved to, looking it up in `tree`.
    ///
    /// Returns the spoken text (also passed to the engine) so callers can route it elsewhere. A
    /// disabled reader returns `None` and speaks nothing.
    pub fn announce_focus(&mut self, tree: &A11yTree, change: &FocusChange) -> (r: Option<String>)
        ensures
            final(self).speaks() == old(self).speaks(),
            ({
                let node = with_id(walk(tree@), change.to as int);
                if old(self).speaks() && node is Some {
                    &&& r matches Some(text) && text@ == announcement(node->Some_0)
                    &&& exists|m: &mut T, t: &str|
                        {
                            &&& *m == old(self).voice()
                            &&& *final(m) == final(self).voice()
                            &&& t@ == announcement(node->Some_0)
                            &&& #[trigger] call_ensures(T::speak, (m, t), ())
                        }
                } else {
                    r is None && final(self).voice() == old(self).voice()
                }
            }),
    {
        if !self.enabled {
            return None;
        }
        match tree.node(change.to) {
            Some(node) => {
                let text = announce(node);
                self.tts.speak(text.as_str());
                Some(text)
            },
            None => None,
        }
    }

    /// Borrow the underlying engine.
    pub fn engine(&self) -> (r: &T)
        ensures
            *r == self.voice(),
    {
        &self.tts
    }
}

// ---------------------------------------------------------------------------
// Contrast and high-contrast theme
// ---------------------------------------------------------------------------

/// The brightness of an ARGB colour, from 0 (black) to 255 (white): its channels weighted by
/// Rec. 709.
pub open spec fn brightness(argb: u32) -> int {
    (2126 * ((argb / 0x10000) % 0x100) + 7152 * ((argb / 0x100) % 0x100) + 722 * (argb % 0x100))
        / 10000
}

/// The contrast of two colours in thousandths: the ratio of the brighter to the darker one, each
/// raised by 13.
pub open spec fn contrast(a: u32, b: u32) -> int {
    let x = brightness(a) + 13;
    let y = brightness(b) + 13;
    if x >= y {
        x * 1000 / y
    } else {
        y * 1000 / x
    }
}

/// Contrast does not depend on which colour is the text; it is at least 1:1, which any colour has
/// with itself, and at most that of white on black.
pub proof fn law_contrast_is_symmetric(a: u32, b: u32)
    ensures
        contrast(a, b) == contrast(b, a),
        1000 <= contrast(a, b) <= contrast(0xFFFF_FFFF, 0xFF00_0000),
        contrast(a, a) == 1000,
{
    let x = brightness(a) + 13;
    let y = brightness(b) + 13;
    assert(13 <= x <= 268 && 13 <= y <= 268);
    lemma_ratio(x, y);
    lemma_ratio(y, x);
    lemma_ratio(x, x);
    assert(brightness(0xFFFF_FFFF) == 255);
    assert(brightness(0xFF00_0000) == 0);
}

proof fn lemma_ratio(hi: int, lo: int)
    requires
        13 <= lo <= 268,
        13 <= hi <= 268,
    ensures
        hi >= lo ==> 1000 <= hi * 1000 / lo <= 20615,
        lo * 1000 / lo == 1000,
{
    assert(lo * 1000 / lo == 1000) by (nonlinear_arith)
        requires
            lo > 0,
    ;
    if hi >= lo {
        vstd::arithmetic::div_mod::lemma_div_is_ordered(lo * 1000, hi * 1000, lo);
        vstd::arithmetic::div_mod::lemma_div_is_ordered(hi * 1000, 268000, lo);
        vstd::arithmetic::div_mod::lemma_div_is_ordered_by_denominator(268000, 13, lo);
    }
}

/// Perceptual luminance of an ARGB color, 0 (black) … 255 (white).
///
/// An integer Rec. 709 weighting of the sRGB channels. The alpha channel is ignored.
pub fn luminance(argb: u32) -> (r: u32)
    ensures
        r == brightness(argb),
        r <= 255,
{
    let r: u32 = (argb >> 16) & 0xFF;
    let g: u32 = (argb >> 8) & 0xFF;
    let b: u32 = argb & 0xFF;
    assert((argb >> 16) & 0xFF == (argb / 0x10000) % 0x100) by (bit_vector);
    assert((argb >> 8) & 0xFF == (argb / 0x100) % 0x100) by (bit_vector);
    assert(argb & 0xFF == argb % 0x100) by (bit_vector);
    (2126 * r + 7152 * g + 722 * b) / 10000
}

/// Contrast ratio between `fg` and `bg`, in permille.
///
/// Uses [`luminance`] and the WCAG ratio shape `(Lmax + k) / (Lmin + k)` with an integer offset
/// (`k = 13`, i.e. `0.05 × 255`).
pub fn contrast_ratio_permille(fg: u32, bg: u32) -> (r: u32)
    ensures
        r == contrast(fg, bg),
{
    let a: u32 = luminance(fg) + 13;
    let b: u32 = luminance(bg) + 13;
    if a >= b {
        a * 1000 / b
    } else {
        b * 1000 / a
    }
}

/// Whether `fg` on `bg` meets the WCAG-AA-style normal-text threshold (≈4.5:1), per the
/// [`contrast_ratio_permille`] proxy.
pub fn meets_aa(fg: u32, bg: u32) -> (r: bool)
    ensures
        r == (contrast(fg, bg) >= 4500),
{
    contrast_ratio_permille(fg, bg) >= 4500
}

/// A maximal-contrast theme: pure-white text/borders on a near-black canvas with a high-visibility
/// accent.
pub fn high_contrast_theme() -> (r: Theme)
    ensures
        r == (Theme {
            bg_canvas: 0xFF00_0000,
            bg_surface: 0xFF10_1010,
            text: 0xFFFF_FFFF,
            accent: 0xFFFF_FF00,
            success: 0xFF00_FF00,
            border: 0xFFFF_FFFF,
            text_scale: 2,
            padding: 8,
            spacing: 8,
            radius: 0,
            elevation: Shadow { offset_y: 0, blur: 0, spread: 0, color: 0 },
        }),
        contrast(r.text, r.bg_canvas) >= 4500,
{
    assert(brightness(0xFFFF_FFFF) == 255);
    assert(brightness(0xFF00_0000) == 0);
    Theme {
        bg_canvas: 0xFF00_0000,
        bg_surface: 0xFF10_1010,
        text: 0xFFFF_FFFF,
        accent: 0xFFFF_FF00,
        success: 0xFF00_FF00,
        border: 0xFFFF_FFFF,
        text_scale: 2,
        padding: 8,
        spacing: 8,
        radius: 0,
        elevation: Shadow { offset_y: 0, blur: 0, spread: 0, color: 0 },
    }
}

// ---------------------------------------------------------------------------
// Global text scaling
// ---------------------------------------------------------------------------

/// A global text-scale factor in permille (`1000` = 100%, `1500` = 150%).
#[derive(Clone, Copy, Debug, PartialEq, Eq, Structural)]
pub struct TextScale(pub u32);

/// Smallest text scale (50%).
pub const MIN_TEXT_SCALE: u32 = 500;

/// Largest text scale (300%).
pub const MAX_TEXT_SCALE: u32 = 3000;

impl Default for TextScale {
    fn default() -> (r: Self)
        ensures
            r.0 == 1000,
    {
        TextScale(1000)
    }
}

impl TextScale {
    /// Construct a clamped text scale (permille).
    pub fn new(permille: u32) -> (r: Self)
        ensures
            r.0 == (if permille < MIN_TEXT_SCALE {
                MIN_TEXT_SCALE
            } else if permille > MAX_TEXT_SCALE {
                MAX_TEXT_SCALE
            } else {
                permille
            }),
            MIN_TEXT_SCALE <= r.0 <= MAX_TEXT_SCALE,
    {
        if permille < MIN_TEXT_SCALE {
            TextScale(MIN_TEXT_SCALE)
        } else if permille > MAX_TEXT_SCALE {
            TextScale(MAX_TEXT_SCALE)
        } else {
            TextScale(permille)
        }
    }

    /// 150%.
    pub fn large() -> (r: Self)
        ensures
            r.0 == 1500,
    {
        TextScale(1500)
    }

    /// Apply the scale to a base pixel size (rounded to nearest).
    pub fn apply(self, base_px: u32) -> (r: u32)
        requires
            base_px * self.0 + 500 <= u32::MAX,
        ensures
            r == (base_px * self.0 + 500) / 1000,
    {
        let scaled: u32 = base_px * self.0;
        (scaled + 500) / 1000
    }

    /// The scale as a whole percentage.
    pub fn percent(self) -> (r: u32)
        ensures
            r == self.0 / 10,
    {
        self.0 / 10
    }
}

// ---------------------------------------------------------------------------
// Notification integration
// ---------------------------------------------------------------------------

/// App id used for accessibility announcements posted to the notification daemon.
pub const A11Y_APP_ID: &'static str = "a11y";

/// Build a low-priority notification request carrying a screen-reader announcement.
pub fn announcement_request(id: u64, message: &str) -> (r: NotificationRequest)
    ensures
        r matches NotificationRequest::Post(n) && n@ == (crate::notification::NoteView {
            id,
            app: A11Y_APP_ID@,
            title: "Accessibility"@,
            body: message@,
            priority: Priority::Low,
            actions: Seq::empty(),
        }),
{
    let n = Notification {
        id,
        app: A11Y_APP_ID.to_owned(),
        title: "Accessibility".to_owned(),
        body: message.to_owned(),
        priority: Priority::Low,
        actions: Vec::new(),
    };
    assert(n@.actions =~= Seq::empty());
    NotificationRequest::Post(n)
}

/// A heap-erased [`TtsEngine`] for runtime backend selection.
pub type BoxedTts = Box<dyn TtsEngine>;

/// Phrases with commas between them.
pub open spec fn sentence(parts: Seq<Seq<char>>) -> Seq<char>
    decreases parts.len(),
{
    if parts.len() == 0 {
        Seq::empty()
    } else if parts.len() == 1 {
        parts[0]
    } else {
        sentence(parts.drop_last()) + ", "@ + parts.last()
    }
}

/// A phrase, or none where it would be empty.
pub open spec fn phrase(s: Option<Seq<char>>) -> Seq<Seq<char>> {
    match s {
        Some(t) => if t.len() > 0 {
            seq![t]
        } else {
            Seq::empty()
        },
        None => Seq::empty(),
    }
}

proof fn lemma_sentence_goes_on(parts: Seq<Seq<char>>, s: Option<Seq<char>>)
    requires
        parts.len() > 0,
    ensures
        sentence(parts + phrase(s)) == sentence(parts) + (match s {
            Some(t) => clause(t),
            None => Seq::empty(),
        }),
{
    let more = phrase(s);
    if more.len() == 0 {
        assert(parts + more =~= parts);
        assert(sentence(parts) + Seq::<char>::empty() =~= sentence(parts));
    } else {
        assert((parts + more).drop_last() =~= parts);
        assert((parts + more).last() == s->0);
        crate::lists::lemma_assoc(sentence(parts), ", "@, s->0);
    }
}

/// A node is announced by its role, its name, its value and whether it is dimmed, in this order, with
/// commas between them and without what is empty.
pub proof fn law_announcements_name_the_parts_in_order(n: Node)
    ensures
        announcement(n) == sentence(
            seq![n.role.name()] + phrase(Some(n.name)) + phrase(n.value) + phrase(
                if n.disabled {
                    Some("dimmed"@)
                } else {
                    None
                },
            ),
        ),
{
    reveal_strlit("dimmed");
    reveal_strlit(", ");
    reveal_strlit(", dimmed");
    assert(", dimmed"@ =~= ", "@ + "dimmed"@);
    let dimmed = if n.disabled {
        Some("dimmed"@)
    } else {
        None
    };
    let a = seq![n.role.name()];
    let b = a + phrase(Some(n.name));
    let c = b + phrase(n.value);
    assert(sentence(a) == n.role.name());
    lemma_sentence_goes_on(a, Some(n.name));
    lemma_sentence_goes_on(b, n.value);
    lemma_sentence_goes_on(c, dimmed);
}

proof fn lemma_trees_at(s: Seq<Widget>, id: int, k: int)
    requires
        0 <= k < s.len(),
    ensures
        trees_of(s, id).len() == s.len(),
        trees_of(s, id)[k] == tree_of(s[k], id + widgets_in(s.take(k))),
    decreases s.len(),
{
    let rest = s.drop_first();
    if rest.len() == 0 {
        assert(trees_of(rest, id + widgets(s[0])) =~= Seq::empty());
        assert(s.take(0) =~= Seq::empty());
    } else if k == 0 {
        lemma_trees_at(rest, id + widgets(s[0]), 0);
        assert(s.take(0) =~= Seq::empty());
    } else {
        lemma_trees_at(rest, id + widgets(s[0]), k - 1);
        assert(s.take(k)[0] == s[0]);
        assert(s.take(k).drop_first() =~= rest.take(k - 1));
    }
}

/// A widget is exposed with its text: a label or a button by name, an input field by value, a list by
/// its first item, and a container by its children in order.
pub proof fn law_widgets_are_exposed_with_their_text(w: Widget, id: int, k: int)
    ensures
        ({
            let n = tree_of(w, id);
            &&& n.id == id && !n.disabled
            &&& match w {
                Widget::Label { text, .. } => n.role == Role::Label && n.name == text@ && n.value
                    is None && !n.focusable && n.children.len() == 0,
                Widget::Button { id: wid, text, .. } => n.role == Role::Button && n.name == text@
                    && n.value is None && n.focusable && n.widget == Some(wid) && n.children.len()
                    == 0,
                Widget::TextInput { id: wid, text, .. } => n.role == Role::TextInput && n.name.len()
                    == 0 && n.value == Some(text@) && n.focusable && n.widget == Some(wid)
                    && n.children.len() == 0,
                Widget::List { items, .. } => n.role == Role::List && n.focusable
                    && n.children.len() == 0 && n.name == (if items@.len() > 0 {
                    items@[0]@
                } else {
                    "0 items"@
                }),
                Widget::Container { children, .. } => n.role == Role::Group && !n.focusable
                    && n.children.len() == children@.len() && (0 <= k < children@.len()
                    ==> n.children[k] == tree_of(
                    children@[k],
                    id + 1 + widgets_in(children@.take(k)),
                )),
            }
        }),
{
    match w {
        Widget::Container { children, .. } => {
            if children@.len() > 0 {
                lemma_trees_at(children@, id + 1, 0);
                if 0 <= k < children@.len() {
                    lemma_trees_at(children@, id + 1, k);
                }
            } else {
                assert(trees_of(children@, id + 1) =~= Seq::empty());
            }
        },
        _ => {},
    }
}

/// Luminance weighs the channels of a colour, green most and blue least, and a grey has its own
/// level.
pub proof fn law_luminance_weighs_the_channels(a: int, r: int, g: int, b: int)
    requires
        0 <= a <= 0xFF,
        0 <= r <= 0xFF,
        0 <= g <= 0xFF,
        0 <= b <= 0xFF,
    ensures
        ({
            let l = brightness((0x100_0000 * a + 0x1_0000 * r + 0x100 * g + b) as u32);
            &&& 10000 * l <= 2126 * r + 7152 * g + 722 * b < 10000 * (l + 1)
            &&& r == g == b ==> l == g
        }),
{
    let p = (0x100_0000 * a + 0x1_0000 * r + 0x100 * g + b) as u32;
    assert(p == 0x100_0000 * a + 0x1_0000 * r + 0x100 * g + b);
    assert(p / 0x10000 == 0x100 * a + r);
    assert((p / 0x10000) % 0x100 == r);
    assert(p / 0x100 == 0x1_0000 * a + 0x100 * r + g);
    assert((p / 0x100) % 0x100 == g);
    assert(p % 0x100 == b);
}

/// Contrast is the ratio of the lighter colour to the darker one in thousandths, rounded down, each
/// lifted by the same amount.
pub proof fn law_contrast_is_a_ratio(a: u32, b: u32)
    requires
        brightness(a) >= brightness(b),
    ensures
        contrast(a, b) * (brightness(b) + 13) <= 1000 * (brightness(a) + 13) < (contrast(a, b) + 1) * (
        brightness(b) + 13),
        contrast(a, b) >= 1000,
{
    let x = brightness(a) + 13;
    let y = brightness(b) + 13;
    assert(y >= 13);
    vstd::arithmetic::div_mod::lemma_fundamental_div_mod(x * 1000, y);
    let q = x * 1000 / y;
    let m = x * 1000 % y;
    assert(q * y <= 1000 * x < (q + 1) * y && q >= 1000) by (nonlinear_arith)
        requires
            x * 1000 == y * q + m,
            0 <= m < y,
            x >= y,
            y >= 13,
    ;
}

} // verus!
