use vstd::prelude::*;
use crate::layout::{Dimensions, LayoutVars, LayoutView, Point, WidgetLayout};

verus! {

/// A state that a widget is in, which its drawing and styling react to.
#[derive(Clone, Copy, Debug, PartialEq, Eq, Structural, Hash)]
pub enum Property {
    Inactive,
    Selected,
    Pressed,
    Activated,
    Hover,
    Focused,
}

/// A set of properties, each held once.
pub struct PropSet {
    items: Vec<Property>,
}

impl View for PropSet {
    type V = Set<Property>;

    closed spec fn view(&self) -> Set<Property> {
        self.items@.to_set()
    }
}

impl PropSet {
    #[verifier::type_invariant]
    closed spec fn inv(self) -> bool {
        self.items@.no_duplicates()
    }

    /// The empty set.
    pub fn new() -> (s: PropSet)
        ensures
            s@ == Set::<Property>::empty(),
    {
        let s = PropSet { items: Vec::new() };
        assert(s.items@.to_set() =~= Set::<Property>::empty());
        s
    }

    /// Whether `property` is held.
    pub fn contains(&self, property: Property) -> (b: bool)
        ensures
            b == self@.contains(property),
    {
        let n: usize = self.items.len();
        let mut i: usize = 0;
        while i < n
            invariant
                n == self.items@.len(),
                i <= n,
                forall|j: int| 0 <= j < i ==> self.items@[j] != property,
            decreases n - i,
        {
            if self.items[i] == property {
                assert(self.items@.to_set().contains(self.items@[i as int]));
                return true;
            }
            i = i + 1;
        }
        proof {
            if self.items@.to_set().contains(property) {
                let j = choose|j: int| 0 <= j < self.items@.len() && self.items@[j] == property;
                assert(self.items@[j] != property);
            }
        }
        false
    }

    /// Adds `property`; returns whether it was not held before.
    pub fn insert(&mut self, property: Property) -> (added: bool)
        ensures
            final(self)@ == old(self)@.insert(property),
            added == !old(self)@.contains(property),
    {
        proof { use_type_invariant(&*self); }
        if self.contains(property) {
            assert(self@.insert(property) =~= self@);
            false
        } else {
            let ghost before = self.items@;
            let mut items: Vec<Property> = Vec::new();
            std::mem::swap(&mut items, &mut self.items);
            items.push(property);
            proof {
                assert(items@ == before + seq![property]);
                Seq::<Property>::lemma_to_set_insert_commutes(before, property);
                assert(items@.no_duplicates()) by {
                    assert forall|a: int, b: int| 0 <= a < b < items@.len() implies items@[a] != items@[b] by {
                        if b == before.len() {
                            assert(before.to_set().contains(before[a]));
                        }
                    }
                }
            }
            self.items = items;
            true
        }
    }

    /// Removes `property`; returns whether it was held before.
    pub fn remove(&mut self, property: Property) -> (removed: bool)
        ensures
            final(self)@ == old(self)@.remove(property),
            removed == old(self)@.contains(property),
    {
        proof { use_type_invariant(&*self); }
        let n: usize = self.items.len();
        let mut i: usize = 0;
        while i < n
            invariant
                n == self.items@.len(),
                i <= n,
                self.items@ == old(self).items@,
                self.items@.no_duplicates(),
                forall|j: int| 0 <= j < i ==> self.items@[j] != property,
            decreases n - i,
        {
            if self.items[i] == property {
                let ghost before = self.items@;
                let mut items: Vec<Property> = Vec::new();
                std::mem::swap(&mut items, &mut self.items);
                items.remove(i);
                proof {
                    assert(items@ == before.remove(i as int));
                    assert(items@.no_duplicates()) by {
                        assert forall|a: int, b: int| 0 <= a < b < items@.len() implies items@[a] != items@[b] by {
                            let a0 = if a < i { a } else { a + 1 };
                            let b0 = if b < i { b } else { b + 1 };
                            assert(items@[a] == before[a0]);
                            assert(items@[b] == before[b0]);
                        }
                    }
                    assert(items@.to_set() =~= before.to_set().remove(property)) by {
                        assert forall|x: Property| before.to_set().remove(property).contains(x) implies items@.to_set().contains(x) by {
                            let k = choose|k: int| 0 <= k < before.len() && before[k] == x;
                            if k < i {
                                assert(items@[k] == x);
                            } else {
                                assert(k != i);
                                assert(items@[k - 1] == x);
                            }
                        }
                        assert forall|x: Property| items@.to_set().contains(x) implies before.to_set().remove(property).contains(x) by {
                            let k = choose|k: int| 0 <= k < items@.len() && items@[k] == x;
                            let k0 = if k < i { k } else { k + 1 };
                            assert(before[k0] == x);
                            assert(before.to_set().contains(x));
                            assert(x != property);
                        }
                    }
                    assert(before.to_set().contains(property));
                }
                self.items = items;
                return true;
            }
            i = i + 1;
        }
        proof {
            if self.items@.to_set().contains(property) {
                let j = choose|j: int| 0 <= j < self.items@.len() && self.items@[j] == property;
                assert(self.items@[j] != property);
            }
            assert(self@.remove(property) =~= self@);
        }
        false
    }

    /// Adds every property of `other`.
    pub fn extend(&mut self, other: &PropSet)
        ensures
            final(self)@ == old(self)@.union(other@),
    {
        let n: usize = other.items.len();
        let mut i: usize = 0;
        while i < n
            invariant
                n == other.items@.len(),
                i <= n,
                self@ == old(self)@.union(other.items@.take(i as int).to_set()),
            decreases n - i,
        {
            let p = other.items[i];
            self.insert(p);
            proof {
                Seq::<Property>::lemma_to_set_insert_commutes(other.items@.take(i as int), p);
                assert(other.items@.take(i as int + 1) == other.items@.take(i as int) + seq![p]);
                assert(self@ =~= old(self)@.union(other.items@.take(i as int + 1).to_set()));
            }
            i = i + 1;
        }
        assert(other.items@.take(n as int) == other.items@);
    }
}

impl Clone for PropSet {
    fn clone(&self) -> (res: Self)
        ensures
            res@ == self@,
    {
        proof { use_type_invariant(self); }
        PropSet { items: self.items.clone() }
    }
}


/// The number that identifies a widget in its tree.
#[derive(Clone, Copy, Debug, PartialEq, Eq, Structural, Hash)]
pub struct WidgetId(pub usize);

/// The type of an event, as a number that the user interface gives it.
#[derive(Clone, Copy, Debug, PartialEq, Eq, Structural, Hash)]
pub struct EventType(pub u64);

/// An event handler, as a number that the user interface gives it.
#[derive(Clone, Copy, Debug, PartialEq, Eq, Structural, Hash)]
pub struct HandlerId(pub usize);

/// A handle on one widget of a `WidgetTree`; two handles are equal when they
/// name the same widget.
#[derive(Clone, Copy, Debug, PartialEq, Eq, Structural, Hash)]
pub struct Widget {
    id: WidgetId,
}

/// A handle on a widget that is kept by a child to name its parent.
#[derive(Clone, Copy, Debug, PartialEq, Eq, Structural)]
pub struct WidgetWeak {
    id: WidgetId,
}

impl Widget {
    /// The position of this widget in its tree.
    pub closed spec fn index(self) -> int {
        self.id.0 as int
    }

    /// The number that identifies this widget.
    pub closed spec fn spec_id(self) -> WidgetId {
        self.id
    }
}

impl WidgetWeak {
    /// The widget that this handle names.
    pub closed spec fn target(self) -> Widget {
        Widget { id: self.id }
    }
}

/// A solved layout quantity, as reported to `update_bounds`.
#[derive(Clone, Copy, Debug, PartialEq, Eq, Structural)]
pub enum VarType {
    Left,
    Top,
    Right,
    Bottom,
    Width,
    Height,
}

/// A rectangle given by its top-left corner and its size.
#[derive(Clone, Copy, Debug, PartialEq)]
pub struct Rect<S> {
    pub origin: Point<S>,
    pub size: Dimensions<S>,
}

/// A color as its red, green, blue and alpha components.
#[derive(Clone, Copy, Debug, PartialEq)]
pub struct Color<S>(pub [S; 4]);

/// Where a notice goes: to the user interface as a whole, to one widget, to a
/// widget and every widget below it, or to a widget and then up through its parents.
#[derive(Clone, Copy, Debug, PartialEq, Eq, Structural)]
pub enum Target {
    Root,
    Widget(Widget),
    SubTree(Widget),
    BubbleUp(Widget),
}

/// What the tree tells the rest of the user interface about a change.
#[derive(Clone, Copy, Debug, PartialEq, Eq)]
pub enum Notice {
    /// A widget was created and should be known to the user interface.
    RegisterWidget(Widget),
    /// A widget's layout must be brought up to date.
    UpdateLayout(Widget),
    /// A widget was detached and should be forgotten.
    RemoveWidget(Widget),
    /// The widget's bounds changed.
    LayoutUpdated,
    /// The widget's state changed.
    StateUpdated,
    /// The widget's style must be recomputed.
    StyleUpdated,
    /// The widget received a child.
    WidgetAttached,
    /// The widget was removed from its parent.
    WidgetDetached,
    /// A child with the given layout variables was attached to the given parent.
    ChildAttached(WidgetId, LayoutVars),
    /// The given child was added to the widget's children.
    ChildAdded(Widget),
    /// The given child was removed from the widget's children.
    ChildRemoved(Widget),
}

/// A notice with the place it is sent to.
#[derive(Clone, Copy, Debug, PartialEq, Eq)]
pub struct Posted {
    pub target: Target,
    pub notice: Notice,
}

/// One widget of a tree.
pub struct WidgetNode<S> {
    name: String,
    props: PropSet,
    has_updated: bool,
    props_updated: bool,
    bounds: Rect<S>,
    debug_color: Option<Color<S>>,
    children: Vec<Widget>,
    parent: Option<WidgetWeak>,
    handlers: Vec<(EventType, HandlerId)>,
    layout: WidgetLayout<S>,
}

/// What one widget holds.
#[verifier::ext_equal]
pub struct NodeView<S> {
    pub name: Seq<char>,
    pub props: Set<Property>,
    pub has_updated: bool,
    pub props_updated: bool,
    pub bounds: Rect<S>,
    pub debug_color: Option<Color<S>>,
    pub children: Seq<Widget>,
    pub parent: Option<WidgetWeak>,
    pub handlers: Seq<(EventType, HandlerId)>,
    pub layout: LayoutView<S>,
}

impl<S> View for WidgetNode<S> {
    type V = NodeView<S>;

    closed spec fn view(&self) -> NodeView<S> {
        NodeView {
            name: self.name@,
            props: self.props@,
            has_updated: self.has_updated,
            props_updated: self.props_updated,
            bounds: self.bounds,
            debug_color: self.debug_color,
            children: self.children@,
            parent: self.parent,
            handlers: self.handlers@,
            layout: self.layout@,
        }
    }
}

/// All widgets of a user interface, each named by its position, and the notices
/// that the operations on them have raised and that are not yet taken.
pub struct WidgetTree<S> {
    nodes: Vec<WidgetNode<S>>,
    posted: Vec<Posted>,
    zero: S,
}

/// What a tree holds.
#[verifier::ext_equal]
pub struct TreeView<S> {
    pub nodes: Seq<NodeView<S>>,
    pub posted: Seq<Posted>,
    pub zero: S,
}

impl<S> View for WidgetTree<S> {
    type V = TreeView<S>;

    closed spec fn view(&self) -> TreeView<S> {
        TreeView { nodes: self.nodes@.map_values(|n: WidgetNode<S>| n@), posted: self.posted@, zero: self.zero }
    }
}

impl<S> TreeView<S> {
    /// Whether `w` names a widget of this tree.
    pub open spec fn contains(self, w: Widget) -> bool {
        0 <= w.index() < self.nodes.len()
    }

    /// The widget that `w` names.
    pub open spec fn node(self, w: Widget) -> NodeView<S> {
        self.nodes[w.index()]
    }

    /// Every child and every parent that a widget names is a widget of the tree.
    pub open spec fn wf(self) -> bool {
        &&& forall|i: int, j: int|
            #![trigger self.nodes[i].children[j]]
            0 <= i < self.nodes.len() && 0 <= j < self.nodes[i].children.len() ==> self.contains(
                self.nodes[i].children[j],
            )
        &&& forall|i: int|
            #![trigger self.nodes[i].parent]
            0 <= i < self.nodes.len() && self.nodes[i].parent is Some ==> self.contains(
                self.nodes[i].parent->0.target(),
            ) && self.nodes[i].parent->0.target().index() != i
    }

    /// Whether `child` is among the children of `parent`.
    pub open spec fn is_child(self, parent: Widget, child: Widget) -> bool {
        self.contains(parent) && self.node(parent).children.contains(child)
    }

    /// Whether `to` is reached from `from` by going down at most `k` times from a
    /// widget to one of its children.
    pub open spec fn reaches_within(self, from: Widget, to: Widget, k: nat) -> bool
        decreases k,
    {
        from == to || (k > 0 && exists|p: Widget|
            #[trigger] self.is_child(p, to) && self.reaches_within(from, p, (k - 1) as nat))
    }

    /// Whether `w` is `root` or lies below it.
    pub open spec fn in_subtree(self, root: Widget, w: Widget) -> bool {
        exists|k: nat| self.reaches_within(root, w, k)
    }

    /// Every child names as its parent the widget that lists it.
    pub open spec fn links_agree(self) -> bool {
        forall|w: Widget, j: int|
            #![trigger self.node(w).children[j]]
            self.contains(w) && 0 <= j < self.node(w).children.len() ==> self.node(self.node(w).children[j]).parent
                == Some(w.spec_downgrade())
    }

    /// No widget lies below one of its own children.
    pub open spec fn acyclic(self) -> bool {
        forall|w: Widget, c: Widget| #[trigger] self.is_child(w, c) ==> !self.in_subtree(c, w)
    }

    /// No widget lists a child twice.
    pub open spec fn children_distinct(self) -> bool {
        forall|w: Widget| #[trigger] self.contains(w) ==> self.node(w).children.no_duplicates()
    }

    /// The widgets form a forest: well formed, without cycles, with parent and
    /// children links that agree, and without a child listed twice.
    pub open spec fn is_forest(self) -> bool {
        self.wf() && self.links_agree() && self.acyclic() && self.children_distinct()
    }

    /// The same widgets, with `node` in the place of `w`.
    pub open spec fn with_node(self, w: Widget, node: NodeView<S>) -> TreeView<S> {
        TreeView { nodes: self.nodes.update(w.index(), node), ..self }
    }

    /// The same widgets, with `more` posted after the notices held so far.
    pub open spec fn with_posted(self, more: Seq<Posted>) -> TreeView<S> {
        TreeView { posted: self.posted + more, ..self }
    }
}

/// A child of a widget in the subtree of `root` is in that subtree.
proof fn lemma_subtree_step<S>(t: TreeView<S>, root: Widget, p: Widget, c: Widget)
    requires
        t.in_subtree(root, p),
        t.is_child(p, c),
    ensures
        t.in_subtree(root, c),
{
    let k = choose|k: nat| t.reaches_within(root, p, k);
    assert(t.reaches_within(root, c, k + 1));
}

/// A set of widgets that holds `root` and every child of each widget it holds
/// holds the whole subtree of `root`.
proof fn lemma_closed_holds_subtree<S>(t: TreeView<S>, root: Widget, held: spec_fn(Widget) -> bool, w: Widget, k: nat)
    requires
        held(root),
        forall|p: Widget, c: Widget| #[trigger] held(p) && #[trigger] t.is_child(p, c) ==> held(c),
        t.reaches_within(root, w, k),
    ensures
        held(w),
    decreases k,
{
    if w != root {
        let p = choose|p: Widget| #[trigger] t.is_child(p, w) && t.reaches_within(root, p, (k - 1) as nat);
        lemma_closed_holds_subtree(t, root, held, p, (k - 1) as nat);
    }
}

/// Distinct widgets of a tree of `n` widgets number at most `n`.
proof fn lemma_distinct_widgets_bounded(s: Seq<Widget>, n: nat)
    requires
        s.no_duplicates(),
        forall|k: int| 0 <= k < s.len() ==> 0 <= #[trigger] s[k].index() < n,
    ensures
        s.len() <= n,
{
    let f = |w: Widget| w.index();
    assert(vstd::relations::injective(f)) by {
        assert forall|a: Widget, b: Widget| #[trigger] f(a) == #[trigger] f(b) implies a == b by {
            assert(a.id == b.id);
        }
    }
    s.lemma_no_duplicates_injective(f);
    let ids = s.map_values(f);
    ids.unique_seq_to_set();
    vstd::set_lib::lemma_int_range(0, n as int);
    assert(ids.to_set().subset_of(vstd::set_lib::set_int_range(0, n as int))) by {
        assert forall|x: int| ids.to_set().contains(x) implies vstd::set_lib::set_int_range(0, n as int).contains(x) by {
            let k = choose|k: int| 0 <= k < ids.len() && ids[k] == x;
            assert(ids[k] == s[k].index());
        }
    }
    vstd::set_lib::lemma_len_subset(ids.to_set(), vstd::set_lib::set_int_range(0, n as int));
}

/// Whether `s` is the walk of the widgets below `w`, `w` included, that goes
/// down the tree: `w` first, then the walk of each of its children in turn.
pub open spec fn is_walk<S>(t: TreeView<S>, w: Widget, s: Seq<Widget>) -> bool
    decreases s.len(), 0nat,
{
    &&& s.len() > 0
    &&& s[0] == w
    &&& t.contains(w)
    &&& is_walk_list(t, t.node(w).children, s.drop_first())
}

/// Whether `s` is the walks of the widgets `cs` and of the widgets below them,
/// one after another in the order of `cs`.
pub open spec fn is_walk_list<S>(t: TreeView<S>, cs: Seq<Widget>, s: Seq<Widget>) -> bool
    decreases s.len(), 1nat,
{
    if cs.len() == 0 {
        s.len() == 0
    } else {
        exists|i: int|
            0 <= i < s.len() && is_walk(t, cs.last(), #[trigger] s.skip(i)) && is_walk_list(t, cs.drop_last(), s.take(i))
    }
}

/// Whether some widget of `seen` is at position `i`.
pub open spec fn seen_at(seen: Seq<Widget>, i: int) -> bool {
    exists|x: Widget| #[trigger] seen.contains(x) && x.index() == i
}

/// How many of the positions below `i` hold no widget of `seen`.
pub open spec fn unseen_below(seen: Seq<Widget>, i: nat) -> nat
    decreases i,
{
    if i == 0 {
        0
    } else {
        unseen_below(seen, (i - 1) as nat) + if seen_at(seen, i - 1) { 0nat } else { 1nat }
    }
}

/// Seeing more widgets leaves no more positions unseen.
pub proof fn lemma_unseen_mono(s1: Seq<Widget>, s2: Seq<Widget>, i: nat)
    requires
        forall|x: Widget| #[trigger] s1.contains(x) ==> s2.contains(x),
    ensures
        unseen_below(s2, i) <= unseen_below(s1, i),
    decreases i,
{
    if i > 0 {
        lemma_unseen_mono(s1, s2, (i - 1) as nat);
        if seen_at(s1, i - 1) {
            let x = choose|x: Widget| #[trigger] s1.contains(x) && x.index() == i - 1;
            assert(s2.contains(x));
        }
    }
}

/// Seeing one more widget, at a position below `i`, leaves fewer positions unseen.
pub proof fn lemma_unseen_strict(s1: Seq<Widget>, s2: Seq<Widget>, w: Widget, i: nat)
    requires
        forall|x: Widget| #[trigger] s1.contains(x) ==> s2.contains(x),
        s2.contains(w),
        !s1.contains(w),
        0 <= w.index() < i,
    ensures
        unseen_below(s2, i) < unseen_below(s1, i),
    decreases i,
{
    if w.index() == i - 1 {
        lemma_unseen_mono(s1, s2, (i - 1) as nat);
        assert(seen_at(s2, i - 1));
        if seen_at(s1, i - 1) {
            let x = choose|x: Widget| #[trigger] s1.contains(x) && x.index() == i - 1;
            assert(x == w);
        }
    } else {
        lemma_unseen_strict(s1, s2, w, (i - 1) as nat);
        if seen_at(s1, i - 1) {
            let x = choose|x: Widget| #[trigger] s1.contains(x) && x.index() == i - 1;
            assert(s2.contains(x));
        }
    }
}

/// The widgets that a walk down from `w` meets for the first time, after the
/// widgets of `seen`: nothing when `w` is not in the tree or already seen;
/// otherwise `w`, then what the walks down from its children meet, child after
/// child in the order of its children.
pub open spec fn walk_from<S>(t: TreeView<S>, w: Widget, seen: Seq<Widget>) -> Seq<Widget>
    decreases unseen_below(seen, t.nodes.len()), 0nat, 0int,
{
    if !t.contains(w) || seen.contains(w) {
        Seq::empty()
    } else {
        proof {
            assert forall|x: Widget| #[trigger] seen.contains(x) implies seen.push(w).contains(x) by {
                let k = choose|k: int| 0 <= k < seen.len() && seen[k] == x;
                assert(seen.push(w)[k] == x);
            }
            assert(seen.push(w)[seen.len() as int] == w);
            lemma_unseen_strict(seen, seen.push(w), w, t.nodes.len());
        }
        seq![w] + walk_children(t, t.node(w).children, 0, seen.push(w))
    }
}

/// What the walks down from `cs[j]`, `cs[j + 1]`, ... meet for the first time,
/// one after another, after the widgets of `seen`.
pub open spec fn walk_children<S>(t: TreeView<S>, cs: Seq<Widget>, j: int, seen: Seq<Widget>) -> Seq<Widget>
    decreases unseen_below(seen, t.nodes.len()), 1nat, cs.len() - j,
{
    if j < 0 || j >= cs.len() {
        Seq::empty()
    } else {
        let first = walk_from(t, cs[j], seen);
        proof {
            assert forall|x: Widget| #[trigger] seen.contains(x) implies (seen + first).contains(x) by {
                let k = choose|k: int| 0 <= k < seen.len() && seen[k] == x;
                assert((seen + first)[k] == x);
            }
            lemma_unseen_mono(seen, seen + first, t.nodes.len());
        }
        first + walk_children(t, cs, j + 1, seen + first)
    }
}

/// The walk down the subtree of `w`: each widget below `w` once, where the
/// walk first meets it, `w` first.
pub open spec fn subtree_walk<S>(t: TreeView<S>, w: Widget) -> Seq<Widget> {
    walk_from(t, w, Seq::empty())
}

/// In a forest, a widget other than `a` below `a` has its parent below `a` too.
proof fn lemma_forest_parent_below<S>(t: TreeView<S>, a: Widget, x: Widget, k: nat) -> (p: Widget)
    requires
        t.links_agree(),
        t.reaches_within(a, x, k),
        x != a,
    ensures
        t.is_child(p, x),
        k > 0,
        t.reaches_within(a, p, (k - 1) as nat),
        t.node(x).parent == Some(p.spec_downgrade()),
{
    let p = choose|p: Widget| #[trigger] t.is_child(p, x) && t.reaches_within(a, p, (k - 1) as nat);
    let j = choose|j: int| 0 <= j < t.node(p).children.len() && t.node(p).children[j] == x;
    assert(t.node(t.node(p).children[j]).parent == Some(p.spec_downgrade()));
    p
}

/// In a forest, two widgets above a third are one above the other.
proof fn lemma_forest_comparable<S>(t: TreeView<S>, a: Widget, b: Widget, x: Widget, k: nat)
    requires
        t.links_agree(),
        t.reaches_within(a, x, k),
        t.in_subtree(b, x),
    ensures
        t.in_subtree(a, b) || t.in_subtree(b, a),
    decreases k,
{
    if x == a {
    } else if x == b {
        assert(t.reaches_within(a, b, k));
    } else {
        let p = lemma_forest_parent_below(t, a, x, k);
        let kb = choose|kb: nat| t.reaches_within(b, x, kb);
        let q = lemma_forest_parent_below(t, b, x, kb);
        assert(p.spec_downgrade() == q.spec_downgrade());
        assert(p == q);
        lemma_forest_comparable(t, a, b, p, (k - 1) as nat);
    }
}

/// In a forest, two different children of one widget have no widget below both.
proof fn lemma_forest_siblings_disjoint<S>(t: TreeView<S>, w: Widget, c1: Widget, c2: Widget, x: Widget)
    requires
        t.is_forest(),
        t.is_child(w, c1),
        t.is_child(w, c2),
        c1 != c2,
        t.in_subtree(c1, x),
    ensures
        !t.in_subtree(c2, x),
{
    if t.in_subtree(c2, x) {
        let k = choose|k: nat| t.reaches_within(c1, x, k);
        lemma_forest_comparable(t, c1, c2, x, k);
        if t.in_subtree(c1, c2) {
            let k2 = choose|k2: nat| t.reaches_within(c1, c2, k2);
            let p = lemma_forest_parent_below(t, c1, c2, k2);
            let j = choose|j: int| 0 <= j < t.node(w).children.len() && t.node(w).children[j] == c2;
            assert(t.node(t.node(w).children[j]).parent == Some(w.spec_downgrade()));
            assert(p.spec_downgrade() == w.spec_downgrade());
            assert(p == w);
            assert(t.in_subtree(c1, w));
        } else {
            let k2 = choose|k2: nat| t.reaches_within(c2, c1, k2);
            let p = lemma_forest_parent_below(t, c2, c1, k2);
            let j = choose|j: int| 0 <= j < t.node(w).children.len() && t.node(w).children[j] == c1;
            assert(t.node(t.node(w).children[j]).parent == Some(w.spec_downgrade()));
            assert(p.spec_downgrade() == w.spec_downgrade());
            assert(p == w);
            assert(t.in_subtree(c2, w));
        }
    }
}

impl<S: Copy> WidgetTree<S> {
    /// An empty tree; `zero` is the scalar that the bounds of a new widget start at.
    pub fn new(zero: S) -> (tree: Self)
        ensures
            tree@.nodes == Seq::<NodeView<S>>::empty(),
            tree@.posted == Seq::<Posted>::empty(),
            tree@.zero == zero,
            tree@.wf(),
    {
        let tree = WidgetTree { nodes: Vec::new(), posted: Vec::new(), zero };
        assert(tree@.nodes =~= Seq::<NodeView<S>>::empty());
        tree
    }

    /// Walks down from `w`, which is not visited yet: appends `w`, then walks
    /// down from each child of `w` not visited by then, in the order of the
    /// children. Returns what it appended.
    fn walk(&self, w: Widget, order: &mut Vec<Widget>, visited: &mut Vec<bool>, Ghost(root): Ghost<Widget>) -> (added: Ghost<Seq<Widget>>)
        requires
            self@.wf(),
            self@.contains(w),
            self@.in_subtree(root, w),
            old(visited)@.len() == self@.nodes.len(),
            !old(visited)@[w.index()],
            forall|j: int| 0 <= j < self@.nodes.len() ==> (#[trigger] old(visited)@[j] <==> old(order)@.contains(Widget { id: WidgetId(j as usize) })),
            old(order)@.no_duplicates(),
            forall|k: int| 0 <= k < old(order)@.len() ==> self@.contains(#[trigger] old(order)@[k]) && self@.in_subtree(root, old(order)@[k]),
        ensures
            final(order)@ == old(order)@ + added@,
            added@.len() > 0,
            added@[0] == w,
            final(visited)@.len() == self@.nodes.len(),
            forall|j: int| 0 <= j < self@.nodes.len() ==> (#[trigger] final(visited)@[j] <==> final(order)@.contains(Widget { id: WidgetId(j as usize) })),
            final(order)@.no_duplicates(),
            forall|k: int| 0 <= k < final(order)@.len() ==> self@.contains(#[trigger] final(order)@[k]) && self@.in_subtree(root, final(order)@[k]),
            forall|x: Widget| #[trigger] added@.contains(x) ==> self@.in_subtree(w, x),
            forall|x: Widget, c: Widget| #[trigger] added@.contains(x) && #[trigger] self@.is_child(x, c) ==> final(order)@.contains(c),
            self@.is_forest() && (forall|x: Widget| #[trigger] old(order)@.contains(x) ==> !self@.in_subtree(w, x)) ==> is_walk(self@, w, added@),
            added@ == walk_from(self@, w, old(order)@),
        decreases self@.nodes.len() - old(order)@.len(),
    {
        let n: usize = self.nodes.len();
        proof { lemma_distinct_widgets_bounded(order@, n as nat); }
        let wi: usize = w.id.0;
        assert(!order@.contains(w));
        visited.set(wi, true);
        let ghost before = order@;
        order.push(w);
        proof {
            assert forall|j: int| 0 <= j < n implies (#[trigger] visited@[j] <==> order@.contains(Widget { id: WidgetId(j as usize) })) by {
                if j == wi {
                    assert(order@[before.len() as int] == w);
                } else {
                    if order@.contains(Widget { id: WidgetId(j as usize) }) {
                        let k = choose|k: int| 0 <= k < order@.len() && order@[k] == Widget { id: WidgetId(j as usize) };
                        if k < before.len() {
                            assert(before[k] == order@[k]);
                        }
                    }
                    if before.contains(Widget { id: WidgetId(j as usize) }) {
                        let k = choose|k: int| 0 <= k < before.len() && before[k] == Widget { id: WidgetId(j as usize) };
                        assert(order@[k] == before[k]);
                    }
                }
            }
            assert(order@.no_duplicates()) by {
                assert forall|a: int, b: int| 0 <= a < b < order@.len() implies order@[a] != order@[b] by {
                    if b == before.len() {
                        assert(before.contains(before[a]));
                    } else {
                        assert(order@[a] == before[a]);
                        assert(order@[b] == before[b]);
                    }
                }
            }
            assert(self@.reaches_within(w, w, 0));
            assert(order@ =~= old(order)@.push(w));
            assert(seq![w] + Seq::<Widget>::empty() + walk_children(self@, self@.node(w).children, 0, order@) =~= walk_from(self@, w, old(order)@));
        }
        let ghost mut rest: Seq<Widget> = Seq::empty();
        let ghost forest = self@.is_forest() && (forall|x: Widget| #[trigger] old(order)@.contains(x) ==> !self@.in_subtree(w, x));
        let m: usize = self.nodes[wi].children.len();
        let mut j: usize = 0;
        while j < m
            invariant
                n == self@.nodes.len(),
                self@.wf(),
                self@.contains(w),
                self@.in_subtree(root, w),
                wi == w.index(),
                m == self@.node(w).children.len(),
                j <= m,
                visited@.len() == n,
                forall|q: int| 0 <= q < n ==> (#[trigger] visited@[q] <==> order@.contains(Widget { id: WidgetId(q as usize) })),
                order@.no_duplicates(),
                forall|k: int| 0 <= k < order@.len() ==> self@.contains(#[trigger] order@[k]) && self@.in_subtree(root, order@[k]),
                order@ == old(order)@ + seq![w] + rest,
                forall|x: Widget| #[trigger] rest.contains(x) ==> self@.in_subtree(w, x),
                forall|q: int| 0 <= q < j ==> order@.contains(#[trigger] self@.node(w).children[q]),
                forall|x: Widget, c: Widget| #[trigger] rest.contains(x) && #[trigger] self@.is_child(x, c) ==> order@.contains(c),
                forest == (self@.is_forest() && (forall|x: Widget| #[trigger] old(order)@.contains(x) ==> !self@.in_subtree(w, x))),
                forest ==> is_walk_list(self@, self@.node(w).children.take(j as int), rest),
                forest ==> forall|x: Widget| #[trigger] rest.contains(x) ==> exists|q: int| 0 <= q < j && self@.in_subtree(#[trigger] self@.node(w).children[q], x),
                seq![w] + rest + walk_children(self@, self@.node(w).children, j as int, order@) == walk_from(self@, w, old(order)@),
            decreases m - j,
        {
            let c = self.nodes[wi].children[j];
            let ghost kids = self@.node(w).children;
            assert(kids[j as int] == c);
            assert(self@.is_child(w, c));
            proof {
                lemma_subtree_step(self@, root, w, c);
                assert(self@.reaches_within(w, w, 0));
                lemma_subtree_step(self@, w, w, c);
            }
            let ghost order_before = order@;
            let ghost rest_before = rest;
            let ghost first = walk_from(self@, c, order_before);
            assert(walk_children(self@, kids, j as int, order_before) == first + walk_children(self@, kids, j as int + 1, order_before + first));
            if !visited[c.id.0] {
                proof { lemma_distinct_widgets_bounded(order@, n as nat); }
                let added_c = self.walk(c, order, visited, Ghost(root));
                proof {
                    assert(order@[order_before.len() as int] == c);
                    assert(order@.contains(c));
                    rest = rest + added_c@;
                    assert(order@ == old(order)@ + seq![w] + rest);
                    assert(seq![w] + rest + walk_children(self@, kids, j as int + 1, order@) =~= seq![w] + rest_before + (first + walk_children(self@, kids, j as int + 1, order_before + first)));
                    assert forall|x: Widget| #[trigger] rest.contains(x) implies self@.in_subtree(w, x) by {
                        if !rest_before.contains(x) {
                            let k = choose|k: int| 0 <= k < rest.len() && rest[k] == x;
                            assert(added_c@[k - rest_before.len()] == x);
                            assert(added_c@.contains(x));
                            let kc = choose|kc: nat| self@.reaches_within(c, x, kc);
                            lemma_subtree_trans(self@, w, c, x, kc);
                        } else {
                        }
                    }
                    assert forall|x: Widget, cc: Widget| #[trigger] rest.contains(x) && #[trigger] self@.is_child(x, cc) implies order@.contains(cc) by {
                        if rest_before.contains(x) {
                            assert(order_before.contains(cc));
                            let k = choose|k: int| 0 <= k < order_before.len() && order_before[k] == cc;
                            assert(order@[k] == cc);
                        } else {
                            let k = choose|k: int| 0 <= k < rest.len() && rest[k] == x;
                            assert(added_c@[k - rest_before.len()] == x);
                            assert(added_c@.contains(x));
                        }
                    }
                    if forest {
                        assert(forall|x: Widget| #[trigger] order_before.contains(x) ==> !self@.in_subtree(c, x)) by {
                            assert forall|x: Widget| #[trigger] order_before.contains(x) implies !self@.in_subtree(c, x) by {
                                if self@.in_subtree(c, x) {
                                    let kc = choose|kc: nat| self@.reaches_within(c, x, kc);
                                    lemma_subtree_trans(self@, w, c, x, kc);
                                    let k = choose|k: int| 0 <= k < order_before.len() && order_before[k] == x;
                                    if k < old(order)@.len() {
                                        assert(old(order)@[k] == x);
                                        assert(old(order)@.contains(x));
                                    } else if k == old(order)@.len() {
                                        assert(x == w);
                                    } else {
                                        assert(rest_before[k - old(order)@.len() - 1] == x);
                                        assert(rest_before.contains(x));
                                        let q = choose|q: int| 0 <= q < j && self@.in_subtree(#[trigger] self@.node(w).children[q], x);
                                        assert(kids.no_duplicates());
                                        assert(kids[q] != c);
                                        assert(self@.is_child(w, kids[q]));
                                        lemma_forest_siblings_disjoint(self@, w, kids[q], c, x);
                                    }
                                }
                            }
                        }
                        assert(is_walk(self@, c, added_c@));
                        let k = added_c@.len() as int;
                        assert(rest.skip(rest.len() - k) =~= added_c@);
                        assert(rest.take(rest.len() - k) =~= rest_before);
                        assert(kids.take(j as int + 1).last() == c);
                        assert(kids.take(j as int + 1).drop_last() == kids.take(j as int));
                        let cs = kids.take(j as int + 1);
                        assert(cs.len() > 0);
                        assert(is_walk(self@, cs.last(), rest.skip(rest.len() - k)));
                        assert(is_walk_list(self@, cs.drop_last(), rest.take(rest.len() - k)));
                        assert(0 < k <= rest.len());
                        assert(is_walk_list(self@, cs, rest));
                        assert forall|x: Widget| #[trigger] rest.contains(x) implies exists|q: int| 0 <= q < j + 1 && self@.in_subtree(#[trigger] self@.node(w).children[q], x) by {
                            if !rest_before.contains(x) {
                                let k2 = choose|k2: int| 0 <= k2 < rest.len() && rest[k2] == x;
                                assert(added_c@[k2 - rest_before.len()] == x);
                                assert(added_c@.contains(x));
                                assert(self@.in_subtree(self@.node(w).children[j as int], x));
                            }
                        }
                    }
                }
            } else {
                proof {
                    assert(order@.contains(Widget { id: WidgetId(c.id.0) }));
                    assert(Widget { id: WidgetId(c.id.0) } == c);
                    assert(first == Seq::<Widget>::empty());
                    assert(order_before + first =~= order_before);
                    assert(first + walk_children(self@, kids, j as int + 1, order_before) =~= walk_children(self@, kids, j as int + 1, order_before));
                    if forest {
                        // a child is never visited before its turn in a forest
                        let k = choose|k: int| 0 <= k < order@.len() && order@[k] == Widget { id: WidgetId(c.id.0) };
                        assert(Widget { id: WidgetId(c.id.0) } == c);
                        assert(self@.reaches_within(c, c, 0));
                        if k < old(order)@.len() {
                            assert(old(order)@[k] == c);
                            assert(old(order)@.contains(c));
                            lemma_subtree_step(self@, w, w, c);
                        } else if k == old(order)@.len() {
                            assert(c == w);
                            assert(self@.in_subtree(c, w));
                        } else {
                            assert(rest[k - old(order)@.len() - 1] == c);
                            assert(rest.contains(c));
                            let q = choose|q: int| 0 <= q < j && self@.in_subtree(#[trigger] self@.node(w).children[q], c);
                            assert(kids.no_duplicates());
                            assert(kids[q] != c);
                            assert(self@.is_child(w, kids[q]));
                            lemma_forest_siblings_disjoint(self@, w, kids[q], c, c);
                        }
                        assert(false);
                    }
                }
            }
            proof {
                assert forall|q: int| 0 <= q < j + 1 implies order@.contains(#[trigger] self@.node(w).children[q]) by {
                    if q < j {
                        let k = choose|k: int| 0 <= k < order_before.len() && order_before[k] == kids[q];
                        assert(order@[k] == kids[q]);
                    } else {
                        assert(kids[q] == c);
                    }
                }
            }
            j = j + 1;
        }
        proof {
            assert(self@.node(w).children.take(m as int) == self@.node(w).children);
            assert(walk_children(self@, self@.node(w).children, m as int, order@) == Seq::<Widget>::empty());
            assert(seq![w] + rest =~= seq![w] + rest + Seq::<Widget>::empty());
            let added = seq![w] + rest;
            assert(order@ == old(order)@ + added);
            assert(added.drop_first() == rest);
            assert forall|x: Widget| #[trigger] added.contains(x) implies self@.in_subtree(w, x) by {
                assert(self@.reaches_within(w, w, 0));
                if x != w {
                    let k = choose|k: int| 0 <= k < added.len() && added[k] == x;
                    assert(rest[k - 1] == x);
                    assert(rest.contains(x));
                }
            }
            assert forall|x: Widget, c: Widget| #[trigger] added.contains(x) && #[trigger] self@.is_child(x, c) implies order@.contains(c) by {
                if x == w {
                    let q = choose|q: int| 0 <= q < self@.node(w).children.len() && self@.node(w).children[q] == c;
                    assert(order@.contains(self@.node(w).children[q]));
                } else {
                    let k = choose|k: int| 0 <= k < added.len() && added[k] == x;
                    assert(rest[k - 1] == x);
                    assert(rest.contains(x));
                }
            }
        }
        Ghost(seq![w] + rest)
    }

    /// The widgets of the subtree of `root`, each once, in the order of the walk
    /// down from `root`.
    fn descendants(&self, root: Widget) -> (order: Vec<Widget>)
        requires
            self@.wf(),
            self@.contains(root),
        ensures
            order@.no_duplicates(),
            order@.len() > 0 && order@[0] == root,
            forall|w: Widget| #[trigger] order@.contains(w) <==> self@.in_subtree(root, w),
            forall|k: int| 0 <= k < order@.len() ==> self@.contains(#[trigger] order@[k]),
            self@.is_forest() ==> is_walk(self@, root, order@),
            order@ == subtree_walk(self@, root),
    {
        let n: usize = self.nodes.len();
        let mut visited: Vec<bool> = Vec::new();
        let mut i: usize = 0;
        while i < n
            invariant
                i <= n,
                visited@.len() == i,
                forall|j: int| 0 <= j < i ==> !visited@[j],
            decreases n - i,
        {
            visited.push(false);
            i = i + 1;
        }
        let mut order: Vec<Widget> = Vec::new();
        proof {
            assert(self@.reaches_within(root, root, 0));
            assert forall|j: int| 0 <= j < n implies (#[trigger] visited@[j] <==> order@.contains(Widget { id: WidgetId(j as usize) })) by {
                if order@.contains(Widget { id: WidgetId(j as usize) }) {
                    let k = choose|k: int| 0 <= k < order@.len() && order@[k] == Widget { id: WidgetId(j as usize) };
                }
            }
        }
        let ghost none = order@;
        assert(none =~= Seq::<Widget>::empty());
        let added = self.walk(root, &mut order, &mut visited, Ghost(root));
        proof {
            assert(order@ =~= added@);
            assert forall|w: Widget| #[trigger] order@.contains(w) <==> self@.in_subtree(root, w) by {
                if self@.in_subtree(root, w) {
                    let k = choose|k: nat| self@.reaches_within(root, w, k);
                    let held = |x: Widget| order@.contains(x);
                    assert forall|p: Widget, c: Widget| #[trigger] held(p) && #[trigger] self@.is_child(p, c) implies held(c) by {
                        assert(added@.contains(p) && self@.is_child(p, c));
                    }
                    assert(held(root)) by {
                        assert(order@[0] == root);
                    }
                    lemma_closed_holds_subtree(self@, root, held, w, k);
                }
                if order@.contains(w) {
                    let k = choose|k: int| 0 <= k < order@.len() && order@[k] == w;
                    assert(self@.in_subtree(root, order@[k]));
                }
            }
        }
        order
    }
}


/// The notices that ask each widget of `order`, in turn, to recompute its style
/// and to take note of its new state.
pub open spec fn restyle_notices(order: Seq<Widget>) -> Seq<Posted>
    decreases order.len(),
{
    if order.len() == 0 {
        Seq::empty()
    } else {
        restyle_notices(order.drop_last()) + seq![
            Posted { target: Target::Widget(order.last()), notice: Notice::StyleUpdated },
            Posted { target: Target::Widget(order.last()), notice: Notice::StateUpdated },
        ]
    }
}

/// A widget after it gains `property`: when it did not hold it, its style is
/// brought up to date, which marks it updated and clears the pending property change.
pub open spec fn with_property_added<S>(node: NodeView<S>, property: Property) -> NodeView<S> {
    if node.props.contains(property) {
        node
    } else {
        NodeView { props: node.props.insert(property), has_updated: true, props_updated: false, ..node }
    }
}

/// A widget after it loses `property`: when it held it, its style is brought up
/// to date, which marks it updated and clears the pending property change.
pub open spec fn with_property_removed<S>(node: NodeView<S>, property: Property) -> NodeView<S> {
    if node.props.contains(property) {
        NodeView { props: node.props.remove(property), has_updated: true, props_updated: false, ..node }
    } else {
        node
    }
}

impl<S: Copy> WidgetTree<S> {
    /// Hands out the notices posted so far, oldest first, and forgets them.
    pub fn take_notices(&mut self) -> (notices: Vec<Posted>)
        ensures
            notices@ == old(self)@.posted,
            final(self)@ == (TreeView { posted: Seq::empty(), ..old(self)@ }),
    {
        let mut notices: Vec<Posted> = Vec::new();
        std::mem::swap(&mut notices, &mut self.posted);
        assert(self@.nodes =~= old(self)@.nodes);
        notices
    }

    fn post(&mut self, target: Target, notice: Notice)
        ensures
            final(self)@ == old(self)@.with_posted(seq![Posted { target, notice }]),
    {
        self.posted.push(Posted { target, notice });
        assert(self@.nodes =~= old(self)@.nodes);
    }

    /// Brings the style of `w` up to date when it or its properties changed.
    fn update_draw_state(&mut self, w: Widget)
        requires
            old(self)@.contains(w),
        ensures
            old(self)@.node(w).has_updated || old(self)@.node(w).props_updated ==> final(self)@ == old(self)@.with_node(
                w,
                NodeView { has_updated: true, props_updated: false, ..old(self)@.node(w) },
            ).with_posted(restyle_notices(seq![w])),
            !(old(self)@.node(w).has_updated || old(self)@.node(w).props_updated) ==> final(self)@ == old(self)@,
    {
        let i: usize = w.id.0;
        if self.nodes[i].has_updated || self.nodes[i].props_updated {
            self.post(Target::Widget(w), Notice::StyleUpdated);
            self.post(Target::Widget(w), Notice::StateUpdated);
            self.nodes[i].has_updated = true;
            self.nodes[i].props_updated = false;
            proof {
                assert(seq![w].drop_last() =~= Seq::<Widget>::empty());
                assert(restyle_notices(Seq::<Widget>::empty()) =~= Seq::<Posted>::empty());
                assert(restyle_notices(seq![w]) =~= seq![
                    Posted { target: Target::Widget(w), notice: Notice::StyleUpdated },
                    Posted { target: Target::Widget(w), notice: Notice::StateUpdated },
                ]);
                assert(self@.posted =~= old(self)@.posted + restyle_notices(seq![w]));
                assert(self@.nodes =~= old(self)@.nodes.update(w.index(), NodeView { has_updated: true, props_updated: false, ..old(self)@.node(w) }));
            }
        }
    }
}


/// `restyle_notices` of a sequence extended by one widget.
proof fn lemma_restyle_push(order: Seq<Widget>, w: Widget)
    ensures
        restyle_notices(order.push(w)) == restyle_notices(order) + restyle_notices(seq![w]),
{
    assert(order.push(w).drop_last() =~= order);
    assert(seq![w].drop_last() =~= Seq::<Widget>::empty());
    assert(restyle_notices(Seq::<Widget>::empty()) =~= Seq::<Posted>::empty());
    assert(restyle_notices(seq![w]) =~= Seq::<Posted>::empty() + restyle_notices(seq![w]));
}


/// Whether adding (or removing) `property` changes the properties of `node`.
pub open spec fn changes_property<S>(node: NodeView<S>, property: Property, adding: bool) -> bool {
    if adding {
        !node.props.contains(property)
    } else {
        node.props.contains(property)
    }
}

/// The widgets of `walk`, in its order, whose properties adding (or removing)
/// `property` changes.
pub open spec fn restyled<S>(t: TreeView<S>, walk: Seq<Widget>, property: Property, adding: bool) -> Seq<Widget> {
    walk.filter(|x: Widget| changes_property(t.node(x), property, adding))
}

/// A widget after it gains (or loses) `property`.
pub open spec fn with_property_changed<S>(node: NodeView<S>, property: Property, adding: bool) -> NodeView<S> {
    if adding {
        with_property_added(node, property)
    } else {
        with_property_removed(node, property)
    }
}

impl Widget {
    /// Gives `property` to (when `adding`), or takes it from, this widget and every
    /// widget below it; each widget whose properties change has its style brought up to date.
    fn change_prop<S: Copy>(&mut self, tree: &mut WidgetTree<S>, property: Property, adding: bool)
        requires
            old(tree)@.wf(),
            old(tree)@.contains(*old(self)),
        ensures
            *final(self) == *old(self),
            final(tree)@.wf(),
            final(tree)@.zero == old(tree)@.zero,
            final(tree)@.nodes.len() == old(tree)@.nodes.len(),
            forall|w: Widget|
                #![trigger final(tree)@.node(w)]
                old(tree)@.contains(w) ==> final(tree)@.node(w) == if old(tree)@.in_subtree(*old(self), w) {
                    with_property_changed(old(tree)@.node(w), property, adding)
                } else {
                    old(tree)@.node(w)
                },
            subtree_walk(old(tree)@, *old(self)).no_duplicates(),
            forall|w: Widget| #[trigger] subtree_walk(old(tree)@, *old(self)).contains(w) <==> old(tree)@.in_subtree(*old(self), w),
            old(tree)@.is_forest() ==> is_walk(old(tree)@, *old(self), subtree_walk(old(tree)@, *old(self))),
            final(tree)@.posted == old(tree)@.posted + restyle_notices(restyled(old(tree)@, subtree_walk(old(tree)@, *old(self)), property, adding)),
    {
        let order = tree.descendants(*self);
        let ghost start = tree@;
        let ghost mut changed: Seq<Widget> = Seq::empty();
        proof {
            assert(order@.take(0) =~= Seq::<Widget>::empty());
            reveal_with_fuel(Seq::filter, 1);
        }
        let n: usize = order.len();
        let mut k: usize = 0;
        while k < n
            invariant
                n == order@.len(),
                k <= n,
                order@.no_duplicates(),
                forall|w: Widget| #[trigger] order@.contains(w) <==> start.in_subtree(*self, w),
                forall|j: int| 0 <= j < order@.len() ==> start.contains(#[trigger] order@[j]),
                start.wf(),
                tree@.wf(),
                tree@.zero == start.zero,
                tree@.nodes.len() == start.nodes.len(),
                forall|w: Widget|
                    #![trigger tree@.node(w)]
                    start.contains(w) ==> tree@.node(w) == if order@.take(k as int).contains(w) {
                        with_property_changed(start.node(w), property, adding)
                    } else {
                        start.node(w)
                    },
                changed.no_duplicates(),
                forall|w: Widget| #[trigger] changed.contains(w) <==> order@.take(k as int).contains(w) && changes_property(start.node(w), property, adding),
                tree@.posted == start.posted + restyle_notices(changed),
                changed == restyled(start, order@.take(k as int), property, adding),
            decreases n - k,
        {
            let w = order[k];
            let i: usize = w.id.0;
            let ghost before = tree@;
            let ghost changed0 = changed;
            assert(!order@.take(k as int).contains(w)) by {
                if order@.take(k as int).contains(w) {
                    let j = choose|j: int| 0 <= j < k && order@.take(k as int)[j] == w;
                    assert(order@[j] == order@[k as int]);
                }
            }
            assert(before.node(w) == start.node(w));
            let added = if adding {
                tree.nodes[i].props.insert(property)
            } else {
                tree.nodes[i].props.remove(property)
            };
            let ghost inserted = NodeView {
                props: if adding {
                    before.node(w).props.insert(property)
                } else {
                    before.node(w).props.remove(property)
                },
                ..before.node(w)
            };
            assert(tree@.nodes =~= before.nodes.update(w.index(), inserted));
            assert(added == changes_property(start.node(w), property, adding));
            if added {
                tree.nodes[i].props_updated = true;
                assert(tree@.nodes =~= before.nodes.update(w.index(), NodeView { props_updated: true, ..inserted }));
                assert(tree@.node(w).props_updated);
                tree.update_draw_state(w);
                proof {
                    lemma_restyle_push(changed, w);
                    changed = changed.push(w);
                }
            } else {
                assert(inserted =~= start.node(w));
            }
            proof {
                let pre = order@.take(k as int);
                let post = order@.take(k as int + 1);
                assert(post == pre.push(w));
                assert(post.drop_last() == pre);
                assert(post.last() == w);
                assert(changed0 == restyled(start, pre, property, adding));
                assert(changed == restyled(start, post, property, adding)) by {
                    let pred = |x: Widget| changes_property(start.node(x), property, adding);
                    assert(restyled(start, post, property, adding) == post.filter(pred));
                    assert(restyled(start, pre, property, adding) == pre.filter(pred));
                    assert(pred(w) == added);
                    pre.lemma_filter_push(w, pred);
                    if added {
                        assert(changed == changed0.push(w));
                    } else {
                        assert(changed == changed0);
                    }
                }
                assert(tree@.nodes =~= before.nodes.update(w.index(), with_property_changed(start.node(w), property, adding)));
                assert forall|x: Widget| #[trigger] changed.contains(x) <==> post.contains(x) && changes_property(start.node(x), property, adding) by {
                    if x != w {
                        if post.contains(x) {
                            let j = choose|j: int| 0 <= j < post.len() && post[j] == x;
                            assert(pre[j] == x);
                        }
                        if pre.contains(x) {
                            let j = choose|j: int| 0 <= j < pre.len() && pre[j] == x;
                            assert(post[j] == x);
                        }
                        if added {
                            assert(changed == changed0.push(w));
                            if changed.contains(x) {
                                let j = choose|j: int| 0 <= j < changed.len() && changed[j] == x;
                                assert(changed0[j] == x);
                            }
                            if changed0.contains(x) {
                                let j = choose|j: int| 0 <= j < changed0.len() && changed0[j] == x;
                                assert(changed[j] == x);
                            }
                        }
                    } else {
                        assert(post[k as int] == w);
                        if added {
                            assert(changed[changed.len() - 1] == w);
                        }
                    }
                }
                assert forall|x: Widget|
                    #![trigger tree@.node(x)]
                    start.contains(x) implies tree@.node(x) == if post.contains(x) {
                        with_property_changed(start.node(x), property, adding)
                    } else {
                        start.node(x)
                    } by {
                    if x != w {
                        assert(x.index() != w.index());
                        assert(tree@.node(x) == before.node(x));
                        if post.contains(x) {
                            let j = choose|j: int| 0 <= j < post.len() && post[j] == x;
                            assert(pre[j] == x);
                        }
                        if pre.contains(x) {
                            let j = choose|j: int| 0 <= j < pre.len() && pre[j] == x;
                            assert(post[j] == x);
                        }
                    } else {
                        assert(post[k as int] == w);
                    }
                }
                if added {
                    assert(!changed0.contains(w));
                    assert forall|a: int, b: int| 0 <= a < b < changed.len() implies changed[a] != changed[b] by {
                        if b == changed0.len() {
                            assert(changed0.contains(changed0[a]));
                        } else {
                            assert(changed[a] == changed0[a] && changed[b] == changed0[b]);
                        }
                    }
                }
                assert(changed.no_duplicates());
            }
            k = k + 1;
        }
        assert(order@.take(n as int) == order@);
        assert(start == old(tree)@);
        assert(changed == restyled(old(tree)@, order@, property, adding));
    }

    /// Gives `property` to this widget and to every widget below it; each widget
    /// that did not hold it has its style brought up to date, in the order of the
    /// walk down from this widget: each widget before the widgets below it, and
    /// the subtrees of its children one after another in the order of its
    /// children; a widget met a second time is passed over.
    pub fn add_prop<S: Copy>(&mut self, tree: &mut WidgetTree<S>, property: Property)
        requires
            old(tree)@.wf(),
            old(tree)@.contains(*old(self)),
        ensures
            *final(self) == *old(self),
            final(tree)@.wf(),
            final(tree)@.zero == old(tree)@.zero,
            final(tree)@.nodes.len() == old(tree)@.nodes.len(),
            forall|w: Widget|
                #![trigger final(tree)@.node(w)]
                old(tree)@.contains(w) ==> final(tree)@.node(w) == if old(tree)@.in_subtree(*old(self), w) {
                    with_property_added(old(tree)@.node(w), property)
                } else {
                    old(tree)@.node(w)
                },
            final(tree)@.node(*old(self)) == with_property_added(old(tree)@.node(*old(self)), property),
            subtree_walk(old(tree)@, *old(self)).no_duplicates(),
            forall|w: Widget| #[trigger] subtree_walk(old(tree)@, *old(self)).contains(w) <==> old(tree)@.in_subtree(*old(self), w),
            old(tree)@.is_forest() ==> is_walk(old(tree)@, *old(self), subtree_walk(old(tree)@, *old(self))),
            final(tree)@.posted == old(tree)@.posted + restyle_notices(restyled(old(tree)@, subtree_walk(old(tree)@, *old(self)), property, true)),
    {
        proof { assert(old(tree)@.reaches_within(*old(self), *old(self), 0)); }
        self.change_prop(tree, property, true);
    }

    /// Takes `property` from this widget and from every widget below it; each
    /// widget that held it has its style brought up to date, in the order of the
    /// walk down from this widget (as for `add_prop`).
    pub fn remove_prop<S: Copy>(&mut self, tree: &mut WidgetTree<S>, property: Property)
        requires
            old(tree)@.wf(),
            old(tree)@.contains(*old(self)),
        ensures
            *final(self) == *old(self),
            final(tree)@.wf(),
            final(tree)@.zero == old(tree)@.zero,
            final(tree)@.nodes.len() == old(tree)@.nodes.len(),
            forall|w: Widget|
                #![trigger final(tree)@.node(w)]
                old(tree)@.contains(w) ==> final(tree)@.node(w) == if old(tree)@.in_subtree(*old(self), w) {
                    with_property_removed(old(tree)@.node(w), property)
                } else {
                    old(tree)@.node(w)
                },
            final(tree)@.node(*old(self)) == with_property_removed(old(tree)@.node(*old(self)), property),
            subtree_walk(old(tree)@, *old(self)).no_duplicates(),
            forall|w: Widget| #[trigger] subtree_walk(old(tree)@, *old(self)).contains(w) <==> old(tree)@.in_subtree(*old(self), w),
            old(tree)@.is_forest() ==> is_walk(old(tree)@, *old(self), subtree_walk(old(tree)@, *old(self))),
            final(tree)@.posted == old(tree)@.posted + restyle_notices(restyled(old(tree)@, subtree_walk(old(tree)@, *old(self)), property, false)),
    {
        proof { assert(old(tree)@.reaches_within(*old(self), *old(self), 0)); }
        self.change_prop(tree, property, false);
    }
}


/// A widget as it is created: with the given name, no properties, marked
/// updated and with a property change pending, with zero bounds and no debug
/// color, without children, without parent, without event handlers, and with
/// the given layout.
pub open spec fn fresh_node<S>(name: Seq<char>, zero: S, layout: LayoutView<S>) -> NodeView<S> {
    NodeView {
        name,
        props: Set::empty(),
        has_updated: true,
        props_updated: true,
        bounds: Rect { origin: Point { x: zero, y: zero }, size: Dimensions { width: zero, height: zero } },
        debug_color: None,
        children: Seq::empty(),
        parent: None,
        handlers: Seq::empty(),
        layout,
    }
}

impl Widget {
    /// Creates a widget with the given name in `tree` and asks the user
    /// interface to register it.
    pub fn new<S: Copy>(tree: &mut WidgetTree<S>, name: &str) -> (widget: Widget)
        requires
            old(tree)@.wf(),
        ensures
            widget.index() == old(tree)@.nodes.len(),
            forall|w: Widget| old(tree)@.contains(w) ==> w != widget,
            final(tree)@ == (TreeView {
                nodes: old(tree)@.nodes.push(fresh_node(name@, old(tree)@.zero, final(tree)@.node(widget).layout)),
                posted: old(tree)@.posted.push(Posted { target: Target::Root, notice: Notice::RegisterWidget(widget) }),
                zero: old(tree)@.zero,
            }),
            final(tree)@.node(widget).props == Set::<Property>::empty(),
            final(tree)@.node(widget).handlers == Seq::<(EventType, HandlerId)>::empty(),
            final(tree)@.node(widget).children == Seq::<Widget>::empty(),
            final(tree)@.node(widget).parent is None,
            final(tree)@.node(widget).layout.constraints == Seq::<crate::layout::LayoutConstraint<S>>::empty(),
            !final(tree)@.node(widget).layout.scrollable,
            final(tree)@.node(widget).layout.edges_distinct(),
            final(tree)@.wf(),
    {
        let zero = tree.zero;
        let layout: WidgetLayout<S> = WidgetLayout::new();
        let node = WidgetNode {
            name: name.to_owned(),
            props: PropSet::new(),
            has_updated: true,
            props_updated: true,
            bounds: Rect { origin: Point { x: zero, y: zero }, size: Dimensions { width: zero, height: zero } },
            debug_color: None,
            children: Vec::new(),
            parent: None,
            handlers: Vec::new(),
            layout: layout,
        };
        let widget = Widget { id: WidgetId(tree.nodes.len()) };
        tree.nodes.push(node);
        tree.post(Target::Root, Notice::RegisterWidget(widget));
        proof {
            assert(node@ =~= fresh_node(name@, old(tree)@.zero, layout@));
            assert(tree@.nodes =~= old(tree)@.nodes.push(fresh_node(name@, old(tree)@.zero, layout@)));
        }
        widget
    }

    /// The number that identifies this widget.
    pub fn id(&self) -> (id: WidgetId)
        ensures
            id == self.spec_id(),
            id.0 == self.index(),
    {
        self.id
    }

    /// Renames this widget and asks for its layout to be brought up to date.
    pub fn set_name<S: Copy>(&mut self, tree: &mut WidgetTree<S>, name: &str) -> (res: &mut Self)
        requires
            old(tree)@.wf(),
            old(tree)@.contains(*old(self)),
        ensures
            *res == *old(self),
            *final(self) == *final(res),
            final(tree)@ == old(tree)@.with_node(*old(self), NodeView { name: name@, ..old(tree)@.node(*old(self)) }).with_posted(
                seq![Posted { target: Target::Root, notice: Notice::UpdateLayout(*old(self)) }],
            ),
            final(tree)@.wf(),
    {
        let i: usize = self.id.0;
        tree.nodes[i].name = name.to_owned();
        tree.post(Target::Root, Notice::UpdateLayout(*self));
        assert(tree@.nodes =~= old(tree)@.nodes.update(self.index(), NodeView { name: name@, ..old(tree)@.node(*old(self)) }));
        self
    }
}


/// The bounds `bounds` after the solved quantity `var` took the value `value`:
/// the left and top edges move the origin, the width and height set the size,
/// and the right and bottom edges leave the bounds as they are.
pub open spec fn bounds_with<S>(bounds: Rect<S>, var: VarType, value: S) -> Rect<S> {
    match var {
        VarType::Left => Rect { origin: Point { x: value, ..bounds.origin }, ..bounds },
        VarType::Top => Rect { origin: Point { y: value, ..bounds.origin }, ..bounds },
        VarType::Width => Rect { size: Dimensions { width: value, ..bounds.size }, ..bounds },
        VarType::Height => Rect { size: Dimensions { height: value, ..bounds.size }, ..bounds },
        _ => bounds,
    }
}

/// Whether `k` is the first position of `x` in `s`.
pub open spec fn is_first_position(s: Seq<Widget>, x: Widget, k: int) -> bool {
    0 <= k < s.len() && s[k] == x && forall|j: int| 0 <= j < k ==> s[j] != x
}

/// `s` without the first occurrence of `x`, or `s` itself when `x` does not occur.
pub open spec fn without_first(s: Seq<Widget>, x: Widget) -> Seq<Widget> {
    if s.contains(x) {
        s.remove(choose|k: int| is_first_position(s, x, k))
    } else {
        s
    }
}

/// The notices that attaching `child` to `parent` raises, in order.
pub open spec fn attach_notices(parent: Widget, child: Widget, child_vars: LayoutVars) -> Seq<Posted> {
    seq![
        Posted { target: Target::Root, notice: Notice::UpdateLayout(child) },
        Posted { target: Target::Root, notice: Notice::UpdateLayout(parent) },
        Posted { target: Target::Root, notice: Notice::UpdateLayout(child) },
        Posted { target: Target::Widget(parent), notice: Notice::WidgetAttached },
        Posted { target: Target::Root, notice: Notice::UpdateLayout(child) },
        Posted { target: Target::Widget(parent), notice: Notice::ChildAttached(parent.spec_id(), child_vars) },
        Posted { target: Target::Widget(parent), notice: Notice::ChildAdded(child) },
    ]
}

/// The notices that detaching `child` from `parent` raises, in order.
pub open spec fn detach_notices(parent: Widget, child: Widget) -> Seq<Posted> {
    seq![
        Posted { target: Target::Root, notice: Notice::UpdateLayout(parent) },
        Posted { target: Target::Root, notice: Notice::UpdateLayout(child) },
        Posted { target: Target::Widget(parent), notice: Notice::ChildRemoved(child) },
        Posted { target: Target::Widget(child), notice: Notice::WidgetDetached },
        Posted { target: Target::Root, notice: Notice::RemoveWidget(child) },
    ]
}

impl Widget {
    /// The handle that a child keeps on this widget.
    pub closed spec fn spec_downgrade(self) -> WidgetWeak {
        WidgetWeak { id: self.id }
    }

    /// A handle on this widget for a child to keep.
    pub fn downgrade(&self) -> (weak: WidgetWeak)
        ensures
            weak == self.spec_downgrade(),
            weak.target() == *self,
    {
        WidgetWeak { id: self.id }
    }

    /// The name of this widget.
    pub fn name<S>(&self, tree: &WidgetTree<S>) -> (name: String)
        requires
            tree@.contains(*self),
        ensures
            name@ == tree@.node(*self).name,
    {
        tree.nodes[self.id.0].name.clone()
    }

    /// Sets the color in which this widget's outline is drawn for debugging.
    pub fn set_debug_color<S: Copy>(&mut self, tree: &mut WidgetTree<S>, color: Color<S>) -> (res: &mut Self)
        requires
            old(tree)@.wf(),
            old(tree)@.contains(*old(self)),
        ensures
            *res == *old(self),
            *final(self) == *final(res),
            final(tree)@ == old(tree)@.with_node(*old(self), NodeView { debug_color: Some(color), ..old(tree)@.node(*old(self)) }),
            final(tree)@.wf(),
    {
        let i: usize = self.id.0;
        tree.nodes[i].debug_color = Some(color);
        assert(tree@.nodes =~= old(tree)@.nodes.update(self.index(), NodeView { debug_color: Some(color), ..old(tree)@.node(*old(self)) }));
        self
    }

    /// The color in which this widget's outline is drawn for debugging, if one was set.
    pub fn debug_color<S: Copy>(&self, tree: &WidgetTree<S>) -> (color: Option<Color<S>>)
        requires
            tree@.contains(*self),
        ensures
            color == tree@.node(*self).debug_color,
    {
        tree.nodes[self.id.0].debug_color
    }

    /// Whether this widget is marked updated.
    pub fn has_updated<S>(&self, tree: &WidgetTree<S>) -> (b: bool)
        requires
            tree@.contains(*self),
        ensures
            b == tree@.node(*self).has_updated,
    {
        tree.nodes[self.id.0].has_updated
    }

    /// Marks this widget updated or not.
    pub fn set_updated<S>(&self, tree: &mut WidgetTree<S>, has_updated: bool)
        requires
            old(tree)@.wf(),
            old(tree)@.contains(*self),
        ensures
            final(tree)@ == old(tree)@.with_node(*self, NodeView { has_updated: has_updated, ..old(tree)@.node(*self) }),
            final(tree)@.wf(),
    {
        let i: usize = self.id.0;
        tree.nodes[i].has_updated = has_updated;
        assert(tree@.nodes =~= old(tree)@.nodes.update(self.index(), NodeView { has_updated: has_updated, ..old(tree)@.node(*self) }));
    }

    /// The rectangle this widget occupies.
    pub fn bounds<S: Copy>(&self, tree: &WidgetTree<S>) -> (bounds: Rect<S>)
        requires
            tree@.contains(*self),
        ensures
            bounds == tree@.node(*self).bounds,
    {
        tree.nodes[self.id.0].bounds
    }

    /// Takes a solved value of one layout quantity into the bounds and tells
    /// this widget that its layout changed.
    pub fn update_bounds<S: Copy>(&mut self, tree: &mut WidgetTree<S>, var: VarType, value: S)
        requires
            old(tree)@.wf(),
            old(tree)@.contains(*old(self)),
        ensures
            *final(self) == *old(self),
            final(tree)@ == old(tree)@.with_node(
                *old(self),
                NodeView { bounds: bounds_with(old(tree)@.node(*old(self)).bounds, var, value), ..old(tree)@.node(*old(self)) },
            ).with_posted(seq![Posted { target: Target::Widget(*old(self)), notice: Notice::LayoutUpdated }]),
            final(tree)@.node(*old(self)).bounds.origin.x == if var == VarType::Left { value } else { old(tree)@.node(*old(self)).bounds.origin.x },
            final(tree)@.node(*old(self)).bounds.origin.y == if var == VarType::Top { value } else { old(tree)@.node(*old(self)).bounds.origin.y },
            final(tree)@.node(*old(self)).bounds.size.width == if var == VarType::Width { value } else { old(tree)@.node(*old(self)).bounds.size.width },
            final(tree)@.node(*old(self)).bounds.size.height == if var == VarType::Height { value } else { old(tree)@.node(*old(self)).bounds.size.height },
            final(tree)@.wf(),
    {
        let i: usize = self.id.0;
        match var {
            VarType::Left => tree.nodes[i].bounds.origin.x = value,
            VarType::Top => tree.nodes[i].bounds.origin.y = value,
            VarType::Width => tree.nodes[i].bounds.size.width = value,
            VarType::Height => tree.nodes[i].bounds.size.height = value,
            _ => (),
        }
        assert(tree@.nodes =~= old(tree)@.nodes.update(
            self.index(),
            NodeView { bounds: bounds_with(old(tree)@.node(*old(self)).bounds, var, value), ..old(tree)@.node(*old(self)) },
        ));
        tree.post(Target::Widget(*self), Notice::LayoutUpdated);
    }

    /// The properties of this widget.
    pub fn props<'a, S>(&self, tree: &'a WidgetTree<S>) -> (props: &'a PropSet)
        requires
            tree@.contains(*self),
        ensures
            props@ == tree@.node(*self).props,
    {
        &tree.nodes[self.id.0].props
    }

    /// The widget this one was last attached to, if any.
    pub fn parent<S>(&self, tree: &WidgetTree<S>) -> (parent: Option<Widget>)
        requires
            tree@.wf(),
            tree@.contains(*self),
        ensures
            parent == match tree@.node(*self).parent {
                Some(weak) => Some(weak.target()),
                None => None,
            },
            parent matches Some(p) ==> tree@.contains(p) && p != *self,
    {
        match &tree.nodes[self.id.0].parent {
            Some(weak) => weak.upgrade(tree),
            None => None,
        }
    }

    /// The children of this widget, in the order they were added.
    pub fn children<S>(&self, tree: &WidgetTree<S>) -> (children: Vec<Widget>)
        requires
            tree@.contains(*self),
        ensures
            children@ == tree@.node(*self).children,
    {
        tree.nodes[self.id.0].children.clone()
    }

    /// The first child of this widget with the given name.
    pub fn child<S>(&self, tree: &WidgetTree<S>, name: &str) -> (child: Option<Widget>)
        requires
            tree@.wf(),
            tree@.contains(*self),
        ensures
            child matches Some(c) ==> exists|k: int|
                0 <= k < tree@.node(*self).children.len() && tree@.node(*self).children[k] == c
                    && tree@.node(c).name == name@
                    && forall|j: int| 0 <= j < k ==> #[trigger] tree@.node(tree@.node(*self).children[j]).name != name@,
            child is None ==> forall|k: int|
                0 <= k < tree@.node(*self).children.len() ==> #[trigger] tree@.node(tree@.node(*self).children[k]).name != name@,
    {
        let wanted = name.to_owned();
        let i: usize = self.id.0;
        let n: usize = tree.nodes[i].children.len();
        let mut k: usize = 0;
        while k < n
            invariant
                tree@.wf(),
                tree@.contains(*self),
                i == self.index(),
                n == tree@.node(*self).children.len(),
                k <= n,
                wanted@ == name@,
                forall|j: int| 0 <= j < k ==> #[trigger] tree@.node(tree@.node(*self).children[j]).name != name@,
            decreases n - k,
        {
            let c = tree.nodes[i].children[k];
            assert(tree@.node(*self).children[k as int] == c);
            assert(tree@.contains(c));
            if tree.nodes[c.id.0].name == wanted {
                return Some(c);
            }
            k = k + 1;
        }
        None
    }
}

impl WidgetWeak {
    /// The widget this handle names, while it is in `tree`.
    pub fn upgrade<S>(&self, tree: &WidgetTree<S>) -> (widget: Option<Widget>)
        ensures
            widget == if tree@.contains(self.target()) { Some(self.target()) } else { None },
    {
        if self.id.0 < tree.nodes.len() {
            Some(Widget { id: self.id })
        } else {
            None
        }
    }
}


/// The tree after `child` is attached to `parent`: the child names `parent` as
/// its parent, takes on the parent's properties, and its layout is placed in
/// the parent's layout; the parent lists the child after its other children.
pub open spec fn attached<S>(t: TreeView<S>, parent: Widget, child: Widget) -> TreeView<S> {
    t.with_node(
        child,
        NodeView {
            props: t.node(child).props.union(t.node(parent).props),
            parent: Some(parent.spec_downgrade()),
            layout: t.node(child).layout.with_added(t.node(parent).layout.child_constraints(t.node(child).layout)),
            ..t.node(child)
        },
    ).with_node(parent, NodeView { children: t.node(parent).children.push(child), ..t.node(parent) })
}

/// The tree after `child` is taken out of the children of `parent`.
pub open spec fn detached<S>(t: TreeView<S>, parent: Widget, child: Widget) -> TreeView<S> {
    t.with_node(parent, NodeView { children: without_first(t.node(parent).children, child), ..t.node(parent) })
}

impl Widget {
    /// Attaches `child` below this widget: the child takes on this widget's
    /// properties and names this widget as its parent, this widget lists it
    /// last among its children, and the layouts and the user interface are told.
    pub fn add_child<S: Copy>(&mut self, tree: &mut WidgetTree<S>, child: Widget) -> (res: &mut Self)
        requires
            old(tree)@.wf(),
            old(tree)@.contains(*old(self)),
            old(tree)@.contains(child),
            child != *old(self),
        ensures
            *res == *old(self),
            *final(self) == *final(res),
            final(tree)@ == attached(old(tree)@, *old(self), child).with_posted(attach_notices(*old(self), child, old(tree)@.node(child).layout.vars())),
            final(tree)@.node(child).layout.constraints.take(old(tree)@.node(child).layout.constraints.len() as int)
                == old(tree)@.node(child).layout.constraints,
            final(tree)@.node(child).layout.constraints.len() == old(tree)@.node(child).layout.constraints.len() + 4,
            final(tree)@.node(child).layout.scrollable == old(tree)@.node(child).layout.scrollable,
            final(tree)@.node(child).layout.vars() == old(tree)@.node(child).layout.vars(),
            final(tree)@.node(*old(self)).layout == old(tree)@.node(*old(self)).layout,
            final(tree)@.wf(),
    {
        let p: usize = self.id.0;
        let c: usize = child.id.0;
        tree.post(Target::Root, Notice::UpdateLayout(child));
        let ghost t0 = tree@;
        let parent_props = tree.nodes[p].props.clone();
        tree.nodes[c].parent = Some(self.downgrade());
        tree.nodes[c].props.extend(&parent_props);
        let ghost t1 = tree@;
        assert(t1.nodes =~= t0.nodes.update(
            child.index(),
            NodeView { props: t0.node(child).props.union(t0.node(*old(self)).props), parent: Some(old(self).spec_downgrade()), ..t0.node(child) },
        ));
        tree.nodes[p].children.push(child);
        assert(tree@.nodes =~= t1.nodes.update(self.index(), NodeView { children: t1.node(*old(self)).children.push(child), ..t1.node(*old(self)) }));
        let ghost t2 = tree@;
        let vars = tree.nodes[c].layout.vars();
        let mut placed: WidgetLayout<S> = WidgetLayout {
            left: vars.left,
            top: vars.top,
            right: vars.right,
            bottom: vars.bottom,
            scrollable: false,
            constraints: Vec::new(),
        };
        std::mem::swap(&mut placed, &mut tree.nodes[c].layout);
        tree.nodes[p].layout.add_child(&mut placed);
        std::mem::swap(&mut placed, &mut tree.nodes[c].layout);
        assert(tree@.nodes =~= t2.nodes.update(
            child.index(),
            NodeView {
                layout: t2.node(child).layout.with_added(t2.node(*old(self)).layout.child_constraints(t2.node(child).layout)),
                ..t2.node(child)
            },
        ));
        tree.post(Target::Root, Notice::UpdateLayout(*self));
        tree.post(Target::Root, Notice::UpdateLayout(child));
        tree.post(Target::Widget(*self), Notice::WidgetAttached);
        tree.post(Target::Root, Notice::UpdateLayout(child));
        tree.post(Target::Widget(*self), Notice::ChildAttached(self.id, vars));
        tree.post(Target::Widget(*self), Notice::ChildAdded(child));
        proof {
            assert(tree@.posted =~= old(tree)@.posted + attach_notices(*old(self), child, old(tree)@.node(child).layout.vars()));
            assert(tree@ =~= attached(old(tree)@, *old(self), child).with_posted(attach_notices(*old(self), child, old(tree)@.node(child).layout.vars())));
            assert forall|i: int, j: int|
                #![trigger tree@.nodes[i].children[j]]
                0 <= i < tree@.nodes.len() && 0 <= j < tree@.nodes[i].children.len() implies tree@.contains(tree@.nodes[i].children[j]) by {
                if i == p {
                    if j < old(tree)@.nodes[i].children.len() {
                        assert(tree@.nodes[i].children[j] == old(tree)@.nodes[i].children[j]);
                    }
                } else {
                    assert(tree@.nodes[i].children == old(tree)@.nodes[i].children);
                }
            }
            assert forall|i: int|
                #![trigger tree@.nodes[i].parent]
                0 <= i < tree@.nodes.len() && tree@.nodes[i].parent is Some implies tree@.contains(tree@.nodes[i].parent->0.target())
                    && tree@.nodes[i].parent->0.target().index() != i by {
                if i != c {
                    assert(tree@.nodes[i].parent == old(tree)@.nodes[i].parent);
                }
            }
        }
        self
    }

    /// Takes `child` out of this widget's children (its first occurrence, if it
    /// is there) and tells the layouts, the parent, the child and the user
    /// interface that it was detached; the child keeps naming this widget as
    /// its parent.
    pub fn remove_child<S: Copy>(&mut self, tree: &mut WidgetTree<S>, child: Widget)
        requires
            old(tree)@.wf(),
            old(tree)@.contains(*old(self)),
            child != *old(self),
        ensures
            *final(self) == *old(self),
            final(tree)@ == detached(old(tree)@, *old(self), child).with_posted(detach_notices(*old(self), child)),
            final(tree)@.wf(),
    {
        let p: usize = self.id.0;
        tree.post(Target::Root, Notice::UpdateLayout(*self));
        tree.post(Target::Root, Notice::UpdateLayout(child));
        let ghost t0 = tree@;
        let n: usize = tree.nodes[p].children.len();
        let mut k: usize = 0;
        while k < n
            invariant
                tree@ == t0,
                t0.contains(*self),
                p == self.index(),
                n == t0.node(*self).children.len(),
                k <= n,
                forall|j: int| 0 <= j < k ==> t0.node(*self).children[j] != child,
            ensures
                tree@ == t0,
                k <= n,
                forall|j: int| 0 <= j < k ==> t0.node(*self).children[j] != child,
                k < n ==> t0.node(*self).children[k as int] == child,
            decreases n - k,
        {
            if tree.nodes[p].children[k] == child {
                break;
            }
            k = k + 1;
        }
        let ghost kept = without_first(t0.node(*self).children, child);
        if k < n {
            proof {
                assert(is_first_position(t0.node(*self).children, child, k as int));
                assert(t0.node(*self).children.contains(child));
                let f = choose|f: int| is_first_position(t0.node(*self).children, child, f);
                assert(f == k) by {
                    if f < k {
                        assert(t0.node(*self).children[f] != child);
                    }
                    if k < f {
                        assert(t0.node(*self).children[k as int] != child);
                    }
                }
            }
            tree.nodes[p].children.remove(k);
        } else {
            proof {
                if t0.node(*self).children.contains(child) {
                    let f = choose|f: int| 0 <= f < n && t0.node(*self).children[f] == child;
                }
            }
        }
        assert(tree@.nodes =~= t0.nodes.update(self.index(), NodeView { children: kept, ..t0.node(*self) }));
        tree.post(Target::Widget(*self), Notice::ChildRemoved(child));
        tree.post(Target::Widget(child), Notice::WidgetDetached);
        tree.post(Target::Root, Notice::RemoveWidget(child));
        proof {
            assert(tree@.posted =~= old(tree)@.posted + detach_notices(*old(self), child));
            assert(tree@ =~= detached(old(tree)@, *old(self), child).with_posted(detach_notices(*old(self), child)));
            assert forall|i: int, j: int|
                #![trigger tree@.nodes[i].children[j]]
                0 <= i < tree@.nodes.len() && 0 <= j < tree@.nodes[i].children.len() implies tree@.contains(tree@.nodes[i].children[j]) by {
                if i == p {
                    if k < n {
                        if j < k {
                            assert(tree@.nodes[i].children[j] == t0.nodes[i].children[j]);
                        } else {
                            assert(tree@.nodes[i].children[j] == t0.nodes[i].children[j + 1]);
                        }
                    } else {
                        assert(tree@.nodes[i].children[j] == t0.nodes[i].children[j]);
                    }
                } else {
                    assert(tree@.nodes[i].children == t0.nodes[i].children);
                }
            }
            assert forall|i: int|
                #![trigger tree@.nodes[i].parent]
                0 <= i < tree@.nodes.len() && tree@.nodes[i].parent is Some implies tree@.contains(tree@.nodes[i].parent->0.target())
                    && tree@.nodes[i].parent->0.target().index() != i by {
                assert(tree@.nodes[i].parent == t0.nodes[i].parent);
            }
        }
    }

    /// Detaches this widget from the widget it was last attached to, if any.
    pub fn remove_widget<S: Copy>(&mut self, tree: &mut WidgetTree<S>)
        requires
            old(tree)@.wf(),
            old(tree)@.contains(*old(self)),
        ensures
            *final(self) == *old(self),
            final(tree)@ == match old(tree)@.node(*old(self)).parent {
                Some(weak) => detached(old(tree)@, weak.target(), *old(self)).with_posted(detach_notices(weak.target(), *old(self))),
                None => old(tree)@,
            },
            final(tree)@.wf(),
    {
        if let Some(mut parent) = self.parent(tree) {
            parent.remove_child(tree, *self);
        }
    }
}


impl Widget {
    /// Sends `notice` to this widget.
    pub fn event<S: Copy>(&self, tree: &mut WidgetTree<S>, notice: Notice)
        ensures
            final(tree)@ == old(tree)@.with_posted(seq![Posted { target: Target::Widget(*self), notice }]),
    {
        tree.post(Target::Widget(*self), notice);
    }

    /// Sends `notice` to this widget and to every widget below it.
    pub fn event_subtree<S: Copy>(&self, tree: &mut WidgetTree<S>, notice: Notice)
        ensures
            final(tree)@ == old(tree)@.with_posted(seq![Posted { target: Target::SubTree(*self), notice }]),
    {
        tree.post(Target::SubTree(*self), notice);
    }

    /// Sends `notice` to this widget and then up through its parents.
    pub fn event_bubble_up<S: Copy>(&self, tree: &mut WidgetTree<S>, notice: Notice)
        ensures
            final(tree)@ == old(tree)@.with_posted(seq![Posted { target: Target::BubbleUp(*self), notice }]),
    {
        tree.post(Target::BubbleUp(*self), notice);
    }
}

/// The handlers of `handlers` registered for `event_type`, in the order they
/// were registered.
pub open spec fn handlers_for(handlers: Seq<(EventType, HandlerId)>, event_type: EventType) -> Seq<HandlerId>
    decreases handlers.len(),
{
    if handlers.len() == 0 {
        Seq::empty()
    } else {
        let rest = handlers_for(handlers.drop_last(), event_type);
        if handlers.last().0 == event_type {
            rest.push(handlers.last().1)
        } else {
            rest
        }
    }
}

impl Widget {
    /// Registers `handler` for events of type `event_type` on this widget,
    /// after the handlers registered before.
    pub fn add_handler<S: Copy>(
        &mut self,
        tree: &mut WidgetTree<S>,
        event_type: EventType,
        handler: HandlerId,
    ) -> (res: &mut Self)
        requires
            old(tree)@.wf(),
            old(tree)@.contains(*old(self)),
        ensures
            *res == *old(self),
            *final(self) == *final(res),
            final(tree)@ == old(tree)@.with_node(
                *old(self),
                NodeView { handlers: old(tree)@.node(*old(self)).handlers.push((event_type, handler)), ..old(tree)@.node(*old(self)) },
            ),
            final(tree)@.wf(),
    {
        let i: usize = self.id.0;
        tree.nodes[i].handlers.push((event_type, handler));
        assert(tree@.nodes =~= old(tree)@.nodes.update(
            self.index(),
            NodeView { handlers: old(tree)@.node(*old(self)).handlers.push((event_type, handler)), ..old(tree)@.node(*old(self)) },
        ));
        self
    }

    /// The handlers that an event of type `event_type` sent to this widget goes
    /// to, in the order they were registered; the event is handled when one of
    /// them says so.
    pub fn trigger_event<S>(&self, tree: &WidgetTree<S>, event_type: EventType) -> (handlers: Vec<HandlerId>)
        requires
            tree@.contains(*self),
        ensures
            handlers@ == handlers_for(tree@.node(*self).handlers, event_type),
    {
        let i: usize = self.id.0;
        let n: usize = tree.nodes[i].handlers.len();
        let mut found: Vec<HandlerId> = Vec::new();
        let mut k: usize = 0;
        while k < n
            invariant
                tree@.contains(*self),
                i == self.index(),
                n == tree@.node(*self).handlers.len(),
                k <= n,
                found@ == handlers_for(tree@.node(*self).handlers.take(k as int), event_type),
            decreases n - k,
        {
            let (t, h) = tree.nodes[i].handlers[k];
            proof {
                let all = tree@.node(*self).handlers;
                assert(all.take(k as int + 1).drop_last() == all.take(k as int));
                assert(all.take(k as int + 1).last() == (t, h));
            }
            if t == event_type {
                found.push(h);
            }
            k = k + 1;
        }
        assert(tree@.node(*self).handlers.take(n as int) == tree@.node(*self).handlers);
        found
    }
}

impl Widget {
    /// The four edge variables of this widget's layout.
    pub fn layout_vars<S: Copy>(&self, tree: &WidgetTree<S>) -> (vars: LayoutVars)
        requires
            tree@.contains(*self),
        ensures
            vars == tree@.node(*self).layout.vars(),
    {
        tree.nodes[self.id.0].layout.vars()
    }

    /// This widget's layout, to add constraints to; asks for the layout to be
    /// brought up to date.
    pub fn layout<'a, S: Copy>(&mut self, tree: &'a mut WidgetTree<S>) -> (layout: &'a mut WidgetLayout<S>)
        requires
            old(tree)@.wf(),
            old(tree)@.contains(*old(self)),
        ensures
            *final(self) == *old(self),
            layout@ == old(tree)@.node(*old(self)).layout,
            final(tree)@ == old(tree)@.with_posted(
                seq![Posted { target: Target::Root, notice: Notice::UpdateLayout(*old(self)) }],
            ).with_node(*old(self), NodeView { layout: final(layout)@, ..old(tree)@.node(*old(self)) }),
            final(tree)@.wf(),
    {
        tree.post(Target::Root, Notice::UpdateLayout(*self));
        &mut tree.nodes[self.id.0].layout
    }
}

/// Law: two handles are equal exactly when they carry the same identifier,
/// which is the widget's position in its tree, and exactly when they name the
/// same position.
pub proof fn law_widget_eq_is_id_eq(a: Widget, b: Widget)
    ensures
        a == b <==> a.spec_id() == b.spec_id(),
        a == b <==> a.index() == b.index(),
        a.spec_id().0 == a.index(),
        a.index() >= 0,
{
}

/// Law: taking a property away undoes giving it, for a widget that did not
/// hold it; for any widget, the two leave exactly the other properties.
pub proof fn law_remove_prop_undoes_add_prop<S>(node: NodeView<S>, property: Property)
    ensures
        with_property_removed(with_property_added(node, property), property).props == node.props.remove(property),
        !node.props.contains(property) ==> with_property_removed(with_property_added(node, property), property).props
            == node.props,
{
    assert(node.props.insert(property).remove(property) =~= node.props.remove(property));
    if !node.props.contains(property) {
        assert(node.props.remove(property) =~= node.props);
    }
}

/// Law: a widget given a property holds it, and one that lost it does not.
pub proof fn law_prop_held_after_add_absent_after_remove<S>(node: NodeView<S>, property: Property)
    ensures
        with_property_added(node, property).props.contains(property),
        !with_property_removed(node, property).props.contains(property),
{
}

/// Law: an attached child is below its parent, so properties later given to
/// the parent reach it.
pub proof fn law_attached_child_in_subtree<S>(t: TreeView<S>, parent: Widget, child: Widget)
    requires
        t.wf(),
        t.contains(parent),
        t.contains(child),
        parent != child,
    ensures
        attached(t, parent, child).in_subtree(parent, child),
        t.node(parent).props.subset_of(attached(t, parent, child).node(child).props),
{
    let a = attached(t, parent, child);
    assert(parent.index() != child.index());
    assert(a.node(parent).children.last() == child);
    assert(a.is_child(parent, child));
    assert(a.reaches_within(parent, parent, 0));
    assert(a.reaches_within(parent, child, 1));
}

/// Law: removing a child just added undoes the change to the parent's children,
/// when it was not among them before.
pub proof fn law_remove_child_undoes_add_child<S>(t: TreeView<S>, parent: Widget, child: Widget)
    requires
        t.wf(),
        t.contains(parent),
        t.contains(child),
        parent != child,
        !t.node(parent).children.contains(child),
    ensures
        detached(attached(t, parent, child), parent, child).node(parent).children == t.node(parent).children,
{
    let a = attached(t, parent, child);
    let old_children = t.node(parent).children;
    let s = a.node(parent).children;
    assert(parent.index() != child.index());
    assert(s == old_children.push(child));
    let k = old_children.len() as int;
    assert(is_first_position(s, child, k)) by {
        assert forall|j: int| 0 <= j < k implies s[j] != child by {
            assert(s[j] == old_children[j]);
        }
    }
    assert(s.contains(child));
    let f = choose|f: int| is_first_position(s, child, f);
    assert(f == k) by {
        if f < k {
            assert(s[f] == old_children[f]);
        }
    }
    assert(s.remove(k) =~= old_children);
}


/// Trees whose widgets have the same children have the same subtrees.
proof fn lemma_same_children_same_reach<S>(t: TreeView<S>, u: TreeView<S>, root: Widget, w: Widget, k: nat)
    requires
        t.nodes.len() == u.nodes.len(),
        forall|x: Widget| t.contains(x) ==> #[trigger] u.node(x).children == t.node(x).children,
    ensures
        t.reaches_within(root, w, k) <==> u.reaches_within(root, w, k),
    decreases k,
{
    if w != root && k > 0 {
        if t.reaches_within(root, w, k) {
            let p = choose|p: Widget| #[trigger] t.is_child(p, w) && t.reaches_within(root, p, (k - 1) as nat);
            lemma_same_children_same_reach(t, u, root, p, (k - 1) as nat);
            assert(u.node(p).children == t.node(p).children);
            assert(u.is_child(p, w));
        }
        if u.reaches_within(root, w, k) {
            let p = choose|p: Widget| #[trigger] u.is_child(p, w) && u.reaches_within(root, p, (k - 1) as nat);
            lemma_same_children_same_reach(t, u, root, p, (k - 1) as nat);
            assert(u.node(p).children == t.node(p).children);
            assert(t.is_child(p, w));
        }
    }
}

/// Law: taking a property from a widget right after giving it to that widget
/// leaves every widget below it without the property and with its other
/// properties as before, and leaves every other widget as it was.
pub proof fn law_remove_prop_after_add_prop<S>(
    t1: TreeView<S>,
    t2: TreeView<S>,
    t3: TreeView<S>,
    root: Widget,
    property: Property,
)
    requires
        t1.wf(),
        t1.contains(root),
        t2.nodes.len() == t1.nodes.len(),
        forall|w: Widget|
            #![trigger t2.node(w)]
            t1.contains(w) ==> t2.node(w) == if t1.in_subtree(root, w) {
                with_property_added(t1.node(w), property)
            } else {
                t1.node(w)
            },
        t3.nodes.len() == t2.nodes.len(),
        forall|w: Widget|
            #![trigger t3.node(w)]
            t2.contains(w) ==> t3.node(w) == if t2.in_subtree(root, w) {
                with_property_removed(t2.node(w), property)
            } else {
                t2.node(w)
            },
    ensures
        forall|w: Widget|
            #![trigger t3.node(w)]
            t1.contains(w) ==> if t1.in_subtree(root, w) {
                &&& t3.node(w).props == t1.node(w).props.remove(property)
                &&& t3.node(w).children == t1.node(w).children
                &&& t3.node(w).name == t1.node(w).name
            } else {
                t3.node(w) == t1.node(w)
            },
{
    assert forall|x: Widget| t1.contains(x) implies #[trigger] t2.node(x).children == t1.node(x).children by {
        assert(t2.node(x) == if t1.in_subtree(root, x) {
            with_property_added(t1.node(x), property)
        } else {
            t1.node(x)
        });
    }
    assert forall|w: Widget|
        #![trigger t3.node(w)]
        t1.contains(w) implies if t1.in_subtree(root, w) {
            &&& t3.node(w).props == t1.node(w).props.remove(property)
            &&& t3.node(w).children == t1.node(w).children
            &&& t3.node(w).name == t1.node(w).name
        } else {
            t3.node(w) == t1.node(w)
        } by {
        assert(t2.node(w) == if t1.in_subtree(root, w) {
            with_property_added(t1.node(w), property)
        } else {
            t1.node(w)
        });
        assert(t2.contains(w));
        if t1.in_subtree(root, w) {
            let k = choose|k: nat| t1.reaches_within(root, w, k);
            lemma_same_children_same_reach(t1, t2, root, w, k);
            assert(t2.in_subtree(root, w));
            law_remove_prop_undoes_add_prop(t1.node(w), property);
        } else {
            assert(!t2.in_subtree(root, w)) by {
                if t2.in_subtree(root, w) {
                    let k = choose|k: nat| t2.reaches_within(root, w, k);
                    lemma_same_children_same_reach(t1, t2, root, w, k);
                }
            }
        }
    }
}


/// Below is transitive.
proof fn lemma_subtree_trans<S>(t: TreeView<S>, a: Widget, b: Widget, c: Widget, k: nat)
    requires
        t.in_subtree(a, b),
        t.reaches_within(b, c, k),
    ensures
        t.in_subtree(a, c),
    decreases k,
{
    if c != b {
        let p = choose|p: Widget| #[trigger] t.is_child(p, c) && t.reaches_within(b, p, (k - 1) as nat);
        lemma_subtree_trans(t, a, b, p, (k - 1) as nat);
        lemma_subtree_step(t, a, p, c);
    }
}

/// The links of the tree after `child` is attached to `parent`: the old links
/// and the new one from `parent` to `child`.
proof fn lemma_attached_is_child<S>(t: TreeView<S>, parent: Widget, child: Widget, p: Widget, c: Widget)
    requires
        t.contains(parent),
        t.contains(child),
        parent != child,
    ensures
        attached(t, parent, child).is_child(p, c) <==> t.is_child(p, c) || (p == parent && c == child),
{
    let u = attached(t, parent, child);
    assert(parent.index() != child.index());
    if p == parent {
        let old_children = t.node(parent).children;
        assert(u.node(parent).children == old_children.push(child));
        if old_children.contains(c) {
            let j = choose|j: int| 0 <= j < old_children.len() && old_children[j] == c;
            assert(u.node(parent).children[j] == c);
        }
        if u.node(parent).children.contains(c) && c != child {
            let j = choose|j: int| 0 <= j < u.node(parent).children.len() && u.node(parent).children[j] == c;
            assert(j < old_children.len());
            assert(old_children[j] == c);
        }
        assert(u.node(parent).children[old_children.len() as int] == child);
    } else if p == child {
        assert(u.node(child).children == t.node(child).children);
    } else if u.contains(p) {
        assert(p.index() != parent.index() && p.index() != child.index());
        assert(u.node(p) == t.node(p));
    }
}

/// A path in the tree after `child` is attached to `parent` is a path of the
/// tree before, or runs through the new link.
proof fn lemma_attached_path<S>(t: TreeView<S>, parent: Widget, child: Widget, a: Widget, b: Widget, k: nat)
    requires
        t.contains(parent),
        t.contains(child),
        parent != child,
        attached(t, parent, child).reaches_within(a, b, k),
    ensures
        t.in_subtree(a, b) || (t.in_subtree(a, parent) && t.in_subtree(child, b)),
    decreases k,
{
    let u = attached(t, parent, child);
    if a == b {
        assert(t.reaches_within(a, b, 0));
    } else {
        let p = choose|p: Widget| #[trigger] u.is_child(p, b) && u.reaches_within(a, p, (k - 1) as nat);
        lemma_attached_path(t, parent, child, a, p, (k - 1) as nat);
        lemma_attached_is_child(t, parent, child, p, b);
        if t.is_child(p, b) {
            if t.in_subtree(a, p) {
                lemma_subtree_step(t, a, p, b);
            } else {
                lemma_subtree_step(t, child, p, b);
            }
        } else {
            assert(p == parent && b == child);
            if t.in_subtree(a, p) {
                assert(t.reaches_within(child, child, 0));
            }
        }
    }
}

/// Law: attaching a child that has no parent, and that is neither the parent
/// nor above it, to a widget of a forest keeps a forest, with the child now
/// below the parent, and changes no other widget's children.
pub proof fn law_add_child_keeps_forest<S>(t: TreeView<S>, parent: Widget, child: Widget)
    requires
        t.is_forest(),
        t.contains(parent),
        t.contains(child),
        t.node(child).parent is None,
        !t.in_subtree(child, parent),
    ensures
        attached(t, parent, child).is_forest(),
        attached(t, parent, child).is_child(parent, child),
        forall|w: Widget|
            #![trigger attached(t, parent, child).node(w)]
            t.contains(w) && w != parent ==> attached(t, parent, child).node(w).children == t.node(w).children,
{
    let u = attached(t, parent, child);
    assert(t.reaches_within(child, child, 0));
    assert(parent != child);
    assert(parent.index() != child.index());
    assert(u.nodes.len() == t.nodes.len());
    lemma_attached_is_child(t, parent, child, parent, child);
    assert forall|w: Widget|
        #![trigger u.node(w)]
        t.contains(w) && w != parent implies u.node(w).children == t.node(w).children by {
        if w != child {
            assert(w.index() != parent.index() && w.index() != child.index());
        }
    }
    // well formed
    assert forall|i: int, j: int|
        #![trigger u.nodes[i].children[j]]
        0 <= i < u.nodes.len() && 0 <= j < u.nodes[i].children.len() implies u.contains(u.nodes[i].children[j]) by {
        if i == parent.index() {
            assert(u.nodes[i].children == t.nodes[i].children.push(child));
            if j < t.node(parent).children.len() {
                assert(u.nodes[i].children[j] == t.nodes[i].children[j]);
            }
        } else {
            assert(u.nodes[i].children == t.nodes[i].children);
        }
    }
    assert forall|i: int|
        #![trigger u.nodes[i].parent]
        0 <= i < u.nodes.len() && u.nodes[i].parent is Some implies u.contains(u.nodes[i].parent->0.target())
            && u.nodes[i].parent->0.target().index() != i by {
        if i != child.index() {
            assert(u.nodes[i].parent == t.nodes[i].parent);
        }
    }
    assert(u.wf());
    // links agree
    assert forall|w: Widget, j: int|
        #![trigger u.node(w).children[j]]
        u.contains(w) && 0 <= j < u.node(w).children.len() implies u.node(u.node(w).children[j]).parent
            == Some(w.spec_downgrade()) by {
        let c = u.node(w).children[j];
        if w == parent && j == t.node(parent).children.len() {
            assert(u.node(parent).children == t.node(parent).children.push(child));
            assert(c == child);
        } else {
            if w == parent {
                assert(u.node(parent).children == t.node(parent).children.push(child));
            }
            assert(c == t.node(w).children[j]);
            assert(t.node(c).parent == Some(w.spec_downgrade()));
            assert(c != child);
            assert(c.index() != child.index());
            if c != parent {
                assert(c.index() != parent.index());
            }
        }
    }
    // acyclic
    assert forall|w: Widget, c: Widget| #[trigger] u.is_child(w, c) implies !u.in_subtree(c, w) by {
        lemma_attached_is_child(t, parent, child, w, c);
        if u.in_subtree(c, w) {
            let k = choose|k: nat| u.reaches_within(c, w, k);
            lemma_attached_path(t, parent, child, c, w, k);
            if t.is_child(w, c) {
                if !t.in_subtree(c, w) {
                    let k2 = choose|k2: nat| t.reaches_within(child, w, k2);
                    lemma_subtree_step(t, child, w, c);
                    let k3 = choose|k3: nat| t.reaches_within(c, parent, k3);
                    lemma_subtree_trans(t, child, c, parent, k3);
                }
            }
        }
    }
}

/// Every element of `s` without the first occurrence of `x` is an element of `s`,
/// and no element occurs twice there when none does in `s`.
proof fn lemma_without_first(s: Seq<Widget>, x: Widget)
    ensures
        forall|y: Widget| #[trigger] without_first(s, x).contains(y) ==> s.contains(y),
        s.no_duplicates() ==> without_first(s, x).no_duplicates(),
{
    if s.contains(x) {
        let k0 = choose|k0: int| 0 <= k0 < s.len() && s[k0] == x;
        lemma_some_first_position(s, x, k0);
        let k = choose|k: int| is_first_position(s, x, k);
        let r = s.remove(k);
        assert(without_first(s, x) == r);
        assert forall|y: Widget| #[trigger] r.contains(y) implies s.contains(y) by {
            let i = choose|i: int| 0 <= i < r.len() && r[i] == y;
            if i < k {
                assert(s[i] == y);
            } else {
                assert(s[i + 1] == y);
            }
        }
        if s.no_duplicates() {
            assert forall|a: int, b: int| 0 <= a < b < r.len() implies r[a] != r[b] by {
                let sa = if a < k { a } else { a + 1 };
                let sb = if b < k { b } else { b + 1 };
                assert(r[a] == s[sa] && r[b] == s[sb]);
            }
        }
    }
}

/// A widget that occurs in `s` has a first position there.
proof fn lemma_some_first_position(s: Seq<Widget>, x: Widget, k: int)
    requires
        0 <= k < s.len(),
        s[k] == x,
    ensures
        exists|m: int| is_first_position(s, x, m),
    decreases k,
{
    if forall|j: int| 0 <= j < k ==> s[j] != x {
        assert(is_first_position(s, x, k));
    } else {
        let j = choose|j: int| 0 <= j < k && s[j] == x;
        lemma_some_first_position(s, x, j);
    }
}

/// A path in the tree after `child` is detached from `parent` is a path of the
/// tree before.
proof fn lemma_detached_path<S>(t: TreeView<S>, parent: Widget, child: Widget, a: Widget, b: Widget, k: nat)
    requires
        t.contains(parent),
        detached(t, parent, child).reaches_within(a, b, k),
    ensures
        t.reaches_within(a, b, k),
    decreases k,
{
    let u = detached(t, parent, child);
    if a != b {
        let p = choose|p: Widget| #[trigger] u.is_child(p, b) && u.reaches_within(a, p, (k - 1) as nat);
        lemma_detached_path(t, parent, child, a, p, (k - 1) as nat);
        if p == parent {
            lemma_without_first(t.node(parent).children, child);
        } else {
            assert(p.index() != parent.index());
            assert(u.node(p) == t.node(p));
        }
        assert(t.is_child(p, b));
    }
}

/// Law: detaching a child from a widget of a forest keeps a forest, and
/// changes no other widget's children.
pub proof fn law_remove_child_keeps_forest<S>(t: TreeView<S>, parent: Widget, child: Widget)
    requires
        t.is_forest(),
        t.contains(parent),
    ensures
        detached(t, parent, child).is_forest(),
        forall|w: Widget|
            #![trigger detached(t, parent, child).node(w)]
            t.contains(w) && w != parent ==> detached(t, parent, child).node(w) == t.node(w),
{
    let u = detached(t, parent, child);
    let kids = t.node(parent).children;
    lemma_without_first(kids, child);
    assert(u.node(parent).children == without_first(kids, child));
    assert forall|w: Widget|
        #![trigger u.node(w)]
        t.contains(w) && w != parent implies u.node(w) == t.node(w) by {
        assert(w.index() != parent.index());
    }
    // well formed
    assert forall|i: int, j: int|
        #![trigger u.nodes[i].children[j]]
        0 <= i < u.nodes.len() && 0 <= j < u.nodes[i].children.len() implies u.contains(u.nodes[i].children[j]) by {
        if i == parent.index() {
            assert(without_first(kids, child).contains(u.nodes[i].children[j]));
            let m = choose|m: int| 0 <= m < kids.len() && kids[m] == u.nodes[i].children[j];
            assert(t.nodes[i].children[m] == kids[m]);
        } else {
            assert(u.nodes[i] == t.nodes[i]);
        }
    }
    assert forall|i: int|
        #![trigger u.nodes[i].parent]
        0 <= i < u.nodes.len() && u.nodes[i].parent is Some implies u.contains(u.nodes[i].parent->0.target())
            && u.nodes[i].parent->0.target().index() != i by {
        assert(u.nodes[i].parent == t.nodes[i].parent);
    }
    assert(u.wf());
    // links agree
    assert forall|w: Widget, j: int|
        #![trigger u.node(w).children[j]]
        u.contains(w) && 0 <= j < u.node(w).children.len() implies u.node(u.node(w).children[j]).parent
            == Some(w.spec_downgrade()) by {
        let c = u.node(w).children[j];
        let m = if w == parent {
            assert(without_first(kids, child).contains(c));
            choose|m: int| 0 <= m < kids.len() && kids[m] == c
        } else {
            assert(w.index() != parent.index());
            j
        };
        assert(t.node(w).children[m] == c);
        assert(t.node(c).parent == Some(w.spec_downgrade()));
        assert(u.node(c).parent == t.node(c).parent) by {
            if c.index() == parent.index() {
                assert(c == parent);
            }
        }
    }
    // acyclic
    assert forall|w: Widget, c: Widget| #[trigger] u.is_child(w, c) implies !u.in_subtree(c, w) by {
        if w == parent {
            assert(without_first(kids, child).contains(c));
        } else {
            assert(w.index() != parent.index());
        }
        assert(t.is_child(w, c));
        if u.in_subtree(c, w) {
            let k = choose|k: nat| u.reaches_within(c, w, k);
            lemma_detached_path(t, parent, child, c, w, k);
        }
    }
    // children listed once
    assert forall|w: Widget| #[trigger] u.contains(w) implies u.node(w).children.no_duplicates() by {
        if w != parent {
            assert(w.index() != parent.index());
        }
    }
}

/// A path in the tree after a widget without children is added is a path of
/// the tree before, unless it ends at the new widget.
proof fn lemma_pushed_path<S>(t: TreeView<S>, node: NodeView<S>, a: Widget, b: Widget, k: nat)
    requires
        t.wf(),
        node.children.len() == 0,
        (TreeView { nodes: t.nodes.push(node), ..t }).reaches_within(a, b, k),
        t.contains(b),
    ensures
        t.reaches_within(a, b, k),
    decreases k,
{
    let u = TreeView { nodes: t.nodes.push(node), ..t };
    if a != b {
        let p = choose|p: Widget| #[trigger] u.is_child(p, b) && u.reaches_within(a, p, (k - 1) as nat);
        if p.index() == t.nodes.len() {
            assert(u.node(p).children == node.children);
        }
        assert(t.contains(p));
        assert(u.node(p) == t.node(p));
        let j = choose|j: int| 0 <= j < t.node(p).children.len() && t.node(p).children[j] == b;
        assert(t.contains(t.nodes[p.index()].children[j]));
        lemma_pushed_path(t, node, a, p, (k - 1) as nat);
        assert(t.is_child(p, b));
        assert(t.reaches_within(a, b, k));
    }
}

/// Law: adding to a forest a widget without parent and without children keeps
/// a forest.
pub proof fn law_new_widget_keeps_forest<S>(t: TreeView<S>, node: NodeView<S>)
    requires
        t.is_forest(),
        node.children.len() == 0,
        node.parent is None,
    ensures
        (TreeView { nodes: t.nodes.push(node), ..t }).is_forest(),
{
    let u = TreeView { nodes: t.nodes.push(node), ..t };
    let n = t.nodes.len() as int;
    assert forall|i: int| 0 <= i < n implies u.nodes[i] == t.nodes[i] by {}
    // well formed
    assert forall|i: int, j: int|
        #![trigger u.nodes[i].children[j]]
        0 <= i < u.nodes.len() && 0 <= j < u.nodes[i].children.len() implies u.contains(u.nodes[i].children[j]) by {
        assert(i < n);
        assert(t.contains(t.nodes[i].children[j]));
    }
    assert forall|i: int|
        #![trigger u.nodes[i].parent]
        0 <= i < u.nodes.len() && u.nodes[i].parent is Some implies u.contains(u.nodes[i].parent->0.target())
            && u.nodes[i].parent->0.target().index() != i by {
        assert(i < n);
        assert(t.nodes[i].parent is Some);
    }
    assert(u.wf());
    // links agree
    assert forall|w: Widget, j: int|
        #![trigger u.node(w).children[j]]
        u.contains(w) && 0 <= j < u.node(w).children.len() implies u.node(u.node(w).children[j]).parent
            == Some(w.spec_downgrade()) by {
        assert(w.index() < n);
        assert(u.node(w) == t.node(w));
        let c = t.node(w).children[j];
        assert(t.contains(t.nodes[w.index()].children[j]));
        assert(u.node(c) == t.node(c));
    }
    // acyclic
    assert forall|w: Widget, c: Widget| #[trigger] u.is_child(w, c) implies !u.in_subtree(c, w) by {
        if w.index() == n {
            assert(u.node(w).children == node.children);
        }
        assert(u.node(w) == t.node(w));
        assert(t.is_child(w, c));
        if u.in_subtree(c, w) {
            let k = choose|k: nat| u.reaches_within(c, w, k);
            lemma_pushed_path(t, node, c, w, k);
        }
    }
    // children listed once
    assert forall|w: Widget| #[trigger] u.contains(w) implies u.node(w).children.no_duplicates() by {
        if w.index() < n {
            assert(u.node(w) == t.node(w));
        }
    }
}

/// Law: attaching a child keeps the child's own layout: its edges, its
/// scrollability and the constraints it had, in their places, followed by the
/// four constraints that place it in the parent's layout; the parent's layout
/// is left as it was.
pub proof fn law_attach_keeps_child_layout<S>(t: TreeView<S>, parent: Widget, child: Widget)
    requires
        t.contains(parent),
        t.contains(child),
        parent != child,
    ensures
        attached(t, parent, child).node(child).layout.constraints.take(t.node(child).layout.constraints.len() as int)
            == t.node(child).layout.constraints,
        attached(t, parent, child).node(child).layout.constraints.skip(t.node(child).layout.constraints.len() as int)
            == t.node(parent).layout.child_constraints(t.node(child).layout),
        attached(t, parent, child).node(child).layout.constraints.len() == t.node(child).layout.constraints.len() + 4,
        attached(t, parent, child).node(child).layout.scrollable == t.node(child).layout.scrollable,
        attached(t, parent, child).node(child).layout.vars() == t.node(child).layout.vars(),
        attached(t, parent, child).node(parent).layout == t.node(parent).layout,
{
    assert(parent.index() != child.index());
    let before = t.node(child).layout.constraints;
    let after = attached(t, parent, child).node(child).layout.constraints;
    crate::layout::law_child_placement_follows_the_parent(t.node(parent).layout, t.node(child).layout, t.node(child).layout);
    assert(after == before + t.node(parent).layout.child_constraints(t.node(child).layout));
    assert(after.take(before.len() as int) =~= before);
    assert(after.skip(before.len() as int) =~= t.node(parent).layout.child_constraints(t.node(child).layout));
}

/// Law: a widget as it is created holds no property, so giving it any property
/// changes it and taking any property away does not; it has no children, no
/// parent and no handlers.
pub proof fn law_fresh_widget_holds_nothing<S>(name: Seq<char>, zero: S, layout: LayoutView<S>, property: Property)
    ensures
        !fresh_node(name, zero, layout).props.contains(property),
        changes_property(fresh_node(name, zero, layout), property, true),
        !changes_property(fresh_node(name, zero, layout), property, false),
        fresh_node(name, zero, layout).children.len() == 0,
        fresh_node(name, zero, layout).parent is None,
        fresh_node(name, zero, layout).handlers.len() == 0,
        fresh_node(name, zero, layout).name == name,
        fresh_node(name, zero, layout).layout == layout,
        fresh_node(name, zero, layout).has_updated,
        fresh_node(name, zero, layout).props_updated,
        fresh_node(name, zero, layout).debug_color is None,
        fresh_node(name, zero, layout).bounds.origin.x == zero,
        fresh_node(name, zero, layout).bounds.origin.y == zero,
        fresh_node(name, zero, layout).bounds.size.width == zero,
        fresh_node(name, zero, layout).bounds.size.height == zero,
{
}

/// Law: attaching a child makes it name the parent as its parent and hold
/// exactly the properties it held and those of the parent; the parent lists it
/// last after its earlier children; every other widget is left as it was.
pub proof fn law_attach_links_and_inherits<S>(t: TreeView<S>, parent: Widget, child: Widget, w: Widget, property: Property)
    requires
        t.contains(parent),
        t.contains(child),
        parent != child,
    ensures
        attached(t, parent, child).node(child).parent == Some(parent.spec_downgrade()),
        attached(t, parent, child).node(child).props.contains(property)
            <==> t.node(child).props.contains(property) || t.node(parent).props.contains(property),
        attached(t, parent, child).node(parent).children == t.node(parent).children.push(child),
        attached(t, parent, child).node(parent).props == t.node(parent).props,
        attached(t, parent, child).node(parent).parent == t.node(parent).parent,
        attached(t, parent, child).node(child).children == t.node(child).children,
        attached(t, parent, child).node(child).name == t.node(child).name,
        attached(t, parent, child).nodes.len() == t.nodes.len(),
        t.contains(w) && w != parent && w != child ==> attached(t, parent, child).node(w) == t.node(w),
{
    assert(parent.index() != child.index());
    if t.contains(w) && w != parent && w != child {
        assert(w.index() != parent.index() && w.index() != child.index());
    }
}

/// Law: registering handler `h` for `event_type` adds `h` last to the handlers
/// of that type and leaves the handlers of every other type as they were; a
/// widget without registrations has no handlers of any type.
pub proof fn law_registering_a_handler(
    handlers: Seq<(EventType, HandlerId)>,
    event_type: EventType,
    h: HandlerId,
    other: EventType,
)
    ensures
        handlers_for(handlers.push((event_type, h)), event_type) == handlers_for(handlers, event_type).push(h),
        other != event_type ==> handlers_for(handlers.push((event_type, h)), other) == handlers_for(handlers, other),
        handlers_for(Seq::empty(), other) == Seq::<HandlerId>::empty(),
        handlers_for(handlers.push((event_type, h)), event_type).len() == handlers_for(handlers, event_type).len() + 1,
{
    assert(handlers.push((event_type, h)).drop_last() =~= handlers);
}

/// Law: a solved value of one quantity sets that quantity and no other; a solved
/// right or bottom edge leaves the bounds as they were; so values of two
/// different quantities can be taken in either order.
pub proof fn law_update_bounds_changes_one_quantity<S>(b: Rect<S>, var: VarType, other: VarType, v: S, w: S)
    ensures
        bounds_with(b, var, v).origin.x == if var == VarType::Left { v } else { b.origin.x },
        bounds_with(b, var, v).origin.y == if var == VarType::Top { v } else { b.origin.y },
        bounds_with(b, var, v).size.width == if var == VarType::Width { v } else { b.size.width },
        bounds_with(b, var, v).size.height == if var == VarType::Height { v } else { b.size.height },
        var != other ==> bounds_with(bounds_with(b, var, v), other, w) == bounds_with(bounds_with(b, other, w), var, v),
{
}

} // verus!
