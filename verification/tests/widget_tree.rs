use limn::layout::{Dimensions, LayoutConstraint, Operand, Point, Relation, Strength};
use limn::widget::{Color, EventType, HandlerId, Notice, Posted, Property, Rect, Target, VarType, Widget, WidgetId, WidgetTree};

fn root(w: Notice) -> Posted {
    Posted { target: Target::Root, notice: w }
}

fn to(widget: Widget, n: Notice) -> Posted {
    Posted { target: Target::Widget(widget), notice: n }
}

#[test]
fn new_widget_is_registered_and_fresh() {
    let mut tree: WidgetTree<f64> = WidgetTree::new(0.0);
    let a = Widget::new(&mut tree, "root");
    let b = Widget::new(&mut tree, "content");
    assert_eq!(a.id(), WidgetId(0));
    assert_eq!(b.id(), WidgetId(1));
    assert_ne!(a, b);
    assert_eq!(a.name(&tree), "root");
    assert!(a.has_updated(&tree));
    assert!(!a.props(&tree).contains(Property::Hover));
    assert_eq!(a.debug_color(&tree), None);
    assert_eq!(a.parent(&tree), None);
    assert!(a.children(&tree).is_empty());
    assert_eq!(
        a.bounds(&tree),
        Rect { origin: Point { x: 0.0, y: 0.0 }, size: Dimensions { width: 0.0, height: 0.0 } }
    );
    assert_eq!(
        tree.take_notices(),
        vec![root(Notice::RegisterWidget(a)), root(Notice::RegisterWidget(b))]
    );
    assert!(tree.take_notices().is_empty());
}

#[test]
fn add_child_links_and_inherits_props() {
    let mut tree: WidgetTree<f64> = WidgetTree::new(0.0);
    let mut parent = Widget::new(&mut tree, "parent");
    let child = Widget::new(&mut tree, "child");
    parent.add_prop(&mut tree, Property::Inactive);
    tree.take_notices();
    let child_vars = child.layout_vars(&tree);
    parent.add_child(&mut tree, child);
    assert_eq!(child.layout_vars(&tree), child_vars);
    assert_eq!(parent.children(&tree), vec![child]);
    assert_eq!(child.parent(&tree), Some(parent));
    assert!(child.props(&tree).contains(Property::Inactive));
    assert_eq!(
        tree.take_notices(),
        vec![
            root(Notice::UpdateLayout(child)),
            root(Notice::UpdateLayout(parent)),
            root(Notice::UpdateLayout(child)),
            to(parent, Notice::WidgetAttached),
            root(Notice::UpdateLayout(child)),
            to(parent, Notice::ChildAttached(parent.id(), child_vars)),
            to(parent, Notice::ChildAdded(child)),
        ]
    );
}

#[test]
fn add_child_gives_parent_props_to_child_only() {
    let mut tree: WidgetTree<f64> = WidgetTree::new(0.0);
    let mut parent = Widget::new(&mut tree, "parent");
    let mut child = Widget::new(&mut tree, "child");
    let grandchild = Widget::new(&mut tree, "grandchild");
    child.add_child(&mut tree, grandchild);
    parent.add_prop(&mut tree, Property::Selected);
    parent.add_child(&mut tree, child);
    assert!(child.props(&tree).contains(Property::Selected));
    assert!(!grandchild.props(&tree).contains(Property::Selected));
}

#[test]
fn add_prop_reaches_whole_subtree_only() {
    let mut tree: WidgetTree<f64> = WidgetTree::new(0.0);
    let mut top = Widget::new(&mut tree, "top");
    let mut a = Widget::new(&mut tree, "a");
    let b = Widget::new(&mut tree, "b");
    let a1 = Widget::new(&mut tree, "a1");
    let outside = Widget::new(&mut tree, "outside");
    a.add_child(&mut tree, a1);
    top.add_child(&mut tree, a);
    top.add_child(&mut tree, b);
    a.add_prop(&mut tree, Property::Focused);
    tree.take_notices();
    top.add_prop(&mut tree, Property::Hover);
    for w in [top, a, b, a1] {
        assert!(w.props(&tree).contains(Property::Hover));
        assert!(w.has_updated(&tree));
    }
    assert!(!outside.props(&tree).contains(Property::Hover));
    assert!(a.props(&tree).contains(Property::Focused));
    assert!(!b.props(&tree).contains(Property::Focused));
    // Each widget that changed restyles, parents before children, in child order.
    assert_eq!(
        tree.take_notices(),
        vec![
            to(top, Notice::StyleUpdated),
            to(top, Notice::StateUpdated),
            to(a, Notice::StyleUpdated),
            to(a, Notice::StateUpdated),
            to(a1, Notice::StyleUpdated),
            to(a1, Notice::StateUpdated),
            to(b, Notice::StyleUpdated),
            to(b, Notice::StateUpdated),
        ]
    );
    // Adding it again changes nothing and raises nothing.
    top.add_prop(&mut tree, Property::Hover);
    assert!(tree.take_notices().is_empty());
}

#[test]
fn add_prop_skips_widgets_that_hold_it() {
    let mut tree: WidgetTree<f64> = WidgetTree::new(0.0);
    let mut top = Widget::new(&mut tree, "top");
    let mut a = Widget::new(&mut tree, "a");
    top.add_child(&mut tree, a);
    a.add_prop(&mut tree, Property::Pressed);
    tree.take_notices();
    top.add_prop(&mut tree, Property::Pressed);
    assert_eq!(tree.take_notices(), vec![to(top, Notice::StyleUpdated), to(top, Notice::StateUpdated)]);
}

#[test]
fn remove_prop_undoes_add_prop() {
    let mut tree: WidgetTree<f64> = WidgetTree::new(0.0);
    let mut top = Widget::new(&mut tree, "top");
    let child = Widget::new(&mut tree, "child");
    top.add_child(&mut tree, child);
    top.add_prop(&mut tree, Property::Activated);
    top.remove_prop(&mut tree, Property::Activated);
    assert!(!top.props(&tree).contains(Property::Activated));
    assert!(!child.props(&tree).contains(Property::Activated));
    tree.take_notices();
    // Removing an absent property raises nothing.
    top.remove_prop(&mut tree, Property::Activated);
    assert!(tree.take_notices().is_empty());
}

#[test]
fn remove_prop_restyles_holders() {
    let mut tree: WidgetTree<f64> = WidgetTree::new(0.0);
    let mut top = Widget::new(&mut tree, "top");
    let mut child = Widget::new(&mut tree, "child");
    top.add_child(&mut tree, child);
    child.add_prop(&mut tree, Property::Hover);
    tree.take_notices();
    top.remove_prop(&mut tree, Property::Hover);
    assert!(!child.props(&tree).contains(Property::Hover));
    assert_eq!(tree.take_notices(), vec![to(child, Notice::StyleUpdated), to(child, Notice::StateUpdated)]);
}

#[test]
fn remove_child_takes_first_occurrence_and_notifies() {
    let mut tree: WidgetTree<f64> = WidgetTree::new(0.0);
    let mut parent = Widget::new(&mut tree, "parent");
    let a = Widget::new(&mut tree, "a");
    let b = Widget::new(&mut tree, "b");
    parent.add_child(&mut tree, a);
    parent.add_child(&mut tree, b);
    parent.add_child(&mut tree, a);
    tree.take_notices();
    parent.remove_child(&mut tree, a);
    assert_eq!(parent.children(&tree), vec![b, a]);
    // The removed child still names its parent.
    assert_eq!(a.parent(&tree), Some(parent));
    assert_eq!(
        tree.take_notices(),
        vec![
            root(Notice::UpdateLayout(parent)),
            root(Notice::UpdateLayout(a)),
            to(parent, Notice::ChildRemoved(a)),
            to(a, Notice::WidgetDetached),
            root(Notice::RemoveWidget(a)),
        ]
    );
}

#[test]
fn remove_child_not_there_keeps_children() {
    let mut tree: WidgetTree<f64> = WidgetTree::new(0.0);
    let mut parent = Widget::new(&mut tree, "parent");
    let a = Widget::new(&mut tree, "a");
    let stranger = Widget::new(&mut tree, "stranger");
    parent.add_child(&mut tree, a);
    tree.take_notices();
    parent.remove_child(&mut tree, stranger);
    assert_eq!(parent.children(&tree), vec![a]);
    assert_eq!(tree.take_notices().len(), 5);
}

#[test]
fn remove_child_undoes_add_child() {
    let mut tree: WidgetTree<f64> = WidgetTree::new(0.0);
    let mut parent = Widget::new(&mut tree, "parent");
    let a = Widget::new(&mut tree, "a");
    let b = Widget::new(&mut tree, "b");
    parent.add_child(&mut tree, a);
    let before = parent.children(&tree);
    parent.add_child(&mut tree, b);
    parent.remove_child(&mut tree, b);
    assert_eq!(parent.children(&tree), before);
}

#[test]
fn remove_widget_detaches_from_parent() {
    let mut tree: WidgetTree<f64> = WidgetTree::new(0.0);
    let mut parent = Widget::new(&mut tree, "parent");
    let mut child = Widget::new(&mut tree, "child");
    parent.add_child(&mut tree, child);
    tree.take_notices();
    child.remove_widget(&mut tree);
    assert!(parent.children(&tree).is_empty());
    assert_eq!(tree.take_notices().last(), Some(&root(Notice::RemoveWidget(child))));
    // A widget without parent: nothing happens.
    let mut lone = Widget::new(&mut tree, "lone");
    tree.take_notices();
    lone.remove_widget(&mut tree);
    assert!(tree.take_notices().is_empty());
}

#[test]
fn child_finds_first_by_name() {
    let mut tree: WidgetTree<f64> = WidgetTree::new(0.0);
    let mut parent = Widget::new(&mut tree, "edit_text_box");
    let x = Widget::new(&mut tree, "edit_text_text");
    let y = Widget::new(&mut tree, "edit_text_text");
    let z = Widget::new(&mut tree, "other");
    parent.add_child(&mut tree, z).add_child(&mut tree, x).add_child(&mut tree, y);
    assert_eq!(parent.child(&tree, "edit_text_text"), Some(x));
    assert_eq!(parent.child(&tree, "other"), Some(z));
    assert_eq!(parent.child(&tree, "missing"), None);
    assert_eq!(parent.child(&tree, "edit_text_box"), None);
}

#[test]
fn update_bounds_sets_each_quantity() {
    let mut tree: WidgetTree<f64> = WidgetTree::new(0.0);
    let mut w = Widget::new(&mut tree, "w");
    tree.take_notices();
    w.update_bounds(&mut tree, VarType::Left, 1.5);
    w.update_bounds(&mut tree, VarType::Top, 2.5);
    w.update_bounds(&mut tree, VarType::Width, 30.0);
    w.update_bounds(&mut tree, VarType::Height, 40.0);
    w.update_bounds(&mut tree, VarType::Right, 99.0);
    w.update_bounds(&mut tree, VarType::Bottom, 98.0);
    assert_eq!(
        w.bounds(&tree),
        Rect { origin: Point { x: 1.5, y: 2.5 }, size: Dimensions { width: 30.0, height: 40.0 } }
    );
    assert_eq!(tree.take_notices(), vec![to(w, Notice::LayoutUpdated); 6]);
}

#[test]
fn name_color_and_updated_flag() {
    let mut tree: WidgetTree<f64> = WidgetTree::new(0.0);
    let mut w = Widget::new(&mut tree, "old");
    tree.take_notices();
    w.set_name(&mut tree, "new").set_debug_color(&mut tree, Color([1.0, 0.0, 0.0, 1.0]));
    assert_eq!(w.name(&tree), "new");
    assert_eq!(w.debug_color(&tree), Some(Color([1.0, 0.0, 0.0, 1.0])));
    assert_eq!(tree.take_notices(), vec![root(Notice::UpdateLayout(w))]);
    w.set_updated(&mut tree, false);
    assert!(!w.has_updated(&tree));
    w.set_updated(&mut tree, true);
    assert!(w.has_updated(&tree));
}

#[test]
fn add_prop_marks_updated_again() {
    let mut tree: WidgetTree<f64> = WidgetTree::new(0.0);
    let mut w = Widget::new(&mut tree, "w");
    w.set_updated(&mut tree, false);
    w.add_prop(&mut tree, Property::Hover);
    assert!(w.has_updated(&tree));
}

#[test]
fn weak_handles_upgrade_within_the_tree() {
    let mut tree: WidgetTree<f64> = WidgetTree::new(0.0);
    let w = Widget::new(&mut tree, "w");
    let weak = w.downgrade();
    assert_eq!(weak.upgrade(&tree), Some(w));
    let other: WidgetTree<f64> = WidgetTree::new(0.0);
    assert_eq!(weak.upgrade(&other), None);
}

#[test]
fn widgets_equal_by_id() {
    let mut tree: WidgetTree<f64> = WidgetTree::new(0.0);
    let w = Widget::new(&mut tree, "same");
    let v = Widget::new(&mut tree, "same");
    let copy = w;
    assert_eq!(w, copy);
    assert_ne!(w, v);
}

#[test]
fn events_go_to_their_targets() {
    let mut tree: WidgetTree<f64> = WidgetTree::new(0.0);
    let w = Widget::new(&mut tree, "w");
    tree.take_notices();
    w.event(&mut tree, Notice::StateUpdated);
    w.event_subtree(&mut tree, Notice::StyleUpdated);
    w.event_bubble_up(&mut tree, Notice::LayoutUpdated);
    assert_eq!(
        tree.take_notices(),
        vec![
            Posted { target: Target::Widget(w), notice: Notice::StateUpdated },
            Posted { target: Target::SubTree(w), notice: Notice::StyleUpdated },
            Posted { target: Target::BubbleUp(w), notice: Notice::LayoutUpdated },
        ]
    );
}

#[test]
fn trigger_event_lists_handlers_of_that_type_in_order() {
    let mut tree: WidgetTree<f64> = WidgetTree::new(0.0);
    let mut w = Widget::new(&mut tree, "w");
    let click = EventType(7);
    let key = EventType(9);
    w.add_handler(&mut tree, click, HandlerId(0))
        .add_handler(&mut tree, key, HandlerId(1))
        .add_handler(&mut tree, click, HandlerId(2));
    assert_eq!(w.trigger_event(&tree, click), vec![HandlerId(0), HandlerId(2)]);
    assert_eq!(w.trigger_event(&tree, key), vec![HandlerId(1)]);
    assert!(w.trigger_event(&tree, EventType(3)).is_empty());
    let other = Widget::new(&mut tree, "other");
    assert!(other.trigger_event(&tree, click).is_empty());
}

#[test]
fn new_widgets_of_a_tree_are_all_distinct() {
    let mut tree: WidgetTree<f64> = WidgetTree::new(0.0);
    let mut made = Vec::new();
    for _ in 0..10 {
        let w = Widget::new(&mut tree, "same name");
        assert!(!made.contains(&w));
        made.push(w);
    }
}

#[test]
fn attaching_a_parentless_child_keeps_a_forest() {
    let mut tree: WidgetTree<f64> = WidgetTree::new(0.0);
    let mut root_w = Widget::new(&mut tree, "root");
    let mut a = Widget::new(&mut tree, "a");
    let b = Widget::new(&mut tree, "b");
    a.add_child(&mut tree, b);
    root_w.add_child(&mut tree, a);
    for parent in [root_w, a, b] {
        for c in parent.children(&tree) {
            assert_eq!(c.parent(&tree), Some(parent));
        }
    }
    assert_eq!(b.parent(&tree), Some(a));
    assert_eq!(root_w.parent(&tree), None);
}

fn bounded(a: limn::layout::LayoutVars, b: limn::layout::LayoutVars, scroll: bool) -> Vec<LayoutConstraint<f64>> {
    let c = |lhs, relation, rhs, strength| LayoutConstraint {
        lhs: Operand::Var(lhs),
        relation,
        rhs: Operand::Var(rhs),
        strength,
    };
    if scroll {
        vec![
            c(a.left, Relation::LessOrEqual, b.left, Strength::Required),
            c(a.top, Relation::LessOrEqual, b.top, Strength::Required),
            c(a.right, Relation::GreaterOrEqual, b.right, Strength::Strong),
            c(a.bottom, Relation::GreaterOrEqual, b.bottom, Strength::Strong),
        ]
    } else {
        vec![
            c(a.left, Relation::GreaterOrEqual, b.left, Strength::Required),
            c(a.top, Relation::GreaterOrEqual, b.top, Strength::Required),
            c(a.right, Relation::LessOrEqual, b.right, Strength::Required),
            c(a.bottom, Relation::LessOrEqual, b.bottom, Strength::Required),
        ]
    }
}

#[test]
fn new_widgets_have_their_own_empty_layouts() {
    let mut tree: WidgetTree<f64> = WidgetTree::new(0.0);
    let mut a = Widget::new(&mut tree, "a");
    let mut b = Widget::new(&mut tree, "b");
    assert_ne!(a.layout_vars(&tree), b.layout_vars(&tree));
    assert!(a.layout(&mut tree).constraints.is_empty());
    assert!(!b.layout(&mut tree).scrollable);
}

#[test]
fn add_child_keeps_child_layout_inside_parent() {
    let mut tree: WidgetTree<f64> = WidgetTree::new(0.0);
    let mut parent = Widget::new(&mut tree, "parent");
    let mut child = Widget::new(&mut tree, "child");
    parent.add_child(&mut tree, child);
    let expected = bounded(child.layout_vars(&tree), parent.layout_vars(&tree), false);
    assert_eq!(child.layout(&mut tree).constraints, expected);
    assert!(parent.layout(&mut tree).constraints.is_empty());
}

#[test]
fn add_child_scrolls_child_inside_scrollable_parent() {
    let mut tree: WidgetTree<f64> = WidgetTree::new(0.0);
    let mut parent = Widget::new(&mut tree, "parent");
    let mut child = Widget::new(&mut tree, "child");
    parent.layout(&mut tree).scrollable = true;
    parent.add_child(&mut tree, child);
    let expected = bounded(child.layout_vars(&tree), parent.layout_vars(&tree), true);
    assert_eq!(child.layout(&mut tree).constraints, expected);
}

#[test]
fn layout_asks_for_an_update_and_keeps_edits() {
    let mut tree: WidgetTree<f64> = WidgetTree::new(0.0);
    let mut w = Widget::new(&mut tree, "w");
    tree.take_notices();
    w.layout(&mut tree).width(40.0);
    assert_eq!(tree.take_notices(), vec![root(Notice::UpdateLayout(w))]);
    let vars = w.layout_vars(&tree);
    assert_eq!(
        w.layout(&mut tree).constraints,
        vec![LayoutConstraint {
            lhs: Operand::Diff(vars.right, vars.left),
            relation: Relation::Equal,
            rhs: Operand::Value(40.0),
            strength: Strength::Required,
        }]
    );
}

#[test]
fn add_prop_restyles_a_repeated_child_once() {
    let mut tree: WidgetTree<f64> = WidgetTree::new(0.0);
    let mut parent = Widget::new(&mut tree, "parent");
    let a = Widget::new(&mut tree, "a");
    let b = Widget::new(&mut tree, "b");
    parent.add_child(&mut tree, a).add_child(&mut tree, b).add_child(&mut tree, a);
    tree.take_notices();
    parent.add_prop(&mut tree, Property::Hover);
    assert_eq!(
        tree.take_notices(),
        vec![
            to(parent, Notice::StyleUpdated),
            to(parent, Notice::StateUpdated),
            to(a, Notice::StyleUpdated),
            to(a, Notice::StateUpdated),
            to(b, Notice::StyleUpdated),
            to(b, Notice::StateUpdated),
        ]
    );
}

#[test]
fn removing_a_child_keeps_a_forest() {
    let mut tree: WidgetTree<f64> = WidgetTree::new(0.0);
    let mut root_w = Widget::new(&mut tree, "root");
    let mut a = Widget::new(&mut tree, "a");
    let b = Widget::new(&mut tree, "b");
    let c = Widget::new(&mut tree, "c");
    a.add_child(&mut tree, b);
    root_w.add_child(&mut tree, a).add_child(&mut tree, c);
    root_w.remove_child(&mut tree, a);
    assert_eq!(root_w.children(&tree), vec![c]);
    assert_eq!(a.children(&tree), vec![b]);
    for parent in [root_w, a, b, c] {
        for child in parent.children(&tree) {
            assert_eq!(child.parent(&tree), Some(parent));
        }
    }
}
