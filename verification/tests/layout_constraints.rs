use limn::layout::{
    Dimensions, LayoutConstraint, LinearLayout, Operand, Orientation, Point, Relation, Strength,
    WidgetLayout,
};

fn c(
    lhs: Operand<f64>,
    relation: Relation,
    rhs: Operand<f64>,
    strength: Strength<f64>,
) -> LayoutConstraint<f64> {
    LayoutConstraint { lhs, relation, rhs, strength }
}

#[test]
fn new_layout_is_empty_with_distinct_edges() {
    let l: WidgetLayout<f64> = WidgetLayout::new();
    assert!(!l.scrollable);
    assert!(l.constraints.is_empty());
    let edges = [l.left, l.top, l.right, l.bottom];
    for i in 0..4 {
        for j in 0..4 {
            if i != j {
                assert_ne!(edges[i], edges[j]);
            }
        }
    }
}

#[test]
fn match_width_and_height() {
    let mut a: WidgetLayout<f64> = WidgetLayout::new();
    let b: WidgetLayout<f64> = WidgetLayout::new();
    a.match_width(&b);
    assert_eq!(
        a.constraints,
        vec![
            c(Operand::Var(a.left), Relation::Equal, Operand::Var(b.left), Strength::Required),
            c(Operand::Var(a.right), Relation::Equal, Operand::Var(b.right), Strength::Required),
        ]
    );
    a.match_height(&b);
    assert_eq!(a.constraints.len(), 4);
    assert_eq!(a.constraints[2], c(Operand::Var(a.top), Relation::Equal, Operand::Var(b.top), Strength::Required));
    assert_eq!(a.constraints[3], c(Operand::Var(a.bottom), Relation::Equal, Operand::Var(b.bottom), Strength::Required));
}

#[test]
fn match_layout_is_width_then_height() {
    let b: WidgetLayout<f64> = WidgetLayout::new();
    let mut a: WidgetLayout<f64> = WidgetLayout::new();
    a.match_layout(&b);
    let mut expected = WidgetLayout::<f64>::new();
    expected.left = a.left;
    expected.top = a.top;
    expected.right = a.right;
    expected.bottom = a.bottom;
    expected.match_width(&b);
    expected.match_height(&b);
    assert_eq!(a.constraints, expected.constraints);
}

#[test]
fn width_height_and_dimensions() {
    let mut a: WidgetLayout<f64> = WidgetLayout::new();
    a.width(200.0);
    a.height(100.0);
    assert_eq!(
        a.constraints,
        vec![
            c(Operand::Diff(a.right, a.left), Relation::Equal, Operand::Value(200.0), Strength::Required),
            c(Operand::Diff(a.bottom, a.top), Relation::Equal, Operand::Value(100.0), Strength::Required),
        ]
    );
    let mut d: WidgetLayout<f64> = WidgetLayout::new();
    d.dimensions(Dimensions { width: 400.0, height: 300.0 });
    assert_eq!(
        d.constraints,
        vec![
            c(Operand::Diff(d.right, d.left), Relation::Equal, Operand::Value(400.0), Strength::Required),
            c(Operand::Diff(d.bottom, d.top), Relation::Equal, Operand::Value(300.0), Strength::Required),
        ]
    );
}

#[test]
fn width_and_height_with_strength() {
    let mut a: WidgetLayout<f64> = WidgetLayout::new();
    a.width_strength(50.0, 1000.0);
    a.height_strength(60.0, 1.0);
    assert_eq!(
        a.constraints,
        vec![
            c(Operand::Diff(a.right, a.left), Relation::Equal, Operand::Value(50.0), Strength::Weight(1000.0)),
            c(Operand::Diff(a.bottom, a.top), Relation::Equal, Operand::Value(60.0), Strength::Weight(1.0)),
        ]
    );
}

#[test]
fn top_left_places_corner() {
    let mut a: WidgetLayout<f64> = WidgetLayout::new();
    a.top_left(Point { x: 10.0, y: 20.0 });
    assert_eq!(
        a.constraints,
        vec![
            c(Operand::Var(a.left), Relation::Equal, Operand::Value(10.0), Strength::Required),
            c(Operand::Var(a.top), Relation::Equal, Operand::Value(20.0), Strength::Required),
        ]
    );
}

#[test]
fn pad_keeps_distance_on_every_side() {
    let outer: WidgetLayout<f64> = WidgetLayout::new();
    let mut a: WidgetLayout<f64> = WidgetLayout::new();
    a.pad(100.0, &outer);
    assert_eq!(
        a.constraints,
        vec![
            c(Operand::Diff(a.left, outer.left), Relation::GreaterOrEqual, Operand::Value(100.0), Strength::Required),
            c(Operand::Diff(a.top, outer.top), Relation::GreaterOrEqual, Operand::Value(100.0), Strength::Required),
            c(Operand::Diff(outer.right, a.right), Relation::GreaterOrEqual, Operand::Value(100.0), Strength::Required),
            c(Operand::Diff(outer.bottom, a.bottom), Relation::GreaterOrEqual, Operand::Value(100.0), Strength::Required),
        ]
    );
}

#[test]
fn center_is_horizontal_then_vertical() {
    let outer: WidgetLayout<f64> = WidgetLayout::new();
    let mut a: WidgetLayout<f64> = WidgetLayout::new();
    a.center(&outer);
    assert_eq!(
        a.constraints,
        vec![
            c(Operand::Diff(a.left, outer.left), Relation::Equal, Operand::Diff(outer.right, a.right), Strength::Required),
            c(Operand::Diff(a.top, outer.top), Relation::Equal, Operand::Diff(outer.bottom, a.bottom), Strength::Required),
        ]
    );
}

#[test]
fn align_each_edge() {
    let outer: WidgetLayout<f64> = WidgetLayout::new();
    let mut a: WidgetLayout<f64> = WidgetLayout::new();
    a.align_top(&outer);
    a.align_bottom(&outer);
    a.align_left(&outer);
    a.align_right(&outer);
    assert_eq!(
        a.constraints,
        vec![
            c(Operand::Var(a.top), Relation::Equal, Operand::Var(outer.top), Strength::Required),
            c(Operand::Var(a.bottom), Relation::Equal, Operand::Var(outer.bottom), Strength::Required),
            c(Operand::Var(a.left), Relation::Equal, Operand::Var(outer.left), Strength::Required),
            c(Operand::Var(a.right), Relation::Equal, Operand::Var(outer.right), Strength::Required),
        ]
    );
}

#[test]
fn add_child_bounds_child_in_fixed_parent() {
    let parent: WidgetLayout<f64> = WidgetLayout::new();
    let mut child: WidgetLayout<f64> = WidgetLayout::new();
    parent.add_child(&mut child);
    assert_eq!(
        child.constraints,
        vec![
            c(Operand::Var(child.left), Relation::GreaterOrEqual, Operand::Var(parent.left), Strength::Required),
            c(Operand::Var(child.top), Relation::GreaterOrEqual, Operand::Var(parent.top), Strength::Required),
            c(Operand::Var(child.right), Relation::LessOrEqual, Operand::Var(parent.right), Strength::Required),
            c(Operand::Var(child.bottom), Relation::LessOrEqual, Operand::Var(parent.bottom), Strength::Required),
        ]
    );
}

#[test]
fn add_child_scrolls_child_in_scrollable_parent() {
    let mut parent: WidgetLayout<f64> = WidgetLayout::new();
    parent.scrollable = true;
    let mut child: WidgetLayout<f64> = WidgetLayout::new();
    parent.add_child(&mut child);
    assert_eq!(
        child.constraints,
        vec![
            c(Operand::Var(child.left), Relation::LessOrEqual, Operand::Var(parent.left), Strength::Required),
            c(Operand::Var(child.top), Relation::LessOrEqual, Operand::Var(parent.top), Strength::Required),
            c(Operand::Var(child.right), Relation::GreaterOrEqual, Operand::Var(parent.right), Strength::Strong),
            c(Operand::Var(child.bottom), Relation::GreaterOrEqual, Operand::Var(parent.bottom), Strength::Strong),
        ]
    );
    // The parent gains nothing.
    assert!(parent.constraints.is_empty());
}

#[test]
fn add_constraints_appends_in_order_and_keeps_earlier_ones() {
    let other: WidgetLayout<f64> = WidgetLayout::new();
    let mut a: WidgetLayout<f64> = WidgetLayout::new();
    a.width(5.0);
    let first = a.constraints[0];
    let more = [
        c(Operand::Var(a.left), Relation::Equal, Operand::Var(other.left), Strength::Strong),
        c(Operand::Value(1.0), Relation::LessOrEqual, Operand::Var(a.top), Strength::Weight(2.0)),
    ];
    a.add_constraints(&more);
    assert_eq!(a.constraints, vec![first, more[0], more[1]]);
    a.add_constraints(&[]);
    assert_eq!(a.constraints.len(), 3);
    a.add_constraint(more[1]);
    assert_eq!(a.constraints[3], more[1]);
}

#[test]
fn linear_layout_chains_widgets_horizontally() {
    let parent: WidgetLayout<f64> = WidgetLayout::new();
    let mut linear = LinearLayout::new(Orientation::Horizontal, &parent);
    assert_eq!(linear.end, parent.left);
    let mut first: WidgetLayout<f64> = WidgetLayout::new();
    let mut second: WidgetLayout<f64> = WidgetLayout::new();
    linear.add_widget(&mut first);
    assert_eq!(linear.end, first.right);
    linear.add_widget(&mut second);
    assert_eq!(linear.end, second.right);
    assert_eq!(
        first.constraints,
        vec![c(Operand::Var(first.left), Relation::GreaterOrEqual, Operand::Var(parent.left), Strength::Required)]
    );
    assert_eq!(
        second.constraints,
        vec![c(Operand::Var(second.left), Relation::GreaterOrEqual, Operand::Var(first.right), Strength::Required)]
    );
}

#[test]
fn linear_layout_chains_widgets_vertically() {
    let parent: WidgetLayout<f64> = WidgetLayout::new();
    let mut linear = LinearLayout::new(Orientation::Vertical, &parent);
    assert_eq!(linear.end, parent.top);
    let mut first: WidgetLayout<f64> = WidgetLayout::new();
    let mut second: WidgetLayout<f64> = WidgetLayout::new();
    linear.add_widget(&mut first);
    linear.add_widget(&mut second);
    assert_eq!(linear.orientation, Orientation::Vertical);
    assert_eq!(linear.end, second.bottom);
    assert_eq!(
        second.constraints,
        vec![c(Operand::Var(second.top), Relation::GreaterOrEqual, Operand::Var(first.bottom), Strength::Required)]
    );
}

#[test]
fn beginning_and_ending_by_orientation() {
    let l: WidgetLayout<f64> = WidgetLayout::new();
    assert_eq!(LinearLayout::beginning(Orientation::Horizontal, &l), l.left);
    assert_eq!(LinearLayout::beginning(Orientation::Vertical, &l), l.top);
    assert_eq!(LinearLayout::ending(Orientation::Horizontal, &l), l.right);
    assert_eq!(LinearLayout::ending(Orientation::Vertical, &l), l.bottom);
}
