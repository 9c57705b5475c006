use vstd::prelude::*;
use cassowary::Variable;

verus! {

/// The cassowary solver variable that stands for one edge of a widget.
#[verifier::external_type_specification]
#[verifier::external_body]
pub struct ExVariable(cassowary::Variable);

/// Four calls of `cassowary::Variable::new`, which takes each variable's number
/// from one process-wide counter that it bumps by one, so the four variables
/// differ from one another. Left unsaid: that they differ from every variable
/// handed out before (that counter is state outside the arguments), and that the
/// counter does not wrap around, which would take `usize::MAX` calls.
#[verifier::external_body]
fn four_variables() -> (res: (Variable, Variable, Variable, Variable))
    ensures
        res.0 != res.1,
        res.0 != res.2,
        res.0 != res.3,
        res.1 != res.2,
        res.1 != res.3,
        res.2 != res.3,
{
    (Variable::new(), Variable::new(), Variable::new(), Variable::new())
}

/// `Variable` derives `Copy` together with `Clone`, so its `clone` returns the
/// variable it is called on. The `Clone` impls derived for the types below that
/// hold a `Variable` (`Operand`, `LayoutConstraint`, `LayoutVars`) call it, and
/// Verus refuses them without a specification of it.
pub assume_specification[ <cassowary::Variable as Clone>::clone ](v: &Variable) -> (res: Variable)
    ensures
        res == *v,
;

/// The direction in which a `LinearLayout` places widgets one after another.
#[derive(Clone, Copy, Debug, PartialEq, Eq, Structural)]
pub enum Orientation {
    Horizontal,
    Vertical,
}

/// How the two sides of a constraint are related.
#[derive(Clone, Copy, Debug, PartialEq, Eq, Structural)]
pub enum Relation {
    Equal,
    GreaterOrEqual,
    LessOrEqual,
}

/// How hard the solver tries to satisfy a constraint: `Required` and `Strong` are
/// the solver's named strengths; `Weight` carries a caller-chosen strength.
#[derive(Clone, Copy, Debug, PartialEq)]
pub enum Strength<S> {
    Required,
    Strong,
    Weight(S),
}

/// One side of a constraint: an edge variable, the difference of two edge
/// variables (`first - second`), or a scalar value.
#[derive(Clone, Copy, Debug, PartialEq)]
pub enum Operand<S> {
    Var(Variable),
    Diff(Variable, Variable),
    Value(S),
}

/// A linear constraint `lhs relation rhs` held with the given strength,
/// over scalars of type `S`.
#[derive(Clone, Copy, Debug, PartialEq)]
pub struct LayoutConstraint<S> {
    pub lhs: Operand<S>,
    pub relation: Relation,
    pub rhs: Operand<S>,
    pub strength: Strength<S>,
}

/// A point given by its two coordinates.
#[derive(Clone, Copy, Debug, PartialEq)]
pub struct Point<S> {
    pub x: S,
    pub y: S,
}

/// A width and a height.
#[derive(Clone, Copy, Debug, PartialEq)]
pub struct Dimensions<S> {
    pub width: S,
    pub height: S,
}

/// The four edge variables of a layout.
#[derive(Clone, Copy, Debug, PartialEq, Eq)]
pub struct LayoutVars {
    pub left: Variable,
    pub top: Variable,
    pub right: Variable,
    pub bottom: Variable,
}

/// The constraint `lhs relation rhs` with strength `strength`.
pub open spec fn spec_constraint<S>(
    lhs: Operand<S>,
    relation: Relation,
    rhs: Operand<S>,
    strength: Strength<S>,
) -> LayoutConstraint<S> {
    LayoutConstraint { lhs, relation, rhs, strength }
}

/// `a == b`, required.
pub open spec fn eq_vars<S>(a: Variable, b: Variable) -> LayoutConstraint<S> {
    spec_constraint(Operand::Var(a), Relation::Equal, Operand::Var(b), Strength::Required)
}

/// `a >= b` with the given strength.
pub open spec fn ge_vars<S>(a: Variable, b: Variable, s: Strength<S>) -> LayoutConstraint<S> {
    spec_constraint(Operand::Var(a), Relation::GreaterOrEqual, Operand::Var(b), s)
}

/// `a <= b` with the given strength.
pub open spec fn le_vars<S>(a: Variable, b: Variable, s: Strength<S>) -> LayoutConstraint<S> {
    spec_constraint(Operand::Var(a), Relation::LessOrEqual, Operand::Var(b), s)
}

fn constraint<S>(
    lhs: Operand<S>,
    relation: Relation,
    rhs: Operand<S>,
    strength: Strength<S>,
) -> (c: LayoutConstraint<S>)
    ensures
        c == spec_constraint(lhs, relation, rhs, strength),
{
    LayoutConstraint { lhs, relation, rhs, strength }
}

/// The four edge variables of a widget, whether its content scrolls, and the
/// constraints gathered for it so far, in the order they were added.
pub struct WidgetLayout<S> {
    pub left: Variable,
    pub top: Variable,
    pub right: Variable,
    pub bottom: Variable,
    pub scrollable: bool,
    pub constraints: Vec<LayoutConstraint<S>>,
}

/// What a `WidgetLayout` holds, with its constraints as a sequence.
#[verifier::ext_equal]
pub struct LayoutView<S> {
    pub left: Variable,
    pub top: Variable,
    pub right: Variable,
    pub bottom: Variable,
    pub scrollable: bool,
    pub constraints: Seq<LayoutConstraint<S>>,
}

impl<S> View for WidgetLayout<S> {
    type V = LayoutView<S>;

    open spec fn view(&self) -> LayoutView<S> {
        LayoutView {
            left: self.left,
            top: self.top,
            right: self.right,
            bottom: self.bottom,
            scrollable: self.scrollable,
            constraints: self.constraints@,
        }
    }
}

impl<S> LayoutView<S> {
    /// The four edge variables.
    pub open spec fn vars(self) -> LayoutVars {
        LayoutVars { left: self.left, top: self.top, right: self.right, bottom: self.bottom }
    }

    /// Whether the four edge variables differ from one another.
    pub open spec fn edges_distinct(self) -> bool {
        &&& self.left != self.top
        &&& self.left != self.right
        &&& self.left != self.bottom
        &&& self.top != self.right
        &&& self.top != self.bottom
        &&& self.right != self.bottom
    }

    /// The constraints that placing a child layout in this layout gives the
    /// child: scrolled inside it when this layout scrolls, bounded by it otherwise.
    pub open spec fn child_constraints(self, child: LayoutView<S>) -> Seq<LayoutConstraint<S>> {
        if self.scrollable {
            child.scroll_inside_constraints(self)
        } else {
            child.bound_by_constraints(self)
        }
    }
    /// The same layout with `more` appended to its constraints.
    pub open spec fn with_added(self, more: Seq<LayoutConstraint<S>>) -> LayoutView<S> {
        LayoutView { constraints: self.constraints + more, ..self }
    }

    /// The constraints that make this layout's left and right edges those of `other`.
    pub open spec fn match_width_constraints(self, other: LayoutView<S>) -> Seq<LayoutConstraint<S>> {
        seq![eq_vars(self.left, other.left), eq_vars(self.right, other.right)]
    }

    /// The constraints that make this layout's top and bottom edges those of `other`.
    pub open spec fn match_height_constraints(self, other: LayoutView<S>) -> Seq<LayoutConstraint<S>> {
        seq![eq_vars(self.top, other.top), eq_vars(self.bottom, other.bottom)]
    }

    /// The required constraint `right - left == width`.
    pub open spec fn width_constraint(self, width: S, strength: Strength<S>) -> LayoutConstraint<S> {
        spec_constraint(Operand::Diff(self.right, self.left), Relation::Equal, Operand::Value(width), strength)
    }

    /// The constraint `bottom - top == height`.
    pub open spec fn height_constraint(self, height: S, strength: Strength<S>) -> LayoutConstraint<S> {
        spec_constraint(Operand::Diff(self.bottom, self.top), Relation::Equal, Operand::Value(height), strength)
    }

    /// Equal gaps on the left and on the right, inside `outer`.
    pub open spec fn center_horizontal_constraint(self, outer: LayoutView<S>) -> LayoutConstraint<S> {
        spec_constraint(
            Operand::Diff(self.left, outer.left),
            Relation::Equal,
            Operand::Diff(outer.right, self.right),
            Strength::Required,
        )
    }

    /// Equal gaps at the top and at the bottom, inside `outer`.
    pub open spec fn center_vertical_constraint(self, outer: LayoutView<S>) -> LayoutConstraint<S> {
        spec_constraint(
            Operand::Diff(self.top, outer.top),
            Relation::Equal,
            Operand::Diff(outer.bottom, self.bottom),
            Strength::Required,
        )
    }

    /// The gaps of at least `distance` between each edge and the same edge of `outer`.
    pub open spec fn pad_constraints(self, distance: S, outer: LayoutView<S>) -> Seq<LayoutConstraint<S>> {
        seq![
            spec_constraint(Operand::Diff(self.left, outer.left), Relation::GreaterOrEqual, Operand::Value(distance), Strength::Required),
            spec_constraint(Operand::Diff(self.top, outer.top), Relation::GreaterOrEqual, Operand::Value(distance), Strength::Required),
            spec_constraint(Operand::Diff(outer.right, self.right), Relation::GreaterOrEqual, Operand::Value(distance), Strength::Required),
            spec_constraint(Operand::Diff(outer.bottom, self.bottom), Relation::GreaterOrEqual, Operand::Value(distance), Strength::Required),
        ]
    }

    /// The required constraints that keep this layout inside `outer`.
    pub open spec fn bound_by_constraints(self, outer: LayoutView<S>) -> Seq<LayoutConstraint<S>> {
        seq![
            ge_vars(self.left, outer.left, Strength::Required),
            ge_vars(self.top, outer.top, Strength::Required),
            le_vars(self.right, outer.right, Strength::Required),
            le_vars(self.bottom, outer.bottom, Strength::Required),
        ]
    }

    /// The constraints that let this layout extend past `outer` on every side:
    /// required at the left and top, strong at the right and bottom.
    pub open spec fn scroll_inside_constraints(self, outer: LayoutView<S>) -> Seq<LayoutConstraint<S>> {
        seq![
            le_vars(self.left, outer.left, Strength::Required),
            le_vars(self.top, outer.top, Strength::Required),
            ge_vars(self.right, outer.right, Strength::Strong),
            ge_vars(self.bottom, outer.bottom, Strength::Strong),
        ]
    }
}

impl<S: Copy> WidgetLayout<S> {
    /// A layout with four fresh edge variables, not scrollable, without constraints.
    pub fn new() -> (layout: Self)
        ensures
            !layout.scrollable,
            layout.constraints@ == Seq::<LayoutConstraint<S>>::empty(),
            layout.left != layout.top,
            layout.left != layout.right,
            layout.left != layout.bottom,
            layout.top != layout.right,
            layout.top != layout.bottom,
            layout.right != layout.bottom,
    {
        let (left, top, right, bottom) = four_variables();
        WidgetLayout {
            left: left,
            top: top,
            right: right,
            bottom: bottom,
            scrollable: false,
            constraints: Vec::new(),
        }
    }

    /// Appends one constraint.
    pub fn add_constraint(&mut self, constraint: LayoutConstraint<S>)
        ensures
            final(self)@ == old(self)@.with_added(seq![constraint]),
    {
        self.constraints.push(constraint);
    }

    /// Appends the given constraints, in their order.
    pub fn add_constraints(&mut self, constraints: &[LayoutConstraint<S>])
        ensures
            final(self)@ == old(self)@.with_added(constraints@),
    {
        let n: usize = constraints.len();
        let mut i: usize = 0;
        while i < n
            invariant
                n == constraints@.len(),
                i <= n,
                self@ == old(self)@.with_added(constraints@.take(i as int)),
            decreases n - i,
        {
            self.constraints.push(constraints[i]);
            assert(constraints@.take(i as int + 1) == constraints@.take(i as int).push(constraints@[i as int]));
            i = i + 1;
        }
        assert(constraints@.take(n as int) == constraints@);
    }

    /// The four edge variables.
    pub fn vars(&self) -> (vars: LayoutVars)
        ensures
            vars == self@.vars(),
    {
        LayoutVars { left: self.left, top: self.top, right: self.right, bottom: self.bottom }
    }

    /// Makes this layout's four edges equal to those of `layout`.
    pub fn match_layout(&mut self, layout: &WidgetLayout<S>)
        ensures
            final(self)@ == old(self)@.with_added(
                old(self)@.match_width_constraints(layout@) + old(self)@.match_height_constraints(layout@),
            ),
    {
        self.match_width(layout);
        self.match_height(layout);
    }

    /// Makes this layout's left and right edges equal to those of `layout`.
    pub fn match_width(&mut self, layout: &WidgetLayout<S>)
        ensures
            final(self)@ == old(self)@.with_added(old(self)@.match_width_constraints(layout@)),
    {
        let c1 = constraint(Operand::Var(self.left), Relation::Equal, Operand::Var(layout.left), Strength::Required);
        self.constraints.push(c1);
        let c2 = constraint(Operand::Var(self.right), Relation::Equal, Operand::Var(layout.right), Strength::Required);
        self.constraints.push(c2);
    }

    /// Makes this layout's top and bottom edges equal to those of `layout`.
    pub fn match_height(&mut self, layout: &WidgetLayout<S>)
        ensures
            final(self)@ == old(self)@.with_added(old(self)@.match_height_constraints(layout@)),
    {
        let c1 = constraint(Operand::Var(self.top), Relation::Equal, Operand::Var(layout.top), Strength::Required);
        self.constraints.push(c1);
        let c2 = constraint(Operand::Var(self.bottom), Relation::Equal, Operand::Var(layout.bottom), Strength::Required);
        self.constraints.push(c2);
    }

    /// Requires the distance from the left to the right edge to be `width`.
    pub fn width(&mut self, width: S)
        ensures
            final(self)@ == old(self)@.with_added(seq![old(self)@.width_constraint(width, Strength::Required)]),
    {
        let c = constraint(Operand::Diff(self.right, self.left), Relation::Equal, Operand::Value(width), Strength::Required);
        self.constraints.push(c);
    }

    /// Requires the distance from the top to the bottom edge to be `height`.
    pub fn height(&mut self, height: S)
        ensures
            final(self)@ == old(self)@.with_added(seq![old(self)@.height_constraint(height, Strength::Required)]),
    {
        let c = constraint(Operand::Diff(self.bottom, self.top), Relation::Equal, Operand::Value(height), Strength::Required);
        self.constraints.push(c);
    }

    /// Requires the given width, then the given height.
    pub fn dimensions(&mut self, dimensions: Dimensions<S>)
        ensures
            final(self)@ == old(self)@.with_added(seq![
                old(self)@.width_constraint(dimensions.width, Strength::Required),
                old(self)@.height_constraint(dimensions.height, Strength::Required),
            ]),
    {
        self.width(dimensions.width);
        self.height(dimensions.height);
    }

    /// Asks, with the given strength, for the distance from the left to the right edge to be `width`.
    pub fn width_strength(&mut self, width: S, strength: S)
        ensures
            final(self)@ == old(self)@.with_added(seq![old(self)@.width_constraint(width, Strength::Weight(strength))]),
    {
        let c = constraint(Operand::Diff(self.right, self.left), Relation::Equal, Operand::Value(width), Strength::Weight(strength));
        self.constraints.push(c);
    }

    /// Asks, with the given strength, for the distance from the top to the bottom edge to be `height`.
    pub fn height_strength(&mut self, height: S, strength: S)
        ensures
            final(self)@ == old(self)@.with_added(seq![old(self)@.height_constraint(height, Strength::Weight(strength))]),
    {
        let c = constraint(Operand::Diff(self.bottom, self.top), Relation::Equal, Operand::Value(height), Strength::Weight(strength));
        self.constraints.push(c);
    }

    /// Places the top-left corner at `point`.
    pub fn top_left(&mut self, point: Point<S>)
        ensures
            final(self)@ == old(self)@.with_added(seq![
                spec_constraint(Operand::Var(old(self).left), Relation::Equal, Operand::Value(point.x), Strength::Required),
                spec_constraint(Operand::Var(old(self).top), Relation::Equal, Operand::Value(point.y), Strength::Required),
            ]),
    {
        let c1 = constraint(Operand::Var(self.left), Relation::Equal, Operand::Value(point.x), Strength::Required);
        self.constraints.push(c1);
        let c2 = constraint(Operand::Var(self.top), Relation::Equal, Operand::Value(point.y), Strength::Required);
        self.constraints.push(c2);
    }

    /// Keeps every edge at least `distance` inside the same edge of `outer_layout`.
    pub fn pad(&mut self, distance: S, outer_layout: &WidgetLayout<S>)
        ensures
            final(self)@ == old(self)@.with_added(old(self)@.pad_constraints(distance, outer_layout@)),
    {
        let c1 = constraint(Operand::Diff(self.left, outer_layout.left), Relation::GreaterOrEqual, Operand::Value(distance), Strength::Required);
        self.constraints.push(c1);
        let c2 = constraint(Operand::Diff(self.top, outer_layout.top), Relation::GreaterOrEqual, Operand::Value(distance), Strength::Required);
        self.constraints.push(c2);
        let c3 = constraint(Operand::Diff(outer_layout.right, self.right), Relation::GreaterOrEqual, Operand::Value(distance), Strength::Required);
        self.constraints.push(c3);
        let c4 = constraint(Operand::Diff(outer_layout.bottom, self.bottom), Relation::GreaterOrEqual, Operand::Value(distance), Strength::Required);
        self.constraints.push(c4);
    }

    /// Centers this layout in `layout`, horizontally and then vertically.
    pub fn center(&mut self, layout: &WidgetLayout<S>)
        ensures
            final(self)@ == old(self)@.with_added(seq![
                old(self)@.center_horizontal_constraint(layout@),
                old(self)@.center_vertical_constraint(layout@),
            ]),
    {
        self.center_horizontal(layout);
        self.center_vertical(layout);
    }

    /// Makes the gap to the left edge of `layout` equal the gap to its right edge.
    pub fn center_horizontal(&mut self, layout: &WidgetLayout<S>)
        ensures
            final(self)@ == old(self)@.with_added(seq![old(self)@.center_horizontal_constraint(layout@)]),
    {
        let c = constraint(Operand::Diff(self.left, layout.left), Relation::Equal, Operand::Diff(layout.right, self.right), Strength::Required);
        self.constraints.push(c);
    }

    /// Makes the gap to the top edge of `layout` equal the gap to its bottom edge.
    pub fn center_vertical(&mut self, layout: &WidgetLayout<S>)
        ensures
            final(self)@ == old(self)@.with_added(seq![old(self)@.center_vertical_constraint(layout@)]),
    {
        let c = constraint(Operand::Diff(self.top, layout.top), Relation::Equal, Operand::Diff(layout.bottom, self.bottom), Strength::Required);
        self.constraints.push(c);
    }

    /// Makes the top edge equal to that of `layout`.
    pub fn align_top(&mut self, layout: &WidgetLayout<S>)
        ensures
            final(self)@ == old(self)@.with_added(seq![eq_vars(old(self).top, layout.top)]),
    {
        let c = constraint(Operand::Var(self.top), Relation::Equal, Operand::Var(layout.top), Strength::Required);
        self.constraints.push(c);
    }

    /// Makes the bottom edge equal to that of `layout`.
    pub fn align_bottom(&mut self, layout: &WidgetLayout<S>)
        ensures
            final(self)@ == old(self)@.with_added(seq![eq_vars(old(self).bottom, layout.bottom)]),
    {
        let c = constraint(Operand::Var(self.bottom), Relation::Equal, Operand::Var(layout.bottom), Strength::Required);
        self.constraints.push(c);
    }

    /// Makes the left edge equal to that of `layout`.
    pub fn align_left(&mut self, layout: &WidgetLayout<S>)
        ensures
            final(self)@ == old(self)@.with_added(seq![eq_vars(old(self).left, layout.left)]),
    {
        let c = constraint(Operand::Var(self.left), Relation::Equal, Operand::Var(layout.left), Strength::Required);
        self.constraints.push(c);
    }

    /// Makes the right edge equal to that of `layout`.
    pub fn align_right(&mut self, layout: &WidgetLayout<S>)
        ensures
            final(self)@ == old(self)@.with_added(seq![eq_vars(old(self).right, layout.right)]),
    {
        let c = constraint(Operand::Var(self.right), Relation::Equal, Operand::Var(layout.right), Strength::Required);
        self.constraints.push(c);
    }

    /// Keeps this layout inside `layout`.
    pub fn bound_by(&mut self, layout: &WidgetLayout<S>)
        ensures
            final(self)@ == old(self)@.with_added(old(self)@.bound_by_constraints(layout@)),
    {
        let constraints = [
            constraint(Operand::Var(self.left), Relation::GreaterOrEqual, Operand::Var(layout.left), Strength::Required),
            constraint(Operand::Var(self.top), Relation::GreaterOrEqual, Operand::Var(layout.top), Strength::Required),
            constraint(Operand::Var(self.right), Relation::LessOrEqual, Operand::Var(layout.right), Strength::Required),
            constraint(Operand::Var(self.bottom), Relation::LessOrEqual, Operand::Var(layout.bottom), Strength::Required),
        ];
        assert(constraints@ == old(self)@.bound_by_constraints(layout@));
        self.add_constraints(&constraints);
    }

    /// Lets this layout be larger than `layout`, which shows a scrolled part of it:
    /// its left and top edges are at or before those of `layout` (required), its
    /// right and bottom edges at or past them (strong, since a child smaller than
    /// its parent cannot meet that).
    pub fn scroll_inside(&mut self, layout: &WidgetLayout<S>)
        ensures
            final(self)@ == old(self)@.with_added(old(self)@.scroll_inside_constraints(layout@)),
    {
        let constraints = [
            constraint(Operand::Var(self.left), Relation::LessOrEqual, Operand::Var(layout.left), Strength::Required),
            constraint(Operand::Var(self.top), Relation::LessOrEqual, Operand::Var(layout.top), Strength::Required),
            constraint(Operand::Var(self.right), Relation::GreaterOrEqual, Operand::Var(layout.right), Strength::Strong),
            constraint(Operand::Var(self.bottom), Relation::GreaterOrEqual, Operand::Var(layout.bottom), Strength::Strong),
        ];
        assert(constraints@ == old(self)@.scroll_inside_constraints(layout@));
        self.add_constraints(&constraints);
    }

    /// Places `child_layout` in this layout: scrolled inside it when this layout
    /// is scrollable, bounded by it otherwise.
    pub fn add_child(&self, child_layout: &mut WidgetLayout<S>)
        ensures
            final(child_layout)@ == old(child_layout)@.with_added(self@.child_constraints(old(child_layout)@)),
            !self@.scrollable ==> final(child_layout)@ == old(child_layout)@.with_added(old(child_layout)@.bound_by_constraints(self@)),
            self@.scrollable ==> final(child_layout)@ == old(child_layout)@.with_added(old(child_layout)@.scroll_inside_constraints(self@)),
    {
        if self.scrollable {
            child_layout.scroll_inside(self);
        } else {
            child_layout.bound_by(self);
        }
    }
}

/// Places widgets one after another along one direction, each one starting at or
/// after the end of the one before; `end` is the edge that the next widget starts from.
pub struct LinearLayout {
    pub orientation: Orientation,
    pub end: Variable,
}

/// The edge at which a layout starts along the given direction.
pub open spec fn spec_beginning<S>(orientation: Orientation, layout: LayoutView<S>) -> Variable {
    match orientation {
        Orientation::Horizontal => layout.left,
        Orientation::Vertical => layout.top,
    }
}

/// The edge at which a layout ends along the given direction.
pub open spec fn spec_ending<S>(orientation: Orientation, layout: LayoutView<S>) -> Variable {
    match orientation {
        Orientation::Horizontal => layout.right,
        Orientation::Vertical => layout.bottom,
    }
}

/// The constraint that makes a widget start at or after `end`.
pub open spec fn follow_constraint<S>(orientation: Orientation, end: Variable, layout: LayoutView<S>) -> LayoutConstraint<S> {
    ge_vars(spec_beginning(orientation, layout), end, Strength::Required)
}

impl LinearLayout {
    /// A linear layout whose first widget starts where `parent` starts.
    pub fn new<S>(orientation: Orientation, parent: &WidgetLayout<S>) -> (res: Self)
        ensures
            res.orientation == orientation,
            res.end == spec_beginning(orientation, parent@),
    {
        LinearLayout { orientation: orientation, end: LinearLayout::beginning(orientation, parent) }
    }

    /// The left edge for a horizontal layout, the top edge for a vertical one.
    pub fn beginning<S>(orientation: Orientation, layout: &WidgetLayout<S>) -> (v: Variable)
        ensures
            v == spec_beginning(orientation, layout@),
    {
        match orientation {
            Orientation::Horizontal => layout.left,
            Orientation::Vertical => layout.top,
        }
    }

    /// The right edge for a horizontal layout, the bottom edge for a vertical one.
    pub fn ending<S>(orientation: Orientation, layout: &WidgetLayout<S>) -> (v: Variable)
        ensures
            v == spec_ending(orientation, layout@),
    {
        match orientation {
            Orientation::Horizontal => layout.right,
            Orientation::Vertical => layout.bottom,
        }
    }

    /// Appends a widget: it must start at or after the current end, and its own
    /// end becomes the place where the next widget starts.
    pub fn add_widget<S: Copy>(&mut self, widget_layout: &mut WidgetLayout<S>)
        ensures
            final(self).orientation == old(self).orientation,
            final(self).end == spec_ending(old(self).orientation, old(widget_layout)@),
            final(widget_layout)@ == old(widget_layout)@.with_added(
                seq![follow_constraint(old(self).orientation, old(self).end, old(widget_layout)@)],
            ),
    {
        let start = LinearLayout::beginning(self.orientation, widget_layout);
        let c = constraint(Operand::Var(start), Relation::GreaterOrEqual, Operand::Var(self.end), Strength::Required);
        self.end = LinearLayout::ending(self.orientation, widget_layout);
        widget_layout.add_constraint(c);
    }
}


/// Law: matching a whole layout adds the constraints of matching its width
/// followed by those of matching its height, and the edges stay the same.
pub proof fn law_match_layout_is_width_then_height<S>(v: LayoutView<S>, other: LayoutView<S>)
    ensures
        v.with_added(v.match_width_constraints(other)).with_added(
            v.with_added(v.match_width_constraints(other)).match_height_constraints(other),
        ) == v.with_added(v.match_width_constraints(other) + v.match_height_constraints(other)),
{
    assert(v.constraints + v.match_width_constraints(other) + v.match_height_constraints(other)
        =~= v.constraints + (v.match_width_constraints(other) + v.match_height_constraints(other)));
}

/// Law: centering adds the horizontal centering constraint and then the
/// vertical one, and setting dimensions adds the width and then the height.
pub proof fn law_center_and_dimensions_compose<S>(v: LayoutView<S>, other: LayoutView<S>, d: Dimensions<S>)
    ensures
        v.with_added(seq![v.center_horizontal_constraint(other)]).with_added(
            seq![v.with_added(seq![v.center_horizontal_constraint(other)]).center_vertical_constraint(other)],
        ) == v.with_added(seq![v.center_horizontal_constraint(other), v.center_vertical_constraint(other)]),
        v.with_added(seq![v.width_constraint(d.width, Strength::Required)]).with_added(
            seq![v.with_added(seq![v.width_constraint(d.width, Strength::Required)]).height_constraint(d.height, Strength::Required)],
        ) == v.with_added(seq![v.width_constraint(d.width, Strength::Required), v.height_constraint(d.height, Strength::Required)]),
{
    assert(v.constraints + seq![v.center_horizontal_constraint(other)] + seq![v.center_vertical_constraint(other)]
        =~= v.constraints + seq![v.center_horizontal_constraint(other), v.center_vertical_constraint(other)]);
    assert(v.constraints + seq![v.width_constraint(d.width, Strength::Required)] + seq![v.height_constraint(d.height, Strength::Required)]
        =~= v.constraints + seq![v.width_constraint(d.width, Strength::Required), v.height_constraint(d.height, Strength::Required)]);
}

/// Law: adding constraints never changes the edges or the scrollability, and
/// keeps the constraints already there, in their places.
pub proof fn law_adding_keeps_what_was_there<S>(v: LayoutView<S>, more: Seq<LayoutConstraint<S>>)
    ensures
        v.with_added(more).left == v.left,
        v.with_added(more).top == v.top,
        v.with_added(more).right == v.right,
        v.with_added(more).bottom == v.bottom,
        v.with_added(more).scrollable == v.scrollable,
        v.with_added(more).constraints.len() == v.constraints.len() + more.len(),
        forall|i: int| 0 <= i < v.constraints.len() ==> #[trigger] v.with_added(more).constraints[i] == v.constraints[i],
{
}

/// Law: widgets added one after the other to a linear layout come in order:
/// the second must start at or after the end of the first.
pub proof fn law_linear_layout_orders_widgets<S>(orientation: Orientation, first: LayoutView<S>, second: LayoutView<S>)
    ensures
        follow_constraint(orientation, spec_ending(orientation, first), second) == (match orientation {
            Orientation::Horizontal => ge_vars(second.left, first.right, Strength::<S>::Required),
            Orientation::Vertical => ge_vars(second.top, first.bottom, Strength::<S>::Required),
        }),
{
}

/// Law: how a parent places a child depends on the parent's scrollability
/// alone, never on the child's own flag or constraints. A parent that does not
/// scroll keeps the child's edges within its own, all required; a parent that
/// scrolls lets the child reach out past its right and bottom edges (strong)
/// while the child starts at or before its left and top edges (required).
pub proof fn law_child_placement_follows_the_parent<S>(parent: LayoutView<S>, child: LayoutView<S>, other: LayoutView<S>)
    ensures
        child.vars() == other.vars() ==> parent.child_constraints(child) == parent.child_constraints(other),
        parent.child_constraints(child).len() == 4,
        !parent.scrollable ==> parent.child_constraints(child) == seq![
            (LayoutConstraint::<S> { lhs: Operand::Var(child.left), relation: Relation::GreaterOrEqual, rhs: Operand::Var(parent.left), strength: Strength::Required }),
            (LayoutConstraint::<S> { lhs: Operand::Var(child.top), relation: Relation::GreaterOrEqual, rhs: Operand::Var(parent.top), strength: Strength::Required }),
            (LayoutConstraint::<S> { lhs: Operand::Var(child.right), relation: Relation::LessOrEqual, rhs: Operand::Var(parent.right), strength: Strength::Required }),
            (LayoutConstraint::<S> { lhs: Operand::Var(child.bottom), relation: Relation::LessOrEqual, rhs: Operand::Var(parent.bottom), strength: Strength::Required }),
        ],
        parent.scrollable ==> parent.child_constraints(child) == seq![
            (LayoutConstraint::<S> { lhs: Operand::Var(child.left), relation: Relation::LessOrEqual, rhs: Operand::Var(parent.left), strength: Strength::Required }),
            (LayoutConstraint::<S> { lhs: Operand::Var(child.top), relation: Relation::LessOrEqual, rhs: Operand::Var(parent.top), strength: Strength::Required }),
            (LayoutConstraint::<S> { lhs: Operand::Var(child.right), relation: Relation::GreaterOrEqual, rhs: Operand::Var(parent.right), strength: Strength::Strong }),
            (LayoutConstraint::<S> { lhs: Operand::Var(child.bottom), relation: Relation::GreaterOrEqual, rhs: Operand::Var(parent.bottom), strength: Strength::Strong }),
        ],
{
}

} // verus!
