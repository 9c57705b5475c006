# limn

Widget trees and edge-constraint layouts for a retained-mode user interface,
written in Verus.

- `src/layout.rs` builds, as plain values, the linear constraints that place a
  widget's four edges (`WidgetLayout`) relative to other layouts, and lays
  widgets out one after another (`LinearLayout`). The scalar type is a
  parameter, so the constraints carry whatever numbers the caller uses.
- `src/widget.rs` keeps all widgets of an interface in a `WidgetTree`: names,
  properties (propagated to whole subtrees), bounds, parent and children, each
  widget's own `WidgetLayout` (a child's layout is placed inside its parent's
  when it is attached), event handlers by number, and the notices that each
  operation raises for the rest of the interface.
- `app/lib.rs` calls the event handlers that the library lists for an event
  (`dispatch`), turns the constraints into cassowary solver constraints and
  reads the solved edges back, in floating point.

The laws that the library keeps are public proof functions whose names start
with `law_`.

What the library does not hold: a widget's draw state and style, its filters,
its cursor hit test, building widgets from styled components, drawing, a name
for a widget's layout, and taking a detached child's layout out of its parent's;
their parts of the interface (drawing, styling, event data types, the layout
module that names and detaches layouts) are not part of this crate.
Handlers are registered and listed by number; what a handler does is up to the
caller of `dispatch`.
