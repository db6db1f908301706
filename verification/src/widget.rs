//! The retained widget tree.

use vstd::prelude::*;

use crate::geometry::Rect;
use crate::layout::Direction;

verus! {

/// Identifies an interactive widget.
#[derive(Debug, Clone, Copy, PartialEq, Eq, Hash, PartialOrd, Ord, Structural)]
pub struct WidgetId(pub u32);

/// A node of the widget tree.
#[derive(Debug, PartialEq, Eq)]
pub enum Widget {
    /// Static text.
    Label {
        /// The text.
        text: String,
        /// Where the label is laid out.
        rect: Rect,
    },
    /// A push button.
    Button {
        /// The id that activation events carry.
        id: WidgetId,
        /// The caption.
        text: String,
        /// Where the button is laid out.
        rect: Rect,
    },
    /// An editable text field.
    TextInput {
        /// The id that input events carry.
        id: WidgetId,
        /// The contents.
        text: String,
        /// The position of the cursor.
        cursor: usize,
        /// Where the field is laid out.
        rect: Rect,
    },
    /// A list of text items.
    List {
        /// The items.
        items: Vec<String>,
        /// Where the list is laid out.
        rect: Rect,
    },
    /// A group of widgets stacked along one axis.
    Container {
        /// The stacking axis.
        direction: Direction,
        /// The children, in visual order.
        children: Vec<Widget>,
        /// Where the group is laid out.
        rect: Rect,
    },
}

} // verus!
