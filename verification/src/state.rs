use vstd::prelude::*;
use crate::text::{decimal_of, parse_decimal, text_equals};

verus! {

/// The interaction category whose default handling a node suppresses.
#[derive(PartialEq, Eq, Structural, Debug, Clone, Copy)]
pub enum PreventDefault {
    Focus,
    KeyPress,
    KeyRelease,
    KeyDown,
    KeyUp,
    MouseDown,
    Click,
    MouseEnter,
    MouseLeave,
    MouseOut,
    Unknown,
    MouseOver,
    ContextMenu,
    Wheel,
    MouseUp,
}

/// The category that a value of the suppression attribute names; a value
/// that names none, or no value, gives `Unknown`.
pub open spec fn suppression_of(value: Option<Seq<char>>) -> PreventDefault {
    match value {
        None => PreventDefault::Unknown,
        Some(v) => if v == "onfocus"@ {
            PreventDefault::Focus
        } else if v == "onkeypress"@ {
            PreventDefault::KeyPress
        } else if v == "onkeyrelease"@ {
            PreventDefault::KeyRelease
        } else if v == "onkeydown"@ {
            PreventDefault::KeyDown
        } else if v == "onkeyup"@ {
            PreventDefault::KeyUp
        } else if v == "onclick"@ {
            PreventDefault::Click
        } else if v == "onmousedown"@ {
            PreventDefault::MouseDown
        } else if v == "onmouseup"@ {
            PreventDefault::MouseUp
        } else if v == "onmouseenter"@ {
            PreventDefault::MouseEnter
        } else if v == "onmouseover"@ {
            PreventDefault::MouseOver
        } else if v == "onmouseleave"@ {
            PreventDefault::MouseLeave
        } else if v == "onmouseout"@ {
            PreventDefault::MouseOut
        } else if v == "onwheel"@ {
            PreventDefault::Wheel
        } else if v == "oncontextmenu"@ {
            PreventDefault::ContextMenu
        } else {
            PreventDefault::Unknown
        },
    }
}

/// The view of an optional text.
pub open spec fn text_view(value: Option<&str>) -> Option<Seq<char>> {
    match value {
        None => None,
        Some(v) => Some(v@),
    }
}

impl Default for PreventDefault {
    fn default() -> (r: Self)
        ensures
            r == PreventDefault::Unknown,
    {
        PreventDefault::Unknown
    }
}

impl PreventDefault {
    /// The name of the attribute that this field is computed from.
    pub fn attribute_name() -> (r: &'static str)
        ensures
            r@ == "dioxus-prevent-default"@,
    {
        "dioxus-prevent-default"
    }

    /// The category that a value of the suppression attribute names.
    pub fn from_value(value: Option<&str>) -> (r: Self)
        ensures
            r == suppression_of(text_view(value)),
    {
        match value {
            None => PreventDefault::Unknown,
            Some(v) => {
                if text_equals(v, "onfocus") {
                    PreventDefault::Focus
                } else if text_equals(v, "onkeypress") {
                    PreventDefault::KeyPress
                } else if text_equals(v, "onkeyrelease") {
                    PreventDefault::KeyRelease
                } else if text_equals(v, "onkeydown") {
                    PreventDefault::KeyDown
                } else if text_equals(v, "onkeyup") {
                    PreventDefault::KeyUp
                } else if text_equals(v, "onclick") {
                    PreventDefault::Click
                } else if text_equals(v, "onmousedown") {
                    PreventDefault::MouseDown
                } else if text_equals(v, "onmouseup") {
                    PreventDefault::MouseUp
                } else if text_equals(v, "onmouseenter") {
                    PreventDefault::MouseEnter
                } else if text_equals(v, "onmouseover") {
                    PreventDefault::MouseOver
                } else if text_equals(v, "onmouseleave") {
                    PreventDefault::MouseLeave
                } else if text_equals(v, "onmouseout") {
                    PreventDefault::MouseOut
                } else if text_equals(v, "onwheel") {
                    PreventDefault::Wheel
                } else if text_equals(v, "oncontextmenu") {
                    PreventDefault::ContextMenu
                } else {
                    PreventDefault::Unknown
                }
            },
        }
    }

    /// Recomputes the field from the attribute's value, replaces it only
    /// where the result differs, and says whether it did.
    pub fn reduce(&mut self, value: Option<&str>) -> (changed: bool)
        ensures
            *final(self) == suppression_of(text_view(value)),
            changed == (*old(self) != *final(self)),
    {
        let new = PreventDefault::from_value(value);
        if new == *self {
            false
        } else {
            *self = new;
            true
        }
    }
}

/// Whether keyboard navigation can reach a node.
#[derive(PartialEq, Eq, Structural, Debug, Clone, Copy)]
pub enum FocusLevel {
    /// Never focused.
    Unfocusable,
    /// Part of the tab order.
    Focusable,
    /// Focused by the program only, never by tab navigation.
    ProgrammaticOnly,
}

/// The level that a value of the tab index attribute gives: a negative
/// integer keeps the node out of the tab order, any other integer puts it
/// in, and a node without an integer there cannot be focused.
pub open spec fn focus_level_of(value: Option<Seq<char>>) -> FocusLevel {
    match value {
        None => FocusLevel::Unfocusable,
        Some(v) => match decimal_of(v) {
            None => FocusLevel::Unfocusable,
            Some(index) => if index < 0 {
                FocusLevel::ProgrammaticOnly
            } else {
                FocusLevel::Focusable
            },
        },
    }
}

/// The focus eligibility of a node.
#[derive(PartialEq, Eq, Structural, Debug, Clone, Copy)]
pub struct Focus {
    pub level: FocusLevel,
}

impl Default for Focus {
    fn default() -> (r: Self)
        ensures
            r.level == FocusLevel::Unfocusable,
    {
        Focus { level: FocusLevel::Unfocusable }
    }
}

impl Focus {
    /// The name of the attribute that this field is computed from.
    pub fn attribute_name() -> (r: &'static str)
        ensures
            r@ == "tabindex"@,
    {
        "tabindex"
    }

    /// The level that a value of the tab index attribute gives.
    pub fn level_from_value(value: Option<&str>) -> (r: FocusLevel)
        ensures
            r == focus_level_of(text_view(value)),
    {
        match value {
            None => FocusLevel::Unfocusable,
            Some(v) => match parse_decimal(v) {
                None => FocusLevel::Unfocusable,
                Some(index) => if index < 0 {
                    FocusLevel::ProgrammaticOnly
                } else {
                    FocusLevel::Focusable
                },
            },
        }
    }

    /// Recomputes the field from the attribute's value, replaces it only
    /// where the result differs, and says whether it did.
    pub fn reduce(&mut self, value: Option<&str>) -> (changed: bool)
        ensures
            final(self).level == focus_level_of(text_view(value)),
            changed == (*old(self) != *final(self)),
    {
        let level = Focus::level_from_value(value);
        if level == self.level {
            false
        } else {
            self.level = level;
            true
        }
    }
}

/// A rectangle in whole layout units.
#[derive(PartialEq, Eq, Structural, Debug, Clone, Copy)]
pub struct Rect {
    pub x: i32,
    pub y: i32,
    pub width: i32,
    pub height: i32,
}

/// A width and a height in whole device pixels.
#[derive(PartialEq, Eq, Structural, Debug, Clone, Copy)]
pub struct Size {
    pub width: u32,
    pub height: u32,
}

/// The layout of a node: the key of its measurement node in the box-model
/// solver, once it has one, and the geometry that the solver resolved.
#[derive(PartialEq, Eq, Structural, Debug, Clone, Copy)]
pub struct StretchLayout {
    pub node: Option<u64>,
    pub layout: Option<Rect>,
}

impl Default for StretchLayout {
    fn default() -> (r: Self)
        ensures
            r.node.is_none(),
            r.layout.is_none(),
    {
        StretchLayout { node: None, layout: None }
    }
}

/// The derived state of one node of the shadow tree.
#[derive(PartialEq, Eq, Structural, Debug, Clone, Copy)]
pub struct NodeState {
    pub layout: StretchLayout,
    pub focus: Focus,
    pub focused: bool,
    pub prevent_default: PreventDefault,
}

impl NodeState {
    /// The state of a node that the reducer has not visited yet.
    pub open spec fn initial() -> NodeState {
        NodeState {
            layout: StretchLayout { node: None, layout: None },
            focus: Focus { level: FocusLevel::Unfocusable },
            focused: false,
            prevent_default: PreventDefault::Unknown,
        }
    }
}

impl Default for NodeState {
    fn default() -> (r: Self)
        ensures
            r == NodeState::initial(),
    {
        NodeState {
            layout: StretchLayout { node: None, layout: None },
            focus: Focus { level: FocusLevel::Unfocusable },
            focused: false,
            prevent_default: PreventDefault::Unknown,
        }
    }
}

} // verus!
