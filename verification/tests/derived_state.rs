use render_sync::state::{Focus, FocusLevel, NodeState, PreventDefault, StretchLayout};
use render_sync::text::{parse_decimal, text_equals};
use render_sync::utils::Error;

#[test]
fn suppression_of_onclick_is_click() {
    assert_eq!(PreventDefault::from_value(Some("onclick")), PreventDefault::Click);
}

#[test]
fn suppression_of_onwheel_is_wheel() {
    assert_eq!(PreventDefault::from_value(Some("onwheel")), PreventDefault::Wheel);
}

#[test]
fn suppression_of_absent_or_unrecognized_is_unknown() {
    assert_eq!(PreventDefault::from_value(None), PreventDefault::Unknown);
    assert_eq!(PreventDefault::from_value(Some("")), PreventDefault::Unknown);
    assert_eq!(PreventDefault::from_value(Some("onclic")), PreventDefault::Unknown);
    assert_eq!(PreventDefault::from_value(Some("onclick ")), PreventDefault::Unknown);
    assert_eq!(PreventDefault::from_value(Some("OnClick")), PreventDefault::Unknown);
    assert_eq!(PreventDefault::default(), PreventDefault::Unknown);
}

#[test]
fn suppression_mapping_covers_every_category() {
    let table = [
        ("onfocus", PreventDefault::Focus),
        ("onkeypress", PreventDefault::KeyPress),
        ("onkeyrelease", PreventDefault::KeyRelease),
        ("onkeydown", PreventDefault::KeyDown),
        ("onkeyup", PreventDefault::KeyUp),
        ("onclick", PreventDefault::Click),
        ("onmousedown", PreventDefault::MouseDown),
        ("onmouseup", PreventDefault::MouseUp),
        ("onmouseenter", PreventDefault::MouseEnter),
        ("onmouseover", PreventDefault::MouseOver),
        ("onmouseleave", PreventDefault::MouseLeave),
        ("onmouseout", PreventDefault::MouseOut),
        ("onwheel", PreventDefault::Wheel),
        ("oncontextmenu", PreventDefault::ContextMenu),
    ];
    for (value, category) in table {
        assert_eq!(PreventDefault::from_value(Some(value)), category);
    }
}

#[test]
fn suppression_reduce_replaces_only_on_change() {
    let mut field = PreventDefault::Unknown;
    assert!(field.reduce(Some("onclick")));
    assert_eq!(field, PreventDefault::Click);
    assert!(!field.reduce(Some("onclick")));
    assert_eq!(field, PreventDefault::Click);
    assert!(field.reduce(Some("nothing")));
    assert_eq!(field, PreventDefault::Unknown);
    assert!(!field.reduce(None));
    assert_eq!(field, PreventDefault::Unknown);
}

#[test]
fn attribute_names_are_fixed() {
    assert_eq!(PreventDefault::attribute_name(), "dioxus-prevent-default");
    assert_eq!(Focus::attribute_name(), "tabindex");
}

#[test]
fn focus_level_follows_the_tab_index() {
    assert_eq!(Focus::level_from_value(None), FocusLevel::Unfocusable);
    assert_eq!(Focus::level_from_value(Some("0")), FocusLevel::Focusable);
    assert_eq!(Focus::level_from_value(Some("3")), FocusLevel::Focusable);
    assert_eq!(Focus::level_from_value(Some("-1")), FocusLevel::ProgrammaticOnly);
    assert_eq!(Focus::level_from_value(Some("-0")), FocusLevel::Focusable);
    assert_eq!(Focus::level_from_value(Some("yes")), FocusLevel::Unfocusable);
    assert_eq!(Focus::level_from_value(Some("")), FocusLevel::Unfocusable);
    assert_eq!(Focus::level_from_value(Some("99999999999")), FocusLevel::Unfocusable);
}

#[test]
fn focus_reduce_replaces_only_on_change() {
    let mut field = Focus::default();
    assert_eq!(field.level, FocusLevel::Unfocusable);
    assert!(field.reduce(Some("0")));
    assert_eq!(field.level, FocusLevel::Focusable);
    assert!(!field.reduce(Some("5")));
    assert!(field.reduce(Some("-2")));
    assert_eq!(field.level, FocusLevel::ProgrammaticOnly);
    assert!(field.reduce(None));
    assert_eq!(field.level, FocusLevel::Unfocusable);
}

#[test]
fn initial_node_state() {
    let s = NodeState::default();
    assert_eq!(s.layout, StretchLayout { node: None, layout: None });
    assert_eq!(s.layout, StretchLayout::default());
    assert_eq!(s.focus.level, FocusLevel::Unfocusable);
    assert!(!s.focused);
    assert_eq!(s.prevent_default, PreventDefault::Unknown);
}

#[test]
fn parse_decimal_reads_signed_integers() {
    assert_eq!(parse_decimal("0"), Some(0));
    assert_eq!(parse_decimal("7"), Some(7));
    assert_eq!(parse_decimal("+7"), Some(7));
    assert_eq!(parse_decimal("-7"), Some(-7));
    assert_eq!(parse_decimal("007"), Some(7));
    assert_eq!(parse_decimal("1234567890"), Some(1234567890));
    assert_eq!(parse_decimal("2147483647"), Some(i32::MAX));
    assert_eq!(parse_decimal("-2147483648"), Some(i32::MIN));
}

#[test]
fn parse_decimal_rejects_everything_else() {
    assert_eq!(parse_decimal(""), None);
    assert_eq!(parse_decimal("-"), None);
    assert_eq!(parse_decimal("+"), None);
    assert_eq!(parse_decimal("2147483648"), None);
    assert_eq!(parse_decimal("-2147483649"), None);
    assert_eq!(parse_decimal("99999999999999999999999"), None);
    assert_eq!(parse_decimal("12a"), None);
    assert_eq!(parse_decimal("a12"), None);
    assert_eq!(parse_decimal(" 1"), None);
    assert_eq!(parse_decimal("1 "), None);
    assert_eq!(parse_decimal("--1"), None);
    assert_eq!(parse_decimal("1.5"), None);
}

#[test]
fn text_equals_compares_characters() {
    assert!(text_equals("", ""));
    assert!(text_equals("tabindex", "tabindex"));
    assert!(!text_equals("tabindex", "tabinde"));
    assert!(!text_equals("tabindex", "tabindey"));
    assert!(text_equals("é", "é"));
    assert!(!text_equals("é", "e"));
}

#[test]
fn error_classes_are_distinct() {
    assert_ne!(Error::Eval, Error::Range);
    assert_eq!(Error::URI, Error::URI);
    assert_ne!(Error::Aggregate, Error::NativeErrorCount);
}
