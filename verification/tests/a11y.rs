//! The accessibility tree, focus, the screen reader and contrast.

use nexacore_ui::a11y::{
    announce, announcement_request, contrast_ratio_permille, high_contrast_theme, luminance,
    meets_aa, A11yTree, FocusChange, FocusManager, Role, ScreenReader, TextScale, TtsEngine,
    A11Y_APP_ID, MAX_TEXT_SCALE, MIN_TEXT_SCALE,
};
use nexacore_ui::geometry::Rect;
use nexacore_ui::layout::Direction;
use nexacore_ui::notification::{NotificationRequest, Priority};
use nexacore_ui::shortcuts::{Key, KeyStroke, Modifiers};
use nexacore_ui::widget::{Widget, WidgetId};

fn rect() -> Rect {
    Rect {
        x: 0,
        y: 0,
        w: 10,
        h: 10,
    }
}

/// A small dialog: a label, two buttons, and a text field inside a container.
fn dialog() -> Widget {
    Widget::Container {
        direction: Direction::Vertical,
        rect: rect(),
        children: vec![
            Widget::Label {
                text: "Sign in".into(),
                rect: rect(),
            },
            Widget::TextInput {
                id: WidgetId(1),
                text: "you@host".into(),
                cursor: 0,
                rect: rect(),
            },
            Widget::Button {
                id: WidgetId(2),
                text: "OK".into(),
                rect: rect(),
            },
            Widget::Button {
                id: WidgetId(3),
                text: "Cancel".into(),
                rect: rect(),
            },
        ],
    }
}

/// A recording TTS double.
#[derive(Default)]
struct RecordingTts {
    spoken: Vec<String>,
}
impl TtsEngine for RecordingTts {
    fn speak(&mut self, text: &str) {
        self.spoken.push(text.to_string());
    }
}

#[test]
fn tree_exposes_roles_and_names() {
    let tree = A11yTree::from_widget(&dialog());
    // root (group) + label + input + 2 buttons = 5 nodes.
    assert_eq!(tree.node_count(), 5);
    assert_eq!(tree.root().role, Role::Group);
    let input = tree.node(2).unwrap(); // DFS: 0=group,1=label,2=input
    assert_eq!(input.role, Role::TextInput);
    assert_eq!(input.value.as_deref(), Some("you@host"));
}

#[test]
fn focus_order_lists_only_focusables_in_order() {
    let tree = A11yTree::from_widget(&dialog());
    // focusable: input(2), OK(3), Cancel(4) — label and group are not.
    assert_eq!(tree.focus_order(), &[2, 3, 4]);
}

#[test]
fn tab_navigation_cycles_with_wrap() {
    let tree = A11yTree::from_widget(&dialog());
    let mut focus = FocusManager::new(tree.focus_order().to_vec());
    assert_eq!(focus.current(), None);
    assert_eq!(focus.focus_next().unwrap().to, 2);
    assert_eq!(focus.focus_next().unwrap().to, 3);
    assert_eq!(focus.focus_next().unwrap().to, 4);
    // wraps back to the first.
    assert_eq!(focus.focus_next().unwrap().to, 2);
    // shift+tab goes back, wrapping to the last.
    let change = focus.focus_prev().unwrap();
    assert_eq!((change.from, change.to), (Some(2), 4));
}

#[test]
fn handle_key_maps_tab_and_shift_tab() {
    let tree = A11yTree::from_widget(&dialog());
    let mut focus = FocusManager::new(tree.focus_order().to_vec());
    let tab = KeyStroke {
        mods: Modifiers::default(),
        key: Key::Tab,
    };
    assert_eq!(focus.handle_key(&tab).unwrap().to, 2);
    let shift_tab = KeyStroke {
        mods: Modifiers {
            shift: true,
            ..Default::default()
        },
        key: Key::Tab,
    };
    // shift+tab from index 0 wraps to the last focusable.
    assert_eq!(focus.handle_key(&shift_tab).unwrap().to, 4);
    // a non-Tab key is ignored.
    let enter = KeyStroke {
        mods: Modifiers::default(),
        key: Key::Enter,
    };
    assert!(focus.handle_key(&enter).is_none());
}

#[test]
fn announce_phrases_role_name_value() {
    let tree = A11yTree::from_widget(&dialog());
    assert_eq!(announce(tree.node(3).unwrap()), "button, OK");
    assert_eq!(announce(tree.node(2).unwrap()), "text field, you@host");
}

#[test]
fn screen_reader_speaks_focused_node() {
    let tree = A11yTree::from_widget(&dialog());
    let mut focus = FocusManager::new(tree.focus_order().to_vec());
    let mut reader = ScreenReader::new(RecordingTts::default());
    let change = focus.focus_next().unwrap(); // → input (2)
    let spoken = reader.announce_focus(&tree, &change).unwrap();
    assert_eq!(spoken, "text field, you@host");
    assert_eq!(reader.engine().spoken, vec!["text field, you@host"]);
}

#[test]
fn disabled_reader_is_silent() {
    let tree = A11yTree::from_widget(&dialog());
    let mut reader = ScreenReader::new(RecordingTts::default());
    reader.set_enabled(false);
    let change = FocusChange { from: None, to: 3 };
    assert!(reader.announce_focus(&tree, &change).is_none());
    assert!(reader.engine().spoken.is_empty());
}

#[test]
fn contrast_white_on_black_is_maximal() {
    let r = contrast_ratio_permille(0xFFFF_FFFF, 0xFF00_0000);
    assert!(r >= 20000, "white-on-black should be ~21:1, got {r}");
    assert!(meets_aa(0xFFFF_FFFF, 0xFF00_0000));
}

#[test]
fn contrast_same_color_is_unity() {
    assert_eq!(contrast_ratio_permille(0xFF80_8080, 0xFF80_8080), 1000);
    assert!(!meets_aa(0xFF80_8080, 0xFF80_8080));
}

#[test]
fn high_contrast_theme_text_meets_aa() {
    let t = high_contrast_theme();
    assert!(meets_aa(t.text, t.bg_canvas));
    assert!(t.text_scale >= 2);
}

#[test]
fn text_scale_applies_and_clamps() {
    assert_eq!(TextScale::large().percent(), 150);
    assert_eq!(TextScale::large().apply(16), 24); // 16 * 1.5
    assert_eq!(TextScale::default().apply(16), 16);
    assert_eq!(TextScale::new(99_999).0, MAX_TEXT_SCALE);
    assert_eq!(TextScale::new(1).0, MIN_TEXT_SCALE);
}

#[test]
fn announcement_request_is_low_priority() {
    let req = announcement_request(7, "button, Save");
    match req {
        NotificationRequest::Post(n) => {
            assert_eq!(n.app, A11Y_APP_ID);
            assert_eq!(n.body, "button, Save");
            assert_eq!(n.priority, Priority::Low);
        }
        _ => panic!("expected a Post request"),
    }
}

#[test]
fn every_id_finds_its_node_and_no_other_does() {
    let tree = A11yTree::from_widget(&dialog());
    for id in 0..5u32 {
        assert_eq!(tree.node(id).unwrap().a11y_id, id);
    }
    assert!(tree.node(5).is_none());
}

#[test]
fn next_and_prev_are_inverse_and_focus_rejects_unknown_ids() {
    let tree = A11yTree::from_widget(&dialog());
    let mut focus = FocusManager::new(tree.focus_order().to_vec());
    assert_eq!(focus.focus(3).unwrap().to, 3);
    assert_eq!(focus.focus_next().unwrap().to, 4);
    assert_eq!(focus.focus_prev().unwrap().to, 3);
    // A node that is not focusable cannot take the focus.
    assert!(focus.focus(1).is_none());
    assert_eq!(focus.current(), Some(3));
    let mut none = FocusManager::new(Vec::new());
    assert!(none.is_empty());
    assert!(none.focus_next().is_none());
    assert!(none.focus_prev().is_none());
}

#[test]
fn contrast_is_symmetric_and_exact() {
    assert_eq!(
        contrast_ratio_permille(0xFF12_3456, 0xFFFE_DCBA),
        contrast_ratio_permille(0xFFFE_DCBA, 0xFF12_3456)
    );
    assert_eq!(luminance(0xFF00_0000), 0);
    assert_eq!(contrast_ratio_permille(0xFFFF_FFFF, 0xFF00_0000), 20615);
}

#[test]
fn a_disabled_reader_can_be_enabled_again() {
    let tree = A11yTree::from_widget(&dialog());
    let mut reader = ScreenReader::new(RecordingTts::default());
    reader.set_enabled(false);
    assert!(!reader.is_enabled());
    reader.set_enabled(true);
    let change = FocusChange { from: None, to: 3 };
    assert_eq!(reader.announce_focus(&tree, &change).unwrap(), "button, OK");
    // A change to a node that does not exist is not announced.
    let missing = FocusChange { from: None, to: 77 };
    assert!(reader.announce_focus(&tree, &missing).is_none());
}

/// A list is named after its first item.
#[test]
fn list_is_named_after_its_first_item() {
    let list = |items: &[&str]| Widget::List {
        items: items.iter().map(|s| s.to_string()).collect(),
        rect: rect(),
    };
    let tree = A11yTree::from_widget(&list(&["Inbox", "Sent"]));
    assert_eq!(tree.root().name, "Inbox");
    assert_eq!(tree.root().role, Role::List);
    assert_eq!(A11yTree::from_widget(&list(&[])).root().name, "0 items");
    assert_eq!(tree.clone(), tree);
    assert_eq!(tree.root().clone(), *tree.root());
}
