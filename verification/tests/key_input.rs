use acord::editor::{AutoPair, ALL, BRACKET};
use acord::keys::{
    decode_modifiers, editor_key_binding, encode_modifiers, key_code, key_event, named_key,
    shell_modifiers, EditorBinding, KeyModifiers, LogicalKey, Motion, NamedKey,
};
use acord::shortcuts::Modifiers;

const ALL_KEYS: [NamedKey; 25] = [
    NamedKey::Enter, NamedKey::Tab, NamedKey::Backspace, NamedKey::Escape, NamedKey::Delete,
    NamedKey::ArrowLeft, NamedKey::ArrowRight, NamedKey::ArrowDown, NamedKey::ArrowUp,
    NamedKey::Home, NamedKey::End, NamedKey::PageUp, NamedKey::PageDown, NamedKey::F1,
    NamedKey::F2, NamedKey::F3, NamedKey::F4, NamedKey::F5, NamedKey::F6, NamedKey::F7,
    NamedKey::F8, NamedKey::F9, NamedKey::F10, NamedKey::F11, NamedKey::F12,
];

fn mods(alt: bool, control: bool, super_key: bool, shift: bool) -> Modifiers {
    Modifiers { alt, control, super_key, shift }
}

#[test]
fn key_codes_round_trip() {
    for k in ALL_KEYS {
        assert_eq!(named_key(key_code(Some(k))), Some(k));
    }
    assert_eq!(key_code(None), 0);
    assert_eq!(named_key(0), None);
    assert_eq!(named_key(37), None);
    assert_eq!(key_code(Some(NamedKey::Enter)), 36);
    assert_eq!(key_code(Some(NamedKey::F12)), 111);
}

#[test]
fn modifier_flags() {
    assert_eq!(encode_modifiers(mods(false, false, false, false)), 0);
    assert_eq!(encode_modifiers(mods(false, false, false, true)), 1 << 17);
    assert_eq!(encode_modifiers(mods(false, true, false, false)), (1 << 18) | (1 << 20));
    assert_eq!(encode_modifiers(mods(true, false, true, false)), (1 << 19) | (1 << 20));
    for bits in 0..16u32 {
        let m = mods(bits & 1 != 0, bits & 2 != 0, bits & 4 != 0, bits & 8 != 0);
        assert_eq!(decode_modifiers(encode_modifiers(m)), shell_modifiers(m));
    }
    assert_eq!(
        decode_modifiers((1 << 17) | (1 << 20) | 1),
        KeyModifiers { shift: true, control: false, alt: false, logo: true }
    );
}

#[test]
fn key_events_insert_plain_text_only() {
    let e = key_event(0, 0, true, Some("a"));
    assert_eq!(e.key, LogicalKey::Character("a".to_string()));
    assert_eq!(e.text, Some("a".to_string()));
    let e = key_event(36, 0, true, Some("\r"));
    assert_eq!(e.key, LogicalKey::Named(NamedKey::Enter));
    assert_eq!(e.text, None);
    let e = key_event(0, 1 << 20, true, Some("c"));
    assert_eq!(e.key, LogicalKey::Character("c".to_string()));
    assert_eq!(e.text, None);
    assert!(e.modifiers.logo);
    let e = key_event(0, 0, false, Some("a"));
    assert_eq!(e.text, None);
    assert!(!e.pressed);
    let e = key_event(0, 0, true, Some(""));
    assert_eq!(e.key, LogicalKey::Unidentified);
    assert_eq!(e.text, None);
}

fn kmods(shift: bool, control: bool, alt: bool, logo: bool) -> KeyModifiers {
    KeyModifiers { shift, control, alt, logo }
}

fn ch(s: &str) -> LogicalKey {
    LogicalKey::Character(s.to_string())
}

#[test]
fn editor_bindings_follow_the_modifiers() {
    let all = AutoPair { bits: ALL };
    let none = kmods(false, false, false, false);
    let cmd = kmods(false, false, false, true);
    let cmd_shift = kmods(true, false, false, true);
    assert_eq!(editor_key_binding(&ch("z"), cmd, false, &all), None);
    assert_eq!(editor_key_binding(&ch("z"), cmd_shift, true, &all), Some(EditorBinding::Redo));
    assert_eq!(editor_key_binding(&ch("z"), cmd, true, &all), Some(EditorBinding::Undo));
    assert_eq!(editor_key_binding(&ch("+"), cmd, true, &all), Some(EditorBinding::ZoomIn));
    assert_eq!(editor_key_binding(&ch("="), cmd, true, &all), Some(EditorBinding::ZoomIn));
    assert_eq!(editor_key_binding(&ch("-"), cmd, true, &all), Some(EditorBinding::ZoomOut));
    assert_eq!(editor_key_binding(&ch("z"), none, true, &all), Some(EditorBinding::Default));
    assert_eq!(editor_key_binding(&ch("("), none, true, &all), Some(EditorBinding::AutoPair('(', ')')));
    assert_eq!(editor_key_binding(&ch("`"), none, true, &all), Some(EditorBinding::AutoPair('`', '`')));
    assert_eq!(editor_key_binding(&ch("("), cmd, true, &all), Some(EditorBinding::Default));
    let brackets = AutoPair { bits: BRACKET };
    assert_eq!(editor_key_binding(&ch("["), none, true, &brackets), Some(EditorBinding::AutoPair('[', ']')));
    assert_eq!(editor_key_binding(&ch("{"), none, true, &brackets), Some(EditorBinding::Default));
    let alt = kmods(false, false, true, false);
    assert_eq!(
        editor_key_binding(&LogicalKey::Named(NamedKey::Backspace), alt, true, &all),
        Some(EditorBinding::SelectThenBackspace(Motion::WordLeft))
    );
    assert_eq!(
        editor_key_binding(&LogicalKey::Named(NamedKey::Delete), alt, true, &all),
        Some(EditorBinding::SelectThenDelete(Motion::WordRight))
    );
    assert_eq!(
        editor_key_binding(&LogicalKey::Named(NamedKey::ArrowUp), cmd_shift, true, &all),
        Some(EditorBinding::Select(Motion::DocumentStart))
    );
    assert_eq!(
        editor_key_binding(&LogicalKey::Named(NamedKey::ArrowDown), cmd, true, &all),
        Some(EditorBinding::Move(Motion::DocumentEnd))
    );
    assert_eq!(
        editor_key_binding(&LogicalKey::Named(NamedKey::Tab), kmods(true, false, false, false), true, &all),
        Some(EditorBinding::OutdentTab)
    );
    assert_eq!(editor_key_binding(&LogicalKey::Named(NamedKey::Tab), none, true, &all), Some(EditorBinding::IndentTab));
    assert_eq!(editor_key_binding(&LogicalKey::Named(NamedKey::Tab), cmd, true, &all), Some(EditorBinding::Default));
}
