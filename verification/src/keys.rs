//! Keyboard input between the desktop shell and the editor view: the shell
//! sends each key as a virtual key code with modifier flags (the macOS
//! numbering), and the view turns them back into keys, modifiers and the
//! text a key press inserts.
use vstd::prelude::*;
use crate::shortcuts::Modifiers;
use crate::editor::{AutoPair, PAREN, BRACKET, BRACE, SINGLE, DOUBLE, BACKTICK};

verus! {

/// Keys that are sent by name rather than by the text they type.
#[derive(Debug, Clone, Copy, PartialEq, Eq, Structural)]
pub enum NamedKey {
    Enter,
    Tab,
    Backspace,
    Escape,
    Delete,
    ArrowLeft,
    ArrowRight,
    ArrowDown,
    ArrowUp,
    Home,
    End,
    PageUp,
    PageDown,
    F1,
    F2,
    F3,
    F4,
    F5,
    F6,
    F7,
    F8,
    F9,
    F10,
    F11,
    F12,
}

/// Virtual key code of a named key.
pub open spec fn code_of(k: NamedKey) -> u32 {
    match k {
        NamedKey::Enter => 36,
        NamedKey::Tab => 48,
        NamedKey::Backspace => 51,
        NamedKey::Escape => 53,
        NamedKey::Delete => 117,
        NamedKey::ArrowLeft => 123,
        NamedKey::ArrowRight => 124,
        NamedKey::ArrowDown => 125,
        NamedKey::ArrowUp => 126,
        NamedKey::Home => 115,
        NamedKey::End => 119,
        NamedKey::PageUp => 116,
        NamedKey::PageDown => 121,
        NamedKey::F1 => 122,
        NamedKey::F2 => 120,
        NamedKey::F3 => 99,
        NamedKey::F4 => 118,
        NamedKey::F5 => 96,
        NamedKey::F6 => 97,
        NamedKey::F7 => 98,
        NamedKey::F8 => 100,
        NamedKey::F9 => 101,
        NamedKey::F10 => 109,
        NamedKey::F11 => 103,
        NamedKey::F12 => 111,
    }
}

/// Virtual key code the shell sends for a key: the named key's code, 0
/// for a key that types text.
pub fn key_code(key: Option<NamedKey>) -> (r: u32)
    ensures
        r == match key {
            Some(k) => code_of(k),
            None => 0,
        },
{
    match key {
        Some(k) => match k {
            NamedKey::Enter => 36,
            NamedKey::Tab => 48,
            NamedKey::Backspace => 51,
            NamedKey::Escape => 53,
            NamedKey::Delete => 117,
            NamedKey::ArrowLeft => 123,
            NamedKey::ArrowRight => 124,
            NamedKey::ArrowDown => 125,
            NamedKey::ArrowUp => 126,
            NamedKey::Home => 115,
            NamedKey::End => 119,
            NamedKey::PageUp => 116,
            NamedKey::PageDown => 121,
            NamedKey::F1 => 122,
            NamedKey::F2 => 120,
            NamedKey::F3 => 99,
            NamedKey::F4 => 118,
            NamedKey::F5 => 96,
            NamedKey::F6 => 97,
            NamedKey::F7 => 98,
            NamedKey::F8 => 100,
            NamedKey::F9 => 101,
            NamedKey::F10 => 109,
            NamedKey::F11 => 103,
            NamedKey::F12 => 111,
        },
        None => 0,
    }
}

/// The named key a virtual key code stands for.
pub fn named_key(code: u32) -> (r: Option<NamedKey>)
    ensures
        match r {
            Some(k) => code_of(k) == code,
            None => forall|k: NamedKey| code_of(k) != code,
        },
{
    match code {
        36 => Some(NamedKey::Enter),
        48 => Some(NamedKey::Tab),
        51 => Some(NamedKey::Backspace),
        53 => Some(NamedKey::Escape),
        117 => Some(NamedKey::Delete),
        123 => Some(NamedKey::ArrowLeft),
        124 => Some(NamedKey::ArrowRight),
        125 => Some(NamedKey::ArrowDown),
        126 => Some(NamedKey::ArrowUp),
        115 => Some(NamedKey::Home),
        119 => Some(NamedKey::End),
        116 => Some(NamedKey::PageUp),
        121 => Some(NamedKey::PageDown),
        122 => Some(NamedKey::F1),
        120 => Some(NamedKey::F2),
        99 => Some(NamedKey::F3),
        118 => Some(NamedKey::F4),
        96 => Some(NamedKey::F5),
        97 => Some(NamedKey::F6),
        98 => Some(NamedKey::F7),
        100 => Some(NamedKey::F8),
        101 => Some(NamedKey::F9),
        109 => Some(NamedKey::F10),
        103 => Some(NamedKey::F11),
        111 => Some(NamedKey::F12),
        _ => None,
    }
}

/// Distinct named keys have distinct codes, and none has code 0: a code
/// names at most one key.
pub proof fn lemma_codes_distinct(a: NamedKey, b: NamedKey)
    ensures
        code_of(a) == code_of(b) ==> a == b,
        code_of(a) != 0,
{
}

/// Modifier state as the view reads it.
#[derive(Debug, Clone, Copy, PartialEq, Eq, Structural)]
pub struct KeyModifiers {
    pub shift: bool,
    pub control: bool,
    pub alt: bool,
    pub logo: bool,
}

/// Flag bits of the shift, control, option and command keys.
pub const SHIFT_FLAG: u32 = 0x20000;
pub const CONTROL_FLAG: u32 = 0x40000;
pub const ALT_FLAG: u32 = 0x80000;
pub const LOGO_FLAG: u32 = 0x100000;

/// Flags the shell sends for the modifiers held; control also sets the
/// command flag, so the editor's command shortcuts answer to control.
pub open spec fn flags_of(m: Modifiers) -> u32 {
    (if m.shift { SHIFT_FLAG } else { 0u32 }) | (if m.control { CONTROL_FLAG } else { 0u32 }) | (
    if m.alt { ALT_FLAG } else { 0u32 }) | (if m.super_key || m.control { LOGO_FLAG } else { 0u32 })
}

/// Modifier flags for the keys held.
pub fn encode_modifiers(m: Modifiers) -> (r: u32)
    ensures
        r == flags_of(m),
{
    let shift: u32 = if m.shift {
        SHIFT_FLAG
    } else {
        0
    };
    let control: u32 = if m.control {
        CONTROL_FLAG
    } else {
        0
    };
    let alt: u32 = if m.alt {
        ALT_FLAG
    } else {
        0
    };
    let logo: u32 = if m.super_key || m.control {
        LOGO_FLAG
    } else {
        0
    };
    shift | control | alt | logo
}

/// Modifiers the flags stand for.
pub open spec fn modifiers_of(flags: u32) -> KeyModifiers {
    KeyModifiers {
        shift: flags & SHIFT_FLAG != 0,
        control: flags & CONTROL_FLAG != 0,
        alt: flags & ALT_FLAG != 0,
        logo: flags & LOGO_FLAG != 0,
    }
}

/// The modifiers given by the flags of a key event.
pub fn decode_modifiers(flags: u32) -> (r: KeyModifiers)
    ensures
        r == modifiers_of(flags),
{
    KeyModifiers {
        shift: flags & SHIFT_FLAG != 0,
        control: flags & CONTROL_FLAG != 0,
        alt: flags & ALT_FLAG != 0,
        logo: flags & LOGO_FLAG != 0,
    }
}

/// Modifiers the view sees for the keys held: command also when control
/// is held.
pub open spec fn seen_modifiers(m: Modifiers) -> KeyModifiers {
    KeyModifiers { shift: m.shift, control: m.control, alt: m.alt, logo: m.super_key || m.control }
}

/// The modifiers of a key held in the desktop shell, as the view sees
/// them.
pub fn shell_modifiers(m: Modifiers) -> (r: KeyModifiers)
    ensures
        r == seen_modifiers(m),
{
    KeyModifiers { shift: m.shift, control: m.control, alt: m.alt, logo: m.super_key || m.control }
}

/// Sending the modifiers held as flags and reading the flags back gives
/// the modifiers the view sees for those keys.
pub proof fn lemma_modifiers_roundtrip(m: Modifiers)
    ensures
        modifiers_of(flags_of(m)) == seen_modifiers(m),
{
    let s = m.shift;
    let c = m.control;
    let a = m.alt;
    let l = m.super_key;
    let f = flags_of(m);
    assert(f == (if s { SHIFT_FLAG } else { 0u32 }) | (if c { CONTROL_FLAG } else { 0u32 }) | (if a {
        ALT_FLAG
    } else {
        0u32
    }) | (if l || c { LOGO_FLAG } else { 0u32 }));
    assert(((f & SHIFT_FLAG) != 0) == s && ((f & CONTROL_FLAG) != 0) == c && ((f & ALT_FLAG) != 0)
        == a && ((f & LOGO_FLAG) != 0) == (l || c)) by (bit_vector)
        requires
            f == (if s { SHIFT_FLAG } else { 0u32 }) | (if c { CONTROL_FLAG } else { 0u32 }) | (if a {
                ALT_FLAG
            } else {
                0u32
            }) | (if l || c { LOGO_FLAG } else { 0u32 }),
    ;
}

/// The key a key event carries.
#[derive(Debug, Clone, PartialEq, Eq)]
pub enum LogicalKey {
    Named(NamedKey),
    Character(String),
    Unidentified,
}

/// A key press or release as the view handles it.
#[derive(Debug, Clone, PartialEq, Eq)]
pub struct KeyEvent {
    pub modifiers: KeyModifiers,
    pub key: LogicalKey,
    pub pressed: bool,
    /// Text the press inserts.
    pub text: Option<String>,
}

/// Non-empty text.
pub open spec fn filled(text: Option<&str>) -> Option<Seq<char>> {
    match text {
        Some(t) => if t@.len() > 0 {
            Some(t@)
        } else {
            None
        },
        None => None,
    }
}

/// The key event for a virtual key code, modifier flags and typed text:
/// a named key when the code names one, else the typed text as a
/// character key; the text is inserted only for a key that is not named,
/// pressed without control or command.
pub fn key_event(code: u32, flags: u32, pressed: bool, text: Option<&str>) -> (r: KeyEvent)
    ensures
        r.modifiers == modifiers_of(flags),
        r.pressed == pressed,
        match r.key {
            LogicalKey::Named(k) => code_of(k) == code,
            LogicalKey::Character(s) => (forall|k: NamedKey| code_of(k) != code) && filled(text)
                == Some(s@),
            LogicalKey::Unidentified => (forall|k: NamedKey| code_of(k) != code) && filled(text)
                is None,
        },
        match r.text {
            Some(s) => (forall|k: NamedKey| code_of(k) != code) && !modifiers_of(flags).logo
                && !modifiers_of(flags).control && pressed && filled(text) == Some(s@),
            None => (exists|k: NamedKey| code_of(k) == code) || modifiers_of(flags).logo
                || modifiers_of(flags).control || !pressed || filled(text) is None,
        },
{
    let modifiers = decode_modifiers(flags);
    let named = named_key(code);
    let typed: Option<String> = match text {
        Some(t) => if t.is_empty() {
            None
        } else {
            Some(crate::text::string_from(t))
        },
        None => None,
    };
    let key = match named {
        Some(k) => LogicalKey::Named(k),
        None => match &typed {
            Some(s) => LogicalKey::Character(s.clone()),
            None => LogicalKey::Unidentified,
        },
    };
    let insert = if named.is_some() || modifiers.logo || modifiers.control || !pressed {
        proof {
            if named.is_some() {
                let k = named.unwrap();
                assert(code_of(k) == code);
            }
        }
        None
    } else {
        typed
    };
    KeyEvent { modifiers, key, pressed, text: insert }
}

// ---------------------------------------------------------------------------
// Editor key bindings
// ---------------------------------------------------------------------------

/// A span a caret movement or selection covers.
#[derive(Debug, Clone, Copy, PartialEq, Eq, Structural)]
pub enum Motion {
    WordLeft,
    WordRight,
    DocumentStart,
    DocumentEnd,
}

/// What a key press does in a focused text block.
#[derive(Debug, Clone, Copy, PartialEq, Eq, Structural)]
pub enum EditorBinding {
    Redo,
    Undo,
    ZoomIn,
    ZoomOut,
    /// Inserts the opening delimiter and its closing partner.
    AutoPair(char, char),
    /// Selects the span, then deletes backwards.
    SelectThenBackspace(Motion),
    /// Selects the span, then deletes forwards.
    SelectThenDelete(Motion),
    Select(Motion),
    Move(Motion),
    OutdentTab,
    IndentTab,
    /// The text editor's own binding for the key.
    Default,
}

/// The key is the character key typing exactly `c`.
pub open spec fn is_char(key: LogicalKey, c: char) -> bool {
    match key {
        LogicalKey::Character(s) => s@ == seq![c],
        _ => false,
    }
}

/// The auto-pair binding for an opening delimiter typed with no command,
/// option or control key, when pairing is on for it.
pub open spec fn pair_binding(key: LogicalKey, m: KeyModifiers, pairs: u8) -> Option<EditorBinding> {
    if m.logo || m.alt || m.control {
        None
    } else if is_char(key, '[') && pairs & BRACKET != 0 {
        Some(EditorBinding::AutoPair('[', ']'))
    } else if is_char(key, '{') && pairs & BRACE != 0 {
        Some(EditorBinding::AutoPair('{', '}'))
    } else if is_char(key, '(') && pairs & PAREN != 0 {
        Some(EditorBinding::AutoPair('(', ')'))
    } else if is_char(key, '\'') && pairs & SINGLE != 0 {
        Some(EditorBinding::AutoPair('\'', '\''))
    } else if is_char(key, '"') && pairs & DOUBLE != 0 {
        Some(EditorBinding::AutoPair('"', '"'))
    } else if is_char(key, '`') && pairs & BACKTICK != 0 {
        Some(EditorBinding::AutoPair('`', '`'))
    } else {
        None
    }
}

/// The binding of a key press in a text block: none unless the block has
/// focus; command-z redoes with shift and undoes without; command `=`/`+`
/// and `-` zoom; opening delimiters pair; option-backspace and
/// option-delete delete a word; command-up/down move or (with shift)
/// select to the document's ends; tab indents and shift-tab outdents
/// (with no command, option or control key); any other press keeps the
/// editor's own binding.
pub open spec fn editor_binding(key: LogicalKey, m: KeyModifiers, focused: bool, pairs: u8) -> Option<
    EditorBinding,
> {
    let no_cmd = !m.logo && !m.alt && !m.control;
    if !focused {
        None
    } else if is_char(key, 'z') && m.logo && m.shift {
        Some(EditorBinding::Redo)
    } else if is_char(key, 'z') && m.logo {
        Some(EditorBinding::Undo)
    } else if (is_char(key, '=') || is_char(key, '+')) && m.logo {
        Some(EditorBinding::ZoomIn)
    } else if is_char(key, '-') && m.logo {
        Some(EditorBinding::ZoomOut)
    } else if pair_binding(key, m, pairs) is Some {
        pair_binding(key, m, pairs)
    } else if key == LogicalKey::Named(NamedKey::Backspace) && m.alt {
        Some(EditorBinding::SelectThenBackspace(Motion::WordLeft))
    } else if key == LogicalKey::Named(NamedKey::Delete) && m.alt {
        Some(EditorBinding::SelectThenDelete(Motion::WordRight))
    } else if key == LogicalKey::Named(NamedKey::ArrowUp) && m.logo && m.shift {
        Some(EditorBinding::Select(Motion::DocumentStart))
    } else if key == LogicalKey::Named(NamedKey::ArrowDown) && m.logo && m.shift {
        Some(EditorBinding::Select(Motion::DocumentEnd))
    } else if key == LogicalKey::Named(NamedKey::ArrowUp) && m.logo {
        Some(EditorBinding::Move(Motion::DocumentStart))
    } else if key == LogicalKey::Named(NamedKey::ArrowDown) && m.logo {
        Some(EditorBinding::Move(Motion::DocumentEnd))
    } else if key == LogicalKey::Named(NamedKey::Tab) && no_cmd && m.shift {
        Some(EditorBinding::OutdentTab)
    } else if key == LogicalKey::Named(NamedKey::Tab) && no_cmd {
        Some(EditorBinding::IndentTab)
    } else {
        Some(EditorBinding::Default)
    }
}

/// Whether `key` is the character key typing exactly `c`.
fn key_is(key: &LogicalKey, c: char) -> (r: bool)
    ensures
        r == is_char(*key, c),
{
    match key {
        LogicalKey::Character(s) => {
            let cs = crate::text::chars_of(s.as_str());
            let r = cs.len() == 1 && cs[0] == c;
            proof {
                if cs@.len() == 1 {
                    if cs[0] == c {
                        assert(cs@ =~= seq![c]);
                    }
                } else {
                    assert(seq![c].len() == 1);
                }
            }
            r
        },
        _ => false,
    }
}

/// Whether `key` is the named key `k`.
fn key_named(key: &LogicalKey, k: NamedKey) -> (r: bool)
    ensures
        r == (*key == LogicalKey::Named(k)),
{
    match key {
        LogicalKey::Named(n) => *n == k,
        _ => false,
    }
}

fn pair_binding_of(key: &LogicalKey, m: KeyModifiers, pairs: &AutoPair) -> (r: Option<EditorBinding>)
    ensures
        r == pair_binding(*key, m, pairs.bits),
{
    if m.logo || m.alt || m.control {
        None
    } else if key_is(key, '[') && crate::editor::enabled(pairs, BRACKET) {
        Some(EditorBinding::AutoPair('[', ']'))
    } else if key_is(key, '{') && crate::editor::enabled(pairs, BRACE) {
        Some(EditorBinding::AutoPair('{', '}'))
    } else if key_is(key, '(') && crate::editor::enabled(pairs, PAREN) {
        Some(EditorBinding::AutoPair('(', ')'))
    } else if key_is(key, '\'') && crate::editor::enabled(pairs, SINGLE) {
        Some(EditorBinding::AutoPair('\'', '\''))
    } else if key_is(key, '"') && crate::editor::enabled(pairs, DOUBLE) {
        Some(EditorBinding::AutoPair('"', '"'))
    } else if key_is(key, '`') && crate::editor::enabled(pairs, BACKTICK) {
        Some(EditorBinding::AutoPair('`', '`'))
    } else {
        None
    }
}

/// The binding of a key press in a text block (see `editor_binding`).
pub fn editor_key_binding(key: &LogicalKey, modifiers: KeyModifiers, focused: bool, pairs: &AutoPair) -> (r:
    Option<EditorBinding>)
    ensures
        r == editor_binding(*key, modifiers, focused, pairs.bits),
{
    let m = modifiers;
    let no_cmd = !m.logo && !m.alt && !m.control;
    if !focused {
        return None;
    }
    if key_is(key, 'z') && m.logo && m.shift {
        return Some(EditorBinding::Redo);
    }
    if key_is(key, 'z') && m.logo {
        return Some(EditorBinding::Undo);
    }
    if (key_is(key, '=') || key_is(key, '+')) && m.logo {
        return Some(EditorBinding::ZoomIn);
    }
    if key_is(key, '-') && m.logo {
        return Some(EditorBinding::ZoomOut);
    }
    let pair = pair_binding_of(key, m, pairs);
    if pair.is_some() {
        return pair;
    }
    if key_named(key, NamedKey::Backspace) && m.alt {
        Some(EditorBinding::SelectThenBackspace(Motion::WordLeft))
    } else if key_named(key, NamedKey::Delete) && m.alt {
        Some(EditorBinding::SelectThenDelete(Motion::WordRight))
    } else if key_named(key, NamedKey::ArrowUp) && m.logo && m.shift {
        Some(EditorBinding::Select(Motion::DocumentStart))
    } else if key_named(key, NamedKey::ArrowDown) && m.logo && m.shift {
        Some(EditorBinding::Select(Motion::DocumentEnd))
    } else if key_named(key, NamedKey::ArrowUp) && m.logo {
        Some(EditorBinding::Move(Motion::DocumentStart))
    } else if key_named(key, NamedKey::ArrowDown) && m.logo {
        Some(EditorBinding::Move(Motion::DocumentEnd))
    } else if key_named(key, NamedKey::Tab) && no_cmd && m.shift {
        Some(EditorBinding::OutdentTab)
    } else if key_named(key, NamedKey::Tab) && no_cmd {
        Some(EditorBinding::IndentTab)
    } else {
        Some(EditorBinding::Default)
    }
}

} // verus!
