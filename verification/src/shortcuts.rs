//! Application keyboard shortcuts.
use vstd::prelude::*;
use crate::text::chars_of;

verus! {

/// An application-level action.
#[derive(Debug, Clone, Copy, PartialEq, Eq, Structural)]
pub enum MenuAction {
    NewNote,
    Open,
    Save,
    SaveAs,
    Quit,
    Bold,
    Italic,
    InsertTable,
    Evaluate,
    LiveMode,
    EditorMode,
    ViewMode,
    ZoomIn,
    ZoomOut,
    ZoomReset,
    Find,
    Settings,
    ExportCrate,
    ToggleBrowser,
}

/// Modifier keys held with a key press.
#[derive(Debug, Clone, Copy, PartialEq, Eq, Structural)]
pub struct Modifiers {
    pub alt: bool,
    pub control: bool,
    pub super_key: bool,
    pub shift: bool,
}

/// ASCII lower case of `c`.
pub open spec fn ascii_lower(c: char) -> char {
    if 'A' <= c && c <= 'Z' {
        ((c as u32) + 32) as char
    } else {
        c
    }
}

/// The character a key press stands for: the lower-cased first character
/// of the key's text, `\0` when it has none or is not a character key.
pub open spec fn key_char(key: Option<Seq<char>>) -> char {
    match key {
        Some(s) => if s.len() > 0 {
            ascii_lower(s[0])
        } else {
            '\0'
        },
        None => '\0',
    }
}

/// The action bound to Ctrl (with or without Shift) and a character.
pub open spec fn ctrl_action(shift: bool, c: char) -> Option<MenuAction> {
    if !shift && c == 'n' {
        Some(MenuAction::NewNote)
    } else if !shift && c == 'o' {
        Some(MenuAction::Open)
    } else if !shift && c == 's' {
        Some(MenuAction::Save)
    } else if shift && c == 's' {
        Some(MenuAction::SaveAs)
    } else if !shift && c == 'q' {
        Some(MenuAction::Quit)
    } else if !shift && c == 'b' {
        Some(MenuAction::Bold)
    } else if !shift && c == 'i' {
        Some(MenuAction::Italic)
    } else if !shift && c == 't' {
        Some(MenuAction::InsertTable)
    } else if !shift && c == 'f' {
        Some(MenuAction::Find)
    } else if !shift && c == 'e' {
        Some(MenuAction::Evaluate)
    } else if shift && c == 'e' {
        Some(MenuAction::ExportCrate)
    } else if !shift && c == ',' {
        Some(MenuAction::Settings)
    } else if !shift && (c == '=' || c == '+') {
        Some(MenuAction::ZoomIn)
    } else if !shift && c == '-' {
        Some(MenuAction::ZoomOut)
    } else if shift && c == '0' {
        Some(MenuAction::ZoomReset)
    } else {
        None
    }
}

/// The shortcut a key press fires: Alt+B toggles the browser; otherwise
/// only Ctrl combinations with a character key are shortcuts.
pub open spec fn shortcut(m: Modifiers, key: Option<Seq<char>>) -> Option<MenuAction> {
    if m.alt && !m.control && !m.super_key && key is Some && key_char(key) == 'b' {
        Some(MenuAction::ToggleBrowser)
    } else if !m.control || key is None {
        None
    } else {
        ctrl_action(m.shift, key_char(key))
    }
}

/// Matches an application shortcut. `key` is the text of a character key,
/// `None` for any other key. Combinations that are not shortcuts give
/// `None` and are left to the editor.
pub fn match_shortcut(modifiers: Modifiers, key: Option<&str>) -> (r: Option<MenuAction>)
    ensures
        r == shortcut(modifiers, match key {
            Some(s) => Some(s@),
            None => None,
        }),
{
    let c: Option<char> = match key {
        Some(s) => {
            let cs = chars_of(s);
            if cs.len() > 0 {
                let f = cs[0];
                Some(if 'A' <= f && f <= 'Z' { ((f as u32) + 32) as u8 as char } else { f })
            } else {
                Some('\0')
            }
        },
        None => None,
    };
    proof {
        match key {
            Some(s) => {
                if s@.len() > 0 {
                    let f = s@[0];
                    if 'A' <= f && f <= 'Z' {
                        assert(((f as u32) + 32) as u8 == (f as u32) + 32);
                    }
                }
            },
            None => {},
        }
    }
    let c = match c {
        Some(ch) => ch,
        None => return None,
    };
    if modifiers.alt && !modifiers.control && !modifiers.super_key && c == 'b' {
        return Some(MenuAction::ToggleBrowser);
    }
    if !modifiers.control {
        return None;
    }
    let shift = modifiers.shift;
    if !shift && c == 'n' {
        Some(MenuAction::NewNote)
    } else if !shift && c == 'o' {
        Some(MenuAction::Open)
    } else if !shift && c == 's' {
        Some(MenuAction::Save)
    } else if shift && c == 's' {
        Some(MenuAction::SaveAs)
    } else if !shift && c == 'q' {
        Some(MenuAction::Quit)
    } else if !shift && c == 'b' {
        Some(MenuAction::Bold)
    } else if !shift && c == 'i' {
        Some(MenuAction::Italic)
    } else if !shift && c == 't' {
        Some(MenuAction::InsertTable)
    } else if !shift && c == 'f' {
        Some(MenuAction::Find)
    } else if !shift && c == 'e' {
        Some(MenuAction::Evaluate)
    } else if shift && c == 'e' {
        Some(MenuAction::ExportCrate)
    } else if !shift && c == ',' {
        Some(MenuAction::Settings)
    } else if !shift && (c == '=' || c == '+') {
        Some(MenuAction::ZoomIn)
    } else if !shift && c == '-' {
        Some(MenuAction::ZoomOut)
    } else if shift && c == '0' {
        Some(MenuAction::ZoomReset)
    } else {
        None
    }
}

} // verus!
