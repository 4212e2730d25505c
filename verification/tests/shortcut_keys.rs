use acord::shortcuts::{match_shortcut, MenuAction, Modifiers};

fn mods(alt: bool, control: bool, super_key: bool, shift: bool) -> Modifiers {
    Modifiers { alt, control, super_key, shift }
}

#[test]
fn control_shortcuts() {
    let ctrl = mods(false, true, false, false);
    let ctrl_shift = mods(false, true, false, true);
    assert_eq!(match_shortcut(ctrl, Some("s")), Some(MenuAction::Save));
    assert_eq!(match_shortcut(ctrl, Some("S")), Some(MenuAction::Save));
    assert_eq!(match_shortcut(ctrl_shift, Some("s")), Some(MenuAction::SaveAs));
    assert_eq!(match_shortcut(ctrl_shift, Some("E")), Some(MenuAction::ExportCrate));
    assert_eq!(match_shortcut(ctrl, Some("+")), Some(MenuAction::ZoomIn));
    assert_eq!(match_shortcut(ctrl_shift, Some("0")), Some(MenuAction::ZoomReset));
    assert_eq!(match_shortcut(ctrl, Some("z")), None);
    assert_eq!(match_shortcut(ctrl, None), None);
    assert_eq!(match_shortcut(ctrl, Some("")), None);
}

#[test]
fn alt_b_toggles_browser_and_plain_keys_fall_through() {
    assert_eq!(match_shortcut(mods(true, false, false, false), Some("b")), Some(MenuAction::ToggleBrowser));
    assert_eq!(match_shortcut(mods(true, false, true, false), Some("b")), None);
    assert_eq!(match_shortcut(mods(false, false, false, false), Some("s")), None);
    assert_eq!(match_shortcut(mods(true, true, false, false), Some("b")), Some(MenuAction::Bold));
}
