use acord::config::Config;

#[test]
fn defaults_when_unset() {
    let c = Config::new();
    assert_eq!(c.get("anything", "fallback"), "fallback");
    assert_eq!(c.theme_mode(), "auto");
    assert_eq!(c.line_indicator(), "on");
    assert!(c.gutter_rainbow());
    assert_eq!(c.auto_pair_flags(), 63);
    assert_eq!(c.notes_dir_override(), None);
}

#[test]
fn set_then_get() {
    let mut c = Config::new();
    c.set("themeMode", "dark");
    c.set("themeMode", "light");
    c.set("lineIndicatorMode", "vim");
    assert_eq!(c.theme_mode(), "light");
    assert_eq!(c.line_indicator(), "vim");
    assert_eq!(c.get("themeMode", "x"), "light");
    assert_eq!(c.entries().len(), 2);
}

#[test]
fn gutter_rainbow_only_off_for_false() {
    let mut c = Config::new();
    c.set("gutterRainbow", "no");
    assert!(c.gutter_rainbow());
    c.set("gutterRainbow", "false");
    assert!(!c.gutter_rainbow());
}

#[test]
fn auto_pair_flags_parse_or_default() {
    let mut c = Config::new();
    c.set("autoPairFlags", "5");
    assert_eq!(c.auto_pair_flags(), 5);
    c.set("autoPairFlags", "+7");
    assert_eq!(c.auto_pair_flags(), 7);
    c.set("autoPairFlags", "-1");
    assert_eq!(c.auto_pair_flags(), 63);
    c.set("autoPairFlags", "99999999999");
    assert_eq!(c.auto_pair_flags(), 63);
}

#[test]
fn notes_dir_override_is_trimmed() {
    let mut c = Config::new();
    c.set("autoSaveDirectory", "   ");
    assert_eq!(c.notes_dir_override(), None);
    c.set("autoSaveDirectory", "  /home/me/notes ");
    assert_eq!(c.notes_dir_override(), Some("/home/me/notes".to_string()));
}
