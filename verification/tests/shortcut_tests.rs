use leptos_command_palette::shortcut::platform_is_mac;
use leptos_command_palette::{KeyStroke, Modifier, Shortcut};

fn stroke(code: &str, key: &str, meta: bool, ctrl: bool, alt: bool, shift: bool) -> KeyStroke {
    KeyStroke {
        code: code.to_string(),
        key: key.to_string(),
        meta_key: meta,
        ctrl_key: ctrl,
        alt_key: alt,
        shift_key: shift,
    }
}

#[test]
fn single_letters_map_to_key_codes() {
    assert_eq!(Shortcut::key_to_code("s"), "KeyS");
    assert_eq!(Shortcut::key_to_code("Z"), "KeyZ");
}

#[test]
fn single_digits_map_to_digit_codes() {
    assert_eq!(Shortcut::key_to_code("2"), "Digit2");
    assert_eq!(Shortcut::key_to_code("0"), "Digit0");
}

#[test]
fn other_keys_pass_through_unchanged() {
    assert_eq!(Shortcut::key_to_code("Escape"), "Escape");
    assert_eq!(Shortcut::key_to_code("ArrowUp"), "ArrowUp");
    assert_eq!(Shortcut::key_to_code("/"), "/");
    assert_eq!(Shortcut::key_to_code(""), "");
    // A single non-ASCII letter is more than one byte and stays as given.
    assert_eq!(Shortcut::key_to_code("é"), "é");
}

#[test]
fn main_modifier_is_meta_on_mac() {
    let s = Shortcut::new(vec![Modifier::Main], "k");
    assert!(s.matches(&stroke("KeyK", "k", true, false, false, false), true));
    assert!(!s.matches(&stroke("KeyK", "k", false, true, false, false), true));
}

#[test]
fn main_modifier_is_ctrl_elsewhere() {
    let s = Shortcut::new(vec![Modifier::Main], "k");
    assert!(s.matches(&stroke("KeyK", "k", false, true, false, false), false));
    assert!(!s.matches(&stroke("KeyK", "k", true, false, false, false), false));
}

#[test]
fn the_other_system_modifier_must_not_be_held() {
    let s = Shortcut::new(vec![Modifier::Main], "k");
    assert!(!s.matches(&stroke("KeyK", "k", true, true, false, false), true));
    assert!(!s.matches(&stroke("KeyK", "k", true, true, false, false), false));
}

#[test]
fn alt_and_shift_must_agree_with_the_shortcut() {
    let s = Shortcut::new(vec![Modifier::Alt], "2");
    assert!(s.matches(&stroke("Digit2", "™", false, false, true, false), false));
    assert!(!s.matches(&stroke("Digit2", "@", false, false, true, true), false));
    assert!(!s.matches(&stroke("Digit2", "2", false, false, false, false), false));
    let plain = Shortcut::new(vec![], "s");
    assert!(!plain.matches(&stroke("KeyS", "S", false, false, false, true), false));
    assert!(plain.matches(&stroke("KeyS", "s", false, false, false, false), false));
}

#[test]
fn key_codes_compare_ignoring_ascii_case() {
    let s = Shortcut::new(vec![Modifier::Main], "k");
    assert!(s.matches(&stroke("keyk", "k", false, true, false, false), false));
    assert!(!s.matches(&stroke("KeyJ", "j", false, true, false, false), false));
    let esc = Shortcut::new(vec![], "Escape");
    assert!(esc.matches(&stroke("ESCAPE", "Escape", false, false, false, false), false));
}

#[test]
fn display_uses_platform_modifier_names() {
    let s = Shortcut::new(vec![Modifier::Main, Modifier::Shift], "s");
    assert_eq!(s.to_display_string(true), "Cmd+Shift+S");
    assert_eq!(s.to_display_string(false), "Ctrl+Shift+S");
    let a = Shortcut::new(vec![Modifier::Alt], "p");
    assert_eq!(a.to_display_string(true), "Opt+P");
    assert_eq!(a.to_display_string(false), "Alt+P");
}

#[test]
fn display_without_modifiers_is_the_key_in_upper_case() {
    assert_eq!(Shortcut::new(vec![], "Escape").to_display_string(false), "ESCAPE");
    assert_eq!(Shortcut::new(vec![], "ß").to_display_string(true), "SS");
}

#[test]
fn modifier_display_names() {
    assert_eq!(Modifier::Main.display_name(true), "Cmd");
    assert_eq!(Modifier::Main.display_name(false), "Ctrl");
    assert_eq!(Modifier::Alt.display_name(true), "Opt");
    assert_eq!(Modifier::Alt.display_name(false), "Alt");
    assert_eq!(Modifier::Shift.display_name(true), "Shift");
    assert_eq!(Modifier::Shift.to_display_string(false), "Shift");
}

#[test]
fn mac_platforms_are_recognised() {
    assert!(platform_is_mac("MacIntel"));
    assert!(platform_is_mac("Macintosh"));
    assert!(!platform_is_mac("Win32"));
    assert!(!platform_is_mac("Linux x86_64"));
    assert!(!platform_is_mac("macintel"));
    assert!(!platform_is_mac(""));
}

#[test]
fn shortcut_clone_is_equal() {
    let s = Shortcut::new(vec![Modifier::Main, Modifier::Alt], "x");
    let c = s.clone();
    assert_eq!(c, s);
    assert_eq!(c.modifiers, vec![Modifier::Main, Modifier::Alt]);
    assert_eq!(c.key, "x");
}
