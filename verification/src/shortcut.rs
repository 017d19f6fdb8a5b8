use vstd::prelude::*;
use crate::text::{
    ascii_lower_seq, ascii_upper, char_to_ascii_uppercase, chars_of, contains_seq, is_ascii_alphabetic,
    is_ascii_digit, push_char, push_str, str_byte_len, str_contains, str_eq_ignore_ascii_case,
    to_uppercase, uppercase_of, utf8_len,
};

verus! {

/// A keyboard modifier key.
#[derive(Clone, Copy, Debug, PartialEq, Eq, Hash, Structural)]
pub enum Modifier {
    /// The primary system modifier: Cmd on Mac, Ctrl on Windows/Linux.
    Main,
    /// Alt / Option key.
    Alt,
    /// Shift key.
    Shift,
}

/// Whether a browser platform string (`navigator.platform`) names a Mac.
pub open spec fn mac_platform(platform: Seq<char>) -> bool {
    contains_seq(platform, "Mac"@)
}

/// Whether the platform string reported by the browser names a Mac.
pub fn platform_is_mac(platform: &str) -> (r: bool)
    ensures
        r == mac_platform(platform@),
{
    str_contains(platform, "Mac")
}

/// Name of a modifier on a Mac (`mac`) or on other platforms.
pub open spec fn modifier_name(m: Modifier, mac: bool) -> Seq<char> {
    match m {
        Modifier::Main => if mac {
            "Cmd"@
        } else {
            "Ctrl"@
        },
        Modifier::Alt => if mac {
            "Opt"@
        } else {
            "Alt"@
        },
        Modifier::Shift => "Shift"@,
    }
}

impl Modifier {
    /// Display name on a Mac (`mac`) or on other platforms.
    pub fn display_name(self, mac: bool) -> (r: &'static str)
        ensures
            r@ == modifier_name(self, mac),
    {
        match self {
            Modifier::Main => {
                if mac {
                    "Cmd"
                } else {
                    "Ctrl"
                }
            },
            Modifier::Alt => {
                if mac {
                    "Opt"
                } else {
                    "Alt"
                }
            },
            Modifier::Shift => "Shift",
        }
    }

    /// The text the modifier is displayed as (its display name).
    pub fn to_display_string(self, mac: bool) -> (r: String)
        ensures
            r@ == modifier_name(self, mac),
    {
        self.display_name(mac).to_owned()
    }
}

/// The keys of a key press that a shortcut reads: the physical key code
/// (`KeyboardEvent.code`) and the modifier flags.
#[derive(Debug)]
pub struct KeyStroke {
    /// `KeyboardEvent.code`, e.g. "KeyK".
    pub code: String,
    /// `KeyboardEvent.key`, e.g. "k" or "Escape".
    pub key: String,
    pub meta_key: bool,
    pub ctrl_key: bool,
    pub alt_key: bool,
    pub shift_key: bool,
}

/// A keyboard shortcut: a set of modifiers plus a key.
#[derive(Debug, PartialEq)]
pub struct Shortcut {
    pub modifiers: Vec<Modifier>,
    pub key: String,
}

pub struct ShortcutView {
    pub modifiers: Seq<Modifier>,
    pub key: Seq<char>,
}

impl View for Shortcut {
    type V = ShortcutView;

    open spec fn view(&self) -> ShortcutView {
        ShortcutView { modifiers: self.modifiers@, key: self.key@ }
    }
}

impl Clone for Shortcut {
    fn clone(&self) -> (r: Self)
        ensures
            r@ == self@,
    {
        let mut modifiers: Vec<Modifier> = Vec::new();
        let n = self.modifiers.len();
        let mut i: usize = 0;
        while i < n
            invariant
                i <= n,
                n == self.modifiers@.len(),
                modifiers@ == self.modifiers@.take(i as int),
            decreases n - i,
        {
            modifiers.push(self.modifiers[i]);
            assert(self.modifiers@.take(i + 1) =~= self.modifiers@.take(i as int).push(self.modifiers@[i as int]));
            i += 1;
        }
        assert(self.modifiers@.take(n as int) =~= self.modifiers@);
        Shortcut { modifiers, key: self.key.clone() }
    }
}

/// The `KeyboardEvent.code` value a shortcut key stands for: a single ASCII
/// letter "s" → "KeyS", a single digit "2" → "Digit2", anything else as given.
pub open spec fn key_code(key: Seq<char>) -> Seq<char> {
    if utf8_len(key) == 1 && key.len() >= 1 {
        let ch = key[0];
        if is_ascii_alphabetic(ch) {
            "Key"@ + seq![ascii_upper(ch)]
        } else if is_ascii_digit(ch) {
            "Digit"@ + seq![ch]
        } else {
            key
        }
    } else {
        key
    }
}

/// Whether a key press matches the shortcut on a Mac (`mac`) or elsewhere.
pub open spec fn shortcut_matches(s: ShortcutView, ev: KeyStroke, mac: bool) -> bool {
    let main_pressed = if mac {
        ev.meta_key
    } else {
        ev.ctrl_key
    };
    let other_pressed = if mac {
        ev.ctrl_key
    } else {
        ev.meta_key
    };
    &&& main_pressed == s.modifiers.contains(Modifier::Main)
    &&& !other_pressed
    &&& ev.alt_key == s.modifiers.contains(Modifier::Alt)
    &&& ev.shift_key == s.modifiers.contains(Modifier::Shift)
    &&& ascii_lower_seq(ev.code@) == ascii_lower_seq(key_code(s.key))
}

/// The modifier names joined by "+".
pub open spec fn joined_names(mods: Seq<Modifier>, mac: bool) -> Seq<char>
    decreases mods.len(),
{
    if mods.len() == 0 {
        seq![]
    } else if mods.len() == 1 {
        modifier_name(mods[0], mac)
    } else {
        joined_names(mods.drop_last(), mac) + "+"@ + modifier_name(mods.last(), mac)
    }
}

/// How a shortcut is displayed: "Cmd+Shift+S", or "ESCAPE" without modifiers.
pub open spec fn shortcut_text(s: ShortcutView, mac: bool) -> Seq<char> {
    joined_names(s.modifiers, mac) + (if s.modifiers.len() == 0 {
        Seq::<char>::empty()
    } else {
        "+"@
    }) + uppercase_of(s.key)
}

impl Shortcut {
    pub fn new<K: Into<String>>(modifiers: Vec<Modifier>, key: K) -> (r: Self)
        ensures
            r.modifiers@ == modifiers@,
            call_ensures(K::into, (key,), r.key),
    {
        Shortcut { modifiers, key: key.into() }
    }

    /// Convert the user-provided key to the expected `KeyboardEvent.code` value.
    ///
    /// - Single letter `"s"` → `"KeyS"`
    /// - Single digit `"2"` → `"Digit2"`
    /// - Other keys passed through as-is (e.g. `"Escape"`, `"ArrowUp"`)
    pub fn key_to_code(key: &str) -> (r: String)
        ensures
            r@ == key_code(key@),
    {
        if str_byte_len(key) == 1 {
            let chars = chars_of(key);
            if chars.len() == 0 {
                return key.to_owned();
            }
            let ch = chars[0];
            if ('a' <= ch && ch <= 'z') || ('A' <= ch && ch <= 'Z') {
                let mut code = "Key".to_owned();
                push_char(&mut code, char_to_ascii_uppercase(ch));
                code
            } else if '0' <= ch && ch <= '9' {
                let mut code = "Digit".to_owned();
                push_char(&mut code, ch);
                code
            } else {
                key.to_owned()
            }
        } else {
            key.to_owned()
        }
    }

    fn has(&self, m: Modifier) -> (r: bool)
        ensures
            r == self.modifiers@.contains(m),
    {
        let n = self.modifiers.len();
        let mut i: usize = 0;
        while i < n
            invariant
                i <= n,
                n == self.modifiers@.len(),
                forall|j: int| 0 <= j < i ==> self.modifiers@[j] != m,
            decreases n - i,
        {
            if self.modifiers[i] == m {
                assert(self.modifiers@[i as int] == m);
                return true;
            }
            i += 1;
        }
        false
    }

    /// Check if this shortcut matches a key press.
    ///
    /// `Modifier::Main` matches meta (Cmd) on Mac, ctrl on Windows/Linux.
    /// Uses the physical key code rather than the produced character so that
    /// modifier combos like Alt+2 work regardless of platform character mapping.
    pub fn matches(&self, ev: &KeyStroke, mac: bool) -> (r: bool)
        ensures
            r == shortcut_matches(self@, *ev, mac),
    {
        let main_pressed = if mac {
            ev.meta_key
        } else {
            ev.ctrl_key
        };
        let main_expected = self.has(Modifier::Main);
        let other_pressed = if mac {
            ev.ctrl_key
        } else {
            ev.meta_key
        };
        let code = Self::key_to_code(self.key.as_str());
        let code_matches = str_eq_ignore_ascii_case(ev.code.as_str(), code.as_str());
        main_pressed == main_expected && !other_pressed && ev.alt_key == self.has(Modifier::Alt)
            && ev.shift_key == self.has(Modifier::Shift) && code_matches
    }

    /// The shortcut as displayed: modifier names joined by "+", then "+" and
    /// the key in upper case.
    pub fn to_display_string(&self, mac: bool) -> (r: String)
        ensures
            r@ == shortcut_text(self@, mac),
    {
        let mut out = String::new();
        let n = self.modifiers.len();
        let mut i: usize = 0;
        while i < n
            invariant
                i <= n,
                n == self.modifiers@.len(),
                out@ == joined_names(self.modifiers@.take(i as int), mac),
            decreases n - i,
        {
            let ghost prev = self.modifiers@.take(i as int);
            assert(self.modifiers@.take(i + 1).drop_last() =~= prev);
            if i > 0 {
                push_str(&mut out, "+");
            } else {
                assert(prev =~= Seq::<Modifier>::empty());
                assert(out@ =~= Seq::<char>::empty());
            }
            let name = self.modifiers[i].display_name(mac);
            push_str(&mut out, name);
            proof {
                if i == 0 {
                    assert(out@ =~= modifier_name(self.modifiers@[0], mac));
                }
            }
            i += 1;
        }
        assert(self.modifiers@.take(n as int) =~= self.modifiers@);
        if n > 0 {
            push_str(&mut out, "+");
        } else {
            assert(out@ + Seq::<char>::empty() =~= out@);
        }
        let upper = to_uppercase(self.key.as_str());
        push_str(&mut out, upper.as_str());
        out
    }
}

} // verus!
