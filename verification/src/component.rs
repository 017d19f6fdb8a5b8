use vstd::prelude::*;
use crate::command::{commands_view, Command, CommandView};
use crate::context::CommandPaletteContext;
use crate::shortcut::{shortcut_matches, KeyStroke, Modifier, Shortcut, ShortcutView};
use crate::text::str_eq;

verus! {

/// What the palette does with a key pressed anywhere in the window.
#[derive(Debug, PartialEq, Eq, Structural)]
pub enum GlobalKeyAction {
    /// Main+K: open or close the palette (the key's default is prevented).
    Toggle,
    /// Escape: go up one submenu level, or close the palette at the root.
    BackOrClose,
    /// Run the registered command at this index (the key's default is prevented).
    Execute(usize),
    /// Leave the key alone.
    Ignore,
}

/// What the search input does with a key.
#[derive(Debug, PartialEq, Eq, Structural)]
pub enum InputKeyAction {
    /// Backspace on an empty query inside a submenu: go up one level.
    Back,
    /// Highlight the result at this index.
    Select(usize),
    /// Enter: activate the result at this index.
    Activate(usize),
    /// Leave the key alone.
    Nothing,
}

/// The shortcut that toggles the palette: Main+K.
pub open spec fn toggle_shortcut() -> ShortcutView {
    ShortcutView { modifiers: seq![Modifier::Main], key: "k"@ }
}

/// Index of the first command whose shortcut matches the key press.
pub open spec fn first_shortcut_match(cmds: Seq<CommandView>, ev: KeyStroke, mac: bool) -> Option<int>
    decreases cmds.len(),
{
    if cmds.len() == 0 {
        None
    } else {
        match first_shortcut_match(cmds.drop_last(), ev, mac) {
            Some(i) => Some(i),
            None => if cmds.last().shortcut is Some && shortcut_matches(cmds.last().shortcut.unwrap(), ev, mac) {
                Some(cmds.len() - 1)
            } else {
                None
            },
        }
    }
}

/// The decision for a window key press, given the commands, whether the
/// palette is open, and the platform.
pub open spec fn global_key_spec(cmds: Seq<CommandView>, open: bool, ev: KeyStroke, mac: bool) -> GlobalKeyAction {
    if shortcut_matches(toggle_shortcut(), ev, mac) {
        GlobalKeyAction::Toggle
    } else if ev.key@ == "Escape"@ {
        GlobalKeyAction::BackOrClose
    } else if open {
        GlobalKeyAction::Ignore
    } else {
        match first_shortcut_match(cmds, ev, mac) {
            Some(i) => GlobalKeyAction::Execute(i as usize),
            None => GlobalKeyAction::Ignore,
        }
    }
}

proof fn lemma_first_match_extend(s: Seq<CommandView>, ev: KeyStroke, mac: bool, k: int)
    requires
        0 <= k <= s.len(),
        first_shortcut_match(s.take(k), ev, mac) is Some,
    ensures
        first_shortcut_match(s, ev, mac) == first_shortcut_match(s.take(k), ev, mac),
    decreases s.len() - k,
{
    if k == s.len() {
        assert(s.take(k) =~= s);
    } else {
        assert(s.take(k + 1).drop_last() =~= s.take(k));
        assert(first_shortcut_match(s.take(k + 1), ev, mac) == first_shortcut_match(s.take(k), ev, mac));
        lemma_first_match_extend(s, ev, mac, k + 1);
    }
}

/// Decide what a key pressed anywhere in the window does: Main+K toggles the
/// palette, Escape goes back or closes, and while the palette is closed a
/// registered command's shortcut runs that command.
pub fn global_key_action(ctx: &CommandPaletteContext, ev: &KeyStroke, mac: bool) -> (r: GlobalKeyAction)
    ensures
        r == global_key_spec(ctx@.commands, ctx@.open, *ev, mac),
{
    let toggle = Shortcut { modifiers: vec![Modifier::Main], key: "k".to_owned() };
    assert(toggle@.modifiers =~= seq![Modifier::Main]);
    assert(toggle@ == toggle_shortcut());
    if toggle.matches(ev, mac) {
        return GlobalKeyAction::Toggle;
    }
    if str_eq(ev.key.as_str(), "Escape") {
        return GlobalKeyAction::BackOrClose;
    }
    if ctx.is_open() {
        return GlobalKeyAction::Ignore;
    }
    let cmds = ctx.commands();
    let ghost cv = commands_view(cmds@);
    let n = cmds.len();
    let mut i: usize = 0;
    proof {
        assert(cv.take(0) =~= Seq::<CommandView>::empty());
    }
    while i < n
        invariant
            i <= n,
            n == cmds@.len(),
            cv == commands_view(cmds@),
            cv == ctx@.commands,
            first_shortcut_match(cv.take(i as int), *ev, mac) is None,
            !shortcut_matches(toggle_shortcut(), *ev, mac),
            ev.key@ != "Escape"@,
            !ctx@.open,
        decreases n - i,
    {
        assert(cv.take(i + 1).drop_last() =~= cv.take(i as int));
        assert(cv.take(i + 1).last() == cmds@[i as int]@);
        if cmds[i].shortcut_matches(ev, mac) {
            proof {
                assert(first_shortcut_match(cv.take(i + 1), *ev, mac) == Some(i as int));
                lemma_first_match_extend(cv, *ev, mac, i + 1);
            }
            return GlobalKeyAction::Execute(i);
        }
        i += 1;
    }
    assert(cv.take(n as int) =~= cv);
    GlobalKeyAction::Ignore
}

/// The decision for a key in the search input: `query_empty` tells whether
/// the query is empty, `depth` is the submenu depth, `count` the number of
/// results shown and `cur` the highlighted one.
pub open spec fn input_key_spec(key: Seq<char>, query_empty: bool, depth: int, count: int, cur: int) -> InputKeyAction {
    if key == "Backspace"@ && query_empty && depth > 0 {
        InputKeyAction::Back
    } else if count == 0 {
        InputKeyAction::Nothing
    } else if key == "ArrowDown"@ {
        InputKeyAction::Select(if cur + 1 < count - 1 {
            (cur + 1) as usize
        } else {
            (count - 1) as usize
        })
    } else if key == "ArrowUp"@ {
        InputKeyAction::Select(if cur > 0 {
            (cur - 1) as usize
        } else {
            0
        })
    } else if key == "Enter"@ {
        InputKeyAction::Activate(cur as usize)
    } else {
        InputKeyAction::Nothing
    }
}

/// Decide what a key in the search input does. Backspace on an empty query
/// pops one submenu level (even when the level has no results); the arrows
/// move the highlight within the results; Enter activates the highlighted one.
pub fn input_key_action(key: &str, query_empty: bool, depth: usize, count: usize, cur: usize) -> (r: InputKeyAction)
    ensures
        r == input_key_spec(key@, query_empty, depth as int, count as int, cur as int),
{
    if str_eq(key, "Backspace") && query_empty && depth > 0 {
        return InputKeyAction::Back;
    }
    if count == 0 {
        return InputKeyAction::Nothing;
    }
    if str_eq(key, "ArrowDown") {
        let next = if cur < usize::MAX && cur + 1 < count - 1 {
            cur + 1
        } else {
            count - 1
        };
        InputKeyAction::Select(next)
    } else if str_eq(key, "ArrowUp") {
        InputKeyAction::Select(cur.saturating_sub(1))
    } else if str_eq(key, "Enter") {
        InputKeyAction::Activate(cur)
    } else {
        InputKeyAction::Nothing
    }
}

/// Index of the first command whose id is `id`.
pub open spec fn position_of(cmds: Seq<CommandView>, id: Seq<char>) -> Option<int>
    decreases cmds.len(),
{
    if cmds.len() == 0 {
        None
    } else {
        match position_of(cmds.drop_last(), id) {
            Some(i) => Some(i),
            None => if cmds.last().id == id {
                Some(cmds.len() - 1)
            } else {
                None
            },
        }
    }
}

proof fn lemma_position_extend(s: Seq<CommandView>, id: Seq<char>, k: int)
    requires
        0 <= k <= s.len(),
        position_of(s.take(k), id) is Some,
    ensures
        position_of(s, id) == position_of(s.take(k), id),
    decreases s.len() - k,
{
    if k == s.len() {
        assert(s.take(k) =~= s);
    } else {
        assert(s.take(k + 1).drop_last() =~= s.take(k));
        lemma_position_extend(s, id, k + 1);
    }
}

/// The highlighted index: the position of the selected id among the results,
/// or 0 when nothing is selected or the selection is not among them.
pub fn selected_index(cmds: &Vec<Command>, selected: &Option<String>) -> (r: usize)
    ensures
        r as int == match *selected {
            Some(id) => match position_of(commands_view(cmds@), id@) {
                Some(i) => i,
                None => 0,
            },
            None => 0,
        },
{
    match selected {
        None => 0,
        Some(id) => {
            let ghost cv = commands_view(cmds@);
            let n = cmds.len();
            let mut i: usize = 0;
            proof {
                assert(cv.take(0) =~= Seq::<CommandView>::empty());
            }
            while i < n
                invariant
                    i <= n,
                    n == cmds@.len(),
                    cv == commands_view(cmds@),
                    position_of(cv.take(i as int), id@) is None,
                    *selected == Some(*id),
                decreases n - i,
            {
                assert(cv.take(i + 1).drop_last() =~= cv.take(i as int));
                assert(cv.take(i + 1).last() == cmds@[i as int]@);
                if cmds[i].has_id(id.as_str()) {
                    proof {
                        assert(position_of(cv.take(i + 1), id@) == Some(i as int));
                        lemma_position_extend(cv, id@, i + 1);
                        assert(position_of(cv, id@) == Some(i as int));
                        assert(*selected == Some(*id));
                    }
                    return i;
                }
                i += 1;
            }
            assert(cv.take(n as int) =~= cv);
            0
        },
    }
}

/// The id at `idx` among the results, if there is a result there (the
/// selection a highlight move leads to).
pub fn id_at(cmds: &Vec<Command>, idx: usize) -> (r: Option<String>)
    ensures
        r is Some <==> idx < cmds@.len(),
        r is Some ==> r.unwrap()@ == cmds@[idx as int]@.id,
{
    if idx < cmds.len() {
        Some(cmds[idx].id_str().to_owned())
    } else {
        None
    }
}

} // verus!
