use leptos_command_palette::component::{global_key_action, id_at, input_key_action, selected_index};
use leptos_command_palette::{
    Command, CommandPaletteContext, GlobalKeyAction, InputKeyAction, KeyStroke, Modifier,
};
use std::sync::atomic::{AtomicU32, Ordering};

fn ids(cmds: &[Command]) -> Vec<String> {
    cmds.iter().map(|c| c.id.clone()).collect()
}

fn scenes() -> Command {
    Command::submenu("scenes", "Open Scene", || {
        vec![
            Command::new("scene.a", "Sunset", || {}),
            Command::new("scene.b", "Dawn", || {}),
        ]
    })
}

fn stroke(code: &str, key: &str, meta: bool, ctrl: bool) -> KeyStroke {
    KeyStroke {
        code: code.to_string(),
        key: key.to_string(),
        meta_key: meta,
        ctrl_key: ctrl,
        alt_key: false,
        shift_key: false,
    }
}

#[test]
fn a_new_palette_is_closed_empty_and_at_the_root() {
    let ctx = CommandPaletteContext::new();
    assert!(!ctx.is_open());
    assert!(ctx.commands().is_empty());
    assert_eq!(ctx.depth(), 0);
    assert!(ctx.nav_stack().is_empty());
}

#[test]
fn registering_an_existing_id_replaces_it_and_moves_it_last() {
    let mut ctx = CommandPaletteContext::new();
    ctx.register(Command::new("a", "First", || {}));
    ctx.register(Command::new("b", "Second", || {}));
    ctx.register(Command::new("a", "Replacement", || {}));
    assert_eq!(ids(ctx.commands()), ["b", "a"]);
    assert_eq!(ctx.commands()[1].name, "Replacement");
}

#[test]
fn register_many_registers_each_in_turn() {
    let mut ctx = CommandPaletteContext::new();
    ctx.register(Command::new("y", "Old Y", || {}));
    ctx.register_many(vec![
        Command::new("x", "X", || {}),
        Command::new("y", "New Y", || {}),
        Command::new("x", "X again", || {}),
    ]);
    assert_eq!(ids(ctx.commands()), ["y", "x"]);
    assert_eq!(ctx.commands()[0].name, "New Y");
    assert_eq!(ctx.commands()[1].name, "X again");
}

#[test]
fn unregister_removes_only_that_id() {
    let mut ctx = CommandPaletteContext::new();
    ctx.register_many(vec![
        Command::new("a", "A", || {}),
        Command::new("b", "B", || {}),
        Command::new("c", "C", || {}),
    ]);
    ctx.unregister("b");
    assert_eq!(ids(ctx.commands()), ["a", "c"]);
    ctx.unregister("missing");
    assert_eq!(ids(ctx.commands()), ["a", "c"]);
}

#[test]
fn unregister_after_register_leaves_other_commands() {
    let mut ctx = CommandPaletteContext::new();
    ctx.register(Command::new("keep", "Keep", || {}));
    ctx.register(Command::new("tmp", "Temporary", || {}));
    ctx.unregister("tmp");
    assert_eq!(ids(ctx.commands()), ["keep"]);
}

#[test]
fn unregister_many_removes_every_listed_id() {
    let mut ctx = CommandPaletteContext::new();
    ctx.register_many(vec![
        Command::new("a", "A", || {}),
        Command::new("b", "B", || {}),
        Command::new("c", "C", || {}),
    ]);
    ctx.unregister_many(&["a", "c", "zzz"]);
    assert_eq!(ids(ctx.commands()), ["b"]);
}

#[test]
fn toggle_opens_and_closes() {
    let mut ctx = CommandPaletteContext::new();
    ctx.toggle();
    assert!(ctx.is_open());
    ctx.toggle();
    assert!(!ctx.is_open());
    ctx.open();
    assert!(ctx.is_open());
    ctx.close();
    assert!(!ctx.is_open());
}

#[test]
fn entering_a_branch_pushes_a_level_with_its_children() {
    let mut ctx = CommandPaletteContext::new();
    ctx.register(scenes());
    ctx.open();
    let branch = ctx.commands()[0].clone();
    ctx.enter(&branch);
    assert_eq!(ctx.depth(), 1);
    assert_eq!(ctx.nav_stack()[0].label, "Open Scene");
    assert_eq!(ids(&ctx.current_items()), ["scene.a", "scene.b"]);
}

#[test]
fn entering_a_leaf_changes_nothing() {
    let mut ctx = CommandPaletteContext::new();
    let leaf = Command::new("save", "Save", || {});
    ctx.register(leaf.clone());
    ctx.enter(&leaf);
    assert_eq!(ctx.depth(), 0);
    assert_eq!(ids(&ctx.current_items()), ["save"]);
}

#[test]
fn enter_with_items_uses_the_given_snapshot() {
    let mut ctx = CommandPaletteContext::new();
    let branch = scenes();
    ctx.enter_with_items(&branch, vec![Command::new("only", "Only", || {})]);
    assert_eq!(ctx.depth(), 1);
    assert_eq!(ctx.nav_stack()[0].label, "Open Scene");
    assert_eq!(ids(&ctx.current_items()), ["only"]);
}

#[test]
fn back_pops_one_level_and_is_a_no_op_at_the_root() {
    let mut ctx = CommandPaletteContext::new();
    let branch = scenes();
    ctx.enter(&branch);
    ctx.enter(&branch);
    assert_eq!(ctx.depth(), 2);
    ctx.back();
    assert_eq!(ctx.depth(), 1);
    ctx.back();
    assert_eq!(ctx.depth(), 0);
    ctx.back();
    assert_eq!(ctx.depth(), 0);
}

#[test]
fn pop_to_truncates_the_stack() {
    let mut ctx = CommandPaletteContext::new();
    let branch = scenes();
    ctx.enter(&branch);
    ctx.enter_with_items(&Command::submenu("inner", "Inner", Vec::new), vec![]);
    ctx.enter(&branch);
    assert_eq!(ctx.depth(), 3);
    ctx.pop_to(5);
    assert_eq!(ctx.depth(), 3);
    ctx.pop_to(2);
    assert_eq!(ctx.depth(), 2);
    assert_eq!(ctx.nav_stack()[1].label, "Inner");
    ctx.pop_to(0);
    assert_eq!(ctx.depth(), 0);
}

#[test]
fn escape_walks_back_then_closes() {
    let mut ctx = CommandPaletteContext::new();
    ctx.open();
    ctx.enter(&scenes());
    ctx.back_or_close();
    assert_eq!(ctx.depth(), 0);
    assert!(ctx.is_open());
    ctx.back_or_close();
    assert!(!ctx.is_open());
}

#[test]
fn closing_resets_navigation_so_reopening_starts_at_the_root() {
    let mut ctx = CommandPaletteContext::new();
    ctx.register(Command::new("save", "Save", || {}));
    ctx.open();
    ctx.enter(&scenes());
    ctx.close();
    ctx.open();
    assert_eq!(ctx.depth(), 0);
    assert_eq!(ids(&ctx.current_items()), ["save"]);
}

#[test]
fn toggling_an_open_palette_twice_reopens_it_at_the_root() {
    let mut ctx = CommandPaletteContext::new();
    ctx.open();
    ctx.enter(&scenes());
    ctx.toggle();
    ctx.toggle();
    assert!(ctx.is_open());
    assert_eq!(ctx.depth(), 0);
}

#[test]
fn activating_a_leaf_runs_it_and_closes() {
    static RUNS: AtomicU32 = AtomicU32::new(0);
    let mut ctx = CommandPaletteContext::new();
    ctx.open();
    let leaf = Command::new("run", "Run", || {
        RUNS.fetch_add(1, Ordering::SeqCst);
    });
    ctx.activate(&leaf);
    assert_eq!(RUNS.load(Ordering::SeqCst), 1);
    assert!(!ctx.is_open());
}

#[test]
fn activating_a_branch_enters_it_without_running_anything() {
    static BRANCH_RUNS: AtomicU32 = AtomicU32::new(0);
    let mut ctx = CommandPaletteContext::new();
    ctx.open();
    let branch = Command::new("more", "More", || {
        BRANCH_RUNS.fetch_add(1, Ordering::SeqCst);
    })
    .children(|| vec![Command::new("x", "X", || {})]);
    ctx.activate(&branch);
    assert_eq!(BRANCH_RUNS.load(Ordering::SeqCst), 0);
    assert!(ctx.is_open());
    assert_eq!(ctx.depth(), 1);
    assert_eq!(ids(&ctx.current_items()), ["x"]);
}

#[test]
fn main_k_toggles_whether_open_or_not() {
    let mut ctx = CommandPaletteContext::new();
    let ev = stroke("KeyK", "k", false, true);
    assert_eq!(global_key_action(&ctx, &ev, false), GlobalKeyAction::Toggle);
    ctx.open();
    assert_eq!(global_key_action(&ctx, &ev, false), GlobalKeyAction::Toggle);
    let mac_ev = stroke("KeyK", "k", true, false);
    assert_eq!(global_key_action(&ctx, &mac_ev, true), GlobalKeyAction::Toggle);
    assert_eq!(global_key_action(&ctx, &mac_ev, false), GlobalKeyAction::Ignore);
}

#[test]
fn escape_asks_to_go_back_or_close() {
    let ctx = CommandPaletteContext::new();
    let ev = stroke("Escape", "Escape", false, false);
    assert_eq!(global_key_action(&ctx, &ev, false), GlobalKeyAction::BackOrClose);
}

#[test]
fn command_shortcuts_run_only_while_closed() {
    let mut ctx = CommandPaletteContext::new();
    ctx.register(Command::new("plain", "Plain", || {}));
    ctx.register(Command::new("save", "Save", || {}).shortcut(vec![Modifier::Main], "s"));
    ctx.register(Command::new("save2", "Save too", || {}).shortcut(vec![Modifier::Main], "s"));
    let ev = stroke("KeyS", "s", false, true);
    assert_eq!(global_key_action(&ctx, &ev, false), GlobalKeyAction::Execute(1));
    let other = stroke("KeyQ", "q", false, true);
    assert_eq!(global_key_action(&ctx, &other, false), GlobalKeyAction::Ignore);
    ctx.open();
    assert_eq!(global_key_action(&ctx, &ev, false), GlobalKeyAction::Ignore);
}

#[test]
fn backspace_on_an_empty_query_in_a_submenu_goes_back() {
    assert_eq!(input_key_action("Backspace", true, 1, 0, 0), InputKeyAction::Back);
    assert_eq!(input_key_action("Backspace", false, 1, 3, 0), InputKeyAction::Nothing);
    assert_eq!(input_key_action("Backspace", true, 0, 3, 0), InputKeyAction::Nothing);
}

#[test]
fn arrows_move_the_highlight_within_bounds() {
    assert_eq!(input_key_action("ArrowDown", false, 0, 3, 1), InputKeyAction::Select(2));
    assert_eq!(input_key_action("ArrowDown", false, 0, 3, 2), InputKeyAction::Select(2));
    assert_eq!(input_key_action("ArrowUp", false, 0, 3, 2), InputKeyAction::Select(1));
    assert_eq!(input_key_action("ArrowUp", false, 0, 3, 0), InputKeyAction::Select(0));
    assert_eq!(input_key_action("ArrowDown", false, 0, 0, 0), InputKeyAction::Nothing);
}

#[test]
fn enter_activates_the_highlighted_result() {
    assert_eq!(input_key_action("Enter", false, 0, 3, 1), InputKeyAction::Activate(1));
    assert_eq!(input_key_action("Enter", true, 2, 0, 0), InputKeyAction::Nothing);
    assert_eq!(input_key_action("x", false, 0, 3, 1), InputKeyAction::Nothing);
}

#[test]
fn the_selection_is_found_by_id_or_defaults_to_the_first() {
    let cmds = vec![
        Command::new("a", "A", || {}),
        Command::new("b", "B", || {}),
        Command::new("c", "C", || {}),
    ];
    assert_eq!(selected_index(&cmds, &Some("b".to_string())), 1);
    assert_eq!(selected_index(&cmds, &Some("z".to_string())), 0);
    assert_eq!(selected_index(&cmds, &None), 0);
    assert_eq!(id_at(&cmds, 2), Some("c".to_string()));
    assert_eq!(id_at(&cmds, 3), None);
}
