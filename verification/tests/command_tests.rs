use leptos_command_palette::command::filter_commands;
use leptos_command_palette::{Command, CommandBadge};
use std::sync::atomic::{AtomicU32, Ordering};

#[test]
fn new_command_is_a_leaf() {
    let cmd = Command::new("save", "Save", || {});
    assert!(!cmd.is_branch());
    assert!(cmd.resolve_children().is_none());
    assert!(cmd.badges.is_empty());
}

#[test]
fn badge_builders_preserve_display_order() {
    let cmd = Command::new("scene", "Scene", || {})
        .badge(CommandBadge::new("Active", "green"))
        .badges([
            CommandBadge::new("Exterior", "orange"),
            CommandBadge::new("Night", "blue"),
        ]);
    assert_eq!(
        cmd.badges
            .iter()
            .map(|badge| badge.label.as_str())
            .collect::<Vec<_>>(),
        ["Active", "Exterior", "Night"]
    );
}

#[test]
fn submenu_is_a_branch_and_resolves_children() {
    let cmd = Command::submenu("scenes", "Open Scene", || {
        vec![
            Command::new("a", "Scene A", || {}),
            Command::new("b", "Scene B", || {}),
        ]
    });
    assert!(cmd.is_branch());
    let children = cmd.resolve_children().expect("branch resolves children");
    assert_eq!(children.len(), 2);
    assert_eq!(children[0].name, "Scene A");
}

#[test]
fn children_builder_turns_a_leaf_into_a_branch() {
    let cmd =
        Command::new("more", "More", || {}).children(|| vec![Command::new("x", "X", || {})]);
    assert!(cmd.is_branch());
    assert_eq!(cmd.resolve_children().unwrap().len(), 1);
}

#[test]
fn children_are_resolved_each_time_from_live_data() {
    // The producer reads shared state every time it runs, so the child list
    // reflects whatever is current at the moment the branch is entered.
    static COUNT: AtomicU32 = AtomicU32::new(0);
    let cmd = Command::submenu("dyn", "Dynamic", || {
        let n = COUNT.fetch_add(1, Ordering::SeqCst) + 1;
        (0..n)
            .map(|i| Command::new(format!("i{i}"), format!("Item {i}"), || {}))
            .collect()
    });
    assert_eq!(cmd.resolve_children().unwrap().len(), 1);
    assert_eq!(cmd.resolve_children().unwrap().len(), 2);
    assert_eq!(cmd.resolve_children().unwrap().len(), 3);
}

#[test]
fn searchable_children_is_opt_in() {
    let leaf = Command::new("x", "X", || {});
    assert!(!leaf.searches_children());

    let plain_branch = Command::submenu("s", "Open Scene", Vec::new);
    assert!(!plain_branch.searches_children());

    let searchable = Command::submenu("s", "Open Scene", Vec::new).searchable_children();
    assert!(searchable.searches_children());
}

fn scene_branch(searchable: bool) -> Command {
    let b = Command::submenu("scenes", "Open Scene", || {
        vec![
            Command::new("scene.a", "Sunset", || {})
                .badge(CommandBadge::new("Exterior", "orange")),
            Command::new("scene.b", "Dawn", || {}),
        ]
    });
    if searchable {
        b.searchable_children()
    } else {
        b
    }
}

#[test]
fn empty_query_returns_items_unchanged() {
    let items = vec![scene_branch(true), Command::new("save", "Save", || {})];
    let out = filter_commands(&items, "");
    assert_eq!(out.len(), 2);
    assert_eq!(out[0].id, "scenes");
    // The branch is still a branch (drill-in), not flattened.
    assert!(out[0].is_branch());
}

#[test]
fn searchable_branch_promotes_matching_children() {
    let items = vec![scene_branch(true), Command::new("save", "Save", || {})];
    // Typing a child's name surfaces it directly, without entering the menu.
    let out = filter_commands(&items, "sunset");
    let promoted = out
        .iter()
        .find(|c| c.id == "scene.a")
        .expect("matching child is promoted to the top level");
    // ...and carries the branch name as its search-result section.
    assert_eq!(promoted.search_parent(), Some("Open Scene"));
    assert_eq!(promoted.description, None);
    // The non-matching sibling is not surfaced.
    assert!(out.iter().all(|c| c.id != "scene.b"));
}

#[test]
fn searchable_branch_promotes_children_matching_badges() {
    let items = vec![scene_branch(true)];
    let out = filter_commands(&items, "exterior");
    let promoted = out
        .iter()
        .find(|command| command.id == "scene.a")
        .expect("a matching badge promotes its command");
    assert_eq!(promoted.badges[0].label, "Exterior");
}

#[test]
fn search_terms_intersect_across_names_and_badges() {
    let items = vec![
        Command::new("scene.uds", "The UDS", || {}).badges([
            CommandBadge::new("_CORE", "lime"),
            CommandBadge::new("Active", "green"),
        ]),
        Command::new("scene.other", "Other UDS", || {})
            .badge(CommandBadge::new("Archive", "gray")),
    ];

    let out = filter_commands(&items, "uds core active");

    assert_eq!(out.len(), 1);
    assert_eq!(out[0].id, "scene.uds");
}

#[test]
fn every_search_term_is_required() {
    let items =
        vec![Command::new("scene.uds", "The UDS", || {})
            .badge(CommandBadge::new("Core", "lime"))];

    assert!(filter_commands(&items, "uds missing").is_empty());
}

#[test]
fn matches_in_query_order_rank_first() {
    let items = vec![
        Command::new("reversed", "Beta Alpha", || {}),
        Command::new("ordered", "Alpha Beta", || {}),
    ];

    let out = filter_commands(&items, "alpha beta");

    assert_eq!(
        out.iter()
            .map(|command| command.id.as_str())
            .collect::<Vec<_>>(),
        ["ordered", "reversed"]
    );
}

#[test]
fn closer_matches_rank_first() {
    let items = vec![
        Command::new("far", "Alpha Something Far Away Beta", || {}),
        Command::new("close", "Alpha Beta", || {}),
    ];

    let out = filter_commands(&items, "alpha beta");

    assert_eq!(
        out.iter()
            .map(|command| command.id.as_str())
            .collect::<Vec<_>>(),
        ["close", "far"]
    );
}

#[test]
fn word_boundary_matches_rank_before_embedded_substrings() {
    let items = vec![
        Command::new("embedded", "Xalpha Beta", || {}),
        Command::new("boundary", "Alpha Beta", || {}),
    ];

    let out = filter_commands(&items, "alpha beta");

    assert_eq!(
        out.iter()
            .map(|command| command.id.as_str())
            .collect::<Vec<_>>(),
        ["boundary", "embedded"]
    );
}

#[test]
fn promoted_parent_can_supply_a_search_term() {
    let items = vec![scene_branch(true)];

    let out = filter_commands(&items, "open sunset");

    assert_eq!(out.len(), 1);
    assert_eq!(out[0].id, "scene.a");
    assert_eq!(out[0].search_parent(), Some("Open Scene"));
}

#[test]
fn non_searchable_branch_does_not_promote_children() {
    let items = vec![scene_branch(false)];
    let out = filter_commands(&items, "sunset");
    // The branch label doesn't match and children aren't opted in → nothing.
    assert!(out.iter().all(|c| c.id != "scene.a"));
}

#[test]
fn branch_label_match_keeps_branch_and_can_coexist_with_promotions() {
    let items = vec![scene_branch(true)];
    // "scene" matches the branch label AND is a substring of neither child
    // name — so we get just the branch (still a drill-in).
    let out = filter_commands(&items, "open");
    assert_eq!(out.len(), 1);
    assert_eq!(out[0].id, "scenes");
    assert!(out[0].is_branch());
}
