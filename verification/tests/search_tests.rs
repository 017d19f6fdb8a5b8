use leptos_command_palette::command::{query_terms, rank_commands};
use leptos_command_palette::search::{
    best_ordered_state, boundary_penalty, keep_better_state, ordered_state_key, OrderedState,
    SearchOccurrence,
};
use leptos_command_palette::{filter_commands, Command, CommandBadge};

fn ids(cmds: &[Command]) -> Vec<String> {
    cmds.iter().map(|c| c.id.clone()).collect()
}

#[test]
fn query_terms_are_lowercased_words_kept_once() {
    assert_eq!(query_terms("  Hello\tWORLD hello "), ["hello", "world"]);
    assert_eq!(query_terms("ÄB cd"), ["äb", "cd"]);
    assert!(query_terms("").is_empty());
    assert!(query_terms(" \t\n ").is_empty());
}

#[test]
fn query_terms_split_on_unicode_whitespace() {
    assert_eq!(query_terms("a\u{3000}b\u{a0}c"), ["a", "b", "c"]);
}

#[test]
fn a_blank_query_returns_items_unchanged() {
    let items = vec![
        Command::new("b", "Beta", || {}),
        Command::new("a", "Alpha", || {}),
    ];
    assert_eq!(ids(&filter_commands(&items, "   ")), ["b", "a"]);
}

#[test]
fn search_ignores_letter_case() {
    let items = vec![
        Command::new("save", "Save File", || {}),
        Command::new("open", "Open", || {}),
    ];
    assert_eq!(ids(&filter_commands(&items, "SAVE")), ["save"]);
    assert_eq!(ids(&filter_commands(&items, "file")), ["save"]);
}

#[test]
fn description_group_and_badges_are_searched() {
    let items = vec![
        Command::new("d", "One", || {}).description("Writes the buffer"),
        Command::new("g", "Two", || {}).group("Editing"),
        Command::new("b", "Three", || {}).badge(CommandBadge::new("Remote", "red")),
        Command::new("n", "Four", || {}),
    ];
    assert_eq!(ids(&filter_commands(&items, "buffer")), ["d"]);
    assert_eq!(ids(&filter_commands(&items, "editing")), ["g"]);
    assert_eq!(ids(&filter_commands(&items, "remote")), ["b"]);
}

#[test]
fn names_rank_before_descriptions() {
    let items = vec![
        Command::new("desc", "Other", || {}).description("deploy"),
        Command::new("name", "Deploy", || {}),
    ];
    assert_eq!(ids(&filter_commands(&items, "deploy")), ["name", "desc"]);
}

#[test]
fn earlier_matches_rank_first_when_all_else_is_equal() {
    let items = vec![
        Command::new("late", "xx alpha", || {}),
        Command::new("early", "alpha", || {}),
    ];
    assert_eq!(ids(&filter_commands(&items, "alpha")), ["early", "late"]);
}

#[test]
fn ranking_uses_the_children_given_for_searchable_branches() {
    let items = vec![
        Command::new("save", "Save", || {}),
        Command::submenu("scenes", "Open Scene", Vec::new).searchable_children(),
    ];
    let children = vec![vec![], vec![Command::new("beach", "Beach", || {})]];
    let out = rank_commands(&items, &children, "beach");
    assert_eq!(ids(&out), ["beach"]);
    assert_eq!(out[0].search_parent(), Some("Open Scene"));
}

#[test]
fn children_of_plain_branches_are_not_searched() {
    let items = vec![Command::submenu("scenes", "Open Scene", Vec::new)];
    let children = vec![vec![Command::new("beach", "Beach", || {})]];
    assert!(rank_commands(&items, &children, "beach").is_empty());
}

#[test]
fn results_are_unique_by_id() {
    let items = vec![
        Command::new("save", "Save", || {}),
        Command::submenu("files", "Files", || vec![Command::new("save", "Save copy", || {})])
            .searchable_children(),
    ];
    let out = filter_commands(&items, "save");
    assert_eq!(ids(&out), ["save"]);
    assert_eq!(out[0].name, "Save");
    assert_eq!(out[0].search_parent(), None);
}

#[test]
fn a_title_match_alone_does_not_promote_a_child() {
    let items = vec![Command::submenu("scenes", "Open Scene", || {
        vec![Command::new("a", "Sunset", || {})]
    })
    .searchable_children()];
    assert_eq!(ids(&filter_commands(&items, "scene")), ["scenes"]);
}

#[test]
fn results_only_hold_items_or_their_promoted_children() {
    let items = vec![
        Command::new("x", "Xylophone", || {}),
        Command::submenu("m", "Music", || vec![Command::new("y", "Xylo", || {})]).searchable_children(),
    ];
    let out = filter_commands(&items, "xylo");
    assert_eq!(ids(&out), ["y", "x"]);
    assert_eq!(out[0].search_parent(), Some("Music"));
}

#[test]
fn cloned_commands_keep_their_fields() {
    let cmd = Command::new("id", "Name", || {})
        .description("Desc")
        .group("Grp")
        .badge(CommandBadge::new("B", "blue"))
        .searchable_children();
    let c = cmd.clone();
    assert!(c == cmd);
    assert_eq!(c.name, "Name");
    assert_eq!(c.description.as_deref(), Some("Desc"));
    assert_eq!(c.group.as_deref(), Some("Grp"));
    assert_eq!(c.badges, vec![CommandBadge::new("B", "blue")]);
    assert!(c.searches_children());
    let p = cmd.promoted_under("Parent");
    assert_eq!(p.search_parent(), Some("Parent"));
    assert_eq!(p.description.as_deref(), Some("Desc"));
}

fn occ(start: u128, end: u128, b: u128, f: u128, parent: bool) -> SearchOccurrence {
    SearchOccurrence { start, end, boundary_penalty: b, field_penalty: f, is_parent: parent }
}

#[test]
fn a_required_non_parent_chain_wins_over_a_better_title_only_chain() {
    let matches = vec![
        vec![occ(0, 4, 0, 1, true), occ(5, 9, 1, 0, false)],
        vec![occ(10, 14, 0, 1, true)],
    ];
    let s = best_ordered_state(&matches, true).expect("a chain touches the name");
    assert_eq!(s.first_start, 5);
    assert_eq!(s.end, 14);
    assert_eq!(s.boundary_penalty, 1);
    assert_eq!(s.field_penalty, 1);
    assert!(s.has_non_parent);
    let any = best_ordered_state(&matches, false).expect("some chain");
    assert_eq!(any.first_start, 0);
    assert_eq!(any.boundary_penalty, 0);
    assert_eq!(any.field_penalty, 2);
    assert!(!any.has_non_parent);
}

#[test]
fn no_ordered_chain_gives_none() {
    let matches = vec![vec![occ(10, 14, 0, 0, false)], vec![occ(0, 4, 0, 0, false)]];
    assert!(best_ordered_state(&matches, false).is_none());
    assert!(best_ordered_state(&vec![], false).is_none());
    let title_only = vec![vec![occ(0, 4, 0, 1, true)]];
    assert!(best_ordered_state(&title_only, true).is_none());
}

#[test]
fn boundary_penalty_counts_ends_inside_words() {
    let text: Vec<char> = "xalpha beta".chars().collect();
    assert_eq!(boundary_penalty(&text, 1, 6), 1);
    assert_eq!(boundary_penalty(&text, 7, 11), 0);
    assert_eq!(boundary_penalty(&text, 2, 4), 2);
    assert_eq!(boundary_penalty(&text, 0, 11), 0);
}

#[test]
fn boundary_penalty_treats_out_of_range_ends_as_boundaries() {
    let text: Vec<char> = "abc".chars().collect();
    assert_eq!(boundary_penalty(&text, 10, 12), 0);
    assert_eq!(boundary_penalty(&text, 3, 1), 2);
    assert_eq!(boundary_penalty(&text, 4, 0), 1);
    assert_eq!(boundary_penalty(&vec![], 0, 0), 0);
}

#[test]
fn large_penalties_are_summed_along_the_best_chain() {
    let big = u64::MAX as u128;
    let matches = vec![
        vec![occ(0, 2, big, 7, false), occ(3, 5, 1000, big, false)],
        vec![occ(6, 9, big, big, true)],
    ];
    let s = best_ordered_state(&matches, false).expect("two chains");
    assert_eq!(s.first_start, 3);
    assert_eq!(s.end, 9);
    assert_eq!(s.boundary_penalty, 1000 + big);
    assert_eq!(s.field_penalty, 2 * big);
    assert!(s.has_non_parent);
}

fn state(first: u128, end: u128, np: bool) -> OrderedState {
    OrderedState { first_start: first, end, boundary_penalty: 0, field_penalty: 0, has_non_parent: np }
}

#[test]
fn keep_better_state_saturates_the_span_and_keeps_ties() {
    assert_eq!(ordered_state_key(&state(5, 3, false)), (0, 0, 0, 5));
    let mut slot = None;
    keep_better_state(&mut slot, state(5, 3, false));
    assert_eq!(slot.map(|s| s.first_start), Some(5));
    keep_better_state(&mut slot, state(4, 2, false));
    assert_eq!(slot.map(|s| s.first_start), Some(4));
    keep_better_state(&mut slot, state(4, 1, true));
    assert_eq!(slot.map(|s| s.has_non_parent), Some(false));
    keep_better_state(&mut slot, state(4, 9, true));
    assert_eq!(slot.map(|s| s.end), Some(2));
}
