use git_shell::rank::MatchInfo;
use git_shell::select::{Item, Key, Select, SelectCommand};

fn make_items(n: usize) -> Vec<Item> {
    let mut items = Vec::new();
    let mut i: usize = 0;
    while i < n {
        items.push(Item {
            text: format!("repo{}", i),
            item_key: i,
            match_info: MatchInfo::new(),
        });
        i += 1;
    }
    items
}

fn make_select(n: usize, paged: bool) -> Select {
    let mut sel = Select::new();
    sel.paged(paged);
    sel.items(make_items(n));
    sel
}

#[test]
fn builder_defaults() {
    let sel = Select::new();
    assert!(sel.default.is_none());
    assert_eq!(sel.items.len(), 0);
    assert!(sel.prompt.is_none());
    assert!(sel.clear);
    assert!(!sel.paged);
    assert_eq!(sel.page_size, 0);
}

#[test]
fn builder_paged_sets_page_size() {
    let mut sel = Select::new();
    sel.paged(true);
    assert!(sel.paged);
    assert_eq!(sel.page_size, 10);
}

#[test]
fn builder_prompt_and_clear() {
    let mut sel = Select::new();
    sel.with_prompt("pick a repo");
    sel.clear(false);
    assert_eq!(sel.prompt.as_deref(), Some("pick a repo"));
    assert!(!sel.clear);
}

#[test]
fn builder_item_and_items() {
    let mut sel = Select::new();
    sel.item(Item {
        text: String::from("one"),
        item_key: 7,
        match_info: MatchInfo::new(),
    });
    sel.items(make_items(2));
    assert_eq!(sel.items.len(), 3);
    assert_eq!(sel.items[0].item_key, 7);
    assert_eq!(sel.items[1].item_key, 0);
    assert_eq!(sel.items[2].item_key, 1);
}

#[test]
fn capacity_paged_clamps_to_terminal() {
    let sel = make_select(25, true);
    assert_eq!(sel.capacity(100), 10);
    assert_eq!(sel.capacity(5), 4);
    assert_eq!(sel.capacity(1), 1);
}

#[test]
fn capacity_unpaged_is_item_count_or_one() {
    let sel = make_select(25, false);
    assert_eq!(sel.capacity(100), 25);
    let empty = make_select(0, false);
    assert_eq!(empty.capacity(100), 1);
}

#[test]
fn scenario_empty_list_is_inert() {
    // Candidates = []: no key event but Escape does anything; the page
    // count stays 1 and nothing crashes.
    let sel = make_select(0, true);
    let cap = sel.capacity(50);
    assert_eq!(sel.page_count(cap), 1);
    let mut st = sel.start_state();
    for key in [
        Key::ArrowDown,
        Key::ArrowUp,
        Key::ArrowLeft,
        Key::ArrowRight,
        Key::Enter,
        Key::Other,
    ] {
        let cmd = sel.step(&mut st, key, cap, true);
        assert!(cmd.is_none());
        assert!(st.sel.is_none());
        assert_eq!(st.page, 0);
    }
    // A typed character still becomes query input, without a transition.
    let cmd = sel.step(&mut st, Key::Char('a'), cap, true);
    assert_eq!(cmd, Some(SelectCommand::CharInput { ch: 'a' }));
    assert!(st.sel.is_none());
    assert_eq!(st.page, 0);
}

#[test]
fn scenario_three_pages_wrap_right() {
    // 25 candidates at 10 per page give 3 pages; three right-arrows
    // come back to the first page.
    let sel = make_select(25, true);
    let cap = sel.capacity(100);
    assert_eq!(cap, 10);
    assert_eq!(sel.page_count(cap), 3);
    let mut st = sel.start_state();
    assert_eq!(st.page, 0);
    sel.step(&mut st, Key::ArrowRight, cap, true);
    assert_eq!(st.page, 1);
    assert_eq!(st.sel, Some(10));
    sel.step(&mut st, Key::ArrowRight, cap, true);
    assert_eq!(st.page, 2);
    assert_eq!(st.sel, Some(20));
    sel.step(&mut st, Key::ArrowRight, cap, true);
    assert_eq!(st.page, 0);
    assert_eq!(st.sel, Some(0));
}

#[test]
fn scenario_up_arrow_wraps_to_last() {
    // selected_index = 0 on a 5-item list: Up-arrow selects index 4.
    let mut sel = make_select(5, false);
    sel.default(0);
    let cap = sel.capacity(50);
    let mut st = sel.start_state();
    assert_eq!(st.sel, Some(0));
    let cmd = sel.step(&mut st, Key::ArrowUp, cap, true);
    assert!(cmd.is_none());
    assert_eq!(st.sel, Some(4));
}

#[test]
fn scenario_escape_swallowed_without_quit() {
    // Escape with allow_quit = false: no command, state unchanged.
    let mut sel = make_select(5, false);
    sel.default(2);
    let cap = sel.capacity(50);
    let mut st = sel.start_state();
    let cmd = sel.step(&mut st, Key::Escape, cap, false);
    assert!(cmd.is_none());
    assert_eq!(st.sel, Some(2));
    assert_eq!(st.page, 0);
}

#[test]
fn escape_quits_when_allowed() {
    let sel = make_select(5, false);
    let cap = sel.capacity(50);
    let mut st = sel.start_state();
    let cmd = sel.step(&mut st, Key::Escape, cap, true);
    assert_eq!(cmd, Some(SelectCommand::Quit));
}

#[test]
fn wraparound_left_from_first_page() {
    // Left-arrow on page 0 lands on the last page.
    let sel = make_select(25, true);
    let cap = sel.capacity(100);
    let mut st = sel.start_state();
    sel.step(&mut st, Key::ArrowLeft, cap, true);
    assert_eq!(st.page, sel.page_count(cap) - 1);
    assert_eq!(st.sel, Some(20));
}

#[test]
fn down_arrow_from_no_selection_picks_first() {
    let sel = make_select(3, false);
    let cap = sel.capacity(50);
    let mut st = sel.start_state();
    assert!(st.sel.is_none());
    sel.step(&mut st, Key::ArrowDown, cap, true);
    assert_eq!(st.sel, Some(0));
    sel.step(&mut st, Key::ArrowDown, cap, true);
    assert_eq!(st.sel, Some(1));
}

#[test]
fn down_arrow_wraps_past_last() {
    let mut sel = make_select(3, false);
    sel.default(2);
    let cap = sel.capacity(50);
    let mut st = sel.start_state();
    sel.step(&mut st, Key::ArrowDown, cap, true);
    assert_eq!(st.sel, Some(0));
}

#[test]
fn down_arrow_moves_page_with_selection() {
    // Moving the selection off the page in view re-derives the page.
    let mut sel = make_select(25, true);
    sel.default(9);
    let cap = sel.capacity(100);
    let mut st = sel.start_state();
    assert_eq!(st.page, 0);
    sel.step(&mut st, Key::ArrowDown, cap, true);
    assert_eq!(st.sel, Some(10));
    assert_eq!(st.page, 1);
}

#[test]
fn enter_emits_selected_key() {
    let mut sel = make_select(4, false);
    sel.default(2);
    let cap = sel.capacity(50);
    let mut st = sel.start_state();
    let cmd = sel.step(&mut st, Key::Enter, cap, false);
    assert_eq!(cmd, Some(SelectCommand::Select { item_key: 2 }));
}

#[test]
fn enter_without_selection_is_ignored() {
    let sel = make_select(4, false);
    let cap = sel.capacity(50);
    let mut st = sel.start_state();
    let cmd = sel.step(&mut st, Key::Enter, cap, false);
    assert!(cmd.is_none());
}

#[test]
fn alphanumeric_char_becomes_query_input() {
    let mut sel = make_select(4, false);
    sel.default(0);
    let cap = sel.capacity(50);
    let mut st = sel.start_state();
    let cmd = sel.step(&mut st, Key::Char('x'), cap, false);
    assert_eq!(cmd, Some(SelectCommand::CharInput { ch: 'x' }));
}

#[test]
fn other_char_becomes_command_on_selection() {
    let mut sel = make_select(4, false);
    sel.default(3);
    let cap = sel.capacity(50);
    let mut st = sel.start_state();
    let cmd = sel.step(&mut st, Key::Char('\u{7f}'), cap, false);
    assert_eq!(
        cmd,
        Some(SelectCommand::Command { ch: '\u{7f}', item_key: 3 })
    );
}

#[test]
fn visible_rows_show_current_page_and_selection() {
    let mut sel = make_select(25, true);
    sel.default(12);
    let cap = sel.capacity(100);
    let mut st = sel.start_state();
    // Move once so the page is re-derived from the selection.
    sel.step(&mut st, Key::ArrowDown, cap, true);
    assert_eq!(st.sel, Some(13));
    assert_eq!(st.page, 1);
    let rows = sel.visible_rows(&st, cap);
    assert_eq!(rows.len(), 10);
    assert_eq!(rows[0].0, "repo10");
    assert_eq!(rows[9].0, "repo19");
    for (k, row) in rows.iter().enumerate() {
        assert_eq!(row.1, k == 3);
    }
}

#[test]
fn visible_rows_trailing_page_is_short() {
    let sel = make_select(25, true);
    let cap = sel.capacity(100);
    let mut st = sel.start_state();
    sel.step(&mut st, Key::ArrowLeft, cap, true);
    assert_eq!(st.page, 2);
    let rows = sel.visible_rows(&st, cap);
    assert_eq!(rows.len(), 5);
    assert_eq!(rows[0].0, "repo20");
    assert!(rows[0].1);
}

#[test]
fn visible_rows_of_empty_list_is_empty() {
    let sel = make_select(0, true);
    let cap = sel.capacity(50);
    let st = sel.start_state();
    assert!(sel.visible_rows(&st, cap).is_empty());
}
