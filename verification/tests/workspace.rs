//! What the agents in the panes of a tab or a workspace add up to.
use std::collections::HashMap;

use herdr::aggregate::{AgentState, PaneState, Tab, TerminalState, Workspace};
use herdr::table::Table;

fn pane(id: u64) -> PaneState {
    PaneState {
        attached_terminal_id: terminal_id(id),
        seen: true,
    }
}

fn terminal_id(pane_id: u64) -> String {
    format!("term-{pane_id}")
}

fn tab(number: usize, panes: &[u64]) -> Tab {
    Tab {
        number,
        root_pane: panes[0],
        layout: panes.to_vec(),
        panes: HashMap::from_iter(panes.iter().map(|id| (*id, pane(*id)))),
    }
}

fn workspace(tabs: &[&[u64]]) -> Workspace {
    Workspace {
        tabs: tabs
            .iter()
            .enumerate()
            .map(|(i, panes)| tab(i + 1, panes))
            .collect(),
    }
}

fn terminal() -> TerminalState {
    TerminalState {
        agent_terminal: false,
        agent_name: None,
        agent_label: None,
        state: AgentState::Unknown,
        last_agent_state_change_seq: None,
        metadata_tokens: Table::new(),
    }
}

fn agent(label: &str, state: AgentState) -> TerminalState {
    TerminalState {
        agent_terminal: true,
        agent_label: Some(label.to_owned()),
        state,
        ..terminal()
    }
}

#[test]
fn aggregate_state_all_unknown() {
    let ws = workspace(&[&[1]]);
    let mut terminals = Table::new();
    let root = ws.tabs[0].root_pane;
    terminals.insert(&terminal_id(root), terminal());
    let (state, seen) = ws.aggregate_state(&terminals);
    assert_eq!(state, AgentState::Unknown);
    assert!(seen);
}

#[test]
fn aggregate_state_priority() {
    let ws = workspace(&[&[1, 2]]);
    let mut terminals = Table::new();
    terminals.insert(&terminal_id(1), agent("codex", AgentState::Idle));
    terminals.insert(&terminal_id(2), agent("pi", AgentState::Working));

    let (state, seen) = ws.aggregate_state(&terminals);

    assert_eq!(state, AgentState::Working);
    assert!(seen);
}

#[test]
fn aggregate_state_done_unseen_beats_working() {
    let mut ws = workspace(&[&[1, 2]]);
    let mut terminals = Table::new();
    terminals.insert(&terminal_id(1), agent("codex", AgentState::Idle));
    terminals.insert(&terminal_id(2), agent("pi", AgentState::Working));
    ws.tabs[0].panes.get_mut(&1).unwrap().seen = false;

    let (state, seen) = ws.aggregate_state(&terminals);

    assert_eq!(state, AgentState::Idle);
    assert!(!seen);
}

#[test]
fn tab_seen_requires_every_agent_pane_to_be_seen() {
    let mut ws = workspace(&[&[1, 2]]);
    let mut terminals = Table::new();
    terminals.insert(&terminal_id(1), agent("codex", AgentState::Idle));
    terminals.insert(&terminal_id(2), agent("pi", AgentState::Idle));

    ws.tabs[0].panes.get_mut(&1).unwrap().seen = true;
    ws.tabs[0].panes.get_mut(&2).unwrap().seen = false;
    assert_eq!(
        ws.tabs[0].aggregate_state(&terminals),
        (AgentState::Idle, false)
    );

    ws.tabs[0].panes.get_mut(&2).unwrap().seen = true;
    assert_eq!(
        ws.tabs[0].aggregate_state(&terminals),
        (AgentState::Idle, true)
    );
}

#[test]
fn no_agent_panes_do_not_make_tab_or_workspace_unseen() {
    let mut ws = workspace(&[&[1, 2]]);
    let mut terminals = Table::new();
    terminals.insert(&terminal_id(1), agent("codex", AgentState::Idle));
    terminals.insert(
        &terminal_id(2),
        TerminalState {
            state: AgentState::Idle,
            ..terminal()
        },
    );

    ws.tabs[0].panes.get_mut(&1).unwrap().seen = true;
    ws.tabs[0].panes.get_mut(&2).unwrap().seen = false;
    assert_eq!(
        ws.tabs[0].aggregate_state(&terminals),
        (AgentState::Idle, true)
    );
    assert_eq!(ws.aggregate_state(&terminals), (AgentState::Idle, true));
}

#[test]
fn workspace_seen_requires_every_agent_tab_to_be_seen() {
    let mut ws = workspace(&[&[1], &[2]]);
    let first_id = ws.tabs[0].root_pane;
    let second_id = ws.tabs[1].root_pane;
    let mut terminals = Table::new();
    terminals.insert(&terminal_id(first_id), agent("codex", AgentState::Idle));
    terminals.insert(&terminal_id(second_id), agent("pi", AgentState::Idle));

    ws.tabs[0].panes.get_mut(&first_id).unwrap().seen = true;
    ws.tabs[1].panes.get_mut(&second_id).unwrap().seen = false;
    assert_eq!(ws.aggregate_state(&terminals), (AgentState::Idle, false));

    ws.tabs[1].panes.get_mut(&second_id).unwrap().seen = true;
    assert_eq!(ws.aggregate_state(&terminals), (AgentState::Idle, true));
}

#[test]
fn pane_details_use_tab_vector_index_not_stable_public_tab_number() {
    let mut ws = workspace(&[&[1], &[2], &[3]]);
    let removed_tab = 1;
    let survivor_pane = ws.tabs[2].root_pane;
    ws.tabs.remove(removed_tab);

    let mut terminals = Table::new();
    terminals.insert(&terminal_id(survivor_pane), agent("codex", AgentState::Unknown));

    let details = ws.pane_details(&terminals);
    let survivor = details
        .iter()
        .find(|detail| detail.pane_id == survivor_pane)
        .expect("surviving tab agent should be listed");

    assert_eq!(ws.tabs[1].number, 3);
    assert_eq!(survivor.tab_idx, 1);
}

#[test]
fn attention_goes_from_blocked_down_to_unknown() {
    let ranked = [
        (AgentState::Blocked, true),
        (AgentState::Idle, false),
        (AgentState::Working, true),
        (AgentState::Idle, true),
        (AgentState::Unknown, true),
    ];
    for (i, (first, first_seen)) in ranked.iter().enumerate() {
        for (second, second_seen) in &ranked[i..] {
            for swapped in [false, true] {
                let (a, b) = if swapped { (2, 1) } else { (1, 2) };
                let mut ws = workspace(&[&[a, b]]);
                ws.tabs[0].panes.get_mut(&1).unwrap().seen = *first_seen;
                ws.tabs[0].panes.get_mut(&2).unwrap().seen = *second_seen;
                let mut terminals = Table::new();
                terminals.insert(&terminal_id(1), agent("one", *first));
                terminals.insert(&terminal_id(2), agent("two", *second));
                assert_eq!(
                    ws.aggregate_state(&terminals),
                    (*first, *first_seen && *second_seen)
                );
            }
        }
    }
}

#[test]
fn an_empty_workspace_has_nothing_to_look_at() {
    let ws = workspace(&[]);
    assert_eq!(
        ws.aggregate_state(&Table::new()),
        (AgentState::Unknown, true)
    );
    assert!(ws.pane_details(&Table::new()).is_empty());
}

#[test]
fn details_follow_the_layout_and_carry_what_is_known() {
    let mut ws = workspace(&[&[1, 2, 3], &[4]]);
    ws.tabs[0].layout = vec![3, 2, 9, 1];
    ws.tabs[0].panes.get_mut(&3).unwrap().seen = false;
    let mut tokens = Table::new();
    tokens.insert("model", "large".to_owned());
    let mut terminals = Table::new();
    terminals.insert(&terminal_id(1), agent("one", AgentState::Idle));
    terminals.insert(&terminal_id(2), terminal());
    terminals.insert(
        &terminal_id(3),
        TerminalState {
            agent_name: Some("three".to_owned()),
            state: AgentState::Working,
            last_agent_state_change_seq: Some(5),
            metadata_tokens: tokens,
            ..terminal()
        },
    );
    terminals.insert(&terminal_id(4), agent("four", AgentState::Blocked));
    let details = ws.pane_details(&terminals);
    let places: Vec<(u64, usize)> = details
        .iter()
        .map(|detail| (detail.pane_id, detail.tab_idx))
        .collect();
    assert_eq!(places, vec![(3, 0), (1, 0), (4, 1)]);
    assert_eq!(details[0].agent_kind_label, None);
    assert_eq!(details[0].state, AgentState::Working);
    assert!(!details[0].seen);
    assert_eq!(details[0].last_agent_state_change_seq, Some(5));
    assert_eq!(
        details[0].tokens.get("model").map(String::as_str),
        Some("large")
    );
    assert_eq!(details[1].agent_kind_label.as_deref(), Some("one"));
    assert!(details[1].seen);
    assert_eq!(details[2].state, AgentState::Blocked);
}

#[test]
fn tables_hold_each_key_once() {
    let mut table = Table::new();
    table.insert("a", "1".to_owned());
    table.insert("b", "2".to_owned());
    table.insert("a", "3".to_owned());
    assert_eq!(table.len(), 2);
    assert_eq!(table.key_at(0), "a");
    assert_eq!(table.value_at(0), "3");
    assert_eq!(table.get("b").map(String::as_str), Some("2"));
    assert_eq!(table.get("c"), None);
    table.remove("a");
    assert!(!table.contains_key("a"));
    assert_eq!(table.len(), 1);
}
