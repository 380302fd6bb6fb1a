//! What is shown of the agents in some panes, pane by pane.
use vstd::prelude::*;

use crate::aggregate;
use crate::aggregate::{AgentState, DetailModel, PaneModel, Tab, TerminalModel, Workspace};
use crate::table;

verus! {

/// Whether an agent that is in `state` runs in one of the panes.
pub open spec fn some_agent_is(
    panes: Set<PaneModel>,
    terminals: Seq<(Seq<char>, TerminalModel)>,
    state: AgentState,
) -> bool {
    exists|pane: PaneModel| #[trigger]
        panes.contains(pane) && (table::get(terminals, pane.attached_terminal_id) matches Some(
            terminal,
        ) && terminal.agent_terminal && terminal.state == state)
}

/// Whether an agent that is in `state` runs in a pane that has not been looked at.
pub open spec fn some_unseen_agent_is(
    panes: Set<PaneModel>,
    terminals: Seq<(Seq<char>, TerminalModel)>,
    state: AgentState,
) -> bool {
    exists|pane: PaneModel| #[trigger]
        panes.contains(pane) && !pane.seen && (table::get(
            terminals,
            pane.attached_terminal_id,
        ) matches Some(terminal) && terminal.agent_terminal && terminal.state == state)
}

proof fn lemma_foremost_state(
    panes: Set<PaneModel>,
    terminals: Seq<(Seq<char>, TerminalModel)>,
    pane: PaneModel,
)
    requires
        aggregate::is_foremost(panes, terminals, pane),
    ensures
        some_agent_is(panes, terminals, aggregate::agent_state_of(terminals, pane)),
        !pane.seen ==> some_unseen_agent_is(
            panes,
            terminals,
            aggregate::agent_state_of(terminals, pane),
        ),
        forall|state: AgentState, seen: bool|
            aggregate::attention_priority(state, seen) > aggregate::pane_priority(terminals, pane)
                ==> !(#[trigger] witnessed(panes, terminals, state, seen)),
{
    assert(panes.contains(pane));
    assert forall|state: AgentState, seen: bool|
        aggregate::attention_priority(state, seen) > aggregate::pane_priority(
            terminals,
            pane,
        ) implies !(#[trigger] witnessed(panes, terminals, state, seen)) by {
        if witnessed(panes, terminals, state, seen) {
            let other = choose|other: PaneModel| #[trigger]
                panes.contains(other) && other.seen == seen && (table::get(
                    terminals,
                    other.attached_terminal_id,
                ) matches Some(terminal) && terminal.agent_terminal && terminal.state == state);
            assert(panes.contains(other) && aggregate::is_agent_pane(terminals, other));
            assert(aggregate::pane_priority(terminals, other) <= aggregate::pane_priority(
                terminals,
                pane,
            ));
        }
    }
}

/// Whether an agent that is in `state` runs in a pane that has been looked at, or has not.
spec fn witnessed(
    panes: Set<PaneModel>,
    terminals: Seq<(Seq<char>, TerminalModel)>,
    state: AgentState,
    seen: bool,
) -> bool {
    exists|pane: PaneModel| #[trigger]
        panes.contains(pane) && pane.seen == seen && (table::get(
            terminals,
            pane.attached_terminal_id,
        ) matches Some(terminal) && terminal.agent_terminal && terminal.state == state)
}

proof fn lemma_witnessed(
    panes: Set<PaneModel>,
    terminals: Seq<(Seq<char>, TerminalModel)>,
    state: AgentState,
)
    ensures
        some_agent_is(panes, terminals, state) <==> witnessed(panes, terminals, state, true)
            || witnessed(panes, terminals, state, false),
        some_unseen_agent_is(panes, terminals, state) <==> witnessed(
            panes,
            terminals,
            state,
            false,
        ),
{
    if some_agent_is(panes, terminals, state) {
        let pane = choose|pane: PaneModel| #[trigger]
            panes.contains(pane) && (table::get(terminals, pane.attached_terminal_id) matches Some(
                terminal,
            ) && terminal.agent_terminal && terminal.state == state);
        assert(panes.contains(pane));
        assert(witnessed(panes, terminals, state, pane.seen));
    }
    if some_unseen_agent_is(panes, terminals, state) {
        let pane = choose|pane: PaneModel| #[trigger]
            panes.contains(pane) && !pane.seen && (table::get(
                terminals,
                pane.attached_terminal_id,
            ) matches Some(terminal) && terminal.agent_terminal && terminal.state == state);
        assert(panes.contains(pane));
    }
    assert forall|seen: bool| witnessed(panes, terminals, state, seen) implies some_agent_is(
        panes,
        terminals,
        state,
    ) && (!seen ==> some_unseen_agent_is(panes, terminals, state)) by {
        let pane = choose|pane: PaneModel| #[trigger]
            panes.contains(pane) && pane.seen == seen && (table::get(
                terminals,
                pane.attached_terminal_id,
            ) matches Some(terminal) && terminal.agent_terminal && terminal.state == state);
        assert(panes.contains(pane));
    }
}

/// What asks for attention comes first. An agent that is blocked does so whether or not it has been
/// looked at. Then comes one that has finished and has not been looked at, then one that works,
/// then one that is idle. Otherwise nothing is known.
pub proof fn law_foremost_state_is_shown(
    panes: Set<PaneModel>,
    terminals: Seq<(Seq<char>, TerminalModel)>,
    state: AgentState,
)
    requires
        aggregate::is_aggregate_state(panes, terminals, state),
    ensures
        state == (if some_agent_is(panes, terminals, AgentState::Blocked) {
            AgentState::Blocked
        } else if some_unseen_agent_is(panes, terminals, AgentState::Idle) {
            AgentState::Idle
        } else if some_agent_is(panes, terminals, AgentState::Working) {
            AgentState::Working
        } else if some_agent_is(panes, terminals, AgentState::Idle) {
            AgentState::Idle
        } else {
            AgentState::Unknown
        }),
{
    lemma_witnessed(panes, terminals, AgentState::Blocked);
    lemma_witnessed(panes, terminals, AgentState::Idle);
    lemma_witnessed(panes, terminals, AgentState::Working);
    if aggregate::has_agent(panes, terminals) {
        let pane = choose|pane: PaneModel| #[trigger]
            aggregate::is_foremost(panes, terminals, pane) && aggregate::agent_state_of(
                terminals,
                pane,
            ) == state;
        lemma_foremost_state(panes, terminals, pane);
    } else {
        assert forall|other: AgentState| !some_agent_is(panes, terminals, other) by {
            if some_agent_is(panes, terminals, other) {
                let pane = choose|pane: PaneModel| #[trigger]
                    panes.contains(pane) && (table::get(
                        terminals,
                        pane.attached_terminal_id,
                    ) matches Some(terminal) && terminal.agent_terminal && terminal.state == other);
                assert(panes.contains(pane) && aggregate::is_agent_pane(terminals, pane));
            }
        }
    }
}

/// Panes count as looked at exactly if there is no agent, whatever its state, in a pane that has
/// not been looked at.
pub proof fn law_one_unseen_agent_is_enough(
    panes: Set<PaneModel>,
    terminals: Seq<(Seq<char>, TerminalModel)>,
    shown: (AgentState, bool),
)
    requires
        aggregate::shows(panes, terminals, shown),
    ensures
        !shown.1 <==> exists|pane: PaneModel| #[trigger]
            panes.contains(pane) && !pane.seen && (table::get(
                terminals,
                pane.attached_terminal_id,
            ) matches Some(terminal) && terminal.agent_terminal),
{
    if !shown.1 {
        let pane = choose|pane: PaneModel| #[trigger]
            panes.contains(pane) && aggregate::is_agent_pane(terminals, pane) && !pane.seen;
        assert(panes.contains(pane));
    }
}

/// A pane is listed exactly if it is known, its terminal is known, and the agent in that has a name
/// or a label. What is listed is the state of the terminal, and whether the pane has been looked at.
pub proof fn law_listed_panes(
    tab: &Tab,
    terminals: Seq<(Seq<char>, TerminalModel)>,
    tab_idx: int,
    id: u64,
)
    ensures
        ({
            let listed = aggregate::tab_details(tab, terminals, tab_idx, seq![id]);
            if !tab.panes@.contains_key(id) {
                listed == Seq::<DetailModel>::empty()
            } else {
                match table::get(terminals, tab.panes@[id]@.attached_terminal_id) {
                    Some(terminal) => if terminal.agent_name is Some || terminal.agent_label is Some {
                        &&& listed.len() == 1
                        &&& listed[0].pane_id == id
                        &&& listed[0].tab_idx == tab_idx
                        &&& listed[0].agent_kind_label == terminal.agent_label
                        &&& listed[0].state == terminal.state
                        &&& listed[0].seen == tab.panes@[id]@.seen
                        &&& listed[0].last_agent_state_change_seq
                            == terminal.last_agent_state_change_seq
                        &&& listed[0].tokens == terminal.metadata_tokens
                    } else {
                        listed == Seq::<DetailModel>::empty()
                    },
                    None => listed == Seq::<DetailModel>::empty(),
                }
            }
        }),
{
    reveal_with_fuel(Seq::filter, 2);
    assert(seq![id].drop_last() =~= Seq::<u64>::empty());
    assert(seq![id].last() == id);
}

/// Panes are listed in the order of the layout: what is listed of two parts of a layout is listed
/// of the whole, one part behind the other.
pub proof fn law_layout_order_is_kept(
    tab: &Tab,
    terminals: Seq<(Seq<char>, TerminalModel)>,
    tab_idx: int,
    first: Seq<u64>,
    second: Seq<u64>,
)
    ensures
        aggregate::tab_details(tab, terminals, tab_idx, first + second) == aggregate::tab_details(
            tab,
            terminals,
            tab_idx,
            first,
        ) + aggregate::tab_details(tab, terminals, tab_idx, second),
{
    let listed = |id: u64| aggregate::has_detail(tab, terminals, id);
    Seq::filter_distributes_over_add(first, second, listed);
    assert(aggregate::tab_details(tab, terminals, tab_idx, first + second)
        =~= aggregate::tab_details(tab, terminals, tab_idx, first) + aggregate::tab_details(
        tab,
        terminals,
        tab_idx,
        second,
    ));
}

/// Tabs are listed in their order: what a further tab adds comes last, under the place of the tab.
pub proof fn law_tab_order_is_kept(
    tabs: Seq<Tab>,
    terminals: Seq<(Seq<char>, TerminalModel)>,
    tab: Tab,
)
    ensures
        aggregate::workspace_details(Seq::empty(), terminals) == Seq::<DetailModel>::empty(),
        aggregate::workspace_details(tabs.push(tab), terminals) == aggregate::workspace_details(
            tabs,
            terminals,
        ) + aggregate::tab_details(&tab, terminals, tabs.len() as int, tab.layout@),
{
    assert(tabs.push(tab).drop_last() =~= tabs);
}

/// Every pane of a tab counts, and so does every pane of every tab of a workspace.
pub proof fn law_every_pane_counts(
    workspace: &Workspace,
    terminals: Seq<(Seq<char>, TerminalModel)>,
    shown: (AgentState, bool),
    of_tab: (AgentState, bool),
    i: int,
    id: u64,
)
    requires
        0 <= i < workspace.tabs@.len(),
        aggregate::shows(workspace.pane_set(), terminals, shown),
        aggregate::shows(workspace.tabs@[i].pane_set(), terminals, of_tab),
        workspace.tabs@[i].panes@.contains_key(id),
        table::get(
            terminals,
            workspace.tabs@[i].panes@[id]@.attached_terminal_id,
        ) matches Some(terminal) && terminal.agent_terminal,
    ensures
        ({
            let pane = workspace.tabs@[i].panes@[id]@;
            let state = (table::get(terminals, pane.attached_terminal_id)->0).state;
            &&& !pane.seen ==> !shown.1 && !of_tab.1
            &&& state == AgentState::Blocked ==> shown.0 == AgentState::Blocked && of_tab.0
                == AgentState::Blocked
            &&& state != AgentState::Unknown ==> shown.0 != AgentState::Unknown && of_tab.0
                != AgentState::Unknown
        }),
{
    let pane = workspace.tabs@[i].panes@[id]@;
    let all = workspace.pane_set();
    let few = workspace.tabs@[i].pane_set();
    assert(few.contains(pane));
    assert(all.contains(pane));
    law_foremost_state_is_shown(all, terminals, shown.0);
    law_foremost_state_is_shown(few, terminals, of_tab.0);
    law_one_unseen_agent_is_enough(all, terminals, shown);
    law_one_unseen_agent_is_enough(few, terminals, of_tab);
}

/// Nothing is shown of a workspace but what an agent in one of its panes is doing.
pub proof fn law_only_panes_count(
    workspace: &Workspace,
    terminals: Seq<(Seq<char>, TerminalModel)>,
    shown: (AgentState, bool),
)
    requires
        aggregate::shows(workspace.pane_set(), terminals, shown),
        shown.0 != AgentState::Unknown,
    ensures
        exists|i: int, id: u64|
            0 <= i < workspace.tabs@.len() && #[trigger] workspace.tabs@[i].panes@.contains_key(id)
                && (table::get(
                terminals,
                workspace.tabs@[i].panes@[id]@.attached_terminal_id,
            ) matches Some(terminal) && terminal.agent_terminal && terminal.state == shown.0),
{
    let all = workspace.pane_set();
    law_foremost_state_is_shown(all, terminals, shown.0);
    lemma_witnessed(all, terminals, shown.0);
    assert(some_agent_is(all, terminals, shown.0));
    let pane = choose|pane: PaneModel| #[trigger]
        all.contains(pane) && (table::get(terminals, pane.attached_terminal_id) matches Some(
            terminal,
        ) && terminal.agent_terminal && terminal.state == shown.0);
    let i = choose|i: int|
        0 <= i < workspace.tabs@.len() && (#[trigger] workspace.tabs@[i]).pane_set().contains(pane);
    let id = choose|id: u64| #[trigger]
        workspace.tabs@[i].panes@.contains_key(id) && workspace.tabs@[i].panes@[id]@ == pane;
    assert(workspace.tabs@[i].panes@.contains_key(id));
}

} // verus!
