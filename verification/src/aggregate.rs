//! What the agents in the panes of a tab or a workspace are up to, taken together.
use std::collections::HashMap;

use vstd::prelude::*;
use vstd::std_specs::hash::*;

use crate::table;
use crate::table::Table;

verus! {

broadcast use vstd::std_specs::hash::group_hash_axioms;

/// What an agent is doing.
#[derive(Clone, Copy, Debug, PartialEq, Eq, Structural)]
pub enum AgentState {
    Idle,
    Working,
    Blocked,
    Unknown,
}

/// A pane.
#[derive(Debug)]
pub struct PaneState {
    pub attached_terminal_id: String,
    /// Its last change has been looked at.
    pub seen: bool,
}

/// The model of a pane.
pub struct PaneModel {
    pub attached_terminal_id: Seq<char>,
    pub seen: bool,
}

impl View for PaneState {
    type V = PaneModel;

    open spec fn view(&self) -> PaneModel {
        PaneModel { attached_terminal_id: self.attached_terminal_id@, seen: self.seen }
    }
}

/// A terminal.
#[derive(Debug)]
pub struct TerminalState {
    /// An agent runs in it.
    pub agent_terminal: bool,
    pub agent_name: Option<String>,
    /// What the agent in it is to be called.
    pub agent_label: Option<String>,
    pub state: AgentState,
    pub last_agent_state_change_seq: Option<u64>,
    pub metadata_tokens: Table<String>,
}

/// The model of a terminal.
pub struct TerminalModel {
    pub agent_terminal: bool,
    pub agent_name: Option<Seq<char>>,
    pub agent_label: Option<Seq<char>>,
    pub state: AgentState,
    pub last_agent_state_change_seq: Option<u64>,
    pub metadata_tokens: Seq<(Seq<char>, Seq<char>)>,
}

/// The model of an optional text.
pub open spec fn text_model(text: Option<String>) -> Option<Seq<char>> {
    match text {
        Some(text) => Some(text@),
        None => None,
    }
}

impl View for TerminalState {
    type V = TerminalModel;

    open spec fn view(&self) -> TerminalModel {
        TerminalModel {
            agent_terminal: self.agent_terminal,
            agent_name: text_model(self.agent_name),
            agent_label: text_model(self.agent_label),
            state: self.state,
            last_agent_state_change_seq: self.last_agent_state_change_seq,
            metadata_tokens: self.metadata_tokens@,
        }
    }
}

/// A tab: its panes by their ids, and the ids in the order of the layout. Its number stays the same
/// when other tabs go away.
#[derive(Debug)]
pub struct Tab {
    pub number: usize,
    pub root_pane: u64,
    pub layout: Vec<u64>,
    pub panes: HashMap<u64, PaneState>,
}

/// A workspace: its tabs, in order.
#[derive(Debug)]
pub struct Workspace {
    pub tabs: Vec<Tab>,
}

/// What is shown of a pane in which an agent runs.
#[derive(Debug)]
pub struct PaneDetail {
    pub pane_id: u64,
    pub tab_idx: usize,
    pub agent_kind_label: Option<String>,
    pub state: AgentState,
    pub seen: bool,
    pub last_agent_state_change_seq: Option<u64>,
    pub tokens: Table<String>,
}

/// The model of what is shown of a pane.
pub struct DetailModel {
    pub pane_id: u64,
    pub tab_idx: int,
    pub agent_kind_label: Option<Seq<char>>,
    pub state: AgentState,
    pub seen: bool,
    pub last_agent_state_change_seq: Option<u64>,
    pub tokens: Seq<(Seq<char>, Seq<char>)>,
}

impl View for PaneDetail {
    type V = DetailModel;

    open spec fn view(&self) -> DetailModel {
        DetailModel {
            pane_id: self.pane_id,
            tab_idx: self.tab_idx as int,
            agent_kind_label: text_model(self.agent_kind_label),
            state: self.state,
            seen: self.seen,
            last_agent_state_change_seq: self.last_agent_state_change_seq,
            tokens: self.tokens@,
        }
    }
}

/// How much attention a pane asks for.
pub open spec fn attention_priority(state: AgentState, seen: bool) -> u8 {
    match state {
        AgentState::Blocked => 4,
        AgentState::Idle => if seen {
            1
        } else {
            3
        },
        AgentState::Working => 2,
        AgentState::Unknown => 0,
    }
}

/// Whether an agent runs in the terminal of a pane.
pub open spec fn is_agent_pane(terminals: Seq<(Seq<char>, TerminalModel)>, pane: PaneModel) -> bool {
    table::get(terminals, pane.attached_terminal_id) matches Some(terminal)
        && terminal.agent_terminal
}

/// What the agent in a pane is doing.
pub open spec fn agent_state_of(
    terminals: Seq<(Seq<char>, TerminalModel)>,
    pane: PaneModel,
) -> AgentState {
    (table::get(terminals, pane.attached_terminal_id)->0).state
}

/// How much attention a pane with an agent asks for.
pub open spec fn pane_priority(terminals: Seq<(Seq<char>, TerminalModel)>, pane: PaneModel) -> u8 {
    attention_priority(agent_state_of(terminals, pane), pane.seen)
}

/// Whether `pane` is one that asks for the most attention among those with an agent.
pub open spec fn is_foremost(
    panes: Set<PaneModel>,
    terminals: Seq<(Seq<char>, TerminalModel)>,
    pane: PaneModel,
) -> bool {
    &&& panes.contains(pane)
    &&& is_agent_pane(terminals, pane)
    &&& forall|other: PaneModel| #[trigger]
        panes.contains(other) && is_agent_pane(terminals, other) ==> pane_priority(
            terminals,
            other,
        ) <= pane_priority(terminals, pane)
}

/// Whether an agent runs in one of the panes.
pub open spec fn has_agent(
    panes: Set<PaneModel>,
    terminals: Seq<(Seq<char>, TerminalModel)>,
) -> bool {
    exists|pane: PaneModel| #[trigger] panes.contains(pane) && is_agent_pane(terminals, pane)
}

/// Whether every pane with an agent has been looked at.
pub open spec fn all_seen(
    panes: Set<PaneModel>,
    terminals: Seq<(Seq<char>, TerminalModel)>,
) -> bool {
    forall|pane: PaneModel| #[trigger]
        panes.contains(pane) && is_agent_pane(terminals, pane) ==> pane.seen
}

/// Whether `state` is what some panes add up to: what the agent is doing that asks for the most
/// attention, and `Unknown` where there is no agent.
pub open spec fn is_aggregate_state(
    panes: Set<PaneModel>,
    terminals: Seq<(Seq<char>, TerminalModel)>,
    state: AgentState,
) -> bool {
    if has_agent(panes, terminals) {
        exists|pane: PaneModel| #[trigger]
            is_foremost(panes, terminals, pane) && agent_state_of(terminals, pane) == state
    } else {
        state == AgentState::Unknown
    }
}

/// Panes add up to one state only, whatever order they are looked at in.
pub proof fn law_aggregate_state_is_unique(
    panes: Set<PaneModel>,
    terminals: Seq<(Seq<char>, TerminalModel)>,
    one: AgentState,
    other: AgentState,
)
    requires
        is_aggregate_state(panes, terminals, one),
        is_aggregate_state(panes, terminals, other),
    ensures
        one == other,
{
    if has_agent(panes, terminals) {
        let a = choose|pane: PaneModel| #[trigger]
            is_foremost(panes, terminals, pane) && agent_state_of(terminals, pane) == one;
        let b = choose|pane: PaneModel| #[trigger]
            is_foremost(panes, terminals, pane) && agent_state_of(terminals, pane) == other;
        assert(panes.contains(a) && panes.contains(b));
        assert(pane_priority(terminals, a) == pane_priority(terminals, b));
    }
}

/// Panes without an agent count for nothing.
pub proof fn law_other_panes_do_not_count(
    panes: Set<PaneModel>,
    terminals: Seq<(Seq<char>, TerminalModel)>,
    extra: PaneModel,
    state: AgentState,
)
    requires
        !is_agent_pane(terminals, extra),
    ensures
        has_agent(panes.insert(extra), terminals) == has_agent(panes, terminals),
        all_seen(panes.insert(extra), terminals) == all_seen(panes, terminals),
        is_aggregate_state(panes.insert(extra), terminals, state) == is_aggregate_state(
            panes,
            terminals,
            state,
        ),
{
    let more = panes.insert(extra);
    assert forall|pane: PaneModel| is_agent_pane(terminals, pane) implies #[trigger] more.contains(
        pane,
    ) == panes.contains(pane) by {}
    if has_agent(panes, terminals) {
        let pane = choose|pane: PaneModel| #[trigger]
            panes.contains(pane) && is_agent_pane(terminals, pane);
        assert(more.contains(pane));
    }
    if has_agent(more, terminals) {
        let pane = choose|pane: PaneModel| #[trigger]
            more.contains(pane) && is_agent_pane(terminals, pane);
        assert(panes.contains(pane));
    }
    assert forall|pane: PaneModel| #[trigger]
        is_foremost(more, terminals, pane) == is_foremost(panes, terminals, pane) by {
        if is_foremost(more, terminals, pane) {
            assert forall|other: PaneModel| #[trigger]
                panes.contains(other) && is_agent_pane(terminals, other) implies pane_priority(
                terminals,
                other,
            ) <= pane_priority(terminals, pane) by {
                assert(more.contains(other));
            }
        }
        if is_foremost(panes, terminals, pane) {
            assert forall|other: PaneModel| #[trigger]
                more.contains(other) && is_agent_pane(terminals, other) implies pane_priority(
                terminals,
                other,
            ) <= pane_priority(terminals, pane) by {
                assert(panes.contains(other));
            }
        }
    }
    if has_agent(panes, terminals) && is_aggregate_state(panes, terminals, state) {
        let pane = choose|pane: PaneModel| #[trigger]
            is_foremost(panes, terminals, pane) && agent_state_of(terminals, pane) == state;
        assert(is_foremost(more, terminals, pane));
    }
    if has_agent(more, terminals) && is_aggregate_state(more, terminals, state) {
        let pane = choose|pane: PaneModel| #[trigger]
            is_foremost(more, terminals, pane) && agent_state_of(terminals, pane) == state;
        assert(is_foremost(panes, terminals, pane));
    }
    if all_seen(panes, terminals) {
        assert forall|pane: PaneModel| #[trigger]
            more.contains(pane) && is_agent_pane(terminals, pane) implies pane.seen by {
            assert(panes.contains(pane));
        }
    }
    if all_seen(more, terminals) {
        assert forall|pane: PaneModel| #[trigger]
            panes.contains(pane) && is_agent_pane(terminals, pane) implies pane.seen by {
            assert(more.contains(pane));
        }
    }
}

/// How much attention a pane asks for.
fn pane_attention_priority(state: AgentState, seen: bool) -> (priority: u8)
    ensures
        priority == attention_priority(state, seen),
{
    match state {
        AgentState::Blocked => 4,
        AgentState::Idle => if seen {
            1
        } else {
            3
        },
        AgentState::Working => 2,
        AgentState::Unknown => 0,
    }
}

/// The panes of a list.
pub open spec fn listed(panes: Seq<&PaneState>) -> Set<PaneModel> {
    Set::new(|pane: PaneModel| exists|i: int| 0 <= i < panes.len() && (#[trigger] panes[i])@ == pane)
}

/// What some panes add up to: the state that asks for the most attention, whether every pane with
/// an agent has been looked at, and whether there is such a pane.
pub fn aggregate_panes(panes: &Vec<&PaneState>, terminals: &Table<TerminalState>) -> (aggregate: (
    AgentState,
    bool,
    bool,
))
    ensures
        is_aggregate_state(listed(panes@), terminals@, aggregate.0),
        aggregate.1 == all_seen(listed(panes@), terminals@),
        aggregate.2 == has_agent(listed(panes@), terminals@),
{
    let mut found: Option<(AgentState, bool)> = None;
    let mut seen = true;
    let ghost mut foremost: int = 0;
    let mut i: usize = 0;
    while i < panes.len()
        invariant
            i <= panes@.len(),
            seen == (forall|j: int|
                0 <= j < i && is_agent_pane(terminals@, (#[trigger] panes@[j])@)
                    ==> panes@[j]@.seen),
            found is None ==> (forall|j: int|
                0 <= j < i ==> !is_agent_pane(terminals@, (#[trigger] panes@[j])@)),
            found matches Some((state, looked_at)) ==> {
                &&& 0 <= foremost < i
                &&& is_agent_pane(terminals@, panes@[foremost]@)
                &&& agent_state_of(terminals@, panes@[foremost]@) == state
                &&& panes@[foremost]@.seen == looked_at
                &&& forall|j: int|
                    0 <= j < i && is_agent_pane(terminals@, (#[trigger] panes@[j])@)
                        ==> pane_priority(terminals@, panes@[j]@) <= pane_priority(
                        terminals@,
                        panes@[foremost]@,
                    )
            },
        decreases panes@.len() - i,
    {
        let pane = panes[i];
        if let Some(terminal) = terminals.get(pane.attached_terminal_id.as_str()) {
            if terminal.agent_terminal {
                seen = seen && pane.seen;
                let replace = match found {
                    None => true,
                    Some((state, looked_at)) => pane_attention_priority(
                        terminal.state,
                        pane.seen,
                    ) > pane_attention_priority(state, looked_at),
                };
                if replace {
                    found = Some((terminal.state, pane.seen));
                    proof {
                        foremost = i as int;
                    }
                }
            }
        }
        i += 1;
    }
    proof {
        let all = listed(panes@);
        assert forall|j: int| 0 <= j < panes@.len() implies #[trigger] all.contains(
            panes@[j]@,
        ) by {}
        assert forall|pane: PaneModel| #[trigger] all.contains(pane) implies exists|j: int|
            0 <= j < panes@.len() && (#[trigger] panes@[j])@ == pane by {}
        match found {
            Some((state, looked_at)) => {
                assert(all.contains(panes@[foremost]@));
                assert(is_foremost(all, terminals@, panes@[foremost]@));
            },
            None => {
                assert(!has_agent(all, terminals@));
            },
        }
        if seen {
            assert(all_seen(all, terminals@));
        } else {
            let j = choose|j: int|
                0 <= j < panes@.len() && is_agent_pane(terminals@, (#[trigger] panes@[j])@)
                    && !panes@[j]@.seen;
            assert(all.contains(panes@[j]@));
        }
    }
    match found {
        Some((state, _)) => (state, seen, true),
        None => (AgentState::Unknown, seen, false),
    }
}

/// Where the panes of a map are added to a list, each pane stands in the list that stood in one of
/// them.
proof fn lemma_gathered(
    before: Seq<&PaneState>,
    added: Seq<&PaneState>,
    panes: Map<u64, PaneState>,
    pane: PaneModel,
)
    requires
        added.unref().to_set() == panes.values(),
    ensures
        listed(before + added).contains(pane) <==> listed(before).contains(pane) || exists|id: u64|
         #[trigger]
            panes.contains_key(id) && panes[id]@ == pane,
{
    let all = before + added;
    if listed(all).contains(pane) {
        let i = choose|i: int| 0 <= i < all.len() && (#[trigger] all[i])@ == pane;
        if i < before.len() {
            assert(before[i]@ == pane);
        } else {
            assert(added.unref()[i - before.len()] == *all[i]);
            assert(added.unref().to_set().contains(*all[i]));
            let id = choose|id: u64| panes.contains_key(id) && panes[id] == *all[i];
            assert(panes.contains_key(id) && panes[id]@ == pane);
        }
    }
    if listed(before).contains(pane) {
        let i = choose|i: int| 0 <= i < before.len() && (#[trigger] before[i])@ == pane;
        assert(all[i]@ == pane);
    }
    if exists|id: u64| #[trigger] panes.contains_key(id) && panes[id]@ == pane {
        let id = choose|id: u64| #[trigger] panes.contains_key(id) && panes[id]@ == pane;
        assert(panes.values().contains(panes[id]));
        assert(added.unref().to_set().contains(panes[id]));
        let i = choose|i: int| 0 <= i < added.unref().len() && added.unref()[i] == panes[id];
        assert(all[before.len() + i]@ == pane);
    }
}

/// Adds panes to a list.
fn gather_panes<'a>(panes: &'a HashMap<u64, PaneState>, mut all: Vec<&'a PaneState>) -> (more: Vec<
    &'a PaneState,
>)
    ensures
        forall|pane: PaneModel| #[trigger]
            listed(more@).contains(pane) <==> listed(all@).contains(pane) || exists|id: u64| #[trigger]
                panes@.contains_key(id) && panes@[id]@ == pane,
{
    let ghost before = all@;
    let ghost added = vstd::std_specs::iter::IteratorSpec::remaining(&spec_values_iter(panes));
    for pane in it: panes.values()
        invariant
            it.seq() == added,
            all@ == before + added.take(it.index()),
    {
        all.push(pane);
        assert(all@ =~= before + added.take(it.index() + 1));
    }
    proof {
        assert(added.take(added.len() as int) =~= added);
        assert(added.unref().to_set() =~= panes@.values());
        assert forall|pane: PaneModel| #[trigger]
            listed(all@).contains(pane) <==> listed(before).contains(pane) || exists|id: u64| #[trigger]
                panes@.contains_key(id) && panes@[id]@ == pane by {
            lemma_gathered(before, added, panes@, pane);
        }
    }
    all
}

/// Whether this is what is shown of some panes: the state that they add up to, and whether every
/// agent in them has been looked at.
pub open spec fn shows(
    panes: Set<PaneModel>,
    terminals: Seq<(Seq<char>, TerminalModel)>,
    shown: (AgentState, bool),
) -> bool {
    &&& is_aggregate_state(panes, terminals, shown.0)
    &&& shown.1 == all_seen(panes, terminals)
}

/// Whether a pane of a tab is listed among the details: it is known, so is its terminal, and the
/// agent in it has a name or a label.
pub open spec fn has_detail(
    tab: &Tab,
    terminals: Seq<(Seq<char>, TerminalModel)>,
    id: u64,
) -> bool {
    &&& tab.panes@.contains_key(id)
    &&& table::get(terminals, tab.panes@[id]@.attached_terminal_id) matches Some(terminal) && (
    terminal.agent_name is Some || terminal.agent_label is Some)
}

/// What is shown of a pane of a tab.
pub open spec fn detail_of(
    tab: &Tab,
    terminals: Seq<(Seq<char>, TerminalModel)>,
    tab_idx: int,
    id: u64,
) -> DetailModel {
    let pane = tab.panes@[id]@;
    let terminal = table::get(terminals, pane.attached_terminal_id)->0;
    DetailModel {
        pane_id: id,
        tab_idx,
        agent_kind_label: terminal.agent_label,
        state: terminal.state,
        seen: pane.seen,
        last_agent_state_change_seq: terminal.last_agent_state_change_seq,
        tokens: terminal.metadata_tokens,
    }
}

/// What is shown of the panes of a tab, in the order of the layout.
pub open spec fn tab_details(
    tab: &Tab,
    terminals: Seq<(Seq<char>, TerminalModel)>,
    tab_idx: int,
    layout: Seq<u64>,
) -> Seq<DetailModel> {
    layout.filter(|id: u64| has_detail(tab, terminals, id)).map_values(
        |id: u64| detail_of(tab, terminals, tab_idx, id),
    )
}

/// What is shown of the panes of some tabs, tab by tab.
pub open spec fn workspace_details(tabs: Seq<Tab>, terminals: Seq<(Seq<char>, TerminalModel)>) -> Seq<
    DetailModel,
>
    decreases tabs.len(),
{
    if tabs.len() == 0 {
        Seq::empty()
    } else {
        let last = tabs.last();
        workspace_details(tabs.drop_last(), terminals) + tab_details(
            &last,
            terminals,
            tabs.len() - 1,
            last.layout@,
        )
    }
}

/// The models of some details.
pub open spec fn detail_models(details: Seq<PaneDetail>) -> Seq<DetailModel> {
    details.map_values(|detail: PaneDetail| detail@)
}

/// A copy of an optional text.
fn copied_text(text: &Option<String>) -> (copy: Option<String>)
    ensures
        text_model(copy) == text_model(*text),
        copy is Some == text is Some,
{
    match text {
        Some(text) => Some(text.clone()),
        None => None,
    }
}

impl Tab {
    /// The panes of the tab.
    pub open spec fn pane_set(&self) -> Set<PaneModel> {
        Set::new(
            |pane: PaneModel|
                exists|id: u64| #[trigger]
                    self.panes@.contains_key(id) && self.panes@[id]@ == pane,
        )
    }

    /// The state that asks for the most attention in the tab, and whether every agent in it has
    /// been looked at.
    pub fn aggregate_state(&self, terminals: &Table<TerminalState>) -> (aggregate: (
        AgentState,
        bool,
    ))
        ensures
            shows(self.pane_set(), terminals@, aggregate),
    {
        let none: Vec<&PaneState> = Vec::new();
        let panes = gather_panes(&self.panes, none);
        assert(listed(panes@) =~= self.pane_set());
        let (state, seen, found) = aggregate_panes(&panes, terminals);
        if found {
            (state, seen)
        } else {
            (AgentState::Unknown, true)
        }
    }

    /// What is shown of the panes of the tab, which stands at `tab_idx`.
    fn pane_details(&self, terminals: &Table<TerminalState>, tab_idx: usize) -> (details: Vec<
        PaneDetail,
    >)
        ensures
            detail_models(details@) == tab_details(
                self,
                terminals@,
                tab_idx as int,
                self.layout@,
            ),
    {
        let ghost all = self.layout@;
        let ghost picked = |id: u64| has_detail(self, terminals@, id);
        let ghost shown = |id: u64| detail_of(self, terminals@, tab_idx as int, id);
        let mut details: Vec<PaneDetail> = Vec::new();
        let mut i: usize = 0;
        proof {
            reveal(Seq::filter);
            assert(all.take(0).filter(picked) =~= Seq::empty());
            assert(detail_models(details@) =~= all.take(0).filter(picked).map_values(shown));
        }
        while i < self.layout.len()
            invariant
                all == self.layout@,
                picked == (|id: u64| has_detail(self, terminals@, id)),
                shown == (|id: u64| detail_of(self, terminals@, tab_idx as int, id)),
                i <= all.len(),
                detail_models(details@) == all.take(i as int).filter(picked).map_values(shown),
            decreases all.len() - i,
        {
            let ghost earlier = details@;
            let id = self.layout[i];
            proof {
                assert(all.take(i + 1) =~= all.take(i as int).push(id));
                all.take(i as int).lemma_filter_push(id, picked);
            }
            if let Some(pane) = self.panes.get(&id) {
                if let Some(terminal) = terminals.get(pane.attached_terminal_id.as_str()) {
                    if terminal.agent_name.is_some() || terminal.agent_label.is_some() {
                        let detail = PaneDetail {
                            pane_id: id,
                            tab_idx,
                            agent_kind_label: copied_text(&terminal.agent_label),
                            state: terminal.state,
                            seen: pane.seen,
                            last_agent_state_change_seq: terminal.last_agent_state_change_seq,
                            tokens: terminal.metadata_tokens.copied(),
                        };
                        details.push(detail);
                        assert(detail@ == shown(id));
                        assert(detail_models(details@) =~= detail_models(earlier).push(detail@));
                        assert(detail_models(details@) =~= all.take(i + 1).filter(
                            picked,
                        ).map_values(shown));
                    }
                }
            }
            i += 1;
        }
        assert(all.take(i as int) =~= all);
        details
    }
}

impl Workspace {
    /// The panes of the workspace.
    pub open spec fn pane_set(&self) -> Set<PaneModel> {
        Set::new(
            |pane: PaneModel|
                exists|i: int|
                    0 <= i < self.tabs@.len() && (#[trigger] self.tabs@[i]).pane_set().contains(
                        pane,
                    ),
        )
    }

    /// The state that asks for the most attention in the workspace, and whether every agent in it
    /// has been looked at.
    pub fn aggregate_state(&self, terminals: &Table<TerminalState>) -> (aggregate: (
        AgentState,
        bool,
    ))
        ensures
            shows(self.pane_set(), terminals@, aggregate),
    {
        let mut panes: Vec<&PaneState> = Vec::new();
        let mut i: usize = 0;
        while i < self.tabs.len()
            invariant
                i <= self.tabs@.len(),
                forall|pane: PaneModel| #[trigger]
                    listed(panes@).contains(pane) <==> exists|j: int|
                        0 <= j < i && (#[trigger] self.tabs@[j]).pane_set().contains(pane),
            decreases self.tabs@.len() - i,
        {
            let ghost earlier = panes@;
            panes = gather_panes(&self.tabs[i].panes, panes);
            assert forall|pane: PaneModel| #[trigger]
                listed(panes@).contains(pane) <==> exists|j: int|
                    0 <= j < i + 1 && (#[trigger] self.tabs@[j]).pane_set().contains(pane) by {
                assert(listed(panes@).contains(pane) <==> listed(earlier).contains(pane)
                    || self.tabs@[i as int].pane_set().contains(pane));
            }
            i += 1;
        }
        assert(listed(panes@) =~= self.pane_set());
        let (state, seen, found) = aggregate_panes(&panes, terminals);
        if found {
            (state, seen)
        } else {
            (AgentState::Unknown, true)
        }
    }

    /// What is shown of the panes of the workspace, tab by tab. A tab is named by its place among
    /// the tabs, not by its number.
    pub fn pane_details(&self, terminals: &Table<TerminalState>) -> (details: Vec<PaneDetail>)
        ensures
            detail_models(details@) == workspace_details(self.tabs@, terminals@),
    {
        let ghost all = self.tabs@;
        let mut details: Vec<PaneDetail> = Vec::new();
        let mut i: usize = 0;
        proof {
            assert(all.take(0) =~= Seq::<Tab>::empty());
            assert(detail_models(details@) =~= workspace_details(all.take(0), terminals@));
        }
        while i < self.tabs.len()
            invariant
                all == self.tabs@,
                i <= all.len(),
                detail_models(details@) == workspace_details(all.take(i as int), terminals@),
            decreases all.len() - i,
        {
            let ghost earlier = detail_models(details@);
            let tab = &self.tabs[i];
            let mut more = tab.pane_details(terminals, i);
            let ghost shown = detail_models(more@);
            details.append(&mut more);
            proof {
                assert(detail_models(details@) =~= earlier + shown);
                assert(all.take(i + 1).drop_last() =~= all.take(i as int));
                assert(all.take(i + 1).last() == tab);
            }
            i += 1;
        }
        assert(all.take(i as int) =~= all);
        details
    }
}

/// Without agents there is nothing to look at.
pub proof fn law_no_agent_means_seen(
    panes: Set<PaneModel>,
    terminals: Seq<(Seq<char>, TerminalModel)>,
    shown: (AgentState, bool),
)
    requires
        shows(panes, terminals, shown),
        !has_agent(panes, terminals),
    ensures
        shown == (AgentState::Unknown, true),
{
}

/// A workspace has been looked at exactly if each of its tabs has.
pub proof fn law_workspace_is_seen_tab_by_tab(
    workspace: &Workspace,
    terminals: Seq<(Seq<char>, TerminalModel)>,
)
    ensures
        all_seen(workspace.pane_set(), terminals) <==> forall|i: int|
            0 <= i < workspace.tabs@.len() ==> all_seen(
                (#[trigger] workspace.tabs@[i]).pane_set(),
                terminals,
            ),
{
    let all = workspace.pane_set();
    if all_seen(all, terminals) {
        assert forall|i: int| 0 <= i < workspace.tabs@.len() implies all_seen(
            (#[trigger] workspace.tabs@[i]).pane_set(),
            terminals,
        ) by {
            let panes = workspace.tabs@[i].pane_set();
            assert forall|pane: PaneModel| #[trigger]
                panes.contains(pane) && is_agent_pane(terminals, pane) implies pane.seen by {
                assert(all.contains(pane));
            }
        }
    }
    if forall|i: int|
        0 <= i < workspace.tabs@.len() ==> all_seen(
            (#[trigger] workspace.tabs@[i]).pane_set(),
            terminals,
        ) {
        assert forall|pane: PaneModel| #[trigger]
            all.contains(pane) && is_agent_pane(terminals, pane) implies pane.seen by {
            let i = choose|i: int|
                0 <= i < workspace.tabs@.len() && (
                #[trigger] workspace.tabs@[i]).pane_set().contains(pane);
            assert(all_seen(workspace.tabs@[i].pane_set(), terminals));
        }
    }
}

/// Every pane that is shown is shown under the place of its tab.
pub proof fn law_details_name_the_place_of_the_tab(
    tabs: Seq<Tab>,
    terminals: Seq<(Seq<char>, TerminalModel)>,
    i: int,
)
    requires
        0 <= i < workspace_details(tabs, terminals).len(),
    ensures
        ({
            let detail = workspace_details(tabs, terminals)[i];
            &&& 0 <= detail.tab_idx < tabs.len()
            &&& tabs[detail.tab_idx].layout@.contains(detail.pane_id)
            &&& has_detail(&tabs[detail.tab_idx], terminals, detail.pane_id)
            &&& detail == detail_of(
                &tabs[detail.tab_idx],
                terminals,
                detail.tab_idx,
                detail.pane_id,
            )
        }),
    decreases tabs.len(),
{
    if tabs.len() > 0 {
        let last = tabs.last();
        let earlier = workspace_details(tabs.drop_last(), terminals);
        if i < earlier.len() {
            law_details_name_the_place_of_the_tab(tabs.drop_last(), terminals, i);
        } else {
            let picked = |id: u64| has_detail(&last, terminals, id);
            let chosen = last.layout@.filter(picked);
            let id = chosen[i - earlier.len()];
            last.layout@.lemma_filter_pred(picked, i - earlier.len());
            assert(chosen.contains(id));
            last.layout@.lemma_filter_contains_rev(picked, id);
        }
    }
}

} // verus!
