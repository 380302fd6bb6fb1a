//! The endpoints that a client is connected to.
use vstd::prelude::*;

use crate::bytes;

verus! {

/// Names an endpoint: the local server, or a saved machine by its profile.
#[derive(Debug, PartialEq, Eq)]
pub enum ClientEndpointId {
    Local,
    Ssh(String),
}

/// The model of an endpoint's name.
pub enum EndpointModel {
    Local,
    Ssh(Seq<char>),
}

impl View for ClientEndpointId {
    type V = EndpointModel;

    open spec fn view(&self) -> EndpointModel {
        match self {
            ClientEndpointId::Local => EndpointModel::Local,
            ClientEndpointId::Ssh(profile) => EndpointModel::Ssh(profile@),
        }
    }
}

impl Clone for ClientEndpointId {
    fn clone(&self) -> (copy: ClientEndpointId)
        ensures
            copy@ == self@,
    {
        match self {
            ClientEndpointId::Local => ClientEndpointId::Local,
            ClientEndpointId::Ssh(profile) => ClientEndpointId::Ssh(profile.clone()),
        }
    }
}

impl ClientEndpointId {
    /// Whether two names name the same endpoint.
    pub fn same(&self, other: &ClientEndpointId) -> (same: bool)
        ensures
            same == (self@ == other@),
    {
        match (self, other) {
            (ClientEndpointId::Local, ClientEndpointId::Local) => true,
            (ClientEndpointId::Ssh(a), ClientEndpointId::Ssh(b)) => bytes::text_equal(
                a.as_str(),
                b.as_str(),
            ),
            _ => false,
        }
    }
}

/// The connections that take requests at one moment: each endpoint at most once, with the
/// generation of its connection.
#[derive(Debug)]
pub struct EndpointRegistry {
    connections: Vec<(ClientEndpointId, u64)>,
}

impl View for EndpointRegistry {
    type V = Seq<(EndpointModel, u64)>;

    closed spec fn view(&self) -> Seq<(EndpointModel, u64)> {
        self.connections@.map_values(|entry: (ClientEndpointId, u64)| (entry.0@, entry.1))
    }
}

/// Whether requests to this generation of the endpoint are taken.
pub open spec fn accepts(
    registry: Seq<(EndpointModel, u64)>,
    endpoint: EndpointModel,
    generation: u64,
) -> bool {
    registry.contains((endpoint, generation))
}

impl EndpointRegistry {
    /// No connections.
    pub fn new() -> (registry: EndpointRegistry)
        ensures
            registry@ == Seq::<(EndpointModel, u64)>::empty(),
    {
        let registry = EndpointRegistry { connections: Vec::new() };
        assert(registry@ =~= Seq::<(EndpointModel, u64)>::empty());
        registry
    }

    /// Records a connection, in place of an earlier one to the same endpoint.
    pub fn insert(&mut self, endpoint: ClientEndpointId, generation: u64)
        ensures
            forall|e: EndpointModel, g: u64|
                accepts(final(self)@, e, g) == (if e == endpoint@ {
                    g == generation
                } else {
                    accepts(old(self)@, e, g)
                }),
    {
        let ghost before = self@;
        let mut kept: Vec<(ClientEndpointId, u64)> = Vec::new();
        let ghost viewed = |entry: (ClientEndpointId, u64)| (entry.0@, entry.1);
        let mut i: usize = 0;
        while i < self.connections.len()
            invariant
                self@ == before,
                i <= self.connections@.len(),
                viewed == (|entry: (ClientEndpointId, u64)| (entry.0@, entry.1)),
                forall|x: (EndpointModel, u64)| #[trigger]
                    kept@.map_values(viewed).contains(x) <==> x.0 != endpoint@ && before.take(
                        i as int,
                    ).contains(x),
            decreases self.connections@.len() - i,
        {
            let ghost earlier = kept@.map_values(viewed);
            let ghost here = before[i as int];
            let entry = &self.connections[i];
            assert(here == (entry.0@, entry.1));
            if !entry.0.same(&endpoint) {
                let copy = (entry.0.clone(), entry.1);
                kept.push(copy);
                assert(kept@.map_values(viewed) =~= earlier.push(here));
            }
            i += 1;
            proof {
                let seen = before.take(i - 1);
                let more = before.take(i as int);
                assert(more =~= seen.push(here));
                assert forall|x: (EndpointModel, u64)| #[trigger]
                    kept@.map_values(viewed).contains(x) <==> x.0 != endpoint@ && more.contains(
                        x,
                    ) by {
                    vstd::seq_lib::lemma_seq_contains_after_push(seen, here, x);
                    vstd::seq_lib::lemma_seq_contains_after_push(earlier, here, x);
                    assert(earlier.contains(x) <==> x.0 != endpoint@ && seen.contains(x));
                }
            }
        }
        let ghost others = kept@.map_values(viewed);
        let ghost added = (endpoint@, generation);
        kept.push((endpoint, generation));
        self.connections = kept;
        proof {
            assert(before.take(i as int) =~= before);
            assert(self@ =~= others.push(added));
            assert forall|e: EndpointModel, g: u64| accepts(self@, e, g) == (if e == endpoint@ {
                g == generation
            } else {
                accepts(before, e, g)
            }) by {
                vstd::seq_lib::lemma_seq_contains_after_push(others, added, (e, g));
            }
        }
    }

    /// Whether requests to this generation of the endpoint are taken.
    pub fn accepts(&self, endpoint: &ClientEndpointId, generation: u64) -> (accepted: bool)
        ensures
            accepted == accepts(self@, endpoint@, generation),
    {
        let mut i: usize = 0;
        while i < self.connections.len()
            invariant
                i <= self.connections@.len(),
                forall|j: int| 0 <= j < i ==> #[trigger] self@[j] != (endpoint@, generation),
            decreases self.connections@.len() - i,
        {
            let entry = &self.connections[i];
            assert(self@[i as int] == (entry.0@, entry.1));
            if entry.1 == generation && entry.0.same(endpoint) {
                return true;
            }
            i += 1;
        }
        false
    }
}

} // verus!
