//! The agent/port graph itself: an arena that owns every agent of one net
//! and funnels every read and write through one exclusive borrow.

use vstd::prelude::*;

use crate::model::{
    fresh_agent, net_wf, opt_port_valid, peer_of, port_valid, write_slot_spec, AgentKind,
    AgentView, Port,
};

verus! {

/// An agent as stored in the arena: a kind and three port slots.
#[derive(Clone, Copy)]
pub struct Agent {
    kind: AgentKind,
    slot0: Option<Port>,
    slot1: Option<Port>,
    slot2: Option<Port>,
}

impl View for Agent {
    type V = AgentView;

    closed spec fn view(&self) -> AgentView {
        AgentView { kind: self.kind, ports: seq![self.slot0, self.slot1, self.slot2] }
    }
}

impl Agent {
    /// A fresh, unconnected agent of the given kind.
    pub fn of_kind(kind: AgentKind) -> (a: Agent)
        ensures
            a@ == fresh_agent(kind),
    {
        let a = Agent { kind, slot0: None, slot1: None, slot2: None };
        proof {
            assert(a@ =~= fresh_agent(kind));
        }
        a
    }

    /// A fresh Constructor.
    pub fn constructor() -> (a: Agent)
        ensures
            a@ == fresh_agent(AgentKind::Constructor),
    {
        Agent::of_kind(AgentKind::Constructor)
    }

    /// A fresh Duplicator.
    pub fn duplicator() -> (a: Agent)
        ensures
            a@ == fresh_agent(AgentKind::Duplicator),
    {
        Agent::of_kind(AgentKind::Duplicator)
    }

    /// A fresh Eraser.
    pub fn eraser() -> (a: Agent)
        ensures
            a@ == fresh_agent(AgentKind::Eraser),
    {
        Agent::of_kind(AgentKind::Eraser)
    }
}

/// The arena-backed net. Agents are only ever added, never removed; an
/// agent that a rewrite abandons simply stops being referenced.
pub struct Net {
    agents: Vec<Agent>,
}

impl View for Net {
    type V = Seq<AgentView>;

    closed spec fn view(&self) -> Seq<AgentView> {
        self.agents@.map_values(|a: Agent| a@)
    }
}

impl Net {
    /// An empty net, to be populated by a loader through `add_agent` and
    /// `connect`.
    pub fn new() -> (n: Net)
        ensures
            n@ == Seq::<AgentView>::empty(),
    {
        let n = Net { agents: Vec::new() };
        proof {
            assert(n@ =~= Seq::<AgentView>::empty());
        }
        n
    }

    /// How many agents the arena holds (abandoned ones included).
    pub fn agent_count(&self) -> (n: usize)
        ensures
            n == self@.len(),
    {
        self.agents.len()
    }

    /// Place one more agent in the arena and return its index.
    pub fn add_agent(&mut self, agent: Agent) -> (idx: usize)
        ensures
            final(self)@ == old(self)@.push(agent@),
            idx == old(self)@.len(),
    {
        let idx = self.agents.len();
        self.agents.push(agent);
        proof {
            assert(self@ =~= old(self)@.push(agent@));
        }
        idx
    }

    /// Net Inspector: the kind of the agent at `a`. Read-only.
    pub fn kind(&self, a: usize) -> (k: AgentKind)
        requires
            a < self@.len(),
        ensures
            k == self@[a as int].kind,
    {
        self.agents[a].kind
    }

    /// Net Inspector: the port currently connected to `p`, or `None` when
    /// `p` is free. Read-only, never fails.
    pub fn port_peer(&self, p: Port) -> (r: Option<Port>)
        requires
            port_valid(self@, p),
        ensures
            r == peer_of(self@, p),
    {
        let a = &self.agents[p.agent];
        if p.index == 0 {
            a.slot0
        } else if p.index == 1 {
            a.slot1
        } else {
            a.slot2
        }
    }

    /// Overwrite one slot. Internal: `connect` is the only mutation the
    /// graph exposes.
    fn write_slot(&mut self, p: Port, v: Option<Port>)
        requires
            port_valid(old(self)@, p),
        ensures
            final(self)@ == write_slot_spec(old(self)@, Some(p), v),
    {
        let a = &mut self.agents[p.agent];
        if p.index == 0 {
            a.slot0 = v;
        } else if p.index == 1 {
            a.slot1 = v;
        } else {
            a.slot2 = v;
        }
        proof {
            assert(self@ =~~= write_slot_spec(old(self)@, Some(p), v));
        }
    }

    /// Rewire so `lhs` and `rhs` reference each other, overwriting whatever
    /// each previously referenced. Either side may be `None`, in which case
    /// only the other slot is written. No side effects beyond the two slots
    /// touched; never fails.
    ///
    /// The old far end of an overwritten slot is left dangling unless the
    /// caller also rewires it: symmetry is the caller's responsibility
    /// here, and [`crate::laws::lemma_connect_preserves_symmetry`] says
    /// exactly when it is kept.
    pub fn connect(&mut self, lhs: Option<Port>, rhs: Option<Port>)
        requires
            opt_port_valid(old(self)@, lhs),
            opt_port_valid(old(self)@, rhs),
        ensures
            final(self)@ == crate::model::connect_step(old(self)@, lhs, rhs),
            net_wf(old(self)@) ==> net_wf(final(self)@),
    {
        proof {
            if net_wf(old(self)@) {
                crate::model::lemma_connect_step(old(self)@, lhs, rhs);
            }
        }
        if let Some(l) = lhs {
            self.write_slot(l, rhs);
        }
        if let Some(r) = rhs {
            self.write_slot(r, lhs);
        }
    }
}

} // verus!
