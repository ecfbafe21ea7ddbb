//! The mathematical model of a net: agent views, well-formedness, the
//! symmetry predicate, and the one primitive state transformer
//! ([`connect_step`]) that every rewrite is composed of.

use vstd::prelude::*;

verus! {

/// The kind of an agent: the closed set of node sorts the rules dispatch on.
#[derive(Clone, Copy, PartialEq, Eq, Structural, Debug)]
pub enum AgentKind {
    Constructor,
    Duplicator,
    Eraser,
}

/// A port: slot `index` of the agent at arena index `agent`.
/// Index 0 is the principal port; indices 1 and 2 are auxiliary.
#[derive(Clone, Copy, PartialEq, Eq, Structural, Debug)]
pub struct Port {
    pub agent: usize,
    pub index: usize,
}

/// The model of one agent: its kind and the contents of its three port
/// slots. A slot holds the port it is connected to, or `None` when free.
#[verifier::ext_equal]
pub ghost struct AgentView {
    pub kind: AgentKind,
    pub ports: Seq<Option<Port>>,
}

/// A freshly allocated agent: all three ports free.
pub open spec fn fresh_agent(kind: AgentKind) -> AgentView {
    AgentView { kind: kind, ports: seq![None, None, None] }
}

/// `p` names an existing slot of `nv`.
pub open spec fn port_valid(nv: Seq<AgentView>, p: Port) -> bool {
    p.agent < nv.len() && p.index < 3
}

/// A possibly-free port value only names existing slots.
pub open spec fn opt_port_valid(nv: Seq<AgentView>, p: Option<Port>) -> bool {
    p matches Some(q) ==> port_valid(nv, q)
}

/// The port currently connected to `p`, or `None` when `p` is free.
pub open spec fn peer_of(nv: Seq<AgentView>, p: Port) -> Option<Port> {
    nv[p.agent as int].ports[p.index as int]
}

/// Every agent has exactly three slots and every stored port names an
/// existing slot.
pub open spec fn agent_wf(nv: Seq<AgentView>, av: AgentView) -> bool {
    &&& av.ports.len() == 3
    &&& forall|i: int| 0 <= i < 3 ==> opt_port_valid(nv, #[trigger] av.ports[i])
}

/// Well-formedness of the whole arena.
pub open spec fn net_wf(nv: Seq<AgentView>) -> bool {
    forall|a: int| 0 <= a < nv.len() ==> agent_wf(nv, #[trigger] nv[a])
}

/// Connections are mutual back-references: if a slot holds `p`, then the
/// slot `p` holds the first slot in return.
pub open spec fn symmetric(nv: Seq<AgentView>) -> bool {
    forall|a: int, i: int|
        0 <= a < nv.len() && 0 <= i < 3 ==> ((#[trigger] nv[a].ports[i]) matches Some(p)
            ==> port_valid(nv, p) && nv[p.agent as int].ports[p.index as int] == Some(
            Port { agent: a as usize, index: i as usize },
        ))
}

/// Symmetry of the net that survives a rewrite: every agent other than
/// the two abandoned ones holds only mutual connections, none of which
/// reference an abandoned agent. (Abandoned agents keep stale slots, but
/// nothing that survives points at them, so they drop out of every
/// reachable net.)
pub open spec fn symmetric_excluding(nv: Seq<AgentView>, ex1: int, ex2: int) -> bool {
    forall|a: int, i: int|
        0 <= a < nv.len() && 0 <= i < 3 && a != ex1 && a != ex2 ==> ((#[trigger] nv[a].ports[i])
            matches Some(p) ==> port_valid(nv, p) && p.agent as int != ex1 && p.agent as int != ex2
            && nv[p.agent as int].ports[p.index as int] == Some(
            Port { agent: a as usize, index: i as usize },
        ))
}

/// `p` is exactly the slot `(a, i)`.
pub open spec fn is_slot(p: Option<Port>, a: int, i: int) -> bool {
    p matches Some(q) && q.agent as int == a && q.index as int == i
}

/// Overwrite the slot `at` (when it is a real port) with the value `v`;
/// every other slot is untouched.
pub open spec fn write_slot_spec(
    nv: Seq<AgentView>,
    at: Option<Port>,
    v: Option<Port>,
) -> Seq<AgentView> {
    match at {
        None => nv,
        Some(p) => nv.update(
            p.agent as int,
            AgentView {
                kind: nv[p.agent as int].kind,
                ports: nv[p.agent as int].ports.update(p.index as int, v),
            },
        ),
    }
}

/// One `connect(lhs, rhs)` call: the `lhs` slot is written with `rhs`,
/// then the `rhs` slot is written with `lhs`. Whatever the two slots held
/// before is overwritten; no other slot changes.
pub open spec fn connect_step(
    nv: Seq<AgentView>,
    lhs: Option<Port>,
    rhs: Option<Port>,
) -> Seq<AgentView> {
    write_slot_spec(write_slot_spec(nv, lhs, rhs), rhs, lhs)
}

/// Pointwise reading of `connect_step`: the `rhs` slot now holds `lhs`,
/// the `lhs` slot (when distinct) now holds `rhs`, and every other slot is
/// unchanged. Lengths, kinds, and well-formedness are all preserved.
pub proof fn lemma_connect_step(nv: Seq<AgentView>, lhs: Option<Port>, rhs: Option<Port>)
    requires
        net_wf(nv),
        opt_port_valid(nv, lhs),
        opt_port_valid(nv, rhs),
    ensures
        connect_step(nv, lhs, rhs).len() == nv.len(),
        forall|a: int|
            0 <= a < nv.len() ==> (#[trigger] connect_step(nv, lhs, rhs)[a]).kind == nv[a].kind
                && connect_step(nv, lhs, rhs)[a].ports.len() == nv[a].ports.len(),
        forall|a: int, i: int|
            0 <= a < nv.len() && 0 <= i < nv[a].ports.len()
                ==> #[trigger] connect_step(nv, lhs, rhs)[a].ports[i] == (if is_slot(rhs, a, i) {
                lhs
            } else if is_slot(lhs, a, i) {
                rhs
            } else {
                nv[a].ports[i]
            }),
        net_wf(connect_step(nv, lhs, rhs)),
{
    let nv1 = write_slot_spec(nv, lhs, rhs);
    let nv2 = write_slot_spec(nv1, rhs, lhs);
    assert forall|a: int| 0 <= a < nv.len() implies nv1[a].kind == nv[a].kind && nv1[a].ports.len()
        == nv[a].ports.len() by {
        match lhs {
            Some(l) => {
                assert(agent_wf(nv, nv[l.agent as int]));
            },
            None => {},
        }
    }
    assert forall|a: int| 0 <= a < nv.len() implies nv2[a].kind == nv[a].kind && nv2[a].ports.len()
        == nv[a].ports.len() by {
        match rhs {
            Some(r) => {
                assert(agent_wf(nv, nv[r.agent as int]));
            },
            None => {},
        }
    }
    assert forall|a: int, i: int| 0 <= a < nv.len() && 0 <= i < nv[a].ports.len()
        implies #[trigger] nv2[a].ports[i] == (if is_slot(rhs, a, i) {
            lhs
        } else if is_slot(lhs, a, i) {
            rhs
        } else {
            nv[a].ports[i]
        }) by {
        match lhs {
            Some(l) => {
                assert(agent_wf(nv, nv[l.agent as int]));
            },
            None => {},
        }
        match rhs {
            Some(r) => {
                assert(agent_wf(nv, nv[r.agent as int]));
            },
            None => {},
        }
    }
    assert forall|a: int| 0 <= a < nv2.len() implies agent_wf(nv2, #[trigger] nv2[a]) by {
        assert(agent_wf(nv, nv[a]));
        assert forall|i: int| 0 <= i < 3 implies opt_port_valid(nv2, #[trigger] nv2[a].ports[i]) by {
            assert(opt_port_valid(nv, nv[a].ports[i]));
            assert(opt_port_valid(nv, lhs));
            assert(opt_port_valid(nv, rhs));
        }
    }
}

/// Appending a fresh agent preserves well-formedness and every old slot.
pub proof fn lemma_push_fresh(nv: Seq<AgentView>, kind: AgentKind)
    requires
        net_wf(nv),
    ensures
        net_wf(nv.push(fresh_agent(kind))),
        nv.push(fresh_agent(kind)).len() == nv.len() + 1,
        forall|a: int| 0 <= a < nv.len() ==> #[trigger] nv.push(fresh_agent(kind))[a] == nv[a],
{
    let nv1 = nv.push(fresh_agent(kind));
    assert forall|a: int| 0 <= a < nv1.len() implies agent_wf(nv1, #[trigger] nv1[a]) by {
        if a < nv.len() {
            assert(agent_wf(nv, nv[a]));
            assert forall|i: int| 0 <= i < 3 implies opt_port_valid(nv1, #[trigger] nv1[a].ports[i])
                by {
                assert(opt_port_valid(nv, nv[a].ports[i]));
            }
        } else {
            assert(nv1[a] == fresh_agent(kind));
        }
    }
}

} // verus!
