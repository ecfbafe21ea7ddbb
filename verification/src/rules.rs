//! The local reduction rule engine: the five rewrites on an active pair,
//! each specified exactly as a composition of `connect_step`s, and the
//! dispatcher `reduce_local`.

use vstd::prelude::*;

use crate::model::{
    connect_step, fresh_agent, lemma_connect_step, lemma_push_fresh, net_wf, AgentKind, AgentView,
    Port,
};
use crate::net::{Agent, Net};

verus! {

/// The port value `(a, i)`.
pub open spec fn some_port(a: int, i: int) -> Option<Port> {
    Some(Port { agent: a as usize, index: i as usize })
}

/// `lhs` and `rhs` are a redex (active pair): two distinct agents whose
/// principal ports mutually reference each other. A principal port that
/// loops back to its own agent is not a redex.
pub open spec fn is_redex(nv: Seq<AgentView>, lhs: int, rhs: int) -> bool {
    &&& lhs != rhs
    &&& 0 <= lhs < nv.len()
    &&& 0 <= rhs < nv.len()
    &&& nv[lhs].ports[0] == some_port(rhs, 0)
    &&& nv[rhs].ports[0] == some_port(lhs, 0)
}

/// Annihilate (Constructor against Constructor): the two agents drop out
/// and their auxiliary peers are joined straight across, port 1 side to
/// port 1 side and port 2 side to port 2 side.
pub open spec fn annihilate_spec(nv: Seq<AgentView>, lhs: int, rhs: int) -> Seq<AgentView> {
    connect_step(connect_step(nv, nv[lhs].ports[1], nv[rhs].ports[1]), nv[lhs].ports[2], nv[rhs].ports[2])
}

/// Swap (Duplicator against Duplicator): as Annihilate, but the auxiliary
/// pairing is crossed: the port 1 side joins the port 2 side.
pub open spec fn swap_spec(nv: Seq<AgentView>, lhs: int, rhs: int) -> Seq<AgentView> {
    connect_step(connect_step(nv, nv[lhs].ports[1], nv[rhs].ports[2]), nv[lhs].ports[2], nv[rhs].ports[1])
}

/// Erase (Eraser against Constructor or Duplicator): one more Eraser is
/// allocated; the erased agent's two auxiliary peers are each handed an
/// eraser principal, the new one on the port 1 side, the original on the
/// port 2 side. The erased agent keeps its stale slots and is abandoned.
pub open spec fn erase_spec(nv: Seq<AgentView>, eraser: int, erased: int) -> Seq<AgentView> {
    let fresh = nv.len() as int;
    let nv1 = nv.push(fresh_agent(AgentKind::Eraser));
    let nv2 = connect_step(nv1, some_port(fresh, 0), nv1[erased].ports[1]);
    connect_step(nv2, some_port(eraser, 0), nv2[erased].ports[2])
}

/// Duplicate (Constructor against Duplicator, either order): two agents
/// are allocated, one of each original's kind, making a 2-by-2 grid in
/// which each former auxiliary peer of one original now faces the
/// principal of an agent of the other original's kind, and the eight
/// auxiliary ports of the grid are cross-connected. The two originals are
/// repurposed in place as two corners of the grid.
pub open spec fn duplicate_spec(nv: Seq<AgentView>, lhs: int, rhs: int) -> Seq<AgentView> {
    let ca = nv.len() as int;
    let cb = nv.len() as int + 1;
    let x = nv[lhs].ports[1];
    let y = nv[lhs].ports[2];
    let z = nv[rhs].ports[1];
    let w = nv[rhs].ports[2];
    let nv0 = nv.push(fresh_agent(nv[lhs].kind)).push(fresh_agent(nv[rhs].kind));
    let nv1 = connect_step(nv0, x, some_port(rhs, 0));
    let nv2 = connect_step(nv1, y, some_port(cb, 0));
    let nv3 = connect_step(nv2, z, some_port(lhs, 0));
    let nv4 = connect_step(nv3, w, some_port(ca, 0));
    let nv5 = connect_step(nv4, some_port(rhs, 1), some_port(lhs, 1));
    let nv6 = connect_step(nv5, some_port(rhs, 2), some_port(ca, 1));
    let nv7 = connect_step(nv6, some_port(cb, 1), some_port(lhs, 2));
    connect_step(nv7, some_port(cb, 2), some_port(ca, 2))
}

/// What one `reduce_local(lhs, rhs)` call leaves behind, by the unordered
/// pair of kinds: Annihilate, Swap, Duplicate (either order, `lhs` side
/// first), Erase (the eraser side first), or the Eraser-Eraser no-op.
pub open spec fn local_step_spec(nv: Seq<AgentView>, lhs: int, rhs: int) -> Seq<AgentView> {
    match (nv[lhs].kind, nv[rhs].kind) {
        (AgentKind::Constructor, AgentKind::Constructor) => annihilate_spec(nv, lhs, rhs),
        (AgentKind::Duplicator, AgentKind::Duplicator) => swap_spec(nv, lhs, rhs),
        (AgentKind::Constructor, AgentKind::Duplicator) => duplicate_spec(nv, lhs, rhs),
        (AgentKind::Duplicator, AgentKind::Constructor) => duplicate_spec(nv, lhs, rhs),
        (AgentKind::Eraser, AgentKind::Constructor) => erase_spec(nv, lhs, rhs),
        (AgentKind::Eraser, AgentKind::Duplicator) => erase_spec(nv, lhs, rhs),
        (AgentKind::Constructor, AgentKind::Eraser) => erase_spec(nv, rhs, lhs),
        (AgentKind::Duplicator, AgentKind::Eraser) => erase_spec(nv, rhs, lhs),
        (AgentKind::Eraser, AgentKind::Eraser) => nv,
    }
}

/// Join the two auxiliary peers of `lhs` and `rhs` straight across.
pub fn annihilate(net: &mut Net, lhs: usize, rhs: usize)
    requires
        net_wf(old(net)@),
        lhs < old(net)@.len(),
        rhs < old(net)@.len(),
    ensures
        final(net)@ == annihilate_spec(old(net)@, lhs as int, rhs as int),
        net_wf(final(net)@),
        final(net)@.len() == old(net)@.len(),
        forall|a: int|
            0 <= a < old(net)@.len() ==> (#[trigger] final(net)@[a]).kind == old(net)@[a].kind,
{
    let port_a = net.port_peer(Port { agent: lhs, index: 1 });
    let port_b = net.port_peer(Port { agent: lhs, index: 2 });
    let port_c = net.port_peer(Port { agent: rhs, index: 1 });
    let port_d = net.port_peer(Port { agent: rhs, index: 2 });
    proof {
        lemma_connect_step(net@, port_a, port_c);
    }
    net.connect(port_a, port_c);
    proof {
        lemma_connect_step(net@, port_b, port_d);
    }
    net.connect(port_b, port_d);
}

/// Join the auxiliary peers of `lhs` and `rhs` crosswise.
pub fn swap(net: &mut Net, lhs: usize, rhs: usize)
    requires
        net_wf(old(net)@),
        lhs < old(net)@.len(),
        rhs < old(net)@.len(),
    ensures
        final(net)@ == swap_spec(old(net)@, lhs as int, rhs as int),
        net_wf(final(net)@),
        final(net)@.len() == old(net)@.len(),
        forall|a: int|
            0 <= a < old(net)@.len() ==> (#[trigger] final(net)@[a]).kind == old(net)@[a].kind,
{
    let port_a = net.port_peer(Port { agent: lhs, index: 1 });
    let port_b = net.port_peer(Port { agent: lhs, index: 2 });
    let port_c = net.port_peer(Port { agent: rhs, index: 1 });
    let port_d = net.port_peer(Port { agent: rhs, index: 2 });
    proof {
        lemma_connect_step(net@, port_a, port_d);
    }
    net.connect(port_a, port_d);
    proof {
        lemma_connect_step(net@, port_b, port_c);
    }
    net.connect(port_b, port_c);
}

/// Hand each auxiliary peer of `erased` an eraser principal, allocating
/// one extra Eraser.
pub fn erase(net: &mut Net, eraser: usize, erased: usize)
    requires
        net_wf(old(net)@),
        eraser < old(net)@.len(),
        erased < old(net)@.len(),
    ensures
        final(net)@ == erase_spec(old(net)@, eraser as int, erased as int),
        net_wf(final(net)@),
        final(net)@.len() == old(net)@.len() + 1,
        final(net)@[old(net)@.len() as int].kind == AgentKind::Eraser,
        forall|a: int|
            0 <= a < old(net)@.len() ==> (#[trigger] final(net)@[a]).kind == old(net)@[a].kind,
{
    proof {
        lemma_push_fresh(old(net)@, AgentKind::Eraser);
    }
    let fresh = net.add_agent(Agent::eraser());
    let port1 = net.port_peer(Port { agent: erased, index: 1 });
    proof {
        lemma_connect_step(net@, some_port(fresh as int, 0), port1);
    }
    net.connect(Some(Port { agent: fresh, index: 0 }), port1);
    let port2 = net.port_peer(Port { agent: erased, index: 2 });
    proof {
        lemma_connect_step(net@, some_port(eraser as int, 0), port2);
    }
    net.connect(Some(Port { agent: eraser, index: 0 }), port2);
}

/// Build the 2-by-2 grid: allocate one clone of each original's kind and
/// rewire the four former auxiliary peers and the eight grid auxiliaries.
pub fn duplicate(net: &mut Net, lhs: usize, rhs: usize)
    requires
        net_wf(old(net)@),
        lhs < old(net)@.len(),
        rhs < old(net)@.len(),
    ensures
        final(net)@ == duplicate_spec(old(net)@, lhs as int, rhs as int),
        net_wf(final(net)@),
        final(net)@.len() == old(net)@.len() + 2,
        final(net)@[old(net)@.len() as int].kind == old(net)@[lhs as int].kind,
        final(net)@[old(net)@.len() as int + 1].kind == old(net)@[rhs as int].kind,
        forall|a: int|
            0 <= a < old(net)@.len() ==> (#[trigger] final(net)@[a]).kind == old(net)@[a].kind,
{
    let x = net.port_peer(Port { agent: lhs, index: 1 });
    let y = net.port_peer(Port { agent: lhs, index: 2 });
    let z = net.port_peer(Port { agent: rhs, index: 1 });
    let w = net.port_peer(Port { agent: rhs, index: 2 });
    let kind_a = net.kind(lhs);
    let kind_b = net.kind(rhs);
    proof {
        lemma_push_fresh(old(net)@, kind_a);
        lemma_push_fresh(old(net)@.push(fresh_agent(kind_a)), kind_b);
    }
    let ca = net.add_agent(Agent::of_kind(kind_a));
    let cb = net.add_agent(Agent::of_kind(kind_b));
    proof {
        lemma_connect_step(net@, x, some_port(rhs as int, 0));
    }
    net.connect(x, Some(Port { agent: rhs, index: 0 }));
    proof {
        lemma_connect_step(net@, y, some_port(cb as int, 0));
    }
    net.connect(y, Some(Port { agent: cb, index: 0 }));
    proof {
        lemma_connect_step(net@, z, some_port(lhs as int, 0));
    }
    net.connect(z, Some(Port { agent: lhs, index: 0 }));
    proof {
        lemma_connect_step(net@, w, some_port(ca as int, 0));
    }
    net.connect(w, Some(Port { agent: ca, index: 0 }));
    proof {
        lemma_connect_step(net@, some_port(rhs as int, 1), some_port(lhs as int, 1));
    }
    net.connect(Some(Port { agent: rhs, index: 1 }), Some(Port { agent: lhs, index: 1 }));
    proof {
        lemma_connect_step(net@, some_port(rhs as int, 2), some_port(ca as int, 1));
    }
    net.connect(Some(Port { agent: rhs, index: 2 }), Some(Port { agent: ca, index: 1 }));
    proof {
        lemma_connect_step(net@, some_port(cb as int, 1), some_port(lhs as int, 2));
    }
    net.connect(Some(Port { agent: cb, index: 1 }), Some(Port { agent: lhs, index: 2 }));
    proof {
        lemma_connect_step(net@, some_port(cb as int, 2), some_port(ca as int, 2));
    }
    net.connect(Some(Port { agent: cb, index: 2 }), Some(Port { agent: ca, index: 2 }));
}

/// Dispatch on the unordered pair of kinds and apply the matching rule.
///
/// The two agents must currently form a mutual principal-to-principal
/// pair; handing in anything else is a contract violation, which this
/// library rules out by precondition rather than by a runtime abort.
pub fn reduce_local(net: &mut Net, lhs: usize, rhs: usize)
    requires
        net_wf(old(net)@),
        is_redex(old(net)@, lhs as int, rhs as int),
    ensures
        net_wf(final(net)@),
        final(net)@ == local_step_spec(old(net)@, lhs as int, rhs as int),
        old(net)@.len() <= final(net)@.len() <= old(net)@.len() + 2,
        forall|a: int|
            0 <= a < old(net)@.len() ==> (#[trigger] final(net)@[a]).kind == old(net)@[a].kind,
        (old(net)@[lhs as int].kind == AgentKind::Constructor && old(net)@[rhs as int].kind
            == AgentKind::Constructor) ==> final(net)@ == annihilate_spec(old(net)@, lhs as int, rhs as int),
        (old(net)@[lhs as int].kind == AgentKind::Duplicator && old(net)@[rhs as int].kind
            == AgentKind::Duplicator) ==> final(net)@ == swap_spec(old(net)@, lhs as int, rhs as int),
        (old(net)@[lhs as int].kind == AgentKind::Constructor && old(net)@[rhs as int].kind
            == AgentKind::Duplicator) || (old(net)@[lhs as int].kind == AgentKind::Duplicator
            && old(net)@[rhs as int].kind == AgentKind::Constructor) ==> final(net)@ == duplicate_spec(
            old(net)@,
            lhs as int,
            rhs as int,
        ),
        (old(net)@[lhs as int].kind == AgentKind::Eraser && old(net)@[rhs as int].kind
            != AgentKind::Eraser) ==> final(net)@ == erase_spec(old(net)@, lhs as int, rhs as int),
        (old(net)@[lhs as int].kind != AgentKind::Eraser && old(net)@[rhs as int].kind
            == AgentKind::Eraser) ==> final(net)@ == erase_spec(old(net)@, rhs as int, lhs as int),
        (old(net)@[lhs as int].kind == AgentKind::Eraser && old(net)@[rhs as int].kind
            == AgentKind::Eraser) ==> final(net)@ == old(net)@,
{
    let kind_l = net.kind(lhs);
    let kind_r = net.kind(rhs);
    match (kind_l, kind_r) {
        (AgentKind::Constructor, AgentKind::Constructor) => {
            annihilate(net, lhs, rhs);
        },
        (AgentKind::Duplicator, AgentKind::Duplicator) => {
            swap(net, lhs, rhs);
        },
        (AgentKind::Constructor, AgentKind::Duplicator)
        | (AgentKind::Duplicator, AgentKind::Constructor) => {
            duplicate(net, lhs, rhs);
        },
        (AgentKind::Eraser, AgentKind::Constructor) | (AgentKind::Eraser, AgentKind::Duplicator) => {
            erase(net, lhs, rhs);
        },
        (AgentKind::Constructor, AgentKind::Eraser) | (AgentKind::Duplicator, AgentKind::Eraser) => {
            erase(net, rhs, lhs);
        },
        (AgentKind::Eraser, AgentKind::Eraser) => {},
    }
}

} // verus!
