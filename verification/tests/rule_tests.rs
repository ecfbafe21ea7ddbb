use interaction_net::model::{AgentKind, Port};
use interaction_net::net::{Agent, Net};
use interaction_net::rules::reduce_local;

fn port(agent: usize, index: usize) -> Port {
    Port { agent, index }
}

/// A redex of the two given kinds, each side with two auxiliary peers on
/// fresh Constructor agents (attached by their principal ports).
/// Returns (net, lhs, rhs, [x_agent, y_agent, z_agent, w_agent]).
fn redex_with_peers(lk: AgentKind, rk: AgentKind) -> (Net, usize, usize, [usize; 4]) {
    let mut net = Net::new();
    let lhs = net.add_agent(Agent::of_kind(lk));
    let rhs = net.add_agent(Agent::of_kind(rk));
    net.connect(Some(port(lhs, 0)), Some(port(rhs, 0)));
    let mut ext = [0usize; 4];
    for (k, (agent, index)) in [(lhs, 1), (lhs, 2), (rhs, 1), (rhs, 2)].into_iter().enumerate() {
        let e = net.add_agent(Agent::constructor());
        net.connect(Some(port(agent, index)), Some(port(e, 0)));
        ext[k] = e;
    }
    (net, lhs, rhs, ext)
}

#[test]
fn annihilate_joins_peers_straight() {
    let (mut net, lhs, rhs, [x, y, z, w]) = redex_with_peers(
        AgentKind::Constructor,
        AgentKind::Constructor,
    );
    reduce_local(&mut net, lhs, rhs);
    assert_eq!(net.agent_count(), 6);
    assert_eq!(net.port_peer(port(x, 0)), Some(port(z, 0)));
    assert_eq!(net.port_peer(port(z, 0)), Some(port(x, 0)));
    assert_eq!(net.port_peer(port(y, 0)), Some(port(w, 0)));
    assert_eq!(net.port_peer(port(w, 0)), Some(port(y, 0)));
    // The two vanished agents appear in no port of the four peers.
    for e in [x, y, z, w] {
        for i in 0..3 {
            if let Some(p) = net.port_peer(port(e, i)) {
                assert_ne!(p.agent, lhs);
                assert_ne!(p.agent, rhs);
            }
        }
    }
}

#[test]
fn swap_joins_peers_crossed() {
    let (mut net, lhs, rhs, [x, y, z, w]) = redex_with_peers(
        AgentKind::Duplicator,
        AgentKind::Duplicator,
    );
    reduce_local(&mut net, lhs, rhs);
    assert_eq!(net.agent_count(), 6);
    assert_eq!(net.port_peer(port(x, 0)), Some(port(w, 0)));
    assert_eq!(net.port_peer(port(w, 0)), Some(port(x, 0)));
    assert_eq!(net.port_peer(port(y, 0)), Some(port(z, 0)));
    assert_eq!(net.port_peer(port(z, 0)), Some(port(y, 0)));
    for e in [x, y, z, w] {
        for i in 0..3 {
            if let Some(p) = net.port_peer(port(e, i)) {
                assert_ne!(p.agent, lhs);
                assert_ne!(p.agent, rhs);
            }
        }
    }
}

#[test]
fn erase_with_free_auxiliaries_allocates_one_eraser() {
    let mut net = Net::new();
    let e = net.add_agent(Agent::eraser());
    let c = net.add_agent(Agent::constructor());
    net.connect(Some(port(e, 0)), Some(port(c, 0)));
    reduce_local(&mut net, e, c);
    assert_eq!(net.agent_count(), 3);
    let fresh = 2;
    assert_eq!(net.kind(fresh), AgentKind::Eraser);
    // With both auxiliary peers free, both eraser principals end up free.
    assert_eq!(net.port_peer(port(fresh, 0)), None);
    assert_eq!(net.port_peer(port(e, 0)), None);
}

#[test]
fn erase_hands_each_peer_an_eraser() {
    let mut net = Net::new();
    let e = net.add_agent(Agent::eraser());
    let c = net.add_agent(Agent::duplicator());
    net.connect(Some(port(e, 0)), Some(port(c, 0)));
    let p = net.add_agent(Agent::constructor());
    let q = net.add_agent(Agent::constructor());
    net.connect(Some(port(c, 1)), Some(port(p, 0)));
    net.connect(Some(port(c, 2)), Some(port(q, 0)));
    reduce_local(&mut net, e, c);
    assert_eq!(net.agent_count(), 5);
    let fresh = 4;
    assert_eq!(net.kind(fresh), AgentKind::Eraser);
    assert_eq!(net.port_peer(port(p, 0)), Some(port(fresh, 0)));
    assert_eq!(net.port_peer(port(fresh, 0)), Some(port(p, 0)));
    assert_eq!(net.port_peer(port(q, 0)), Some(port(e, 0)));
    assert_eq!(net.port_peer(port(e, 0)), Some(port(q, 0)));
    // Each former auxiliary peer now faces an Eraser kind.
    assert_eq!(net.kind(net.port_peer(port(p, 0)).unwrap().agent), AgentKind::Eraser);
    assert_eq!(net.kind(net.port_peer(port(q, 0)).unwrap().agent), AgentKind::Eraser);
}

#[test]
fn erase_dispatches_in_either_order() {
    let mut net = Net::new();
    let c = net.add_agent(Agent::constructor());
    let e = net.add_agent(Agent::eraser());
    net.connect(Some(port(c, 0)), Some(port(e, 0)));
    // Eraser on the right-hand side: the dispatcher flips the pair.
    reduce_local(&mut net, c, e);
    assert_eq!(net.agent_count(), 3);
    assert_eq!(net.kind(2), AgentKind::Eraser);
}

#[test]
fn eraser_eraser_is_a_no_op() {
    let mut net = Net::new();
    let a = net.add_agent(Agent::eraser());
    let b = net.add_agent(Agent::eraser());
    net.connect(Some(port(a, 0)), Some(port(b, 0)));
    reduce_local(&mut net, a, b);
    assert_eq!(net.agent_count(), 2);
    assert_eq!(net.port_peer(port(a, 0)), Some(port(b, 0)));
    assert_eq!(net.port_peer(port(b, 0)), Some(port(a, 0)));
    for i in 1..3 {
        assert_eq!(net.port_peer(port(a, i)), None);
        assert_eq!(net.port_peer(port(b, i)), None);
    }
}

#[test]
fn duplicate_builds_the_grid() {
    let (mut net, lhs, rhs, [x, y, z, w]) = redex_with_peers(
        AgentKind::Constructor,
        AgentKind::Duplicator,
    );
    reduce_local(&mut net, lhs, rhs);
    // Exactly two more agents, one of each original's kind.
    assert_eq!(net.agent_count(), 8);
    let ca = 6;
    let cb = 7;
    assert_eq!(net.kind(ca), AgentKind::Constructor);
    assert_eq!(net.kind(cb), AgentKind::Duplicator);
    // Each former auxiliary peer faces the principal of an agent of the
    // other original's kind.
    assert_eq!(net.port_peer(port(x, 0)), Some(port(rhs, 0)));
    assert_eq!(net.port_peer(port(rhs, 0)), Some(port(x, 0)));
    assert_eq!(net.port_peer(port(y, 0)), Some(port(cb, 0)));
    assert_eq!(net.port_peer(port(cb, 0)), Some(port(y, 0)));
    assert_eq!(net.port_peer(port(z, 0)), Some(port(lhs, 0)));
    assert_eq!(net.port_peer(port(lhs, 0)), Some(port(z, 0)));
    assert_eq!(net.port_peer(port(w, 0)), Some(port(ca, 0)));
    assert_eq!(net.port_peer(port(ca, 0)), Some(port(w, 0)));
    for e in [x, y, z, w] {
        assert_eq!(
            net.kind(net.port_peer(port(e, 0)).unwrap().agent),
            if e == x || e == y { AgentKind::Duplicator } else { AgentKind::Constructor }
        );
    }
    // The grid's auxiliary ports are cross-connected.
    assert_eq!(net.port_peer(port(rhs, 1)), Some(port(lhs, 1)));
    assert_eq!(net.port_peer(port(lhs, 1)), Some(port(rhs, 1)));
    assert_eq!(net.port_peer(port(rhs, 2)), Some(port(ca, 1)));
    assert_eq!(net.port_peer(port(ca, 1)), Some(port(rhs, 2)));
    assert_eq!(net.port_peer(port(cb, 1)), Some(port(lhs, 2)));
    assert_eq!(net.port_peer(port(lhs, 2)), Some(port(cb, 1)));
    assert_eq!(net.port_peer(port(cb, 2)), Some(port(ca, 2)));
    assert_eq!(net.port_peer(port(ca, 2)), Some(port(cb, 2)));
}

#[test]
fn duplicate_dispatches_with_duplicator_first() {
    let (mut net, lhs, rhs, [x, _y, z, _w]) = redex_with_peers(
        AgentKind::Duplicator,
        AgentKind::Constructor,
    );
    reduce_local(&mut net, lhs, rhs);
    assert_eq!(net.agent_count(), 8);
    // The clones take the kinds of the originals, in order.
    assert_eq!(net.kind(6), AgentKind::Duplicator);
    assert_eq!(net.kind(7), AgentKind::Constructor);
    assert_eq!(net.port_peer(port(x, 0)), Some(port(rhs, 0)));
    assert_eq!(net.port_peer(port(z, 0)), Some(port(lhs, 0)));
}
