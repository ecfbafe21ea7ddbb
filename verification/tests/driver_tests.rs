use interaction_net::driver::{list_nodes, reduce_global};
use interaction_net::model::{AgentKind, Port};
use interaction_net::net::{Agent, Net};
use interaction_net::rules::reduce_local;

fn port(agent: usize, index: usize) -> Port {
    Port { agent, index }
}

#[test]
fn list_nodes_finds_every_reachable_agent() {
    let mut net = Net::new();
    let eraser = net.add_agent(Agent::eraser());
    let root = net.add_agent(Agent::constructor());
    let body = net.add_agent(Agent::constructor());
    let stray = net.add_agent(Agent::duplicator());
    net.connect(Some(port(root, 1)), Some(port(eraser, 0)));
    net.connect(Some(port(root, 2)), Some(port(body, 0)));
    net.connect(Some(port(body, 1)), Some(port(body, 2)));
    let mut nodes = vec![root];
    list_nodes(&net, &mut nodes);
    assert_eq!(nodes.len(), 3);
    assert!(nodes.contains(&root));
    assert!(nodes.contains(&eraser));
    assert!(nodes.contains(&body));
    assert!(!nodes.contains(&stray));
}

#[test]
fn reduce_net_without_redexes_changes_nothing() {
    let mut net = Net::new();
    let eraser = net.add_agent(Agent::eraser());
    let root = net.add_agent(Agent::constructor());
    let body = net.add_agent(Agent::constructor());
    net.connect(Some(port(root, 1)), Some(port(eraser, 0)));
    net.connect(Some(port(root, 2)), Some(port(body, 0)));
    net.connect(Some(port(body, 1)), Some(port(body, 2)));
    reduce_global(&mut net, root);
    assert_eq!(net.agent_count(), 3);
    assert_eq!(net.port_peer(port(root, 0)), None);
    assert_eq!(net.port_peer(port(root, 1)), Some(port(eraser, 0)));
    assert_eq!(net.port_peer(port(root, 2)), Some(port(body, 0)));
    assert_eq!(net.port_peer(port(eraser, 0)), Some(port(root, 1)));
    assert_eq!(net.port_peer(port(body, 0)), Some(port(root, 2)));
    assert_eq!(net.port_peer(port(body, 1)), Some(port(body, 2)));
    assert_eq!(net.port_peer(port(body, 2)), Some(port(body, 1)));
}

#[test]
fn reduce_net_applies_a_discovered_rule() {
    let mut net = Net::new();
    let lhs = net.add_agent(Agent::constructor());
    let rhs = net.add_agent(Agent::constructor());
    net.connect(Some(port(lhs, 0)), Some(port(rhs, 0)));
    let x = net.add_agent(Agent::constructor());
    let y = net.add_agent(Agent::constructor());
    let z = net.add_agent(Agent::constructor());
    let w = net.add_agent(Agent::constructor());
    net.connect(Some(port(lhs, 1)), Some(port(x, 0)));
    net.connect(Some(port(lhs, 2)), Some(port(y, 0)));
    net.connect(Some(port(rhs, 1)), Some(port(z, 0)));
    net.connect(Some(port(rhs, 2)), Some(port(w, 0)));
    reduce_global(&mut net, lhs);
    assert_eq!(net.agent_count(), 6);
    assert_eq!(net.port_peer(port(x, 0)), Some(port(z, 0)));
    assert_eq!(net.port_peer(port(z, 0)), Some(port(x, 0)));
    assert_eq!(net.port_peer(port(y, 0)), Some(port(w, 0)));
    assert_eq!(net.port_peer(port(w, 0)), Some(port(y, 0)));
}

#[test]
fn reduce_net_survives_a_closed_annihilation() {
    // Both members of the pair pass the snapshot filter, so the rule runs
    // once for each; on this closed net the rewiring is idempotent.
    let mut net = Net::new();
    let a = net.add_agent(Agent::constructor());
    let b = net.add_agent(Agent::constructor());
    net.connect(Some(port(a, 0)), Some(port(b, 0)));
    net.connect(Some(port(a, 1)), Some(port(b, 1)));
    net.connect(Some(port(a, 2)), Some(port(b, 2)));
    reduce_global(&mut net, a);
    assert_eq!(net.agent_count(), 2);
    assert_eq!(net.port_peer(port(a, 1)), Some(port(b, 1)));
    assert_eq!(net.port_peer(port(b, 1)), Some(port(a, 1)));
    assert_eq!(net.port_peer(port(a, 2)), Some(port(b, 2)));
    assert_eq!(net.port_peer(port(b, 2)), Some(port(a, 2)));
}

#[test]
fn duplicate_keeps_every_auxiliary_neighbor_reachable() {
    let mut net = Net::new();
    let lhs = net.add_agent(Agent::constructor());
    let rhs = net.add_agent(Agent::duplicator());
    net.connect(Some(port(lhs, 0)), Some(port(rhs, 0)));
    let mut ext = Vec::new();
    for (agent, index) in [(lhs, 1), (lhs, 2), (rhs, 1), (rhs, 2)] {
        let e = net.add_agent(Agent::constructor());
        net.connect(Some(port(agent, index)), Some(port(e, 0)));
        ext.push(e);
    }
    let mut before = vec![ext[0]];
    list_nodes(&net, &mut before);
    assert_eq!(before.len(), 6);
    reduce_local(&mut net, lhs, rhs);
    // The reachable agent count grows by exactly the two new agents, and
    // every former auxiliary neighbor is still reachable.
    let mut after = vec![ext[0]];
    list_nodes(&net, &mut after);
    assert_eq!(after.len(), 8);
    for e in &ext {
        assert!(after.contains(e));
    }
    assert!(after.contains(&lhs));
    assert!(after.contains(&rhs));
    assert!(after.contains(&6));
    assert!(after.contains(&7));
}

#[test]
fn repeated_passes_reach_a_normal_form() {
    // An eraser against a constructor whose auxiliaries hold another
    // constructor: the first pass erases, later passes find the fresh
    // eraser-against-constructor pairs until nothing is active.
    let mut net = Net::new();
    let e = net.add_agent(Agent::eraser());
    let c = net.add_agent(Agent::constructor());
    let d = net.add_agent(Agent::constructor());
    net.connect(Some(port(e, 0)), Some(port(c, 0)));
    net.connect(Some(port(c, 1)), Some(port(d, 0)));
    net.connect(Some(port(c, 2)), Some(port(d, 1)));
    for _ in 0..4 {
        reduce_global(&mut net, d);
    }
    // The net rooted at d must end with no active pair left except
    // eraser-against-eraser ones, whose rule has an empty effect.
    let mut nodes = vec![d];
    list_nodes(&net, &mut nodes);
    for a in nodes {
        if let Some(p) = net.port_peer(port(a, 0)) {
            if p.index == 0 && p.agent != a {
                if let Some(back) = net.port_peer(port(p.agent, 0)) {
                    if back.agent == a && back.index == 0 {
                        assert_eq!(net.kind(a), AgentKind::Eraser);
                        assert_eq!(net.kind(p.agent), AgentKind::Eraser);
                    }
                }
            }
        }
    }
    assert_eq!(net.kind(net.agent_count() - 1), AgentKind::Eraser);
}

#[test]
fn list_nodes_unions_several_seeds() {
    // Two separate components; seeding the listing with one agent of each
    // lists the union of both reachable sets.
    let mut net = Net::new();
    let a = net.add_agent(Agent::constructor());
    let b = net.add_agent(Agent::eraser());
    let c = net.add_agent(Agent::duplicator());
    let d = net.add_agent(Agent::duplicator());
    net.connect(Some(port(a, 1)), Some(port(b, 0)));
    net.connect(Some(port(c, 2)), Some(port(d, 2)));
    let mut nodes = vec![a, c];
    list_nodes(&net, &mut nodes);
    assert_eq!(nodes.len(), 4);
    for e in [a, b, c, d] {
        assert!(nodes.contains(&e));
    }
}
