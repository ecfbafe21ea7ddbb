use interaction_net::model::{AgentKind, Port};
use interaction_net::net::{Agent, Net};

fn port(agent: usize, index: usize) -> Port {
    Port { agent, index }
}

#[test]
fn zero() {
    let mut net = Net::new();
    let eraser = net.add_agent(Agent::eraser());
    let root = net.add_agent(Agent::constructor());
    let body = net.add_agent(Agent::constructor());

    net.connect(Some(port(root, 1)), Some(port(eraser, 0)));
    net.connect(Some(port(root, 2)), Some(port(body, 0)));
    net.connect(Some(port(body, 1)), Some(port(body, 2)));

    assert_eq!(net.port_peer(port(root, 1)).unwrap().agent, eraser);
    assert_eq!(net.port_peer(port(root, 1)).unwrap().index, 0);
    assert_eq!(net.port_peer(port(eraser, 0)).unwrap().agent, root);
    assert_eq!(net.port_peer(port(eraser, 0)).unwrap().index, 1);

    assert_eq!(net.port_peer(port(root, 2)).unwrap().agent, body);
    assert_eq!(net.port_peer(port(root, 2)).unwrap().index, 0);
    assert_eq!(net.port_peer(port(body, 0)).unwrap().agent, root);
    assert_eq!(net.port_peer(port(body, 0)).unwrap().index, 2);

    assert_eq!(net.port_peer(port(body, 1)).unwrap().agent, body);
    assert_eq!(net.port_peer(port(body, 1)).unwrap().index, 2);
    assert_eq!(net.port_peer(port(body, 2)).unwrap().agent, body);
    assert_eq!(net.port_peer(port(body, 2)).unwrap().index, 1);
}

#[test]
fn inspector_reads_kinds_and_free_ports() {
    let mut net = Net::new();
    let c = net.add_agent(Agent::constructor());
    let d = net.add_agent(Agent::duplicator());
    let e = net.add_agent(Agent::eraser());
    assert_eq!(net.agent_count(), 3);
    assert_eq!(net.kind(c), AgentKind::Constructor);
    assert_eq!(net.kind(d), AgentKind::Duplicator);
    assert_eq!(net.kind(e), AgentKind::Eraser);
    for a in [c, d, e] {
        for i in 0..3 {
            assert_eq!(net.port_peer(port(a, i)), None);
        }
    }
}

#[test]
fn connect_overwrites_both_slots() {
    let mut net = Net::new();
    let a = net.add_agent(Agent::constructor());
    let b = net.add_agent(Agent::constructor());
    let c = net.add_agent(Agent::constructor());
    net.connect(Some(port(a, 0)), Some(port(b, 0)));
    assert_eq!(net.port_peer(port(a, 0)), Some(port(b, 0)));
    assert_eq!(net.port_peer(port(b, 0)), Some(port(a, 0)));
    // Reconnecting one side overwrites it and leaves the far end dangling,
    // exactly as documented: the caller is responsible for the old peer.
    net.connect(Some(port(a, 0)), Some(port(c, 0)));
    assert_eq!(net.port_peer(port(a, 0)), Some(port(c, 0)));
    assert_eq!(net.port_peer(port(c, 0)), Some(port(a, 0)));
    assert_eq!(net.port_peer(port(b, 0)), Some(port(a, 0)));
    // Disconnect one side only.
    net.connect(Some(port(a, 0)), None);
    assert_eq!(net.port_peer(port(a, 0)), None);
}

#[test]
fn connect_self_loop_is_legal() {
    let mut net = Net::new();
    let a = net.add_agent(Agent::duplicator());
    net.connect(Some(port(a, 1)), Some(port(a, 2)));
    assert_eq!(net.port_peer(port(a, 1)), Some(port(a, 2)));
    assert_eq!(net.port_peer(port(a, 2)), Some(port(a, 1)));
}
