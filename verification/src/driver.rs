//! The global reduction driver: discover every agent reachable from a
//! root, pick out the members of active pairs, and hand each to the local
//! rule engine.

use vstd::prelude::*;
use vstd::seq_lib::*;
use vstd::set_lib::*;

use crate::model::{net_wf, AgentView, Port};
use crate::net::Net;
use crate::rules::{is_redex, local_step_spec, reduce_local};

verus! {

/// One hop: some slot of agent `b` holds a port of agent `a`.
pub open spec fn step_to(nv: Seq<AgentView>, b: int, a: int) -> bool {
    exists|i: int|
        {
            &&& 0 <= i < 3
            &&& (#[trigger] nv[b].ports[i]) matches Some(p)
            &&& p.agent as int == a
        }
}

/// Agent `a` is reachable from `root` in exactly `k` hops.
pub open spec fn reach_k(nv: Seq<AgentView>, root: int, a: int, k: nat) -> bool
    decreases k,
{
    if k == 0 {
        a == root
    } else {
        exists|b: int|
            0 <= b < nv.len() && reach_k(nv, root, b, (k - 1) as nat) && #[trigger] step_to(
                nv,
                b,
                a,
            )
    }
}

/// Agent `a` belongs to the net rooted at `root`: it can be reached by
/// following connections through any ports.
pub open spec fn reachable(nv: Seq<AgentView>, root: int, a: int) -> bool {
    exists|k: nat| reach_k(nv, root, a, k)
}

/// A reachable agent's neighbor is reachable.
pub proof fn lemma_reach_step(nv: Seq<AgentView>, root: int, b: int, a: int)
    requires
        0 <= b < nv.len(),
        reachable(nv, root, b),
        step_to(nv, b, a),
    ensures
        reachable(nv, root, a),
{
    let k = choose|k: nat| reach_k(nv, root, b, k);
    assert(reach_k(nv, root, a, k + 1));
}

/// Reaching `b` in some number of hops and then `c` in `k` more reaches `c`.
proof fn lemma_reach_k_trans(nv: Seq<AgentView>, a: int, b: int, c: int, k: nat)
    requires
        reachable(nv, a, b),
        reach_k(nv, b, c, k),
    ensures
        reachable(nv, a, c),
    decreases k,
{
    if k == 0 {
    } else {
        let d = choose|d: int|
            0 <= d < nv.len() && reach_k(nv, b, d, (k - 1) as nat) && #[trigger] step_to(nv, d, c);
        lemma_reach_k_trans(nv, a, b, d, (k - 1) as nat);
        lemma_reach_step(nv, a, d, c);
    }
}

/// Reachability is transitive.
pub proof fn lemma_reach_trans(nv: Seq<AgentView>, a: int, b: int, c: int)
    requires
        reachable(nv, a, b),
        reachable(nv, b, c),
    ensures
        reachable(nv, a, c),
{
    let k = choose|k: nat| reach_k(nv, b, c, k);
    lemma_reach_k_trans(nv, a, b, c, k);
}

/// `a` can be reached from at least one of the agents listed in `roots`.
pub open spec fn reachable_from_any(nv: Seq<AgentView>, roots: Seq<usize>, a: int) -> bool {
    exists|i: int| 0 <= i < roots.len() && reachable(nv, #[trigger] roots[i] as int, a)
}

/// `a` is a member of an active pair: its principal port and that of a
/// distinct agent reference each other.
pub open spec fn in_active_pair(nv: Seq<AgentView>, a: int) -> bool {
    exists|b: int| 0 <= b < nv.len() && #[trigger] is_redex(nv, a, b)
}

/// The listing `s` is closed under following ports: every peer stored in
/// a slot of a listed agent is itself listed.
pub open spec fn closed_under_ports(nv: Seq<AgentView>, s: Seq<usize>) -> bool {
    forall|j: int, i: int|
        0 <= j < s.len() && 0 <= i < 3 ==> ((#[trigger] nv[s[j] as int].ports[i]) matches Some(p)
            ==> s.contains(p.agent))
}

/// A listing that is closed under ports and holds `r` holds everything
/// reachable from `r` in `k` hops.
proof fn lemma_closed_holds_reach_k(nv: Seq<AgentView>, s: Seq<usize>, r: usize, a: int, k: nat)
    requires
        closed_under_ports(nv, s),
        s.contains(r),
        reach_k(nv, r as int, a, k),
        0 <= a < nv.len(),
    ensures
        s.contains(a as usize),
    decreases k,
{
    if k == 0 {
        assert(a as usize == r);
    } else {
        let b = choose|b: int|
            0 <= b < nv.len() && reach_k(nv, r as int, b, (k - 1) as nat) && #[trigger] step_to(
                nv,
                b,
                a,
            );
        lemma_closed_holds_reach_k(nv, s, r, b, (k - 1) as nat);
        let j = choose|j: int| 0 <= j < s.len() && s[j] == b as usize;
        let i = choose|i: int|
            {
                &&& 0 <= i < 3
                &&& (#[trigger] nv[b].ports[i]) matches Some(p)
                &&& p.agent as int == a
            };
        assert(nv[s[j] as int].ports[i] matches Some(p) && p.agent == a as usize);
        assert(s.contains(a as usize));
    }
}

/// Pushing keeps every listed element listed, and lists the new one.
proof fn lemma_push_contains(s: Seq<usize>, x: usize)
    ensures
        forall|y: usize| s.contains(y) ==> #[trigger] s.push(x).contains(y),
        s.push(x).contains(x),
{
    assert forall|y: usize| s.contains(y) implies #[trigger] s.push(x).contains(y) by {
        let j = choose|j: int| 0 <= j < s.len() && s[j] == y;
        assert(s.push(x)[j] == y);
    }
    assert(s.push(x)[s.len() as int] == x);
}

/// A sequence of distinct indices below `n` has at most `n` elements.
proof fn lemma_distinct_bounded(s: Seq<usize>, n: nat)
    requires
        s.no_duplicates(),
        forall|j: int| 0 <= j < s.len() ==> (#[trigger] s[j]) < n,
    ensures
        s.len() <= n,
{
    let m = s.map_values(|u: usize| u as int);
    assert(m.no_duplicates()) by {
        assert forall|i: int, j: int| 0 <= i < j < m.len() implies m[i] != m[j] by {
            assert(s[i] != s[j]);
        }
    }
    m.unique_seq_to_set();
    lemma_int_range(0, n as int);
    assert(m.to_set().subset_of(set_int_range(0, n as int))) by {
        assert forall|x: int| m.to_set().contains(x) implies set_int_range(0, n as int).contains(x)
            by {
            let j = choose|j: int| 0 <= j < m.len() && m[j] == x;
            assert(s[j] < n);
        }
    }
    lemma_len_subset(m.to_set(), set_int_range(0, n as int));
}

/// Is `x` one of the indices already listed?
fn listed(known_nodes: &Vec<usize>, x: usize) -> (r: bool)
    ensures
        r == known_nodes@.contains(x),
{
    let mut j: usize = 0;
    while j < known_nodes.len()
        invariant
            j <= known_nodes@.len(),
            forall|i: int| 0 <= i < j ==> known_nodes@[i] != x,
        decreases known_nodes@.len() - j,
    {
        if known_nodes[j] == x {
            return true;
        }
        j += 1;
    }
    false
}

/// Grow `known_nodes` with every agent reachable from the ones already in
/// it, visiting each agent once and following all three ports.
///
/// Every index that comes out is reachable from one of the indices that
/// went in; the listing stays duplicate-free and in bounds, and what went
/// in stays listed. This module's semantics, deliberately: the listing is
/// closed under ports from *every* seed, so with several seeds it is the
/// union of their reachable sets — seeds do not block one another's
/// exploration. The driver always seeds it with the single root, for
/// which this is exactly the reachable net.
pub fn list_nodes(net: &Net, known_nodes: &mut Vec<usize>)
    requires
        net_wf(net@),
        old(known_nodes)@.no_duplicates(),
        forall|j: int|
            0 <= j < old(known_nodes)@.len() ==> (#[trigger] old(known_nodes)@[j]) < net@.len(),
    ensures
        final(known_nodes)@.no_duplicates(),
        forall|j: int| 0 <= j < final(known_nodes)@.len() ==> (#[trigger] final(known_nodes)@[j]) < net@.len(),
        old(known_nodes)@.is_prefix_of(final(known_nodes)@),
        forall|j: int|
            0 <= j < final(known_nodes)@.len() ==> reachable_from_any(
                net@,
                old(known_nodes)@,
                (#[trigger] final(known_nodes)@[j]) as int,
            ),
        forall|a: int|
            0 <= a < net@.len() && reachable_from_any(net@, old(known_nodes)@, a)
                ==> final(known_nodes)@.contains(a as usize),
{
    let ghost initial = known_nodes@;
    proof {
        assert forall|j: int| 0 <= j < known_nodes@.len() implies reachable_from_any(
            net@,
            initial,
            (#[trigger] known_nodes@[j]) as int,
        ) by {
            assert(reach_k(net@, initial[j] as int, known_nodes@[j] as int, 0));
            assert(reachable(net@, initial[j] as int, known_nodes@[j] as int));
        }
    }
    let mut cursor: usize = 0;
    while cursor < known_nodes.len()
        invariant
            net_wf(net@),
            cursor <= known_nodes@.len(),
            known_nodes@.no_duplicates(),
            forall|j: int| 0 <= j < known_nodes@.len() ==> (#[trigger] known_nodes@[j]) < net@.len(),
            initial.is_prefix_of(known_nodes@),
            forall|j: int|
                0 <= j < known_nodes@.len() ==> reachable_from_any(
                    net@,
                    initial,
                    (#[trigger] known_nodes@[j]) as int,
                ),
            forall|j: int, i: int|
                0 <= j < cursor && 0 <= i < 3 ==> ((#[trigger] net@[known_nodes@[j] as int].ports[i]) matches Some(p) ==> known_nodes@.contains(p.agent)),
        decreases net@.len() - cursor,
    {
        proof {
            lemma_distinct_bounded(known_nodes@, net@.len());
        }
        let node = known_nodes[cursor];
        let mut i: usize = 0;
        while i < 3
            invariant
                net_wf(net@),
                i <= 3,
                node < net@.len(),
                cursor < known_nodes@.len(),
                known_nodes@[cursor as int] == node,
                known_nodes@.no_duplicates(),
                forall|j: int|
                    0 <= j < known_nodes@.len() ==> (#[trigger] known_nodes@[j]) < net@.len(),
                initial.is_prefix_of(known_nodes@),
                forall|j: int|
                    0 <= j < known_nodes@.len() ==> reachable_from_any(
                        net@,
                        initial,
                        (#[trigger] known_nodes@[j]) as int,
                    ),
                forall|j: int, i2: int|
                    0 <= j < cursor && 0 <= i2 < 3 ==> ((#[trigger] net@[known_nodes@[j] as int].ports[i2]) matches Some(p) ==> known_nodes@.contains(p.agent)),
                forall|i2: int|
                    0 <= i2 < i ==> ((#[trigger] net@[node as int].ports[i2]) matches Some(p)
                        ==> known_nodes@.contains(p.agent)),
            decreases 3 - i,
        {
            if let Some(p) = net.port_peer(Port { agent: node, index: i }) {
                if !listed(known_nodes, p.agent) {
                    proof {
                        assert(net@[node as int].ports[i as int] matches Some(q) && q.agent
                            == p.agent);
                        assert(step_to(net@, node as int, p.agent as int));
                        assert(reachable_from_any(net@, initial, node as int));
                        let k = choose|k: int|
                            0 <= k < initial.len() && reachable(
                                net@,
                                #[trigger] initial[k] as int,
                                node as int,
                            );
                        lemma_reach_step(net@, initial[k] as int, node as int, p.agent as int);
                        assert(reachable_from_any(net@, initial, p.agent as int));
                        lemma_push_contains(known_nodes@, p.agent);
                    }
                    known_nodes.push(p.agent);
                }
            }
            i += 1;
        }
        cursor += 1;
    }
    proof {
        assert(closed_under_ports(net@, known_nodes@));
        assert forall|a: int|
            0 <= a < net@.len() && reachable_from_any(net@, initial, a) implies known_nodes@
            .contains(a as usize) by {
            let r = choose|r: int|
                0 <= r < initial.len() && reachable(net@, #[trigger] initial[r] as int, a);
            let k = choose|k: nat| reach_k(net@, initial[r] as int, a, k);
            assert(known_nodes@[r] == initial[r]);
            assert(known_nodes@.contains(initial[r]));
            lemma_closed_holds_reach_k(net@, known_nodes@, initial[r], a, k);
        }
    }
}

/// One turn of the sweep at candidate `a`: if `a` and its principal peer
/// form an active pair in the state the sweep has reached, the matching
/// rule is applied to them; otherwise the state passes through unchanged.
pub open spec fn sweep_step(nv: Seq<AgentView>, a: int) -> Seq<AgentView> {
    match nv[a].ports[0] {
        Some(p) => if is_redex(nv, a, p.agent as int) {
            local_step_spec(nv, a, p.agent as int)
        } else {
            nv
        },
        None => nv,
    }
}

/// The whole sweep: take each candidate in order and give it its turn.
pub open spec fn sweep_spec(nv: Seq<AgentView>, candidates: Seq<usize>) -> Seq<AgentView>
    decreases candidates.len(),
{
    if candidates.len() == 0 {
        nv
    } else {
        sweep_spec(sweep_step(nv, candidates[0] as int), candidates.skip(1))
    }
}

/// One global reduction pass: list every agent reachable from `root`,
/// then give each listed agent one turn, applying the matching rule
/// whenever it and its principal neighbor still form an active pair at
/// that turn.
///
/// The contract pins the result as `sweep_spec` over a candidate list
/// that provably holds every member of every active pair in the original
/// reachable snapshot: each such pair gets its turn, so every redex of the
/// snapshot is reduced at least once unless an earlier turn of the same
/// pass already deactivated it. Pairs created mid-pass are left for a
/// later call, so reaching a normal form in general takes repeated calls.
pub fn reduce_global(net: &mut Net, root: usize)
    requires
        net_wf(old(net)@),
        root < old(net)@.len(),
    ensures
        net_wf(final(net)@),
        final(net)@.len() >= old(net)@.len(),
        forall|a: int|
            0 <= a < old(net)@.len() ==> (#[trigger] final(net)@[a]).kind == old(net)@[a].kind,
        exists|candidates: Seq<usize>|
            {
                &&& candidates.no_duplicates()
                &&& forall|j: int|
                    0 <= j < candidates.len() ==> (#[trigger] candidates[j]) < old(net)@.len()
                        && reachable(old(net)@, root as int, candidates[j] as int)
                &&& forall|a: int|
                    0 <= a < old(net)@.len() && reachable(old(net)@, root as int, a)
                        && in_active_pair(old(net)@, a) ==> #[trigger] candidates.contains(
                        a as usize,
                    )
                &&& final(net)@ == sweep_spec(old(net)@, candidates)
            },
        (forall|a: int|
            0 <= a < old(net)@.len() && reachable(old(net)@, root as int, a) ==> !in_active_pair(
                old(net)@,
                a,
            )) ==> final(net)@ == old(net)@,
{
    let ghost nv0 = net@;
    let mut nodes: Vec<usize> = Vec::new();
    nodes.push(root);
    let ghost pre = nodes@;
    proof {
        assert(reach_k(net@, root as int, root as int, 0));
        assert(pre =~= seq![root]);
    }
    list_nodes(net, &mut nodes);
    let ghost cands = nodes@;
    proof {
        assert forall|j: int| 0 <= j < nodes@.len() implies reachable(
            nv0,
            root as int,
            (#[trigger] nodes@[j]) as int,
        ) by {
            assert(reachable_from_any(nv0, pre, nodes@[j] as int));
            let i = choose|i: int|
                0 <= i < pre.len() && reachable(nv0, #[trigger] pre[i] as int, nodes@[j] as int);
            assert(pre[i] == root);
        }
        assert forall|a: int| 0 <= a < nv0.len() && reachable(nv0, root as int, a)
            implies #[trigger] cands.contains(a as usize) by {
            assert(pre[0] == root);
            assert(reachable_from_any(nv0, pre, a));
        }
        assert(cands.skip(0) =~= cands);
    }
    let mut index: usize = 0;
    while index < nodes.len()
        invariant
            net_wf(net@),
            net@.len() >= nv0.len(),
            nodes@ == cands,
            index <= cands.len(),
            forall|a: int| 0 <= a < nv0.len() ==> (#[trigger] net@[a]).kind == nv0[a].kind,
            forall|j: int| 0 <= j < nodes@.len() ==> (#[trigger] nodes@[j]) < nv0.len(),
            forall|j: int|
                0 <= j < nodes@.len() ==> reachable(nv0, root as int, (#[trigger] nodes@[j]) as int),
            sweep_spec(nv0, cands) == sweep_spec(net@, cands.skip(index as int)),
            (forall|a: int|
                0 <= a < nv0.len() && reachable(nv0, root as int, a) ==> !in_active_pair(nv0, a))
                ==> net@ == nv0,
        decreases nodes@.len() - index,
    {
        let ghost cur = net@;
        let node = nodes[index];
        if let Some(p) = net.port_peer(Port { agent: node, index: 0 }) {
            if p.index == 0 && p.agent != node {
                if let Some(q) = net.port_peer(Port { agent: p.agent, index: 0 }) {
                    if q.agent == node && q.index == 0 {
                        proof {
                            assert(is_redex(net@, node as int, p.agent as int));
                            if net@ == nv0 {
                                assert(is_redex(nv0, node as int, p.agent as int));
                                assert(in_active_pair(nv0, node as int));
                            }
                        }
                        reduce_local(net, node, p.agent);
                    }
                }
            }
        }
        proof {
            assert(net@ == sweep_step(cur, node as int));
            let rest = cands.skip(index as int);
            assert(rest[0] == node);
            assert(rest.skip(1) =~= cands.skip(index as int + 1));
            assert(sweep_spec(cur, rest) == sweep_spec(net@, cands.skip(index as int + 1)));
        }
        index += 1;
    }
    proof {
        assert(cands.skip(cands.len() as int) =~= Seq::<usize>::empty());
        assert(net@ == sweep_spec(nv0, cands));
    }
}

} // verus!
