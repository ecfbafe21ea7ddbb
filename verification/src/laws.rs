//! The library's laws: symmetry preservation of `connect`, and the exact
//! shape each reduction rule leaves behind, proved once and for all from
//! the rules' contracts.

use vstd::prelude::*;
use vstd::set_lib::*;

use crate::model::{
    agent_wf, connect_step, fresh_agent, is_slot, lemma_connect_step, lemma_push_fresh, net_wf,
    opt_port_valid, peer_of, port_valid, symmetric, symmetric_excluding, AgentKind, AgentView, Port,
};
use crate::driver::{lemma_reach_step, reachable, step_to};
use crate::rules::{annihilate_spec, duplicate_spec, erase_spec, is_redex, some_port, swap_spec};

verus! {

/// Symmetry invariant: a `connect` whose two sides were free, or were
/// already each other's peers, keeps every connection mutual. (Overwriting
/// a live connection on one side only is the documented way to leave a
/// dangling far end, so those inputs are excluded here.)
#[verifier::rlimit(50)]
pub proof fn lemma_connect_preserves_symmetry(
    nv: Seq<AgentView>,
    lhs: Option<Port>,
    rhs: Option<Port>,
)
    requires
        nv.len() <= usize::MAX,
        net_wf(nv),
        symmetric(nv),
        opt_port_valid(nv, lhs),
        opt_port_valid(nv, rhs),
        lhs matches Some(l) ==> peer_of(nv, l) is None || peer_of(nv, l) == rhs,
        rhs matches Some(r) ==> peer_of(nv, r) is None || peer_of(nv, r) == lhs,
    ensures
        symmetric(connect_step(nv, lhs, rhs)),
{
    lemma_connect_step(nv, lhs, rhs);
    let post = connect_step(nv, lhs, rhs);
    assert forall|a: int, i: int| 0 <= a < post.len() && 0 <= i < 3 implies ((
    #[trigger] post[a].ports[i]) matches Some(p) ==> port_valid(post, p)
        && post[p.agent as int].ports[p.index as int] == Some(
        Port { agent: a as usize, index: i as usize },
    )) by {
        assert(agent_wf(nv, nv[a]));
        match post[a].ports[i] {
            Some(p) => {
                if is_slot(rhs, a, i) {
                    assert(lhs == Some(p));
                    assert(port_valid(nv, p));
                    assert(agent_wf(nv, nv[p.agent as int]));
                    assert(rhs == Some(Port { agent: a as usize, index: i as usize }));
                    if is_slot(rhs, p.agent as int, p.index as int) {
                        assert(p.agent as int == a && p.index as int == i);
                        assert(post[p.agent as int].ports[p.index as int] == lhs);
                    } else {
                        assert(is_slot(lhs, p.agent as int, p.index as int));
                        assert(post[p.agent as int].ports[p.index as int] == rhs);
                    }
                } else if is_slot(lhs, a, i) {
                    assert(rhs == Some(p));
                    assert(port_valid(nv, p));
                    assert(agent_wf(nv, nv[p.agent as int]));
                    assert(lhs == Some(Port { agent: a as usize, index: i as usize }));
                    assert(is_slot(rhs, p.agent as int, p.index as int));
                    assert(post[p.agent as int].ports[p.index as int] == lhs);
                } else {
                    assert(nv[a].ports[i] == Some(p));
                    assert(port_valid(nv, p));
                    assert(nv[p.agent as int].ports[p.index as int] == Some(
                        Port { agent: a as usize, index: i as usize },
                    ));
                    assert(agent_wf(nv, nv[p.agent as int]));
                    if is_slot(rhs, p.agent as int, p.index as int) {
                        assert(peer_of(nv, rhs->Some_0) == Some(
                            Port { agent: a as usize, index: i as usize },
                        ));
                        assert(false);
                    }
                    if is_slot(lhs, p.agent as int, p.index as int) {
                        assert(peer_of(nv, lhs->Some_0) == Some(
                            Port { agent: a as usize, index: i as usize },
                        ));
                        assert(false);
                    }
                    assert(post[p.agent as int].ports[p.index as int] == nv[p.agent as int].ports[p.index as int]);
                }
            },
            None => {},
        }
    }
}

/// Annihilate: with the two Constructors' auxiliary peers at `x`, `y`
/// (sides of `lhs`) and `z`, `w` (sides of `rhs`), all on agents outside
/// the pair, the rewrite joins `x` to `z` and `y` to `w` mutually, leaves
/// every other slot outside the pair untouched, allocates nothing, and no
/// port of the four peer agents references `lhs` or `rhs` afterwards; the
/// whole net outside the vanished pair is symmetric again.
pub proof fn lemma_annihilate_result(
    nv: Seq<AgentView>,
    lhs: int,
    rhs: int,
    x: Port,
    y: Port,
    z: Port,
    w: Port,
)
    requires
        nv.len() <= usize::MAX,
        net_wf(nv),
        symmetric(nv),
        is_redex(nv, lhs, rhs),
        nv[lhs].ports[1] == Some(x),
        nv[lhs].ports[2] == Some(y),
        nv[rhs].ports[1] == Some(z),
        nv[rhs].ports[2] == Some(w),
        x.agent as int != lhs && x.agent as int != rhs,
        y.agent as int != lhs && y.agent as int != rhs,
        z.agent as int != lhs && z.agent as int != rhs,
        w.agent as int != lhs && w.agent as int != rhs,
    ensures
        annihilate_spec(nv, lhs, rhs).len() == nv.len(),
        peer_of(annihilate_spec(nv, lhs, rhs), x) == Some(z),
        peer_of(annihilate_spec(nv, lhs, rhs), z) == Some(x),
        peer_of(annihilate_spec(nv, lhs, rhs), y) == Some(w),
        peer_of(annihilate_spec(nv, lhs, rhs), w) == Some(y),
        forall|a: int|
            0 <= a < nv.len() ==> (#[trigger] annihilate_spec(nv, lhs, rhs)[a]).kind == nv[a].kind,
        forall|a: int, i: int|
            0 <= a < nv.len() && 0 <= i < 3 && !is_slot(Some(x), a, i) && !is_slot(Some(y), a, i)
                && !is_slot(Some(z), a, i) && !is_slot(Some(w), a, i)
                ==> #[trigger] annihilate_spec(nv, lhs, rhs)[a].ports[i] == nv[a].ports[i],
        forall|a: int, i: int|
            (a == x.agent as int || a == y.agent as int || a == z.agent as int || a == w.agent
                as int) && 0 <= i < 3 ==> ((#[trigger] annihilate_spec(nv, lhs, rhs)[a].ports[i])
                matches Some(t) ==> t.agent as int != lhs && t.agent as int != rhs),
        symmetric_excluding(annihilate_spec(nv, lhs, rhs), lhs, rhs),
{
    lemma_joined_across(nv, lhs, rhs, x, y, z, w, annihilate_spec(nv, lhs, rhs), z, w, x, y);
}

/// Swap: as Annihilate but with Duplicators and the pairing crossed:
/// `x` joins `w` and `y` joins `z`.
pub proof fn lemma_swap_result(
    nv: Seq<AgentView>,
    lhs: int,
    rhs: int,
    x: Port,
    y: Port,
    z: Port,
    w: Port,
)
    requires
        nv.len() <= usize::MAX,
        net_wf(nv),
        symmetric(nv),
        is_redex(nv, lhs, rhs),
        nv[lhs].ports[1] == Some(x),
        nv[lhs].ports[2] == Some(y),
        nv[rhs].ports[1] == Some(z),
        nv[rhs].ports[2] == Some(w),
        x.agent as int != lhs && x.agent as int != rhs,
        y.agent as int != lhs && y.agent as int != rhs,
        z.agent as int != lhs && z.agent as int != rhs,
        w.agent as int != lhs && w.agent as int != rhs,
    ensures
        swap_spec(nv, lhs, rhs).len() == nv.len(),
        peer_of(swap_spec(nv, lhs, rhs), x) == Some(w),
        peer_of(swap_spec(nv, lhs, rhs), w) == Some(x),
        peer_of(swap_spec(nv, lhs, rhs), y) == Some(z),
        peer_of(swap_spec(nv, lhs, rhs), z) == Some(y),
        forall|a: int|
            0 <= a < nv.len() ==> (#[trigger] swap_spec(nv, lhs, rhs)[a]).kind == nv[a].kind,
        forall|a: int, i: int|
            0 <= a < nv.len() && 0 <= i < 3 && !is_slot(Some(x), a, i) && !is_slot(Some(y), a, i)
                && !is_slot(Some(z), a, i) && !is_slot(Some(w), a, i)
                ==> #[trigger] swap_spec(nv, lhs, rhs)[a].ports[i] == nv[a].ports[i],
        forall|a: int, i: int|
            (a == x.agent as int || a == y.agent as int || a == z.agent as int || a == w.agent
                as int) && 0 <= i < 3 ==> ((#[trigger] swap_spec(nv, lhs, rhs)[a].ports[i]) matches
                Some(t) ==> t.agent as int != lhs && t.agent as int != rhs),
        symmetric_excluding(swap_spec(nv, lhs, rhs), lhs, rhs),
{
    lemma_joined_across(nv, lhs, rhs, x, y, z, w, swap_spec(nv, lhs, rhs), w, z, y, x);
}

/// Common core of Annihilate and Swap: the state after joining the first
/// auxiliary pair and then the second, read pointwise. `px`, `py`, `pz`,
/// `pw` are the new peers of `x`, `y`, `z`, `w` respectively.
#[verifier::rlimit(50)]
proof fn lemma_joined_across(
    nv: Seq<AgentView>,
    lhs: int,
    rhs: int,
    x: Port,
    y: Port,
    z: Port,
    w: Port,
    post: Seq<AgentView>,
    px: Port,
    py: Port,
    pz: Port,
    pw: Port,
)
    requires
        nv.len() <= usize::MAX,
        net_wf(nv),
        symmetric(nv),
        is_redex(nv, lhs, rhs),
        nv[lhs].ports[1] == Some(x),
        nv[lhs].ports[2] == Some(y),
        nv[rhs].ports[1] == Some(z),
        nv[rhs].ports[2] == Some(w),
        x.agent as int != lhs && x.agent as int != rhs,
        y.agent as int != lhs && y.agent as int != rhs,
        z.agent as int != lhs && z.agent as int != rhs,
        w.agent as int != lhs && w.agent as int != rhs,
        (px == z && py == w && pz == x && pw == y && post == annihilate_spec(nv, lhs, rhs)) || (px
            == w && py == z && pz == y && pw == x && post == swap_spec(nv, lhs, rhs)),
    ensures
        post.len() == nv.len(),
        peer_of(post, x) == Some(px),
        peer_of(post, y) == Some(py),
        peer_of(post, z) == Some(pz),
        peer_of(post, w) == Some(pw),
        forall|a: int| 0 <= a < nv.len() ==> (#[trigger] post[a]).kind == nv[a].kind,
        forall|a: int, i: int|
            0 <= a < nv.len() && 0 <= i < 3 && !is_slot(Some(x), a, i) && !is_slot(Some(y), a, i)
                && !is_slot(Some(z), a, i) && !is_slot(Some(w), a, i)
                ==> #[trigger] post[a].ports[i] == nv[a].ports[i],
        forall|a: int, i: int|
            (a == x.agent as int || a == y.agent as int || a == z.agent as int || a == w.agent
                as int) && 0 <= i < 3 ==> ((#[trigger] post[a].ports[i]) matches Some(t) ==> t.agent
                as int != lhs && t.agent as int != rhs),
        symmetric_excluding(post, lhs, rhs),
{
    assert(agent_wf(nv, nv[lhs]));
    assert(agent_wf(nv, nv[rhs]));
    // Back-references of the four auxiliary peers, from symmetry.
    assert(nv[x.agent as int].ports[x.index as int] == Some(
        Port { agent: lhs as usize, index: 1 },
    ));
    assert(nv[y.agent as int].ports[y.index as int] == Some(
        Port { agent: lhs as usize, index: 2 },
    ));
    assert(nv[z.agent as int].ports[z.index as int] == Some(
        Port { agent: rhs as usize, index: 1 },
    ));
    assert(nv[w.agent as int].ports[w.index as int] == Some(
        Port { agent: rhs as usize, index: 2 },
    ));
    assert(port_valid(nv, x) && port_valid(nv, y) && port_valid(nv, z) && port_valid(nv, w));
    // The four slots are pairwise distinct: their back-references differ.
    assert(x != y && x != z && x != w && y != z && y != w && z != w);
    let mid = connect_step(nv, Some(x), Some(px));
    lemma_connect_step(nv, Some(x), Some(px));
    lemma_connect_step(mid, Some(y), Some(py));
    assert(post == connect_step(mid, Some(y), Some(py)));
    assert(peer_of(post, x) == Some(px));
    assert(peer_of(post, px) == Some(x));
    assert(peer_of(post, y) == Some(py));
    assert(peer_of(post, py) == Some(y));
    assert forall|a: int, i: int|
        (a == x.agent as int || a == y.agent as int || a == z.agent as int || a == w.agent
            as int) && 0 <= i < 3 implies ((#[trigger] post[a].ports[i]) matches Some(t) ==> t.agent
            as int != lhs && t.agent as int != rhs) by {
        assert(agent_wf(nv, nv[a]));
        match post[a].ports[i] {
            Some(t) => {
                if is_slot(Some(x), a, i) || is_slot(Some(y), a, i) || is_slot(Some(z), a, i)
                    || is_slot(Some(w), a, i) {
                } else {
                    assert(post[a].ports[i] == nv[a].ports[i]);
                    if t.agent as int == lhs || t.agent as int == rhs {
                        assert(port_valid(nv, t));
                        assert(nv[t.agent as int].ports[t.index as int] == Some(
                            Port { agent: a as usize, index: i as usize },
                        ));
                        assert(agent_wf(nv, nv[t.agent as int]));
                        assert(t.index as int == 0 || t.index as int == 1 || t.index as int == 2);
                        assert(false);
                    }
                }
            },
            None => {},
        }
    }
    assert forall|a: int, i: int|
        0 <= a < post.len() && 0 <= i < 3 && a != lhs && a != rhs implies ((
    #[trigger] post[a].ports[i]) matches Some(t) ==> port_valid(post, t) && t.agent as int != lhs
        && t.agent as int != rhs && post[t.agent as int].ports[t.index as int] == Some(
        Port { agent: a as usize, index: i as usize },
    )) by {
        assert(agent_wf(nv, nv[a]));
        match post[a].ports[i] {
            Some(t) => {
                if is_slot(Some(x), a, i) {
                    assert(x == Port { agent: a as usize, index: i as usize });
                    assert(t == px);
                } else if is_slot(Some(y), a, i) {
                    assert(y == Port { agent: a as usize, index: i as usize });
                    assert(t == py);
                } else if is_slot(Some(z), a, i) {
                    assert(z == Port { agent: a as usize, index: i as usize });
                    assert(t == pz);
                } else if is_slot(Some(w), a, i) {
                    assert(w == Port { agent: a as usize, index: i as usize });
                    assert(t == pw);
                } else {
                    assert(post[a].ports[i] == nv[a].ports[i]);
                    assert(port_valid(nv, t));
                    assert(nv[t.agent as int].ports[t.index as int] == Some(
                        Port { agent: a as usize, index: i as usize },
                    ));
                    assert(agent_wf(nv, nv[t.agent as int]));
                    if t.agent as int == lhs || t.agent as int == rhs {
                        assert(t.index as int == 0 || t.index as int == 1 || t.index as int == 2);
                        assert(false);
                    }
                    assert(!is_slot(Some(x), t.agent as int, t.index as int)) by {
                        if is_slot(Some(x), t.agent as int, t.index as int) {
                            assert(nv[x.agent as int].ports[x.index as int] == Some(
                                Port { agent: a as usize, index: i as usize },
                            ));
                        }
                    }
                    assert(!is_slot(Some(y), t.agent as int, t.index as int)) by {
                        if is_slot(Some(y), t.agent as int, t.index as int) {
                            assert(nv[y.agent as int].ports[y.index as int] == Some(
                                Port { agent: a as usize, index: i as usize },
                            ));
                        }
                    }
                    assert(!is_slot(Some(z), t.agent as int, t.index as int)) by {
                        if is_slot(Some(z), t.agent as int, t.index as int) {
                            assert(nv[z.agent as int].ports[z.index as int] == Some(
                                Port { agent: a as usize, index: i as usize },
                            ));
                        }
                    }
                    assert(!is_slot(Some(w), t.agent as int, t.index as int)) by {
                        if is_slot(Some(w), t.agent as int, t.index as int) {
                            assert(nv[w.agent as int].ports[w.index as int] == Some(
                                Port { agent: a as usize, index: i as usize },
                            ));
                        }
                    }
                    assert(post[t.agent as int].ports[t.index as int] == nv[t.agent as int].ports[t.index as int]);
                }
            },
            None => {},
        }
    }
    assert(symmetric_excluding(post, lhs, rhs));
}

/// Erase: with the erased agent's auxiliary peers at `p` and `q`, both on
/// agents outside the pair, the rewrite allocates exactly one new agent,
/// an Eraser; `p` and the new eraser's principal become mutual peers, as
/// do `q` and the original eraser's principal, so each former auxiliary
/// peer now faces an Eraser. Every other slot outside the pair is
/// untouched, and the net outside the abandoned agent is symmetric
/// again.
#[verifier::rlimit(50)]
pub proof fn lemma_erase_result(nv: Seq<AgentView>, eraser: int, erased: int, p: Port, q: Port)
    requires
        nv.len() + 1 <= usize::MAX,
        net_wf(nv),
        symmetric(nv),
        is_redex(nv, eraser, erased),
        nv[eraser].kind == AgentKind::Eraser,
        nv[erased].ports[1] == Some(p),
        nv[erased].ports[2] == Some(q),
        p.agent as int != eraser && p.agent as int != erased,
        q.agent as int != eraser && q.agent as int != erased,
    ensures
        erase_spec(nv, eraser, erased).len() == nv.len() + 1,
        erase_spec(nv, eraser, erased)[nv.len() as int].kind == AgentKind::Eraser,
        forall|a: int|
            0 <= a < nv.len() ==> (#[trigger] erase_spec(nv, eraser, erased)[a]).kind == nv[a].kind,
        peer_of(erase_spec(nv, eraser, erased), p) == some_port(nv.len() as int, 0),
        erase_spec(nv, eraser, erased)[nv.len() as int].ports[0] == Some(p),
        peer_of(erase_spec(nv, eraser, erased), q) == some_port(eraser, 0),
        erase_spec(nv, eraser, erased)[eraser].ports[0] == Some(q),
        forall|a: int, i: int|
            0 <= a < nv.len() && 0 <= i < 3 && !is_slot(Some(p), a, i) && !is_slot(Some(q), a, i)
                && !(a == eraser && i == 0) ==> #[trigger] erase_spec(nv, eraser, erased)[a].ports[i]
                == nv[a].ports[i],
        symmetric_excluding(erase_spec(nv, eraser, erased), erased, erased),
{
    let f = nv.len() as int;
    let nv1 = nv.push(fresh_agent(AgentKind::Eraser));
    lemma_push_fresh(nv, AgentKind::Eraser);
    assert(agent_wf(nv, nv[erased]));
    assert(nv[p.agent as int].ports[p.index as int] == Some(
        Port { agent: erased as usize, index: 1 },
    ));
    assert(nv[q.agent as int].ports[q.index as int] == Some(
        Port { agent: erased as usize, index: 2 },
    ));
    assert(port_valid(nv, p) && port_valid(nv, q));
    assert(p != q);
    assert(nv1[erased].ports[1] == Some(p));
    lemma_connect_step(nv1, some_port(f, 0), Some(p));
    let nv2 = connect_step(nv1, some_port(f, 0), Some(p));
    assert(nv2[erased].ports[2] == Some(q));
    lemma_connect_step(nv2, some_port(eraser, 0), Some(q));
    let post = connect_step(nv2, some_port(eraser, 0), Some(q));
    assert(post == erase_spec(nv, eraser, erased));
    assert(post[p.agent as int].ports[p.index as int] == some_port(f, 0));
    assert(post[f].ports[0] == Some(p));
    assert(post[q.agent as int].ports[q.index as int] == some_port(eraser, 0));
    assert(post[eraser].ports[0] == Some(q));
    assert(post[f].ports[1] is None && post[f].ports[2] is None);
    assert(nv[eraser].ports[0] == some_port(erased, 0));
    assert forall|a: int, i: int|
        0 <= a < post.len() && 0 <= i < 3 && a != erased implies ((#[trigger] post[a].ports[i])
        matches Some(t) ==> port_valid(post, t) && t.agent as int != erased
        && post[t.agent as int].ports[t.index as int] == Some(
        Port { agent: a as usize, index: i as usize },
    )) by {
        match post[a].ports[i] {
            Some(t) => {
                if is_slot(Some(p), a, i) {
                    assert(p == Port { agent: a as usize, index: i as usize });
                    assert(t == Port { agent: nv.len() as usize, index: 0 });
                } else if is_slot(Some(q), a, i) {
                    assert(q == Port { agent: a as usize, index: i as usize });
                    assert(t == Port { agent: eraser as usize, index: 0 });
                } else if a == eraser && i == 0 {
                    assert(t == q);
                } else if a == f {
                    assert(i == 0 && t == p);
                } else {
                    assert(agent_wf(nv, nv[a]));
                    assert(post[a].ports[i] == nv[a].ports[i]);
                    assert(port_valid(nv, t));
                    assert(nv[t.agent as int].ports[t.index as int] == Some(
                        Port { agent: a as usize, index: i as usize },
                    ));
                    assert(agent_wf(nv, nv[t.agent as int]));
                    if t.agent as int == erased {
                        assert(t.index as int == 0 || t.index as int == 1 || t.index as int == 2);
                        assert(false);
                    }
                    assert(!is_slot(Some(p), t.agent as int, t.index as int)) by {
                        if is_slot(Some(p), t.agent as int, t.index as int) {
                            assert(nv[p.agent as int].ports[p.index as int] == Some(
                                Port { agent: a as usize, index: i as usize },
                            ));
                        }
                    }
                    assert(!is_slot(Some(q), t.agent as int, t.index as int)) by {
                        if is_slot(Some(q), t.agent as int, t.index as int) {
                            assert(nv[q.agent as int].ports[q.index as int] == Some(
                                Port { agent: a as usize, index: i as usize },
                            ));
                        }
                    }
                    assert(!(t.agent as int == eraser && t.index == 0)) by {
                        if t.agent as int == eraser && t.index == 0 {
                            assert(nv[eraser].ports[0] == Some(
                                Port { agent: a as usize, index: i as usize },
                            ));
                        }
                    }
                    assert(post[t.agent as int].ports[t.index as int] == nv[t.agent as int].ports[t.index as int]);
                }
            },
            None => {},
        }
    }
    assert(symmetric_excluding(post, erased, erased));
}

/// Duplicate conservation: the rewrite allocates exactly two agents, one
/// of each original's kind; every former auxiliary peer of one original
/// now faces, mutually, the principal port of an agent of the other
/// original's kind; the grid's eight auxiliary ports are cross-connected;
/// and every slot outside the pair and its four peers is untouched.
#[verifier::rlimit(100)]
pub proof fn lemma_duplicate_result(
    nv: Seq<AgentView>,
    lhs: int,
    rhs: int,
    x: Port,
    y: Port,
    z: Port,
    w: Port,
)
    requires
        nv.len() + 2 <= usize::MAX,
        net_wf(nv),
        symmetric(nv),
        is_redex(nv, lhs, rhs),
        nv[lhs].ports[1] == Some(x),
        nv[lhs].ports[2] == Some(y),
        nv[rhs].ports[1] == Some(z),
        nv[rhs].ports[2] == Some(w),
        x.agent as int != lhs && x.agent as int != rhs,
        y.agent as int != lhs && y.agent as int != rhs,
        z.agent as int != lhs && z.agent as int != rhs,
        w.agent as int != lhs && w.agent as int != rhs,
    ensures
        ({
            let post = duplicate_spec(nv, lhs, rhs);
            let ca = nv.len() as int;
            let cb = nv.len() as int + 1;
            &&& post.len() == nv.len() + 2
            &&& post[ca].kind == nv[lhs].kind
            &&& post[cb].kind == nv[rhs].kind
            &&& forall|a: int| 0 <= a < nv.len() ==> (#[trigger] post[a]).kind == nv[a].kind
            &&& peer_of(post, x) == some_port(rhs, 0)
            &&& post[rhs].ports[0] == Some(x)
            &&& peer_of(post, y) == some_port(cb, 0)
            &&& post[cb].ports[0] == Some(y)
            &&& peer_of(post, z) == some_port(lhs, 0)
            &&& post[lhs].ports[0] == Some(z)
            &&& peer_of(post, w) == some_port(ca, 0)
            &&& post[ca].ports[0] == Some(w)
            &&& post[rhs].ports[1] == some_port(lhs, 1)
            &&& post[lhs].ports[1] == some_port(rhs, 1)
            &&& post[rhs].ports[2] == some_port(ca, 1)
            &&& post[ca].ports[1] == some_port(rhs, 2)
            &&& post[cb].ports[1] == some_port(lhs, 2)
            &&& post[lhs].ports[2] == some_port(cb, 1)
            &&& post[cb].ports[2] == some_port(ca, 2)
            &&& post[ca].ports[2] == some_port(cb, 2)
            &&& forall|a: int, i: int|
                0 <= a < nv.len() && 0 <= i < 3 && a != lhs && a != rhs && !is_slot(Some(x), a, i)
                    && !is_slot(Some(y), a, i) && !is_slot(Some(z), a, i) && !is_slot(
                    Some(w),
                    a,
                    i,
                ) ==> #[trigger] post[a].ports[i] == nv[a].ports[i]
        }),
{
    let ca = nv.len() as int;
    let cb = nv.len() as int + 1;
    assert(agent_wf(nv, nv[lhs]));
    assert(agent_wf(nv, nv[rhs]));
    assert(nv[x.agent as int].ports[x.index as int] == Some(
        Port { agent: lhs as usize, index: 1 },
    ));
    assert(nv[y.agent as int].ports[y.index as int] == Some(
        Port { agent: lhs as usize, index: 2 },
    ));
    assert(nv[z.agent as int].ports[z.index as int] == Some(
        Port { agent: rhs as usize, index: 1 },
    ));
    assert(nv[w.agent as int].ports[w.index as int] == Some(
        Port { agent: rhs as usize, index: 2 },
    ));
    assert(port_valid(nv, x) && port_valid(nv, y) && port_valid(nv, z) && port_valid(nv, w));
    assert(x != y && x != z && x != w && y != z && y != w && z != w);
    let nva = nv.push(fresh_agent(nv[lhs].kind));
    lemma_push_fresh(nv, nv[lhs].kind);
    let nv0 = nva.push(fresh_agent(nv[rhs].kind));
    lemma_push_fresh(nva, nv[rhs].kind);
    assert(nv0[lhs].ports[1] == Some(x) && nv0[lhs].ports[2] == Some(y));
    assert(nv0[rhs].ports[1] == Some(z) && nv0[rhs].ports[2] == Some(w));
    let nv1 = connect_step(nv0, Some(x), some_port(rhs, 0));
    lemma_connect_step(nv0, Some(x), some_port(rhs, 0));
    let nv2 = connect_step(nv1, Some(y), some_port(cb, 0));
    lemma_connect_step(nv1, Some(y), some_port(cb, 0));
    let nv3 = connect_step(nv2, Some(z), some_port(lhs, 0));
    lemma_connect_step(nv2, Some(z), some_port(lhs, 0));
    let nv4 = connect_step(nv3, Some(w), some_port(ca, 0));
    lemma_connect_step(nv3, Some(w), some_port(ca, 0));
    let nv5 = connect_step(nv4, some_port(rhs, 1), some_port(lhs, 1));
    lemma_connect_step(nv4, some_port(rhs, 1), some_port(lhs, 1));
    let nv6 = connect_step(nv5, some_port(rhs, 2), some_port(ca, 1));
    lemma_connect_step(nv5, some_port(rhs, 2), some_port(ca, 1));
    let nv7 = connect_step(nv6, some_port(cb, 1), some_port(lhs, 2));
    lemma_connect_step(nv6, some_port(cb, 1), some_port(lhs, 2));
    let post = connect_step(nv7, some_port(cb, 2), some_port(ca, 2));
    lemma_connect_step(nv7, some_port(cb, 2), some_port(ca, 2));
    assert(post == duplicate_spec(nv, lhs, rhs));
    assert(post[x.agent as int].ports[x.index as int] == some_port(rhs, 0));
    assert(post[rhs].ports[0] == Some(x));
    assert(post[y.agent as int].ports[y.index as int] == some_port(cb, 0));
    assert(post[cb].ports[0] == Some(y));
    assert(post[z.agent as int].ports[z.index as int] == some_port(lhs, 0));
    assert(post[lhs].ports[0] == Some(z));
    assert(post[w.agent as int].ports[w.index as int] == some_port(ca, 0));
    assert(post[ca].ports[0] == Some(w));
}

/// Duplicate leaves no dangling reference at all: since both originals
/// are repurposed in place and both clones are fully wired, the whole
/// resulting net is symmetric again — every connection is mutual.
#[verifier::rlimit(100)]
pub proof fn lemma_duplicate_symmetric(
    nv: Seq<AgentView>,
    lhs: int,
    rhs: int,
    x: Port,
    y: Port,
    z: Port,
    w: Port,
)
    requires
        nv.len() + 2 <= usize::MAX,
        net_wf(nv),
        symmetric(nv),
        is_redex(nv, lhs, rhs),
        nv[lhs].ports[1] == Some(x),
        nv[lhs].ports[2] == Some(y),
        nv[rhs].ports[1] == Some(z),
        nv[rhs].ports[2] == Some(w),
        x.agent as int != lhs && x.agent as int != rhs,
        y.agent as int != lhs && y.agent as int != rhs,
        z.agent as int != lhs && z.agent as int != rhs,
        w.agent as int != lhs && w.agent as int != rhs,
    ensures
        symmetric(duplicate_spec(nv, lhs, rhs)),
{
    lemma_duplicate_result(nv, lhs, rhs, x, y, z, w);
    let post = duplicate_spec(nv, lhs, rhs);
    let ca = nv.len() as int;
    let cb = nv.len() as int + 1;
    assert(agent_wf(nv, nv[lhs]) && agent_wf(nv, nv[rhs]));
    assert(port_valid(nv, x) && port_valid(nv, y) && port_valid(nv, z) && port_valid(nv, w));
    assert forall|a: int, i: int| 0 <= a < post.len() && 0 <= i < 3 implies ((
    #[trigger] post[a].ports[i]) matches Some(t) ==> port_valid(post, t)
        && post[t.agent as int].ports[t.index as int] == Some(
        Port { agent: a as usize, index: i as usize },
    )) by {
        match post[a].ports[i] {
            Some(t) => {
                if a == lhs || a == rhs || a == ca || a == cb {
                } else if is_slot(Some(x), a, i) {
                    assert(x == Port { agent: a as usize, index: i as usize });
                    assert(t == Port { agent: rhs as usize, index: 0 });
                } else if is_slot(Some(y), a, i) {
                    assert(y == Port { agent: a as usize, index: i as usize });
                    assert(t == Port { agent: cb as usize, index: 0 });
                } else if is_slot(Some(z), a, i) {
                    assert(z == Port { agent: a as usize, index: i as usize });
                    assert(t == Port { agent: lhs as usize, index: 0 });
                } else if is_slot(Some(w), a, i) {
                    assert(w == Port { agent: a as usize, index: i as usize });
                    assert(t == Port { agent: ca as usize, index: 0 });
                } else {
                    assert(agent_wf(nv, nv[a]));
                    assert(post[a].ports[i] == nv[a].ports[i]);
                    assert(port_valid(nv, t));
                    assert(nv[t.agent as int].ports[t.index as int] == Some(
                        Port { agent: a as usize, index: i as usize },
                    ));
                    assert(agent_wf(nv, nv[t.agent as int]));
                    if t.agent as int == lhs || t.agent as int == rhs {
                        assert(t.index as int == 0 || t.index as int == 1 || t.index as int == 2);
                        assert(false);
                    }
                    assert(!is_slot(Some(x), t.agent as int, t.index as int)) by {
                        if is_slot(Some(x), t.agent as int, t.index as int) {
                            assert(nv[x.agent as int].ports[x.index as int] == Some(
                                Port { agent: a as usize, index: i as usize },
                            ));
                        }
                    }
                    assert(!is_slot(Some(y), t.agent as int, t.index as int)) by {
                        if is_slot(Some(y), t.agent as int, t.index as int) {
                            assert(nv[y.agent as int].ports[y.index as int] == Some(
                                Port { agent: a as usize, index: i as usize },
                            ));
                        }
                    }
                    assert(!is_slot(Some(z), t.agent as int, t.index as int)) by {
                        if is_slot(Some(z), t.agent as int, t.index as int) {
                            assert(nv[z.agent as int].ports[z.index as int] == Some(
                                Port { agent: a as usize, index: i as usize },
                            ));
                        }
                    }
                    assert(!is_slot(Some(w), t.agent as int, t.index as int)) by {
                        if is_slot(Some(w), t.agent as int, t.index as int) {
                            assert(nv[w.agent as int].ports[w.index as int] == Some(
                                Port { agent: a as usize, index: i as usize },
                            ));
                        }
                    }
                    assert(post[t.agent as int].ports[t.index as int] == nv[t.agent as int].ports[t.index as int]);
                }
            },
            None => {},
        }
    }
    assert(symmetric(post));
}

/// Duplicate conservation, reachability half: in the net a duplication
/// leaves behind (stated here by its wiring), the repurposed pair and both
/// fresh agents are reachable from each former auxiliary peer, and every
/// former auxiliary peer is reachable from the repurposed `lhs` corner, so
/// no auxiliary neighbor of the pair drops out of the net. Together with
/// [`crate::driver::lemma_reach_trans`] this gives reachability between
/// any two of them.
pub proof fn lemma_duplicate_preserves_reachability(
    post: Seq<AgentView>,
    lhs: int,
    rhs: int,
    ca: int,
    cb: int,
    x: Port,
    y: Port,
    z: Port,
    w: Port,
)
    requires
        post.len() <= usize::MAX,
        0 <= lhs < post.len(),
        0 <= rhs < post.len(),
        0 <= ca < post.len(),
        0 <= cb < post.len(),
        port_valid(post, x),
        port_valid(post, y),
        port_valid(post, z),
        port_valid(post, w),
        post[x.agent as int].ports[x.index as int] == some_port(rhs, 0),
        post[rhs].ports[0] == Some(x),
        post[y.agent as int].ports[y.index as int] == some_port(cb, 0),
        post[cb].ports[0] == Some(y),
        post[z.agent as int].ports[z.index as int] == some_port(lhs, 0),
        post[lhs].ports[0] == Some(z),
        post[w.agent as int].ports[w.index as int] == some_port(ca, 0),
        post[ca].ports[0] == Some(w),
        post[lhs].ports[1] == some_port(rhs, 1),
        post[rhs].ports[1] == some_port(lhs, 1),
        post[rhs].ports[2] == some_port(ca, 1),
        post[lhs].ports[2] == some_port(cb, 1),
        post[cb].ports[1] == some_port(lhs, 2),
        post[ca].ports[1] == some_port(rhs, 2),
    ensures
        reachable(post, lhs, rhs),
        reachable(post, lhs, ca),
        reachable(post, lhs, cb),
        reachable(post, lhs, x.agent as int),
        reachable(post, lhs, y.agent as int),
        reachable(post, lhs, z.agent as int),
        reachable(post, lhs, w.agent as int),
        reachable(post, x.agent as int, lhs),
        reachable(post, y.agent as int, lhs),
        reachable(post, z.agent as int, lhs),
        reachable(post, w.agent as int, lhs),
{
    assert(reachable(post, lhs, lhs)) by {
        assert(crate::driver::reach_k(post, lhs, lhs, 0));
    }
    assert(step_to(post, lhs, rhs));
    lemma_reach_step(post, lhs, lhs, rhs);
    assert(step_to(post, lhs, cb));
    lemma_reach_step(post, lhs, lhs, cb);
    assert(step_to(post, lhs, z.agent as int));
    lemma_reach_step(post, lhs, lhs, z.agent as int);
    assert(step_to(post, rhs, ca));
    lemma_reach_step(post, lhs, rhs, ca);
    assert(step_to(post, rhs, x.agent as int));
    lemma_reach_step(post, lhs, rhs, x.agent as int);
    assert(step_to(post, cb, y.agent as int));
    lemma_reach_step(post, lhs, cb, y.agent as int);
    assert(step_to(post, ca, w.agent as int));
    lemma_reach_step(post, lhs, ca, w.agent as int);
    assert(reachable(post, x.agent as int, x.agent as int)) by {
        assert(crate::driver::reach_k(post, x.agent as int, x.agent as int, 0));
    }
    assert(step_to(post, x.agent as int, rhs));
    lemma_reach_step(post, x.agent as int, x.agent as int, rhs);
    assert(step_to(post, rhs, lhs));
    lemma_reach_step(post, x.agent as int, rhs, lhs);
    assert(reachable(post, z.agent as int, z.agent as int)) by {
        assert(crate::driver::reach_k(post, z.agent as int, z.agent as int, 0));
    }
    assert(step_to(post, z.agent as int, lhs));
    lemma_reach_step(post, z.agent as int, z.agent as int, lhs);
    assert(reachable(post, y.agent as int, y.agent as int)) by {
        assert(crate::driver::reach_k(post, y.agent as int, y.agent as int, 0));
    }
    assert(step_to(post, y.agent as int, cb));
    lemma_reach_step(post, y.agent as int, y.agent as int, cb);
    assert(step_to(post, cb, lhs));
    lemma_reach_step(post, y.agent as int, cb, lhs);
    assert(reachable(post, w.agent as int, w.agent as int)) by {
        assert(crate::driver::reach_k(post, w.agent as int, w.agent as int, 0));
    }
    assert(step_to(post, w.agent as int, ca));
    lemma_reach_step(post, w.agent as int, w.agent as int, ca);
    assert(step_to(post, ca, rhs));
    lemma_reach_step(post, w.agent as int, ca, rhs);
    lemma_reach_step(post, w.agent as int, rhs, lhs);
}

/// Path preservation, one hop at a time: any path of `k` hops in the old
/// net still leads to its target after a duplication, because every old
/// edge either survives unchanged or is replaced by a detour through the
/// rewired grid.
#[verifier::rlimit(100)]
proof fn lemma_duplicate_path(
    nv: Seq<AgentView>,
    lhs: int,
    rhs: int,
    x: Port,
    y: Port,
    z: Port,
    w: Port,
    root: int,
    t: int,
    k: nat,
)
    requires
        nv.len() + 2 <= usize::MAX,
        net_wf(nv),
        symmetric(nv),
        is_redex(nv, lhs, rhs),
        nv[lhs].ports[1] == Some(x),
        nv[lhs].ports[2] == Some(y),
        nv[rhs].ports[1] == Some(z),
        nv[rhs].ports[2] == Some(w),
        x.agent as int != lhs && x.agent as int != rhs,
        y.agent as int != lhs && y.agent as int != rhs,
        z.agent as int != lhs && z.agent as int != rhs,
        w.agent as int != lhs && w.agent as int != rhs,
        0 <= root < nv.len(),
        crate::driver::reach_k(nv, root, t, k),
    ensures
        reachable(duplicate_spec(nv, lhs, rhs), root, t),
    decreases k,
{
    let post = duplicate_spec(nv, lhs, rhs);
    let ca = nv.len() as int;
    let cb = nv.len() as int + 1;
    lemma_duplicate_result(nv, lhs, rhs, x, y, z, w);
    assert(agent_wf(nv, nv[lhs]) && agent_wf(nv, nv[rhs]));
    assert(port_valid(nv, x) && port_valid(nv, y) && port_valid(nv, z) && port_valid(nv, w));
    lemma_duplicate_preserves_reachability(post, lhs, rhs, ca, cb, x, y, z, w);
    assert(reachable(post, rhs, lhs)) by {
        assert(crate::driver::reach_k(post, rhs, rhs, 0));
        assert(step_to(post, rhs, lhs));
        lemma_reach_step(post, rhs, rhs, lhs);
    }
    assert(reachable(post, lhs, lhs)) by {
        assert(crate::driver::reach_k(post, lhs, lhs, 0));
    }
    if k == 0 {
        assert(crate::driver::reach_k(post, root, root, 0));
    } else {
        let b = choose|b: int|
            0 <= b < nv.len() && crate::driver::reach_k(nv, root, b, (k - 1) as nat)
                && #[trigger] step_to(nv, b, t);
        lemma_duplicate_path(nv, lhs, rhs, x, y, z, w, root, b, (k - 1) as nat);
        let i = choose|i: int|
            {
                &&& 0 <= i < 3
                &&& (#[trigger] nv[b].ports[i]) matches Some(p)
                &&& p.agent as int == t
            };
        assert(nv[b].ports[i] matches Some(p) && p.agent as int == t);
        if b == lhs {
            assert(t == rhs || t == x.agent as int || t == y.agent as int);
            assert(reachable(post, lhs, t));
        } else if b == rhs {
            assert(t == lhs || t == z.agent as int || t == w.agent as int);
            crate::driver::lemma_reach_trans(post, rhs, lhs, t);
            assert(reachable(post, rhs, t));
        } else if b == x.agent as int && i == x.index as int {
            assert(nv[x.agent as int].ports[x.index as int] == Some(
                Port { agent: lhs as usize, index: 1 },
            ));
            assert(t == lhs);
            assert(reachable(post, x.agent as int, t));
        } else if b == y.agent as int && i == y.index as int {
            assert(nv[y.agent as int].ports[y.index as int] == Some(
                Port { agent: lhs as usize, index: 2 },
            ));
            assert(t == lhs);
            assert(reachable(post, y.agent as int, t));
        } else if b == z.agent as int && i == z.index as int {
            assert(nv[z.agent as int].ports[z.index as int] == Some(
                Port { agent: rhs as usize, index: 1 },
            ));
            assert(t == rhs);
            crate::driver::lemma_reach_trans(post, z.agent as int, lhs, rhs);
            assert(reachable(post, z.agent as int, t));
        } else if b == w.agent as int && i == w.index as int {
            assert(nv[w.agent as int].ports[w.index as int] == Some(
                Port { agent: rhs as usize, index: 2 },
            ));
            assert(t == rhs);
            crate::driver::lemma_reach_trans(post, w.agent as int, lhs, rhs);
            assert(reachable(post, w.agent as int, t));
        } else {
            assert(post[b].ports[i] == nv[b].ports[i]);
            assert(step_to(post, b, t));
            assert(crate::driver::reach_k(post, b, b, 0));
            lemma_reach_step(post, b, b, t);
        }
        crate::driver::lemma_reach_trans(post, root, b, t);
    }
}

/// Duplicate conservation, whole-net half: after a duplication, every
/// agent that was reachable from any root is still reachable from that
/// root — in particular no former auxiliary neighbor of the rewritten
/// pair drops out of any net that contained it.
pub proof fn lemma_duplicate_keeps_root_paths(
    nv: Seq<AgentView>,
    lhs: int,
    rhs: int,
    x: Port,
    y: Port,
    z: Port,
    w: Port,
    root: int,
    t: int,
)
    requires
        nv.len() + 2 <= usize::MAX,
        net_wf(nv),
        symmetric(nv),
        is_redex(nv, lhs, rhs),
        nv[lhs].ports[1] == Some(x),
        nv[lhs].ports[2] == Some(y),
        nv[rhs].ports[1] == Some(z),
        nv[rhs].ports[2] == Some(w),
        x.agent as int != lhs && x.agent as int != rhs,
        y.agent as int != lhs && y.agent as int != rhs,
        z.agent as int != lhs && z.agent as int != rhs,
        w.agent as int != lhs && w.agent as int != rhs,
        0 <= root < nv.len(),
        reachable(nv, root, t),
    ensures
        reachable(duplicate_spec(nv, lhs, rhs), root, t),
{
    let k = choose|k: nat| crate::driver::reach_k(nv, root, t, k);
    lemma_duplicate_path(nv, lhs, rhs, x, y, z, w, root, t, k);
}

/// The agents of `nv` that belong to the net rooted at `root`.
pub open spec fn reach_set(nv: Seq<AgentView>, root: int) -> Set<int> {
    Set::new(|t: int| 0 <= t < nv.len() && reachable(nv, root, t))
}

/// Path reflection, one hop at a time: whatever a path reaches after a
/// duplication was already reachable before it, except the two clones,
/// which are reached only through the rewired pair.
#[verifier::rlimit(100)]
proof fn lemma_duplicate_path_back(
    nv: Seq<AgentView>,
    lhs: int,
    rhs: int,
    x: Port,
    y: Port,
    z: Port,
    w: Port,
    root: int,
    t: int,
    k: nat,
)
    requires
        nv.len() + 2 <= usize::MAX,
        net_wf(nv),
        symmetric(nv),
        is_redex(nv, lhs, rhs),
        nv[lhs].ports[1] == Some(x),
        nv[lhs].ports[2] == Some(y),
        nv[rhs].ports[1] == Some(z),
        nv[rhs].ports[2] == Some(w),
        x.agent as int != lhs && x.agent as int != rhs,
        y.agent as int != lhs && y.agent as int != rhs,
        z.agent as int != lhs && z.agent as int != rhs,
        w.agent as int != lhs && w.agent as int != rhs,
        0 <= root < nv.len(),
        crate::driver::reach_k(duplicate_spec(nv, lhs, rhs), root, t, k),
    ensures
        0 <= t < nv.len() ==> reachable(nv, root, t),
        t == nv.len() as int || t == nv.len() as int + 1 ==> reachable(nv, root, lhs),
        0 <= t < nv.len() + 2,
    decreases k,
{
    let post = duplicate_spec(nv, lhs, rhs);
    let ca = nv.len() as int;
    let cb = nv.len() as int + 1;
    lemma_duplicate_result(nv, lhs, rhs, x, y, z, w);
    assert(agent_wf(nv, nv[lhs]) && agent_wf(nv, nv[rhs]));
    assert(port_valid(nv, x) && port_valid(nv, y) && port_valid(nv, z) && port_valid(nv, w));
    assert(step_to(nv, lhs, rhs));
    assert(step_to(nv, rhs, lhs));
    assert(step_to(nv, lhs, x.agent as int));
    assert(step_to(nv, lhs, y.agent as int));
    assert(step_to(nv, rhs, z.agent as int));
    assert(step_to(nv, rhs, w.agent as int));
    assert(step_to(nv, x.agent as int, lhs));
    assert(step_to(nv, y.agent as int, lhs));
    assert(step_to(nv, z.agent as int, rhs));
    assert(step_to(nv, w.agent as int, rhs));
    if k == 0 {
        assert(crate::driver::reach_k(nv, root, root, 0));
    } else {
        let b = choose|b: int|
            0 <= b < post.len() && crate::driver::reach_k(post, root, b, (k - 1) as nat)
                && #[trigger] step_to(post, b, t);
        lemma_duplicate_path_back(nv, lhs, rhs, x, y, z, w, root, b, (k - 1) as nat);
        let i = choose|i: int|
            {
                &&& 0 <= i < 3
                &&& (#[trigger] post[b].ports[i]) matches Some(p)
                &&& p.agent as int == t
            };
        assert(post[b].ports[i] matches Some(p) && p.agent as int == t);
        if b == lhs {
            assert(reachable(nv, root, lhs));
            assert(t == z.agent as int || t == rhs || t == cb);
            lemma_reach_step(nv, root, lhs, rhs);
            if t == z.agent as int {
                lemma_reach_step(nv, root, rhs, z.agent as int);
            }
        } else if b == rhs {
            assert(reachable(nv, root, rhs));
            assert(t == x.agent as int || t == lhs || t == ca);
            lemma_reach_step(nv, root, rhs, lhs);
            if t == x.agent as int {
                lemma_reach_step(nv, root, lhs, x.agent as int);
            }
        } else if b == ca {
            assert(reachable(nv, root, lhs));
            assert(t == w.agent as int || t == rhs || t == cb);
            lemma_reach_step(nv, root, lhs, rhs);
            if t == w.agent as int {
                lemma_reach_step(nv, root, rhs, w.agent as int);
            }
        } else if b == cb {
            assert(reachable(nv, root, lhs));
            assert(t == y.agent as int || t == lhs || t == ca);
            if t == y.agent as int {
                lemma_reach_step(nv, root, lhs, y.agent as int);
            }
        } else if b == x.agent as int && i == x.index as int {
            assert(t == rhs);
            lemma_reach_step(nv, root, x.agent as int, lhs);
            lemma_reach_step(nv, root, lhs, rhs);
        } else if b == y.agent as int && i == y.index as int {
            assert(t == cb);
            lemma_reach_step(nv, root, y.agent as int, lhs);
        } else if b == z.agent as int && i == z.index as int {
            assert(t == lhs);
            lemma_reach_step(nv, root, z.agent as int, rhs);
            lemma_reach_step(nv, root, rhs, lhs);
        } else if b == w.agent as int && i == w.index as int {
            assert(t == ca);
            lemma_reach_step(nv, root, w.agent as int, rhs);
            lemma_reach_step(nv, root, rhs, lhs);
        } else {
            assert(post[b].ports[i] == nv[b].ports[i]);
            assert(step_to(nv, b, t));
            assert(agent_wf(nv, nv[b]));
            lemma_reach_step(nv, root, b, t);
        }
    }
}

/// Duplicate conservation, count half: when the rewritten pair belongs to
/// the net rooted at `root`, the rewrite grows that net by exactly the
/// two clones: the reachable sets before and after differ by exactly
/// `ca` and `cb`, so the reachable agent count goes up by exactly two.
#[verifier::rlimit(100)]
pub proof fn lemma_duplicate_reachable_count(
    nv: Seq<AgentView>,
    lhs: int,
    rhs: int,
    x: Port,
    y: Port,
    z: Port,
    w: Port,
    root: int,
)
    requires
        nv.len() + 2 <= usize::MAX,
        net_wf(nv),
        symmetric(nv),
        is_redex(nv, lhs, rhs),
        nv[lhs].ports[1] == Some(x),
        nv[lhs].ports[2] == Some(y),
        nv[rhs].ports[1] == Some(z),
        nv[rhs].ports[2] == Some(w),
        x.agent as int != lhs && x.agent as int != rhs,
        y.agent as int != lhs && y.agent as int != rhs,
        z.agent as int != lhs && z.agent as int != rhs,
        w.agent as int != lhs && w.agent as int != rhs,
        0 <= root < nv.len(),
        reachable(nv, root, lhs),
    ensures
        reach_set(duplicate_spec(nv, lhs, rhs), root) =~= reach_set(nv, root).insert(
            nv.len() as int,
        ).insert(nv.len() as int + 1),
        reach_set(nv, root).finite(),
        reach_set(duplicate_spec(nv, lhs, rhs), root).finite(),
        reach_set(duplicate_spec(nv, lhs, rhs), root).len() == reach_set(nv, root).len() + 2,
{
    let post = duplicate_spec(nv, lhs, rhs);
    let ca = nv.len() as int;
    let cb = nv.len() as int + 1;
    lemma_duplicate_result(nv, lhs, rhs, x, y, z, w);
    assert(agent_wf(nv, nv[lhs]) && agent_wf(nv, nv[rhs]));
    assert(port_valid(nv, x) && port_valid(nv, y) && port_valid(nv, z) && port_valid(nv, w));
    lemma_duplicate_preserves_reachability(post, lhs, rhs, ca, cb, x, y, z, w);
    // Forward: old reachable agents stay reachable, and the clones join.
    assert forall|t: int| reach_set(nv, root).contains(t) implies reach_set(post, root).contains(t)
        by {
        lemma_duplicate_keeps_root_paths(nv, lhs, rhs, x, y, z, w, root, t);
    }
    lemma_duplicate_keeps_root_paths(nv, lhs, rhs, x, y, z, w, root, lhs);
    crate::driver::lemma_reach_trans(post, root, lhs, ca);
    crate::driver::lemma_reach_trans(post, root, lhs, cb);
    assert(reach_set(post, root).contains(ca));
    assert(reach_set(post, root).contains(cb));
    // Back: nothing else becomes reachable.
    assert forall|t: int| reach_set(post, root).contains(t) implies reach_set(nv, root).insert(
        ca,
    ).insert(cb).contains(t) by {
        let k = choose|k: nat| crate::driver::reach_k(post, root, t, k);
        lemma_duplicate_path_back(nv, lhs, rhs, x, y, z, w, root, t, k);
    }
    lemma_int_range(0, nv.len() as int);
    lemma_len_subset(reach_set(nv, root), set_int_range(0, nv.len() as int));
    assert(!reach_set(nv, root).contains(ca));
    assert(!reach_set(nv, root).insert(ca).contains(cb));
    assert(reach_set(post, root) =~= reach_set(nv, root).insert(ca).insert(cb));
}

} // verus!
