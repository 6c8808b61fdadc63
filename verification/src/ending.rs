//! When a walk ends.
use crate::count::{
    lemma_pending_at_most, lemma_pending_drop, lemma_pending_shrinks, lemma_unseen_all,
    lemma_unseen_insert, lemma_unseen_shrinks, pending, unseen,
};
use crate::follow::{follows, law_read_only_adds, lemma_split_follows};
use crate::labels::Labels;
use crate::model::{
    bound_name, decay, declare, fan_of, insert_splits, is_decayed, is_first, is_plain_con, read,
    read_arg, read_con, read_fan, read_mat, read_opr, read_split, read_two, readback, start, Env,
    Outcome, ReadState,
};
use crate::net::{CtrKind, INet, NodeId, NodeKind, Port};
use crate::split::{place, uses};
use crate::term::{FanKind, TermModel};
use crate::tuple::tuple_check;
use vstd::prelude::*;

verus! {

/// Whether a walk that has entered a port can go on to another one. The body of a lambda, both
/// sides of a tuple, the function and the argument of an application, both sides of a pair, what
/// is below a duplication, and so on.
pub open spec fn leads_to(net: INet, from: Port, to: Port) -> bool {
    let node = from.0;
    match net.kind(node) {
        NodeKind::Ctr(CtrKind::Con(_)) => if from.1 == 0 {
            ||| to == net.link_of(Port(node, 2))
            ||| tuple_check(net, node) == Some(true) && to == net.link_of(Port(node, 1))
        } else {
            from.1 == 2 && (to == net.link_of(Port(node, 0)) || to == net.link_of(Port(node, 1)))
        },
        NodeKind::Ctr(kind) => if from.1 == 0 {
            ||| to == net.link_of(Port(node, 1))
            ||| to == net.link_of(Port(node, 2))
            ||| is_decayed(net, node) && to == net.link_of(
                Port(net.link_of(Port(node, 1)).0, 0),
            )
        } else {
            kind is Dup && to == net.link_of(Port(node, 0))
        },
        NodeKind::Mat => {
            let sel = net.link_of(Port(node, 1)).0;
            from.1 == 2 && (to == net.link_of(Port(node, 0)) || to == net.link_of(Port(sel, 1))
                || to == net.link_of(Port(sel, 2)))
        },
        NodeKind::Opr => {
            from.1 == 2 && (to == net.link_of(Port(node, 0)) || to == net.link_of(Port(node, 1)))
        },
        _ => false,
    }
}

/// Whether a net has no cycles: there is a rank that goes down with every step of a walk.
pub open spec fn acyclic(net: INet, rank: spec_fn(Port) -> nat) -> bool {
    forall|from: Port, to: Port| #[trigger]
        leads_to(net, from, to) && net.has_node(from.0) ==> rank(to) < rank(from)
}

/// Whether the sides from which duplications were entered are auxiliary ports.
pub open spec fn sides_are_aux(env: Env) -> bool {
    env.dups is Some ==> forall|label: u16, i: int|
        0 <= i < env.dups->0[label].len() ==> 1 <= #[trigger] env.dups->0[label][i] <= 2
}

/// Whether the fuel lasts for a port. In a linear net every step enters a port for the first
/// time; otherwise the rank of the port counts the steps.
pub open spec fn lasts(
    env: Env,
    rank: spec_fn(Port) -> nat,
    st: ReadState,
    port: Port,
    fuel: nat,
) -> bool {
    if env.dups is None {
        fuel > unseen(st.seen, env.net.size())
    } else {
        fuel > rank(port)
    }
}

/// Whether the fuel lasts for all ports that come after a port.
spec fn lasts_after(
    env: Env,
    rank: spec_fn(Port) -> nat,
    st: ReadState,
    from: Port,
    fuel: nat,
) -> bool {
    &&& sides_are_aux(env)
    &&& env.dups is Some ==> acyclic(env.net, rank)
    &&& forall|to: Port| #[trigger] leads_to(env.net, from, to) ==> lasts(env, rank, st, to, fuel)
}

proof fn lemma_lasts_later(
    env: Env,
    rank: spec_fn(Port) -> nat,
    before: ReadState,
    after: ReadState,
    port: Port,
    fuel: nat,
)
    requires
        lasts(env, rank, before, port, fuel),
        before.seen.subset_of(after.seen),
    ensures
        lasts(env, rank, after, port, fuel),
{
    lemma_unseen_shrinks(before.seen, after.seen, env.net.size());
}

pub proof fn lemma_read_ends(
    env: Env,
    rank: spec_fn(Port) -> nat,
    st: ReadState,
    next: Port,
    fuel: nat,
)
    requires
        sides_are_aux(env),
        env.dups is Some ==> acyclic(env.net, rank),
        lasts(env, rank, st, next, fuel),
    ensures
        !(read(env, st, next, fuel) is Deeper),
    decreases fuel, 0nat,
{
    let net = env.net;
    if env.dups is None && st.seen.contains(next) {
    } else if net.has_port(next) {
        let seen = st.see(next);
        let f = (fuel - 1) as nat;
        if env.dups is None {
            assert(net.size() == net.nodes.len());
            lemma_unseen_insert(st.seen, next, net.size());
        }
        assert(lasts_after(env, rank, seen, next, f));
        match net.kind(next.0) {
            NodeKind::Ctr(CtrKind::Con(label)) => {
                lemma_con_ends(env, rank, seen, next, label, f);
            },
            NodeKind::Ctr(CtrKind::Tup(label)) => {
                lemma_fan_ends(env, rank, seen, next, FanKind::Tup, label, f);
            },
            NodeKind::Ctr(CtrKind::Dup(label)) => {
                lemma_fan_ends(env, rank, seen, next, FanKind::Dup, Some(label), f);
            },
            NodeKind::Mat => {
                lemma_mat_ends(env, rank, seen, next, f);
            },
            NodeKind::Opr => {
                lemma_opr_ends(env, rank, seen, next, f);
            },
            _ => {},
        }
    }
}

proof fn lemma_two_ends(
    env: Env,
    rank: spec_fn(Port) -> nat,
    st: ReadState,
    fst: Port,
    snd: Port,
    fuel: nat,
)
    requires
        sides_are_aux(env),
        env.dups is Some ==> acyclic(env.net, rank),
        lasts(env, rank, st, fst, fuel),
        lasts(env, rank, st, snd, fuel),
    ensures
        !(read_two(env, st, fst, snd, fuel) is Deeper),
    decreases fuel, 1nat,
{
    lemma_read_ends(env, rank, st, fst, fuel);
    if let Outcome::Done((_, mid)) = read(env, st, fst, fuel) {
        law_read_only_adds(env, st, fst, fuel);
        lemma_lasts_later(env, rank, st, mid, snd, fuel);
        lemma_read_ends(env, rank, mid, snd, fuel);
    }
}

proof fn lemma_con_ends(
    env: Env,
    rank: spec_fn(Port) -> nat,
    st: ReadState,
    next: Port,
    label: Option<u16>,
    fuel: nat,
)
    requires
        env.net.kind(next.0) == NodeKind::Ctr(CtrKind::Con(label)),
        lasts_after(env, rank, st, next, fuel),
    ensures
        !(read_con(env, st, next, label, fuel) is Deeper),
    decreases fuel, 2nat,
{
    let node = next.0;
    let main = env.link(node, 0);
    let aux1 = env.link(node, 1);
    let aux2 = env.link(node, 2);
    if next.1 == 0 {
        assert(leads_to(env.net, next, aux2));
        match tuple_check(env.net, node) {
            Some(true) => {
                assert(leads_to(env.net, next, aux1));
                lemma_two_ends(env, rank, st, aux1, aux2, fuel);
            },
            Some(false) => {
                if let Outcome::Done((_, mid)) = declare(env, st, Port(node, 1)) {
                    lemma_lasts_later(env, rank, st, mid, aux2, fuel);
                    lemma_read_ends(env, rank, mid, aux2, fuel);
                }
            },
            None => {},
        }
    } else if next.1 == 2 {
        assert(leads_to(env.net, next, main));
        assert(leads_to(env.net, next, aux1));
        lemma_two_ends(env, rank, st, main, aux1, fuel);
    }
}

proof fn lemma_mat_ends(
    env: Env,
    rank: spec_fn(Port) -> nat,
    st: ReadState,
    next: Port,
    fuel: nat,
)
    requires
        env.net.kind(next.0) is Mat,
        lasts_after(env, rank, st, next, fuel),
    ensures
        !(read_mat(env, st, next, fuel) is Deeper),
    decreases fuel, 2nat,
{
    let node = next.0;
    let sel = env.link(node, 1).0;
    let main = env.link(node, 0);
    if next.1 == 2 {
        assert(leads_to(env.net, next, main));
        lemma_read_ends(env, rank, st, main, fuel);
        if let Outcome::Done((arg, st1)) = read(env, st, main, fuel) {
            law_read_only_adds(env, st, main, fuel);
            if let Outcome::Done((_, st2)) = bound_name(arg, st1) {
                if env.net.has_node(sel) && is_plain_con(env.net, sel) {
                    let zero = env.link(sel, 1);
                    let succ = env.link(sel, 2);
                    assert(leads_to(env.net, next, zero));
                    assert(leads_to(env.net, next, succ));
                    lemma_lasts_later(env, rank, st, st2, zero, fuel);
                    lemma_lasts_later(env, rank, st, st2, succ, fuel);
                    lemma_two_ends(env, rank, st2, zero, succ, fuel);
                }
            }
        }
    }
}

proof fn lemma_fan_ends(
    env: Env,
    rank: spec_fn(Port) -> nat,
    st: ReadState,
    next: Port,
    fan: FanKind,
    label: Option<u16>,
    fuel: nat,
)
    requires
        fan_of(env.net.kind(next.0)) == Some((fan, label)),
        lasts_after(env, rank, st, next, fuel),
    ensures
        !(read_fan(env, st, next, fan, label, fuel) is Deeper),
    decreases fuel, 3nat,
{
    let node = next.0;
    let main = env.link(node, 0);
    let aux1 = env.link(node, 1);
    let aux2 = env.link(node, 2);
    if next.1 == 0 {
        assert(leads_to(env.net, next, aux1));
        assert(leads_to(env.net, next, aux2));
        if fan == FanKind::Dup && env.last_side(label->0) is Some {
            let left = env.leave_dup(label->0);
            let stack = env.dups->0[label->0];
            let side = stack.last();
            assert(1 <= stack[stack.len() - 1] <= 2);
            assert(sides_are_aux(left)) by {
                assert forall|lab: u16, i: int| 0 <= i < left.dups->0[lab].len() implies 1
                    <= #[trigger] left.dups->0[lab][i] <= 2 by {
                    assert(left.dups->0[lab][i] == env.dups->0[lab][i]);
                }
            }
            lemma_read_ends(left, rank, st, env.link(node, side), fuel);
        } else {
            lemma_decay_ends(env, rank, st, next, fuel);
        }
    } else if next.1 <= 2 {
        if fan == FanKind::Dup && env.dups is Some {
            assert(leads_to(env.net, next, main));
            let entered = env.enter_dup(label->0, next.1);
            assert(sides_are_aux(entered)) by {
                assert forall|lab: u16, i: int| 0 <= i < entered.dups->0[lab].len() implies 1
                    <= #[trigger] entered.dups->0[lab][i] <= 2 by {
                    if i < env.dups->0[lab].len() {
                        assert(entered.dups->0[lab][i] == env.dups->0[lab][i]);
                    }
                }
            }
            lemma_read_ends(entered, rank, st, main, fuel);
        }
    }
}

proof fn lemma_decay_ends(
    env: Env,
    rank: spec_fn(Port) -> nat,
    st: ReadState,
    next: Port,
    fuel: nat,
)
    requires
        fan_of(env.net.kind(next.0)) is Some,
        next.1 == 0,
        lasts_after(env, rank, st, next, fuel),
    ensures
        !(decay(env, st, next.0, fuel) is Deeper),
    decreases fuel, 2nat,
{
    let node = next.0;
    let fst = env.link(node, 1);
    let snd = env.link(node, 2);
    if is_decayed(env.net, node) {
        let whole = env.link(fst.0, 0);
        assert(leads_to(env.net, next, whole));
        lemma_lasts_later(env, rank, st, st.drop_fan(fst.0), whole, fuel);
        lemma_read_ends(env, rank, st.drop_fan(fst.0), whole, fuel);
    } else {
        assert(leads_to(env.net, next, fst));
        assert(leads_to(env.net, next, snd));
        lemma_two_ends(env, rank, st, fst, snd, fuel);
    }
}

proof fn lemma_arg_ends(
    env: Env,
    rank: spec_fn(Port) -> nat,
    st: ReadState,
    next: Port,
    fuel: nat,
)
    requires
        sides_are_aux(env),
        env.dups is Some ==> acyclic(env.net, rank),
        lasts(env, rank, st, next, fuel),
    ensures
        !(read_arg(env, st, next, fuel) is Deeper),
        read_arg(env, st, next, fuel) matches Outcome::Done((_, _, after))
            ==> st.seen.subset_of(after.seen),
    decreases fuel, 1nat,
{
    lemma_read_ends(env, rank, st, next, fuel);
    law_read_only_adds(env, st, next, fuel);
}

proof fn lemma_opr_ends(
    env: Env,
    rank: spec_fn(Port) -> nat,
    st: ReadState,
    next: Port,
    fuel: nat,
)
    requires
        env.net.kind(next.0) is Opr,
        lasts_after(env, rank, st, next, fuel),
    ensures
        !(read_opr(env, st, next, fuel) is Deeper),
    decreases fuel, 3nat,
{
    let node = next.0;
    let main = env.link(node, 0);
    let aux1 = env.link(node, 1);
    if next.1 == 2 && env.net.has_node(main.0) {
        assert(leads_to(env.net, next, main));
        assert(leads_to(env.net, next, aux1));
        if env.net.kind(main.0) is Opr {
            lemma_read_ends(env, rank, st, main, fuel);
            if let Outcome::Done((_, mid)) = read(env, st, main, fuel) {
                law_read_only_adds(env, st, main, fuel);
                lemma_lasts_later(env, rank, st, mid, aux1, fuel);
                lemma_arg_ends(env, rank, mid, aux1, fuel);
            }
        } else {
            lemma_arg_ends(env, rank, st, main, fuel);
            if let Outcome::Done((_, _, mid)) = read_arg(env, st, main, fuel) {
                lemma_lasts_later(env, rank, st, mid, aux1, fuel);
                lemma_arg_ends(env, rank, mid, aux1, fuel);
            }
        }
    }
}

/// A set of nodes that is not empty has a first one.
pub proof fn lemma_first_exists(scope: Set<NodeId>) -> (first: NodeId)
    requires
        scope != Set::<NodeId>::empty(),
    ensures
        is_first(scope, first),
        first == choose|node: NodeId| is_first(scope, node),
{
    assert(exists|node: NodeId| scope.contains(node)) by {
        if forall|node: NodeId| !scope.contains(node) {
            assert(scope =~= Set::empty());
        }
    }
    let some = choose|node: NodeId| scope.contains(node);
    let first = lemma_first_below(scope, some);
    let chosen = choose|node: NodeId| is_first(scope, node);
    assert(is_first(scope, first));
    assert(is_first(scope, chosen));
    first
}

proof fn lemma_first_below(scope: Set<NodeId>, node: NodeId) -> (first: NodeId)
    requires
        scope.contains(node),
    ensures
        is_first(scope, first),
    decreases node,
{
    if exists|other: NodeId| scope.contains(other) && other < node {
        let other = choose|other: NodeId| scope.contains(other) && other < node;
        lemma_first_below(scope, other)
    } else {
        assert forall|other: NodeId| scope.contains(other) implies node <= other by {
            assert(!(scope.contains(other) && other < node));
        }
        node
    }
}

/// Whether the fans of the scope are fans of the net that were met.
pub open spec fn scope_is_met(net: INet, st: ReadState) -> bool {
    &&& st.scope.subset_of(st.seen_fans)
    &&& forall|node: NodeId| #[trigger]
        st.seen_fans.contains(node) ==> net.has_node(node) && fan_of(net.kind(node)) is Some
}

pub proof fn lemma_scope_stays_met(net: INet, before: ReadState, after: ReadState)
    requires
        scope_is_met(net, before),
        follows(net, before, after),
    ensures
        scope_is_met(net, after),
        pending(after, net.size()) <= pending(before, net.size()),
{
    lemma_pending_shrinks(before, after, net.size());
}

/// The fuel that all readbacks of a net can do with, when no walk takes more than `limit` steps.
pub open spec fn enough_fuel(net: INet, linear: bool, limit: nat) -> nat {
    if linear {
        4 * net.size() + 1
    } else {
        limit + net.size() + 1
    }
}

proof fn lemma_splits_end(
    env: Env,
    rank: spec_fn(Port) -> nat,
    limit: nat,
    st: ReadState,
    term: TermModel,
    fuel: nat,
)
    requires
        sides_are_aux(env),
        env.dups is Some ==> acyclic(env.net, rank) && forall|port: Port| #[trigger]
            rank(port) <= limit,
        scope_is_met(env.net, st),
        env.dups is None ==> fuel >= pending(st, env.net.size()) + unseen(
            st.seen,
            env.net.size(),
        ) + 1,
        env.dups is Some ==> fuel >= pending(st, env.net.size()) + limit + 1,
    ensures
        !(insert_splits(env, st, term, fuel) is Deeper),
    decreases fuel,
{
    let net = env.net;
    if st.scope != Set::<NodeId>::empty() {
        let node = lemma_first_exists(st.scope);
        let dropped = st.drop_fan(node);
        assert(net.size() == net.nodes.len());
        lemma_pending_drop(st, node, net.size());
        assert(lasts(env, rank, dropped, env.link(node, 0), fuel));
        lemma_read_ends(env, rank, dropped, env.link(node, 0), fuel);
        lemma_split_follows(env, dropped, node, fuel);
        if let Outcome::Done((split, after)) = read_split(env, dropped, node, fuel) {
            lemma_scope_stays_met(net, dropped, after);
            lemma_unseen_shrinks(dropped.seen, after.seen, net.size());
            if uses(term, split) < usize::MAX {
                lemma_splits_end(
                    env,
                    rank,
                    limit,
                    after,
                    place(term, split, uses(term, split)),
                    (fuel - 1) as nat,
                );
            }
        }
    }
}

proof fn lemma_readback_ends(
    net: INet,
    labels: Labels,
    linear: bool,
    rank: spec_fn(Port) -> nat,
    limit: nat,
    fuel: nat,
)
    requires
        !linear ==> acyclic(net, rank) && forall|port: Port| #[trigger] rank(port) <= limit,
        fuel >= enough_fuel(net, linear, limit),
    ensures
        !(readback(net, labels, linear, fuel) is Deeper),
{
    let env = start(net, labels, linear);
    let st = ReadState::empty();
    if net.has_node(0) {
        let next = env.link(0, 1);
        lemma_unseen_all(net.size());
        lemma_read_ends(env, rank, st, next, fuel);
        law_read_only_adds(env, st, next, fuel);
        if let Outcome::Done((term, after)) = read(env, st, next, fuel) {
            lemma_scope_stays_met(net, st, after);
            lemma_pending_at_most(st, net.size());
            lemma_unseen_shrinks(st.seen, after.seen, net.size());
            lemma_splits_end(env, rank, limit, after, term, fuel);
        }
    }
}

/// The readback of a linear net ends, whatever the net is: cycles are cut.
pub proof fn law_linear_readback_ends(net: INet, labels: Labels, fuel: nat)
    requires
        fuel >= enough_fuel(net, true, 0),
    ensures
        !(readback(net, labels, true, fuel) is Deeper),
{
    lemma_readback_ends(net, labels, true, |port: Port| 0nat, 0, fuel);
}

/// The readback of a net without cycles ends, also when it is not linear.
pub proof fn law_acyclic_readback_ends(
    net: INet,
    labels: Labels,
    rank: spec_fn(Port) -> nat,
    limit: nat,
    fuel: nat,
)
    requires
        acyclic(net, rank),
        forall|port: Port| #[trigger] rank(port) <= limit,
        fuel >= enough_fuel(net, false, limit),
    ensures
        !(readback(net, labels, false, fuel) is Deeper),
{
    lemma_readback_ends(net, labels, false, rank, limit, fuel);
}

} // verus!
