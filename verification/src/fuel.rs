//! The meaning of a net does not depend on the fuel: where a walk ends, more fuel does not
//! change what it gives.
use crate::labels::Labels;
use crate::model::{
    bound_name, decay, declare, insert_splits, is_decayed, is_first, is_plain_con, read, read_arg,
    read_con, read_fan, read_first_half, read_mat, read_opr, read_second_half, read_split,
    read_two, readback, start, Env, Outcome, ReadState,
};
use crate::net::{CtrKind, INet, NodeId, NodeKind, Port};
use crate::split::{place, uses};
use crate::term::{FanKind, TermModel};
use crate::tuple::tuple_check;
use vstd::prelude::*;

verus! {

pub proof fn lemma_read_more(env: Env, st: ReadState, next: Port, fuel: nat, more: nat)
    requires
        fuel <= more,
        !(read(env, st, next, fuel) is Deeper),
    ensures
        read(env, st, next, more) == read(env, st, next, fuel),
    decreases fuel, 0nat,
{
    let seen = st.see(next);
    if env.dups is None && st.seen.contains(next) {
    } else if env.net.has_node(next.0) {
        let f = (fuel - 1) as nat;
        let m = (more - 1) as nat;
        match env.net.kind(next.0) {
            NodeKind::Ctr(CtrKind::Con(label)) => {
                lemma_con_more(env, seen, next, label, f, m);
            },
            NodeKind::Ctr(CtrKind::Tup(label)) => {
                lemma_fan_more(env, seen, next, FanKind::Tup, label, f, m);
            },
            NodeKind::Ctr(CtrKind::Dup(label)) => {
                lemma_fan_more(env, seen, next, FanKind::Dup, Some(label), f, m);
            },
            NodeKind::Mat => {
                lemma_mat_more(env, seen, next, f, m);
            },
            NodeKind::Opr => {
                lemma_opr_more(env, seen, next, f, m);
            },
            _ => {},
        }
    }
}

proof fn lemma_two_more(env: Env, st: ReadState, fst: Port, snd: Port, fuel: nat, more: nat)
    requires
        fuel <= more,
        !(read_two(env, st, fst, snd, fuel) is Deeper),
    ensures
        read_two(env, st, fst, snd, more) == read_two(env, st, fst, snd, fuel),
    decreases fuel, 1nat,
{
    lemma_read_more(env, st, fst, fuel, more);
    if let Outcome::Done((_, st)) = read(env, st, fst, fuel) {
        lemma_read_more(env, st, snd, fuel, more);
    }
}

proof fn lemma_con_more(
    env: Env,
    st: ReadState,
    next: Port,
    label: Option<u16>,
    fuel: nat,
    more: nat,
)
    requires
        fuel <= more,
        !(read_con(env, st, next, label, fuel) is Deeper),
    ensures
        read_con(env, st, next, label, more) == read_con(env, st, next, label, fuel),
    decreases fuel, 2nat,
{
    let node = next.0;
    if next.1 == 0 {
        match tuple_check(env.net, node) {
            Some(true) => {
                lemma_two_more(env, st, env.link(node, 1), env.link(node, 2), fuel, more);
            },
            Some(false) => {
                if let Outcome::Done((_, st)) = declare(env, st, Port(node, 1)) {
                    lemma_read_more(env, st, env.link(node, 2), fuel, more);
                }
            },
            None => {},
        }
    } else if next.1 == 2 {
        lemma_two_more(env, st, env.link(node, 0), env.link(node, 1), fuel, more);
    }
}

proof fn lemma_mat_more(env: Env, st: ReadState, next: Port, fuel: nat, more: nat)
    requires
        fuel <= more,
        !(read_mat(env, st, next, fuel) is Deeper),
    ensures
        read_mat(env, st, next, more) == read_mat(env, st, next, fuel),
    decreases fuel, 2nat,
{
    let node = next.0;
    let sel = env.link(node, 1).0;
    if next.1 == 2 {
        lemma_read_more(env, st, env.link(node, 0), fuel, more);
        if let Outcome::Done((arg, st)) = read(env, st, env.link(node, 0), fuel) {
            if let Outcome::Done((_, st)) = bound_name(arg, st) {
                if env.net.has_node(sel) && is_plain_con(env.net, sel) {
                    lemma_two_more(env, st, env.link(sel, 1), env.link(sel, 2), fuel, more);
                }
            }
        }
    }
}

proof fn lemma_decay_more(env: Env, st: ReadState, node: NodeId, fuel: nat, more: nat)
    requires
        fuel <= more,
        !(decay(env, st, node, fuel) is Deeper),
    ensures
        decay(env, st, node, more) == decay(env, st, node, fuel),
    decreases fuel, 2nat,
{
    let fst = env.link(node, 1);
    let snd = env.link(node, 2);
    if env.net.kind(node) is Ctr && fst.1 == 1 && snd.1 == 2 && fst.0 == snd.0
        && !env.net.has_node(fst.0) {
    } else if is_decayed(env.net, node) {
        lemma_read_more(env, st.drop_fan(fst.0), env.link(fst.0, 0), fuel, more);
    } else {
        lemma_two_more(env, st, fst, snd, fuel, more);
    }
}

proof fn lemma_fan_more(
    env: Env,
    st: ReadState,
    next: Port,
    fan: FanKind,
    label: Option<u16>,
    fuel: nat,
    more: nat,
)
    requires
        fuel <= more,
        !(read_fan(env, st, next, fan, label, fuel) is Deeper),
    ensures
        read_fan(env, st, next, fan, label, more) == read_fan(env, st, next, fan, label, fuel),
    decreases fuel, 3nat,
{
    let node = next.0;
    if next.1 == 0 {
        if fan == FanKind::Dup && env.last_side(label->0) is Some {
            let side = env.last_side(label->0)->0;
            if side <= 2 {
                lemma_read_more(env.leave_dup(label->0), st, env.link(node, side), fuel, more);
            }
        } else {
            lemma_decay_more(env, st, node, fuel, more);
        }
    } else if next.1 <= 2 {
        if fan == FanKind::Dup && env.dups is Some {
            lemma_read_more(
                env.enter_dup(label->0, next.1),
                st,
                env.link(node, 0),
                fuel,
                more,
            );
        }
    }
}

proof fn lemma_arg_more(env: Env, st: ReadState, next: Port, fuel: nat, more: nat)
    requires
        fuel <= more,
        !(read_arg(env, st, next, fuel) is Deeper),
    ensures
        read_arg(env, st, next, more) == read_arg(env, st, next, fuel),
    decreases fuel, 1nat,
{
    if env.net.has_node(next.0) && !(env.net.kind(next.0) is Num) {
        lemma_read_more(env, st, next, fuel, more);
    }
}

proof fn lemma_second_half_more(env: Env, st: ReadState, node: NodeId, fuel: nat, more: nat)
    requires
        fuel <= more,
        !(read_second_half(env, st, node, fuel) is Deeper),
    ensures
        read_second_half(env, st, node, more) == read_second_half(env, st, node, fuel),
    decreases fuel, 2nat,
{
    lemma_read_more(env, st, env.link(node, 0), fuel, more);
    if let Outcome::Done((TermModel::Oper { .. }, st)) = read(env, st, env.link(node, 0), fuel) {
        lemma_arg_more(env, st, env.link(node, 1), fuel, more);
    }
}

proof fn lemma_first_half_more(env: Env, st: ReadState, node: NodeId, fuel: nat, more: nat)
    requires
        fuel <= more,
        !(read_first_half(env, st, node, fuel) is Deeper),
    ensures
        read_first_half(env, st, node, more) == read_first_half(env, st, node, fuel),
    decreases fuel, 2nat,
{
    lemma_arg_more(env, st, env.link(node, 0), fuel, more);
    if let Outcome::Done((_, _, st)) = read_arg(env, st, env.link(node, 0), fuel) {
        lemma_arg_more(env, st, env.link(node, 1), fuel, more);
    }
}

proof fn lemma_opr_more(env: Env, st: ReadState, next: Port, fuel: nat, more: nat)
    requires
        fuel <= more,
        !(read_opr(env, st, next, fuel) is Deeper),
    ensures
        read_opr(env, st, next, more) == read_opr(env, st, next, fuel),
    decreases fuel, 3nat,
{
    let node = next.0;
    if next.1 == 2 && env.net.has_node(env.link(node, 0).0) {
        if env.net.kind(env.link(node, 0).0) is Opr {
            lemma_second_half_more(env, st, node, fuel, more);
        } else {
            lemma_first_half_more(env, st, node, fuel, more);
        }
    }
}

proof fn lemma_split_more(env: Env, st: ReadState, node: NodeId, fuel: nat, more: nat)
    requires
        fuel <= more,
        !(read_split(env, st, node, fuel) is Deeper),
    ensures
        read_split(env, st, node, more) == read_split(env, st, node, fuel),
{
    if env.net.has_node(node) {
        lemma_read_more(env, st, env.link(node, 0), fuel, more);
    }
}

proof fn lemma_splits_more(env: Env, st: ReadState, term: TermModel, fuel: nat, more: nat)
    requires
        fuel <= more,
        !(insert_splits(env, st, term, fuel) is Deeper),
    ensures
        insert_splits(env, st, term, more) == insert_splits(env, st, term, fuel),
    decreases fuel,
{
    if st.scope != Set::<NodeId>::empty() {
        let node = choose|node: NodeId| is_first(st.scope, node);
        let dropped = st.drop_fan(node);
        lemma_split_more(env, dropped, node, fuel, more);
        if let Outcome::Done((split, st)) = read_split(env, dropped, node, fuel) {
            if uses(term, split) < usize::MAX {
                lemma_splits_more(
                    env,
                    st,
                    place(term, split, uses(term, split)),
                    (fuel - 1) as nat,
                    (more - 1) as nat,
                );
            }
        }
    }
}

/// Where a readback ends, more fuel does not change what it gives.
pub proof fn law_readback_ignores_fuel(
    net: INet,
    labels: Labels,
    linear: bool,
    fuel: nat,
    more: nat,
)
    requires
        fuel <= more,
        !(readback(net, labels, linear, fuel) is Deeper),
    ensures
        readback(net, labels, linear, more) == readback(net, labels, linear, fuel),
{
    let env = start(net, labels, linear);
    if net.has_node(0) {
        lemma_read_more(env, ReadState::empty(), env.link(0, 1), fuel, more);
        if let Outcome::Done((term, st)) = read(
            env,
            ReadState::empty(),
            env.link(0, 1),
            fuel,
        ) {
            lemma_splits_more(env, st, term, fuel, more);
        }
    }
}

} // verus!
