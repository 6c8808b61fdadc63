//! What a walk keeps: how the state after a port was read follows from the state before.
use crate::model::{
    bound_name, decay, declare, fan_of, insert_splits, is_decayed, is_first, is_plain_con,
    number_term, operands, pred_arm, read, read_arg, read_con, read_fan, read_first_half, read_mat,
    read_opr, read_second_half, read_split, read_two, second_operand, switch_on, Env, NumArgModel,
    Outcome, ReadState,
};
use crate::name::{law_letters_injective, pred_name};
use crate::namegen::law_names_are_unique;
use crate::net::{CtrKind, INet, NodeId, NodeKind, Port};
use crate::scope::lemma_rename_complete;
use crate::split::{lemma_place_complete, place, uses};
use crate::term::{all_complete, complete, FanKind, PatternModel, TermModel};
use crate::tuple::tuple_check;
use vstd::prelude::*;

verus! {

/// Whether a state can follow another one. Nothing that was met is forgotten: ports and fans that
/// were seen stay so, errors are only added, and variables keep their names, which stay
/// different. What enters the scope are fans that were not seen before.
pub open spec fn follows(net: INet, before: ReadState, after: ReadState) -> bool {
    &&& before.seen.subset_of(after.seen)
    &&& before.seen_fans.subset_of(after.seen_fans)
    &&& before.errors.len() <= after.errors.len()
    &&& before.errors =~= after.errors.take(before.errors.len() as int)
    &&& before.names.ids.submap_of(after.names.ids)
    &&& before.names.next <= after.names.next
    &&& before.names.consistent() ==> after.names.consistent()
    &&& forall|node: NodeId| #[trigger]
        after.scope.contains(node) ==> before.scope.contains(node) || (after.seen_fans.contains(
            node,
        ) && !before.seen_fans.contains(node))
    &&& forall|node: NodeId| #[trigger]
        after.seen_fans.contains(node) ==> before.seen_fans.contains(node) || (net.has_node(node)
            && fan_of(net.kind(node)) is Some)
}

pub proof fn lemma_follows_trans(net: INet, a: ReadState, b: ReadState, c: ReadState)
    requires
        follows(net, a, b),
        follows(net, b, c),
    ensures
        follows(net, a, c),
{
    assert(a.errors =~= c.errors.take(a.errors.len() as int)) by {
        assert(b.errors.take(a.errors.len() as int) =~= c.errors.take(b.errors.len() as int).take(
            a.errors.len() as int,
        ));
    }
    vstd::map_lib::lemma_submap_of_trans(a.names.ids, b.names.ids, c.names.ids);
    assert forall|node: NodeId| #[trigger] c.scope.contains(node) implies a.scope.contains(node)
        || (c.seen_fans.contains(node) && !a.seen_fans.contains(node)) by {
        if b.scope.contains(node) {
            assert(a.scope.contains(node) || b.seen_fans.contains(node));
        }
    }
    assert forall|node: NodeId| #[trigger] c.seen_fans.contains(node) implies a.seen_fans.contains(
        node,
    ) || (net.has_node(node) && fan_of(net.kind(node)) is Some) by {
        if b.seen_fans.contains(node) {
        }
    }
}

/// The single steps of a walk.
proof fn lemma_steps(net: INet, st: ReadState, port: Port)
    ensures
        follows(net, st, st),
        follows(net, st, st.see(port)),
        follows(net, st, st.drop_fan(port.0)),
        st.names.can_name(port) ==> follows(net, st, st.name(port)),
        st.names.next < u64::MAX ==> follows(net, st, st.name_unique()),
        forall|error| follows(net, st, #[trigger] st.fail(error)),
        net.has_node(port.0) && fan_of(net.kind(port.0)) is Some ==> follows(
            net,
            st,
            st.meet_fan(port.0),
        ),
{
    if st.names.consistent() && st.names.can_name(port) {
        law_names_are_unique(st.names, port, port, port);
    }
}

proof fn lemma_declare_follows(env: Env, st: ReadState, port: Port)
    ensures
        declare(env, st, port) matches Outcome::Done((_, after)) ==> follows(env.net, st, after),
{
    lemma_steps(env.net, st, port);
}

/// Reading a port only adds to what was met: the state after it follows from the one before, and
/// the port was entered. And every switch of the term that it gives has its two arms.
pub proof fn law_read_only_adds(env: Env, st: ReadState, next: Port, fuel: nat)
    ensures
        read(env, st, next, fuel) matches Outcome::Done((term, after)) ==> {
            &&& complete(term)
            &&& follows(env.net, st, after)
            &&& after.seen.contains(next)
        },
    decreases fuel, 0nat,
{
    let net = env.net;
    lemma_steps(net, st, next);
    if fuel == 0 {
    } else if env.dups is None && st.seen.contains(next) {
    } else if net.has_node(next.0) {
        let seen = st.see(next);
        lemma_steps(net, seen, next);
        let f = (fuel - 1) as nat;
        match net.kind(next.0) {
            NodeKind::Ctr(CtrKind::Con(label)) => {
                lemma_con_follows(env, seen, next, label, f);
            },
            NodeKind::Ctr(CtrKind::Tup(label)) => {
                lemma_fan_follows(env, seen, next, FanKind::Tup, label, f);
            },
            NodeKind::Ctr(CtrKind::Dup(label)) => {
                lemma_fan_follows(env, seen, next, FanKind::Dup, Some(label), f);
            },
            NodeKind::Mat => {
                lemma_mat_follows(env, seen, next, f);
            },
            NodeKind::Num { val } => {
                lemma_number_complete(val);
            },
            NodeKind::Opr => {
                lemma_opr_follows(env, seen, next, f);
            },
            _ => {},
        }
        if let Outcome::Done((_, after)) = read(env, st, next, fuel) {
            lemma_follows_trans(net, st, seen, after);
        }
    }
}

proof fn lemma_number_complete(word: u32)
    ensures
        number_term(word) matches Some(term) ==> complete(term),
{
    reveal_with_fuel(complete, 2);
}

proof fn lemma_two_follows(env: Env, st: ReadState, fst: Port, snd: Port, fuel: nat)
    ensures
        read_two(env, st, fst, snd, fuel) matches Outcome::Done((a, b, after)) ==> complete(a)
            && complete(b) && follows(env.net, st, after),
    decreases fuel, 1nat,
{
    law_read_only_adds(env, st, fst, fuel);
    if let Outcome::Done((_, mid)) = read(env, st, fst, fuel) {
        law_read_only_adds(env, mid, snd, fuel);
        if let Outcome::Done((_, after)) = read(env, mid, snd, fuel) {
            lemma_follows_trans(env.net, st, mid, after);
        }
    }
}

proof fn lemma_con_follows(
    env: Env,
    st: ReadState,
    next: Port,
    label: Option<u16>,
    fuel: nat,
)
    ensures
        read_con(env, st, next, label, fuel) matches Outcome::Done((term, after)) ==> complete(
            term,
        ) && follows(env.net, st, after),
    decreases fuel, 2nat,
{
    let node = next.0;
    lemma_steps(env.net, st, next);
    if next.1 == 0 {
        match tuple_check(env.net, node) {
            Some(true) => {
                lemma_two_follows(env, st, env.link(node, 1), env.link(node, 2), fuel);
                if let Outcome::Done((a, b, _)) = read_two(
                    env,
                    st,
                    env.link(node, 1),
                    env.link(node, 2),
                    fuel,
                ) {
                    assert(all_complete(seq![a, b]));
                }
            },
            Some(false) => {
                lemma_declare_follows(env, st, Port(node, 1));
                if let Outcome::Done((_, mid)) = declare(env, st, Port(node, 1)) {
                    law_read_only_adds(env, mid, env.link(node, 2), fuel);
                    if let Outcome::Done((_, after)) = read(env, mid, env.link(node, 2), fuel) {
                        lemma_follows_trans(env.net, st, mid, after);
                    }
                }
            },
            None => {},
        }
    } else if next.1 == 2 {
        lemma_two_follows(env, st, env.link(node, 0), env.link(node, 1), fuel);
    }
}

proof fn lemma_mat_follows(env: Env, st: ReadState, next: Port, fuel: nat)
    ensures
        read_mat(env, st, next, fuel) matches Outcome::Done((term, after)) ==> complete(term)
            && follows(env.net, st, after),
    decreases fuel, 2nat,
{
    let node = next.0;
    let net = env.net;
    let sel = env.link(node, 1).0;
    lemma_steps(net, st, next);
    if next.1 == 2 {
        law_read_only_adds(env, st, env.link(node, 0), fuel);
        if let Outcome::Done((arg, st1)) = read(env, st, env.link(node, 0), fuel) {
            lemma_steps(net, st1, next);
            if let Outcome::Done((bnd, st2)) = bound_name(arg, st1) {
                lemma_follows_trans(net, st, st1, st2);
                lemma_steps(net, st2, next);
                if net.has_node(sel) && is_plain_con(net, sel) {
                    let ports = (env.link(sel, 1), env.link(sel, 2));
                    lemma_two_follows(env, st2, ports.0, ports.1, fuel);
                    if let Outcome::Done((zero, succ, st3)) = read_two(
                        env,
                        st2,
                        ports.0,
                        ports.1,
                        fuel,
                    ) {
                        lemma_follows_trans(net, st, st2, st3);
                        let (arm, st4) = pred_arm(succ, bnd, st3);
                        lemma_steps(net, st3, next);
                        lemma_follows_trans(net, st, st3, st4);
                        if let TermModel::Lam { pat: PatternModel::Var(Some(nam)), bod, .. } = succ {
                            lemma_rename_complete(*bod, nam, pred_name(bnd));
                        }
                        lemma_switch_complete(arg, bnd, zero, arm);
                    }
                } else if net.has_node(sel) {
                    assert(complete(TermModel::Error));
                    lemma_switch_complete(arg, bnd, TermModel::Error, TermModel::Error);
                    let failed = st2.fail(crate::error::ReadbackError::InvalidNumericMatch);
                    lemma_follows_trans(net, st, st2, failed);
                }
            }
        }
    }
}

proof fn lemma_switch_complete(arg: TermModel, bnd: Seq<char>, zero: TermModel, succ: TermModel)
    requires
        complete(arg),
        complete(zero),
        complete(succ),
    ensures
        complete(switch_on(arg, bnd, zero, succ)),
{
    assert(all_complete(seq![zero, succ]));
}

proof fn lemma_decay_follows(env: Env, st: ReadState, node: NodeId, fuel: nat)
    ensures
        decay(env, st, node, fuel) matches Outcome::Done((Ok(term), after)) ==> complete(term)
            && follows(env.net, st, after),
        decay(env, st, node, fuel) matches Outcome::Done((Err((a, b)), after)) ==> complete(a)
            && complete(b) && follows(env.net, st, after),
    decreases fuel, 2nat,
{
    let fst = env.link(node, 1);
    let snd = env.link(node, 2);
    if is_decayed(env.net, node) {
        lemma_steps(env.net, st, fst);
        let dropped = st.drop_fan(fst.0);
        law_read_only_adds(env, dropped, env.link(fst.0, 0), fuel);
        if let Outcome::Done((_, after)) = read(env, dropped, env.link(fst.0, 0), fuel) {
            lemma_follows_trans(env.net, st, dropped, after);
        }
    } else {
        lemma_two_follows(env, st, fst, snd, fuel);
    }
}

proof fn lemma_fan_follows(
    env: Env,
    st: ReadState,
    next: Port,
    fan: FanKind,
    label: Option<u16>,
    fuel: nat,
)
    requires
        env.net.has_node(next.0),
        fan_of(env.net.kind(next.0)) is Some,
    ensures
        read_fan(env, st, next, fan, label, fuel) matches Outcome::Done((term, after))
            ==> complete(term) && follows(env.net, st, after),
    decreases fuel, 3nat,
{
    let node = next.0;
    if next.1 == 0 {
        if fan == FanKind::Dup && env.last_side(label->0) is Some {
            let side = env.last_side(label->0)->0;
            if side <= 2 {
                law_read_only_adds(env.leave_dup(label->0), st, env.link(node, side), fuel);
            }
        } else {
            lemma_decay_follows(env, st, node, fuel);
            if let Outcome::Done((Err((a, b)), _)) = decay(env, st, node, fuel) {
                assert(all_complete(seq![a, b]));
            }
        }
    } else if next.1 <= 2 {
        if fan == FanKind::Dup && env.dups is Some {
            law_read_only_adds(env.enter_dup(label->0, next.1), st, env.link(node, 0), fuel);
        } else {
            let met = st.meet_fan(node);
            lemma_steps(env.net, st, next);
            lemma_steps(env.net, met, next);
            if met.names.can_name(next) {
                lemma_follows_trans(env.net, st, met, met.name(next));
            }
        }
    }
}

/// Whether every switch in the argument of an operation has its two arms.
spec fn arg_complete(arg: NumArgModel) -> bool {
    arg matches NumArgModel::Oth(term) ==> complete(term)
}

proof fn lemma_arg_follows(env: Env, st: ReadState, next: Port, fuel: nat)
    ensures
        read_arg(env, st, next, fuel) matches Outcome::Done((_, arg, after)) ==> arg_complete(arg)
            && follows(env.net, st, after),
    decreases fuel, 1nat,
{
    lemma_steps(env.net, st, next);
    if env.net.has_node(next.0) && !(env.net.kind(next.0) is Num) {
        law_read_only_adds(env, st, next, fuel);
    }
}

proof fn lemma_second_half_follows(env: Env, st: ReadState, node: NodeId, fuel: nat)
    ensures
        read_second_half(env, st, node, fuel) matches Outcome::Done((term, after)) ==> complete(
            term,
        ) && follows(env.net, st, after),
    decreases fuel, 2nat,
{
    let net = env.net;
    let port = env.link(node, 0);
    law_read_only_adds(env, st, port, fuel);
    if let Outcome::Done((first, st1)) = read(env, st, port, fuel) {
        lemma_steps(net, st1, port);
        let failed = st1.fail(crate::error::ReadbackError::InvalidNumericOp);
        lemma_follows_trans(net, st, st1, failed);
        if let TermModel::Oper { opr, fst, .. } = first {
            lemma_arg_follows(env, st1, env.link(node, 1), fuel);
            if let Outcome::Done((_, arg, st2)) = read_arg(env, st1, env.link(node, 1), fuel) {
                lemma_follows_trans(net, st, st1, st2);
                lemma_steps(net, st2, port);
                let (snd, st3) = second_operand(arg, st2);
                lemma_follows_trans(net, st, st2, st3);
                assert(complete(*fst));
                assert(complete(snd));
            }
        }
    }
}

proof fn lemma_operands_complete(fst: NumArgModel, snd: NumArgModel)
    requires
        arg_complete(fst),
        arg_complete(snd),
    ensures
        operands(fst, snd) matches Some(term) ==> complete(term),
{
    reveal_with_fuel(complete, 2);
}

proof fn lemma_first_half_follows(env: Env, st: ReadState, node: NodeId, fuel: nat)
    ensures
        read_first_half(env, st, node, fuel) matches Outcome::Done((term, after)) ==> complete(
            term,
        ) && follows(env.net, st, after),
    decreases fuel, 2nat,
{
    let net = env.net;
    let port = env.link(node, 0);
    lemma_arg_follows(env, st, port, fuel);
    if let Outcome::Done((flip0, arg0, st1)) = read_arg(env, st, port, fuel) {
        lemma_arg_follows(env, st1, env.link(node, 1), fuel);
        if let Outcome::Done((flip1, arg1, st2)) = read_arg(env, st1, env.link(node, 1), fuel) {
            lemma_follows_trans(net, st, st1, st2);
            lemma_steps(net, st2, port);
            let failed = st2.fail(crate::error::ReadbackError::InvalidNumericOp);
            lemma_follows_trans(net, st, st2, failed);
            lemma_operands_complete(arg0, arg1);
            lemma_operands_complete(arg1, arg0);
        }
    }
}

proof fn lemma_opr_follows(env: Env, st: ReadState, next: Port, fuel: nat)
    ensures
        read_opr(env, st, next, fuel) matches Outcome::Done((term, after)) ==> complete(term)
            && follows(env.net, st, after),
    decreases fuel, 3nat,
{
    let node = next.0;
    lemma_steps(env.net, st, next);
    if next.1 == 2 && env.net.has_node(env.link(node, 0).0) {
        if env.net.kind(env.link(node, 0).0) is Opr {
            lemma_second_half_follows(env, st, node, fuel);
        } else {
            lemma_first_half_follows(env, st, node, fuel);
        }
    }
}

pub proof fn lemma_split_follows(env: Env, st: ReadState, node: NodeId, fuel: nat)
    ensures
        read_split(env, st, node, fuel) matches Outcome::Done((split, after)) ==> complete(split.val)
            && follows(env.net, st, after),
{
    if env.net.has_node(node) {
        law_read_only_adds(env, st, env.link(node, 0), fuel);
        if let Outcome::Done((_, st1)) = read(env, st, env.link(node, 0), fuel) {
            lemma_declare_follows(env, st1, Port(node, 1));
            if let Outcome::Done((_, st2)) = declare(env, st1, Port(node, 1)) {
                lemma_declare_follows(env, st2, Port(node, 2));
                lemma_follows_trans(env.net, st, st1, st2);
                if let Outcome::Done((_, st3)) = declare(env, st2, Port(node, 2)) {
                    lemma_follows_trans(env.net, st, st2, st3);
                }
            }
        }
    }
}

pub proof fn lemma_splits_follow(env: Env, st: ReadState, term: TermModel, fuel: nat)
    requires
        complete(term),
    ensures
        insert_splits(env, st, term, fuel) matches Outcome::Done((term, after)) ==> complete(term)
            && follows(env.net, st, after),
    decreases fuel,
{
    lemma_steps(env.net, st, Port(0, 0));
    if st.scope != Set::<NodeId>::empty() && fuel > 0 {
        let node = choose|node: NodeId| is_first(st.scope, node);
        let dropped = st.drop_fan(node);
        lemma_steps(env.net, st, Port(node, 0));
        lemma_split_follows(env, dropped, node, fuel);
        if let Outcome::Done((split, mid)) = read_split(env, dropped, node, fuel) {
            lemma_follows_trans(env.net, st, dropped, mid);
            if uses(term, split) < usize::MAX {
                let placed = place(term, split, uses(term, split));
                lemma_place_complete(term, split, uses(term, split));
                lemma_splits_follow(env, mid, placed, (fuel - 1) as nat);
                if let Outcome::Done((_, after)) = insert_splits(
                    env,
                    mid,
                    placed,
                    (fuel - 1) as nat,
                ) {
                    lemma_follows_trans(env.net, st, mid, after);
                }
            }
        }
    }
}

/// A fan that left the scope does not come back into it: its split is inserted once.
pub proof fn law_fan_is_split_once(
    env: Env,
    st: ReadState,
    next: Port,
    fuel: nat,
    node: NodeId,
)
    requires
        st.seen_fans.contains(node),
        !st.scope.contains(node),
    ensures
        read(env, st, next, fuel) matches Outcome::Done((_, after)) ==> {
            after.seen_fans.contains(node) && !after.scope.contains(node)
        },
{
    law_read_only_adds(env, st, next, fuel);
}

/// Different variables have different names, and keep them while a port is read.
pub proof fn law_variables_have_different_names(
    env: Env,
    st: ReadState,
    next: Port,
    fuel: nat,
    a: Port,
    b: Port,
)
    requires
        st.names.consistent(),
    ensures
        read(env, st, next, fuel) matches Outcome::Done((_, after)) ==> {
            &&& after.names.consistent()
            &&& st.names.ids.contains_key(a) ==> after.names.ids.contains_key(a)
                && after.names.name_of(a) == st.names.name_of(a)
            &&& after.names.ids.contains_key(a) && after.names.ids.contains_key(b) && a != b
                ==> after.names.name_of(a) != after.names.name_of(b)
        },
{
    law_read_only_adds(env, st, next, fuel);
    if let Outcome::Done((_, after)) = read(env, st, next, fuel) {
        if st.names.ids.contains_key(a) {
            assert(st.names.ids.dom().contains(a));
            assert(after.names.ids.dom().contains(a));
        }
        if after.names.ids.contains_key(a) && after.names.ids.contains_key(b) {
            law_letters_injective(after.names.ids[a] as nat, after.names.ids[b] as nat);
        }
    }
}

} // verus!
