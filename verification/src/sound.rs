//! Nets that have a meaning.
use crate::count::{
    lemma_pending_at_most, lemma_pending_drop, lemma_place_vars, lemma_rename_vars,
    lemma_unseen_all, lemma_unseen_insert, lemma_unseen_shrinks, lemma_uses_are_vars,
    lemma_vars_of_two, pending, unseen, vars,
};
use crate::ending::{
    acyclic, enough_fuel, lemma_first_exists, lemma_read_ends, lemma_scope_stays_met,
    law_acyclic_readback_ends, law_linear_readback_ends, scope_is_met, sides_are_aux,
};
use crate::follow::{law_read_only_adds, lemma_split_follows};
use crate::fuel::lemma_read_more;
use crate::labels::Labels;
use crate::model::{
    are_operands, bound_name, declare, fan_of, insert_splits, is_decayed, is_plain_con, number_term,
    operands, pred_arm, read, read_arg, read_con, read_fan, read_mat, read_opr, read_split,
    read_two, readable, readback, second_operand, start, Env, NumArgModel, Outcome, ReadState,
};
use crate::name::pred_name;
use crate::net::{CtrKind, INet, NodeId, NodeKind, Port};
use crate::num::{word_payload, word_tag};
use crate::split::{place, uses};
use crate::term::{FanKind, PatternModel, TermModel};
use crate::tuple::{is_reached, law_every_search_ends, tuple_check};
use vstd::prelude::*;

verus! {

/// Whether a port can be entered: it belongs to the net, and of an erasure only the main port
/// exists.
pub open spec fn enterable(net: INet, port: Port) -> bool {
    net.has_port(port) && (net.kind(port.0) is Era ==> port.1 == 0)
}

/// Whether a net is well formed: its first node is the root, all links stay in the net and lead
/// to ports that can be entered, a number that stands for an operator stands for one that there
/// is, and the search for the leaves of a constructor comes to an end.
pub open spec fn well_formed(net: INet) -> bool {
    &&& net.has_node(0)
    &&& net.kind(0) is Rot
    &&& forall|port: Port|
        net.has_port(port) && !(net.kind(port.0) is Era) ==> enterable(
            net,
            #[trigger] net.link_of(port),
        )
    &&& forall|node: NodeId|
        net.has_node(node) ==> (#[trigger] net.kind(node) matches NodeKind::Num { val }
            ==> word_tag(val) == 0 ==> word_payload(val) % 16 >= 4)
    &&& forall|node: NodeId| net.has_node(node) ==> #[trigger] tuple_check(net, node) is Some
}

/// A net whose links go both ways is well formed when its first node is the root, of the erasures
/// only the main ports are linked to other nodes, its operators are ones that there are, and no
/// way down from the first auxiliary port of a constructor leads back to it.
pub proof fn law_symmetric_net_is_well_formed(net: INet)
    requires
        net.symmetric(),
        net.has_node(0),
        net.kind(0) is Rot,
        forall|port: Port|
            #![trigger net.link_of(port)]
            net.has_port(port) && net.kind(port.0) is Era && port.1 != 0 ==> net.kind(
                net.link_of(port).0,
            ) is Era,
        forall|node: NodeId|
            net.has_node(node) ==> (#[trigger] net.kind(node) matches NodeKind::Num { val }
                ==> word_tag(val) == 0 ==> word_payload(val) % 16 >= 4),
        forall|node: NodeId|
            net.has_node(node) && (#[trigger] net.kind(node) matches NodeKind::Ctr(
                CtrKind::Con(_),
            )) ==> !is_reached(net, net.link_of(Port(node, 1)), node),
    ensures
        well_formed(net),
{
    assert forall|port: Port| net.has_port(port) && !(net.kind(port.0) is Era) implies enterable(
        net,
        #[trigger] net.link_of(port),
    ) by {
        let end = net.link_of(port);
        assert(net.has_port(end));
        assert(net.link_of(end) == port);
    }
    assert forall|node: NodeId| net.has_node(node) implies #[trigger] tuple_check(
        net,
        node,
    ) is Some by {
        if net.kind(node) matches NodeKind::Ctr(CtrKind::Con(_)) {
            law_every_search_ends(net, node);
        }
    }
}

/// How many ports a walk enters at most that goes no deeper than its fuel.
pub open spec fn reads(fuel: nat) -> nat
    decreases fuel,
{
    if fuel == 0 {
        0
    } else {
        1 + 3 * reads((fuel - 1) as nat)
    }
}

/// How many ports can be entered from now on: in a linear net those that were not, else as
/// many as given.
spec fn budget(env: Env, st: ReadState, allow: nat) -> nat {
    if env.dups is None {
        unseen(st.seen, env.net.size())
    } else {
        allow
    }
}

/// Whether there are enough numbers left for the names.
spec fn has_names(env: Env, st: ReadState, own: nat, allow: nat) -> bool {
    st.names.next + own + budget(env, st, allow) <= u64::MAX
}

/// Whether a part of a walk made up no more names, and gave no more variables, than the ports
/// that it entered account for.
spec fn within(
    env: Env,
    before: ReadState,
    after: ReadState,
    own: nat,
    allow: nat,
    held: nat,
    base: nat,
) -> bool {
    let entered = own + if env.dups is None {
        unseen(before.seen, env.net.size()) - unseen(after.seen, env.net.size())
    } else {
        allow as int
    };
    &&& unseen(after.seen, env.net.size()) <= unseen(before.seen, env.net.size())
    &&& after.names.next <= before.names.next + entered
    &&& held <= base + 3 * entered
}

spec fn goes(
    env: Env,
    st: ReadState,
    res: Outcome<(TermModel, ReadState)>,
    own: nat,
    allow: nat,
) -> bool {
    match res {
        Outcome::Done((term, after)) => within(env, st, after, own, allow, vars(term), 1),
        Outcome::Stuck => false,
        Outcome::Deeper => true,
    }
}

proof fn lemma_read_goes(env: Env, st: ReadState, next: Port, fuel: nat)
    requires
        well_formed(env.net),
        sides_are_aux(env),
        enterable(env.net, next),
        has_names(env, st, 0, reads(fuel)),
    ensures
        goes(env, st, read(env, st, next, fuel), 0, reads(fuel)),
    decreases fuel, 0nat,
{
    let net = env.net;
    if fuel == 0 {
    } else if env.dups is None && st.seen.contains(next) {
    } else {
        let seen = st.see(next);
        let f = (fuel - 1) as nat;
        assert(net.size() == net.nodes.len());
        if !st.seen.contains(next) {
            lemma_unseen_insert(st.seen, next, net.size());
        } else {
            assert(seen.seen =~= st.seen);
        }
        match net.kind(next.0) {
            NodeKind::Ctr(CtrKind::Con(label)) => {
                lemma_con_goes(env, seen, next, label, f);
            },
            NodeKind::Ctr(CtrKind::Tup(label)) => {
                lemma_fan_goes(env, seen, next, FanKind::Tup, label, f);
            },
            NodeKind::Ctr(CtrKind::Dup(label)) => {
                lemma_fan_goes(env, seen, next, FanKind::Dup, Some(label), f);
            },
            NodeKind::Mat => {
                lemma_mat_goes(env, seen, next, f);
            },
            NodeKind::Opr => {
                lemma_opr_goes(env, seen, next, f);
            },
            NodeKind::Num { val } => {
                lemma_number_goes(val);
            },
            _ => {},
        }
    }
}

proof fn lemma_number_goes(word: u32)
    requires
        word_tag(word) == 0 ==> word_payload(word) % 16 >= 4,
    ensures
        number_term(word) matches Some(term) && vars(term) == 0,
{
    reveal_with_fuel(vars, 2);
    let tag = word_payload(word) % 16;
    assert(0 <= tag < 16);
    assert(word_tag(word) < 16);
}

proof fn lemma_two_goes(env: Env, st: ReadState, fst: Port, snd: Port, fuel: nat)
    requires
        well_formed(env.net),
        sides_are_aux(env),
        enterable(env.net, fst),
        enterable(env.net, snd),
        has_names(env, st, 0, 2 * reads(fuel)),
    ensures
        !(read_two(env, st, fst, snd, fuel) is Stuck),
        read_two(env, st, fst, snd, fuel) matches Outcome::Done((a, b, after)) ==> within(
            env,
            st,
            after,
            0,
            2 * reads(fuel),
            vars(a) + vars(b),
            2,
        ),
    decreases fuel, 1nat,
{
    lemma_read_goes(env, st, fst, fuel);
    if let Outcome::Done((_, mid)) = read(env, st, fst, fuel) {
        lemma_read_goes(env, mid, snd, fuel);
    }
}

proof fn lemma_con_goes(env: Env, st: ReadState, next: Port, label: Option<u16>, fuel: nat)
    requires
        well_formed(env.net),
        sides_are_aux(env),
        env.net.has_port(next),
        env.net.kind(next.0) == NodeKind::Ctr(CtrKind::Con(label)),
        has_names(env, st, 1, 3 * reads(fuel)),
    ensures
        goes(env, st, read_con(env, st, next, label, fuel), 1, 3 * reads(fuel)),
    decreases fuel, 2nat,
{
    let node = next.0;
    let main = env.link(node, 0);
    let aux1 = env.link(node, 1);
    let aux2 = env.link(node, 2);
    assert(env.net.has_port(Port(node, 0)));
    assert(env.net.has_port(Port(node, 1)));
    assert(env.net.has_port(Port(node, 2)));
    assert(tuple_check(env.net, node) is Some);
    if next.1 == 0 {
        if tuple_check(env.net, node) == Some(true) {
            lemma_two_goes(env, st, aux1, aux2, fuel);
            if let Outcome::Done((a, b, _)) = read_two(env, st, aux1, aux2, fuel) {
                lemma_vars_of_two(a, b);
            }
        } else {
            if let Outcome::Done((_, mid)) = declare(env, st, Port(node, 1)) {
                lemma_read_goes(env, mid, aux2, fuel);
            }
        }
    } else if next.1 == 2 {
        lemma_two_goes(env, st, main, aux1, fuel);
    }
}

proof fn lemma_mat_goes(env: Env, st: ReadState, next: Port, fuel: nat)
    requires
        well_formed(env.net),
        sides_are_aux(env),
        env.net.has_port(next),
        env.net.kind(next.0) is Mat,
        has_names(env, st, 1, 3 * reads(fuel)),
    ensures
        goes(env, st, read_mat(env, st, next, fuel), 1, 3 * reads(fuel)),
    decreases fuel, 2nat,
{
    let net = env.net;
    let node = next.0;
    let sel = env.link(node, 1).0;
    let main = env.link(node, 0);
    assert(net.has_port(Port(node, 0)));
    assert(net.has_port(Port(node, 1)));
    if next.1 == 2 {
        lemma_read_goes(env, st, main, fuel);
        if let Outcome::Done((arg, st1)) = read(env, st, main, fuel) {
            if let Outcome::Done((bnd, st2)) = bound_name(arg, st1) {
                if is_plain_con(net, sel) {
                    let zero = env.link(sel, 1);
                    let succ = env.link(sel, 2);
                    assert(net.has_port(Port(sel, 1)));
                    assert(net.has_port(Port(sel, 2)));
                    lemma_two_goes(env, st2, zero, succ, fuel);
                    if let Outcome::Done((a, b, st3)) = read_two(env, st2, zero, succ, fuel) {
                        let (arm, _) = pred_arm(b, bnd, st3);
                        if let TermModel::Lam { pat: PatternModel::Var(Some(nam)), bod, .. } = b {
                            lemma_rename_vars(*bod, nam, pred_name(bnd));
                        }
                        lemma_vars_of_two(a, arm);
                    }
                } else {
                    lemma_vars_of_two(TermModel::Error, TermModel::Error);
                }
            }
        }
    }
}

proof fn lemma_fan_goes(
    env: Env,
    st: ReadState,
    next: Port,
    fan: FanKind,
    label: Option<u16>,
    fuel: nat,
)
    requires
        well_formed(env.net),
        sides_are_aux(env),
        env.net.has_port(next),
        fan_of(env.net.kind(next.0)) == Some((fan, label)),
        has_names(env, st, 1, 3 * reads(fuel)),
    ensures
        goes(env, st, read_fan(env, st, next, fan, label, fuel), 1, 3 * reads(fuel)),
    decreases fuel, 3nat,
{
    let net = env.net;
    let node = next.0;
    assert(net.has_port(Port(node, 0)));
    assert(net.has_port(Port(node, 1)));
    assert(net.has_port(Port(node, 2)));
    let main = env.link(node, 0);
    let fst = env.link(node, 1);
    let snd = env.link(node, 2);
    if next.1 == 0 {
        if fan == FanKind::Dup && env.last_side(label->0) is Some {
            let left = env.leave_dup(label->0);
            let stack = env.dups->0[label->0];
            let side = stack.last();
            assert(1 <= stack[stack.len() - 1] <= 2);
            assert(sides_are_aux(left)) by {
                assert forall|lab: u16, i: int| 0 <= i < left.dups->0[lab].len() implies 1
                    <= #[trigger] left.dups->0[lab][i] <= 2 by {
                    assert(left.dups->0[lab][i] == env.dups->0[lab][i]);
                }
            }
            lemma_read_goes(left, st, env.link(node, side), fuel);
        } else if is_decayed(net, node) {
            assert(net.has_port(Port(fst.0, 0)));
            lemma_read_goes(env, st.drop_fan(fst.0), env.link(fst.0, 0), fuel);
        } else {
            lemma_two_goes(env, st, fst, snd, fuel);
            if let Outcome::Done((a, b, _)) = read_two(env, st, fst, snd, fuel) {
                lemma_vars_of_two(a, b);
            }
        }
    } else {
        if fan == FanKind::Dup && env.dups is Some {
            let entered = env.enter_dup(label->0, next.1);
            assert(sides_are_aux(entered)) by {
                assert forall|lab: u16, i: int| 0 <= i < entered.dups->0[lab].len() implies 1
                    <= #[trigger] entered.dups->0[lab][i] <= 2 by {
                    if i < env.dups->0[lab].len() {
                        assert(entered.dups->0[lab][i] == env.dups->0[lab][i]);
                    }
                }
            }
            lemma_read_goes(entered, st, main, fuel);
        }
    }
}

/// How many variables the argument of an operation uses.
spec fn vars_of_arg(arg: NumArgModel) -> nat {
    match arg {
        NumArgModel::Oth(term) => vars(term),
        _ => 0,
    }
}

/// Whether the operator of an argument, if it is one, is one that there is.
spec fn is_operator(arg: NumArgModel) -> bool {
    match arg {
        NumArgModel::Sym(tag) => 4 <= tag < 16,
        NumArgModel::Par(tag, _) => 4 <= tag < 16,
        _ => true,
    }
}

proof fn lemma_arg_goes(env: Env, st: ReadState, next: Port, fuel: nat)
    requires
        well_formed(env.net),
        sides_are_aux(env),
        enterable(env.net, next),
        has_names(env, st, 0, reads(fuel)),
    ensures
        !(read_arg(env, st, next, fuel) is Stuck),
        read_arg(env, st, next, fuel) matches Outcome::Done((_, arg, after)) ==> is_operator(arg)
            && within(env, st, after, 0, reads(fuel), vars_of_arg(arg), 1),
    decreases fuel, 1nat,
{
    if let NodeKind::Num { val } = env.net.kind(next.0) {
        lemma_unseen_shrinks(st.seen, st.see(next).seen, env.net.size());
        assert(word_tag(val) < 16);
    } else {
        lemma_read_goes(env, st, next, fuel);
    }
}

proof fn lemma_operands_go(fst: NumArgModel, snd: NumArgModel)
    requires
        is_operator(fst),
        is_operator(snd),
        are_operands(fst, snd),
    ensures
        operands(fst, snd) matches Some(term) && vars(term) == vars_of_arg(fst) + vars_of_arg(
            snd,
        ),
{
    reveal_with_fuel(vars, 2);
}

proof fn lemma_opr_goes(env: Env, st: ReadState, next: Port, fuel: nat)
    requires
        well_formed(env.net),
        sides_are_aux(env),
        env.net.has_port(next),
        env.net.kind(next.0) is Opr,
        has_names(env, st, 1, 3 * reads(fuel)),
    ensures
        goes(env, st, read_opr(env, st, next, fuel), 1, 3 * reads(fuel)),
    decreases fuel, 3nat,
{
    let node = next.0;
    let main = env.link(node, 0);
    let aux1 = env.link(node, 1);
    assert(env.net.has_port(Port(node, 0)));
    assert(env.net.has_port(Port(node, 1)));
    if next.1 == 2 {
        if env.net.kind(main.0) is Opr {
            lemma_read_goes(env, st, main, fuel);
            if let Outcome::Done((first, mid)) = read(env, st, main, fuel) {
                lemma_arg_goes(env, mid, aux1, fuel);
                if let TermModel::Oper { opr, fst, snd: rest } = first {
                    assert(vars(first) == vars(*fst) + vars(*rest));
                    if let Outcome::Done((flip, arg, after)) = read_arg(env, mid, aux1, fuel) {
                        let (snd, _) = second_operand(arg, after);
                        assert(vars(snd) == vars_of_arg(arg));
                        if let Outcome::Done((term, _)) = read_opr(env, st, next, fuel) {
                            assert(vars(term) == vars(*fst) + vars(snd));
                        }
                    }
                }
            }
        } else {
            lemma_arg_goes(env, st, main, fuel);
            if let Outcome::Done((flip0, arg0, mid)) = read_arg(env, st, main, fuel) {
                lemma_arg_goes(env, mid, aux1, fuel);
                if let Outcome::Done((flip1, arg1, after)) = read_arg(env, mid, aux1, fuel) {
                    if are_operands(arg0, arg1) {
                        lemma_operands_go(arg0, arg1);
                    }
                    if are_operands(arg1, arg0) {
                        lemma_operands_go(arg1, arg0);
                    }
                }
            }
        }
    }
}

/// How many numbers for names the splits that are still to be inserted can take.
spec fn names_for_splits(env: Env, st: ReadState, most: nat) -> nat {
    let left = pending(st, env.net.size());
    if env.dups is None {
        unseen(st.seen, env.net.size()) + 2 * left
    } else {
        left * (most + 2)
    }
}

/// How many variables the splits that are still to be inserted can add to a term.
spec fn vars_of_splits(env: Env, st: ReadState, most: nat) -> nat {
    let left = pending(st, env.net.size());
    if env.dups is None {
        3 * unseen(st.seen, env.net.size()) + left
    } else {
        left * (1 + 3 * most)
    }
}

/// A split less to insert.
proof fn lemma_one_less(a: nat, b: nat, each: nat)
    requires
        b < a,
    ensures
        b * each + each <= a * each,
{
    assert(b * each + each <= a * each) by (nonlinear_arith)
        requires
            b < a,
    ;
}

/// What is needed for the walks that insert splits: no walk goes deeper than `depth`.
spec fn walks_end(env: Env, rank: spec_fn(Port) -> nat, depth: nat) -> bool {
    &&& well_formed(env.net)
    &&& sides_are_aux(env)
    &&& env.dups is Some ==> acyclic(env.net, rank) && forall|port: Port| #[trigger]
        rank(port) < depth
}

/// A walk that is given more fuel than it needs spends no more than it needs.
proof fn lemma_read_within(
    env: Env,
    rank: spec_fn(Port) -> nat,
    depth: nat,
    st: ReadState,
    next: Port,
    fuel: nat,
)
    requires
        walks_end(env, rank, depth),
        enterable(env.net, next),
        has_names(env, st, 0, reads(depth)),
        env.dups is Some ==> depth <= fuel,
    ensures
        goes(env, st, read(env, st, next, fuel), 0, reads(depth)),
{
    if env.dups is None {
        lemma_read_goes(env, st, next, fuel);
    } else {
        lemma_read_ends(env, rank, st, next, depth);
        lemma_read_more(env, st, next, depth, fuel);
        lemma_read_goes(env, st, next, depth);
    }
}

proof fn lemma_splits_go(
    env: Env,
    rank: spec_fn(Port) -> nat,
    depth: nat,
    st: ReadState,
    term: TermModel,
    fuel: nat,
)
    requires
        walks_end(env, rank, depth),
        scope_is_met(env.net, st),
        env.dups is Some ==> depth + pending(st, env.net.size()) <= fuel,
        st.names.next + names_for_splits(env, st, reads(depth)) <= u64::MAX,
        vars(term) + vars_of_splits(env, st, reads(depth)) < usize::MAX,
    ensures
        !(insert_splits(env, st, term, fuel) is Stuck),
    decreases fuel,
{
    let net = env.net;
    let most = reads(depth);
    if st.scope != Set::<NodeId>::empty() && fuel > 0 {
        let node = lemma_first_exists(st.scope);
        let dropped = st.drop_fan(node);
        let next = env.link(node, 0);
        assert(net.size() == net.nodes.len());
        assert(net.has_port(Port(node, 0)));
        assert(net.has_port(Port(node, 1)));
        assert(net.has_port(Port(node, 2)));
        lemma_pending_drop(st, node, net.size());
        lemma_one_less(pending(st, net.size()), pending(dropped, net.size()), most + 2);
        lemma_one_less(pending(st, net.size()), pending(dropped, net.size()), 1 + 3 * most);
        lemma_read_within(env, rank, depth, dropped, next, fuel);
        lemma_split_follows(env, dropped, node, fuel);
        if let Outcome::Done((split, after)) = read_split(env, dropped, node, fuel) {
            lemma_scope_stays_met(net, dropped, after);
            lemma_uses_are_vars(term, split);
            lemma_place_vars(term, split, uses(term, split));
            let left = pending(after, net.size());
            if left < pending(dropped, net.size()) {
                lemma_one_less(pending(dropped, net.size()), left, most + 2);
                lemma_one_less(pending(dropped, net.size()), left, 1 + 3 * most);
            }
            lemma_splits_go(
                env,
                rank,
                depth,
                after,
                place(term, split, uses(term, split)),
                (fuel - 1) as nat,
            );
        }
    }
}

proof fn lemma_readback_goes(
    net: INet,
    labels: Labels,
    linear: bool,
    rank: spec_fn(Port) -> nat,
    depth: nat,
    fuel: nat,
)
    requires
        walks_end(start(net, labels, linear), rank, depth),
        linear ==> 10 * net.size() + 1 < usize::MAX,
        !linear ==> (net.size() + 1) * (3 * reads(depth) + 2) < usize::MAX,
        !linear ==> depth + net.size() <= fuel,
    ensures
        !(readback(net, labels, linear, fuel) is Stuck),
{
    let env = start(net, labels, linear);
    let st = ReadState::empty();
    let next = env.link(0, 1);
    let most = reads(depth);
    let n = net.size();
    assert(net.has_port(Port(0, 1)));
    assert(enterable(net, net.link_of(Port(0, 1))));
    lemma_unseen_all(n);
    lemma_pending_at_most(st, n);
    if !linear {
        assert(most + n * (most + 2) <= (n + 1) * (3 * most + 2)) by (nonlinear_arith);
        assert((n + 1) * (1 + 3 * most) <= (n + 1) * (3 * most + 2)) by (nonlinear_arith);
        assert((n + 1) * (1 + 3 * most) == n * (1 + 3 * most) + 1 + 3 * most) by (nonlinear_arith);
        assert(n * (most + 2) >= 0) by (nonlinear_arith);
    }
    lemma_read_within(env, rank, depth, st, next, fuel);
    law_read_only_adds(env, st, next, fuel);
    if let Outcome::Done((term, after)) = read(env, st, next, fuel) {
        lemma_scope_stays_met(net, st, after);
        let left = pending(after, n);
        if !linear {
            assert(left * (most + 2) <= n * (most + 2)) by (nonlinear_arith)
                requires
                    left <= n,
            ;
            assert(left * (1 + 3 * most) <= n * (1 + 3 * most)) by (nonlinear_arith)
                requires
                    left <= n,
            ;
        }
        lemma_splits_go(env, rank, depth, after, term, fuel);
    }
}

/// Every linear net that is well formed has a meaning, unless it is larger than what can be
/// counted.
pub proof fn law_linear_net_is_readable(net: INet, labels: Labels)
    requires
        well_formed(net),
        10 * net.size() + 1 < usize::MAX,
    ensures
        readable(net, labels, true),
{
    let fuel = enough_fuel(net, true, 0);
    law_linear_readback_ends(net, labels, fuel);
    lemma_readback_goes(net, labels, true, |port: Port| 0nat, 0, fuel);
    assert(readback(net, labels, true, fuel) is Done);
}

/// Every net that is well formed and has no cycles has a meaning, also when it is not linear,
/// unless a walk of its depth can take more steps than what can be counted.
pub proof fn law_acyclic_net_is_readable(
    net: INet,
    labels: Labels,
    rank: spec_fn(Port) -> nat,
    limit: nat,
)
    requires
        well_formed(net),
        acyclic(net, rank),
        forall|port: Port| #[trigger] rank(port) <= limit,
        (net.size() + 1) * (3 * reads(limit + 1) + 2) < usize::MAX,
    ensures
        readable(net, labels, false),
{
    let fuel = enough_fuel(net, false, limit);
    law_acyclic_readback_ends(net, labels, rank, limit, fuel);
    lemma_readback_goes(net, labels, false, rank, limit + 1, fuel);
    assert(readback(net, labels, false, fuel) is Done);
}

} // verus!
