//! What a walk through a net that may be non-linear leaves out: duplications and cycles.
use crate::ending::lemma_first_exists;
use crate::error::ReadbackError;
use crate::follow::{law_read_only_adds, lemma_split_follows};
use crate::labels::Labels;
use crate::model::{
    bound_name, declare, insert_splits, is_decayed, is_plain_con, operands, pred_arm, read,
    read_arg, read_con, read_fan, read_mat, read_opr, read_split, read_two, readback,
    second_operand, start, switch_on, Env, NumArgModel, Outcome, ReadState,
};
use crate::name::pred_name;
use crate::net::{CtrKind, INet, NodeId, NodeKind, Port};
use crate::scope::{free, mark, rename};
use crate::split::{first_reaching, place, uses, SplitModel};
use crate::term::{FanKind, PatternModel, TermModel};
use crate::tuple::tuple_check;
use vstd::prelude::*;

verus! {

/// Whether a pattern takes apart a duplication.
pub open spec fn is_dup_pattern(pat: PatternModel) -> bool {
    pat matches PatternModel::Fan(FanKind::Dup, _, _)
}

/// Whether no `let` of a term takes apart a duplication.
pub open spec fn has_no_dups(term: TermModel) -> bool
    decreases term,
{
    match term {
        TermModel::Lam { bod, .. } => has_no_dups(*bod),
        TermModel::Let { pat, val, nxt } => !is_dup_pattern(pat) && has_no_dups(*val)
            && has_no_dups(*nxt),
        TermModel::App { fun, arg, .. } => has_no_dups(*fun) && has_no_dups(*arg),
        TermModel::Fan { els, .. } => have_no_dups(els),
        TermModel::Oper { fst, snd, .. } => has_no_dups(*fst) && has_no_dups(*snd),
        TermModel::Swt { arg, arms, .. } => has_no_dups(*arg) && have_no_dups(arms),
        _ => true,
    }
}

/// Whether no `let` of the terms of a sequence takes apart a duplication.
pub open spec fn have_no_dups(els: Seq<TermModel>) -> bool
    decreases els,
{
    forall|i: int| 0 <= i < els.len() ==> has_no_dups(#[trigger] els[i])
}

/// Whether a node is a tuple fan.
pub open spec fn is_tup_fan(net: INet, node: NodeId) -> bool {
    net.kind(node) matches NodeKind::Ctr(CtrKind::Tup(_))
}

/// Whether between two states no fan but tuples was met, and no cycle was cut.
pub open spec fn meets_tuples_only(net: INet, before: ReadState, after: ReadState) -> bool {
    &&& forall|node: NodeId| #[trigger]
        after.seen_fans.contains(node) ==> before.seen_fans.contains(node) || is_tup_fan(net, node)
    &&& after.errors.contains(ReadbackError::Cyclic) ==> before.errors.contains(
        ReadbackError::Cyclic,
    )
}

proof fn lemma_tuples_only_trans(net: INet, a: ReadState, b: ReadState, c: ReadState)
    requires
        meets_tuples_only(net, a, b),
        meets_tuples_only(net, b, c),
    ensures
        meets_tuples_only(net, a, c),
{
    assert forall|node: NodeId| #[trigger] c.seen_fans.contains(node) implies a.seen_fans.contains(
        node,
    ) || is_tup_fan(net, node) by {
        if b.seen_fans.contains(node) {
        }
    }
}

/// Other errors than a cycle.
proof fn lemma_fail(net: INet, st: ReadState, error: ReadbackError)
    requires
        error != ReadbackError::Cyclic,
    ensures
        meets_tuples_only(net, st, st.fail(error)),
{
    let after = st.fail(error).errors;
    if after.contains(ReadbackError::Cyclic) {
        let i = choose|i: int| 0 <= i < after.len() && after[i] == ReadbackError::Cyclic;
        assert(st.errors[i] == ReadbackError::Cyclic);
    }
}

proof fn lemma_rename_no_dups(term: TermModel, from: Seq<char>, to: Seq<char>)
    requires
        has_no_dups(term),
    ensures
        has_no_dups(rename(term, from, to)),
    decreases term,
{
    match term {
        TermModel::Lam { bod, .. } => lemma_rename_no_dups(*bod, from, to),
        TermModel::Let { val, nxt, .. } => {
            lemma_rename_no_dups(*val, from, to);
            lemma_rename_no_dups(*nxt, from, to);
        },
        TermModel::App { fun, arg, .. } => {
            lemma_rename_no_dups(*fun, from, to);
            lemma_rename_no_dups(*arg, from, to);
        },
        TermModel::Oper { fst, snd, .. } => {
            lemma_rename_no_dups(*fst, from, to);
            lemma_rename_no_dups(*snd, from, to);
        },
        TermModel::Fan { els, .. } => {
            assert(have_no_dups(els));
            let after = rename(term, from, to)->els;
            assert forall|i: int| 0 <= i < after.len() implies has_no_dups(
                #[trigger] after[i],
            ) by {
                assert(has_no_dups(els[i]));
                lemma_rename_no_dups(els[i], from, to);
            }
            assert(have_no_dups(after));
        },
        TermModel::Swt { arg, arms, .. } => {
            lemma_rename_no_dups(*arg, from, to);
            assert(have_no_dups(arms));
            let after = rename(term, from, to)->arms;
            assert forall|i: int| 0 <= i < after.len() implies has_no_dups(
                #[trigger] after[i],
            ) by {
                assert(has_no_dups(arms[i]));
                lemma_rename_no_dups(arms[i], from, to);
            }
            assert(have_no_dups(after));
        },
        _ => {},
    }
}

proof fn lemma_mark_no_dups(term: TermModel, names: Set<Seq<char>>)
    requires
        has_no_dups(term),
    ensures
        has_no_dups(mark(term, names)),
    decreases term,
{
    match term {
        TermModel::Lam { bod, .. } => lemma_mark_no_dups(*bod, names),
        TermModel::Let { val, nxt, .. } => {
            lemma_mark_no_dups(*val, names);
            lemma_mark_no_dups(*nxt, names);
        },
        TermModel::App { fun, arg, .. } => {
            lemma_mark_no_dups(*fun, names);
            lemma_mark_no_dups(*arg, names);
        },
        TermModel::Oper { fst, snd, .. } => {
            lemma_mark_no_dups(*fst, names);
            lemma_mark_no_dups(*snd, names);
        },
        TermModel::Fan { els, .. } => {
            assert(have_no_dups(els));
            let after = mark(term, names)->els;
            assert forall|i: int| 0 <= i < after.len() implies has_no_dups(
                #[trigger] after[i],
            ) by {
                assert(has_no_dups(els[i]));
                lemma_mark_no_dups(els[i], names);
            }
            assert(have_no_dups(after));
        },
        TermModel::Swt { arg, arms, .. } => {
            lemma_mark_no_dups(*arg, names);
            assert(have_no_dups(arms));
            let after = mark(term, names)->arms;
            assert forall|i: int| 0 <= i < after.len() implies has_no_dups(
                #[trigger] after[i],
            ) by {
                assert(has_no_dups(arms[i]));
                lemma_mark_no_dups(arms[i], names);
            }
            assert(have_no_dups(after));
        },
        _ => {},
    }
}

proof fn lemma_place_no_dups(term: TermModel, split: SplitModel, threshold: nat)
    requires
        has_no_dups(term),
        has_no_dups(split.val),
        split.fan == FanKind::Tup,
    ensures
        has_no_dups(place(term, split, threshold)),
    decreases term,
{
    if place(term, split, threshold) != split.before(term) {
        match term {
            TermModel::Lam { bod, .. } => lemma_place_no_dups(*bod, split, threshold),
            TermModel::Let { val, nxt, .. } => {
                lemma_place_no_dups(*val, split, threshold);
                lemma_place_no_dups(*nxt, split, threshold);
            },
            TermModel::App { fun, arg, .. } => {
                lemma_place_no_dups(*fun, split, threshold);
                lemma_place_no_dups(*arg, split, threshold);
            },
            TermModel::Fan { els, .. } => {
                assert(have_no_dups(els));
                let i = first_reaching(els, split, threshold, 0) as int;
                assert(has_no_dups(els[i]));
                lemma_place_no_dups(els[i], split, threshold);
                assert(have_no_dups(els.update(i, place(els[i], split, threshold))));
            },
            TermModel::Oper { fst, snd, .. } => {
                lemma_place_no_dups(*fst, split, threshold);
                lemma_place_no_dups(*snd, split, threshold);
            },
            TermModel::Swt { arg, arms, .. } => {
                lemma_place_no_dups(*arg, split, threshold);
                assert(have_no_dups(arms));
                if uses(*arg, split) < threshold {
                    let i = first_reaching(arms, split, threshold, 0) as int;
                    assert(has_no_dups(arms[i]));
                    lemma_place_no_dups(arms[i], split, threshold);
                    assert(have_no_dups(arms.update(i, place(arms[i], split, threshold))));
                }
            },
            _ => {},
        }
    }
}

/// Where duplications are read in place, reading a port meets no fan but tuples, cuts no cycle,
/// and gives a term in which no `let` takes apart a duplication.
pub proof fn law_read_in_place(env: Env, st: ReadState, next: Port, fuel: nat)
    requires
        env.dups is Some,
    ensures
        read(env, st, next, fuel) matches Outcome::Done((term, after)) ==> has_no_dups(term)
            && meets_tuples_only(env.net, st, after),
    decreases fuel, 0nat,
{
    let net = env.net;
    if fuel > 0 && net.has_node(next.0) {
        let seen = st.see(next);
        let f = (fuel - 1) as nat;
        match net.kind(next.0) {
            NodeKind::Ctr(CtrKind::Con(label)) => lemma_con(env, seen, next, label, f),
            NodeKind::Ctr(CtrKind::Tup(label)) => {
                lemma_fan(env, seen, next, FanKind::Tup, label, f);
            },
            NodeKind::Ctr(CtrKind::Dup(label)) => {
                lemma_fan(env, seen, next, FanKind::Dup, Some(label), f);
            },
            NodeKind::Mat => lemma_mat(env, seen, next, f),
            NodeKind::Num { val } => {
                reveal_with_fuel(has_no_dups, 2);
            },
            NodeKind::Opr => lemma_opr(env, seen, next, f),
            NodeKind::Rot => lemma_fail(net, seen, ReadbackError::ReachedRoot),
            _ => {},
        }
    }
}

proof fn lemma_two(env: Env, st: ReadState, fst: Port, snd: Port, fuel: nat)
    requires
        env.dups is Some,
    ensures
        read_two(env, st, fst, snd, fuel) matches Outcome::Done((a, b, after)) ==> {
            &&& has_no_dups(a)
            &&& has_no_dups(b)
            &&& have_no_dups(seq![a, b])
            &&& meets_tuples_only(env.net, st, after)
        },
    decreases fuel, 1nat,
{
    law_read_in_place(env, st, fst, fuel);
    if let Outcome::Done((a, mid)) = read(env, st, fst, fuel) {
        law_read_in_place(env, mid, snd, fuel);
        if let Outcome::Done((b, after)) = read(env, mid, snd, fuel) {
            lemma_tuples_only_trans(env.net, st, mid, after);
            assert(have_no_dups(seq![a, b]));
        }
    }
}

proof fn lemma_con(env: Env, st: ReadState, next: Port, label: Option<u16>, fuel: nat)
    requires
        env.dups is Some,
    ensures
        read_con(env, st, next, label, fuel) matches Outcome::Done((term, after)) ==> has_no_dups(
            term,
        ) && meets_tuples_only(env.net, st, after),
    decreases fuel, 2nat,
{
    let node = next.0;
    if next.1 == 0 {
        match tuple_check(env.net, node) {
            Some(true) => lemma_two(env, st, env.link(node, 1), env.link(node, 2), fuel),
            Some(false) => {
                if let Outcome::Done((_, mid)) = declare(env, st, Port(node, 1)) {
                    law_read_in_place(env, mid, env.link(node, 2), fuel);
                }
            },
            None => {},
        }
    } else if next.1 == 2 {
        lemma_two(env, st, env.link(node, 0), env.link(node, 1), fuel);
    }
}

proof fn lemma_mat(env: Env, st: ReadState, next: Port, fuel: nat)
    requires
        env.dups is Some,
    ensures
        read_mat(env, st, next, fuel) matches Outcome::Done((term, after)) ==> has_no_dups(term)
            && meets_tuples_only(env.net, st, after),
    decreases fuel, 2nat,
{
    let net = env.net;
    let node = next.0;
    let sel = env.link(node, 1).0;
    let main = env.link(node, 0);
    let error = ReadbackError::InvalidNumericMatch;
    if next.1 != 2 {
        lemma_fail(net, st, error);
    } else {
        law_read_in_place(env, st, main, fuel);
        if let Outcome::Done((arg, st1)) = read(env, st, main, fuel) {
            if let Outcome::Done((bnd, st2)) = bound_name(arg, st1) {
                assert(meets_tuples_only(net, st, st2));
                lemma_fail(net, st2, error);
                if net.has_node(sel) && is_plain_con(net, sel) {
                    let zero = env.link(sel, 1);
                    let succ = env.link(sel, 2);
                    lemma_two(env, st2, zero, succ, fuel);
                    if let Outcome::Done((a, b, st3)) = read_two(env, st2, zero, succ, fuel) {
                        lemma_fail(net, st3, error);
                        let (arm, st4) = pred_arm(b, bnd, st3);
                        lemma_tuples_only_trans(net, st, st2, st3);
                        lemma_tuples_only_trans(net, st, st3, st4);
                        if let TermModel::Lam { pat: PatternModel::Var(Some(nam)), bod, .. } = b {
                            lemma_rename_no_dups(*bod, nam, pred_name(bnd));
                        }
                        assert(have_no_dups(seq![a, arm]));
                        assert(has_no_dups(switch_on(arg, bnd, a, arm)));
                    }
                } else if net.has_node(sel) {
                    lemma_tuples_only_trans(net, st, st2, st2.fail(error));
                    assert(has_no_dups(TermModel::Error));
                    assert(have_no_dups(seq![TermModel::Error, TermModel::Error]));
                }
            }
        }
    }
}

proof fn lemma_fan(
    env: Env,
    st: ReadState,
    next: Port,
    fan: FanKind,
    label: Option<u16>,
    fuel: nat,
)
    requires
        env.dups is Some,
        fan == FanKind::Tup ==> is_tup_fan(env.net, next.0),
    ensures
        read_fan(env, st, next, fan, label, fuel) matches Outcome::Done((term, after))
            ==> has_no_dups(term) && meets_tuples_only(env.net, st, after),
    decreases fuel, 3nat,
{
    let node = next.0;
    let fst = env.link(node, 1);
    let snd = env.link(node, 2);
    if next.1 == 0 {
        if fan == FanKind::Dup && env.last_side(label->0) is Some {
            let side = env.last_side(label->0)->0;
            law_read_in_place(env.leave_dup(label->0), st, env.link(node, side), fuel);
        } else if is_decayed(env.net, node) {
            law_read_in_place(env, st.drop_fan(fst.0), env.link(fst.0, 0), fuel);
        } else {
            lemma_two(env, st, fst, snd, fuel);
        }
    } else if next.1 <= 2 && fan == FanKind::Dup {
        law_read_in_place(env.enter_dup(label->0, next.1), st, env.link(node, 0), fuel);
    }
}

/// Whether no `let` in an argument takes apart a duplication.
spec fn arg_has_no_dups(arg: NumArgModel) -> bool {
    arg matches NumArgModel::Oth(term) ==> has_no_dups(term)
}

proof fn lemma_arg(env: Env, st: ReadState, next: Port, fuel: nat)
    requires
        env.dups is Some,
    ensures
        read_arg(env, st, next, fuel) matches Outcome::Done((_, arg, after)) ==> arg_has_no_dups(
            arg,
        ) && meets_tuples_only(env.net, st, after),
    decreases fuel, 1nat,
{
    law_read_in_place(env, st, next, fuel);
}

proof fn lemma_operands(fst: NumArgModel, snd: NumArgModel)
    requires
        arg_has_no_dups(fst),
        arg_has_no_dups(snd),
    ensures
        operands(fst, snd) matches Some(term) ==> has_no_dups(term),
{
    reveal_with_fuel(has_no_dups, 2);
}

proof fn lemma_opr(env: Env, st: ReadState, next: Port, fuel: nat)
    requires
        env.dups is Some,
    ensures
        read_opr(env, st, next, fuel) matches Outcome::Done((term, after)) ==> has_no_dups(term)
            && meets_tuples_only(env.net, st, after),
    decreases fuel, 3nat,
{
    let net = env.net;
    let node = next.0;
    let main = env.link(node, 0);
    let aux1 = env.link(node, 1);
    let error = ReadbackError::InvalidNumericOp;
    if next.1 != 2 {
        lemma_fail(net, st, error);
    } else if net.has_node(main.0) {
        if net.kind(main.0) is Opr {
            law_read_in_place(env, st, main, fuel);
            if let Outcome::Done((first, st1)) = read(env, st, main, fuel) {
                lemma_fail(net, st1, error);
                lemma_tuples_only_trans(net, st, st1, st1.fail(error));
                lemma_arg(env, st1, aux1, fuel);
                if let TermModel::Oper { opr, fst, snd: rest } = first {
                    assert(has_no_dups(*fst));
                    if let Outcome::Done((flip, arg, st2)) = read_arg(env, st1, aux1, fuel) {
                        let (snd, st3) = second_operand(arg, st2);
                        lemma_fail(net, st2, error);
                        lemma_tuples_only_trans(net, st, st1, st2);
                        lemma_tuples_only_trans(net, st, st2, st3);
                        assert(has_no_dups(snd));
                    }
                }
            }
        } else {
            lemma_arg(env, st, main, fuel);
            if let Outcome::Done((flip0, arg0, st1)) = read_arg(env, st, main, fuel) {
                lemma_arg(env, st1, aux1, fuel);
                if let Outcome::Done((flip1, arg1, st2)) = read_arg(env, st1, aux1, fuel) {
                    lemma_fail(net, st2, error);
                    lemma_tuples_only_trans(net, st, st1, st2);
                    lemma_tuples_only_trans(net, st, st2, st2.fail(error));
                    lemma_operands(arg0, arg1);
                    lemma_operands(arg1, arg0);
                }
            }
        }
    }
}

/// Whether the fans of the scope are tuples that were met.
spec fn scope_is_tuples(net: INet, st: ReadState) -> bool {
    &&& st.scope.subset_of(st.seen_fans)
    &&& forall|node: NodeId| #[trigger] st.seen_fans.contains(node) ==> is_tup_fan(net, node)
}

proof fn lemma_splits(env: Env, st: ReadState, term: TermModel, fuel: nat)
    requires
        env.dups is Some,
        has_no_dups(term),
        scope_is_tuples(env.net, st),
    ensures
        insert_splits(env, st, term, fuel) matches Outcome::Done((term, after)) ==> has_no_dups(
            term,
        ) && (after.errors.contains(ReadbackError::Cyclic) ==> st.errors.contains(
            ReadbackError::Cyclic,
        )),
    decreases fuel,
{
    if st.scope != Set::<NodeId>::empty() && fuel > 0 {
        let net = env.net;
        let node = lemma_first_exists(st.scope);
        let dropped = st.drop_fan(node);
        let main = env.link(node, 0);
        law_read_in_place(env, dropped, main, fuel);
        lemma_split_follows(env, dropped, node, fuel);
        if let Outcome::Done((split, after)) = read_split(env, dropped, node, fuel) {
            assert(st.seen_fans.contains(node));
            assert(is_tup_fan(net, node));
            assert(split.fan == FanKind::Tup);
            assert(meets_tuples_only(net, dropped, after));
            assert(scope_is_tuples(net, after));
            lemma_place_no_dups(term, split, uses(term, split));
            lemma_splits(env, after, place(term, split, uses(term, split)), (fuel - 1) as nat);
        }
    }
}

/// In the readback of a net that may be non-linear, every duplication is read in place: no `let`
/// takes one apart. And no cycle is cut.
pub proof fn law_non_linear_readback_has_no_dups(net: INet, labels: Labels, fuel: nat)
    ensures
        readback(net, labels, false, fuel) matches Outcome::Done((term, errors)) ==> has_no_dups(
            term,
        ) && !errors.contains(ReadbackError::Cyclic),
{
    let env = start(net, labels, false);
    let st = ReadState::empty();
    let next = env.link(0, 1);
    if net.has_node(0) {
        law_read_in_place(env, st, next, fuel);
        law_read_only_adds(env, st, next, fuel);
        if let Outcome::Done((term, mid)) = read(env, st, next, fuel) {
            lemma_splits(env, mid, term, fuel);
            if let Outcome::Done((term, _)) = insert_splits(env, mid, term, fuel) {
                lemma_mark_no_dups(term, free(term));
            }
        }
    }
}

} // verus!
