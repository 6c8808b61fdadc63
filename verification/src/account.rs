//! Where the variables of a term come from.
use crate::error::ReadbackError;
use crate::follow::{follows, law_read_only_adds, lemma_follows_trans, lemma_split_follows};
use crate::labels::Labels;
use crate::model::{
    bound_name, declare, insert_splits, is_decayed, is_first, is_plain_con, operands, pred_arm,
    read, read_arg, read_con, read_fan, read_mat, read_opr, read_split, read_two, readback,
    second_operand, start, switch_on, Env, NumArgModel, Outcome, ReadState,
};
use crate::name::{ellipsis, law_letters_are_not_reserved, pred_name};
use crate::net::{CtrKind, INet, NodeId, NodeKind, Port};
use crate::scope::{free, mark, rename};
use crate::split::{first_reaching, place, uses, SplitModel};
use crate::term::{FanKind, PatternModel, TermModel};
use crate::tuple::tuple_check;
use vstd::prelude::*;

verus! {

/// Whether a port has the given name.
pub open spec fn is_named(st: ReadState, port: Port, nam: Seq<char>) -> bool {
    st.names.ids.contains_key(port) && st.names.name_of(port) == nam
}

/// Whether a name is the one of the predecessor of a number.
pub open spec fn is_pred(nam: Seq<char>) -> bool {
    exists|bnd: Seq<char>| nam == #[trigger] pred_name(bnd)
}

/// Whether it is known what a variable stands for: it is at a port that has its name, is the
/// predecessor that a switch gives, or stands for a cycle that was cut and recorded as an error.
pub open spec fn is_known(st: ReadState, nam: Seq<char>) -> bool {
    ||| exists|port: Port| is_named(st, port, nam)
    ||| is_pred(nam)
    ||| nam == ellipsis() && st.errors.contains(ReadbackError::Cyclic)
}

/// Whether it is known what each variable that a term uses stands for.
pub open spec fn all_known(st: ReadState, term: TermModel) -> bool
    decreases term,
{
    match term {
        TermModel::Var { nam } => is_known(st, nam),
        TermModel::Link { nam } => is_known(st, nam),
        TermModel::Lam { bod, .. } => all_known(st, *bod),
        TermModel::Let { val, nxt, .. } => all_known(st, *val) && all_known(st, *nxt),
        TermModel::App { fun, arg, .. } => all_known(st, *fun) && all_known(st, *arg),
        TermModel::Fan { els, .. } => all_known_in(st, els),
        TermModel::Oper { fst, snd, .. } => all_known(st, *fst) && all_known(st, *snd),
        TermModel::Swt { arg, arms, .. } => all_known(st, *arg) && all_known_in(st, arms),
        _ => true,
    }
}

/// Whether it is known what each variable that the terms of a sequence use stands for.
pub open spec fn all_known_in(st: ReadState, els: Seq<TermModel>) -> bool
    decreases els,
{
    forall|i: int| 0 <= i < els.len() ==> all_known(st, #[trigger] els[i])
}

/// The placeholder for a cycle is known just when a cycle was recorded as an error: nothing else
/// is called so.
pub proof fn law_placeholder_stands_for_an_error(st: ReadState)
    ensures
        is_known(st, ellipsis()) <==> st.errors.contains(ReadbackError::Cyclic),
{
    assert forall|port: Port| !is_named(st, port, ellipsis()) by {
        law_letters_are_not_reserved(st.names.ids[port] as nat, seq![]);
    }
    assert forall|bnd: Seq<char>| ellipsis() != #[trigger] pred_name(bnd) by {
        assert(pred_name(bnd)[bnd.len() as int] == '-');
        assert(pred_name(bnd).len() == bnd.len() + 2);
        if pred_name(bnd) == ellipsis() {
            assert(ellipsis()[bnd.len() as int] == '.');
        }
    }
}

proof fn lemma_stays_known(net: INet, before: ReadState, after: ReadState, nam: Seq<char>)
    requires
        follows(net, before, after),
        is_known(before, nam),
    ensures
        is_known(after, nam),
{
    if exists|port: Port| is_named(before, port, nam) {
        let port = choose|port: Port| is_named(before, port, nam);
        assert(before.names.ids.dom().contains(port));
        assert(after.names.ids.dom().contains(port));
        assert(is_named(after, port, nam));
    } else if !is_pred(nam) {
        let i = choose|i: int| 0 <= i < before.errors.len() && before.errors[i]
            == ReadbackError::Cyclic;
        assert(before.errors.contains(ReadbackError::Cyclic));
        assert(after.errors.take(before.errors.len() as int)[i] == before.errors[i]);
        assert(after.errors[i] == ReadbackError::Cyclic);
    }
}

/// What is known stays known.
proof fn lemma_all_stay_known(net: INet, before: ReadState, after: ReadState, term: TermModel)
    requires
        follows(net, before, after),
        all_known(before, term),
    ensures
        all_known(after, term),
    decreases term,
{
    match term {
        TermModel::Var { nam } => lemma_stays_known(net, before, after, nam),
        TermModel::Link { nam } => lemma_stays_known(net, before, after, nam),
        TermModel::Lam { bod, .. } => lemma_all_stay_known(net, before, after, *bod),
        TermModel::Let { val, nxt, .. } => {
            lemma_all_stay_known(net, before, after, *val);
            lemma_all_stay_known(net, before, after, *nxt);
        },
        TermModel::App { fun, arg, .. } => {
            lemma_all_stay_known(net, before, after, *fun);
            lemma_all_stay_known(net, before, after, *arg);
        },
        TermModel::Fan { els, .. } => lemma_all_stay_known_in(net, before, after, els),
        TermModel::Oper { fst, snd, .. } => {
            lemma_all_stay_known(net, before, after, *fst);
            lemma_all_stay_known(net, before, after, *snd);
        },
        TermModel::Swt { arg, arms, .. } => {
            lemma_all_stay_known(net, before, after, *arg);
            lemma_all_stay_known_in(net, before, after, arms);
        },
        _ => {},
    }
}

proof fn lemma_all_stay_known_in(
    net: INet,
    before: ReadState,
    after: ReadState,
    els: Seq<TermModel>,
)
    requires
        follows(net, before, after),
        all_known_in(before, els),
    ensures
        all_known_in(after, els),
    decreases els,
{
    assert forall|i: int| 0 <= i < els.len() implies all_known(after, #[trigger] els[i]) by {
        assert(all_known(before, els[i]));
        lemma_all_stay_known(net, before, after, els[i]);
    }
}

/// Renaming a variable to one that is known leaves all known.
proof fn lemma_rename_known(st: ReadState, term: TermModel, from: Seq<char>, to: Seq<char>)
    requires
        is_known(st, to),
        all_known(st, term),
    ensures
        all_known(st, rename(term, from, to)),
    decreases term,
{
    match term {
        TermModel::Lam { bod, .. } => lemma_rename_known(st, *bod, from, to),
        TermModel::Let { val, nxt, .. } => {
            lemma_rename_known(st, *val, from, to);
            lemma_rename_known(st, *nxt, from, to);
        },
        TermModel::App { fun, arg, .. } => {
            lemma_rename_known(st, *fun, from, to);
            lemma_rename_known(st, *arg, from, to);
        },
        TermModel::Fan { els, .. } => {
            assert(all_known_in(st, els));
            let after = rename(term, from, to)->els;
            assert forall|i: int| 0 <= i < after.len() implies all_known(
                st,
                #[trigger] after[i],
            ) by {
                assert(all_known(st, els[i]));
                lemma_rename_known(st, els[i], from, to);
            }
            assert(all_known_in(st, after));
        },
        TermModel::Oper { fst, snd, .. } => {
            lemma_rename_known(st, *fst, from, to);
            lemma_rename_known(st, *snd, from, to);
        },
        TermModel::Swt { arg, arms, .. } => {
            lemma_rename_known(st, *arg, from, to);
            assert(all_known_in(st, arms));
            let after = rename(term, from, to)->arms;
            assert forall|i: int| 0 <= i < after.len() implies all_known(
                st,
                #[trigger] after[i],
            ) by {
                assert(all_known(st, arms[i]));
                lemma_rename_known(st, arms[i], from, to);
            }
            assert(all_known_in(st, after));
        },
        _ => {},
    }
}

/// Marking variables as unscoped leaves all known.
proof fn lemma_mark_known(st: ReadState, term: TermModel, names: Set<Seq<char>>)
    requires
        all_known(st, term),
    ensures
        all_known(st, mark(term, names)),
    decreases term,
{
    match term {
        TermModel::Lam { bod, .. } => lemma_mark_known(st, *bod, names),
        TermModel::Let { val, nxt, .. } => {
            lemma_mark_known(st, *val, names);
            lemma_mark_known(st, *nxt, names);
        },
        TermModel::App { fun, arg, .. } => {
            lemma_mark_known(st, *fun, names);
            lemma_mark_known(st, *arg, names);
        },
        TermModel::Fan { els, .. } => {
            assert(all_known_in(st, els));
            let after = mark(term, names)->els;
            assert forall|i: int| 0 <= i < after.len() implies all_known(
                st,
                #[trigger] after[i],
            ) by {
                assert(all_known(st, els[i]));
                lemma_mark_known(st, els[i], names);
            }
            assert(all_known_in(st, after));
        },
        TermModel::Oper { fst, snd, .. } => {
            lemma_mark_known(st, *fst, names);
            lemma_mark_known(st, *snd, names);
        },
        TermModel::Swt { arg, arms, .. } => {
            lemma_mark_known(st, *arg, names);
            assert(all_known_in(st, arms));
            let after = mark(term, names)->arms;
            assert forall|i: int| 0 <= i < after.len() implies all_known(
                st,
                #[trigger] after[i],
            ) by {
                assert(all_known(st, arms[i]));
                lemma_mark_known(st, arms[i], names);
            }
            assert(all_known_in(st, after));
        },
        _ => {},
    }
}

/// Inserting a split whose value is known leaves all known.
proof fn lemma_place_known(st: ReadState, term: TermModel, split: SplitModel, threshold: nat)
    requires
        all_known(st, term),
        all_known(st, split.val),
    ensures
        all_known(st, place(term, split, threshold)),
    decreases term,
{
    let after = place(term, split, threshold);
    if after != split.before(term) {
        match term {
            TermModel::Lam { bod, .. } => lemma_place_known(st, *bod, split, threshold),
            TermModel::Let { val, nxt, .. } => {
                lemma_place_known(st, *val, split, threshold);
                lemma_place_known(st, *nxt, split, threshold);
            },
            TermModel::App { fun, arg, .. } => {
                lemma_place_known(st, *fun, split, threshold);
                lemma_place_known(st, *arg, split, threshold);
            },
            TermModel::Fan { els, .. } => {
                assert(all_known_in(st, els));
                let i = first_reaching(els, split, threshold, 0) as int;
                assert(all_known(st, els[i]));
                lemma_place_known(st, els[i], split, threshold);
                assert(all_known_in(st, els.update(i, place(els[i], split, threshold))));
            },
            TermModel::Oper { fst, snd, .. } => {
                lemma_place_known(st, *fst, split, threshold);
                lemma_place_known(st, *snd, split, threshold);
            },
            TermModel::Swt { arg, arms, .. } => {
                lemma_place_known(st, *arg, split, threshold);
                assert(all_known_in(st, arms));
                if uses(*arg, split) < threshold {
                    let i = first_reaching(arms, split, threshold, 0) as int;
                    assert(all_known(st, arms[i]));
                    lemma_place_known(st, arms[i], split, threshold);
                    assert(all_known_in(st, arms.update(i, place(arms[i], split, threshold))));
                }
            },
            _ => {},
        }
    }
}

/// It is known what each variable of the term for a port stands for.
pub proof fn law_variables_are_known(env: Env, st: ReadState, next: Port, fuel: nat)
    ensures
        read(env, st, next, fuel) matches Outcome::Done((term, after)) ==> all_known(after, term),
    decreases fuel, 0nat,
{
    let net = env.net;
    if fuel == 0 {
    } else if env.dups is None && st.seen.contains(next) {
        let errors = st.errors.push(ReadbackError::Cyclic);
        assert(errors[errors.len() - 1] == ReadbackError::Cyclic);
        assert(errors.contains(ReadbackError::Cyclic));
    } else if net.has_node(next.0) {
        let seen = st.see(next);
        let f = (fuel - 1) as nat;
        match net.kind(next.0) {
            NodeKind::Ctr(CtrKind::Con(label)) => lemma_con_known(env, seen, next, label, f),
            NodeKind::Ctr(CtrKind::Tup(label)) => {
                lemma_fan_known(env, seen, next, FanKind::Tup, label, f);
            },
            NodeKind::Ctr(CtrKind::Dup(label)) => {
                lemma_fan_known(env, seen, next, FanKind::Dup, Some(label), f);
            },
            NodeKind::Mat => lemma_mat_known(env, seen, next, f),
            NodeKind::Num { val } => {
                reveal_with_fuel(all_known, 2);
            },
            NodeKind::Opr => lemma_opr_known(env, seen, next, f),
            _ => {},
        }
    }
}

proof fn lemma_variable_known(st: ReadState, port: Port)
    ensures
        is_known(st.name(port), st.name(port).names.name_of(port)),
{
    assert(is_named(st.name(port), port, st.name(port).names.name_of(port)));
}

proof fn lemma_two_known(env: Env, st: ReadState, fst: Port, snd: Port, fuel: nat)
    ensures
        read_two(env, st, fst, snd, fuel) matches Outcome::Done((a, b, after)) ==> all_known(
            after,
            a,
        ) && all_known(after, b) && all_known_in(after, seq![a, b]),
    decreases fuel, 1nat,
{
    law_variables_are_known(env, st, fst, fuel);
    if let Outcome::Done((a, mid)) = read(env, st, fst, fuel) {
        law_variables_are_known(env, mid, snd, fuel);
        law_read_only_adds(env, mid, snd, fuel);
        if let Outcome::Done((b, after)) = read(env, mid, snd, fuel) {
            lemma_all_stay_known(env.net, mid, after, a);
            assert(all_known_in(after, seq![a, b]));
        }
    }
}

proof fn lemma_con_known(env: Env, st: ReadState, next: Port, label: Option<u16>, fuel: nat)
    ensures
        read_con(env, st, next, label, fuel) matches Outcome::Done((term, after)) ==> all_known(
            after,
            term,
        ),
    decreases fuel, 2nat,
{
    let node = next.0;
    if next.1 == 0 {
        match tuple_check(env.net, node) {
            Some(true) => lemma_two_known(env, st, env.link(node, 1), env.link(node, 2), fuel),
            Some(false) => {
                if let Outcome::Done((_, mid)) = declare(env, st, Port(node, 1)) {
                    law_variables_are_known(env, mid, env.link(node, 2), fuel);
                }
            },
            None => {},
        }
    } else if next.1 == 1 {
        lemma_variable_known(st, next);
    } else if next.1 == 2 {
        lemma_two_known(env, st, env.link(node, 0), env.link(node, 1), fuel);
    }
}

/// Errors and names that are made up take nothing away.
proof fn lemma_small_steps(net: INet, st: ReadState, error: ReadbackError)
    ensures
        follows(net, st, st),
        follows(net, st, st.fail(error)),
        st.names.next < u64::MAX ==> follows(net, st, st.name_unique()),
{
}

proof fn lemma_mat_known(env: Env, st: ReadState, next: Port, fuel: nat)
    ensures
        read_mat(env, st, next, fuel) matches Outcome::Done((term, after)) ==> all_known(
            after,
            term,
        ),
    decreases fuel, 2nat,
{
    let net = env.net;
    let node = next.0;
    let sel = env.link(node, 1).0;
    let main = env.link(node, 0);
    if next.1 == 2 {
        law_variables_are_known(env, st, main, fuel);
        if let Outcome::Done((arg, st1)) = read(env, st, main, fuel) {
            lemma_small_steps(net, st1, ReadbackError::InvalidNumericMatch);
            if let Outcome::Done((bnd, st2)) = bound_name(arg, st1) {
                lemma_all_stay_known(net, st1, st2, arg);
                lemma_small_steps(net, st2, ReadbackError::InvalidNumericMatch);
                if net.has_node(sel) && is_plain_con(net, sel) {
                    let zero = env.link(sel, 1);
                    let succ = env.link(sel, 2);
                    lemma_two_known(env, st2, zero, succ, fuel);
                    if let Outcome::Done((a, b, st3)) = read_two(env, st2, zero, succ, fuel) {
                        lemma_two_follow(env, st2, zero, succ, fuel);
                        lemma_small_steps(net, st3, ReadbackError::InvalidNumericMatch);
                        let (arm, st4) = pred_arm(b, bnd, st3);
                        lemma_follows_trans(net, st2, st3, st4);
                        lemma_all_stay_known(net, st2, st4, arg);
                        lemma_all_stay_known(net, st3, st4, a);
                        lemma_all_stay_known(net, st3, st4, b);
                        if let TermModel::Lam { pat: PatternModel::Var(Some(nam)), bod, .. } = b {
                            assert(is_pred(pred_name(bnd)));
                            lemma_rename_known(st4, *bod, nam, pred_name(bnd));
                        }
                        assert(all_known_in(st4, seq![a, arm]));
                        assert(all_known(st4, switch_on(arg, bnd, a, arm)));
                    }
                } else if net.has_node(sel) {
                    let failed = st2.fail(ReadbackError::InvalidNumericMatch);
                    lemma_all_stay_known(net, st2, failed, arg);
                    assert(all_known(failed, TermModel::Error));
                    assert(all_known_in(failed, seq![TermModel::Error, TermModel::Error]));
                }
            }
        }
    }
}

proof fn lemma_two_follow(env: Env, st: ReadState, fst: Port, snd: Port, fuel: nat)
    ensures
        read_two(env, st, fst, snd, fuel) matches Outcome::Done((_, _, after)) ==> follows(
            env.net,
            st,
            after,
        ),
{
    law_read_only_adds(env, st, fst, fuel);
    if let Outcome::Done((_, mid)) = read(env, st, fst, fuel) {
        law_read_only_adds(env, mid, snd, fuel);
        if let Outcome::Done((_, after)) = read(env, mid, snd, fuel) {
            lemma_follows_trans(env.net, st, mid, after);
        }
    }
}

proof fn lemma_fan_known(
    env: Env,
    st: ReadState,
    next: Port,
    fan: FanKind,
    label: Option<u16>,
    fuel: nat,
)
    ensures
        read_fan(env, st, next, fan, label, fuel) matches Outcome::Done((term, after))
            ==> all_known(after, term),
    decreases fuel, 3nat,
{
    let node = next.0;
    let fst = env.link(node, 1);
    let snd = env.link(node, 2);
    if next.1 == 0 {
        if fan == FanKind::Dup && env.last_side(label->0) is Some {
            let side = env.last_side(label->0)->0;
            law_variables_are_known(env.leave_dup(label->0), st, env.link(node, side), fuel);
        } else if is_decayed(env.net, node) {
            law_variables_are_known(env, st.drop_fan(fst.0), env.link(fst.0, 0), fuel);
        } else {
            lemma_two_known(env, st, fst, snd, fuel);
        }
    } else if next.1 <= 2 {
        if fan == FanKind::Dup && env.dups is Some {
            law_variables_are_known(
                env.enter_dup(label->0, next.1),
                st,
                env.link(node, 0),
                fuel,
            );
        } else {
            lemma_variable_known(st.meet_fan(node), next);
        }
    }
}

/// Whether the variables of an argument are known.
spec fn arg_known(st: ReadState, arg: NumArgModel) -> bool {
    arg matches NumArgModel::Oth(term) ==> all_known(st, term)
}

proof fn lemma_arg_known(env: Env, st: ReadState, next: Port, fuel: nat)
    ensures
        read_arg(env, st, next, fuel) matches Outcome::Done((_, arg, after)) ==> arg_known(
            after,
            arg,
        ) && follows(env.net, st, after),
    decreases fuel, 1nat,
{
    law_variables_are_known(env, st, next, fuel);
    law_read_only_adds(env, st, next, fuel);
}

proof fn lemma_operands_known(st: ReadState, fst: NumArgModel, snd: NumArgModel)
    requires
        arg_known(st, fst),
        arg_known(st, snd),
    ensures
        operands(fst, snd) matches Some(term) ==> all_known(st, term),
{
    reveal_with_fuel(all_known, 2);
}

proof fn lemma_opr_known(env: Env, st: ReadState, next: Port, fuel: nat)
    ensures
        read_opr(env, st, next, fuel) matches Outcome::Done((term, after)) ==> all_known(
            after,
            term,
        ),
    decreases fuel, 3nat,
{
    let net = env.net;
    let node = next.0;
    let main = env.link(node, 0);
    let aux1 = env.link(node, 1);
    if next.1 == 2 && net.has_node(main.0) {
        if net.kind(main.0) is Opr {
            law_variables_are_known(env, st, main, fuel);
            if let Outcome::Done((first, st1)) = read(env, st, main, fuel) {
                lemma_arg_known(env, st1, aux1, fuel);
                if let TermModel::Oper { opr, fst, snd: rest } = first {
                    assert(all_known(st1, *fst));
                    if let Outcome::Done((flip, arg, st2)) = read_arg(env, st1, aux1, fuel) {
                        let (snd, st3) = second_operand(arg, st2);
                        lemma_small_steps(net, st2, ReadbackError::InvalidNumericOp);
                        lemma_follows_trans(net, st1, st2, st3);
                        lemma_all_stay_known(net, st1, st3, *fst);
                        assert(all_known(st3, snd));
                    }
                }
            }
        } else {
            lemma_arg_known(env, st, main, fuel);
            if let Outcome::Done((flip0, arg0, st1)) = read_arg(env, st, main, fuel) {
                lemma_arg_known(env, st1, aux1, fuel);
                if let Outcome::Done((flip1, arg1, st2)) = read_arg(env, st1, aux1, fuel) {
                    if let NumArgModel::Oth(term) = arg0 {
                        lemma_all_stay_known(net, st1, st2, term);
                    }
                    lemma_operands_known(st2, arg0, arg1);
                    lemma_operands_known(st2, arg1, arg0);
                }
            }
        }
    }
}

proof fn lemma_splits_known(env: Env, st: ReadState, term: TermModel, fuel: nat)
    requires
        all_known(st, term),
    ensures
        insert_splits(env, st, term, fuel) matches Outcome::Done((term, after)) ==> all_known(
            after,
            term,
        ),
    decreases fuel,
{
    if st.scope != Set::<NodeId>::empty() && fuel > 0 {
        let net = env.net;
        let node = choose|node: NodeId| is_first(st.scope, node);
        let dropped = st.drop_fan(node);
        let main = env.link(node, 0);
        law_variables_are_known(env, dropped, main, fuel);
        lemma_split_follows(env, dropped, node, fuel);
        if let Outcome::Done((split, after)) = read_split(env, dropped, node, fuel) {
            assert(follows(net, st, dropped));
            lemma_follows_trans(net, st, dropped, after);
            lemma_all_stay_known(net, st, after, term);
            if let Outcome::Done((val, mid)) = read(env, dropped, main, fuel) {
                lemma_declares_follow(env, mid, Port(node, 1), Port(node, 2));
                lemma_all_stay_known(net, mid, after, val);
            }
            lemma_place_known(after, term, split, uses(term, split));
            lemma_splits_known(
                env,
                after,
                place(term, split, uses(term, split)),
                (fuel - 1) as nat,
            );
        }
    }
}

proof fn lemma_declares_follow(env: Env, st: ReadState, fst: Port, snd: Port)
    ensures
        declare(env, st, fst) matches Outcome::Done((_, mid)) ==> (declare(
            env,
            mid,
            snd,
        ) matches Outcome::Done((_, after)) ==> follows(env.net, st, after)),
{
}

/// It is known what each variable of the result of a readback stands for. In particular no
/// cycle is cut without an error.
pub proof fn law_readback_knows_its_variables(
    net: INet,
    labels: Labels,
    linear: bool,
    fuel: nat,
)
    ensures
        readback(net, labels, linear, fuel) matches Outcome::Done((term, errors)) ==> exists|
            st: ReadState,
        | #[trigger] all_known(st, term) && st.errors == errors,
{
    let env = start(net, labels, linear);
    let st = ReadState::empty();
    let next = env.link(0, 1);
    if net.has_node(0) {
        law_variables_are_known(env, st, next, fuel);
        if let Outcome::Done((term, mid)) = read(env, st, next, fuel) {
            lemma_splits_known(env, mid, term, fuel);
            if let Outcome::Done((term, after)) = insert_splits(env, mid, term, fuel) {
                lemma_mark_known(after, term, free(term));
                assert(all_known(after, mark(term, free(term))) && after.errors == after.errors);
            }
        }
    }
}

} // verus!
