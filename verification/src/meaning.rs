//! What each port of a net means, in terms of what the ports that it leads to mean.
use crate::binding::{law_renamed_variable, mentions, switches_avoid, Mention};
use crate::error::ReadbackError;
use crate::labels::Labels;
use crate::model::{
    bound_name, decay, declare, insert_splits, is_first, operands, read, read_arg, read_con,
    read_fan, read_first_half, read_mat, read_opr, read_second_half, read_split, read_two, readable,
    readback, start, variable, Env, NumArgModel, Outcome, ReadState,
};
use crate::name::{letters, pred_name};
use crate::namegen::Names;
use crate::net::{CtrKind, INet, NodeId, NodeKind, Port, SlotId};
use crate::num::{native_op, word_flipped, word_payload, word_tag, Num, NumType};
use crate::scope::{free, mark, rename};
use crate::split::{place, uses, SplitModel};
use crate::term::{complete, FanKind, PatternModel, TagModel, TermModel};
use crate::tuple::tuple_check;
use vstd::prelude::*;

verus! {

/// Whether a port can be entered: in a linear net it was not entered before.
pub open spec fn is_fresh(env: Env, st: ReadState, port: Port) -> bool {
    env.net.has_node(port.0) && (env.dups is None ==> !st.seen.contains(port))
}

/// A port was entered, and nothing else happened.
pub open spec fn entered(st: ReadState, port: Port) -> ReadState {
    ReadState { seen: st.seen.insert(port), ..st }
}

/// An error was added, and nothing else happened.
pub open spec fn failed(st: ReadState, error: ReadbackError) -> ReadState {
    ReadState { errors: st.errors.push(error), ..st }
}

/// The number of the variable at a port: the one that it has, or the next one.
pub open spec fn number_at(st: ReadState, port: Port) -> u64 {
    if st.names.ids.contains_key(port) {
        st.names.ids[port]
    } else {
        st.names.next
    }
}

/// The variable at a port has its number, and nothing else happened.
pub open spec fn numbered(st: ReadState, port: Port) -> ReadState {
    if st.names.ids.contains_key(port) {
        st
    } else {
        ReadState {
            names: Names {
                ids: st.names.ids.insert(port, st.names.next),
                next: (st.names.next + 1) as u64,
            },
            ..st
        }
    }
}

/// Whether a variable at a port can have a number.
pub open spec fn has_number(st: ReadState, port: Port) -> bool {
    st.names.ids.contains_key(port) || st.names.next < u64::MAX
}

/// What is bound to a port: nothing when it is linked to an erasure, else its variable.
pub open spec fn binder_at(env: Env, st: ReadState, port: Port) -> Option<Seq<char>> {
    if env.net.kind(env.net.link_of(port).0) is Era {
        None
    } else {
        Some(letters(number_at(st, port) as nat))
    }
}

/// What is bound to a port is known, and nothing else happened.
pub open spec fn bound(env: Env, st: ReadState, port: Port) -> ReadState {
    if env.net.kind(env.net.link_of(port).0) is Era {
        st
    } else {
        numbered(st, port)
    }
}

/// Whether it can be said what is bound to a port.
pub open spec fn can_bind(env: Env, st: ReadState, port: Port) -> bool {
    &&& env.net.has_node(env.net.link_of(port).0)
    &&& env.net.kind(env.net.link_of(port).0) is Era || has_number(st, port)
}

/// The tag for a label: its name, where it has one, or its number.
pub open spec fn tag_for(names: Map<u16, Seq<char>>, label: Option<u16>) -> TagModel {
    if label is None {
        TagModel::Static
    } else if names.contains_key(label->0) {
        TagModel::Named(names[label->0])
    } else {
        TagModel::Numeric(label->0)
    }
}

/// The number with the given payload and type.
pub open spec fn number_with(payload: int, typ: NumType) -> TermModel {
    let tag: int = match typ {
        NumType::U24 => 1,
        NumType::I24 => 2,
        NumType::F24 => 3,
    };
    TermModel::Num { val: Num { bits: (16 * (payload % 0x100_0000) + tag) as u32 } }
}

/// Whether a word is made of a tag, a payload, a flip bit and bits that nothing is said of.
pub open spec fn is_word(word: u32, tag: int, payload: int, flip: bool, rest: int) -> bool {
    &&& 0 <= tag < 16
    &&& 0 <= payload < 0x100_0000
    &&& 0 <= rest < 8
    &&& word == tag + 16 * payload + (if flip {
        0x1000_0000int
    } else {
        0int
    }) + 0x2000_0000 * rest
}

proof fn lemma_word_parts(word: u32, tag: int, payload: int, flip: bool, rest: int)
    requires
        is_word(word, tag, payload, flip, rest),
    ensures
        word_tag(word) == tag,
        word_payload(word) == payload,
        word_flipped(word) == flip,
{
}

/// An erasure is read as one.
pub proof fn law_erasure(env: Env, st: ReadState, node: NodeId, fuel: nat)
    requires
        is_fresh(env, st, Port(node, 0)),
        env.net.kind(node) is Era,
        fuel > 0,
    ensures
        read(env, st, Port(node, 0), fuel) == Outcome::Done(
            (TermModel::Era, entered(st, Port(node, 0))),
        ),
{
}

/// A reference is read as one to the same definition.
pub proof fn law_reference(env: Env, st: ReadState, port: Port, fuel: nat)
    requires
        is_fresh(env, st, port),
        env.net.kind(port.0) is Ref,
        fuel > 0,
    ensures
        read(env, st, port, fuel) == Outcome::Done(
            (TermModel::Ref { nam: env.net.kind(port.0)->def_name@ }, entered(st, port)),
        ),
{
}

/// The root is no term.
pub proof fn law_root(env: Env, st: ReadState, port: Port, fuel: nat)
    requires
        is_fresh(env, st, port),
        env.net.kind(port.0) is Rot,
        fuel > 0,
    ensures
        read(env, st, port, fuel) == Outcome::Done(
            (TermModel::Error, failed(entered(st, port), ReadbackError::ReachedRoot)),
        ),
{
}

/// A number node whose word has the tag of a type is that number. Any other word is an operation:
/// one that lacks both operands where the word is a symbol, and one with the payload as an
/// operand else, which is the first one when the word is flipped.
pub proof fn law_number(
    env: Env,
    st: ReadState,
    port: Port,
    fuel: nat,
    tag: int,
    payload: int,
    flip: bool,
    rest: int,
)
    requires
        is_fresh(env, st, port),
        env.net.kind(port.0) matches NodeKind::Num { val } && is_word(
            val,
            tag,
            payload,
            flip,
            rest,
        ),
        tag == 0 ==> payload % 16 >= 4,
        fuel > 0,
    ensures
        read(env, st, port, fuel) matches Outcome::Done((term, after)) && {
            &&& after == entered(st, port)
            &&& 1 <= tag <= 3 ==> term == (TermModel::Num {
                val: Num { bits: (tag + 16 * payload) as u32 },
            })
            &&& tag == 0 ==> term == (TermModel::Oper {
                opr: native_op(payload % 16, NumType::U24)->0,
                fst: Box::new(TermModel::Error),
                snd: Box::new(TermModel::Error),
            })
            &&& tag >= 4 && flip ==> term == (TermModel::Oper {
                opr: native_op(tag, NumType::U24)->0,
                fst: Box::new(number_with(payload, NumType::U24)),
                snd: Box::new(TermModel::Error),
            })
            &&& tag >= 4 && !flip ==> term == (TermModel::Oper {
                opr: native_op(tag, NumType::U24)->0,
                fst: Box::new(TermModel::Error),
                snd: Box::new(number_with(payload, NumType::U24)),
            })
        },
{
    let val = env.net.kind(port.0)->val;
    lemma_word_parts(val, tag, payload, flip, rest);
}

/// The first auxiliary port of a constructor is the variable that the lambda binds.
pub proof fn law_variable(env: Env, st: ReadState, node: NodeId, fuel: nat)
    requires
        is_fresh(env, st, Port(node, 1)),
        env.net.kind(node) matches NodeKind::Ctr(CtrKind::Con(_)),
        has_number(st, Port(node, 1)),
        fuel > 0,
    ensures
        read(env, st, Port(node, 1), fuel) == Outcome::Done(
            (
                TermModel::Var { nam: letters(number_at(st, Port(node, 1)) as nat) },
                numbered(entered(st, Port(node, 1)), Port(node, 1)),
            ),
        ),
{
    let next = Port(node, 1);
    let label = env.net.kind(node)->Ctr_0->Con_0;
    assert(st.see(next).name(next) == numbered(entered(st, next), next));
    assert(read_con(env, st.see(next), next, label, (fuel - 1) as nat) == variable(
        st.see(next),
        next,
    ));
}

/// The second auxiliary port of a constructor is an application: the function is what is at its
/// main port, and the argument, read after it, what is at its first auxiliary port.
pub proof fn law_application(
    env: Env,
    st: ReadState,
    node: NodeId,
    label: Option<u16>,
    fuel: nat,
    fun: TermModel,
    mid: ReadState,
    arg: TermModel,
    after: ReadState,
)
    requires
        is_fresh(env, st, Port(node, 2)),
        env.net.kind(node) == NodeKind::Ctr(CtrKind::Con(label)),
        read(env, entered(st, Port(node, 2)), env.net.nodes@[node as int].main, fuel)
            == Outcome::Done((fun, mid)),
        read(env, mid, env.net.nodes@[node as int].aux1, fuel) == Outcome::Done((arg, after)),
    ensures
        read(env, st, Port(node, 2), fuel + 1) == Outcome::Done(
            (
                TermModel::App {
                    tag: tag_for(env.labels.con@, label),
                    fun: Box::new(fun),
                    arg: Box::new(arg),
                },
                after,
            ),
        ),
{
    let next = Port(node, 2);
    assert(read_two(env, st.see(next), env.link(node, 0), env.link(node, 1), fuel)
        == Outcome::Done((fun, arg, after)));
    assert(read_con(env, st.see(next), next, label, fuel) is Done);
}

/// The main port of a constructor that is no tuple is a lambda: it binds the variable of its
/// first auxiliary port, if that is used, and its body is what is at its second one.
pub proof fn law_lambda(
    env: Env,
    st: ReadState,
    node: NodeId,
    label: Option<u16>,
    fuel: nat,
    bod: TermModel,
    after: ReadState,
)
    requires
        is_fresh(env, st, Port(node, 0)),
        env.net.kind(node) == NodeKind::Ctr(CtrKind::Con(label)),
        tuple_check(env.net, node) == Some(false),
        can_bind(env, st, Port(node, 1)),
        read(
            env,
            bound(env, entered(st, Port(node, 0)), Port(node, 1)),
            env.net.nodes@[node as int].aux2,
            fuel,
        ) == Outcome::Done((bod, after)),
    ensures
        read(env, st, Port(node, 0), fuel + 1) == Outcome::Done(
            (
                TermModel::Lam {
                    tag: tag_for(env.labels.con@, label),
                    pat: PatternModel::Var(binder_at(env, st, Port(node, 1))),
                    bod: Box::new(bod),
                },
                after,
            ),
        ),
{
    let next = Port(node, 0);
    lemma_declare(env, st.see(next), Port(node, 1));
    assert(read_con(env, st.see(next), next, label, fuel) is Done);
}

proof fn lemma_declare(env: Env, st: ReadState, port: Port)
    requires
        can_bind(env, st, port),
    ensures
        declare(env, st, port) == Outcome::Done((binder_at(env, st, port), bound(env, st, port))),
{
}

/// The main port of a constructor that is a tuple gives the tuple of what is at its first and at
/// its second auxiliary port.
pub proof fn law_tuple(
    env: Env,
    st: ReadState,
    node: NodeId,
    label: Option<u16>,
    fuel: nat,
    fst: TermModel,
    mid: ReadState,
    snd: TermModel,
    after: ReadState,
)
    requires
        is_fresh(env, st, Port(node, 0)),
        env.net.kind(node) == NodeKind::Ctr(CtrKind::Con(label)),
        tuple_check(env.net, node) == Some(true),
        read(env, entered(st, Port(node, 0)), env.net.nodes@[node as int].aux1, fuel)
            == Outcome::Done((fst, mid)),
        read(env, mid, env.net.nodes@[node as int].aux2, fuel) == Outcome::Done((snd, after)),
    ensures
        read(env, st, Port(node, 0), fuel + 1) == Outcome::Done(
            (
                TermModel::Fan {
                    fan: FanKind::Tup,
                    tag: tag_for(env.labels.con@, label),
                    els: seq![fst, snd],
                },
                after,
            ),
        ),
{
    let next = Port(node, 0);
    assert(read_two(env, st.see(next), env.link(node, 1), env.link(node, 2), fuel)
        == Outcome::Done((fst, snd, after)));
    assert(read_con(env, st.see(next), next, label, fuel) is Done);
}

/// A switch node is an error unless it is entered at its second auxiliary port.
pub proof fn law_switch_elsewhere(env: Env, st: ReadState, port: Port, fuel: nat)
    requires
        is_fresh(env, st, port),
        env.net.kind(port.0) is Mat,
        port.1 != 2,
        fuel > 0,
    ensures
        read(env, st, port, fuel) == Outcome::Done(
            (TermModel::Error, failed(entered(st, port), ReadbackError::InvalidNumericMatch)),
        ),
{
    assert(read_mat(env, st.see(port), port, (fuel - 1) as nat) is Done);
}

/// The name that a switch gives to the number that it matches on: that of the variable, if it is
/// one, else the next one.
pub open spec fn matched_name(arg: TermModel, st: ReadState) -> Seq<char> {
    if arg is Var {
        arg->Var_nam
    } else {
        letters(st.names.next as nat)
    }
}

/// The number that a switch matches on has its name, and nothing else happened.
pub open spec fn matched(arg: TermModel, st: ReadState) -> ReadState {
    if arg is Var {
        st
    } else {
        ReadState {
            names: Names { ids: st.names.ids, next: (st.names.next + 1) as u64 },
            ..st
        }
    }
}

/// The second auxiliary port of a switch node is a switch on what is at its main port. Its first
/// arm is what is at the first auxiliary port of the constructor that holds the arms. Its second
/// arm is the body of the lambda that is at the second one, with the predecessor for the variable
/// of the lambda. Anything but a lambda is an error there.
pub proof fn law_switch(
    env: Env,
    st: ReadState,
    node: NodeId,
    fuel: nat,
    arg: TermModel,
    st1: ReadState,
    zero: TermModel,
    st2: ReadState,
    succ: TermModel,
    st3: ReadState,
)
    requires
        is_fresh(env, st, Port(node, 2)),
        env.net.kind(node) is Mat,
        read(env, entered(st, Port(node, 2)), env.net.nodes@[node as int].main, fuel)
            == Outcome::Done((arg, st1)),
        arg is Var || st1.names.next < u64::MAX,
        env.net.has_node(env.net.nodes@[node as int].aux1.0),
        env.net.kind(env.net.nodes@[node as int].aux1.0) == NodeKind::Ctr(CtrKind::Con(None)),
        read(
            env,
            matched(arg, st1),
            env.net.nodes@[env.net.nodes@[node as int].aux1.0 as int].aux1,
            fuel,
        ) == Outcome::Done((zero, st2)),
        read(
            env,
            st2,
            env.net.nodes@[env.net.nodes@[node as int].aux1.0 as int].aux2,
            fuel,
        ) == Outcome::Done((succ, st3)),
    ensures
        ({
            let bnd = matched_name(arg, st1);
            &&& read(env, st, Port(node, 2), fuel + 1) matches Outcome::Done((term, after))
            &&& term matches TermModel::Swt { arg: on, bnd: name, with, pred, arms }
            &&& *on == arg
            &&& name == Some(bnd)
            &&& with.len() == 0
            &&& pred is None
            &&& arms.len() == 2
            &&& arms[0] == zero
            &&& match succ {
                TermModel::Lam { pat: PatternModel::Var(Some(nam)), bod, .. } => {
                    arms[1] == rename(*bod, nam, pred_name(bnd)) && after == st3
                },
                TermModel::Lam { pat: PatternModel::Var(None), bod, .. } => {
                    arms[1] == *bod && after == st3
                },
                _ => arms[1] == succ && after == failed(st3, ReadbackError::InvalidNumericMatch),
            }
        }),
{
    let next = Port(node, 2);
    let sel = env.link(node, 1).0;
    assert(bound_name(arg, st1) == Outcome::Done((matched_name(arg, st1), matched(arg, st1))));
    assert(read_two(env, matched(arg, st1), env.link(sel, 1), env.link(sel, 2), fuel)
        == Outcome::Done((zero, succ, st3)));
    assert(read_mat(env, st.see(next), next, fuel) is Done);
}

/// A switch whose arms are not held by a constructor without a label is an error in both arms.
pub proof fn law_switch_without_arms(
    env: Env,
    st: ReadState,
    node: NodeId,
    fuel: nat,
    arg: TermModel,
    st1: ReadState,
)
    requires
        is_fresh(env, st, Port(node, 2)),
        env.net.kind(node) is Mat,
        read(env, entered(st, Port(node, 2)), env.net.nodes@[node as int].main, fuel)
            == Outcome::Done((arg, st1)),
        arg is Var || st1.names.next < u64::MAX,
        env.net.has_node(env.net.nodes@[node as int].aux1.0),
        env.net.kind(env.net.nodes@[node as int].aux1.0) != NodeKind::Ctr(CtrKind::Con(None)),
    ensures
        read(env, st, Port(node, 2), fuel + 1) == Outcome::Done(
            (
                TermModel::Swt {
                    arg: Box::new(arg),
                    bnd: Some(matched_name(arg, st1)),
                    with: Seq::empty(),
                    pred: None,
                    arms: seq![TermModel::Error, TermModel::Error],
                },
                failed(matched(arg, st1), ReadbackError::InvalidNumericMatch),
            ),
        ),
{
    let next = Port(node, 2);
    assert(bound_name(arg, st1) == Outcome::Done((matched_name(arg, st1), matched(arg, st1))));
    assert(read_mat(env, st.see(next), next, fuel) is Done);
}

/// Whether the auxiliary ports of a fan are linked, in order, to those of one node that is the same
/// as the fan.
pub open spec fn mirrors(net: INet, node: NodeId) -> bool {
    let fst = net.nodes@[node as int].aux1;
    let snd = net.nodes@[node as int].aux2;
    fst.0 == snd.0 && fst.1 == 1 && snd.1 == 2 && net.nodes@[fst.0 as int].kind
        == net.nodes@[node as int].kind
}

/// The kind and the label of a fan.
pub open spec fn is_fan(net: INet, node: NodeId, fan: FanKind, label: Option<u16>) -> bool {
    net.nodes@[node as int].kind == match fan {
        FanKind::Tup => NodeKind::Ctr(CtrKind::Tup(label)),
        FanKind::Dup => NodeKind::Ctr(CtrKind::Dup(label->0)),
    } && (fan is Dup ==> label is Some)
}

/// Whether no duplication with the label of a fan is open on the way.
pub open spec fn is_unpaired(env: Env, fan: FanKind, label: Option<u16>) -> bool {
    fan is Dup && env.dups is Some ==> env.dups->0[label->0].len() == 0
}

/// The names of the labels of a sort of fan.
pub open spec fn names_of(labels: Labels, fan: FanKind) -> Map<u16, Seq<char>> {
    if fan is Tup {
        labels.tup@
    } else {
        labels.dup@
    }
}

/// The main port of a fan that is not paired with a duplication on the way, and does not just
/// mirror another one, is kept as a fan of the same sort, with the same label, of what is at its
/// first and at its second auxiliary port.
pub proof fn law_fan_is_kept(
    env: Env,
    st: ReadState,
    node: NodeId,
    fan: FanKind,
    label: Option<u16>,
    fuel: nat,
    fst: TermModel,
    mid: ReadState,
    snd: TermModel,
    after: ReadState,
)
    requires
        is_fresh(env, st, Port(node, 0)),
        is_fan(env.net, node, fan, label),
        is_unpaired(env, fan, label),
        env.net.has_node(env.net.nodes@[node as int].aux1.0),
        !mirrors(env.net, node),
        read(env, entered(st, Port(node, 0)), env.net.nodes@[node as int].aux1, fuel)
            == Outcome::Done((fst, mid)),
        read(env, mid, env.net.nodes@[node as int].aux2, fuel) == Outcome::Done((snd, after)),
    ensures
        read(env, st, Port(node, 0), fuel + 1) == Outcome::Done(
            (
                TermModel::Fan {
                    fan,
                    tag: tag_for(names_of(env.labels, fan), label),
                    els: seq![fst, snd],
                },
                after,
            ),
        ),
{
    let next = Port(node, 0);
    let seen = st.see(next);
    assert(env.last_side(label->0) is None || fan is Tup);
    assert(read_two(env, seen, env.link(node, 1), env.link(node, 2), fuel) == Outcome::Done(
        (fst, snd, after),
    ));
    assert(decay(env, seen, node, fuel) == Outcome::Done(
        (Err::<TermModel, (TermModel, TermModel)>((fst, snd)), after),
    ));
    assert(read_fan(env, seen, next, fan, label, fuel) is Done);
}

/// The main port of a fan that is not paired with a duplication on the way, and mirrors another
/// one, is what is at the main port of that one, which needs no split.
pub proof fn law_mirror_is_skipped(
    env: Env,
    st: ReadState,
    node: NodeId,
    fan: FanKind,
    label: Option<u16>,
    fuel: nat,
)
    requires
        is_fresh(env, st, Port(node, 0)),
        is_fan(env.net, node, fan, label),
        is_unpaired(env, fan, label),
        env.net.has_node(env.net.nodes@[node as int].aux1.0),
        mirrors(env.net, node),
    ensures
        ({
            let inner = env.net.nodes@[node as int].aux1.0;
            let seen = entered(st, Port(node, 0));
            read(env, st, Port(node, 0), fuel + 1) == read(
                env,
                ReadState { scope: seen.scope.remove(inner), ..seen },
                env.net.nodes@[inner as int].main,
                fuel,
            )
        }),
{
    let next = Port(node, 0);
    let seen = st.see(next);
    let inner = env.net.nodes@[node as int].aux1.0;
    assert(env.last_side(label->0) is None || fan is Tup);
    assert(decay(env, seen, node, fuel) == match read(
        env,
        seen.drop_fan(inner),
        env.link(inner, 0),
        fuel,
    ) {
        Outcome::Done((term, after)) => Outcome::Done(
            (Ok::<TermModel, (TermModel, TermModel)>(term), after),
        ),
        Outcome::Stuck => Outcome::Stuck,
        Outcome::Deeper => Outcome::Deeper,
    });
    assert(read_fan(env, seen, next, fan, label, fuel) == read(
        env,
        seen.drop_fan(inner),
        env.link(inner, 0),
        fuel,
    ));
}

/// The main port of a superposition that is paired with a duplication on the way is the side of it
/// from which the last one of them was entered, which is then closed.
pub proof fn law_pair_is_resolved(
    env: Env,
    st: ReadState,
    node: NodeId,
    label: u16,
    open: Map<u16, Seq<SlotId>>,
    fuel: nat,
)
    requires
        is_fresh(env, st, Port(node, 0)),
        env.net.kind(node) == NodeKind::Ctr(CtrKind::Dup(label)),
        env.dups == Some(open),
        open[label].len() > 0,
        1 <= open[label].last() <= 2,
    ensures
        ({
            let closed = Env { dups: Some(open.insert(label, open[label].drop_last())), ..env };
            let sides = env.net.nodes@[node as int];
            read(env, st, Port(node, 0), fuel + 1) == read(
                closed,
                entered(st, Port(node, 0)),
                if open[label].last() == 1 {
                    sides.aux1
                } else {
                    sides.aux2
                },
                fuel,
            )
        }),
{
    let next = Port(node, 0);
    assert(env.last_side(label) == Some(open[label].last()));
    assert(read_fan(env, st.see(next), next, FanKind::Dup, Some(label), fuel) == read(
        env.leave_dup(label),
        st.see(next),
        env.link(node, open[label].last()),
        fuel,
    ));
}

/// An auxiliary port of a duplication, in a net that may be non-linear, is what is at its main
/// port, read with the duplication open on that side.
pub proof fn law_duplication_is_entered(
    env: Env,
    st: ReadState,
    node: NodeId,
    label: u16,
    open: Map<u16, Seq<SlotId>>,
    side: SlotId,
    fuel: nat,
)
    requires
        env.net.has_node(node),
        env.net.kind(node) == NodeKind::Ctr(CtrKind::Dup(label)),
        env.dups == Some(open),
        1 <= side <= 2,
    ensures
        read(env, st, Port(node, side), fuel + 1) == read(
            Env { dups: Some(open.insert(label, open[label].push(side))), ..env },
            entered(st, Port(node, side)),
            env.net.nodes@[node as int].main,
            fuel,
        ),
{
    let next = Port(node, side);
    assert(read_fan(env, st.see(next), next, FanKind::Dup, Some(label), fuel) == read(
        env.enter_dup(label, side),
        st.see(next),
        env.link(node, 0),
        fuel,
    ));
}

/// Any other auxiliary port of a fan is its variable. The fan is left for later, the first time
/// that it is met.
pub proof fn law_fan_variable(
    env: Env,
    st: ReadState,
    node: NodeId,
    fan: FanKind,
    label: Option<u16>,
    slot: SlotId,
    fuel: nat,
)
    requires
        is_fresh(env, st, Port(node, slot)),
        is_fan(env.net, node, fan, label),
        fan is Tup || env.dups is None,
        1 <= slot <= 2,
        has_number(st, Port(node, slot)),
        fuel > 0,
    ensures
        ({
            let seen = entered(st, Port(node, slot));
            let met = if st.seen_fans.contains(node) {
                seen
            } else {
                ReadState {
                    scope: st.scope.insert(node),
                    seen_fans: st.seen_fans.insert(node),
                    ..seen
                }
            };
            read(env, st, Port(node, slot), fuel) == Outcome::Done(
                (
                    TermModel::Var { nam: letters(number_at(st, Port(node, slot)) as nat) },
                    numbered(met, Port(node, slot)),
                ),
            )
        }),
{
    let next = Port(node, slot);
    let seen = st.see(next);
    assert(read_fan(env, seen, next, fan, label, (fuel - 1) as nat) == variable(
        seen.meet_fan(node),
        next,
    ));
}

/// The argument of an operation at a number node is made of the parts of its word: a symbol with
/// its low four bits, a number with its type, or an operator that has an operand.
pub proof fn law_word_argument(
    env: Env,
    st: ReadState,
    port: Port,
    fuel: nat,
    tag: int,
    payload: int,
    flip: bool,
    rest: int,
)
    requires
        env.net.has_node(port.0),
        env.net.kind(port.0) matches NodeKind::Num { val } && is_word(
            val,
            tag,
            payload,
            flip,
            rest,
        ),
    ensures
        read_arg(env, st, port, fuel) matches Outcome::Done((flipped, arg, after)) && {
            &&& flipped == flip
            &&& after == entered(st, port)
            &&& tag == 0 ==> arg == NumArgModel::Sym(payload % 16)
            &&& tag == 1 ==> arg == NumArgModel::Num(NumType::U24, payload)
            &&& tag == 2 ==> arg == NumArgModel::Num(NumType::I24, payload)
            &&& tag == 3 ==> arg == NumArgModel::Num(NumType::F24, payload)
            &&& tag >= 4 ==> arg == NumArgModel::Par(tag, payload)
        },
{
    let val = env.net.kind(port.0)->val;
    lemma_word_parts(val, tag, payload, flip, rest);
}

/// The operator that an argument carries, if it does.
pub open spec fn operator_in(arg: NumArgModel) -> Option<int> {
    match arg {
        NumArgModel::Sym(tag) => Some(tag),
        NumArgModel::Par(tag, _) => Some(tag),
        _ => None,
    }
}

/// The operands that an argument carries, as numbers of the given type where they are numbers.
pub open spec fn operands_in(arg: NumArgModel, typ: NumType) -> Seq<TermModel> {
    match arg {
        NumArgModel::Sym(_) => seq![],
        NumArgModel::Num(_, bits) => seq![number_with(bits, typ)],
        NumArgModel::Par(_, bits) => seq![number_with(bits, typ)],
        NumArgModel::Oth(term) => seq![term],
    }
}

/// The type that an argument gives to the operation, if it does.
pub open spec fn type_in(arg: NumArgModel) -> Option<NumType> {
    match arg {
        NumArgModel::Num(typ, _) => Some(typ),
        _ => None,
    }
}

/// Two arguments make an operation when just one of them carries an operator. Its operands are
/// those of the first argument and then those of the second one, where the arguments change
/// places when just one of them is flipped; what is missing is left open at the end. A number
/// gives it its type, which is that of unsigned integers without one. Otherwise it is an error.
pub proof fn law_first_half(
    env: Env,
    st: ReadState,
    node: NodeId,
    fuel: nat,
    flip0: bool,
    arg0: NumArgModel,
    mid: ReadState,
    flip1: bool,
    arg1: NumArgModel,
    after: ReadState,
)
    requires
        is_fresh(env, st, Port(node, 2)),
        env.net.kind(node) is Opr,
        env.net.has_node(env.net.nodes@[node as int].main.0),
        !(env.net.kind(env.net.nodes@[node as int].main.0) is Opr),
        read_arg(env, entered(st, Port(node, 2)), env.net.nodes@[node as int].main, fuel)
            == Outcome::Done((flip0, arg0, mid)),
        read_arg(env, mid, env.net.nodes@[node as int].aux1, fuel) == Outcome::Done(
            (flip1, arg1, after),
        ),
    ensures
        ({
            let fst = if flip0 == flip1 {
                arg0
            } else {
                arg1
            };
            let snd = if flip0 == flip1 {
                arg1
            } else {
                arg0
            };
            let typ = if type_in(fst) is Some {
                type_in(fst)->0
            } else if type_in(snd) is Some {
                type_in(snd)->0
            } else {
                NumType::U24
            };
            let vals = operands_in(fst, typ) + operands_in(snd, typ);
            let tag = if operator_in(fst) is Some {
                operator_in(fst)->0
            } else {
                operator_in(snd)->0
            };
            let res = read(env, st, Port(node, 2), fuel + 1);
            &&& operator_in(fst) is Some != operator_in(snd) is Some && native_op(
                tag,
                typ,
            ) is Some ==> res == Outcome::Done(
                (
                    TermModel::Oper {
                        opr: native_op(tag, typ)->0,
                        fst: Box::new(vals[0]),
                        snd: Box::new(
                            if vals.len() == 2 {
                                vals[1]
                            } else {
                                TermModel::Error
                            },
                        ),
                    },
                    after,
                ),
            )
            &&& operator_in(fst) is Some == operator_in(snd) is Some ==> res == Outcome::Done(
                (TermModel::Error, failed(after, ReadbackError::InvalidNumericOp)),
            )
        }),
{
    let next = Port(node, 2);
    let fst = if flip0 == flip1 {
        arg0
    } else {
        arg1
    };
    let snd = if flip0 == flip1 {
        arg1
    } else {
        arg0
    };
    let half = read_first_half(env, st.see(next), node, fuel);
    assert(read_opr(env, st.see(next), next, fuel) == half);
    assert(read(env, st, next, fuel + 1) == half);
    if operator_in(fst) is Some != operator_in(snd) is Some {
        lemma_operands(fst, snd);
    }
}

proof fn lemma_operands(fst: NumArgModel, snd: NumArgModel)
    requires
        operator_in(fst) is Some != operator_in(snd) is Some,
    ensures
        ({
            let typ = if type_in(fst) is Some {
                type_in(fst)->0
            } else if type_in(snd) is Some {
                type_in(snd)->0
            } else {
                NumType::U24
            };
            let vals = operands_in(fst, typ) + operands_in(snd, typ);
            let tag = if operator_in(fst) is Some {
                operator_in(fst)->0
            } else {
                operator_in(snd)->0
            };
            operands(fst, snd) == match native_op(tag, typ) {
                Some(opr) => Some(
                    TermModel::Oper {
                        opr,
                        fst: Box::new(vals[0]),
                        snd: Box::new(
                            if vals.len() == 2 {
                                vals[1]
                            } else {
                                TermModel::Error
                            },
                        ),
                    },
                ),
                None => None,
            }
        }),
{
}

/// An operation node over another one completes the operation that is read there: its argument is
/// the second operand, or the first one when it is flipped. An argument that carries an operator
/// is an error.
pub proof fn law_second_half(
    env: Env,
    st: ReadState,
    node: NodeId,
    fuel: nat,
    first: TermModel,
    mid: ReadState,
    flip: bool,
    arg: NumArgModel,
    after: ReadState,
)
    requires
        is_fresh(env, st, Port(node, 2)),
        env.net.kind(node) is Opr,
        env.net.has_node(env.net.nodes@[node as int].main.0),
        env.net.kind(env.net.nodes@[node as int].main.0) is Opr,
        read(env, entered(st, Port(node, 2)), env.net.nodes@[node as int].main, fuel)
            == Outcome::Done((first, mid)),
        first is Oper,
        read_arg(env, mid, env.net.nodes@[node as int].aux1, fuel) == Outcome::Done(
            (flip, arg, after),
        ),
    ensures
        read(env, st, Port(node, 2), fuel + 1) matches Outcome::Done((term, end)) && {
            let val = match arg {
                NumArgModel::Num(typ, bits) => number_with(bits, typ),
                NumArgModel::Oth(other) => other,
                _ => TermModel::Error,
            };
            &&& term matches TermModel::Oper { opr, fst, snd }
            &&& opr == first->opr
            &&& !flip ==> *fst == *first->Oper_fst && *snd == val
            &&& flip ==> *fst == val && *snd == *first->Oper_fst
            &&& operator_in(arg) is None ==> end == after
            &&& operator_in(arg) is Some ==> end == failed(after, ReadbackError::InvalidNumericOp)
        },
{
    let next = Port(node, 2);
    let half = read_second_half(env, st.see(next), node, fuel);
    assert(read_opr(env, st.see(next), next, fuel) == half);
    assert(read(env, st, next, fuel + 1) == half);
}

/// So where the argument is at a node that is no number, the operand of the first half comes first
/// and what is at that node second.
pub proof fn law_second_half_keeps_the_order(
    env: Env,
    st: ReadState,
    node: NodeId,
    fuel: nat,
    first: TermModel,
    mid: ReadState,
    second: TermModel,
    after: ReadState,
)
    requires
        is_fresh(env, st, Port(node, 2)),
        env.net.kind(node) is Opr,
        env.net.has_node(env.net.nodes@[node as int].main.0),
        env.net.kind(env.net.nodes@[node as int].main.0) is Opr,
        read(env, entered(st, Port(node, 2)), env.net.nodes@[node as int].main, fuel)
            == Outcome::Done((first, mid)),
        first is Oper,
        env.net.has_node(env.net.nodes@[node as int].aux1.0),
        !(env.net.kind(env.net.nodes@[node as int].aux1.0) is Num),
        read(env, mid, env.net.nodes@[node as int].aux1, fuel) == Outcome::Done((second, after)),
    ensures
        read(env, st, Port(node, 2), fuel + 1) == Outcome::Done(
            (
                TermModel::Oper {
                    opr: first->opr,
                    fst: first->Oper_fst,
                    snd: Box::new(second),
                },
                after,
            ),
        ),
{
    law_second_half(env, st, node, fuel, first, mid, false, NumArgModel::Oth(second), after);
}

/// An operation node over another one that does not give an operation is an error.
pub proof fn law_second_half_without_first(
    env: Env,
    st: ReadState,
    node: NodeId,
    fuel: nat,
    first: TermModel,
    mid: ReadState,
)
    requires
        is_fresh(env, st, Port(node, 2)),
        env.net.kind(node) is Opr,
        env.net.has_node(env.net.nodes@[node as int].main.0),
        env.net.kind(env.net.nodes@[node as int].main.0) is Opr,
        read(env, entered(st, Port(node, 2)), env.net.nodes@[node as int].main, fuel)
            == Outcome::Done((first, mid)),
        !(first is Oper),
    ensures
        read(env, st, Port(node, 2), fuel + 1) == Outcome::Done(
            (TermModel::Error, failed(mid, ReadbackError::InvalidNumericOp)),
        ),
{
    let next = Port(node, 2);
    let half = read_second_half(env, st.see(next), node, fuel);
    assert(read_opr(env, st.see(next), next, fuel) == half);
}

/// An operation node is an error unless it is entered at its second auxiliary port.
pub proof fn law_operation_elsewhere(env: Env, st: ReadState, port: Port, fuel: nat)
    requires
        is_fresh(env, st, port),
        env.net.kind(port.0) is Opr,
        port.1 != 2,
        fuel > 0,
    ensures
        read(env, st, port, fuel) == Outcome::Done(
            (TermModel::Error, failed(entered(st, port), ReadbackError::InvalidNumericOp)),
        ),
{
    assert(read_opr(env, st.see(port), port, (fuel - 1) as nat) is Done);
}

/// Where no fan is left in the scope, nothing is inserted.
pub proof fn law_no_split_is_left(env: Env, st: ReadState, term: TermModel, fuel: nat)
    requires
        forall|node: NodeId| !st.scope.contains(node),
    ensures
        insert_splits(env, st, term, fuel) == Outcome::Done((term, st)),
{
    assert(st.scope =~= Set::empty());
}

/// Otherwise the fan with the least number leaves the scope. What is at its main port is taken
/// apart, and bound to its first and its second auxiliary port, around all the uses of these; and
/// so on with the fans that are then in the scope.
pub proof fn law_first_split(
    env: Env,
    st: ReadState,
    term: TermModel,
    fuel: nat,
    node: NodeId,
    fan: FanKind,
    label: Option<u16>,
    val: TermModel,
    mid: ReadState,
    split: SplitModel,
)
    requires
        st.scope.contains(node),
        forall|other: NodeId| st.scope.contains(other) ==> node <= other,
        env.net.has_node(node),
        is_fan(env.net, node, fan, label),
        read(
            env,
            ReadState { scope: st.scope.remove(node), ..st },
            env.net.nodes@[node as int].main,
            fuel + 1,
        ) == Outcome::Done((val, mid)),
        can_bind(env, mid, Port(node, 1)),
        can_bind(env, bound(env, mid, Port(node, 1)), Port(node, 2)),
        split.fan == fan,
        split.tag == tag_for(names_of(env.labels, fan), label),
        split.fst == binder_at(env, mid, Port(node, 1)),
        split.snd == binder_at(env, bound(env, mid, Port(node, 1)), Port(node, 2)),
        split.val == val,
        uses(term, split) < usize::MAX,
    ensures
        insert_splits(env, st, term, fuel + 1) == insert_splits(
            env,
            bound(env, bound(env, mid, Port(node, 1)), Port(node, 2)),
            place(term, split, uses(term, split)),
            fuel,
        ),
{
    let chosen = choose|node: NodeId| is_first(st.scope, node);
    assert(is_first(st.scope, node));
    assert(is_first(st.scope, chosen));
    lemma_declare(env, mid, Port(node, 1));
    lemma_declare(env, bound(env, mid, Port(node, 1)), Port(node, 2));
    assert(read_split(env, st.drop_fan(node), node, fuel + 1) == Outcome::Done(
        (split, bound(env, bound(env, mid, Port(node, 1)), Port(node, 2))),
    ));
    assert(st.scope != Set::<NodeId>::empty());
}

/// The readback of a net is the term at the root, read with nothing met and no duplication open,
/// with the splits inserted and its free variables marked, and the errors are all those that were
/// met.
pub proof fn law_readback(
    net: INet,
    labels: Labels,
    env: Env,
    fuel: nat,
    st: ReadState,
    term: TermModel,
    mid: ReadState,
    whole: TermModel,
    after: ReadState,
)
    requires
        net.has_node(0),
        env.net == net,
        env.labels == labels,
        env.dups matches Some(open) ==> forall|label: u16| #[trigger]
            open.contains_key(label) && open[label].len() == 0,
        st.scope == Set::<NodeId>::empty(),
        st.seen_fans == Set::<NodeId>::empty(),
        st.seen == Set::<Port>::empty(),
        st.names.ids == Map::<Port, u64>::empty(),
        st.names.next == 0,
        st.errors.len() == 0,
        read(env, st, net.nodes@[0].aux1, fuel) == Outcome::Done((term, mid)),
        insert_splits(env, mid, term, fuel) == Outcome::Done((whole, after)),
    ensures
        readback(net, labels, env.dups is None, fuel) == Outcome::Done(
            (mark(whole, free(whole)), after.errors),
        ),
{
    let from = start(net, labels, env.dups is None);
    if env.dups is Some {
        let open = env.dups->0;
        assert forall|label: u16| #[trigger] open.contains_key(label) && open[label] == Seq::<
            SlotId,
        >::empty() by {
            assert(open.contains_key(label));
            assert(open[label].len() == 0);
            assert(open[label] =~= Seq::<SlotId>::empty());
        }
        assert(open =~= from.dups->0);
    }
    assert(env == from);
    assert(st =~= ReadState::empty());
}

/// The variable of the lambda of the second arm is not free in that arm any more, and the
/// predecessor is if the variable was: it stands for it wherever the variable was used. The name
/// of the predecessor must not be bound in the arm, nor may a switch there bind either name.
pub proof fn law_predecessor_takes_the_place(
    bod: TermModel,
    nam: Seq<char>,
    bnd: Seq<char>,
)
    requires
        complete(bod),
        nam != pred_name(bnd),
        !mentions(bod, Mention::Binder, pred_name(bnd)),
        switches_avoid(bod, nam),
        switches_avoid(bod, pred_name(bnd)),
    ensures
        !free(rename(bod, nam, pred_name(bnd))).contains(nam),
        free(bod).contains(nam) ==> free(rename(bod, nam, pred_name(bnd))).contains(
            pred_name(bnd),
        ),
{
    law_renamed_variable(bod, nam, pred_name(bnd));
}

/// A net that some amount of fuel is enough for is readable.
pub proof fn law_enough_fuel_is_enough(net: INet, labels: Labels, linear: bool, fuel: nat)
    requires
        readback(net, labels, linear, fuel) is Done,
    ensures
        readable(net, labels, linear),
{
}

} // verus!
