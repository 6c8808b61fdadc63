//! What a net means as a term.
//!
//! Readback walks a net from its root, and gives a term for each port that it enters. What it
//! gives depends on what it met before, which is the state of the walk. A walk need not end: a
//! net can be cyclic. So the meaning of a port is given for a bound on the depth of the
//! walk, the fuel. Where a walk ends, more fuel does not change what it gives.
use crate::error::ReadbackError;
use crate::labels::{tag_of, Labels};
use crate::name::{ellipsis, letters, pred_name};
use crate::namegen::{is_used, Names};
use crate::net::{CtrKind, INet, NodeId, NodeKind, Port, SlotId};
use crate::num::{native_op, num_of, type_of, word_flipped, word_payload, word_tag, NumType};
use crate::scope::{free, mark, rename};
use crate::split::{place, uses, SplitModel};
use crate::term::{FanKind, PatternModel, TermModel};
use crate::tuple::tuple_check;
use vstd::prelude::*;

verus! {

/// How a walk ends.
pub enum Outcome<T> {
    /// It gives a result.
    Done(T),
    /// It cannot go on: it leaves the net, enters a slot that the node does not have, meets a
    /// number that is no operator where one has to be, looks for the leaves of a net that has no
    /// end, or runs out of names.
    Stuck,
    /// It goes deeper than the fuel lasts.
    Deeper,
}

/// What does not change while a port is read: the net, the names of the labels and, unless the
/// net is known to be linear, the sides from which the duplications on the way here were
/// entered, for each label the last one at the end.
pub struct Env {
    pub net: INet,
    pub labels: Labels,
    pub dups: Option<Map<u16, Seq<SlotId>>>,
}

/// What a walk has met.
#[verifier::ext_equal]
pub struct ReadState {
    /// The fans whose split is still to be inserted.
    pub scope: Set<NodeId>,
    /// The fans that were ever added to the scope.
    pub seen_fans: Set<NodeId>,
    /// The ports that were entered.
    pub seen: Set<Port>,
    /// The names of the variables.
    pub names: Names,
    /// The errors so far.
    pub errors: Seq<ReadbackError>,
}

/// The argument of a numeric operation.
pub enum NumArgModel {
    /// An operator symbol.
    Sym(int),
    /// A number.
    Num(NumType, int),
    /// An operator that was applied to a number.
    Par(int, int),
    /// Any other term.
    Oth(TermModel),
}

impl ReadState {
    /// Nothing was met yet.
    pub open spec fn empty() -> ReadState {
        ReadState {
            scope: Set::empty(),
            seen_fans: Set::empty(),
            seen: Set::empty(),
            names: Names::empty(),
            errors: seq![],
        }
    }

    /// A port was entered.
    pub open spec fn see(self, port: Port) -> ReadState {
        ReadState { seen: self.seen.insert(port), ..self }
    }

    /// An error was met.
    pub open spec fn fail(self, error: ReadbackError) -> ReadState {
        ReadState { errors: self.errors.push(error), ..self }
    }

    /// The variable at a port has a name.
    pub open spec fn name(self, port: Port) -> ReadState {
        ReadState { names: self.names.with_port(port), ..self }
    }

    /// A name was made up.
    pub open spec fn name_unique(self) -> ReadState {
        ReadState { names: self.names.after_unique(), ..self }
    }

    /// A fan was met. It is added to the scope the first time only.
    pub open spec fn meet_fan(self, node: NodeId) -> ReadState {
        if self.seen_fans.contains(node) {
            self
        } else {
            ReadState {
                scope: self.scope.insert(node),
                seen_fans: self.seen_fans.insert(node),
                ..self
            }
        }
    }

    /// A fan needs no split.
    pub open spec fn drop_fan(self, node: NodeId) -> ReadState {
        ReadState { scope: self.scope.remove(node), ..self }
    }
}

impl Env {
    /// The port that a port of the net is linked to.
    pub open spec fn link(self, node: NodeId, slot: SlotId) -> Port {
        self.net.link_of(Port(node, slot))
    }

    /// The side from which the last duplication with a label was entered, if there is one.
    pub open spec fn last_side(self, label: u16) -> Option<SlotId> {
        match self.dups {
            Some(dups) if dups[label].len() > 0 => Some(dups[label].last()),
            _ => None,
        }
    }

    /// A duplication is entered from a side.
    pub open spec fn enter_dup(self, label: u16, slot: SlotId) -> Env {
        Env {
            dups: match self.dups {
                Some(dups) => Some(dups.insert(label, dups[label].push(slot))),
                None => None,
            },
            ..self
        }
    }

    /// The last duplication with a label is resolved.
    pub open spec fn leave_dup(self, label: u16) -> Env {
        Env {
            dups: match self.dups {
                Some(dups) => Some(dups.insert(label, dups[label].drop_last())),
                None => None,
            },
            ..self
        }
    }
}

/// The name that a declaration gives to the variable at a port, and the state after it.
pub open spec fn declare(env: Env, st: ReadState, port: Port) -> Outcome<
    (Option<Seq<char>>, ReadState),
> {
    if !env.net.has_node(env.net.link_of(port).0) {
        Outcome::Stuck
    } else if !is_used(env.net, port) {
        Outcome::Done((None, st))
    } else if st.names.can_name(port) {
        Outcome::Done((Some(st.name(port).names.name_of(port)), st.name(port)))
    } else {
        Outcome::Stuck
    }
}

/// The variable at a port, as a term.
pub open spec fn variable(st: ReadState, port: Port) -> Outcome<(TermModel, ReadState)> {
    if st.names.can_name(port) {
        Outcome::Done((TermModel::Var { nam: st.name(port).names.name_of(port) }, st.name(port)))
    } else {
        Outcome::Stuck
    }
}

/// The word of a number node as the argument of an operation, and whether it is flipped.
pub open spec fn number_arg(word: u32) -> (bool, NumArgModel) {
    let arg = if word_tag(word) == 0 {
        NumArgModel::Sym(word_payload(word) % 16)
    } else if word_tag(word) <= 3 {
        NumArgModel::Num(type_of(word_tag(word)), word_payload(word))
    } else {
        NumArgModel::Par(word_tag(word), word_payload(word))
    };
    (word_flipped(word), arg)
}

/// A number as a term.
pub open spec fn number(bits: int, typ: NumType) -> TermModel {
    TermModel::Num { val: num_of(bits, typ) }
}

/// An operation, unless the tag stands for no operator.
pub open spec fn operation(
    tag: int,
    typ: NumType,
    fst: TermModel,
    snd: TermModel,
) -> Option<TermModel> {
    match native_op(tag, typ) {
        Some(opr) => Some(TermModel::Oper { opr, fst: Box::new(fst), snd: Box::new(snd) }),
        None => None,
    }
}

/// The meaning of a number node: a number, or an operation that lacks arguments.
pub open spec fn number_term(word: u32) -> Option<TermModel> {
    let (flip, arg) = number_arg(word);
    match arg {
        NumArgModel::Sym(tag) => operation(tag, NumType::U24, TermModel::Error, TermModel::Error),
        NumArgModel::Num(typ, bits) => Some(number(bits, typ)),
        NumArgModel::Par(tag, bits) => if flip {
            operation(tag, NumType::U24, number(bits, NumType::U24), TermModel::Error)
        } else {
            operation(tag, NumType::U24, TermModel::Error, number(bits, NumType::U24))
        },
        NumArgModel::Oth(term) => Some(term),
    }
}

/// Whether the two arguments of an operation node make an operation.
pub open spec fn are_operands(fst: NumArgModel, snd: NumArgModel) -> bool {
    match (fst, snd) {
        (NumArgModel::Sym(_), NumArgModel::Num(_, _)) => true,
        (NumArgModel::Num(_, _), NumArgModel::Sym(_)) => true,
        (NumArgModel::Num(_, _), NumArgModel::Par(_, _)) => true,
        (NumArgModel::Par(_, _), NumArgModel::Num(_, _)) => true,
        (NumArgModel::Sym(_), NumArgModel::Oth(_)) => true,
        (NumArgModel::Oth(_), NumArgModel::Sym(_)) => true,
        (NumArgModel::Par(_, _), NumArgModel::Oth(_)) => true,
        (NumArgModel::Oth(_), NumArgModel::Par(_, _)) => true,
        _ => false,
    }
}

/// The operation that two arguments make. A number gives the operation its type; without one it
/// is taken to be on unsigned integers. Where there is one operand only, the other one is left
/// open.
pub open spec fn operands(fst: NumArgModel, snd: NumArgModel) -> Option<TermModel> {
    match (fst, snd) {
        (NumArgModel::Sym(tag), NumArgModel::Num(typ, bits)) => {
            operation(tag, typ, number(bits, typ), TermModel::Error)
        },
        (NumArgModel::Num(typ, bits), NumArgModel::Sym(tag)) => {
            operation(tag, typ, number(bits, typ), TermModel::Error)
        },
        (NumArgModel::Num(typ, bits1), NumArgModel::Par(tag, bits2)) => {
            operation(tag, typ, number(bits1, typ), number(bits2, typ))
        },
        (NumArgModel::Par(tag, bits1), NumArgModel::Num(typ, bits2)) => {
            operation(tag, typ, number(bits1, typ), number(bits2, typ))
        },
        (NumArgModel::Sym(tag), NumArgModel::Oth(term)) => {
            operation(tag, NumType::U24, term, TermModel::Error)
        },
        (NumArgModel::Oth(term), NumArgModel::Sym(tag)) => {
            operation(tag, NumType::U24, term, TermModel::Error)
        },
        (NumArgModel::Par(tag, bits), NumArgModel::Oth(term)) => {
            operation(tag, NumType::U24, number(bits, NumType::U24), term)
        },
        (NumArgModel::Oth(term), NumArgModel::Par(tag, bits)) => {
            operation(tag, NumType::U24, term, number(bits, NumType::U24))
        },
        _ => None,
    }
}

/// The term for a port, and the state after it was read.
pub open spec fn read(env: Env, st: ReadState, next: Port, fuel: nat) -> Outcome<
    (TermModel, ReadState),
>
    decreases fuel, 0nat,
{
    if fuel == 0 {
        Outcome::Deeper
    } else if env.dups is None && st.seen.contains(next) {
        Outcome::Done((TermModel::Var { nam: ellipsis() }, st.fail(ReadbackError::Cyclic)))
    } else if !env.net.has_node(next.0) {
        Outcome::Stuck
    } else {
        let st = st.see(next);
        let fuel = (fuel - 1) as nat;
        match env.net.kind(next.0) {
            NodeKind::Era => if next.1 == 0 {
                Outcome::Done((TermModel::Era, st))
            } else {
                Outcome::Stuck
            },
            NodeKind::Ctr(CtrKind::Con(label)) => read_con(env, st, next, label, fuel),
            NodeKind::Ctr(CtrKind::Tup(label)) => {
                read_fan(env, st, next, FanKind::Tup, label, fuel)
            },
            NodeKind::Ctr(CtrKind::Dup(label)) => {
                read_fan(env, st, next, FanKind::Dup, Some(label), fuel)
            },
            NodeKind::Mat => read_mat(env, st, next, fuel),
            NodeKind::Ref { def_name } => Outcome::Done((TermModel::Ref { nam: def_name@ }, st)),
            NodeKind::Num { val } => match number_term(val) {
                Some(term) => Outcome::Done((term, st)),
                None => Outcome::Stuck,
            },
            NodeKind::Opr => read_opr(env, st, next, fuel),
            NodeKind::Rot => {
                Outcome::Done((TermModel::Error, st.fail(ReadbackError::ReachedRoot)))
            },
        }
    }
}

/// The terms for two ports, the first one read first.
pub open spec fn read_two(env: Env, st: ReadState, fst: Port, snd: Port, fuel: nat) -> Outcome<
    (TermModel, TermModel, ReadState),
>
    decreases fuel, 1nat,
{
    match read(env, st, fst, fuel) {
        Outcome::Done((fst, st)) => match read(env, st, snd, fuel) {
            Outcome::Done((snd, st)) => Outcome::Done((fst, snd, st)),
            Outcome::Stuck => Outcome::Stuck,
            Outcome::Deeper => Outcome::Deeper,
        },
        Outcome::Stuck => Outcome::Stuck,
        Outcome::Deeper => Outcome::Deeper,
    }
}

/// The term for a port of a constructor. At its main port it is a tuple or a lambda, at the
/// first auxiliary port a variable, and at the second one an application.
pub open spec fn read_con(
    env: Env,
    st: ReadState,
    next: Port,
    label: Option<u16>,
    fuel: nat,
) -> Outcome<(TermModel, ReadState)>
    decreases fuel, 2nat,
{
    let node = next.0;
    let tag = tag_of(env.labels.con@, label);
    if next.1 == 0 {
        match tuple_check(env.net, node) {
            None => Outcome::Stuck,
            Some(true) => match read_two(env, st, env.link(node, 1), env.link(node, 2), fuel) {
                Outcome::Done((lft, rgt, st)) => Outcome::Done(
                    (TermModel::Fan { fan: FanKind::Tup, tag, els: seq![lft, rgt] }, st),
                ),
                Outcome::Stuck => Outcome::Stuck,
                Outcome::Deeper => Outcome::Deeper,
            },
            Some(false) => match declare(env, st, Port(node, 1)) {
                Outcome::Done((nam, st)) => match read(env, st, env.link(node, 2), fuel) {
                    Outcome::Done((bod, st)) => Outcome::Done(
                        (
                            TermModel::Lam { tag, pat: PatternModel::Var(nam), bod: Box::new(bod) },
                            st,
                        ),
                    ),
                    Outcome::Stuck => Outcome::Stuck,
                    Outcome::Deeper => Outcome::Deeper,
                },
                Outcome::Stuck => Outcome::Stuck,
                Outcome::Deeper => Outcome::Deeper,
            },
        }
    } else if next.1 == 1 {
        variable(st, next)
    } else if next.1 == 2 {
        match read_two(env, st, env.link(node, 0), env.link(node, 1), fuel) {
            Outcome::Done((fun, arg, st)) => Outcome::Done(
                (TermModel::App { tag, fun: Box::new(fun), arg: Box::new(arg) }, st),
            ),
            Outcome::Stuck => Outcome::Stuck,
            Outcome::Deeper => Outcome::Deeper,
        }
    } else {
        Outcome::Stuck
    }
}

/// The name that a switch binds the number to: the variable that it matches on, or a name that
/// is made up.
pub open spec fn bound_name(arg: TermModel, st: ReadState) -> Outcome<(Seq<char>, ReadState)> {
    match arg {
        TermModel::Var { nam } => Outcome::Done((nam, st)),
        _ => if st.names.next < u64::MAX {
            Outcome::Done((letters(st.names.next as nat), st.name_unique()))
        } else {
            Outcome::Stuck
        },
    }
}

/// The second arm of a switch: the body of the lambda that takes the predecessor, with its
/// variable called after the number. An arm that is no lambda is an error.
pub open spec fn pred_arm(succ: TermModel, bnd: Seq<char>, st: ReadState) -> (
    TermModel,
    ReadState,
) {
    match succ {
        TermModel::Lam { pat: PatternModel::Var(Some(nam)), bod, .. } => (
            rename(*bod, nam, pred_name(bnd)),
            st,
        ),
        TermModel::Lam { pat: PatternModel::Var(None), bod, .. } => (*bod, st),
        _ => (succ, st.fail(ReadbackError::InvalidNumericMatch)),
    }
}

/// A switch with two arms on a number.
pub open spec fn switch_on(
    arg: TermModel,
    bnd: Seq<char>,
    zero: TermModel,
    succ: TermModel,
) -> TermModel {
    TermModel::Swt {
        arg: Box::new(arg),
        bnd: Some(bnd),
        with: seq![],
        pred: None,
        arms: seq![zero, succ],
    }
}

/// Whether a node is a constructor without a label.
pub open spec fn is_plain_con(net: INet, node: NodeId) -> bool {
    net.kind(node) == NodeKind::Ctr(CtrKind::Con(None))
}

/// The term for a port of a switch node: a switch at the second auxiliary port, an error at the
/// others. The arms are held by a constructor that is linked to its first auxiliary port.
pub open spec fn read_mat(env: Env, st: ReadState, next: Port, fuel: nat) -> Outcome<
    (TermModel, ReadState),
>
    decreases fuel, 2nat,
{
    let node = next.0;
    let sel = env.link(node, 1).0;
    if next.1 != 2 {
        Outcome::Done((TermModel::Error, st.fail(ReadbackError::InvalidNumericMatch)))
    } else {
        match read(env, st, env.link(node, 0), fuel) {
            Outcome::Done((arg, st)) => match bound_name(arg, st) {
                Outcome::Done((bnd, st)) => if !env.net.has_node(sel) {
                    Outcome::Stuck
                } else if is_plain_con(env.net, sel) {
                    match read_two(env, st, env.link(sel, 1), env.link(sel, 2), fuel) {
                        Outcome::Done((zero, succ, st)) => {
                            let (succ, st) = pred_arm(succ, bnd, st);
                            Outcome::Done((switch_on(arg, bnd, zero, succ), st))
                        },
                        Outcome::Stuck => Outcome::Stuck,
                        Outcome::Deeper => Outcome::Deeper,
                    }
                } else {
                    Outcome::Done(
                        (
                            switch_on(arg, bnd, TermModel::Error, TermModel::Error),
                            st.fail(ReadbackError::InvalidNumericMatch),
                        ),
                    )
                },
                Outcome::Stuck => Outcome::Stuck,
                Outcome::Deeper => Outcome::Deeper,
            },
            Outcome::Stuck => Outcome::Stuck,
            Outcome::Deeper => Outcome::Deeper,
        }
    }
}

/// Whether the two auxiliary ports of a node are linked to those of a node of the same kind:
/// then the node only puts together what that one took apart.
pub open spec fn is_decayed(net: INet, node: NodeId) -> bool {
    let fst = net.link_of(Port(node, 1));
    let snd = net.link_of(Port(node, 2));
    net.kind(node) is Ctr && fst.1 == 1 && snd.1 == 2 && fst.0 == snd.0 && net.kind(fst.0)
        == net.kind(node)
}

/// What is below the auxiliary ports of a fan: one term when the fan decays, else one for each
/// of the two ports.
pub open spec fn decay(env: Env, st: ReadState, node: NodeId, fuel: nat) -> Outcome<
    (Result<TermModel, (TermModel, TermModel)>, ReadState),
>
    decreases fuel, 2nat,
{
    let fst = env.link(node, 1);
    let snd = env.link(node, 2);
    if env.net.kind(node) is Ctr && fst.1 == 1 && snd.1 == 2 && fst.0 == snd.0
        && !env.net.has_node(fst.0) {
        Outcome::Stuck
    } else if is_decayed(env.net, node) {
        match read(env, st.drop_fan(fst.0), env.link(fst.0, 0), fuel) {
            Outcome::Done((term, st)) => Outcome::Done((Ok(term), st)),
            Outcome::Stuck => Outcome::Stuck,
            Outcome::Deeper => Outcome::Deeper,
        }
    } else {
        match read_two(env, st, fst, snd, fuel) {
            Outcome::Done((fst, snd, st)) => Outcome::Done((Err((fst, snd)), st)),
            Outcome::Stuck => Outcome::Stuck,
            Outcome::Deeper => Outcome::Deeper,
        }
    }
}

/// The term for a port of a fan. At its main port it is a pair, or the side of a superposition
/// that the duplication on the way here was entered from. At an auxiliary port it is a
/// variable, and its split is left for later; unless the net may be non-linear, where
/// what is below a duplication is read in its place.
pub open spec fn read_fan(
    env: Env,
    st: ReadState,
    next: Port,
    fan: FanKind,
    label: Option<u16>,
    fuel: nat,
) -> Outcome<(TermModel, ReadState)>
    decreases fuel, 3nat,
{
    let node = next.0;
    if next.1 == 0 {
        if fan == FanKind::Dup && env.last_side(label->0) is Some {
            let side = env.last_side(label->0)->0;
            if side > 2 {
                Outcome::Stuck
            } else {
                read(env.leave_dup(label->0), st, env.link(node, side), fuel)
            }
        } else {
            match decay(env, st, node, fuel) {
                Outcome::Done((Ok(term), st)) => Outcome::Done((term, st)),
                Outcome::Done((Err((fst, snd)), st)) => Outcome::Done(
                    (
                        TermModel::Fan {
                            fan,
                            tag: tag_of(env.labels.fan_labels(fan), label),
                            els: seq![fst, snd],
                        },
                        st,
                    ),
                ),
                Outcome::Stuck => Outcome::Stuck,
                Outcome::Deeper => Outcome::Deeper,
            }
        }
    } else if next.1 <= 2 {
        if fan == FanKind::Dup && env.dups is Some {
            read(env.enter_dup(label->0, next.1), st, env.link(node, 0), fuel)
        } else {
            variable(st.meet_fan(node), next)
        }
    } else {
        Outcome::Stuck
    }
}

/// The argument of a numeric operation at a port, and whether it is flipped.
pub open spec fn read_arg(env: Env, st: ReadState, next: Port, fuel: nat) -> Outcome<
    (bool, NumArgModel, ReadState),
>
    decreases fuel, 1nat,
{
    if !env.net.has_node(next.0) {
        Outcome::Stuck
    } else if let NodeKind::Num { val } = env.net.kind(next.0) {
        let (flip, arg) = number_arg(val);
        Outcome::Done((flip, arg, st.see(next)))
    } else {
        match read(env, st, next, fuel) {
            Outcome::Done((term, st)) => Outcome::Done((false, NumArgModel::Oth(term), st)),
            Outcome::Stuck => Outcome::Stuck,
            Outcome::Deeper => Outcome::Deeper,
        }
    }
}

/// The second operand of an operation whose first half was read. An operator is an error.
pub open spec fn second_operand(arg: NumArgModel, st: ReadState) -> (TermModel, ReadState) {
    match arg {
        NumArgModel::Num(typ, bits) => (number(bits, typ), st),
        NumArgModel::Oth(term) => (term, st),
        _ => (TermModel::Error, st.fail(ReadbackError::InvalidNumericOp)),
    }
}

/// The second half of a numeric operation: it completes the operation that the first half gave.
pub open spec fn read_second_half(env: Env, st: ReadState, node: NodeId, fuel: nat) -> Outcome<
    (TermModel, ReadState),
>
    decreases fuel, 2nat,
{
    match read(env, st, env.link(node, 0), fuel) {
        Outcome::Done((TermModel::Oper { opr, fst, .. }, st)) => match read_arg(
            env,
            st,
            env.link(node, 1),
            fuel,
        ) {
            Outcome::Done((flip, arg, st)) => {
                let (snd, st) = second_operand(arg, st);
                let (fst, snd) = if flip {
                    (snd, *fst)
                } else {
                    (*fst, snd)
                };
                Outcome::Done(
                    (TermModel::Oper { opr, fst: Box::new(fst), snd: Box::new(snd) }, st),
                )
            },
            Outcome::Stuck => Outcome::Stuck,
            Outcome::Deeper => Outcome::Deeper,
        },
        Outcome::Done((_, st)) => Outcome::Done(
            (TermModel::Error, st.fail(ReadbackError::InvalidNumericOp)),
        ),
        Outcome::Stuck => Outcome::Stuck,
        Outcome::Deeper => Outcome::Deeper,
    }
}

/// The first half of a numeric operation, from its two arguments. They change places when just
/// one of them is flipped.
pub open spec fn read_first_half(env: Env, st: ReadState, node: NodeId, fuel: nat) -> Outcome<
    (TermModel, ReadState),
>
    decreases fuel, 2nat,
{
    match read_arg(env, st, env.link(node, 0), fuel) {
        Outcome::Done((flip0, arg0, st)) => match read_arg(env, st, env.link(node, 1), fuel) {
            Outcome::Done((flip1, arg1, st)) => {
                let (fst, snd) = if flip0 != flip1 {
                    (arg1, arg0)
                } else {
                    (arg0, arg1)
                };
                if !are_operands(fst, snd) {
                    Outcome::Done((TermModel::Error, st.fail(ReadbackError::InvalidNumericOp)))
                } else {
                    match operands(fst, snd) {
                        Some(term) => Outcome::Done((term, st)),
                        None => Outcome::Stuck,
                    }
                }
            },
            Outcome::Stuck => Outcome::Stuck,
            Outcome::Deeper => Outcome::Deeper,
        },
        Outcome::Stuck => Outcome::Stuck,
        Outcome::Deeper => Outcome::Deeper,
    }
}

/// The term for a port of an operation node: a half of an operation at the second auxiliary
/// port, an error at the others.
pub open spec fn read_opr(env: Env, st: ReadState, next: Port, fuel: nat) -> Outcome<
    (TermModel, ReadState),
>
    decreases fuel, 3nat,
{
    let node = next.0;
    if next.1 != 2 {
        Outcome::Done((TermModel::Error, st.fail(ReadbackError::InvalidNumericOp)))
    } else if !env.net.has_node(env.link(node, 0).0) {
        Outcome::Stuck
    } else if env.net.kind(env.link(node, 0).0) is Opr {
        read_second_half(env, st, node, fuel)
    } else {
        read_first_half(env, st, node, fuel)
    }
}

/// The kind of a fan and its label, if a node is one.
pub open spec fn fan_of(kind: NodeKind) -> Option<(FanKind, Option<u16>)> {
    match kind {
        NodeKind::Ctr(CtrKind::Tup(label)) => Some((FanKind::Tup, label)),
        NodeKind::Ctr(CtrKind::Dup(label)) => Some((FanKind::Dup, Some(label))),
        _ => None,
    }
}

/// Whether a node is the first one, by its number, of a set.
pub open spec fn is_first(scope: Set<NodeId>, node: NodeId) -> bool {
    scope.contains(node) && forall|other: NodeId| scope.contains(other) ==> node <= other
}

/// The split of a fan, and the state after its value was read.
pub open spec fn read_split(env: Env, st: ReadState, node: NodeId, fuel: nat) -> Outcome<
    (SplitModel, ReadState),
> {
    if !env.net.has_node(node) {
        Outcome::Stuck
    } else {
        match read(env, st, env.link(node, 0), fuel) {
            Outcome::Done((val, st)) => match declare(env, st, Port(node, 1)) {
                Outcome::Done((fst, st)) => match declare(env, st, Port(node, 2)) {
                    Outcome::Done((snd, st)) => match fan_of(env.net.kind(node)) {
                        Some((fan, label)) => Outcome::Done(
                            (
                                SplitModel {
                                    fan,
                                    tag: tag_of(env.labels.fan_labels(fan), label),
                                    fst,
                                    snd,
                                    val,
                                },
                                st,
                            ),
                        ),
                        None => Outcome::Stuck,
                    },
                    Outcome::Stuck => Outcome::Stuck,
                    Outcome::Deeper => Outcome::Deeper,
                },
                Outcome::Stuck => Outcome::Stuck,
                Outcome::Deeper => Outcome::Deeper,
            },
            Outcome::Stuck => Outcome::Stuck,
            Outcome::Deeper => Outcome::Deeper,
        }
    }
}

/// A term with the splits of the fans in the scope inserted, the fan with the least number
/// first, each one around all the uses of its variables. Reading the value of a split can bring
/// other fans into the scope.
pub open spec fn insert_splits(env: Env, st: ReadState, term: TermModel, fuel: nat) -> Outcome<
    (TermModel, ReadState),
>
    decreases fuel,
{
    if st.scope == Set::<NodeId>::empty() {
        Outcome::Done((term, st))
    } else if fuel == 0 {
        Outcome::Deeper
    } else {
        let node = choose|node: NodeId| is_first(st.scope, node);
        match read_split(env, st.drop_fan(node), node, fuel) {
            Outcome::Done((split, st)) => if uses(term, split) >= usize::MAX {
                Outcome::Stuck
            } else {
                insert_splits(
                    env,
                    st,
                    place(term, split, uses(term, split)),
                    (fuel - 1) as nat,
                )
            },
            Outcome::Stuck => Outcome::Stuck,
            Outcome::Deeper => Outcome::Deeper,
        }
    }
}

/// What a readback starts from.
pub open spec fn start(net: INet, labels: Labels, linear: bool) -> Env {
    Env {
        net,
        labels,
        dups: if linear {
            None
        } else {
            Some(Map::new(|label: u16| true, |label: u16| Seq::<SlotId>::empty()))
        },
    }
}

/// The term that a net means, and the errors that were met: the term for the root, with the
/// splits inserted and the variables that are free marked as unscoped.
pub open spec fn readback(net: INet, labels: Labels, linear: bool, fuel: nat) -> Outcome<
    (TermModel, Seq<ReadbackError>),
> {
    let env = start(net, labels, linear);
    if !net.has_node(0) {
        Outcome::Stuck
    } else {
        match read(env, ReadState::empty(), env.link(0, 1), fuel) {
            Outcome::Done((term, st)) => match insert_splits(env, st, term, fuel) {
                Outcome::Done((term, st)) => Outcome::Done((mark(term, free(term)), st.errors)),
                Outcome::Stuck => Outcome::Stuck,
                Outcome::Deeper => Outcome::Deeper,
            },
            Outcome::Stuck => Outcome::Stuck,
            Outcome::Deeper => Outcome::Deeper,
        }
    }
}

/// Whether a net has a meaning as a term.
pub open spec fn readable(net: INet, labels: Labels, linear: bool) -> bool {
    exists|fuel: nat| readback(net, labels, linear, fuel) is Done
}

} // verus!
