//! Single steps of a walk.
use crate::error::ReadbackError;
use crate::model::{
    decay, is_decayed, read, read_arg, read_two, Env, NumArgModel, Outcome, ReadState,
};
use crate::name::ellipsis;
use crate::net::{NodeId, Port};
use crate::term::TermModel;
use vstd::prelude::*;

verus! {

/// In a linear net a port that is entered again is a cycle: it gives the placeholder and an
/// error, and nothing else changes.
pub proof fn law_second_entry_is_cut(env: Env, st: ReadState, next: Port, fuel: nat)
    requires
        env.dups is None,
        st.seen.contains(next),
        fuel > 0,
    ensures
        read(env, st, next, fuel) == Outcome::Done(
            (
                TermModel::Var { nam: ellipsis() },
                ReadState { errors: st.errors.push(ReadbackError::Cyclic), ..st },
            ),
        ),
{
}

/// The argument of an operation at a node that is no number is the term for the port, and is not
/// flipped.
pub proof fn law_other_argument_is_a_term(env: Env, st: ReadState, next: Port, fuel: nat)
    requires
        env.net.has_node(next.0),
        !(env.net.kind(next.0) is Num),
    ensures
        read_arg(env, st, next, fuel) == match read(env, st, next, fuel) {
            Outcome::Done((term, after)) => Outcome::Done((false, NumArgModel::Oth(term), after)),
            Outcome::Stuck => Outcome::Stuck,
            Outcome::Deeper => Outcome::Deeper,
        },
{
}

/// A combinator whose two auxiliary ports are linked, in order, to those of one node of the same
/// kind, with the same label, decays: that node leaves the scope, and what is at its main port is
/// read.
pub proof fn law_decay_reads_the_main_port(
    env: Env,
    st: ReadState,
    node: NodeId,
    inner: NodeId,
    fuel: nat,
)
    requires
        env.net.has_node(node),
        env.net.has_node(inner),
        env.net.kind(node) is Ctr,
        env.link(node, 1) == Port(inner, 1),
        env.link(node, 2) == Port(inner, 2),
        env.net.kind(inner) == env.net.kind(node),
    ensures
        is_decayed(env.net, node),
        decay(env, st, node, fuel) == match read(
            env,
            st.drop_fan(inner),
            env.link(inner, 0),
            fuel,
        ) {
            Outcome::Done((term, after)) => Outcome::Done(
                (Ok::<TermModel, (TermModel, TermModel)>(term), after),
            ),
            Outcome::Stuck => Outcome::Stuck,
            Outcome::Deeper => Outcome::Deeper,
        },
{
}

/// Any other node gives the terms at its two auxiliary ports, the first one read first.
pub proof fn law_no_decay_reads_both_ports(env: Env, st: ReadState, node: NodeId, fuel: nat)
    requires
        env.net.has_node(node),
        env.net.has_node(env.link(node, 1).0),
        forall|inner: NodeId|
            #![trigger env.net.kind(inner)]
            !(env.net.kind(node) is Ctr && env.link(node, 1) == Port(inner, 1) && env.link(node, 2)
                == Port(inner, 2) && env.net.kind(inner) == env.net.kind(node)),
    ensures
        !is_decayed(env.net, node),
        decay(env, st, node, fuel) == match read_two(
            env,
            st,
            env.link(node, 1),
            env.link(node, 2),
            fuel,
        ) {
            Outcome::Done((fst, snd, after)) => Outcome::Done(
                (Err::<TermModel, (TermModel, TermModel)>((fst, snd)), after),
            ),
            Outcome::Stuck => Outcome::Stuck,
            Outcome::Deeper => Outcome::Deeper,
        },
{
    let inner = env.link(node, 1).0;
    assert(env.net.kind(inner) == env.net.kind(inner));
}

} // verus!
