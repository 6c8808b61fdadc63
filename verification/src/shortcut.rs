//! What a walk need not read.
use crate::follow::law_read_only_adds;
use crate::labels::tag_of;
use crate::model::{
    declare, fan_of, is_decayed, read, read_fan, read_split, read_two, Env, Outcome, ReadState,
};
use crate::namegen::law_names_are_unique;
use crate::net::{CtrKind, NodeId, NodeKind, Port, SlotId};
use crate::split::{first_reaching, place, uses, uses_in, SplitModel};
use crate::term::{FanKind, TermModel};
use vstd::prelude::*;

verus! {

/// A duplication of a superposition with the same label is resolved: from either side of the
/// duplication, the walk goes on at that side of the superposition, as if neither were there.
pub proof fn law_superposition_takes_the_side(
    env: Env,
    st: ReadState,
    dup: NodeId,
    sup: NodeId,
    label: u16,
    side: SlotId,
    fuel: nat,
)
    requires
        env.dups is Some,
        env.dups->0.contains_key(label),
        env.net.has_node(dup),
        env.net.has_node(sup),
        env.net.kind(dup) == NodeKind::Ctr(CtrKind::Dup(label)),
        env.net.kind(sup) == NodeKind::Ctr(CtrKind::Dup(label)),
        env.link(dup, 0) == Port(sup, 0),
        1 <= side <= 2,
    ensures
        read(env, st, Port(dup, side), fuel + 2) == read(
            env,
            st.see(Port(dup, side)).see(Port(sup, 0)),
            env.link(sup, side),
            fuel,
        ),
{
    let entered = env.enter_dup(label, side);
    let left = entered.leave_dup(label);
    let st1 = st.see(Port(dup, side));
    let st2 = st1.see(Port(sup, 0));
    assert(env.dups->0[label].push(side).drop_last() =~= env.dups->0[label]);
    assert(left.dups->0 =~= env.dups->0);
    assert(left == env);
    assert(entered.last_side(label) == Some(side));
    assert(read_fan(entered, st2, Port(sup, 0), FanKind::Dup, Some(label), fuel) == read(
        env,
        st2,
        env.link(sup, side),
        fuel,
    ));
    assert(read(entered, st1, Port(sup, 0), fuel + 1) == read_fan(
        entered,
        st2,
        Port(sup, 0),
        FanKind::Dup,
        Some(label),
        fuel,
    ));
    assert(read_fan(env, st1, Port(dup, side), FanKind::Dup, Some(label), fuel + 1) == read(
        entered,
        st1,
        Port(sup, 0),
        fuel + 1,
    ));
}

/// The split of a fan is put right in front of a pair of its two variables.
proof fn lemma_place_around_pair(split: SplitModel, fst: Seq<char>, snd: Seq<char>)
    requires
        split.fst == Some(fst),
        split.snd == Some(snd),
    ensures
        ({
            let pair = TermModel::Fan {
                fan: split.fan,
                tag: split.tag,
                els: seq![TermModel::Var { nam: fst }, TermModel::Var { nam: snd }],
            };
            place(pair, split, uses(pair, split)) == split.before(pair)
        }),
{
    let els = seq![TermModel::Var { nam: fst }, TermModel::Var { nam: snd }];
    let pair = TermModel::Fan { fan: split.fan, tag: split.tag, els };
    assert(uses(els[0], split) == 1);
    assert(uses(els[1], split) == 1);
    assert(uses_in(els, split, 0) == 0);
    assert(uses_in(els, split, 1) == 1);
    assert(uses_in(els, split, 2) == 2);
    assert(first_reaching(els, split, 2, 2) == 2);
    assert(first_reaching(els, split, 2, 1) == 2);
    assert(first_reaching(els, split, 2, 0) == 2);
}

/// Entering a duplication from a side, where it is read in place.
proof fn lemma_entered_in_place(
    env: Env,
    st: ReadState,
    dup: NodeId,
    label: u16,
    side: SlotId,
    fuel: nat,
)
    requires
        env.dups is Some,
        env.net.has_node(dup),
        env.net.kind(dup) == NodeKind::Ctr(CtrKind::Dup(label)),
        1 <= side <= 2,
    ensures
        read(env, st, Port(dup, side), fuel + 1) == read(
            env.enter_dup(label, side),
            st.see(Port(dup, side)),
            env.link(dup, 0),
            fuel,
        ),
{
    let seen = st.see(Port(dup, side));
    assert(read_fan(env, seen, Port(dup, side), FanKind::Dup, Some(label), fuel) == read(
        env.enter_dup(label, side),
        seen,
        env.link(dup, 0),
        fuel,
    ));
}

/// A superposition that only puts together the two sides of a duplication is not there for a
/// walk that takes one of its sides: it goes on at the main port of the duplication, with the
/// same side as the last one. So the side of what is not decayed is the same side of what is.
pub proof fn law_reconstruction_keeps_the_side(
    env: Env,
    st: ReadState,
    node: NodeId,
    label: u16,
    fuel: nat,
)
    requires
        env.dups is Some,
        env.dups->0.contains_key(label),
        env.last_side(label) matches Some(side) && 1 <= side <= 2,
        env.net.has_node(node),
        env.net.has_node(env.link(node, 1).0),
        env.net.kind(node) == NodeKind::Ctr(CtrKind::Dup(label)),
        is_decayed(env.net, node),
    ensures
        read(env, st, Port(node, 0), fuel + 2) == read(
            env,
            st.see(Port(node, 0)).see(Port(env.link(node, 1).0, env.last_side(label)->0)),
            env.link(env.link(node, 1).0, 0),
            fuel,
        ),
{
    let inner = env.link(node, 1).0;
    let side = env.last_side(label)->0;
    let left = env.leave_dup(label);
    let seen = st.see(Port(node, 0));
    assert(env.dups->0[label].drop_last().push(side) =~= env.dups->0[label]);
    assert(left.enter_dup(label, side).dups->0 =~= env.dups->0);
    assert(left.enter_dup(label, side) == env);
    assert(env.link(node, side) == Port(inner, side));
    lemma_entered_in_place(left, seen, inner, label, side, fuel);
    assert(read_fan(env, seen, Port(node, 0), FanKind::Dup, Some(label), fuel + 1) == read(
        left,
        seen,
        Port(inner, side),
        fuel + 1,
    ));
}

/// Whether a duplication is read in place: a walk through a net that may be non-linear goes on
/// below it.
pub open spec fn is_read_in_place(env: Env, node: NodeId) -> bool {
    env.dups is Some && env.net.kind(node) matches NodeKind::Ctr(CtrKind::Dup(_))
}

/// Whether reading the auxiliary ports of a fan gives the two sides of what is at the main port of
/// the duplication that it is linked to: that port is read twice, with the first and with the
/// second side as the last one of the label.
pub open spec fn gives_both_sides(env: Env, st: ReadState, node: NodeId, fuel: nat) -> bool {
    let inner = env.link(node, 1).0;
    let (_, of_fan) = fan_of(env.net.kind(node))->0;
    let label = of_fan->0;
    let main = env.link(inner, 0);
    let less = (fuel - 1) as nat;
    let first = env.enter_dup(label, 1);
    let second = env.enter_dup(label, 2);
    &&& first.last_side(label) == Some(1u64)
    &&& second.last_side(label) == Some(2u64)
    &&& read_two(env, st, env.link(node, 1), env.link(node, 2), fuel) == match read(
        first,
        st.see(Port(inner, 1)),
        main,
        less,
    ) {
        Outcome::Done((a, mid)) => match read(
            second,
            mid.see(Port(inner, 2)),
            main,
            less,
        ) {
            Outcome::Done((b, after)) => Outcome::Done((a, b, after)),
            Outcome::Stuck => Outcome::Stuck,
            Outcome::Deeper => Outcome::Deeper,
        },
        Outcome::Stuck => Outcome::Stuck,
        Outcome::Deeper => Outcome::Deeper,
    }
}

/// Whether reading the auxiliary ports of a fan gives two different variables and leaves the fan
/// that they belong to in the scope, whose split takes apart what is at its main port into the
/// same two variables, with the same tag, and is put right in front of the pair of them.
pub open spec fn gives_a_split_pair(env: Env, st: ReadState, node: NodeId, fuel: nat) -> bool {
    let inner = env.link(node, 1).0;
    let (fan, label) = fan_of(env.net.kind(node))->0;
    let tag = tag_of(env.labels.fan_labels(fan), label);
    &&& read_two(env, st, env.link(node, 1), env.link(node, 2), fuel) matches Outcome::Done(
        (TermModel::Var { nam: a }, TermModel::Var { nam: b }, mid),
    )
    &&& a != b
    &&& mid.scope.contains(inner)
    &&& read_split(env, mid.drop_fan(inner), inner, fuel) matches Outcome::Done(
        (split, _),
    ) ==> {
        let pair = TermModel::Fan {
            fan,
            tag,
            els: seq![TermModel::Var { nam: a }, TermModel::Var { nam: b }],
        };
        &&& split.fan == fan
        &&& split.tag == tag
        &&& split.fst == Some(a)
        &&& split.snd == Some(b)
        &&& read(env, mid.drop_fan(inner), env.link(inner, 0), fuel) matches Outcome::Done(
            (val, _),
        )
        &&& split.val == val
        &&& place(pair, split, uses(pair, split)) == split.before(pair)
    }
}

/// Where a fan decays, nothing but a reconstruction is skipped, of what is at the main port of
/// the fan that it is linked to. Reading its two auxiliary ports instead gives, where
/// duplications are read in place, the two sides of what is at that main port. Otherwise the
/// outcome in place of `val` is `let (a, b) = val; (a, b)`, where `val` is read at the same port.
pub proof fn law_decay_skips_a_reconstruction(env: Env, st: ReadState, node: NodeId, fuel: nat)
    requires
        env.net.has_node(node),
        env.net.has_node(env.link(node, 1).0),
        is_decayed(env.net, node),
        fan_of(env.net.kind(node)) is Some,
        fuel > 0,
        !is_read_in_place(env, node) ==> {
            &&& env.link(env.link(node, 1).0, 1) == Port(node, 1)
            &&& env.link(env.link(node, 1).0, 2) == Port(node, 2)
            &&& env.dups is None ==> !st.seen.contains(env.link(node, 1)) && !st.seen.contains(
                env.link(node, 2),
            )
            &&& !st.seen_fans.contains(env.link(node, 1).0)
            &&& st.names.consistent()
            &&& st.names.next + 2 <= u64::MAX
        },
    ensures
        is_read_in_place(env, node) ==> gives_both_sides(env, st, node, fuel),
        !is_read_in_place(env, node) ==> gives_a_split_pair(env, st, node, fuel),
{
    let net = env.net;
    let inner = env.link(node, 1).0;
    let fst = Port(inner, 1);
    let snd = Port(inner, 2);
    let (fan, label) = fan_of(net.kind(node))->0;
    let f = (fuel - 1) as nat;
    assert(env.link(node, 1) == fst);
    assert(env.link(node, 2) == snd);
    if is_read_in_place(env, node) {
        lemma_entered_in_place(env, st, inner, label->0, 1, f);
        if let Outcome::Done((_, mid)) = read(env, st, fst, fuel) {
            lemma_entered_in_place(env, mid, inner, label->0, 2, f);
        }
    } else {
        let met = st.see(fst).meet_fan(inner);
        let st1 = met.name(fst);
        let st2 = st1.see(snd).name(snd);
        law_names_are_unique(met.names, fst, fst, fst);
        law_names_are_unique(st1.names, snd, fst, fst);
        law_names_are_unique(st2.names, snd, fst, snd);
        let a = st2.names.name_of(fst);
        let b = st2.names.name_of(snd);
        assert(read_fan(env, st.see(fst), fst, fan, label, f) == Outcome::Done(
            (TermModel::Var { nam: a }, st1),
        ));
        assert(read(env, st, fst, fuel) == Outcome::Done((TermModel::Var { nam: a }, st1)));
        assert(st1.see(snd).meet_fan(inner) == st1.see(snd));
        assert(read_fan(env, st1.see(snd), snd, fan, label, f) == Outcome::Done(
            (TermModel::Var { nam: b }, st2),
        ));
        assert(read(env, st1, snd, fuel) == Outcome::Done((TermModel::Var { nam: b }, st2)));
        let dropped = st2.drop_fan(inner);
        if let Outcome::Done((split, _)) = read_split(env, dropped, inner, fuel) {
            law_read_only_adds(env, dropped, env.link(inner, 0), fuel);
            if let Outcome::Done((_, mid)) = read(env, dropped, env.link(inner, 0), fuel) {
                assert(dropped.names.ids.dom().contains(fst));
                assert(dropped.names.ids.dom().contains(snd));
                assert(mid.names.ids.contains_key(fst) && mid.names.ids.contains_key(snd));
                assert(declare(env, mid, fst) == Outcome::Done((Some(a), mid)));
                assert(declare(env, mid, snd) == Outcome::Done((Some(b), mid)));
            }
            lemma_place_around_pair(split, a, b);
        }
    }
}

} // verus!
