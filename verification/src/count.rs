//! How much a walk can still meet, and how many variables a term uses.
use crate::model::ReadState;
use crate::net::{NodeId, Port};
use crate::scope::rename;
use crate::split::{first_reaching, place, uses, uses_in, SplitModel};
use crate::term::TermModel;
use vstd::prelude::*;

verus! {

/// How many ports of a node were not entered.
pub open spec fn unseen_at(seen: Set<Port>, node: NodeId) -> nat {
    let main: nat = if seen.contains(Port(node, 0)) {
        0
    } else {
        1
    };
    let aux1: nat = if seen.contains(Port(node, 1)) {
        0
    } else {
        1
    };
    let aux2: nat = if seen.contains(Port(node, 2)) {
        0
    } else {
        1
    };
    main + aux1 + aux2
}

/// How many ports of the first `n` nodes were not entered.
pub open spec fn unseen(seen: Set<Port>, n: nat) -> nat
    decreases n,
{
    if n == 0 {
        0
    } else {
        unseen(seen, (n - 1) as nat) + unseen_at(seen, (n - 1) as NodeId)
    }
}

pub proof fn lemma_unseen_all(n: nat)
    ensures
        unseen(Set::empty(), n) == 3 * n,
    decreases n,
{
    if n > 0 {
        lemma_unseen_all((n - 1) as nat);
    }
}

/// The more was entered, the less is left.
pub proof fn lemma_unseen_shrinks(a: Set<Port>, b: Set<Port>, n: nat)
    requires
        a.subset_of(b),
    ensures
        unseen(b, n) <= unseen(a, n),
    decreases n,
{
    if n > 0 {
        lemma_unseen_shrinks(a, b, (n - 1) as nat);
    }
}

proof fn lemma_unseen_elsewhere(seen: Set<Port>, port: Port, n: nat)
    requires
        n <= port.0,
    ensures
        unseen(seen.insert(port), n) == unseen(seen, n),
    decreases n,
{
    if n > 0 {
        lemma_unseen_elsewhere(seen, port, (n - 1) as nat);
    }
}

/// Entering a port that was not entered leaves one less.
pub proof fn lemma_unseen_insert(seen: Set<Port>, port: Port, n: nat)
    requires
        port.0 < n <= u64::MAX,
        port.1 <= 2,
        !seen.contains(port),
    ensures
        unseen(seen.insert(port), n) + 1 == unseen(seen, n),
    decreases n,
{
    if port.0 == n - 1 {
        lemma_unseen_elsewhere(seen, port, (n - 1) as nat);
    } else {
        lemma_unseen_insert(seen, port, (n - 1) as nat);
    }
}

/// How many of the first `n` nodes can still have a split inserted: they are in the scope, or
/// were not met as a fan.
pub open spec fn pending(st: ReadState, n: nat) -> nat
    decreases n,
{
    if n == 0 {
        0
    } else {
        let node = (n - 1) as NodeId;
        let here: nat = if st.scope.contains(node) || !st.seen_fans.contains(node) {
            1
        } else {
            0
        };
        pending(st, (n - 1) as nat) + here
    }
}

pub proof fn lemma_pending_at_most(st: ReadState, n: nat)
    ensures
        pending(st, n) <= n,
    decreases n,
{
    if n > 0 {
        lemma_pending_at_most(st, (n - 1) as nat);
    }
}

/// Fans that come into the scope were pending before.
pub proof fn lemma_pending_shrinks(a: ReadState, b: ReadState, n: nat)
    requires
        a.seen_fans.subset_of(b.seen_fans),
        forall|node: NodeId| #[trigger]
            b.scope.contains(node) ==> a.scope.contains(node) || !a.seen_fans.contains(node),
    ensures
        pending(b, n) <= pending(a, n),
    decreases n,
{
    if n > 0 {
        lemma_pending_shrinks(a, b, (n - 1) as nat);
    }
}

/// Taking a fan out of the scope leaves one less.
pub proof fn lemma_pending_drop(st: ReadState, node: NodeId, n: nat)
    requires
        n <= u64::MAX,
        st.scope.contains(node),
        st.seen_fans.contains(node),
    ensures
        node < n ==> pending(st.drop_fan(node), n) + 1 == pending(st, n),
        node >= n ==> pending(st.drop_fan(node), n) == pending(st, n),
    decreases n,
{
    if n > 0 {
        lemma_pending_drop(st, node, (n - 1) as nat);
    }
}

/// How many times a term uses a variable.
pub open spec fn vars(term: TermModel) -> nat
    decreases term, 0nat,
{
    match term {
        TermModel::Var { .. } => 1,
        TermModel::Lam { bod, .. } => vars(*bod),
        TermModel::Let { val, nxt, .. } => vars(*val) + vars(*nxt),
        TermModel::App { fun, arg, .. } => vars(*fun) + vars(*arg),
        TermModel::Fan { els, .. } => vars_in(els, els.len()),
        TermModel::Oper { fst, snd, .. } => vars(*fst) + vars(*snd),
        TermModel::Swt { arg, arms, .. } => vars(*arg) + vars_in(arms, arms.len()),
        _ => 0,
    }
}

/// How many times the first `n` terms of a sequence use a variable.
pub open spec fn vars_in(els: Seq<TermModel>, n: nat) -> nat
    decreases els, n,
{
    if 0 < n <= els.len() {
        vars_in(els, (n - 1) as nat) + vars(els[n - 1])
    } else {
        0
    }
}

pub proof fn lemma_vars_of_two(fst: TermModel, snd: TermModel)
    ensures
        vars_in(seq![fst, snd], 2) == vars(fst) + vars(snd),
{
    let els = seq![fst, snd];
    assert(els[0] == fst && els[1] == snd);
    assert(vars_in(els, 0) == 0);
    assert(vars_in(els, 1) == vars_in(els, 0) + vars(els[0]));
    assert(vars_in(els, 2) == vars_in(els, 1) + vars(els[1]));
}

/// The variables of a split are some of all the variables.
pub proof fn lemma_uses_are_vars(term: TermModel, split: SplitModel)
    ensures
        uses(term, split) <= vars(term),
    decreases term, 0nat,
{
    match term {
        TermModel::Lam { bod, .. } => lemma_uses_are_vars(*bod, split),
        TermModel::Let { val, nxt, .. } => {
            lemma_uses_are_vars(*val, split);
            lemma_uses_are_vars(*nxt, split);
        },
        TermModel::App { fun, arg, .. } => {
            lemma_uses_are_vars(*fun, split);
            lemma_uses_are_vars(*arg, split);
        },
        TermModel::Fan { els, .. } => lemma_uses_are_vars_in(els, split, els.len()),
        TermModel::Oper { fst, snd, .. } => {
            lemma_uses_are_vars(*fst, split);
            lemma_uses_are_vars(*snd, split);
        },
        TermModel::Swt { arg, arms, .. } => {
            lemma_uses_are_vars(*arg, split);
            lemma_uses_are_vars_in(arms, split, arms.len());
        },
        _ => {},
    }
}

proof fn lemma_uses_are_vars_in(els: Seq<TermModel>, split: SplitModel, n: nat)
    ensures
        uses_in(els, split, n) <= vars_in(els, n),
    decreases els, n,
{
    if 0 < n <= els.len() {
        lemma_uses_are_vars_in(els, split, (n - 1) as nat);
        lemma_uses_are_vars(els[n - 1], split);
    }
}

proof fn lemma_vars_in_same(a: Seq<TermModel>, b: Seq<TermModel>, n: nat)
    requires
        a.len() == b.len(),
        forall|i: int| 0 <= i < n && i < a.len() ==> vars(#[trigger] a[i]) == vars(b[i]),
    ensures
        vars_in(a, n) == vars_in(b, n),
    decreases n,
{
    if 0 < n <= a.len() {
        lemma_vars_in_same(a, b, (n - 1) as nat);
        assert(vars(a[n - 1]) == vars(b[n - 1]));
    }
}

/// Renaming a variable leaves the number of variables as it is.
pub proof fn lemma_rename_vars(term: TermModel, from: Seq<char>, to: Seq<char>)
    ensures
        vars(rename(term, from, to)) == vars(term),
    decreases term,
{
    match term {
        TermModel::Lam { bod, .. } => lemma_rename_vars(*bod, from, to),
        TermModel::Let { val, nxt, .. } => {
            lemma_rename_vars(*val, from, to);
            lemma_rename_vars(*nxt, from, to);
        },
        TermModel::App { fun, arg, .. } => {
            lemma_rename_vars(*fun, from, to);
            lemma_rename_vars(*arg, from, to);
        },
        TermModel::Fan { els, .. } => {
            let after = rename(term, from, to)->els;
            assert forall|i: int| 0 <= i < els.len() implies vars(#[trigger] els[i]) == vars(
                after[i],
            ) by {
                lemma_rename_vars(els[i], from, to);
            }
            lemma_vars_in_same(els, after, els.len());
        },
        TermModel::Oper { fst, snd, .. } => {
            lemma_rename_vars(*fst, from, to);
            lemma_rename_vars(*snd, from, to);
        },
        TermModel::Swt { arg, arms, .. } => {
            lemma_rename_vars(*arg, from, to);
            let after = rename(term, from, to)->arms;
            assert forall|i: int| 0 <= i < arms.len() implies vars(#[trigger] arms[i]) == vars(
                after[i],
            ) by {
                lemma_rename_vars(arms[i], from, to);
            }
            lemma_vars_in_same(arms, after, arms.len());
        },
        _ => {},
    }
}

proof fn lemma_vars_in_update(els: Seq<TermModel>, i: int, new: TermModel, n: nat)
    requires
        0 <= i < els.len(),
        n <= els.len(),
    ensures
        i < n ==> vars_in(els.update(i, new), n) + vars(els[i]) == vars_in(els, n) + vars(new),
        i >= n ==> vars_in(els.update(i, new), n) == vars_in(els, n),
    decreases n,
{
    if n > 0 {
        lemma_vars_in_update(els, i, new, (n - 1) as nat);
    }
}

/// Inserting a split adds the variables of its value.
pub proof fn lemma_place_vars(term: TermModel, split: SplitModel, threshold: nat)
    ensures
        vars(place(term, split, threshold)) == vars(term) + vars(split.val),
    decreases term,
{
    let after = place(term, split, threshold);
    if after == split.before(term) {
    } else {
        match term {
            TermModel::Lam { bod, .. } => lemma_place_vars(*bod, split, threshold),
            TermModel::Let { val, nxt, .. } => {
                lemma_place_vars(*val, split, threshold);
                lemma_place_vars(*nxt, split, threshold);
            },
            TermModel::App { fun, arg, .. } => {
                lemma_place_vars(*fun, split, threshold);
                lemma_place_vars(*arg, split, threshold);
            },
            TermModel::Fan { els, .. } => {
                let i = first_reaching(els, split, threshold, 0) as int;
                lemma_place_vars(els[i], split, threshold);
                lemma_vars_in_update(els, i, place(els[i], split, threshold), els.len());
            },
            TermModel::Oper { fst, snd, .. } => {
                lemma_place_vars(*fst, split, threshold);
                lemma_place_vars(*snd, split, threshold);
            },
            TermModel::Swt { arg, arms, .. } => {
                lemma_place_vars(*arg, split, threshold);
                if uses(*arg, split) < threshold {
                    let i = first_reaching(arms, split, threshold, 0) as int;
                    lemma_place_vars(arms[i], split, threshold);
                    lemma_vars_in_update(arms, i, place(arms[i], split, threshold), arms.len());
                }
            },
            _ => {},
        }
    }
}

} // verus!
