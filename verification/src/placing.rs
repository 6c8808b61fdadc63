//! Immediate subterms, and how a split is put in front of one of the subterms of a term.
use crate::split::{
    child, empty_split, first_reaching, graft, place, subterm, uses,
    uses_in, with_child, SplitModel,
};
use crate::term::{FanKind, PatternModel, TagModel, TermModel};
use vstd::prelude::*;

verus! {

/// How many immediate subterms a term has.
pub open spec fn arity(term: TermModel) -> int {
    match term {
        TermModel::Lam { .. } => 1,
        TermModel::Let { .. } => 2,
        TermModel::App { .. } => 2,
        TermModel::Oper { .. } => 2,
        TermModel::Fan { els, .. } => els.len() as int,
        TermModel::Swt { arms, .. } => (arms.len() + 1) as int,
        _ => 0,
    }
}

/// The immediate subterms of a term, from left to right: the body of a lambda, the value of a
/// `let` and what comes after it, the function and the argument of an application, the two
/// operands of an operation, the elements of a fan, and what a switch matches on, and its arms.
pub proof fn law_children(term: TermModel, i: int)
    ensures
        child(term, i) is Some <==> 0 <= i < arity(term),
        term matches TermModel::Lam { bod, .. } ==> child(term, 0) == Some(*bod),
        term matches TermModel::Let { val, nxt, .. } ==> child(term, 0) == Some(*val) && child(
            term,
            1,
        ) == Some(*nxt),
        term matches TermModel::App { fun, arg, .. } ==> child(term, 0) == Some(*fun) && child(
            term,
            1,
        ) == Some(*arg),
        term matches TermModel::Oper { fst, snd, .. } ==> child(term, 0) == Some(*fst) && child(
            term,
            1,
        ) == Some(*snd),
        term matches TermModel::Fan { els, .. } ==> 0 <= i < els.len() ==> child(term, i) == Some(
            els[i],
        ),
        term matches TermModel::Swt { arg, arms, .. } ==> child(term, 0) == Some(*arg) && (0 <= i
            < arms.len() ==> child(term, i + 1) == Some(arms[i])),
{
}

/// Whether two terms are the same but for their immediate subterms.
pub open spec fn same_head(a: TermModel, b: TermModel) -> bool {
    match (a, b) {
        (TermModel::Lam { tag: t, pat: p, .. }, TermModel::Lam { tag: u, pat: q, .. }) => t == u
            && p == q,
        (TermModel::Let { pat: p, .. }, TermModel::Let { pat: q, .. }) => p == q,
        (TermModel::App { tag: t, .. }, TermModel::App { tag: u, .. }) => t == u,
        (TermModel::Oper { opr: o, .. }, TermModel::Oper { opr: p, .. }) => o == p,
        (
            TermModel::Fan { fan: f, tag: t, els: x },
            TermModel::Fan { fan: g, tag: u, els: y },
        ) => f == g && t == u && x.len() == y.len(),
        (
            TermModel::Swt { bnd: b, with: w, pred: p, arms: x, .. },
            TermModel::Swt { bnd: c, with: v, pred: q, arms: y, .. },
        ) => b == c && w == v && p == q && x.len() == y.len(),
        _ => a == b,
    }
}

/// Replacing an immediate subterm leaves the others and the rest of the term as they are.
pub proof fn law_child_is_replaced(term: TermModel, i: int, j: int, new: TermModel)
    requires
        0 <= i < arity(term),
        0 <= j < arity(term),
    ensures
        same_head(with_child(term, i, new), term),
        child(with_child(term, i, new), i) == Some(new),
        j != i ==> child(with_child(term, i, new), j) == child(term, j),
{
}

/// Replacing a subterm at the end of a path replaces it in each term on the way, and the term
/// itself where the path is empty.
pub proof fn law_subterm_is_replaced(
    term: TermModel,
    i: int,
    rest: Seq<int>,
    new: TermModel,
)
    requires
        0 <= i < arity(term),
    ensures
        subterm(term, seq![]) == Some(term),
        graft(term, seq![], new) == new,
        subterm(term, seq![i] + rest) == subterm(child(term, i)->0, rest),
        graft(term, seq![i] + rest, new) == with_child(
            term,
            i,
            graft(child(term, i)->0, rest, new),
        ),
{
    let path = seq![i] + rest;
    assert(path.drop_first() =~= rest);
    assert(path[0] == i);
    law_children(term, i);
}

/// A split in front of a term is a `let` of the same sort, with the same tag, that binds its first
/// and its second variable, in this order, to its value.
pub proof fn law_split_is_a_let(split: SplitModel, nxt: TermModel)
    ensures
        split.before(nxt) matches TermModel::Let { pat, val, nxt: rest } && {
            &&& *val == split.val
            &&& *rest == nxt
            &&& pat matches PatternModel::Fan(fan, tag, els)
            &&& fan == split.fan
            &&& tag == split.tag
            &&& els.len() == 2
            &&& els[0] == PatternModel::Var(split.fst)
            &&& els[1] == PatternModel::Var(split.snd)
        },
{
}

/// How many times the variables of a split are used in the first `n` immediate subterms.
pub open spec fn uses_below(term: TermModel, split: SplitModel, n: nat) -> nat
    decreases n,
{
    if n == 0 {
        0
    } else {
        uses_below(term, split, (n - 1) as nat) + match child(term, n - 1) {
            Some(sub) => uses(sub, split),
            None => 0,
        }
    }
}

/// The variables of a split are used once in a variable with the name of either, and else as often
/// as in all the immediate subterms together.
pub proof fn law_uses(term: TermModel, split: SplitModel)
    ensures
        term matches TermModel::Var { nam } ==> uses(term, split) == if split.fst == Some(nam)
            || split.snd == Some(nam) {
            1nat
        } else {
            0nat
        },
        !(term is Var) ==> uses(term, split) == uses_below(term, split, arity(term) as nat),
{
    match term {
        TermModel::Fan { els, .. } => {
            lemma_uses_in(term, els, split, els.len(), 0);
        },
        TermModel::Swt { arg, arms, .. } => {
            reveal_with_fuel(uses_below, 2);
            lemma_uses_in(term, arms, split, arms.len(), 1);
        },
        _ => {
            reveal_with_fuel(uses_below, 3);
        },
    }
}

proof fn lemma_uses_in(
    term: TermModel,
    els: Seq<TermModel>,
    split: SplitModel,
    n: nat,
    skip: nat,
)
    requires
        n <= els.len(),
        forall|i: int| 0 <= i < els.len() ==> child(term, i + skip) == Some(#[trigger] els[i]),
    ensures
        uses_below(term, split, n + skip) == uses_below(term, split, skip) + uses_in(
            els,
            split,
            n,
        ),
    decreases n,
{
    if n > 0 {
        lemma_uses_in(term, els, split, (n - 1) as nat, skip);
        assert(child(term, (n - 1) + skip) == Some(els[n - 1]));
    }
}

/// Whether a path is the first one, from left to right, to a subterm in which the variables of a
/// split are used often enough: at no step is there one further to the left.
pub open spec fn is_leftmost(
    term: TermModel,
    split: SplitModel,
    threshold: nat,
    path: Seq<int>,
) -> bool
    decreases path.len(),
{
    path.len() > 0 ==> {
        &&& child(term, path[0]) is Some
        &&& forall|j: int|
            0 <= j < path[0] ==> uses((#[trigger] child(term, j))->0, split) < threshold
        &&& is_leftmost(child(term, path[0])->0, split, threshold, path.drop_first())
    }
}

/// Whether a split with a threshold goes to a path: it leads, by the first way from left to right,
/// to a subterm in which the variables are used often enough, while they are not in any of its
/// own subterms.
pub open spec fn goes_to(
    term: TermModel,
    split: SplitModel,
    threshold: nat,
    path: Seq<int>,
) -> bool {
    &&& is_leftmost(term, split, threshold, path)
    &&& subterm(term, path) matches Some(sub)
    &&& uses(sub, split) >= threshold
    &&& forall|j: int|
        0 <= j < arity(sub) ==> uses((#[trigger] child(sub, j))->0, split) < threshold
}

/// A split is put in front of just one subterm, the first one from left to right in which its
/// variables are used often enough, and nothing else changes. There is just one path that it can
/// go to.
pub proof fn law_split_goes_to_the_first(
    term: TermModel,
    split: SplitModel,
    threshold: nat,
    path: Seq<int>,
)
    requires
        goes_to(term, split, threshold, path),
    ensures
        place(term, split, threshold) == graft(
            term,
            path,
            split.before(subterm(term, path)->0),
        ),
    decreases term,
{
    law_children(term, 0);
    if path.len() == 0 {
        lemma_no_child(term, split, threshold);
    } else {
        let i = path[0];
        law_children(term, i);
        let sub = child(term, i)->0;
        lemma_path_reaches(sub, split, threshold, path.drop_first());
        lemma_first_child(term, split, threshold, i);
        law_split_goes_to_the_first(sub, split, threshold, path.drop_first());
    }
}

proof fn lemma_no_child(term: TermModel, split: SplitModel, threshold: nat)
    requires
        forall|j: int|
            0 <= j < arity(term) ==> uses((#[trigger] child(term, j))->0, split) < threshold,
    ensures
        place(term, split, threshold) == split.before(term),
{
    match term {
        TermModel::Lam { .. } => {
            assert(child(term, 0) is Some);
        },
        TermModel::Fan { els, .. } => {
            assert forall|j: int| 0 <= j < els.len() implies uses(#[trigger] els[j], split)
                < threshold by {
                assert(child(term, j) == Some(els[j]));
            }
            lemma_first_reaching_is(els, split, threshold, 0, els.len());
        },
        TermModel::Swt { arg, arms, .. } => {
            assert(child(term, 0) == Some(*arg));
            assert forall|j: int| 0 <= j < arms.len() implies uses(#[trigger] arms[j], split)
                < threshold by {
                assert(child(term, j + 1) == Some(arms[j]));
            }
            lemma_first_reaching_is(arms, split, threshold, 0, arms.len());
        },
        _ => {
            assert(child(term, 0) is Some ==> uses(child(term, 0)->0, split) < threshold);
            assert(child(term, 1) is Some ==> uses(child(term, 1)->0, split) < threshold);
        },
    }
}

proof fn lemma_first_reaching_is(
    els: Seq<TermModel>,
    split: SplitModel,
    threshold: nat,
    from: nat,
    i: nat,
)
    requires
        from <= i <= els.len(),
        forall|j: int| from <= j < i ==> uses(#[trigger] els[j], split) < threshold,
        i < els.len() ==> uses(els[i as int], split) >= threshold,
    ensures
        first_reaching(els, split, threshold, from) == i,
    decreases i - from,
{
    if from < i {
        lemma_first_reaching_is(els, split, threshold, from + 1, i);
    }
}

proof fn lemma_first_child(term: TermModel, split: SplitModel, threshold: nat, i: int)
    requires
        0 <= i < arity(term),
        uses(child(term, i)->0, split) >= threshold,
        forall|j: int| 0 <= j < i ==> uses((#[trigger] child(term, j))->0, split) < threshold,
    ensures
        decreases_to!(term => child(term, i)->0),
        place(term, split, threshold) == with_child(
            term,
            i,
            place(child(term, i)->0, split, threshold),
        ),
{
    match term {
        TermModel::Fan { els, .. } => {
            assert forall|j: int| 0 <= j < i implies uses(#[trigger] els[j], split) < threshold by {
                assert(child(term, j) == Some(els[j]));
            }
            lemma_first_reaching_is(els, split, threshold, 0, i as nat);
        },
        TermModel::Swt { arg, arms, .. } => {
            assert(child(term, 0) == Some(*arg));
            if i > 0 {
                assert forall|j: int| 0 <= j < i - 1 implies uses(#[trigger] arms[j], split)
                    < threshold by {
                    assert(child(term, j + 1) == Some(arms[j]));
                }
                lemma_first_reaching_is(arms, split, threshold, 0, (i - 1) as nat);
            }
        },
        _ => {
            assert(i == 1 ==> uses(child(term, 0)->0, split) < threshold);
        },
    }
}

/// The variables are used often enough in every term on the way.
proof fn lemma_path_reaches(term: TermModel, split: SplitModel, threshold: nat, path: Seq<int>)
    requires
        goes_to(term, split, threshold, path),
    ensures
        uses(term, split) >= threshold,
    decreases path.len(),
{
    if path.len() > 0 {
        let i = path[0];
        law_children(term, i);
        lemma_path_reaches(child(term, i)->0, split, threshold, path.drop_first());
        law_uses(term, split);
        lemma_below_grows(term, split, i, arity(term) as nat);
    }
}

proof fn lemma_below_grows(term: TermModel, split: SplitModel, i: int, n: nat)
    requires
        0 <= i < n,
        child(term, i) is Some,
    ensures
        uses_below(term, split, n) >= uses(child(term, i)->0, split),
    decreases n,
{
    if i < n - 1 {
        lemma_below_grows(term, split, i, (n - 1) as nat);
    }
}

/// Wherever the variables of a split are used often enough in a term, there is a path that the
/// split goes to.
pub proof fn law_split_goes_somewhere(term: TermModel, split: SplitModel, threshold: nat)
    requires
        uses(term, split) >= threshold,
    ensures
        exists|path: Seq<int>| goes_to(term, split, threshold, path),
    decreases term,
{
    if exists|i: int|
        0 <= i < arity(term) && uses((#[trigger] child(term, i))->0, split) >= threshold {
        let some = choose|i: int|
            0 <= i < arity(term) && uses((#[trigger] child(term, i))->0, split) >= threshold;
        let i = lemma_least_child(term, split, threshold, some);
        law_children(term, i);
        let sub = child(term, i)->0;
        lemma_first_child(term, split, threshold, i);
        law_split_goes_somewhere(sub, split, threshold);
        let rest = choose|path: Seq<int>| goes_to(sub, split, threshold, path);
        let path = seq![i] + rest;
        assert(path.drop_first() =~= rest);
        assert(goes_to(term, split, threshold, path));
    } else {
        assert(goes_to(term, split, threshold, seq![]));
    }
}

proof fn lemma_least_child(term: TermModel, split: SplitModel, threshold: nat, some: int) -> (i:
    int)
    requires
        0 <= some < arity(term),
        uses(child(term, some)->0, split) >= threshold,
    ensures
        0 <= i < arity(term),
        uses(child(term, i)->0, split) >= threshold,
        forall|j: int| 0 <= j < i ==> uses((#[trigger] child(term, j))->0, split) < threshold,
    decreases some,
{
    if exists|j: int| 0 <= j < some && uses((#[trigger] child(term, j))->0, split) >= threshold {
        let j = choose|j: int|
            0 <= j < some && uses((#[trigger] child(term, j))->0, split) >= threshold;
        lemma_least_child(term, split, threshold, j)
    } else {
        some
    }
}

/// What is left of a split that was inserted binds nothing.
pub proof fn law_inserted_split_is_empty()
    ensures
        empty_split().fst is None,
        empty_split().snd is None,
        empty_split().val == TermModel::Error,
        empty_split().tag == TagModel::Static,
        empty_split().fan == FanKind::Dup,
{
}

} // verus!
