//! Where names are used and bound in a term, and what marking and renaming do to them.
use crate::name::{pred_name, texts, Name};
use crate::scope::{
    arm_binds, binds, binds_in, free, free_in, mark, mark_pattern, outside, rename,
};
use crate::split::child;
use crate::term::{all_complete, complete, PatternModel, TermModel};
use vstd::prelude::*;

verus! {

/// A way in which a name can stand in a term.
pub enum Mention {
    /// A variable is used in its scope.
    Use,
    /// An unscoped variable is used.
    Link,
    /// A variable is bound.
    Binder,
    /// An unscoped variable is bound.
    Channel,
}

/// Whether a pattern binds a name in a way.
pub open spec fn pattern_mentions(pat: PatternModel, how: Mention, nam: Seq<char>) -> bool
    decreases pat,
{
    match pat {
        PatternModel::Var(name) => how is Binder && name == Some(nam),
        PatternModel::Chn(name) => how is Channel && name == nam,
        PatternModel::Fan(_, _, els) => some_pattern_mentions(els, how, nam),
    }
}

/// Whether one of the patterns of a sequence binds a name in a way.
pub open spec fn some_pattern_mentions(els: Seq<PatternModel>, how: Mention, nam: Seq<char>) -> bool
    decreases els,
{
    exists|i: int| 0 <= i < els.len() && pattern_mentions(#[trigger] els[i], how, nam)
}

/// Whether a name stands somewhere in a term in a way.
pub open spec fn mentions(term: TermModel, how: Mention, nam: Seq<char>) -> bool
    decreases term,
{
    match term {
        TermModel::Var { nam: name } => how is Use && name == nam,
        TermModel::Link { nam: name } => how is Link && name == nam,
        TermModel::Lam { pat, bod, .. } => pattern_mentions(pat, how, nam) || mentions(*bod, how, nam),
        TermModel::Let { pat, val, nxt } => pattern_mentions(pat, how, nam) || mentions(*val, how, nam)
            || mentions(*nxt, how, nam),
        TermModel::App { fun, arg, .. } => mentions(*fun, how, nam) || mentions(*arg, how, nam),
        TermModel::Fan { els, .. } => some_mentions(els, how, nam),
        TermModel::Oper { fst, snd, .. } => mentions(*fst, how, nam) || mentions(*snd, how, nam),
        TermModel::Swt { arg, arms, .. } => mentions(*arg, how, nam) || some_mentions(arms, how, nam),
        _ => false,
    }
}

/// Whether a name stands somewhere in one of the terms of a sequence in a way.
pub open spec fn some_mentions(els: Seq<TermModel>, how: Mention, nam: Seq<char>) -> bool
    decreases els,
{
    exists|i: int| 0 <= i < els.len() && mentions(#[trigger] els[i], how, nam)
}

/// The variables that a pattern binds are those that stand in it as a binder.
pub proof fn law_binds(pat: PatternModel, nam: Seq<char>)
    ensures
        binds(pat).contains(nam) <==> pattern_mentions(pat, Mention::Binder, nam),
    decreases pat, 0nat,
{
    match pat {
        PatternModel::Var(Some(name)) => {
            assert(binds(pat) =~= seq![name]);
            assert(binds(pat)[0] == name);
        },
        PatternModel::Fan(_, _, els) => {
            lemma_binds_in(els, els.len(), nam);
            assert(some_pattern_mentions(els, Mention::Binder, nam) <==> exists|i: int|
                0 <= i < els.len() && pattern_mentions(#[trigger] els[i], Mention::Binder, nam));
        },
        _ => {},
    }
}

proof fn lemma_binds_in(els: Seq<PatternModel>, n: nat, nam: Seq<char>)
    requires
        n <= els.len(),
    ensures
        binds_in(els, n).contains(nam) <==> exists|i: int|
            0 <= i < n && pattern_mentions(#[trigger] els[i], Mention::Binder, nam),
    decreases els, n,
{
    if n > 0 {
        let before = binds_in(els, (n - 1) as nat);
        let last = binds(els[n - 1]);
        lemma_binds_in(els, (n - 1) as nat, nam);
        law_binds(els[n - 1], nam);
        assert((before + last).contains(nam) <==> before.contains(nam) || last.contains(nam)) by {
            if before.contains(nam) {
                let i = choose|i: int| 0 <= i < before.len() && before[i] == nam;
                assert((before + last)[i] == nam);
            }
            if last.contains(nam) {
                let i = choose|i: int| 0 <= i < last.len() && last[i] == nam;
                assert((before + last)[before.len() + i] == nam);
            }
        }
    }
}

/// Whether a term binds a name around one of its immediate subterms: a lambda does in its body, a
/// `let` in what comes after it, and a switch binds the predecessor in its second arm.
pub open spec fn binds_around(term: TermModel, i: int, nam: Seq<char>) -> bool {
    match term {
        TermModel::Lam { pat, .. } => pattern_mentions(pat, Mention::Binder, nam),
        TermModel::Let { pat, .. } => i == 1 && pattern_mentions(pat, Mention::Binder, nam),
        TermModel::Swt { bnd, .. } => i == 2 && bnd is Some && nam == pred_name(bnd->0),
        _ => false,
    }
}

/// Whether a path leads to a use of a variable that nothing on the way binds. Of a switch only the
/// first two arms count.
pub open spec fn is_free_at(term: TermModel, path: Seq<int>, nam: Seq<char>) -> bool
    decreases path.len(),
{
    if path.len() == 0 {
        term == (TermModel::Var { nam })
    } else {
        &&& child(term, path[0]) is Some
        &&& term is Swt ==> path[0] <= 2
        &&& !binds_around(term, path[0], nam)
        &&& is_free_at(child(term, path[0])->0, path.drop_first(), nam)
    }
}

/// Whether a variable is free below one of the immediate subterms of a term.
spec fn is_free_below(term: TermModel, nam: Seq<char>) -> bool {
    exists|i: int|
        {
            &&& (#[trigger] child(term, i)) is Some
            &&& term is Swt ==> i <= 2
            &&& !binds_around(term, i, nam)
            &&& free(child(term, i)->0).contains(nam)
        }
}

/// The free variables of a term are those with a use that nothing on the way to it binds.
pub proof fn law_free_variables(term: TermModel, nam: Seq<char>)
    requires
        complete(term),
    ensures
        free(term).contains(nam) <==> exists|path: Seq<int>| is_free_at(term, path, nam),
    decreases term,
{
    lemma_free_below(term, nam);
    if free(term).contains(nam) {
        if term is Var {
            assert(is_free_at(term, seq![], nam));
        } else {
            let i = choose|i: int|
                {
                    &&& (#[trigger] child(term, i)) is Some
                    &&& term is Swt ==> i <= 2
                    &&& !binds_around(term, i, nam)
                    &&& free(child(term, i)->0).contains(nam)
                };
            lemma_child(term, i);
            law_free_variables(child(term, i)->0, nam);
            let rest = choose|path: Seq<int>| is_free_at(child(term, i)->0, path, nam);
            let path = seq![i] + rest;
            assert(path.drop_first() =~= rest);
            assert(is_free_at(term, path, nam));
        }
    }
    if exists|path: Seq<int>| is_free_at(term, path, nam) {
        let path = choose|path: Seq<int>| is_free_at(term, path, nam);
        if path.len() > 0 {
            let i = path[0];
            lemma_child(term, i);
            assert(is_free_at(child(term, i)->0, path.drop_first(), nam));
            law_free_variables(child(term, i)->0, nam);
            assert(is_free_below(term, nam));
        }
    }
}

proof fn lemma_child(term: TermModel, i: int)
    requires
        complete(term),
        child(term, i) is Some,
    ensures
        decreases_to!(term => child(term, i)->0),
        complete(child(term, i)->0),
{
    match term {
        TermModel::Fan { els, .. } => {
            assert(all_complete(els));
        },
        TermModel::Swt { arms, .. } => {
            assert(all_complete(arms));
        },
        _ => {},
    }
}

/// A term that is no variable has the free variables of its immediate subterms.
proof fn lemma_free_below(term: TermModel, nam: Seq<char>)
    requires
        complete(term),
    ensures
        term matches TermModel::Var { nam: name } ==> (free(term).contains(nam) <==> name == nam),
        !(term is Var) ==> (free(term).contains(nam) <==> is_free_below(term, nam)),
{
    match term {
        TermModel::Lam { pat, bod, .. } => {
            law_binds(pat, nam);
            assert(child(term, 0) == Some(*bod));
        },
        TermModel::Let { pat, val, nxt } => {
            law_binds(pat, nam);
            assert(child(term, 0) == Some(*val));
            assert(child(term, 1) == Some(*nxt));
        },
        TermModel::App { fun, arg, .. } => {
            assert(child(term, 0) == Some(*fun));
            assert(child(term, 1) == Some(*arg));
        },
        TermModel::Oper { fst, snd, .. } => {
            assert(child(term, 0) == Some(*fst));
            assert(child(term, 1) == Some(*snd));
        },
        TermModel::Fan { els, .. } => {
            lemma_free_of_some(els, els.len(), nam);
            assert(forall|i: int| 0 <= i < els.len() ==> child(term, i) == Some(#[trigger] els[i]));
        },
        TermModel::Swt { arg, arms, .. } => {
            assert(child(term, 0) == Some(*arg));
            assert(child(term, 1) == Some(arms[0]));
            assert(child(term, 2) == Some(arms[1]));
        },
        _ => {},
    }
}

proof fn lemma_free_of_some(els: Seq<TermModel>, n: nat, nam: Seq<char>)
    requires
        n <= els.len(),
    ensures
        free_in(els, n).contains(nam) <==> exists|i: int|
            0 <= i < n && free(#[trigger] els[i]).contains(nam),
    decreases n,
{
    if n > 0 {
        lemma_free_of_some(els, (n - 1) as nat, nam);
    }
}

/// A variable is outside of a scope when none of its names is called so.
pub proof fn law_outside(names: Set<Seq<char>>, scope: Seq<Name>, nam: Seq<char>)
    ensures
        outside(names, scope).contains(nam) <==> names.contains(nam) && forall|i: int|
            0 <= i < scope.len() ==> (#[trigger] scope[i])@ != nam,
{
    if forall|i: int| 0 <= i < scope.len() ==> (#[trigger] scope[i])@ != nam {
        if texts(scope).contains(nam) {
            let i = choose|i: int| 0 <= i < texts(scope).len() && texts(scope)[i] == nam;
            assert(scope[i]@ == nam);
        }
    } else {
        let i = choose|i: int| 0 <= i < scope.len() && (#[trigger] scope[i])@ == nam;
        assert(texts(scope)[i] == nam);
        assert(texts(scope).contains(nam));
    }
}

/// Once names are marked in a pattern, none of them is bound as a scoped variable: each binder of
/// one is the binding end of an unscoped variable. All other names are bound as before.
pub proof fn law_marked_pattern(pat: PatternModel, names: Set<Seq<char>>, nam: Seq<char>)
    ensures
        ({
            let after = mark_pattern(pat, names);
            &&& pattern_mentions(after, Mention::Binder, nam) <==> pattern_mentions(
                pat,
                Mention::Binder,
                nam,
            ) && !names.contains(nam)
            &&& pattern_mentions(after, Mention::Channel, nam) <==> pattern_mentions(
                pat,
                Mention::Channel,
                nam,
            ) || pattern_mentions(pat, Mention::Binder, nam) && names.contains(nam)
        }),
    decreases pat,
{
    if let PatternModel::Fan(_, _, els) = pat {
        let after = mark_pattern(pat, names)->Fan_2;
        assert forall|i: int| 0 <= i < els.len() implies {
            &&& pattern_mentions(#[trigger] after[i], Mention::Binder, nam) <==> pattern_mentions(
                els[i],
                Mention::Binder,
                nam,
            ) && !names.contains(nam)
            &&& pattern_mentions(after[i], Mention::Channel, nam) <==> pattern_mentions(
                els[i],
                Mention::Channel,
                nam,
            ) || pattern_mentions(els[i], Mention::Binder, nam) && names.contains(nam)
        } by {
            law_marked_pattern(els[i], names, nam);
        }
        lemma_some_pattern(els, after, names, nam);
    }
}

proof fn lemma_some_pattern(
    els: Seq<PatternModel>,
    after: Seq<PatternModel>,
    names: Set<Seq<char>>,
    nam: Seq<char>,
)
    requires
        els.len() == after.len(),
        forall|i: int| 0 <= i < els.len() ==> {
            &&& pattern_mentions(#[trigger] after[i], Mention::Binder, nam) <==> pattern_mentions(
                els[i],
                Mention::Binder,
                nam,
            ) && !names.contains(nam)
            &&& pattern_mentions(after[i], Mention::Channel, nam) <==> pattern_mentions(
                els[i],
                Mention::Channel,
                nam,
            ) || pattern_mentions(els[i], Mention::Binder, nam) && names.contains(nam)
        },
    ensures
        some_pattern_mentions(after, Mention::Binder, nam) <==> some_pattern_mentions(
            els,
            Mention::Binder,
            nam,
        ) && !names.contains(nam),
        some_pattern_mentions(after, Mention::Channel, nam) <==> some_pattern_mentions(
            els,
            Mention::Channel,
            nam,
        ) || some_pattern_mentions(els, Mention::Binder, nam) && names.contains(nam),
{
    if some_pattern_mentions(els, Mention::Binder, nam) {
        let i = choose|i: int|
            0 <= i < els.len() && pattern_mentions(#[trigger] els[i], Mention::Binder, nam);
        assert(names.contains(nam) ==> pattern_mentions(after[i], Mention::Channel, nam));
        assert(!names.contains(nam) ==> pattern_mentions(after[i], Mention::Binder, nam));
    }
    if some_pattern_mentions(els, Mention::Channel, nam) {
        let i = choose|i: int|
            0 <= i < els.len() && pattern_mentions(#[trigger] els[i], Mention::Channel, nam);
        assert(pattern_mentions(after[i], Mention::Channel, nam));
    }
    if some_pattern_mentions(after, Mention::Binder, nam) {
        let i = choose|i: int|
            0 <= i < after.len() && pattern_mentions(#[trigger] after[i], Mention::Binder, nam);
        assert(pattern_mentions(els[i], Mention::Binder, nam));
    }
    if some_pattern_mentions(after, Mention::Channel, nam) {
        let i = choose|i: int|
            0 <= i < after.len() && pattern_mentions(#[trigger] after[i], Mention::Channel, nam);
        assert(pattern_mentions(els[i], Mention::Channel, nam) || pattern_mentions(
            els[i],
            Mention::Binder,
            nam,
        ));
    }
}

/// How a name stands in a term before and after names are marked: where it was used it is a link
/// if it is marked, and where it was bound a channel; otherwise it stands as before.
pub open spec fn is_marked(
    before: TermModel,
    after: TermModel,
    names: Set<Seq<char>>,
    nam: Seq<char>,
) -> bool {
    &&& mentions(after, Mention::Use, nam) <==> mentions(before, Mention::Use, nam) && !names.contains(nam)
    &&& mentions(after, Mention::Link, nam) <==> mentions(before, Mention::Link, nam) || mentions(
        before,
        Mention::Use,
        nam,
    ) && names.contains(nam)
    &&& mentions(after, Mention::Binder, nam) <==> mentions(before, Mention::Binder, nam)
        && !names.contains(nam)
    &&& mentions(after, Mention::Channel, nam) <==> mentions(before, Mention::Channel, nam) || mentions(
        before,
        Mention::Binder,
        nam,
    ) && names.contains(nam)
}

/// Once names are marked in a term, none of them is used or bound as a scoped variable. Every use
/// of one has become a link, and every binder of one, in a lambda or in a `let`, a channel. So
/// every link whose name was bound somewhere has a channel with that name. All other names stand
/// as before.
pub proof fn law_marked_names(term: TermModel, names: Set<Seq<char>>, nam: Seq<char>)
    ensures
        is_marked(term, mark(term, names), names, nam),
    decreases term,
{
    let after = mark(term, names);
    match term {
        TermModel::Lam { pat, bod, .. } => {
            law_marked_pattern(pat, names, nam);
            lemma_pattern_uses(pat, nam);
            lemma_pattern_uses(mark_pattern(pat, names), nam);
            law_marked_names(*bod, names, nam);
        },
        TermModel::Let { pat, val, nxt } => {
            law_marked_pattern(pat, names, nam);
            lemma_pattern_uses(pat, nam);
            lemma_pattern_uses(mark_pattern(pat, names), nam);
            law_marked_names(*val, names, nam);
            law_marked_names(*nxt, names, nam);
        },
        TermModel::App { fun, arg, .. } => {
            law_marked_names(*fun, names, nam);
            law_marked_names(*arg, names, nam);
        },
        TermModel::Oper { fst, snd, .. } => {
            law_marked_names(*fst, names, nam);
            law_marked_names(*snd, names, nam);
        },
        TermModel::Fan { els, .. } => {
            assert forall|i: int| 0 <= i < els.len() implies is_marked(
                els[i],
                #[trigger] after->els[i],
                names,
                nam,
            ) by {
                law_marked_names(els[i], names, nam);
            }
            lemma_some_marked(els, after->els, names, nam);
        },
        TermModel::Swt { arg, arms, .. } => {
            law_marked_names(*arg, names, nam);
            assert forall|i: int| 0 <= i < arms.len() implies is_marked(
                arms[i],
                #[trigger] after->arms[i],
                names,
                nam,
            ) by {
                law_marked_names(arms[i], names, nam);
            }
            lemma_some_marked(arms, after->arms, names, nam);
        },
        _ => {},
    }
}

proof fn lemma_pattern_uses(pat: PatternModel, nam: Seq<char>)
    ensures
        !pattern_mentions(pat, Mention::Use, nam),
        !pattern_mentions(pat, Mention::Link, nam),
    decreases pat,
{
    if let PatternModel::Fan(_, _, els) = pat {
        assert forall|i: int| 0 <= i < els.len() implies !pattern_mentions(
            #[trigger] els[i],
            Mention::Use,
            nam,
        ) && !pattern_mentions(els[i], Mention::Link, nam) by {
            lemma_pattern_uses(els[i], nam);
        }
        assert(!some_pattern_mentions(els, Mention::Use, nam));
        assert(!some_pattern_mentions(els, Mention::Link, nam));
    }
}

proof fn lemma_some_marked(
    els: Seq<TermModel>,
    after: Seq<TermModel>,
    names: Set<Seq<char>>,
    nam: Seq<char>,
)
    requires
        els.len() == after.len(),
        forall|i: int|
            0 <= i < els.len() ==> is_marked(els[i], #[trigger] after[i], names, nam),
    ensures
        some_mentions(after, Mention::Use, nam) <==> some_mentions(els, Mention::Use, nam)
            && !names.contains(nam),
        some_mentions(after, Mention::Link, nam) <==> some_mentions(els, Mention::Link, nam) || some_mentions(
            els,
            Mention::Use,
            nam,
        ) && names.contains(nam),
        some_mentions(after, Mention::Binder, nam) <==> some_mentions(els, Mention::Binder, nam)
            && !names.contains(nam),
        some_mentions(after, Mention::Channel, nam) <==> some_mentions(els, Mention::Channel, nam)
            || some_mentions(els, Mention::Binder, nam) && names.contains(nam),
{
    lemma_some_marked_to(els, after, names, nam, Mention::Use);
    lemma_some_marked_to(els, after, names, nam, Mention::Link);
    lemma_some_marked_to(els, after, names, nam, Mention::Binder);
    lemma_some_marked_to(els, after, names, nam, Mention::Channel);
    lemma_some_marked_from(els, after, names, nam, Mention::Use);
    lemma_some_marked_from(els, after, names, nam, Mention::Link);
    lemma_some_marked_from(els, after, names, nam, Mention::Binder);
    lemma_some_marked_from(els, after, names, nam, Mention::Channel);
}

/// How a name that stands in a way stands once names are marked.
spec fn marked_as(how: Mention, marked: bool) -> Mention {
    match how {
        Mention::Use if marked => Mention::Link,
        Mention::Binder if marked => Mention::Channel,
        _ => how,
    }
}

proof fn lemma_some_marked_to(
    els: Seq<TermModel>,
    after: Seq<TermModel>,
    names: Set<Seq<char>>,
    nam: Seq<char>,
    how: Mention,
)
    requires
        els.len() == after.len(),
        forall|i: int|
            0 <= i < els.len() ==> is_marked(els[i], #[trigger] after[i], names, nam),
    ensures
        some_mentions(els, how, nam) ==> some_mentions(after, marked_as(how, names.contains(nam)), nam),
{
    if some_mentions(els, how, nam) {
        let i = choose|i: int| 0 <= i < els.len() && mentions(#[trigger] els[i], how, nam);
        assert(is_marked(els[i], after[i], names, nam));
        assert(mentions(after[i], marked_as(how, names.contains(nam)), nam));
    }
}

proof fn lemma_some_marked_from(
    els: Seq<TermModel>,
    after: Seq<TermModel>,
    names: Set<Seq<char>>,
    nam: Seq<char>,
    how: Mention,
)
    requires
        els.len() == after.len(),
        forall|i: int|
            0 <= i < els.len() ==> is_marked(els[i], #[trigger] after[i], names, nam),
    ensures
        some_mentions(after, how, nam) ==> match how {
            Mention::Use => some_mentions(els, Mention::Use, nam) && !names.contains(nam),
            Mention::Binder => some_mentions(els, Mention::Binder, nam) && !names.contains(nam),
            Mention::Link => some_mentions(els, Mention::Link, nam) || some_mentions(els, Mention::Use, nam)
                && names.contains(nam),
            Mention::Channel => some_mentions(els, Mention::Channel, nam) || some_mentions(
                els,
                Mention::Binder,
                nam,
            ) && names.contains(nam),
        },
{
    if some_mentions(after, how, nam) {
        let i = choose|i: int| 0 <= i < after.len() && mentions(#[trigger] after[i], how, nam);
        assert(is_marked(els[i], after[i], names, nam));
        assert(mentions(els[i], Mention::Use, nam) ==> some_mentions(els, Mention::Use, nam));
        assert(mentions(els[i], Mention::Link, nam) ==> some_mentions(els, Mention::Link, nam));
        assert(mentions(els[i], Mention::Binder, nam) ==> some_mentions(els, Mention::Binder, nam));
        assert(mentions(els[i], Mention::Channel, nam) ==> some_mentions(els, Mention::Channel, nam));
    }
}

/// A pattern with the binding ends of some unscoped variables turned back into binders.
pub open spec fn unmark_pattern(pat: PatternModel, names: Set<Seq<char>>) -> PatternModel
    decreases pat,
{
    match pat {
        PatternModel::Chn(nam) if names.contains(nam) => PatternModel::Var(Some(nam)),
        PatternModel::Fan(fan, tag, els) => PatternModel::Fan(
            fan,
            tag,
            Seq::new(
                els.len(),
                |i: int|
                    if 0 <= i < els.len() {
                        unmark_pattern(els[i], names)
                    } else {
                        PatternModel::Var(None)
                    },
            ),
        ),
        _ => pat,
    }
}

/// A term with some links turned back into variables, and the channels into binders.
pub open spec fn unmark(term: TermModel, names: Set<Seq<char>>) -> TermModel
    decreases term,
{
    match term {
        TermModel::Link { nam } if names.contains(nam) => TermModel::Var { nam },
        TermModel::Lam { tag, pat, bod } => TermModel::Lam {
            tag,
            pat: unmark_pattern(pat, names),
            bod: Box::new(unmark(*bod, names)),
        },
        TermModel::Let { pat, val, nxt } => TermModel::Let {
            pat: unmark_pattern(pat, names),
            val: Box::new(unmark(*val, names)),
            nxt: Box::new(unmark(*nxt, names)),
        },
        TermModel::App { tag, fun, arg } => TermModel::App {
            tag,
            fun: Box::new(unmark(*fun, names)),
            arg: Box::new(unmark(*arg, names)),
        },
        TermModel::Fan { fan, tag, els } => TermModel::Fan {
            fan,
            tag,
            els: Seq::new(
                els.len(),
                |i: int|
                    if 0 <= i < els.len() {
                        unmark(els[i], names)
                    } else {
                        TermModel::Error
                    },
            ),
        },
        TermModel::Oper { opr, fst, snd } => TermModel::Oper {
            opr,
            fst: Box::new(unmark(*fst, names)),
            snd: Box::new(unmark(*snd, names)),
        },
        TermModel::Swt { arg, bnd, with, pred, arms } => TermModel::Swt {
            arg: Box::new(unmark(*arg, names)),
            bnd,
            with,
            pred,
            arms: Seq::new(
                arms.len(),
                |i: int|
                    if 0 <= i < arms.len() {
                        unmark(arms[i], names)
                    } else {
                        TermModel::Error
                    },
            ),
        },
        _ => term,
    }
}

proof fn lemma_unmark_pattern(pat: PatternModel, names: Set<Seq<char>>)
    ensures
        unmark_pattern(mark_pattern(pat, names), names) == unmark_pattern(pat, names),
    decreases pat,
{
    if let PatternModel::Fan(_, _, els) = pat {
        let mid = mark_pattern(pat, names)->Fan_2;
        let back = unmark_pattern(mark_pattern(pat, names), names)->Fan_2;
        let plain = unmark_pattern(pat, names)->Fan_2;
        assert forall|i: int| 0 <= i < els.len() implies #[trigger] back[i] == plain[i] by {
            lemma_unmark_pattern(els[i], names);
            assert(mid[i] == mark_pattern(els[i], names));
        }
        assert(back =~= plain);
    }
}

/// Marking names changes nothing but how these names stand: once they are unmarked, the term is
/// what it was.
pub proof fn law_marking_changes_nothing_else(term: TermModel, names: Set<Seq<char>>)
    ensures
        unmark(mark(term, names), names) == unmark(term, names),
    decreases term,
{
    match term {
        TermModel::Lam { pat, bod, .. } => {
            lemma_unmark_pattern(pat, names);
            law_marking_changes_nothing_else(*bod, names);
        },
        TermModel::Let { pat, val, nxt } => {
            lemma_unmark_pattern(pat, names);
            law_marking_changes_nothing_else(*val, names);
            law_marking_changes_nothing_else(*nxt, names);
        },
        TermModel::App { fun, arg, .. } => {
            law_marking_changes_nothing_else(*fun, names);
            law_marking_changes_nothing_else(*arg, names);
        },
        TermModel::Oper { fst, snd, .. } => {
            law_marking_changes_nothing_else(*fst, names);
            law_marking_changes_nothing_else(*snd, names);
        },
        TermModel::Fan { els, .. } => {
            let mid = mark(term, names)->els;
            let back = unmark(mark(term, names), names)->els;
            let plain = unmark(term, names)->els;
            assert forall|i: int| 0 <= i < els.len() implies #[trigger] back[i] == plain[i] by {
                law_marking_changes_nothing_else(els[i], names);
                assert(mid[i] == mark(els[i], names));
            }
            assert(back =~= plain);
        },
        TermModel::Swt { arg, arms, .. } => {
            law_marking_changes_nothing_else(*arg, names);
            let mid = mark(term, names)->arms;
            let back = unmark(mark(term, names), names)->arms;
            let plain = unmark(term, names)->arms;
            assert forall|i: int| 0 <= i < arms.len() implies #[trigger] back[i] == plain[i] by {
                law_marking_changes_nothing_else(arms[i], names);
                assert(mid[i] == mark(arms[i], names));
            }
            assert(back =~= plain);
        },
        _ => {},
    }
}

/// Whether no switch in a term binds a name, as the number, as its predecessor or along with it.
pub open spec fn switches_avoid(term: TermModel, nam: Seq<char>) -> bool
    decreases term,
{
    match term {
        TermModel::Lam { bod, .. } => switches_avoid(*bod, nam),
        TermModel::Let { val, nxt, .. } => switches_avoid(*val, nam) && switches_avoid(*nxt, nam),
        TermModel::App { fun, arg, .. } => switches_avoid(*fun, nam) && switches_avoid(*arg, nam),
        TermModel::Fan { els, .. } => all_switches_avoid(els, nam),
        TermModel::Oper { fst, snd, .. } => switches_avoid(*fst, nam) && switches_avoid(*snd, nam),
        TermModel::Swt { arg, bnd, with, pred, arms } => {
            &&& bnd matches Some(name) ==> name != nam && pred_name(name) != nam
            &&& !with.contains(nam)
            &&& pred != Some(nam)
            &&& switches_avoid(*arg, nam)
            &&& all_switches_avoid(arms, nam)
        },
        _ => true,
    }
}

/// Whether no switch in the terms of a sequence binds a name.
pub open spec fn all_switches_avoid(els: Seq<TermModel>, nam: Seq<char>) -> bool
    decreases els,
{
    forall|i: int| 0 <= i < els.len() ==> switches_avoid(#[trigger] els[i], nam)
}

/// Whether the free variables of a term are those of another one with a variable renamed.
pub open spec fn is_renamed(
    before: Set<Seq<char>>,
    after: Set<Seq<char>>,
    from: Seq<char>,
    to: Seq<char>,
) -> bool {
    forall|nam: Seq<char>| #[trigger]
        after.contains(nam) <==> (nam != from && before.contains(nam)) || (nam == to
            && before.contains(from))
}

/// After a variable is renamed it is not free any more, the new one is free if the old one was,
/// and all others are free as before. The new name must not be bound in the term, where it would
/// be caught, and no switch may bind either of them.
pub proof fn law_renamed_variable(term: TermModel, from: Seq<char>, to: Seq<char>)
    requires
        complete(term),
        from != to,
        !mentions(term, Mention::Binder, to),
        switches_avoid(term, from),
        switches_avoid(term, to),
    ensures
        is_renamed(free(term), free(rename(term, from, to)), from, to),
    decreases term,
{
    match term {
        TermModel::Lam { pat, bod, .. } => {
            lemma_rename_under(pat, *bod, from, to);
            if !binds(pat).contains(from) {
                law_renamed_variable(*bod, from, to);
            }
        },
        TermModel::Let { pat, val, nxt } => {
            lemma_rename_under(pat, *nxt, from, to);
            law_renamed_variable(*val, from, to);
            if !binds(pat).contains(from) {
                law_renamed_variable(*nxt, from, to);
            }
        },
        TermModel::App { fun, arg, .. } => {
            law_renamed_variable(*fun, from, to);
            law_renamed_variable(*arg, from, to);
        },
        TermModel::Oper { fst, snd, .. } => {
            law_renamed_variable(*fst, from, to);
            law_renamed_variable(*snd, from, to);
        },
        TermModel::Fan { els, .. } => {
            let after = rename(term, from, to)->els;
            assert(all_complete(els));
            assert(all_switches_avoid(els, from));
            assert(all_switches_avoid(els, to));
            assert forall|i: int| 0 <= i < els.len() implies is_renamed(
                free(els[i]),
                free(#[trigger] after[i]),
                from,
                to,
            ) by {
                assert(complete(els[i]));
                assert(switches_avoid(els[i], from));
                assert(switches_avoid(els[i], to));
                if mentions(els[i], Mention::Binder, to) {
                    assert(some_mentions(els, Mention::Binder, to));
                }
                law_renamed_variable(els[i], from, to);
            }
            lemma_renamed_in(els, after, els.len(), from, to);
        },
        TermModel::Swt { arg, bnd, with, pred, arms } => {
            let after = rename(term, from, to)->arms;
            assert(all_complete(arms));
            assert(all_switches_avoid(arms, from));
            assert(all_switches_avoid(arms, to));
            law_renamed_variable(*arg, from, to);
            assert forall|i: int| 0 <= i < 2 implies is_renamed(
                free(arms[i]),
                free(#[trigger] after[i]),
                from,
                to,
            ) by {
                assert(complete(arms[i]));
                assert(switches_avoid(arms[i], from));
                assert(switches_avoid(arms[i], to));
                if mentions(arms[i], Mention::Binder, to) {
                    assert(some_mentions(arms, Mention::Binder, to));
                }
                assert(!arm_binds(bnd, with, pred, i == arms.len() - 1, from));
                law_renamed_variable(arms[i], from, to);
            }
            assert(is_renamed(free(arms[0]), free(after[0]), from, to));
            assert(is_renamed(free(arms[1]), free(after[1]), from, to));
        },
        _ => {},
    }
}

proof fn lemma_rename_under(pat: PatternModel, bod: TermModel, from: Seq<char>, to: Seq<char>)
    ensures
        forall|nam: Seq<char>| #[trigger]
            binds(pat).to_set().contains(nam) <==> binds(pat).contains(nam),
        binds(pat).contains(to) <==> pattern_mentions(pat, Mention::Binder, to),
{
    law_binds(pat, to);
}

proof fn lemma_renamed_in(
    els: Seq<TermModel>,
    after: Seq<TermModel>,
    n: nat,
    from: Seq<char>,
    to: Seq<char>,
)
    requires
        n <= els.len(),
        els.len() == after.len(),
        forall|i: int|
            0 <= i < els.len() ==> is_renamed(free(els[i]), free(#[trigger] after[i]), from, to),
    ensures
        is_renamed(free_in(els, n), free_in(after, n), from, to),
    decreases n,
{
    if n > 0 {
        lemma_renamed_in(els, after, (n - 1) as nat, from, to);
        assert(is_renamed(free(els[n - 1]), free(after[n - 1]), from, to));
    }
}

/// A variable that is not free is not renamed anywhere: where it is bound again, that is another
/// variable. No switch may bind it.
pub proof fn law_bound_variable_is_not_renamed(term: TermModel, from: Seq<char>, to: Seq<char>)
    requires
        complete(term),
        has_two_arms(term),
        switches_avoid(term, from),
        !free(term).contains(from),
    ensures
        rename(term, from, to) == term,
    decreases term,
{
    match term {
        TermModel::Lam { pat, bod, .. } => {
            if !binds(pat).contains(from) {
                assert(!binds(pat).to_set().contains(from));
                law_bound_variable_is_not_renamed(*bod, from, to);
            }
        },
        TermModel::Let { pat, val, nxt } => {
            law_bound_variable_is_not_renamed(*val, from, to);
            if !binds(pat).contains(from) {
                assert(!binds(pat).to_set().contains(from));
                law_bound_variable_is_not_renamed(*nxt, from, to);
            }
        },
        TermModel::App { fun, arg, .. } => {
            law_bound_variable_is_not_renamed(*fun, from, to);
            law_bound_variable_is_not_renamed(*arg, from, to);
        },
        TermModel::Oper { fst, snd, .. } => {
            law_bound_variable_is_not_renamed(*fst, from, to);
            law_bound_variable_is_not_renamed(*snd, from, to);
        },
        TermModel::Fan { els, .. } => {
            assert(all_complete(els));
            assert(all_have_two_arms(els));
            assert(all_switches_avoid(els, from));
            lemma_free_of_some(els, els.len(), from);
            let after = rename(term, from, to)->els;
            assert forall|i: int| 0 <= i < els.len() implies #[trigger] after[i] == els[i] by {
                assert(complete(els[i]) && has_two_arms(els[i]) && switches_avoid(els[i], from));
                law_bound_variable_is_not_renamed(els[i], from, to);
            }
            assert(after =~= els);
        },
        TermModel::Swt { arg, arms, .. } => {
            assert(all_complete(arms));
            assert(all_have_two_arms(arms));
            assert(all_switches_avoid(arms, from));
            law_bound_variable_is_not_renamed(*arg, from, to);
            let after = rename(term, from, to)->arms;
            assert forall|i: int| 0 <= i < arms.len() implies #[trigger] after[i] == arms[i] by {
                assert(i == 0 || i == 1);
                assert(complete(arms[i]) && has_two_arms(arms[i]) && switches_avoid(
                    arms[i],
                    from,
                ));
                law_bound_variable_is_not_renamed(arms[i], from, to);
            }
            assert(after =~= arms);
        },
        _ => {},
    }
}

/// Whether every switch in a term has just two arms.
pub open spec fn has_two_arms(term: TermModel) -> bool
    decreases term,
{
    match term {
        TermModel::Lam { bod, .. } => has_two_arms(*bod),
        TermModel::Let { val, nxt, .. } => has_two_arms(*val) && has_two_arms(*nxt),
        TermModel::App { fun, arg, .. } => has_two_arms(*fun) && has_two_arms(*arg),
        TermModel::Fan { els, .. } => all_have_two_arms(els),
        TermModel::Oper { fst, snd, .. } => has_two_arms(*fst) && has_two_arms(*snd),
        TermModel::Swt { arg, arms, .. } => has_two_arms(*arg) && arms.len() == 2
            && all_have_two_arms(arms),
        _ => true,
    }
}

/// Whether every switch in every term of a sequence has just two arms.
pub open spec fn all_have_two_arms(els: Seq<TermModel>) -> bool
    decreases els,
{
    forall|i: int| 0 <= i < els.len() ==> has_two_arms(#[trigger] els[i])
}

/// A variable that is renamed to a name that stands nowhere in the term can be renamed back:
/// nothing else has changed.
pub proof fn law_renaming_changes_nothing_else(term: TermModel, from: Seq<char>, to: Seq<char>)
    requires
        !mentions(term, Mention::Use, to),
        !mentions(term, Mention::Binder, to),
        switches_avoid(term, to),
    ensures
        rename(rename(term, from, to), to, from) == term,
    decreases term,
{
    match term {
        TermModel::Lam { pat, bod, .. } => {
            law_binds(pat, to);
            law_renaming_changes_nothing_else(*bod, from, to);
            lemma_absent(*bod, to, from);
        },
        TermModel::Let { pat, val, nxt } => {
            law_binds(pat, to);
            law_renaming_changes_nothing_else(*val, from, to);
            law_renaming_changes_nothing_else(*nxt, from, to);
            lemma_absent(*nxt, to, from);
        },
        TermModel::App { fun, arg, .. } => {
            law_renaming_changes_nothing_else(*fun, from, to);
            law_renaming_changes_nothing_else(*arg, from, to);
        },
        TermModel::Oper { fst, snd, .. } => {
            law_renaming_changes_nothing_else(*fst, from, to);
            law_renaming_changes_nothing_else(*snd, from, to);
        },
        TermModel::Fan { els, .. } => {
            assert(all_switches_avoid(els, to));
            let mid = rename(term, from, to)->els;
            let back = rename(rename(term, from, to), to, from)->els;
            assert forall|i: int| 0 <= i < els.len() implies #[trigger] back[i] == els[i] by {
                assert(mid[i] == rename(els[i], from, to));
                lemma_one_mentions(els, to, i);
                assert(switches_avoid(els[i], to));
                law_renaming_changes_nothing_else(els[i], from, to);
            }
            assert(back =~= els);
        },
        TermModel::Swt { arg, bnd, with, pred, arms } => {
            assert(all_switches_avoid(arms, to));
            law_renaming_changes_nothing_else(*arg, from, to);
            let mid = rename(term, from, to)->arms;
            let back = rename(rename(term, from, to), to, from)->arms;
            assert forall|i: int| 0 <= i < arms.len() implies #[trigger] back[i] == arms[i] by {
                assert(back[i] == rename(mid[i], to, from));
                lemma_one_mentions(arms, to, i);
                assert(switches_avoid(arms[i], to));
                law_renaming_changes_nothing_else(arms[i], from, to);
                lemma_absent(arms[i], to, from);
            }
            assert(back =~= arms);
        },
        _ => {},
    }
}

proof fn lemma_one_mentions(els: Seq<TermModel>, nam: Seq<char>, i: int)
    requires
        0 <= i < els.len(),
        !some_mentions(els, Mention::Use, nam),
        !some_mentions(els, Mention::Binder, nam),
    ensures
        !mentions(els[i], Mention::Use, nam),
        !mentions(els[i], Mention::Binder, nam),
{
}

/// Renaming a variable that is used nowhere changes nothing.
proof fn lemma_absent(term: TermModel, from: Seq<char>, to: Seq<char>)
    requires
        !mentions(term, Mention::Use, from),
    ensures
        rename(term, from, to) == term,
    decreases term,
{
    match term {
        TermModel::Lam { bod, .. } => lemma_absent(*bod, from, to),
        TermModel::Let { val, nxt, .. } => {
            lemma_absent(*val, from, to);
            lemma_absent(*nxt, from, to);
        },
        TermModel::App { fun, arg, .. } => {
            lemma_absent(*fun, from, to);
            lemma_absent(*arg, from, to);
        },
        TermModel::Oper { fst, snd, .. } => {
            lemma_absent(*fst, from, to);
            lemma_absent(*snd, from, to);
        },
        TermModel::Fan { els, .. } => {
            let after = rename(term, from, to)->els;
            assert forall|i: int| 0 <= i < els.len() implies #[trigger] after[i] == els[i] by {
                if mentions(els[i], Mention::Use, from) {
                    assert(some_mentions(els, Mention::Use, from));
                }
                lemma_absent(els[i], from, to);
            }
            assert(after =~= els);
        },
        TermModel::Swt { arg, arms, .. } => {
            lemma_absent(*arg, from, to);
            let after = rename(term, from, to)->arms;
            assert forall|i: int| 0 <= i < arms.len() implies #[trigger] after[i] == arms[i] by {
                if mentions(arms[i], Mention::Use, from) {
                    assert(some_mentions(arms, Mention::Use, from));
                }
                lemma_absent(arms[i], from, to);
            }
            assert(after =~= arms);
        },
        _ => {},
    }
}

/// In a switch a variable is renamed in what is matched on, and in the arms that do not bind it:
/// all of them bind the number and what goes along with it, and the last one the predecessor.
pub proof fn law_renaming_stops_at_switches(
    arg: TermModel,
    bnd: Option<Seq<char>>,
    with: Seq<Seq<char>>,
    pred: Option<Seq<char>>,
    arms: Seq<TermModel>,
    from: Seq<char>,
    to: Seq<char>,
)
    ensures
        rename(
            TermModel::Swt { arg: Box::new(arg), bnd, with, pred, arms },
            from,
            to,
        ) matches TermModel::Swt { arg: on, bnd: name, with: along, pred: last, arms: after } && {
            &&& *on == rename(arg, from, to)
            &&& name == bnd
            &&& along == with
            &&& last == pred
            &&& after.len() == arms.len()
            &&& bnd == Some(from) || with.contains(from) ==> after == arms
            &&& bnd != Some(from) && !with.contains(from) ==> forall|i: int|
                0 <= i < arms.len() ==> #[trigger] after[i] == if i == arms.len() - 1 && pred
                    == Some(from) {
                    arms[i]
                } else {
                    rename(arms[i], from, to)
                }
        },
{
    let term = TermModel::Swt { arg: Box::new(arg), bnd, with, pred, arms };
    let after = rename(term, from, to)->arms;
    if bnd == Some(from) || with.contains(from) {
        assert(after =~= arms);
    }
}

} // verus!
