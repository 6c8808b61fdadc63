//! Scopes of variables: which variables of a term are free, how the unscoped ones are
//! marked, and how a variable is renamed.
use crate::name::{pred_name, texts, Name, NameSet};
use crate::term::{
    all_complete, complete, lemma_pattern_model, lemma_term_model, models, pattern_models,
    Pattern, PatternModel, Term, TermModel,
};
use vstd::prelude::*;

verus! {

/// The variables that a pattern binds, from left to right.
pub open spec fn binds(pat: PatternModel) -> Seq<Seq<char>>
    decreases pat, 0nat,
{
    match pat {
        PatternModel::Var(Some(nam)) => seq![nam],
        PatternModel::Var(None) => seq![],
        PatternModel::Chn(_) => seq![],
        PatternModel::Fan(_, _, els) => binds_in(els, els.len()),
    }
}

/// The variables that the first `n` patterns of a sequence bind.
pub open spec fn binds_in(els: Seq<PatternModel>, n: nat) -> Seq<Seq<char>>
    decreases els, n,
{
    if 0 < n <= els.len() {
        binds_in(els, (n - 1) as nat) + binds(els[n - 1])
    } else {
        seq![]
    }
}

/// The free variables of a term: those used where no pattern around the use binds them.
/// A switch binds the predecessor in its second arm.
pub open spec fn free(term: TermModel) -> Set<Seq<char>>
    decreases term, 0nat,
{
    match term {
        TermModel::Var { nam } => set![nam],
        TermModel::Lam { pat, bod, .. } => free(*bod).difference(binds(pat).to_set()),
        TermModel::Let { pat, val, nxt } => free(*val).union(
            free(*nxt).difference(binds(pat).to_set()),
        ),
        TermModel::App { fun, arg, .. } => free(*fun).union(free(*arg)),
        TermModel::Fan { els, .. } => free_in(els, els.len()),
        TermModel::Oper { fst, snd, .. } => free(*fst).union(free(*snd)),
        TermModel::Swt { arg, bnd, arms, .. } => if arms.len() >= 2 {
            free(*arg).union(free(arms[0])).union(
                match bnd {
                    Some(bnd) => free(arms[1]).remove(pred_name(bnd)),
                    None => free(arms[1]),
                },
            )
        } else {
            free(*arg)
        },
        _ => Set::empty(),
    }
}

/// The free variables of the first `n` terms of a sequence.
pub open spec fn free_in(els: Seq<TermModel>, n: nat) -> Set<Seq<char>>
    decreases els, n,
{
    if 0 < n <= els.len() {
        free_in(els, (n - 1) as nat).union(free(els[n - 1]))
    } else {
        Set::empty()
    }
}

/// A pattern with every variable of `names` turned into the binding end of an unscoped one.
pub open spec fn mark_pattern(pat: PatternModel, names: Set<Seq<char>>) -> PatternModel
    decreases pat,
{
    match pat {
        PatternModel::Var(Some(nam)) => if names.contains(nam) {
            PatternModel::Chn(nam)
        } else {
            pat
        },
        PatternModel::Fan(fan, tag, els) => PatternModel::Fan(
            fan,
            tag,
            Seq::new(
                els.len(),
                |i: int|
                    if 0 <= i < els.len() {
                        mark_pattern(els[i], names)
                    } else {
                        PatternModel::Var(None)
                    },
            ),
        ),
        _ => pat,
    }
}

/// A term with every variable of `names` marked as unscoped, where it is used and where it
/// is bound.
pub open spec fn mark(term: TermModel, names: Set<Seq<char>>) -> TermModel
    decreases term,
{
    match term {
        TermModel::Var { nam } => if names.contains(nam) {
            TermModel::Link { nam }
        } else {
            term
        },
        TermModel::Lam { tag, pat, bod } => TermModel::Lam {
            tag,
            pat: mark_pattern(pat, names),
            bod: Box::new(mark(*bod, names)),
        },
        TermModel::Let { pat, val, nxt } => TermModel::Let {
            pat: mark_pattern(pat, names),
            val: Box::new(mark(*val, names)),
            nxt: Box::new(mark(*nxt, names)),
        },
        TermModel::App { tag, fun, arg } => TermModel::App {
            tag,
            fun: Box::new(mark(*fun, names)),
            arg: Box::new(mark(*arg, names)),
        },
        TermModel::Fan { fan, tag, els } => TermModel::Fan {
            fan,
            tag,
            els: Seq::new(
                els.len(),
                |i: int|
                    if 0 <= i < els.len() {
                        mark(els[i], names)
                    } else {
                        TermModel::Error
                    },
            ),
        },
        TermModel::Oper { opr, fst, snd } => TermModel::Oper {
            opr,
            fst: Box::new(mark(*fst, names)),
            snd: Box::new(mark(*snd, names)),
        },
        TermModel::Swt { arg, bnd, with, pred, arms } => TermModel::Swt {
            arg: Box::new(mark(*arg, names)),
            bnd,
            with,
            pred,
            arms: Seq::new(
                arms.len(),
                |i: int|
                    if 0 <= i < arms.len() {
                        mark(arms[i], names)
                    } else {
                        TermModel::Error
                    },
            ),
        },
        _ => term,
    }
}

/// A sequence of patterns with the variables of `names` marked.
pub open spec fn mark_patterns(
    els: Seq<PatternModel>,
    names: Set<Seq<char>>,
) -> Seq<PatternModel> {
    els.map_values(|pat: PatternModel| mark_pattern(pat, names))
}

/// A sequence of terms with the variables of `names` marked.
pub open spec fn mark_all(els: Seq<TermModel>, names: Set<Seq<char>>) -> Seq<TermModel> {
    els.map_values(|term: TermModel| mark(term, names))
}

/// Whether arm `i` of a switch binds `name`: all arms bind the number and what the switch
/// carries along, and the last one the predecessor too.
pub open spec fn arm_binds(
    bnd: Option<Seq<char>>,
    with: Seq<Seq<char>>,
    pred: Option<Seq<char>>,
    last: bool,
    name: Seq<char>,
) -> bool {
    bnd == Some(name) || with.contains(name) || (last && pred == Some(name))
}

/// A term with the variable `from` renamed to `to` wherever it is used and not bound again.
pub open spec fn rename(term: TermModel, from: Seq<char>, to: Seq<char>) -> TermModel
    decreases term,
{
    match term {
        TermModel::Var { nam } => if nam == from {
            TermModel::Var { nam: to }
        } else {
            term
        },
        TermModel::Lam { tag, pat, bod } => if binds(pat).contains(from) {
            term
        } else {
            TermModel::Lam { tag, pat, bod: Box::new(rename(*bod, from, to)) }
        },
        TermModel::Let { pat, val, nxt } => TermModel::Let {
            pat,
            val: Box::new(rename(*val, from, to)),
            nxt: if binds(pat).contains(from) {
                nxt
            } else {
                Box::new(rename(*nxt, from, to))
            },
        },
        TermModel::App { tag, fun, arg } => TermModel::App {
            tag,
            fun: Box::new(rename(*fun, from, to)),
            arg: Box::new(rename(*arg, from, to)),
        },
        TermModel::Fan { fan, tag, els } => TermModel::Fan {
            fan,
            tag,
            els: Seq::new(
                els.len(),
                |i: int|
                    if 0 <= i < els.len() {
                        rename(els[i], from, to)
                    } else {
                        TermModel::Error
                    },
            ),
        },
        TermModel::Oper { opr, fst, snd } => TermModel::Oper {
            opr,
            fst: Box::new(rename(*fst, from, to)),
            snd: Box::new(rename(*snd, from, to)),
        },
        TermModel::Swt { arg, bnd, with, pred, arms } => TermModel::Swt {
            arg: Box::new(rename(*arg, from, to)),
            bnd,
            with,
            pred,
            arms: Seq::new(
                arms.len(),
                |i: int|
                    if 0 <= i < arms.len() {
                        if arm_binds(bnd, with, pred, i == arms.len() - 1, from) {
                            arms[i]
                        } else {
                            rename(arms[i], from, to)
                        }
                    } else {
                        TermModel::Error
                    },
            ),
        },
        _ => term,
    }
}

impl Pattern {
    /// Adds the variables that the pattern binds to a scope.
    pub fn push_binds(&self, scope: &mut Vec<Name>)
        ensures
            texts(final(scope)@) == texts(old(scope)@) + binds(self@),
            final(scope)@.len() >= old(scope)@.len(),
            final(scope)@.take(old(scope)@.len() as int) == old(scope)@,
        decreases self,
    {
        match self {
            Pattern::Var(Some(nam)) => {
                scope.push(nam.clone());
                assert(texts(scope@) =~= texts(old(scope)@) + binds(self@));
            },
            Pattern::Var(None) => {
                assert(texts(scope@) =~= texts(old(scope)@) + binds(self@));
            },
            Pattern::Chn(_) => {
                assert(texts(scope@) =~= texts(old(scope)@) + binds(self@));
            },
            Pattern::Fan(_, _, els) => {
                proof {
                    lemma_pattern_model(*self);
                }
                let mut i: usize = 0;
                assert(texts(scope@) =~= texts(old(scope)@) + binds_in(pattern_models(els@), 0));
                while i < els.len()
                    invariant
                        i <= els.len(),
                        decreases_to!(self => els),
                        texts(scope@) == texts(old(scope)@) + binds_in(
                            pattern_models(els@),
                            i as nat,
                        ),
                        scope@.len() >= old(scope)@.len(),
                        scope@.take(old(scope)@.len() as int) =~= old(scope)@,
                    decreases els.len() - i,
                {
                    let ghost before = scope@;
                    els[i].push_binds(scope);
                    assert(texts(scope@) =~= texts(old(scope)@) + binds_in(
                        pattern_models(els@),
                        (i + 1) as nat,
                    ));
                    assert forall|k: int| 0 <= k < old(scope)@.len() implies scope@[k] == old(
                        scope,
                    )@[k] by {
                        assert(scope@.take(before.len() as int)[k] == before[k]);
                        assert(before.take(old(scope)@.len() as int)[k] == old(scope)@[k]);
                    }
                    i += 1;
                }
            },
        }
        assert(scope@.take(old(scope)@.len() as int) =~= old(scope)@);
    }

    /// Whether the pattern binds a variable.
    pub fn binds_name(&self, name: &Name) -> (res: bool)
        ensures
            res == binds(self@).contains(name@),
    {
        let mut bound: Vec<Name> = Vec::new();
        self.push_binds(&mut bound);
        assert(texts(bound@) =~= binds(self@));
        name.is_in(&bound)
    }

    /// Turns the variables of `unscoped` into the binding ends of unscoped ones.
    pub fn apply_unscoped(&mut self, unscoped: &NameSet)
        ensures
            final(self)@ == mark_pattern(old(self)@, unscoped@),
        decreases *old(self),
    {
        let mut link: Option<Name> = None;
        match self {
            Pattern::Var(Some(nam)) => {
                if unscoped.contains(nam) {
                    link = Some(nam.clone());
                }
            },
            Pattern::Fan(_, _, els) => {
                Pattern::apply_unscoped_all(els, unscoped);
                proof {
                    lemma_pattern_model(*old(self));
                    lemma_pattern_model(*self);
                    assert(mark_pattern(old(self)@, unscoped@)->Fan_2 =~= mark_patterns(
                        pattern_models(old(self)->Fan_2@),
                        unscoped@,
                    ));
                }
            },
            _ => {},
        }
        if let Some(nam) = link {
            *self = Pattern::Chn(nam);
        }
    }

    fn apply_unscoped_all(els: &mut Vec<Pattern>, unscoped: &NameSet)
        ensures
            pattern_models(final(els)@) == mark_patterns(pattern_models(old(els)@), unscoped@),
        decreases *old(els),
    {
        let len: usize = els.len();
        let mut i: usize = 0;
        while i < len
            invariant
                i <= len,
                els@.len() == len,
                len == old(els)@.len(),
                forall|j: int|
                    0 <= j < i ==> (#[trigger] els@[j]).model() == mark_pattern(
                        old(els)@[j].model(),
                        unscoped@,
                    ),
                forall|j: int| i <= j < len ==> els@[j] == old(els)@[j],
            decreases len - i,
        {
            els[i].apply_unscoped(unscoped);
            i += 1;
        }
        assert(pattern_models(els@) =~= mark_patterns(pattern_models(old(els)@), unscoped@));
    }
}

/// The variables of a set that a scope does not hold.
pub open spec fn outside(names: Set<Seq<char>>, scope: Seq<Name>) -> Set<Seq<char>> {
    names.difference(texts(scope).to_set())
}

impl Term {
    /// Adds the free variables of the term that `scope` does not hold to `unscoped`.
    pub fn collect_unscoped(&self, unscoped: &mut NameSet, scope: &mut Vec<Name>)
        requires
            complete(self@),
        ensures
            final(unscoped)@ == old(unscoped)@.union(outside(free(self@), old(scope)@)),
            final(scope)@ == old(scope)@,
        decreases self,
    {
        let depth: usize = scope.len();
        match self {
            Term::Var { nam } => {
                if !nam.is_in(scope) {
                    unscoped.insert(nam.clone());
                }
            },
            Term::Lam { pat, bod, .. } => {
                pat.push_binds(scope);
                proof {
                    lemma_outside(free(bod@), old(scope)@, scope@, binds(pat@));
                }
                bod.collect_unscoped(unscoped, scope);
                scope.truncate(depth);
            },
            Term::Let { pat, val, nxt } => {
                val.collect_unscoped(unscoped, scope);
                pat.push_binds(scope);
                proof {
                    lemma_outside(free(nxt@), old(scope)@, scope@, binds(pat@));
                }
                nxt.collect_unscoped(unscoped, scope);
                scope.truncate(depth);
            },
            Term::App { fun, arg, .. } => {
                fun.collect_unscoped(unscoped, scope);
                arg.collect_unscoped(unscoped, scope);
            },
            Term::Oper { fst, snd, .. } => {
                fst.collect_unscoped(unscoped, scope);
                snd.collect_unscoped(unscoped, scope);
            },
            Term::Fan { els, .. } => {
                proof {
                    lemma_term_model(*self);
                }
                let mut i: usize = 0;
                while i < els.len()
                    invariant
                        i <= els.len(),
                        all_complete(models(els@)),
                        decreases_to!(self => els),
                        scope@ == old(scope)@,
                        unscoped@ =~= old(unscoped)@.union(
                            outside(free_in(models(els@), i as nat), old(scope)@),
                        ),
                    decreases els.len() - i,
                {
                    assert(complete(models(els@)[i as int]));
                    els[i].collect_unscoped(unscoped, scope);
                    i += 1;
                }
            },
            Term::Swt { arg, bnd, arms, .. } => {
                proof {
                    lemma_term_model(*self);
                    assert(all_complete(models(arms@)));
                    assert(complete(models(arms@)[0]));
                    assert(complete(models(arms@)[1]));
                }
                arg.collect_unscoped(unscoped, scope);
                arms[0].collect_unscoped(unscoped, scope);
                if let Some(bnd) = bnd {
                    scope.push(bnd.pred());
                    proof {
                        let pred = seq![pred_name(bnd@)];
                        lemma_outside(free(arms@[1]@), old(scope)@, scope@, pred);
                        assert(pred[0] == pred_name(bnd@));
                        assert(pred.to_set() =~= set![pred_name(bnd@)]);
                    }
                }
                arms[1].collect_unscoped(unscoped, scope);
                scope.truncate(depth);
            },
            _ => {},
        }
        assert(scope@ =~= old(scope)@);
        assert(unscoped@ =~= old(unscoped)@.union(outside(free(self@), old(scope)@)));
    }

    /// Marks the variables of `unscoped` as unscoped, where they are used and where they are
    /// bound.
    pub fn apply_unscoped(&mut self, unscoped: &NameSet)
        ensures
            final(self)@ == mark(old(self)@, unscoped@),
        decreases *old(self),
    {
        let mut link: Option<Name> = None;
        match self {
            Term::Var { nam } => {
                if unscoped.contains(nam) {
                    link = Some(nam.clone());
                }
            },
            Term::Lam { pat, bod, .. } => {
                pat.apply_unscoped(unscoped);
                bod.apply_unscoped(unscoped);
            },
            Term::Let { pat, val, nxt } => {
                pat.apply_unscoped(unscoped);
                val.apply_unscoped(unscoped);
                nxt.apply_unscoped(unscoped);
            },
            Term::App { fun, arg, .. } => {
                fun.apply_unscoped(unscoped);
                arg.apply_unscoped(unscoped);
            },
            Term::Oper { fst, snd, .. } => {
                fst.apply_unscoped(unscoped);
                snd.apply_unscoped(unscoped);
            },
            Term::Fan { els, .. } => {
                Term::apply_unscoped_all(els, unscoped);
                proof {
                    lemma_term_model(*old(self));
                    lemma_term_model(*self);
                    assert(mark(old(self)@, unscoped@)->els =~= mark_all(
                        models(old(self)->els@),
                        unscoped@,
                    ));
                }
            },
            Term::Swt { arg, arms, .. } => {
                arg.apply_unscoped(unscoped);
                Term::apply_unscoped_all(arms, unscoped);
                proof {
                    lemma_term_model(*old(self));
                    lemma_term_model(*self);
                    assert(mark(old(self)@, unscoped@)->arms =~= mark_all(
                        models(old(self)->arms@),
                        unscoped@,
                    ));
                }
            },
            _ => {},
        }
        if let Some(nam) = link {
            *self = Term::Link { nam };
        }
    }

    fn apply_unscoped_all(els: &mut Vec<Term>, unscoped: &NameSet)
        ensures
            models(final(els)@) == mark_all(models(old(els)@), unscoped@),
        decreases *old(els),
    {
        let len: usize = els.len();
        let mut i: usize = 0;
        while i < len
            invariant
                i <= len,
                els@.len() == len,
                len == old(els)@.len(),
                forall|j: int|
                    0 <= j < i ==> (#[trigger] els@[j]).model() == mark(
                        old(els)@[j].model(),
                        unscoped@,
                    ),
                forall|j: int| i <= j < len ==> els@[j] == old(els)@[j],
            decreases len - i,
        {
            els[i].apply_unscoped(unscoped);
            i += 1;
        }
        assert(models(els@) =~= mark_all(models(old(els)@), unscoped@));
    }

    /// Renames the variable `from` to `to` wherever it is used and not bound again.
    pub fn subst(&mut self, from: &Name, to: &Name)
        ensures
            final(self)@ == rename(old(self)@, from@, to@),
        decreases *old(self),
    {
        match self {
            Term::Var { nam } => {
                if nam.same(from) {
                    *nam = to.clone();
                }
            },
            Term::Lam { pat, bod, .. } => {
                if !pat.binds_name(from) {
                    bod.subst(from, to);
                }
            },
            Term::Let { pat, val, nxt } => {
                val.subst(from, to);
                if !pat.binds_name(from) {
                    nxt.subst(from, to);
                }
            },
            Term::App { fun, arg, .. } => {
                fun.subst(from, to);
                arg.subst(from, to);
            },
            Term::Oper { fst, snd, .. } => {
                fst.subst(from, to);
                snd.subst(from, to);
            },
            Term::Fan { els, .. } => {
                Term::subst_all(els, from, to, false, false);
                proof {
                    lemma_term_model(*old(self));
                    lemma_term_model(*self);
                    assert(rename(old(self)@, from@, to@)->els =~= self@->els);
                }
            },
            Term::Swt { arg, bnd, with, pred, arms } => {
                arg.subst(from, to);
                let in_all = Name::is(bnd, from) || from.is_in(with);
                let in_last = in_all || Name::is(pred, from);
                Term::subst_all(arms, from, to, in_all, in_last);
                proof {
                    lemma_term_model(*old(self));
                    lemma_term_model(*self);
                    assert(rename(old(self)@, from@, to@)->arms =~= self@->arms);
                }
            },
            _ => {},
        }
    }

    /// Renames a variable in all terms of a vector, except those that bind it: all but the
    /// last one when `in_all` holds, and the last one when `in_last` does.
    fn subst_all(els: &mut Vec<Term>, from: &Name, to: &Name, in_all: bool, in_last: bool)
        ensures
            final(els)@.len() == old(els)@.len(),
            forall|j: int|
                0 <= j < old(els)@.len() ==> (#[trigger] models(final(els)@)[j]) == if (if j
                    == old(els)@.len() - 1 {
                    in_last
                } else {
                    in_all
                }) {
                    models(old(els)@)[j]
                } else {
                    rename(models(old(els)@)[j], from@, to@)
                },
        decreases *old(els),
    {
        let len: usize = els.len();
        let mut i: usize = 0;
        while i < len
            invariant
                i <= len,
                els@.len() == len,
                len == old(els)@.len(),
                forall|j: int|
                    0 <= j < i ==> (#[trigger] els@[j]).model() == if (if j == len - 1 {
                        in_last
                    } else {
                        in_all
                    }) {
                        old(els)@[j].model()
                    } else {
                        rename(old(els)@[j].model(), from@, to@)
                    },
                forall|j: int| i <= j < len ==> els@[j] == old(els)@[j],
            decreases len - i,
        {
            let bound = if i == len - 1 {
                in_last
            } else {
                in_all
            };
            if !bound {
                els[i].subst(from, to);
            }
            i += 1;
        }
    }
}

/// What is outside of a scope that was extended is what is outside of the scope before and
/// not among the added names.
proof fn lemma_outside(
    names: Set<Seq<char>>,
    before: Seq<Name>,
    after: Seq<Name>,
    added: Seq<Seq<char>>,
)
    requires
        texts(after) =~= texts(before) + added,
    ensures
        outside(names, after) == outside(names.difference(added.to_set()), before),
{
    assert forall|name: Seq<char>|
        texts(after).contains(name) <==> texts(before).contains(name) || added.contains(name) by {
        if texts(before).contains(name) {
            let i = choose|i: int| 0 <= i < texts(before).len() && texts(before)[i] == name;
            assert(texts(after)[i] == name);
        }
        if added.contains(name) {
            let i = choose|i: int| 0 <= i < added.len() && added[i] == name;
            assert(texts(after)[texts(before).len() + i] == name);
        }
    }
    assert(outside(names, after) =~= outside(names.difference(added.to_set()), before));
}

/// Marking takes the marked variables, and no others, from those that a pattern binds.
pub proof fn lemma_binds_of_marked(pat: PatternModel, names: Set<Seq<char>>)
    ensures
        binds(mark_pattern(pat, names)).to_set() == binds(pat).to_set().difference(names),
    decreases pat, 0nat,
{
    match pat {
        PatternModel::Var(Some(nam)) => {
            assert(seq![nam][0] == nam);
        },
        PatternModel::Fan(fan, tag, els) => {
            let marked = mark_pattern(pat, names)->Fan_2;
            assert(marked =~= mark_patterns(els, names));
            lemma_binds_of_marked_in(els, names, els.len());
        },
        _ => {},
    }
    assert(binds(mark_pattern(pat, names)).to_set() =~= binds(pat).to_set().difference(names));
}

proof fn lemma_binds_of_marked_in(els: Seq<PatternModel>, names: Set<Seq<char>>, n: nat)
    requires
        n <= els.len(),
    ensures
        binds_in(mark_patterns(els, names), n).to_set() =~= binds_in(els, n).to_set().difference(
            names,
        ),
    decreases els, n,
{
    if n > 0 {
        let before = (n - 1) as nat;
        lemma_binds_of_marked_in(els, names, before);
        lemma_binds_of_marked(els[n - 1], names);
        lemma_set_of_sum(binds_in(els, before), binds(els[n - 1]));
        lemma_set_of_sum(
            binds_in(mark_patterns(els, names), before),
            binds(mark_pattern(els[n - 1], names)),
        );
    }
}

/// The elements of a concatenation are those of its two parts.
proof fn lemma_set_of_sum(a: Seq<Seq<char>>, b: Seq<Seq<char>>)
    ensures
        (a + b).to_set() =~= a.to_set().union(b.to_set()),
{
    assert forall|x: Seq<char>| (a + b).contains(x) <==> a.contains(x) || b.contains(x) by {
        if a.contains(x) {
            let i = choose|i: int| 0 <= i < a.len() && a[i] == x;
            assert((a + b)[i] == x);
        }
        if b.contains(x) {
            let i = choose|i: int| 0 <= i < b.len() && b[i] == x;
            assert((a + b)[a.len() + i] == x);
        }
    }
}

/// Marking variables takes them, and no others, from the free variables of a term.
pub proof fn law_free_of_marked(term: TermModel, names: Set<Seq<char>>)
    ensures
        free(mark(term, names)) == free(term).difference(names),
    decreases term, 0nat,
{
    match term {
        TermModel::Lam { pat, bod, .. } => {
            law_free_of_marked(*bod, names);
            lemma_binds_of_marked(pat, names);
        },
        TermModel::Let { pat, val, nxt } => {
            law_free_of_marked(*val, names);
            law_free_of_marked(*nxt, names);
            lemma_binds_of_marked(pat, names);
        },
        TermModel::App { fun, arg, .. } => {
            law_free_of_marked(*fun, names);
            law_free_of_marked(*arg, names);
        },
        TermModel::Oper { fst, snd, .. } => {
            law_free_of_marked(*fst, names);
            law_free_of_marked(*snd, names);
        },
        TermModel::Fan { els, .. } => {
            assert(mark(term, names)->els =~= mark_all(els, names));
            lemma_free_of_marked_in(els, names, els.len());
        },
        TermModel::Swt { arg, bnd, arms, .. } => {
            assert(mark(term, names)->arms =~= mark_all(arms, names));
            law_free_of_marked(*arg, names);
            if arms.len() >= 2 {
                law_free_of_marked(arms[0], names);
                law_free_of_marked(arms[1], names);
            }
        },
        _ => {},
    }
    assert(free(mark(term, names)) =~= free(term).difference(names));
}

proof fn lemma_free_of_marked_in(els: Seq<TermModel>, names: Set<Seq<char>>, n: nat)
    requires
        n <= els.len(),
    ensures
        free_in(mark_all(els, names), n) =~= free_in(els, n).difference(names),
    decreases els, n,
{
    if n > 0 {
        lemma_free_of_marked_in(els, names, (n - 1) as nat);
        law_free_of_marked(els[n - 1], names);
    }
}

/// Once its free variables are marked as unscoped, a term has no free variables left.
pub proof fn law_marked_term_is_closed(term: TermModel)
    ensures
        free(mark(term, free(term))) == Set::<Seq<char>>::empty(),
{
    law_free_of_marked(term, free(term));
    assert(free(mark(term, free(term))) =~= Set::<Seq<char>>::empty());
}

/// Renaming a variable keeps the arms of every switch.
pub proof fn lemma_rename_complete(term: TermModel, from: Seq<char>, to: Seq<char>)
    requires
        complete(term),
    ensures
        complete(rename(term, from, to)),
    decreases term,
{
    match term {
        TermModel::Lam { bod, .. } => {
            lemma_rename_complete(*bod, from, to);
        },
        TermModel::Let { val, nxt, .. } => {
            lemma_rename_complete(*val, from, to);
            lemma_rename_complete(*nxt, from, to);
        },
        TermModel::App { fun, arg, .. } => {
            lemma_rename_complete(*fun, from, to);
            lemma_rename_complete(*arg, from, to);
        },
        TermModel::Oper { fst, snd, .. } => {
            lemma_rename_complete(*fst, from, to);
            lemma_rename_complete(*snd, from, to);
        },
        TermModel::Fan { els, .. } => {
            assert(all_complete(els));
            let after = rename(term, from, to)->els;
            assert forall|i: int| 0 <= i < after.len() implies complete(#[trigger] after[i]) by {
                assert(complete(els[i]));
                lemma_rename_complete(els[i], from, to);
            }
            assert(all_complete(after));
        },
        TermModel::Swt { arg, arms, .. } => {
            assert(all_complete(arms));
            lemma_rename_complete(*arg, from, to);
            let after = rename(term, from, to)->arms;
            assert forall|i: int| 0 <= i < after.len() implies complete(#[trigger] after[i]) by {
                assert(complete(arms[i]));
                lemma_rename_complete(arms[i], from, to);
            }
            assert(all_complete(after));
        },
        _ => {},
    }
}

/// Marking variables as unscoped keeps the arms of every switch.
pub proof fn lemma_mark_complete(term: TermModel, names: Set<Seq<char>>)
    requires
        complete(term),
    ensures
        complete(mark(term, names)),
    decreases term,
{
    match term {
        TermModel::Lam { bod, .. } => {
            lemma_mark_complete(*bod, names);
        },
        TermModel::Let { val, nxt, .. } => {
            lemma_mark_complete(*val, names);
            lemma_mark_complete(*nxt, names);
        },
        TermModel::App { fun, arg, .. } => {
            lemma_mark_complete(*fun, names);
            lemma_mark_complete(*arg, names);
        },
        TermModel::Oper { fst, snd, .. } => {
            lemma_mark_complete(*fst, names);
            lemma_mark_complete(*snd, names);
        },
        TermModel::Fan { els, .. } => {
            assert(all_complete(els));
            let after = mark(term, names)->els;
            assert forall|i: int| 0 <= i < after.len() implies complete(#[trigger] after[i]) by {
                assert(complete(els[i]));
                lemma_mark_complete(els[i], names);
            }
            assert(all_complete(after));
        },
        TermModel::Swt { arg, arms, .. } => {
            assert(all_complete(arms));
            lemma_mark_complete(*arg, names);
            let after = mark(term, names)->arms;
            assert forall|i: int| 0 <= i < after.len() implies complete(#[trigger] after[i]) by {
                assert(complete(arms[i]));
                lemma_mark_complete(arms[i], names);
            }
            assert(all_complete(after));
        },
        _ => {},
    }
}

} // verus!
