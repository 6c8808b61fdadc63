//! Insertion of a destructuring `let` in the middle of a term.
use crate::name::{opt_name, Name};
use crate::scope::{binds, binds_in, free, free_in};
use crate::term::{
    all_complete, complete, lemma_pattern_model, lemma_term_model, models, FanKind, Pattern,
    PatternModel, Tag, TagModel, Term, TermModel,
};
use vstd::prelude::*;

verus! {

/// Represents `let #tag(fst, snd) = val` / `let #tag{fst snd} = val`.
pub struct Split {
    pub fan: FanKind,
    pub tag: Tag,
    pub fst: Option<Name>,
    pub snd: Option<Name>,
    pub val: Term,
}

/// The model of a split.
pub struct SplitModel {
    pub fan: FanKind,
    pub tag: TagModel,
    pub fst: Option<Seq<char>>,
    pub snd: Option<Seq<char>>,
    pub val: TermModel,
}

impl View for Split {
    type V = SplitModel;

    open spec fn view(&self) -> SplitModel {
        SplitModel {
            fan: self.fan,
            tag: self.tag@,
            fst: opt_name(self.fst),
            snd: opt_name(self.snd),
            val: self.val@,
        }
    }
}

impl SplitModel {
    /// Whether the split binds a variable.
    pub open spec fn binds_name(self, nam: Seq<char>) -> bool {
        self.fst == Some(nam) || self.snd == Some(nam)
    }

    /// What the split binds, as a pattern.
    pub open spec fn pattern(self) -> PatternModel {
        PatternModel::Fan(
            self.fan,
            self.tag,
            seq![PatternModel::Var(self.fst), PatternModel::Var(self.snd)],
        )
    }

    /// The split in front of a term.
    pub open spec fn before(self, nxt: TermModel) -> TermModel {
        TermModel::Let { pat: self.pattern(), val: Box::new(self.val), nxt: Box::new(nxt) }
    }
}

/// The split that is left behind when one has been inserted.
pub open spec fn empty_split() -> SplitModel {
    SplitModel {
        fan: FanKind::Dup,
        tag: TagModel::Static,
        fst: None,
        snd: None,
        val: TermModel::Error,
    }
}

impl Default for Split {
    fn default() -> (split: Split)
        ensures
            split@ == empty_split(),
    {
        Split { fan: FanKind::Dup, tag: Tag::default(), fst: None, snd: None, val: Term::default() }
    }
}

/// How many times the variables of a split are used in a term.
pub open spec fn uses(term: TermModel, split: SplitModel) -> nat
    decreases term, 0nat,
{
    match term {
        TermModel::Var { nam } => if split.binds_name(nam) {
            1
        } else {
            0
        },
        TermModel::Lam { bod, .. } => uses(*bod, split),
        TermModel::Let { val, nxt, .. } => uses(*val, split) + uses(*nxt, split),
        TermModel::App { fun, arg, .. } => uses(*fun, split) + uses(*arg, split),
        TermModel::Fan { els, .. } => uses_in(els, split, els.len()),
        TermModel::Oper { fst, snd, .. } => uses(*fst, split) + uses(*snd, split),
        TermModel::Swt { arg, arms, .. } => uses(*arg, split) + uses_in(arms, split, arms.len()),
        _ => 0,
    }
}

/// How many times the variables of a split are used in the first `n` terms of a sequence.
pub open spec fn uses_in(els: Seq<TermModel>, split: SplitModel, n: nat) -> nat
    decreases els, n,
{
    if 0 < n <= els.len() {
        uses_in(els, split, (n - 1) as nat) + uses(els[n - 1], split)
    } else {
        0
    }
}

/// The first term, from `from` on, that uses the variables of a split at least `threshold`
/// times; the length of the sequence when there is none.
pub open spec fn first_reaching(
    els: Seq<TermModel>,
    split: SplitModel,
    threshold: nat,
    from: nat,
) -> nat
    decreases els.len() - from,
{
    if from >= els.len() {
        els.len()
    } else if uses(els[from as int], split) >= threshold {
        from
    } else {
        first_reaching(els, split, threshold, from + 1)
    }
}

/// A term with the split inserted in front of the first subterm, from the leaves up and from
/// left to right, in which its variables are used at least `threshold` times; in front of
/// the whole term when no proper subterm is one.
pub open spec fn place(term: TermModel, split: SplitModel, threshold: nat) -> TermModel
    decreases term,
{
    match term {
        TermModel::Lam { tag, pat, bod } if uses(*bod, split) >= threshold => TermModel::Lam {
            tag,
            pat,
            bod: Box::new(place(*bod, split, threshold)),
        },
        TermModel::Let { pat, val, nxt } if uses(*val, split) >= threshold => TermModel::Let {
            pat,
            val: Box::new(place(*val, split, threshold)),
            nxt,
        },
        TermModel::Let { pat, val, nxt } if uses(*nxt, split) >= threshold => TermModel::Let {
            pat,
            val,
            nxt: Box::new(place(*nxt, split, threshold)),
        },
        TermModel::App { tag, fun, arg } if uses(*fun, split) >= threshold => TermModel::App {
            tag,
            fun: Box::new(place(*fun, split, threshold)),
            arg,
        },
        TermModel::App { tag, fun, arg } if uses(*arg, split) >= threshold => TermModel::App {
            tag,
            fun,
            arg: Box::new(place(*arg, split, threshold)),
        },
        TermModel::Fan { fan, tag, els } if first_reaching(els, split, threshold, 0)
            < els.len() => {
            let i = first_reaching(els, split, threshold, 0) as int;
            TermModel::Fan { fan, tag, els: els.update(i, place(els[i], split, threshold)) }
        },
        TermModel::Oper { opr, fst, snd } if uses(*fst, split) >= threshold => TermModel::Oper {
            opr,
            fst: Box::new(place(*fst, split, threshold)),
            snd,
        },
        TermModel::Oper { opr, fst, snd } if uses(*snd, split) >= threshold => TermModel::Oper {
            opr,
            fst,
            snd: Box::new(place(*snd, split, threshold)),
        },
        TermModel::Swt { arg, bnd, with, pred, arms } if uses(*arg, split) >= threshold => {
            TermModel::Swt {
                arg: Box::new(place(*arg, split, threshold)),
                bnd,
                with,
                pred,
                arms,
            }
        },
        TermModel::Swt { arg, bnd, with, pred, arms } if first_reaching(arms, split, threshold, 0)
            < arms.len() => {
            let i = first_reaching(arms, split, threshold, 0) as int;
            TermModel::Swt {
                arg,
                bnd,
                with,
                pred,
                arms: arms.update(i, place(arms[i], split, threshold)),
            }
        },
        _ => split.before(term),
    }
}

proof fn lemma_first_reaching(
    els: Seq<TermModel>,
    split: SplitModel,
    threshold: nat,
    from: nat,
)
    requires
        from <= els.len(),
    ensures
        from <= first_reaching(els, split, threshold, from) <= els.len(),
        first_reaching(els, split, threshold, from) < els.len() ==> uses(
            els[first_reaching(els, split, threshold, from) as int],
            split,
        ) >= threshold,
        forall|j: int|
            from <= j < first_reaching(els, split, threshold, from) ==> uses(
                #[trigger] els[j],
                split,
            ) < threshold,
    decreases els.len() - from,
{
    if from < els.len() && uses(els[from as int], split) < threshold {
        lemma_first_reaching(els, split, threshold, from + 1);
    }
}

/// The uses in some terms of a sequence are at most those in more of them.
proof fn lemma_uses_in_grows(els: Seq<TermModel>, split: SplitModel, n: nat, m: nat)
    requires
        n <= m <= els.len(),
    ensures
        uses_in(els, split, n) <= uses_in(els, split, m),
        forall|i: int| n <= i < m ==> uses(#[trigger] els[i], split) <= uses_in(els, split, m),
    decreases m,
{
    if n < m {
        lemma_uses_in_grows(els, split, n, (m - 1) as nat);
    }
}

impl Term {
    /// Calculates the number of times `fst` and `snd` appear in this term. If
    /// that is `>= threshold`, it inserts the split at the first subterm where it is, and
    /// returns `None`. Otherwise, returns `Some(uses)`.
    pub fn insert_split(&mut self, split: &mut Split, threshold: usize) -> (res: Option<usize>)
        requires
            uses(old(self)@, old(split)@) <= usize::MAX,
        ensures
            uses(old(self)@, old(split)@) < threshold ==> {
                &&& res == Some(uses(old(self)@, old(split)@) as usize)
                &&& final(self)@ == old(self)@
                &&& final(split)@ == old(split)@
            },
            uses(old(self)@, old(split)@) >= threshold ==> {
                &&& res is None
                &&& final(self)@ == place(old(self)@, old(split)@, threshold as nat)
                &&& final(split)@ == empty_split()
            },
        decreases *old(self), 1nat,
    {
        let ghost split0 = split@;
        let ghost least = threshold as nat;
        let res = match self {
            Term::Var { nam } => {
                if Name::is(&split.fst, nam) || Name::is(&split.snd, nam) {
                    Some(1)
                } else {
                    Some(0)
                }
            },
            Term::Lam { bod, .. } => bod.insert_split(split, threshold),
            Term::Let { val, nxt, .. } => {
                Term::insert_split_two(val, nxt, split, threshold, Ghost(*old(self)))
            },
            Term::App { fun, arg, .. } => {
                Term::insert_split_two(fun, arg, split, threshold, Ghost(*old(self)))
            },
            Term::Oper { fst, snd, .. } => {
                Term::insert_split_two(fst, snd, split, threshold, Ghost(*old(self)))
            },
            Term::Fan { els, .. } => {
                proof {
                    lemma_term_model(*old(self));
                    lemma_first_reaching(models(old(self)->els@), split0, least, 0);
                    lemma_uses_in_grows(models(old(self)->els@), split0, 0, els@.len());
                }
                let res = Term::insert_split_all(els, split, threshold);
                proof {
                    lemma_term_model(*self);
                }
                res
            },
            Term::Swt { arg, arms, .. } => {
                proof {
                    lemma_term_model(*old(self));
                    lemma_first_reaching(models(old(self)->arms@), split0, least, 0);
                    lemma_uses_in_grows(models(old(self)->arms@), split0, 0, arms@.len());
                }
                let res = match arg.insert_split(split, threshold) {
                    None => None,
                    Some(n) => match Term::insert_split_all(arms, split, threshold) {
                        None => None,
                        Some(k) => Some(n + k),
                    },
                };
                proof {
                    lemma_term_model(*self);
                }
                res
            },
            _ => Some(0),
        };
        match res {
            None => None,
            Some(n) => {
                assert(self@ == old(self)@);
                if n >= threshold {
                    assert(place(self@, split0, least) == split0.before(self@));
                    self.put_behind(split);
                    None
                } else {
                    Some(n)
                }
            },
        }
    }

    /// Puts the split in front of this term.
    fn put_behind(&mut self, split: &mut Split)
        ensures
            final(self)@ == old(split)@.before(old(self)@),
            final(split)@ == empty_split(),
    {
        let mut taken = Split::default();
        std::mem::swap(split, &mut taken);
        let Split { fan, tag, fst, snd, val } = taken;
        let mut nxt = Term::default();
        std::mem::swap(self, &mut nxt);
        let pat = Pattern::Fan(fan, tag, vec![Pattern::Var(fst), Pattern::Var(snd)]);
        proof {
            lemma_pattern_model(pat);
            assert(pat.model()->Fan_2 =~= old(split)@.pattern()->Fan_2);
        }
        *self = Term::Let { pat: Box::new(pat), val: Box::new(val), nxt: Box::new(nxt) };
    }

    /// Inserts a split in the first of two terms that can take it, as `insert_split` does in
    /// each of them.
    fn insert_split_two(
        fst: &mut Term,
        snd: &mut Term,
        split: &mut Split,
        threshold: usize,
        Ghost(whole): Ghost<Term>,
    ) -> (res: Option<usize>)
        requires
            decreases_to!(whole => *old(fst)),
            decreases_to!(whole => *old(snd)),
            uses(old(fst)@, old(split)@) + uses(old(snd)@, old(split)@) <= usize::MAX,
        ensures
            if uses(old(fst)@, old(split)@) >= threshold {
                &&& res is None
                &&& final(fst)@ == place(old(fst)@, old(split)@, threshold as nat)
                &&& final(snd)@ == old(snd)@
                &&& final(split)@ == empty_split()
            } else if uses(old(snd)@, old(split)@) >= threshold {
                &&& res is None
                &&& final(fst)@ == old(fst)@
                &&& final(snd)@ == place(old(snd)@, old(split)@, threshold as nat)
                &&& final(split)@ == empty_split()
            } else {
                &&& res == Some(
                    (uses(old(fst)@, old(split)@) + uses(old(snd)@, old(split)@)) as usize,
                )
                &&& final(fst)@ == old(fst)@
                &&& final(snd)@ == old(snd)@
                &&& final(split)@ == old(split)@
            },
        decreases whole, 0nat,
    {
        match fst.insert_split(split, threshold) {
            None => None,
            Some(n) => match snd.insert_split(split, threshold) {
                None => None,
                Some(k) => Some(n + k),
            },
        }
    }

    /// Inserts a split in the first term of a vector that can take it, as `insert_split`
    /// does in each of them.
    fn insert_split_all(els: &mut Vec<Term>, split: &mut Split, threshold: usize) -> (res: Option<
        usize,
    >)
        requires
            uses_in(models(old(els)@), old(split)@, old(els)@.len()) <= usize::MAX,
        ensures
            ({
                let terms = models(old(els)@);
                let i = first_reaching(terms, old(split)@, threshold as nat, 0);
                if i < terms.len() {
                    &&& res is None
                    &&& models(final(els)@) == terms.update(
                        i as int,
                        place(terms[i as int], old(split)@, threshold as nat),
                    )
                    &&& final(split)@ == empty_split()
                } else {
                    &&& res == Some(uses_in(terms, old(split)@, terms.len()) as usize)
                    &&& models(final(els)@) == terms
                    &&& final(split)@ == old(split)@
                }
            }),
        decreases *old(els), 0nat,
    {
        let ghost terms = models(old(els)@);
        let len: usize = els.len();
        let mut i: usize = 0;
        let mut n: usize = 0;
        while i < len
            invariant
                i <= len,
                els@.len() == len,
                len == old(els)@.len(),
                terms == models(old(els)@),
                uses_in(terms, old(split)@, len as nat) <= usize::MAX,
                n == uses_in(terms, old(split)@, i as nat),
                first_reaching(terms, old(split)@, threshold as nat, 0) == first_reaching(
                    terms,
                    old(split)@,
                    threshold as nat,
                    i as nat,
                ),
                split@ == old(split)@,
                models(els@) == terms,
                forall|j: int| i <= j < len ==> els@[j] == old(els)@[j],
            decreases len - i,
        {
            proof {
                lemma_uses_in_grows(terms, old(split)@, i as nat, len as nat);
                lemma_uses_in_grows(terms, old(split)@, (i + 1) as nat, len as nat);
                assert(terms[i as int] == els@[i as int]@);
            }
            let k = els[i].insert_split(split, threshold);
            match k {
                None => {
                    assert(models(els@) =~= terms.update(
                        i as int,
                        place(terms[i as int], old(split)@, threshold as nat),
                    ));
                    return None;
                },
                Some(k) => {
                    assert(models(els@) =~= terms);
                    n = n + k;
                },
            }
            i += 1;
        }
        Some(n)
    }
}

/// The immediate subterm of a term at a position.
pub open spec fn child(term: TermModel, i: int) -> Option<TermModel> {
    match term {
        TermModel::Lam { bod, .. } if i == 0 => Some(*bod),
        TermModel::Let { val, .. } if i == 0 => Some(*val),
        TermModel::Let { nxt, .. } if i == 1 => Some(*nxt),
        TermModel::App { fun, .. } if i == 0 => Some(*fun),
        TermModel::App { arg, .. } if i == 1 => Some(*arg),
        TermModel::Fan { els, .. } if 0 <= i < els.len() => Some(els[i]),
        TermModel::Oper { fst, .. } if i == 0 => Some(*fst),
        TermModel::Oper { snd, .. } if i == 1 => Some(*snd),
        TermModel::Swt { arg, .. } if i == 0 => Some(*arg),
        TermModel::Swt { arms, .. } if 1 <= i <= arms.len() => Some(arms[i - 1]),
        _ => None,
    }
}

/// A term with its immediate subterm at a position replaced.
pub open spec fn with_child(term: TermModel, i: int, new: TermModel) -> TermModel {
    match term {
        TermModel::Lam { tag, pat, .. } => TermModel::Lam { tag, pat, bod: Box::new(new) },
        TermModel::Let { pat, val, nxt } => if i == 0 {
            TermModel::Let { pat, val: Box::new(new), nxt }
        } else {
            TermModel::Let { pat, val, nxt: Box::new(new) }
        },
        TermModel::App { tag, fun, arg } => if i == 0 {
            TermModel::App { tag, fun: Box::new(new), arg }
        } else {
            TermModel::App { tag, fun, arg: Box::new(new) }
        },
        TermModel::Fan { fan, tag, els } => TermModel::Fan { fan, tag, els: els.update(i, new) },
        TermModel::Oper { opr, fst, snd } => if i == 0 {
            TermModel::Oper { opr, fst: Box::new(new), snd }
        } else {
            TermModel::Oper { opr, fst, snd: Box::new(new) }
        },
        TermModel::Swt { arg, bnd, with, pred, arms } => if i == 0 {
            TermModel::Swt { arg: Box::new(new), bnd, with, pred, arms }
        } else {
            TermModel::Swt { arg, bnd, with, pred, arms: arms.update(i - 1, new) }
        },
        _ => term,
    }
}

/// The subterm that a path of positions leads to.
pub open spec fn subterm(term: TermModel, path: Seq<int>) -> Option<TermModel>
    decreases path.len(),
{
    if path.len() == 0 {
        Some(term)
    } else {
        match child(term, path[0]) {
            Some(sub) => subterm(sub, path.drop_first()),
            None => None,
        }
    }
}

/// A term with the subterm that a path leads to replaced.
pub open spec fn graft(term: TermModel, path: Seq<int>, new: TermModel) -> TermModel
    decreases path.len(),
{
    if path.len() == 0 {
        new
    } else {
        match child(term, path[0]) {
            Some(sub) => with_child(term, path[0], graft(sub, path.drop_first(), new)),
            None => term,
        }
    }
}

/// Whether a path leads to the lowest common ancestor of the uses of the variables of a
/// split: a subterm that holds all the uses, while none of its own subterms does.
pub open spec fn is_lowest_common_ancestor(
    term: TermModel,
    split: SplitModel,
    path: Seq<int>,
) -> bool {
    &&& subterm(term, path) matches Some(sub)
    &&& uses(sub, split) == uses(term, split)
    &&& forall|i: int|
        child(sub, i) is Some ==> uses((#[trigger] child(sub, i))->0, split) < uses(term, split)
}

/// A subterm uses the variables of a split at most as often as the term around it.
proof fn lemma_child_uses(term: TermModel, split: SplitModel, i: int)
    requires
        child(term, i) is Some,
    ensures
        uses(child(term, i)->0, split) <= uses(term, split),
{
    match term {
        TermModel::Fan { els, .. } => {
            lemma_uses_in_grows(els, split, 0, els.len());
        },
        TermModel::Swt { arms, .. } => {
            lemma_uses_in_grows(arms, split, 0, arms.len());
        },
        _ => {},
    }
}

/// The child of a term in which a split is placed, if it is placed in one.
spec fn place_child(term: TermModel, split: SplitModel, threshold: nat) -> Option<int> {
    match term {
        TermModel::Fan { els, .. } => {
            let i = first_reaching(els, split, threshold, 0);
            if i < els.len() {
                Some(i as int)
            } else {
                None
            }
        },
        TermModel::Swt { arg, arms, .. } => {
            let i = first_reaching(arms, split, threshold, 0);
            if uses(*arg, split) >= threshold {
                Some(0)
            } else if i < arms.len() {
                Some((i + 1) as int)
            } else {
                None
            }
        },
        _ => if child(term, 0) is Some && uses(child(term, 0)->0, split) >= threshold {
            Some(0)
        } else if child(term, 1) is Some && uses(child(term, 1)->0, split) >= threshold {
            Some(1)
        } else {
            None
        },
    }
}

/// A split is placed in a child that reaches the threshold, or in front of the term when none
/// does.
proof fn lemma_place_child(term: TermModel, split: SplitModel, threshold: nat)
    ensures
        match place_child(term, split, threshold) {
            Some(i) => {
                &&& child(term, i) matches Some(sub)
                &&& uses(sub, split) >= threshold
                &&& decreases_to!(term => sub)
                &&& place(term, split, threshold) == with_child(
                    term,
                    i,
                    place(sub, split, threshold),
                )
            },
            None => {
                &&& forall|i: int|
                    child(term, i) is Some ==> uses((#[trigger] child(term, i))->0, split)
                        < threshold
                &&& place(term, split, threshold) == split.before(term)
            },
        },
{
    match term {
        TermModel::Fan { els, .. } => {
            lemma_first_reaching(els, split, threshold, 0);
        },
        TermModel::Swt { arms, .. } => {
            lemma_first_reaching(arms, split, threshold, 0);
        },
        _ => {},
    }
}

/// For every threshold that a term reaches, the split is placed in front of just one subterm, and
/// nothing else changes: a subterm that reaches the threshold, while none of its own subterms
/// does. The path leads to it.
pub proof fn law_split_wraps_one_subterm(
    term: TermModel,
    split: SplitModel,
    threshold: nat,
) -> (path: Seq<int>)
    requires
        uses(term, split) >= threshold,
    ensures
        subterm(term, path) matches Some(sub) && {
            &&& threshold <= uses(sub, split) <= uses(term, split)
            &&& forall|i: int|
                child(sub, i) is Some ==> uses((#[trigger] child(sub, i))->0, split) < threshold
            &&& place(term, split, threshold) == graft(term, path, split.before(sub))
        },
    decreases term,
{
    lemma_place_child(term, split, threshold);
    match place_child(term, split, threshold) {
        Some(i) => {
            let sub = child(term, i)->0;
            lemma_child_uses(term, split, i);
            let rest = law_split_wraps_one_subterm(sub, split, threshold);
            let path = seq![i] + rest;
            assert(path.drop_first() =~= rest);
            path
        },
        None => seq![],
    }
}

/// A split that is inserted with its number of uses as the threshold stands at the lowest
/// common ancestor of all of the uses of its variables.
pub proof fn law_split_at_lowest_common_ancestor(term: TermModel, split: SplitModel)
    ensures
        exists|path: Seq<int>| #[trigger]
            is_lowest_common_ancestor(term, split, path) && place(term, split, uses(term, split))
                == graft(term, path, split.before(subterm(term, path)->0)),
{
    let path = law_split_wraps_one_subterm(term, split, uses(term, split));
    assert(is_lowest_common_ancestor(term, split, path));
}

/// A variable of a split that is not used in a term is not free in it either.
proof fn lemma_unused_not_free(term: TermModel, split: SplitModel, nam: Seq<char>)
    requires
        split.binds_name(nam),
        uses(term, split) == 0,
    ensures
        !free(term).contains(nam),
    decreases term, 0nat,
{
    match term {
        TermModel::Lam { bod, .. } => {
            lemma_unused_not_free(*bod, split, nam);
        },
        TermModel::Let { val, nxt, .. } => {
            lemma_unused_not_free(*val, split, nam);
            lemma_unused_not_free(*nxt, split, nam);
        },
        TermModel::App { fun, arg, .. } => {
            lemma_unused_not_free(*fun, split, nam);
            lemma_unused_not_free(*arg, split, nam);
        },
        TermModel::Oper { fst, snd, .. } => {
            lemma_unused_not_free(*fst, split, nam);
            lemma_unused_not_free(*snd, split, nam);
        },
        TermModel::Fan { els, .. } => {
            lemma_unused_not_free_in(els, split, nam, els.len());
        },
        TermModel::Swt { arg, arms, .. } => {
            lemma_unused_not_free(*arg, split, nam);
            lemma_uses_in_grows(arms, split, 0, arms.len());
            if arms.len() >= 2 {
                lemma_unused_not_free(arms[0], split, nam);
                lemma_unused_not_free(arms[1], split, nam);
            }
        },
        _ => {},
    }
}

proof fn lemma_unused_not_free_in(
    els: Seq<TermModel>,
    split: SplitModel,
    nam: Seq<char>,
    n: nat,
)
    requires
        split.binds_name(nam),
        n <= els.len(),
        uses_in(els, split, n) == 0,
    ensures
        !free_in(els, n).contains(nam),
    decreases els, n,
{
    if n > 0 {
        lemma_unused_not_free_in(els, split, nam, (n - 1) as nat);
        lemma_unused_not_free(els[n - 1], split, nam);
    }
}

/// Inserting a split keeps the arms of every switch.
pub proof fn lemma_place_complete(term: TermModel, split: SplitModel, threshold: nat)
    requires
        complete(term),
        complete(split.val),
    ensures
        complete(place(term, split, threshold)),
    decreases term,
{
    lemma_place_child(term, split, threshold);
    if let Some(i) = place_child(term, split, threshold) {
        let sub = child(term, i)->0;
        match term {
            TermModel::Fan { els, .. } => {
                assert(all_complete(els));
                lemma_place_complete(sub, split, threshold);
                assert(all_complete(els.update(i, place(sub, split, threshold))));
            },
            TermModel::Swt { arms, .. } => {
                assert(all_complete(arms));
                lemma_place_complete(sub, split, threshold);
                if i > 0 {
                    assert(all_complete(arms.update(i - 1, place(sub, split, threshold))));
                }
            },
            _ => {
                lemma_place_complete(sub, split, threshold);
            },
        }
    }
}

/// A variable is free in some terms of a sequence when it is free in one of them.
proof fn lemma_free_in(els: Seq<TermModel>, n: nat, nam: Seq<char>)
    requires
        n <= els.len(),
    ensures
        free_in(els, n).contains(nam) <==> exists|i: int|
            0 <= i < n && free(#[trigger] els[i]).contains(nam),
    decreases n,
{
    if n > 0 {
        lemma_free_in(els, (n - 1) as nat, nam);
    }
}

/// When one term of a sequence holds all the uses, every other one holds none.
proof fn lemma_only_user(els: Seq<TermModel>, split: SplitModel, i: int, j: int, n: nat)
    requires
        0 <= i < n,
        0 <= j < n,
        i != j,
        n <= els.len(),
    ensures
        uses(els[i], split) + uses(els[j], split) <= uses_in(els, split, n),
    decreases n,
{
    let before = (n - 1) as nat;
    if i == before {
        lemma_uses_in_grows(els, split, 0, before);
    } else if j == before {
        lemma_uses_in_grows(els, split, 0, before);
    } else {
        lemma_only_user(els, split, i, j, before);
    }
}

/// What the pattern of a split binds.
proof fn lemma_split_pattern(split: SplitModel, nam: Seq<char>)
    ensures
        binds(split.pattern()).contains(nam) <==> split.binds_name(nam),
{
    let els = split.pattern()->Fan_2;
    assert(binds(split.pattern()) == binds_in(els, 2));
    assert(binds_in(els, 2) == binds_in(els, 1) + binds(els[1]));
    assert(binds_in(els, 1) == binds_in(els, 0) + binds(els[0]));
    let fst = binds(els[0]);
    let snd = binds(els[1]);
    let all = binds(split.pattern());
    assert(all =~= fst + snd);
    if split.fst == Some(nam) {
        assert(all[0] == nam);
    }
    if split.snd == Some(nam) {
        assert(all[fst.len() as int] == nam);
    }
    if all.contains(nam) {
        let k = choose|k: int| 0 <= k < all.len() && all[k] == nam;
        assert(k < fst.len() ==> fst[k] == nam);
        assert(k >= fst.len() ==> snd[k - fst.len()] == nam);
    }
}

/// Inserting a split binds all the uses of its variables, and leaves the other free variables
/// of the term free: what the split adds are at most the free variables of its value.
pub proof fn law_split_binds_its_variables(term: TermModel, split: SplitModel, nam: Seq<char>)
    ensures
        ({
            let placed = free(place(term, split, uses(term, split)));
            &&& placed.contains(nam) && split.binds_name(nam) ==> free(split.val).contains(nam)
            &&& placed.contains(nam) ==> free(term).contains(nam) || free(split.val).contains(
                nam,
            )
            &&& free(term).contains(nam) && !split.binds_name(nam) ==> placed.contains(nam)
        }),
    decreases term,
{
    let threshold = uses(term, split);
    lemma_place_child(term, split, threshold);
    match place_child(term, split, threshold) {
        None => {
            lemma_split_pattern(split, nam);
        },
        Some(i) => {
            let sub = child(term, i)->0;
            lemma_child_uses(term, split, i);
            law_split_binds_its_variables(sub, split, nam);
            let new = place(sub, split, threshold);
            if split.binds_name(nam) {
                lemma_siblings_do_not_use(term, split, i, nam);
            }
            match term {
                TermModel::Fan { els, .. } => {
                    let after = els.update(i, new);
                    lemma_free_in(els, els.len(), nam);
                    lemma_free_in(after, els.len(), nam);
                    assert forall|j: int| 0 <= j < els.len() && j != i implies after[j]
                        == els[j] by {}
                    if free_in(after, els.len()).contains(nam) {
                        let j = choose|j: int|
                            0 <= j < els.len() && free(#[trigger] after[j]).contains(nam);
                        assert(j != i ==> child(term, j) == Some(els[j]));
                    }
                    if free_in(els, els.len()).contains(nam) {
                        let j = choose|j: int|
                            0 <= j < els.len() && free(#[trigger] els[j]).contains(nam);
                        assert(free(after[j]).contains(nam) || j == i);
                        assert(after[i] == new);
                    }
                },
                TermModel::Swt { arg, arms, .. } => {
                    assert(child(term, 0) == Some(*arg));
                    assert(arms.len() >= 2 ==> child(term, 1) == Some(arms[0]));
                    assert(arms.len() >= 2 ==> child(term, 2) == Some(arms[1]));
                },
                _ => {
                    assert(child(term, 0) is Some);
                    assert(child(term, 1) is Some || term is Lam);
                },
            }
        },
    }
}

/// When one child holds all the uses, no variable of the split is free in another one.
proof fn lemma_siblings_do_not_use(term: TermModel, split: SplitModel, i: int, nam: Seq<char>)
    requires
        child(term, i) is Some,
        uses(child(term, i)->0, split) == uses(term, split),
        split.binds_name(nam),
    ensures
        forall|j: int|
            j != i && child(term, j) is Some ==> !free((#[trigger] child(term, j))->0).contains(
                nam,
            ),
{
    assert forall|j: int| j != i && child(term, j) is Some implies !free(
        (#[trigger] child(term, j))->0,
    ).contains(nam) by {
        match term {
            TermModel::Fan { els, .. } => {
                lemma_only_user(els, split, i, j, els.len());
            },
            TermModel::Swt { arms, .. } => {
                lemma_uses_in_grows(arms, split, 0, arms.len());
                if i > 0 && j > 0 {
                    lemma_only_user(arms, split, i - 1, j - 1, arms.len());
                }
            },
            _ => {},
        }
        lemma_unused_not_free(child(term, j)->0, split, nam);
    }
}

} // verus!
