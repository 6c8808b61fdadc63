//! Terms, their patterns and tags, and the models that contracts speak of.
//!
//! The model of a term has the same shape as the term, with a sequence of characters for
//! each name and a sequence for each vector.
use crate::name::{opt_name, texts, Name};
use crate::num::{Num, Op};
use vstd::prelude::*;

verus! {

/// The tag of a lambda, an application or a fan.
#[derive(Debug, PartialEq, Eq, Hash)]
pub enum Tag {
    Named(Name),
    Numeric(u16),
    Auto,
    Static,
}

/// A fan is a tuple, or a superposition (as a term) and a duplication (as a pattern).
#[derive(Debug, Clone, Copy, PartialEq, Eq, Structural, Hash)]
pub enum FanKind {
    Tup,
    Dup,
}

/// What a lambda or a `let` binds.
#[derive(Debug, PartialEq, Eq)]
pub enum Pattern {
    /// A variable, or nothing when the value is erased.
    Var(Option<Name>),
    /// The binding end of an unscoped variable.
    Chn(Name),
    Fan(FanKind, Tag, Vec<Pattern>),
}

/// A term of the lambda calculus.
#[derive(Debug, PartialEq, Eq)]
#[allow(inconsistent_fields)]
pub enum Term {
    Lam { tag: Tag, pat: Box<Pattern>, bod: Box<Term> },
    Var { nam: Name },
    /// The using end of an unscoped variable.
    Link { nam: Name },
    Let { pat: Box<Pattern>, val: Box<Term>, nxt: Box<Term> },
    App { tag: Tag, fun: Box<Term>, arg: Box<Term> },
    Fan { fan: FanKind, tag: Tag, els: Vec<Term> },
    Num { val: Num },
    Oper { opr: Op, fst: Box<Term>, snd: Box<Term> },
    /// A switch on a number. The first arm is for zero, and the last one for every other
    /// number: in it the predecessor of the number is in scope.
    Swt {
        arg: Box<Term>,
        bnd: Option<Name>,
        with: Vec<Name>,
        pred: Option<Name>,
        arms: Vec<Term>,
    },
    Ref { nam: Name },
    Era,
    Error,
}

/// The model of a tag.
pub enum TagModel {
    Named(Seq<char>),
    Numeric(u16),
    Auto,
    Static,
}

/// The model of a pattern.
pub enum PatternModel {
    Var(Option<Seq<char>>),
    Chn(Seq<char>),
    Fan(FanKind, TagModel, Seq<PatternModel>),
}

/// The model of a term.
#[allow(inconsistent_fields)]
pub enum TermModel {
    Lam { tag: TagModel, pat: PatternModel, bod: Box<TermModel> },
    Var { nam: Seq<char> },
    Link { nam: Seq<char> },
    Let { pat: PatternModel, val: Box<TermModel>, nxt: Box<TermModel> },
    App { tag: TagModel, fun: Box<TermModel>, arg: Box<TermModel> },
    Fan { fan: FanKind, tag: TagModel, els: Seq<TermModel> },
    Num { val: Num },
    Oper { opr: Op, fst: Box<TermModel>, snd: Box<TermModel> },
    Swt {
        arg: Box<TermModel>,
        bnd: Option<Seq<char>>,
        with: Seq<Seq<char>>,
        pred: Option<Seq<char>>,
        arms: Seq<TermModel>,
    },
    Ref { nam: Seq<char> },
    Era,
    Error,
}

impl View for Tag {
    type V = TagModel;

    open spec fn view(&self) -> TagModel {
        match *self {
            Tag::Named(name) => TagModel::Named(name@),
            Tag::Numeric(label) => TagModel::Numeric(label),
            Tag::Auto => TagModel::Auto,
            Tag::Static => TagModel::Static,
        }
    }
}

impl Default for Tag {
    fn default() -> (tag: Tag)
        ensures
            tag == Tag::Static,
    {
        Tag::Static
    }
}

impl Default for Term {
    fn default() -> (term: Term)
        ensures
            term == Term::Error,
    {
        Term::Error
    }
}

impl Pattern {
    /// The model of a pattern.
    pub open spec fn model(self) -> PatternModel
        decreases self,
    {
        match self {
            Pattern::Var(nam) => PatternModel::Var(opt_name(nam)),
            Pattern::Chn(nam) => PatternModel::Chn(nam@),
            Pattern::Fan(fan, tag, els) => PatternModel::Fan(
                fan,
                tag@,
                Seq::new(
                    els@.len(),
                    |i: int|
                        if 0 <= i < els@.len() {
                            els@[i].model()
                        } else {
                            PatternModel::Var(None)
                        },
                ),
            ),
        }
    }
}

impl View for Pattern {
    type V = PatternModel;

    open spec fn view(&self) -> PatternModel {
        self.model()
    }
}

impl Term {
    /// The model of a term.
    pub open spec fn model(self) -> TermModel
        decreases self,
    {
        match self {
            Term::Lam { tag, pat, bod } => TermModel::Lam {
                tag: tag@,
                pat: pat.model(),
                bod: Box::new(bod.model()),
            },
            Term::Var { nam } => TermModel::Var { nam: nam@ },
            Term::Link { nam } => TermModel::Link { nam: nam@ },
            Term::Let { pat, val, nxt } => TermModel::Let {
                pat: pat.model(),
                val: Box::new(val.model()),
                nxt: Box::new(nxt.model()),
            },
            Term::App { tag, fun, arg } => TermModel::App {
                tag: tag@,
                fun: Box::new(fun.model()),
                arg: Box::new(arg.model()),
            },
            Term::Fan { fan, tag, els } => TermModel::Fan {
                fan,
                tag: tag@,
                els: Seq::new(
                    els@.len(),
                    |i: int|
                        if 0 <= i < els@.len() {
                            els@[i].model()
                        } else {
                            TermModel::Error
                        },
                ),
            },
            Term::Num { val } => TermModel::Num { val },
            Term::Oper { opr, fst, snd } => TermModel::Oper {
                opr,
                fst: Box::new(fst.model()),
                snd: Box::new(snd.model()),
            },
            Term::Swt { arg, bnd, with, pred, arms } => TermModel::Swt {
                arg: Box::new(arg.model()),
                bnd: opt_name(bnd),
                with: texts(with@),
                pred: opt_name(pred),
                arms: Seq::new(
                    arms@.len(),
                    |i: int|
                        if 0 <= i < arms@.len() {
                            arms@[i].model()
                        } else {
                            TermModel::Error
                        },
                ),
            },
            Term::Ref { nam } => TermModel::Ref { nam: nam@ },
            Term::Era => TermModel::Era,
            Term::Error => TermModel::Error,
        }
    }
}

impl View for Term {
    type V = TermModel;

    open spec fn view(&self) -> TermModel {
        self.model()
    }
}

/// The models of a sequence of patterns.
pub open spec fn pattern_models(els: Seq<Pattern>) -> Seq<PatternModel> {
    els.map_values(|pat: Pattern| pat.model())
}

/// The models of a sequence of terms.
pub open spec fn models(els: Seq<Term>) -> Seq<TermModel> {
    els.map_values(|term: Term| term.model())
}

/// The model of a pattern that holds other patterns.
pub proof fn lemma_pattern_model(pat: Pattern)
    ensures
        pat matches Pattern::Fan(fan, tag, els) ==> pat.model() == PatternModel::Fan(
            fan,
            tag@,
            pattern_models(els@),
        ),
{
    if let Pattern::Fan(fan, tag, els) = pat {
        assert(pat.model()->Fan_2 =~= pattern_models(els@));
    }
}

/// The model of a term that holds a sequence of other terms.
pub proof fn lemma_term_model(term: Term)
    ensures
        term matches Term::Fan { fan, tag, els } ==> term.model() == (TermModel::Fan {
            fan,
            tag: tag@,
            els: models(els@),
        }),
        term matches Term::Swt { arg, bnd, with, pred, arms } ==> term.model()
            == (TermModel::Swt {
            arg: Box::new(arg.model()),
            bnd: opt_name(bnd),
            with: texts(with@),
            pred: opt_name(pred),
            arms: models(arms@),
        }),
{
    match term {
        Term::Fan { fan, tag, els } => {
            assert(term.model()->els =~= models(els@));
        },
        Term::Swt { arg, bnd, with, pred, arms } => {
            assert(term.model()->arms =~= models(arms@));
        },
        _ => {},
    }
}

/// Whether every switch in a term has the two arms, for zero and for every other number.
pub open spec fn complete(term: TermModel) -> bool
    decreases term,
{
    match term {
        TermModel::Lam { bod, .. } => complete(*bod),
        TermModel::Let { val, nxt, .. } => complete(*val) && complete(*nxt),
        TermModel::App { fun, arg, .. } => complete(*fun) && complete(*arg),
        TermModel::Fan { els, .. } => all_complete(els),
        TermModel::Oper { fst, snd, .. } => complete(*fst) && complete(*snd),
        TermModel::Swt { arg, arms, .. } => complete(*arg) && arms.len() >= 2 && all_complete(
            arms,
        ),
        _ => true,
    }
}

/// Whether every switch in every term of a sequence has its two arms.
pub open spec fn all_complete(els: Seq<TermModel>) -> bool
    decreases els,
{
    forall|i: int| 0 <= i < els.len() ==> complete(#[trigger] els[i])
}

/// The model of a term has the same parts as the term, in the same places.
pub proof fn law_model_of_a_term(term: Term)
    ensures
        match term {
            Term::Lam { tag, pat, bod } => term@ == (TermModel::Lam {
                tag: tag@,
                pat: pat@,
                bod: Box::new(bod@),
            }),
            Term::Var { nam } => term@ == (TermModel::Var { nam: nam@ }),
            Term::Link { nam } => term@ == (TermModel::Link { nam: nam@ }),
            Term::Let { pat, val, nxt } => term@ == (TermModel::Let {
                pat: pat@,
                val: Box::new(val@),
                nxt: Box::new(nxt@),
            }),
            Term::App { tag, fun, arg } => term@ == (TermModel::App {
                tag: tag@,
                fun: Box::new(fun@),
                arg: Box::new(arg@),
            }),
            Term::Fan { fan, tag, els } => term@ matches TermModel::Fan {
                fan: f,
                tag: t,
                els: e,
            } && f == fan && t == tag@ && e.len() == els@.len() && forall|i: int|
                0 <= i < els@.len() ==> #[trigger] e[i] == els@[i]@,
            Term::Num { val } => term@ == (TermModel::Num { val }),
            Term::Oper { opr, fst, snd } => term@ == (TermModel::Oper {
                opr,
                fst: Box::new(fst@),
                snd: Box::new(snd@),
            }),
            Term::Swt { arg, bnd, with, pred, arms } => term@ matches TermModel::Swt {
                arg: a,
                bnd: b,
                with: w,
                pred: p,
                arms: e,
            } && {
                &&& *a == arg@
                &&& b == (if bnd is Some {
                    Some(bnd->0@)
                } else {
                    None
                })
                &&& p == (if pred is Some {
                    Some(pred->0@)
                } else {
                    None
                })
                &&& w.len() == with@.len()
                &&& forall|i: int| 0 <= i < with@.len() ==> #[trigger] w[i] == with@[i]@
                &&& e.len() == arms@.len()
                &&& forall|i: int| 0 <= i < arms@.len() ==> #[trigger] e[i] == arms@[i]@
            },
            Term::Ref { nam } => term@ == (TermModel::Ref { nam: nam@ }),
            Term::Era => term@ == TermModel::Era,
            Term::Error => term@ == TermModel::Error,
        },
{
}

/// The model of a pattern has the same parts as the pattern, in the same places.
pub proof fn law_model_of_a_pattern(pat: Pattern)
    ensures
        match pat {
            Pattern::Var(Some(nam)) => pat@ == PatternModel::Var(Some(nam@)),
            Pattern::Var(None) => pat@ == PatternModel::Var(None),
            Pattern::Chn(nam) => pat@ == PatternModel::Chn(nam@),
            Pattern::Fan(fan, tag, els) => pat@ matches PatternModel::Fan(f, t, e) && f == fan
                && t == tag@ && e.len() == els@.len() && forall|i: int|
                0 <= i < els@.len() ==> #[trigger] e[i] == els@[i]@,
        },
{
}

/// The model of a tag.
pub proof fn law_model_of_a_tag(tag: Tag)
    ensures
        match tag {
            Tag::Named(name) => tag@ == TagModel::Named(name@),
            Tag::Numeric(label) => tag@ == TagModel::Numeric(label),
            Tag::Auto => tag@ == TagModel::Auto,
            Tag::Static => tag@ == TagModel::Static,
        },
{
}

} // verus!
