//! Readback: the walk through a net that turns it into a term.
use crate::book::Book;
use crate::diagnostics::Diagnostics;
use crate::error::{report, report_error, ReadbackError};
use crate::follow::{law_read_only_adds, lemma_splits_follow};
use crate::fuel::law_readback_ignores_fuel;
use crate::labels::Labels;
use crate::model::{
    decay, declare, insert_splits, is_decayed, is_first, number, number_arg, number_term, operation,
    pred_arm, read, read_arg, read_con, read_fan, read_first_half, read_mat, read_opr,
    read_second_half, read_split, read_two, readable, readback, start, switch_on, variable, Env,
    NumArgModel, Outcome, ReadState,
};
use crate::name::{opt_name, Name, NameSet};
use crate::namegen::{is_used, NameGen};
use crate::net::{CtrKind, INet, NodeId, NodeKind, Port, SlotId};
use crate::num::{split_word, Num, NumType, Op};
use crate::portset::PortSet;
use crate::scope::{free, law_marked_term_is_closed, lemma_mark_complete};
use crate::split::{uses, Split};
use crate::term::{
    complete, lemma_term_model, models, FanKind, Pattern, Term, TermModel,
};
use std::collections::{BTreeSet, HashMap};
use vstd::prelude::*;

verus! {

/// A walk through a net.
pub struct Reader<'a> {
    pub book: &'a Book,
    pub namegen: NameGen,
    net: &'a INet,
    labels: &'a Labels,
    dup_paths: Option<HashMap<u16, Vec<SlotId>>>,
    /// Store for floating/unscoped terms, like dups and let tups.
    scope: BTreeSet<NodeId>,
    /// To avoid reinserting things in the scope.
    seen_fans: BTreeSet<NodeId>,
    seen: PortSet,
    errors: Vec<ReadbackError>,
}

/// Argument for a Opr node
pub enum NumArg {
    Sym(u32),
    Num(NumType, u32),
    Par(u32, u32),
    Oth(Term),
}

impl View for NumArg {
    type V = NumArgModel;

    open spec fn view(&self) -> NumArgModel {
        match *self {
            NumArg::Sym(tag) => NumArgModel::Sym(tag as int),
            NumArg::Num(typ, bits) => NumArgModel::Num(typ, bits as int),
            NumArg::Par(tag, bits) => NumArgModel::Par(tag as int, bits as int),
            NumArg::Oth(term) => NumArgModel::Oth(term@),
        }
    }
}

/// The models of what is below the auxiliary ports of a fan.
pub open spec fn ports_model(res: Result<Term, (Term, Term)>) -> Result<TermModel, (TermModel, TermModel)> {
    match res {
        Ok(term) => Ok(term@),
        Err((fst, snd)) => Err((fst@, snd@)),
    }
}

/// For each label the sides from which the duplications on the way were entered.
spec fn sides(paths: HashMap<u16, Vec<SlotId>>) -> Map<u16, Seq<SlotId>> {
    Map::new(
        |label: u16| true,
        |label: u16|
            if paths@.contains_key(label) {
                paths@[label]@
            } else {
                Seq::empty()
            },
    )
}

/// Takes the first node, by its number, out of the scope.
fn pop_first(scope: &mut BTreeSet<NodeId>) -> (node: Option<NodeId>)
    ensures
        match node {
            Some(node) => is_first(old(scope)@, node) && final(scope)@ == old(scope)@.remove(node),
            None => old(scope)@ == Set::<NodeId>::empty() && final(scope)@ == old(scope)@,
        },
{
    broadcast use vstd::std_specs::btree::group_btree_axioms;
    broadcast use vstd::laws_cmp::group_laws_cmp;

    let mut first: Option<NodeId> = None;
    let ghost nodes = vstd::std_specs::iter::IteratorSpec::remaining(&scope.iter());
    for node in it: scope.iter()
        invariant_except_break
            it.index() == 0,
            it.seq() == nodes,
            first is None,
        ensures
            first is None ==> nodes.len() == 0,
            first is Some ==> nodes.len() > 0 && first == Some(*nodes[0]),
    {
        first = Some(*node);
        break;
    }
    proof {
        assert(vstd::laws_cmp::obeys_cmp::<NodeId>());
        assert(vstd::laws_cmp::obeys_cmp::<&NodeId>());
        assert(vstd::std_specs::btree::increasing_seq(nodes));
        assert(nodes.unref().to_set() == scope@);
        if nodes.len() > 0 {
            assert(nodes.unref()[0] == *nodes[0]);
        }
        assert forall|other: NodeId| scope@.contains(other) implies nodes.len() > 0 && *nodes[0]
            <= other by {
            assert(nodes.unref().contains(other));
            let i = choose|i: int| 0 <= i < nodes.unref().len() && nodes.unref()[i] == other;
            assert(*nodes[i] == other);
            if i > 0 {
                assert(vstd::std_specs::cmp::OrdSpec::cmp_spec(&nodes[0], &nodes[i]) is Less);
            }
        }
    }
    match first {
        Some(node) => {
            scope.remove(&node);
            Some(node)
        },
        None => None,
    }
}

impl<'a> Reader<'a> {
    /// What does not change while a port is read.
    pub closed spec fn env(&self) -> Env {
        Env {
            net: *self.net,
            labels: *self.labels,
            dups: match self.dup_paths {
                Some(paths) => Some(sides(paths)),
                None => None,
            },
        }
    }

    /// The program that the net belongs to.
    pub closed spec fn program(&self) -> Book {
        *self.book
    }

    /// What the walk has met.
    pub closed spec fn state(&self) -> ReadState {
        ReadState {
            scope: self.scope@,
            seen_fans: self.seen_fans@,
            seen: self.seen@,
            names: self.namegen@,
            errors: self.errors@,
        }
    }

    /// A walk that has met nothing yet. In a linear net nothing is entered twice.
    pub fn new(net: &'a INet, book: &'a Book, labels: &'a Labels, linear: bool) -> (reader: Self)
        ensures
            reader.env() == start(*net, *labels, linear),
            reader.state() == ReadState::empty(),
            reader.program() == *book,
    {
        let dup_paths: Option<HashMap<u16, Vec<SlotId>>> = if linear {
            None
        } else {
            Some(HashMap::new())
        };
        let reader = Reader {
            book,
            namegen: NameGen::new(),
            net,
            labels,
            dup_paths,
            scope: BTreeSet::new(),
            seen_fans: BTreeSet::new(),
            seen: PortSet::new(),
            errors: Vec::new(),
        };
        proof {
            if !linear {
                assert(sides(reader.dup_paths->0) =~= start(*net, *labels, linear).dups->0);
            }
            assert(reader.state() =~= ReadState::empty());
        }
        reader
    }

    /// Records an error.
    pub fn error(&mut self, error: ReadbackError)
        ensures
            final(self).state() == old(self).state().fail(error),
            final(self).env() == old(self).env(),
            final(self).program() == old(self).program(),
    {
        self.errors.push(error);
    }

    /// Adds a warning for each different error that was recorded.
    pub fn report_errors(&mut self, diagnostics: &mut Diagnostics)
        ensures
            final(diagnostics)@ == old(diagnostics)@ + report(old(self).state().errors),
            *final(self) == *old(self),
    {
        report_error(&self.errors, ReadbackError::InvalidNumericMatch, diagnostics);
        report_error(&self.errors, ReadbackError::InvalidNumericOp, diagnostics);
        report_error(&self.errors, ReadbackError::ReachedRoot, diagnostics);
        report_error(&self.errors, ReadbackError::Cyclic, diagnostics);
        assert(diagnostics@ =~= old(diagnostics)@ + report(self.errors@));
    }

    /// Records that a duplication is entered from a side.
    fn push_dup(&mut self, label: u16, slot: SlotId)
        ensures
            final(self).env() == old(self).env().enter_dup(label, slot),
            final(self).state() == old(self).state(),
            final(self).program() == old(self).program(),
    {
        broadcast use vstd::std_specs::hash::group_hash_axioms;

        if let Some(paths) = &mut self.dup_paths {
            let mut stack = match paths.remove(&label) {
                Some(stack) => stack,
                None => Vec::new(),
            };
            stack.push(slot);
            paths.insert(label, stack);
        }
        proof {
            if old(self).dup_paths is Some {
                assert(sides(self.dup_paths->0) =~= old(self).env().enter_dup(
                    label,
                    slot,
                ).dups->0);
            }
        }
    }

    /// Takes the last side from which a duplication was entered, if there is one.
    fn pop_dup(&mut self, label: u16) -> (slot: Option<SlotId>)
        ensures
            slot == old(self).env().last_side(label),
            slot is Some ==> final(self).env() == old(self).env().leave_dup(label),
            slot is None ==> final(self).env() == old(self).env(),
            final(self).state() == old(self).state(),
            final(self).program() == old(self).program(),
    {
        broadcast use vstd::std_specs::hash::group_hash_axioms;

        let mut slot: Option<SlotId> = None;
        if let Some(paths) = &mut self.dup_paths {
            if let Some(mut stack) = paths.remove(&label) {
                slot = stack.pop();
                paths.insert(label, stack);
            }
        }
        proof {
            if old(self).dup_paths is Some {
                let before = old(self).env().dups->0;
                if slot is Some {
                    assert(sides(self.dup_paths->0) =~= before.insert(
                        label,
                        before[label].drop_last(),
                    ));
                } else {
                    assert(sides(self.dup_paths->0) =~= before);
                }
            }
        }
        slot
    }

    /// The term for a port. The sides from which duplications were entered on the way are as before
    /// when it returns.
    pub fn read_term(&mut self, next: Port, Ghost(fuel): Ghost<nat>) -> (term: Term)
        requires
            read(old(self).env(), old(self).state(), next, fuel) is Done,
        ensures
            read(old(self).env(), old(self).state(), next, fuel) == Outcome::Done(
                (term@, final(self).state()),
            ),
            final(self).env() == old(self).env(),
            final(self).program() == old(self).program(),
        decreases fuel, 0nat,
    {
        let ghost less = (fuel - 1) as nat;
        let linear = self.dup_paths.is_none();
        let new = self.seen.insert(next);
        if !new && linear {
            assert(self.state() =~= old(self).state());
            self.error(ReadbackError::Cyclic);
            return Term::Var { nam: Name::ellipsis() };
        }
        assert(self.state() =~= old(self).state().see(next));
        let net = self.net;
        match &net.node(next.node()).kind {
            // Only the main port actually exists in an ERA, the aux ports are just an artifact of
            // this representation.
            NodeKind::Era => Term::Era,
            NodeKind::Ctr(CtrKind::Con(label)) => self.read_con(next, *label, Ghost(less)),
            NodeKind::Ctr(CtrKind::Tup(label)) => {
                self.read_fan(next, FanKind::Tup, *label, Ghost(less))
            },
            NodeKind::Ctr(CtrKind::Dup(label)) => {
                self.read_fan(next, FanKind::Dup, Some(*label), Ghost(less))
            },
            NodeKind::Mat => self.read_mat(next, Ghost(less)),
            NodeKind::Ref { def_name } => Term::Ref { nam: def_name.clone() },
            NodeKind::Num { val } => read_num(*val),
            NodeKind::Opr => self.read_opr(next, Ghost(less)),
            NodeKind::Rot => {
                self.error(ReadbackError::ReachedRoot);
                Term::Error
            },
        }
    }

    /// The terms for two ports, the first one read first.
    fn read_two(&mut self, fst: Port, snd: Port, Ghost(fuel): Ghost<nat>) -> (terms: (Term, Term))
        requires
            read_two(old(self).env(), old(self).state(), fst, snd, fuel) is Done,
        ensures
            read_two(old(self).env(), old(self).state(), fst, snd, fuel) == Outcome::Done(
                (terms.0@, terms.1@, final(self).state()),
            ),
            final(self).env() == old(self).env(),
            final(self).program() == old(self).program(),
        decreases fuel, 1nat,
    {
        let fst = self.read_term(fst, Ghost(fuel));
        let snd = self.read_term(snd, Ghost(fuel));
        (fst, snd)
    }

    /// The variable at a port.
    fn read_var(&mut self, next: Port) -> (term: Term)
        requires
            variable(old(self).state(), next) is Done,
        ensures
            variable(old(self).state(), next) == Outcome::Done(
                (term@, final(self).state()),
            ),
            final(self).env() == old(self).env(),
            final(self).program() == old(self).program(),
    {
        let term = Term::Var { nam: self.namegen.var_name(next) };
        assert(self.state() =~= old(self).state().name(next));
        term
    }

    /// The name that a declaration gives to the variable at a port.
    fn read_decl(&mut self, port: Port) -> (nam: Option<Name>)
        requires
            old(self).env().net.has_port(port),
            declare(old(self).env(), old(self).state(), port) is Done,
        ensures
            declare(old(self).env(), old(self).state(), port) == Outcome::Done(
                (opt_name(nam), final(self).state()),
            ),
            final(self).env() == old(self).env(),
            final(self).program() == old(self).program(),
    {
        let net = self.net;
        let nam = self.namegen.decl_name(net, port);
        proof {
            if is_used(*net, port) {
                assert(self.state() =~= old(self).state().name(port));
            } else {
                assert(self.state() =~= old(self).state());
            }
        }
        nam
    }

    /// The term for a port of a con node.
    fn read_con(&mut self, next: Port, label: Option<u16>, Ghost(fuel): Ghost<nat>) -> (term: Term)
        requires
            old(self).env().net.has_node(next.0),
            read_con(old(self).env(), old(self).state(), next, label, fuel) is Done,
        ensures
            read_con(old(self).env(), old(self).state(), next, label, fuel) == Outcome::Done(
                (term@, final(self).state()),
            ),
            final(self).env() == old(self).env(),
            final(self).program() == old(self).program(),
        decreases fuel, 2nat,
    {
        let net = self.net;
        let labels = self.labels;
        let node = next.node();
        if next.slot() == 0 {
            // If we're visiting a port 0, then it is a tuple or a lambda.
            if net.is_tup(node) {
                // A tuple
                let (lft, rgt) = self.read_two(
                    net.enter_port(Port(node, 1)),
                    net.enter_port(Port(node, 2)),
                    Ghost(fuel),
                );
                let ghost els = seq![lft@, rgt@];
                let term = Term::Fan {
                    fan: FanKind::Tup,
                    tag: labels.con.to_tag(label),
                    els: vec![lft, rgt],
                };
                proof {
                    lemma_term_model(term);
                    assert(models(term->els@) =~= els);
                }
                term
            } else {
                // A lambda
                let nam = self.read_decl(Port(node, 1));
                let bod = self.read_term(net.enter_port(Port(node, 2)), Ghost(fuel));
                Term::Lam {
                    tag: labels.con.to_tag(label),
                    pat: Box::new(Pattern::Var(nam)),
                    bod: Box::new(bod),
                }
            }
        } else if next.slot() == 1 {
            // If we're visiting a port 1, then it is a variable.
            self.read_var(next)
        } else {
            // If we're visiting a port 2, then it is an application.
            let (fun, arg) = self.read_two(
                net.enter_port(Port(node, 0)),
                net.enter_port(Port(node, 1)),
                Ghost(fuel),
            );
            Term::App { tag: labels.con.to_tag(label), fun: Box::new(fun), arg: Box::new(arg) }
        }
    }

    /// The term for a port of a switch node.
    fn read_mat(&mut self, next: Port, Ghost(fuel): Ghost<nat>) -> (term: Term)
        requires
            old(self).env().net.has_node(next.0),
            read_mat(old(self).env(), old(self).state(), next, fuel) is Done,
        ensures
            read_mat(old(self).env(), old(self).state(), next, fuel) == Outcome::Done(
                (term@, final(self).state()),
            ),
            final(self).env() == old(self).env(),
            final(self).program() == old(self).program(),
        decreases fuel, 2nat,
    {
        let net = self.net;
        let node = next.node();
        if next.slot() != 2 {
            self.error(ReadbackError::InvalidNumericMatch);
            return Term::Error;
        }
        // Read the matched expression
        let arg = self.read_term(net.enter_port(Port(node, 0)), Ghost(fuel));
        let ghost st = self.state();
        let bnd = match &arg {
            Term::Var { nam } => nam.clone(),
            _ => self.namegen.unique(),
        };
        proof {
            if !(arg is Var) {
                assert(self.state() =~= st.name_unique());
            }
        }
        // Read the pattern matching node
        let sel_node = net.enter_port(Port(node, 1)).node();
        // We expect the pattern matching node to be a CON
        let plain = match &net.node(sel_node).kind {
            NodeKind::Ctr(CtrKind::Con(None)) => true,
            _ => false,
        };
        let (zero, succ) = if plain {
            let (zero, succ) = self.read_two(
                net.enter_port(Port(sel_node, 1)),
                net.enter_port(Port(sel_node, 2)),
                Ghost(fuel),
            );
            let succ = self.read_pred(succ, &bnd);
            (zero, succ)
        } else {
            self.error(ReadbackError::InvalidNumericMatch);
            (Term::Error, Term::Error)
        };
        let ghost model = switch_on(arg@, bnd@, zero@, succ@);
        let term = Term::Swt {
            arg: Box::new(arg),
            bnd: Some(bnd),
            with: vec![],
            pred: None,
            arms: vec![zero, succ],
        };
        proof {
            lemma_term_model(term);
            assert(term@->arms =~= model->arms);
            assert(term@->with =~= model->with);
        }
        term
    }

    /// The term for a port of a fan node.
    fn read_fan(
        &mut self,
        next: Port,
        fan: FanKind,
        label: Option<u16>,
        Ghost(fuel): Ghost<nat>,
    ) -> (term: Term)
        requires
            old(self).env().net.has_node(next.0),
            fan == FanKind::Dup ==> label is Some,
            read_fan(old(self).env(), old(self).state(), next, fan, label, fuel) is Done,
        ensures
            read_fan(old(self).env(), old(self).state(), next, fan, label, fuel) == Outcome::Done(
                (term@, final(self).state()),
            ),
            final(self).env() == old(self).env(),
            final(self).program() == old(self).program(),
        decreases fuel, 3nat,
    {
        let net = self.net;
        let labels = self.labels;
        let node = next.node();
        if next.slot() == 0 {
            // If we're visiting a port 0, then it is a pair.
            if fan == FanKind::Dup {
                let dup = label.unwrap();
                if let Some(slot) = self.pop_dup(dup) {
                    // Since we had a paired Dup in the path to this Sup,
                    // we "decay" the superposition according to the original direction we came
                    // from the Dup.
                    let term = self.read_term(net.enter_port(Port(node, slot)), Ghost(fuel));
                    self.push_dup(dup, slot);
                    proof {
                        let before = old(self).env().dups->0;
                        assert(before[dup].drop_last().push(slot) =~= before[dup]);
                        assert(self.env().dups->0 =~= before);
                    }
                    return term;
                }
            }
            // If no Dup with same label in the path, we can't resolve the Sup, so keep it as a
            // term.
            match self.decay_or_get_ports(node, Ghost(fuel)) {
                Ok(term) => term,
                Err((fst, snd)) => {
                    let ghost els = seq![fst@, snd@];
                    let term = Term::Fan {
                        fan,
                        tag: labels.fan_tag(fan, label),
                        els: vec![fst, snd],
                    };
                    proof {
                        lemma_term_model(term);
                        assert(models(term->els@) =~= els);
                    }
                    term
                },
            }
        } else {
            // If we're visiting a port 1 or 2, then it is a variable.
            // Also, that means we found a dup, so we store it to read later.
            if fan == FanKind::Dup && self.dup_paths.is_some() {
                let dup = label.unwrap();
                self.push_dup(dup, next.slot());
                let term = self.read_term(net.enter_port(Port(node, 0)), Ghost(fuel));
                self.pop_dup(dup);
                proof {
                    let before = old(self).env().dups->0;
                    assert(before[dup].push(next.1).drop_last() =~= before[dup]);
                    assert(self.env().dups->0 =~= before);
                }
                term
            } else {
                proof {
                    broadcast use vstd::std_specs::btree::group_btree_axioms;
                    broadcast use vstd::laws_cmp::group_laws_cmp;
                    assert(vstd::laws_cmp::obeys_cmp::<NodeId>());
                }
                if self.seen_fans.insert(node) {
                    self.scope.insert(node);
                }
                assert(self.state() =~= old(self).state().meet_fan(node));
                self.read_var(next)
            }
        }
    }

    /// Enters both ports 1 and 2 of a node. Returns a Term if it is
    /// possible to simplify the net, or the Terms on the two ports of the node.
    /// The two possible outcomes are always equivalent: see `law_decay_skips_a_reconstruction`.
    ///
    /// If:
    ///  - The node Kind is CON/TUP/DUP
    ///  - Both ports 1 and 2 are connected to the same node on slots 1 and 2 respectively
    ///  - That node Kind is the same as the given node Kind
    ///
    /// Then:
    ///   Reads the port 0 of the connected node, and returns that term.
    ///
    /// Otherwise:
    ///   Returns the terms on ports 1 and 2 of the given node.
    ///
    /// # Example
    ///
    /// ```hvm
    /// // lambda a: let (a, b) = a; (a, b)
    /// ([a b] [a b])
    ///
    /// // The node `(a, b)` is just a reconstruction of the destructuring of `a`,
    /// // So we can skip both steps and just return the "value" unchanged:
    ///
    /// // lambda a: a
    /// (a a)
    /// ```
    pub fn decay_or_get_ports(&mut self, node: NodeId, Ghost(fuel): Ghost<nat>) -> (res: Result<
        Term,
        (Term, Term),
    >)
        requires
            old(self).env().net.has_node(node),
            decay(old(self).env(), old(self).state(), node, fuel) is Done,
        ensures
            decay(old(self).env(), old(self).state(), node, fuel) == Outcome::Done(
                (ports_model(res), final(self).state()),
            ),
            final(self).env() == old(self).env(),
            final(self).program() == old(self).program(),
        decreases fuel, 2nat,
    {
        let net = self.net;
        let fst_port = net.enter_port(Port(node, 1));
        let snd_port = net.enter_port(Port(node, 2));
        // Eta-reduce the readback inet.
        // This is not valid for all kinds of nodes, only CON/TUP/DUP, due to their interaction
        // rules.
        if let NodeKind::Ctr(kind) = &net.node(node).kind {
            if fst_port.slot() == 1 && snd_port.slot() == 2 && fst_port.node() == snd_port.node() {
                let fst_node = fst_port.node();
                let same = match &net.node(fst_node).kind {
                    NodeKind::Ctr(other) => kind.same(*other),
                    _ => false,
                };
                if same {
                    assert(is_decayed(*net, node));
                    proof {
                        broadcast use vstd::std_specs::btree::group_btree_axioms;
                        broadcast use vstd::laws_cmp::group_laws_cmp;
                        assert(vstd::laws_cmp::obeys_cmp::<NodeId>());
                    }
                    self.scope.remove(&fst_node);
                    assert(self.state() =~= old(self).state().drop_fan(fst_node));
                    let port_zero = net.enter_port(Port(fst_node, 0));
                    let term = self.read_term(port_zero, Ghost(fuel));
                    return Ok(term);
                }
            }
        }
        let (fst, snd) = self.read_two(fst_port, snd_port, Ghost(fuel));
        Err((fst, snd))
    }

    /// The argument of a numeric operation at a port, and whether it is flipped.
    pub fn read_opr_arg(&mut self, next: Port, Ghost(fuel): Ghost<nat>) -> (res: (bool, NumArg))
        requires
            read_arg(old(self).env(), old(self).state(), next, fuel) is Done,
        ensures
            read_arg(old(self).env(), old(self).state(), next, fuel) == Outcome::Done(
                (res.0, res.1@, final(self).state()),
            ),
            final(self).env() == old(self).env(),
            final(self).program() == old(self).program(),
        decreases fuel, 1nat,
    {
        let net = self.net;
        match &net.node(next.node()).kind {
            NodeKind::Num { val } => {
                self.seen.insert(next);
                assert(self.state() =~= old(self).state().see(next));
                split_arg(*val)
            },
            _ => {
                let term = self.read_term(next, Ghost(fuel));
                (false, NumArg::Oth(term))
            },
        }
    }

    /// The term for a port of an operation node.
    fn read_opr(&mut self, next: Port, Ghost(fuel): Ghost<nat>) -> (term: Term)
        requires
            old(self).env().net.has_node(next.0),
            read_opr(old(self).env(), old(self).state(), next, fuel) is Done,
        ensures
            read_opr(old(self).env(), old(self).state(), next, fuel) == Outcome::Done(
                (term@, final(self).state()),
            ),
            final(self).env() == old(self).env(),
            final(self).program() == old(self).program(),
        decreases fuel, 3nat,
    {
        let net = self.net;
        let node = next.node();
        if next.slot() != 2 {
            self.error(ReadbackError::InvalidNumericOp);
            return Term::Error;
        }
        match &net.node(net.enter_port(Port(node, 0)).node()).kind {
            NodeKind::Opr => self.read_second_half(node, Ghost(fuel)),
            _ => self.read_first_half(node, Ghost(fuel)),
        }
    }

    /// Second half of a numeric operation
    fn read_second_half(&mut self, node: NodeId, Ghost(fuel): Ghost<nat>) -> (term: Term)
        requires
            old(self).env().net.has_node(node),
            read_second_half(old(self).env(), old(self).state(), node, fuel) is Done,
        ensures
            read_second_half(old(self).env(), old(self).state(), node, fuel) == Outcome::Done(
                (term@, final(self).state()),
            ),
            final(self).env() == old(self).env(),
            final(self).program() == old(self).program(),
        decreases fuel, 2nat,
    {
        let net = self.net;
        let fst = self.read_term(net.enter_port(Port(node, 0)), Ghost(fuel));
        match fst {
            Term::Oper { opr, fst, snd: _ } => {
                let (flip, arg) = self.read_opr_arg(net.enter_port(Port(node, 1)), Ghost(fuel));
                let snd = Box::new(
                    match arg {
                        NumArg::Num(typ, val) => num_term(val, typ),
                        NumArg::Oth(term) => term,
                        _ => {
                            self.error(ReadbackError::InvalidNumericOp);
                            Term::Error
                        },
                    },
                );
                if flip {
                    Term::Oper { opr, fst: snd, snd: fst }
                } else {
                    Term::Oper { opr, fst, snd }
                }
            },
            _ => {
                self.error(ReadbackError::InvalidNumericOp);
                Term::Error
            },
        }
    }

    /// First half of a numeric operation
    fn read_first_half(&mut self, node: NodeId, Ghost(fuel): Ghost<nat>) -> (term: Term)
        requires
            old(self).env().net.has_node(node),
            read_first_half(old(self).env(), old(self).state(), node, fuel) is Done,
        ensures
            read_first_half(old(self).env(), old(self).state(), node, fuel) == Outcome::Done(
                (term@, final(self).state()),
            ),
            final(self).env() == old(self).env(),
            final(self).program() == old(self).program(),
        decreases fuel, 2nat,
    {
        let net = self.net;
        let (flip0, arg0) = self.read_opr_arg(net.enter_port(Port(node, 0)), Ghost(fuel));
        let (flip1, arg1) = self.read_opr_arg(net.enter_port(Port(node, 1)), Ghost(fuel));
        let (arg0, arg1) = if flip0 != flip1 {
            (arg1, arg0)
        } else {
            (arg0, arg1)
        };
        assert(Term::Error@ == TermModel::Error);
        match (arg0, arg1) {
            (NumArg::Sym(opr), NumArg::Num(typ, val)) => {
                oper_term(opr, typ, num_term(val, typ), Term::Error)
            },
            (NumArg::Num(typ, val), NumArg::Sym(opr)) => {
                oper_term(opr, typ, num_term(val, typ), Term::Error)
            },
            (NumArg::Num(typ, num1), NumArg::Par(opr, num2)) => {
                oper_term(opr, typ, num_term(num1, typ), num_term(num2, typ))
            },
            (NumArg::Par(opr, num1), NumArg::Num(typ, num2)) => {
                oper_term(opr, typ, num_term(num1, typ), num_term(num2, typ))
            },
            // No type, so assuming u24
            (NumArg::Sym(opr), NumArg::Oth(term)) => {
                oper_term(opr, NumType::U24, term, Term::Error)
            },
            (NumArg::Oth(term), NumArg::Sym(opr)) => {
                oper_term(opr, NumType::U24, term, Term::Error)
            },
            (NumArg::Par(opr, num), NumArg::Oth(term)) => {
                oper_term(opr, NumType::U24, num_term(num, NumType::U24), term)
            },
            (NumArg::Oth(term), NumArg::Par(opr, num)) => {
                oper_term(opr, NumType::U24, term, num_term(num, NumType::U24))
            },
            _ => {
                self.error(ReadbackError::InvalidNumericOp);
                Term::Error
            },
        }
    }

    /// The second arm of a switch, from the lambda that takes the predecessor.
    fn read_pred(&mut self, succ: Term, bnd: &Name) -> (arm: Term)
        ensures
            (arm@, final(self).state()) == pred_arm(succ@, bnd@, old(self).state()),
            final(self).env() == old(self).env(),
            final(self).program() == old(self).program(),
    {
        match succ {
            Term::Lam { tag, pat, bod } => match *pat {
                Pattern::Var(nam) => {
                    let mut bod = *bod;
                    if let Some(nam) = nam {
                        bod.subst(&nam, &bnd.pred());
                    }
                    bod
                },
                pat => {
                    self.error(ReadbackError::InvalidNumericMatch);
                    Term::Lam { tag, pat: Box::new(pat), bod }
                },
            },
            succ => {
                self.error(ReadbackError::InvalidNumericMatch);
                succ
            },
        }
    }

    /// Reads the value of a fan that is in the scope, and declares its variables.
    fn read_split(&mut self, node: NodeId, Ghost(fuel): Ghost<nat>) -> (split: Split)
        requires
            read_split(old(self).env(), old(self).state(), node, fuel) is Done,
        ensures
            read_split(old(self).env(), old(self).state(), node, fuel) == Outcome::Done(
                (split@, final(self).state()),
            ),
            final(self).env() == old(self).env(),
            final(self).program() == old(self).program(),
    {
        let net = self.net;
        let val = self.read_term(net.enter_port(Port(node, 0)), Ghost(fuel));
        let fst = self.read_decl(Port(node, 1));
        let snd = self.read_decl(Port(node, 2));
        match net.node(node).kind {
            NodeKind::Ctr(CtrKind::Tup(label)) => {
                Split { fan: FanKind::Tup, tag: self.labels.tup.to_tag(label), fst, snd, val }
            },
            NodeKind::Ctr(CtrKind::Dup(label)) => {
                Split { fan: FanKind::Dup, tag: self.labels.dup.to_tag(Some(label)), fst, snd, val }
            },
            _ => {
                assert(false);
                Split::default()
            },
        }
    }

    /// Inserts the splits of the fans in the scope into a term.
    fn insert_splits(&mut self, term: &mut Term, Ghost(fuel): Ghost<nat>)
        requires
            insert_splits(old(self).env(), old(self).state(), old(term)@, fuel) is Done,
        ensures
            insert_splits(old(self).env(), old(self).state(), old(term)@, fuel) == Outcome::Done(
                (final(term)@, final(self).state()),
            ),
            final(self).env() == old(self).env(),
            final(self).program() == old(self).program(),
    {
        let ghost whole = insert_splits(self.env(), self.state(), term@, fuel);
        let ghost mut left = fuel;
        loop
            invariant
                self.env() == old(self).env(),
                self.program() == old(self).program(),
                insert_splits(self.env(), self.state(), term@, left) == whole,
                whole is Done,
            ensures
                self.state().scope == Set::<NodeId>::empty(),
            decreases left,
        {
            let ghost before = self.state();
            match pop_first(&mut self.scope) {
                None => {
                    assert(self.state() =~= before);
                    break;
                },
                Some(node) => {
                    proof {
                        let first = choose|node: NodeId| is_first(before.scope, node);
                        assert(is_first(before.scope, first));
                        assert(first == node);
                        assert(self.state() =~= before.drop_fan(node));
                    }
                    let mut split = self.read_split(node, Ghost(left));
                    match term.insert_split(&mut split, usize::MAX) {
                        Some(uses) => {
                            term.insert_split(&mut split, uses);
                        },
                        None => {
                            assert(false);
                        },
                    }
                    proof {
                        left = (left - 1) as nat;
                    }
                },
            }
        }
    }
}

/// A number as a term.
fn num_term(bits: u32, typ: NumType) -> (term: Term)
    ensures
        term@ == number(bits as int, typ),
{
    Term::Num { val: Num::from_bits_and_type(bits, typ) }
}

/// An operation as a term.
fn oper_term(opr: u32, typ: NumType, fst: Term, snd: Term) -> (term: Term)
    requires
        operation(opr as int, typ, fst@, snd@) is Some,
    ensures
        operation(opr as int, typ, fst@, snd@) == Some(term@),
{
    Term::Oper { opr: Op::from_native_tag(opr, typ), fst: Box::new(fst), snd: Box::new(snd) }
}

/// The term for a number node.
fn read_num(val: u32) -> (term: Term)
    requires
        number_term(val) is Some,
    ensures
        number_term(val) == Some(term@),
{
    assert(Term::Error@ == TermModel::Error);
    let (flip, arg) = split_arg(val);
    match arg {
        NumArg::Sym(opr) => oper_term(opr, NumType::U24, Term::Error, Term::Error),
        NumArg::Num(typ, val) => num_term(val, typ),
        NumArg::Par(opr, val) => {
            let num = num_term(val, NumType::U24);
            if flip {
                oper_term(opr, NumType::U24, num, Term::Error)
            } else {
                oper_term(opr, NumType::U24, Term::Error, num)
            }
        },
        NumArg::Oth(term) => term,
    }
}

/// The word of a number node as the argument of an operation, and whether it is flipped.
fn split_arg(val: u32) -> (res: (bool, NumArg))
    ensures
        (res.0, res.1@) == number_arg(val),
{
    let (flipped, typ, val) = split_word(val);
    let arg = if typ == 0 {
        NumArg::Sym(val % 16)
    } else if typ <= 3 {
        NumArg::Num(NumType::from_native_tag(typ), val)
    } else {
        NumArg::Par(typ, val)
    };
    (flipped, arg)
}

/// Converts a net to a term. The errors that are met are reported as warnings.
pub fn net_to_term(
    net: &INet,
    book: &Book,
    labels: &Labels,
    linear: bool,
    diagnostics: &mut Diagnostics,
) -> (term: Term)
    requires
        readable(*net, *labels, linear),
    ensures
        forall|fuel: nat| #[trigger]
            readback(*net, *labels, linear, fuel) matches Outcome::Done((meaning, errors)) ==> {
                &&& term@ == meaning
                &&& final(diagnostics)@ == old(diagnostics)@ + report(errors)
            },
        free(term@) == Set::<Seq<char>>::empty(),
        complete(term@),
{
    let ghost fuel = choose|fuel: nat| readback(*net, *labels, linear, fuel) is Done;
    let mut reader = Reader::new(net, book, labels, linear);
    let ghost env = reader.env();

    let mut term = reader.read_term(net.enter_port(Port::root()), Ghost(fuel));
    proof {
        law_read_only_adds(env, ReadState::empty(), env.link(0, 1), fuel);
        lemma_splits_follow(env, reader.state(), term@, fuel);
    }
    reader.insert_splits(&mut term, Ghost(fuel));

    reader.report_errors(diagnostics);

    let mut unscoped = NameSet::new();
    let mut scope: Vec<Name> = Vec::new();
    term.collect_unscoped(&mut unscoped, &mut scope);
    proof {
        assert(unscoped@ =~= free(term@));
        law_marked_term_is_closed(term@);
        lemma_mark_complete(term@, free(term@));
    }
    term.apply_unscoped(&unscoped);

    proof {
        assert forall|other: nat| #[trigger]
            readback(*net, *labels, linear, other) is Done implies readback(
            *net,
            *labels,
            linear,
            other,
        ) == readback(*net, *labels, linear, fuel) by {
            if other <= fuel {
                law_readback_ignores_fuel(*net, *labels, linear, other, fuel);
            } else {
                law_readback_ignores_fuel(*net, *labels, linear, fuel, other);
            }
        }
    }
    term
}

} // verus!
