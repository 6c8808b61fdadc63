//! Readback of whole nets.
use readback::book::Book;
use readback::diagnostics::{DiagnosticOrigin, Diagnostics, Severity};
use readback::labels::Labels;
use readback::name::{Name, NameSet};
use readback::net::{CtrKind, INet, NodeKind, Port};
use readback::num::{Num, Op};
use readback::reader::net_to_term;
use readback::term::{FanKind, Pattern, Tag, Term};

const CON: NodeKind = NodeKind::Ctr(CtrKind::Con(None));
const TUP: NodeKind = NodeKind::Ctr(CtrKind::Tup(None));

/// A net of the root and the given nodes, which are numbered from 1 on.
fn net(kinds: Vec<NodeKind>, links: &[((u64, u64), (u64, u64))]) -> INet {
    let mut net = INet::new();
    for kind in kinds {
        net.new_node(kind);
    }
    for ((a, i), (b, j)) in links {
        net.link(Port(*a, *i), Port(*b, *j));
    }
    net
}

fn read_with(net: &INet, labels: &Labels, linear: bool) -> (Term, Vec<String>) {
    let mut diagnostics = Diagnostics::new();
    let term = net_to_term(net, &Book::new(), labels, linear, &mut diagnostics);
    let mut messages = Vec::new();
    for diagnostic in diagnostics.diagnostics {
        assert_eq!(diagnostic.severity, Severity::Warning);
        assert_eq!(diagnostic.origin, DiagnosticOrigin::Readback);
        messages.push(diagnostic.message);
    }
    (term, messages)
}

fn read(net: &INet, linear: bool) -> (Term, Vec<String>) {
    read_with(net, &Labels::new(), linear)
}

/// The term of a net that gives no warnings.
fn term_of(net: &INet, linear: bool) -> Term {
    let (term, messages) = read(net, linear);
    assert_eq!(messages, Vec::<String>::new());
    term
}

fn name(text: &str) -> Name {
    Name::new(text)
}

fn var(text: &str) -> Term {
    Term::Var { nam: name(text) }
}

fn link(text: &str) -> Term {
    Term::Link { nam: name(text) }
}

fn reference(text: &str) -> Term {
    Term::Ref { nam: name(text) }
}

fn bind(text: &str) -> Pattern {
    Pattern::Var(Some(name(text)))
}

fn lam(pat: Pattern, bod: Term) -> Term {
    Term::Lam { tag: Tag::Static, pat: Box::new(pat), bod: Box::new(bod) }
}

fn app(fun: Term, arg: Term) -> Term {
    Term::App { tag: Tag::Static, fun: Box::new(fun), arg: Box::new(arg) }
}

fn tup(fst: Term, snd: Term) -> Term {
    Term::Fan { fan: FanKind::Tup, tag: Tag::Static, els: vec![fst, snd] }
}

fn num(bits: u32) -> Term {
    Term::Num { val: Num::from_bits(bits) }
}

fn oper(opr: Op, fst: Term, snd: Term) -> Term {
    Term::Oper { opr, fst: Box::new(fst), snd: Box::new(snd) }
}

fn let_fan(fan: FanKind, tag: Tag, fst: Pattern, snd: Pattern, val: Term, nxt: Term) -> Term {
    Term::Let {
        pat: Box::new(Pattern::Fan(fan, tag, vec![fst, snd])),
        val: Box::new(val),
        nxt: Box::new(nxt),
    }
}

fn switch(arg: Term, bnd: &str, zero: Term, succ: Term) -> Term {
    Term::Swt {
        arg: Box::new(arg),
        bnd: Some(name(bnd)),
        with: vec![],
        pred: None,
        arms: vec![zero, succ],
    }
}

fn dup(label: u16) -> NodeKind {
    NodeKind::Ctr(CtrKind::Dup(label))
}

fn word(val: u32) -> NodeKind {
    NodeKind::Num { val }
}

#[test]
fn identity() {
    let net = net(vec![CON], &[((0, 1), (1, 0)), ((1, 1), (1, 2))]);
    assert_eq!(term_of(&net, true), lam(bind("a"), var("a")));
    assert_eq!(term_of(&net, false), lam(bind("a"), var("a")));
}

#[test]
fn lambda_that_erases_its_argument() {
    let net = net(
        vec![CON, NodeKind::Era, word(0x51)],
        &[((0, 1), (1, 0)), ((1, 1), (2, 0)), ((1, 2), (3, 0))],
    );
    assert_eq!(term_of(&net, true), lam(Pattern::Var(None), num(0x51)));
}

#[test]
fn application_of_a_lambda() {
    let net = net(
        vec![CON, CON, word(0x51)],
        &[((0, 1), (1, 2)), ((1, 0), (2, 0)), ((2, 1), (2, 2)), ((1, 1), (3, 0))],
    );
    assert_eq!(term_of(&net, true), app(lam(bind("a"), var("a")), num(0x51)));
}

#[test]
fn constructor_over_a_closed_net_is_a_tuple() {
    let net = net(
        vec![CON, CON, NodeKind::Era],
        &[((0, 1), (1, 0)), ((1, 1), (2, 0)), ((2, 1), (2, 2)), ((1, 2), (3, 0))],
    );
    assert!(net.is_tup(1));
    assert!(!net.is_tup(2));
    assert!(!net.is_tup(3));
    assert_eq!(term_of(&net, true), tup(lam(bind("a"), var("a")), Term::Era));
}

#[test]
fn constructor_over_an_erasure_is_a_lambda() {
    let net = net(
        vec![CON, NodeKind::Era, NodeKind::Era],
        &[((0, 1), (1, 0)), ((1, 1), (2, 0)), ((1, 2), (3, 0))],
    );
    assert!(!net.is_tup(1));
    assert_eq!(term_of(&net, true), lam(Pattern::Var(None), Term::Era));
}

#[test]
fn labels_become_tags() {
    let mut labels = Labels::new();
    labels.con.insert(3, name("x"));
    let net = net(
        vec![NodeKind::Ctr(CtrKind::Con(Some(3))), NodeKind::Ctr(CtrKind::Con(Some(4)))],
        &[((0, 1), (1, 0)), ((1, 1), (2, 1)), ((1, 2), (2, 0)), ((2, 2), (2, 2))],
    );
    let (term, _) = read_with(&net, &labels, true);
    match term {
        Term::Lam { tag, bod, .. } => {
            assert_eq!(tag, Tag::Named(name("x")));
            assert!(matches!(*bod, Term::Lam { tag: Tag::Numeric(4), .. }));
        }
        _ => panic!("not a lambda"),
    }
}

#[test]
fn reference_to_a_definition() {
    let net = net(vec![NodeKind::Ref { def_name: name("main") }], &[((0, 1), (1, 0))]);
    assert_eq!(term_of(&net, true), reference("main"));
}

#[test]
fn variable_that_is_used_out_of_scope() {
    // (\a 5, a)
    let net = net(
        vec![TUP, CON, word(0x51)],
        &[((0, 1), (1, 0)), ((1, 1), (2, 0)), ((1, 2), (2, 1)), ((2, 2), (3, 0))],
    );
    let expected = tup(lam(Pattern::Chn(name("a")), num(0x51)), link("a"));
    assert_eq!(term_of(&net, true), expected);
}

/// \a, where a is duplicated, and one copy is applied to the other.
fn self_application(fan: NodeKind) -> INet {
    net(
        vec![CON, fan, CON],
        &[
            ((0, 1), (1, 0)),
            ((1, 1), (2, 0)),
            ((1, 2), (3, 2)),
            ((2, 1), (3, 0)),
            ((2, 2), (3, 1)),
        ],
    )
}

#[test]
fn duplication_in_a_linear_net_is_a_split() {
    let expected = lam(
        bind("a"),
        let_fan(
            FanKind::Dup,
            Tag::Numeric(0),
            bind("b"),
            bind("c"),
            var("a"),
            app(var("b"), var("c")),
        ),
    );
    assert_eq!(term_of(&self_application(dup(0)), true), expected);
}

#[test]
fn duplication_in_a_non_linear_net_is_read_in_place() {
    let expected = lam(bind("a"), app(var("a"), var("a")));
    assert_eq!(term_of(&self_application(dup(0)), false), expected);
}

#[test]
fn tuple_is_taken_apart_by_a_split_in_any_net() {
    for linear in [true, false] {
        let expected = lam(
            bind("a"),
            let_fan(
                FanKind::Tup,
                Tag::Static,
                bind("b"),
                bind("c"),
                var("a"),
                app(var("b"), var("c")),
            ),
        );
        assert_eq!(term_of(&self_application(TUP), linear), expected);
    }
}

#[test]
fn split_binds_nothing_for_a_side_that_is_erased() {
    // \a let (b, *) = a; b
    let net = net(
        vec![CON, TUP, NodeKind::Era],
        &[((0, 1), (1, 0)), ((1, 1), (2, 0)), ((2, 1), (1, 2)), ((2, 2), (3, 0))],
    );
    let expected = lam(
        bind("a"),
        let_fan(
            FanKind::Tup,
            Tag::Static,
            bind("b"),
            Pattern::Var(None),
            var("a"),
            var("b"),
        ),
    );
    assert_eq!(term_of(&net, true), expected);
}

/// A pair of the two copies of a superposition of 1 and 2.
fn copied_superposition() -> INet {
    net(
        vec![TUP, dup(7), dup(7), word(0x11), word(0x21)],
        &[
            ((0, 1), (1, 0)),
            ((1, 1), (2, 1)),
            ((1, 2), (2, 2)),
            ((2, 0), (3, 0)),
            ((3, 1), (4, 0)),
            ((3, 2), (5, 0)),
        ],
    )
}

#[test]
fn superposition_takes_the_side_of_the_duplication() {
    assert_eq!(term_of(&copied_superposition(), false), tup(num(0x11), num(0x21)));
}

#[test]
fn superposition_in_a_linear_net_is_kept() {
    let sup = Term::Fan {
        fan: FanKind::Dup,
        tag: Tag::Numeric(7),
        els: vec![num(0x11), num(0x21)],
    };
    let expected = let_fan(
        FanKind::Dup,
        Tag::Numeric(7),
        bind("a"),
        bind("b"),
        sup,
        tup(var("a"), var("b")),
    );
    assert_eq!(term_of(&copied_superposition(), true), expected);
}

#[test]
fn copies_of_a_lambda_are_both_read_in_a_non_linear_net() {
    let net = net(
        vec![TUP, dup(0), CON],
        &[
            ((0, 1), (1, 0)),
            ((1, 1), (2, 1)),
            ((1, 2), (2, 2)),
            ((2, 0), (3, 0)),
            ((3, 1), (3, 2)),
        ],
    );
    let id = || lam(bind("a"), var("a"));
    assert_eq!(term_of(&net, false), tup(id(), id()));
}

#[test]
fn pair_of_what_was_just_taken_apart_decays() {
    // ([a b] [a b])
    let net = net(
        vec![CON, TUP, TUP],
        &[
            ((0, 1), (1, 0)),
            ((1, 1), (2, 0)),
            ((1, 2), (3, 0)),
            ((2, 1), (3, 1)),
            ((2, 2), (3, 2)),
        ],
    );
    for linear in [true, false] {
        assert_eq!(term_of(&net, linear), lam(bind("a"), var("a")));
    }
}

#[test]
fn superposition_of_what_was_just_duplicated_decays() {
    let net = net(
        vec![dup(7), dup(7), word(0x51)],
        &[((0, 1), (1, 0)), ((1, 1), (2, 1)), ((1, 2), (2, 2)), ((2, 0), (3, 0))],
    );
    for linear in [true, false] {
        assert_eq!(term_of(&net, linear), num(0x51));
    }
}

#[test]
fn reconstruction_keeps_the_side() {
    // The copies of a superposition that is taken apart and put together again on the way.
    let net = net(
        vec![TUP, dup(7), dup(7), dup(7), dup(7), word(0x11), word(0x21)],
        &[
            ((0, 1), (1, 0)),
            ((1, 1), (2, 1)),
            ((1, 2), (2, 2)),
            ((2, 0), (3, 0)),
            ((3, 1), (4, 1)),
            ((3, 2), (4, 2)),
            ((4, 0), (5, 0)),
            ((5, 1), (6, 0)),
            ((5, 2), (7, 0)),
        ],
    );
    assert_eq!(term_of(&net, false), tup(num(0x11), num(0x21)));
}

#[test]
fn result_has_no_free_variables() {
    let net = self_application(dup(0));
    for linear in [true, false] {
        let term = term_of(&net, linear);
        let mut unscoped = NameSet::new();
        term.collect_unscoped(&mut unscoped, &mut Vec::new());
        for text in ["a", "b", "c"] {
            assert!(!unscoped.contains(&name(text)));
        }
    }
}

#[test]
fn search_for_the_leaves_goes_down_a_long_way() {
    // A constructor over a comb of forty others, each of which holds a number and the next one.
    let mut kinds = vec![CON];
    let mut links = vec![((0, 1), (1, 0)), ((1, 1), (2, 0))];
    for i in 2..=41u64 {
        kinds.push(CON);
        links.push(((i, 1), (i + 41, 0)));
        links.push(((i, 2), if i < 41 { (i + 1, 0) } else { (83, 0) }));
    }
    for _ in 42..=83 {
        kinds.push(word(0x51));
    }
    links.push(((1, 2), (42, 0)));
    assert!(net(kinds, &links).is_tup(1));
}

#[test]
fn pair_with_changed_sides_does_not_decay() {
    let net = net(
        vec![CON, TUP, TUP],
        &[
            ((0, 1), (1, 0)),
            ((1, 1), (2, 0)),
            ((1, 2), (3, 0)),
            ((2, 1), (3, 2)),
            ((2, 2), (3, 1)),
        ],
    );
    let expected = lam(
        bind("a"),
        let_fan(
            FanKind::Tup,
            Tag::Static,
            bind("c"),
            bind("b"),
            var("a"),
            tup(var("b"), var("c")),
        ),
    );
    assert_eq!(term_of(&net, true), expected);
}

#[test]
fn switch_on_a_number() {
    let net = net(
        vec![NodeKind::Mat, word(0x31), CON, word(0xa1), CON],
        &[
            ((0, 1), (1, 2)),
            ((1, 0), (2, 0)),
            ((1, 1), (3, 0)),
            ((3, 1), (4, 0)),
            ((3, 2), (5, 0)),
            ((5, 1), (5, 2)),
        ],
    );
    assert_eq!(term_of(&net, true), switch(num(0x31), "a", num(0xa1), var("a-1")));
}

#[test]
fn switch_on_a_variable() {
    let net = net(
        vec![CON, NodeKind::Mat, CON, word(0xa1), CON],
        &[
            ((0, 1), (1, 0)),
            ((1, 1), (2, 0)),
            ((1, 2), (2, 2)),
            ((2, 1), (3, 0)),
            ((3, 1), (4, 0)),
            ((3, 2), (5, 0)),
            ((5, 1), (5, 2)),
        ],
    );
    let expected = lam(bind("a"), switch(var("a"), "a", num(0xa1), var("a-1")));
    assert_eq!(term_of(&net, true), expected);
}

#[test]
fn switch_that_erases_the_predecessor() {
    let net = net(
        vec![NodeKind::Mat, word(0x31), CON, word(0xa1), CON, NodeKind::Era, word(0xb1)],
        &[
            ((0, 1), (1, 2)),
            ((1, 0), (2, 0)),
            ((1, 1), (3, 0)),
            ((3, 1), (4, 0)),
            ((3, 2), (5, 0)),
            ((5, 1), (6, 0)),
            ((5, 2), (7, 0)),
        ],
    );
    assert_eq!(term_of(&net, true), switch(num(0x31), "a", num(0xa1), num(0xb1)));
}

const BAD_SWITCH: &str = "Encountered an invalid 'switch'.";
const BAD_OPERATION: &str = "Encountered an invalid numeric operation.";

#[test]
fn switch_with_an_arm_that_is_no_lambda() {
    let net = net(
        vec![NodeKind::Mat, word(0x31), CON, word(0xa1), word(0xb1)],
        &[
            ((0, 1), (1, 2)),
            ((1, 0), (2, 0)),
            ((1, 1), (3, 0)),
            ((3, 1), (4, 0)),
            ((3, 2), (5, 0)),
        ],
    );
    let (term, messages) = read(&net, true);
    assert_eq!(term, switch(num(0x31), "a", num(0xa1), num(0xb1)));
    assert_eq!(messages, vec![BAD_SWITCH.to_string()]);
}

#[test]
fn switch_without_arms() {
    let net = net(
        vec![NodeKind::Mat, word(0x31), word(0xa1)],
        &[((0, 1), (1, 2)), ((1, 0), (2, 0)), ((1, 1), (3, 0))],
    );
    let (term, messages) = read(&net, true);
    assert_eq!(term, switch(num(0x31), "a", Term::Error, Term::Error));
    assert_eq!(messages, vec![BAD_SWITCH.to_string()]);
}

#[test]
fn switch_entered_at_its_main_port() {
    let net = net(vec![NodeKind::Mat], &[((0, 1), (1, 0))]);
    let (term, messages) = read(&net, true);
    assert_eq!(term, Term::Error);
    assert_eq!(messages, vec![BAD_SWITCH.to_string()]);
}

/// An operation node over two words.
fn operation(fst: u32, snd: u32) -> INet {
    net(
        vec![NodeKind::Opr, word(fst), word(snd)],
        &[((0, 1), (1, 2)), ((1, 0), (2, 0)), ((1, 1), (3, 0))],
    )
}

const FLIP: u32 = 1 << 28;

#[test]
fn operation_on_two_numbers() {
    // The operator is in the word of the first operand: [+ 3].
    let expected = oper(Op::ADD, num(0x31), num(0x71));
    assert_eq!(term_of(&operation(0x34, 0x71), true), expected);
    // It is in the word of the second one.
    let expected = oper(Op::ADD, num(0x71), num(0x31));
    assert_eq!(term_of(&operation(0x71, 0x34), true), expected);
}

#[test]
fn flipped_operands_change_places() {
    let expected = oper(Op::ADD, num(0x71), num(0x31));
    assert_eq!(term_of(&operation(0x34 | FLIP, 0x71), true), expected);
    let expected = oper(Op::ADD, num(0x31), num(0x71));
    assert_eq!(term_of(&operation(0x34 | FLIP, 0x71 | FLIP), true), expected);
}

#[test]
fn number_gives_the_type_of_the_operation() {
    assert_eq!(term_of(&operation(0xd0, 0x13), true), oper(Op::ATN, num(0x13), Term::Error));
    assert_eq!(term_of(&operation(0xd0, 0x11), true), oper(Op::AND, num(0x11), Term::Error));
    // [xor 2] and a float: both operands are taken as floats.
    assert_eq!(term_of(&operation(0x2f, 0x13), true), oper(Op::POW, num(0x23), num(0x13)));
    assert_eq!(term_of(&operation(0x2f, 0x12), true), oper(Op::XOR, num(0x22), num(0x12)));
}

#[test]
fn operation_on_numbers_without_an_operator() {
    let (term, messages) = read(&operation(0x31, 0x71), true);
    assert_eq!(term, Term::Error);
    assert_eq!(messages, vec![BAD_OPERATION.to_string()]);
}

#[test]
fn operation_on_a_partial_operation_and_a_term() {
    let build = |val: u32| {
        net(
            vec![NodeKind::Opr, word(val), NodeKind::Ref { def_name: name("x") }],
            &[((0, 1), (1, 2)), ((1, 0), (2, 0)), ((1, 1), (3, 0))],
        )
    };
    let expected = oper(Op::MUL, num(0x31), reference("x"));
    assert_eq!(term_of(&build(0x36), true), expected);
    let expected = oper(Op::MUL, reference("x"), num(0x31));
    assert_eq!(term_of(&build(0x36 | FLIP), true), expected);
}

/// x - y in two halves, where y is a word.
fn two_halves(second: u32) -> INet {
    net(
        vec![
            NodeKind::Opr,
            NodeKind::Opr,
            NodeKind::Ref { def_name: name("x") },
            word(0x50),
            word(second),
        ],
        &[
            ((0, 1), (1, 2)),
            ((1, 0), (2, 2)),
            ((2, 0), (3, 0)),
            ((2, 1), (4, 0)),
            ((1, 1), (5, 0)),
        ],
    )
}

#[test]
fn operation_in_two_halves() {
    assert_eq!(term_of(&two_halves(0x21), true), oper(Op::SUB, reference("x"), num(0x21)));
    assert_eq!(
        term_of(&two_halves(0x21 | FLIP), true),
        oper(Op::SUB, num(0x21), reference("x"))
    );
}

#[test]
fn operator_as_the_second_operand() {
    let (term, messages) = read(&two_halves(0x40), true);
    assert_eq!(term, oper(Op::SUB, reference("x"), Term::Error));
    assert_eq!(messages, vec![BAD_OPERATION.to_string()]);
}

#[test]
fn second_half_without_a_first_one() {
    let net = net(
        vec![NodeKind::Opr, NodeKind::Opr],
        &[((0, 1), (1, 2)), ((1, 0), (2, 0))],
    );
    let (term, messages) = read(&net, true);
    assert_eq!(term, Term::Error);
    assert_eq!(messages, vec![format!("{BAD_OPERATION} (2 occurrences)")]);
}

#[test]
fn operator_that_lacks_its_arguments() {
    let read = |val: u32| term_of(&net(vec![word(val)], &[((0, 1), (1, 0))]), true);
    assert_eq!(read(0x40), oper(Op::ADD, Term::Error, Term::Error));
    assert_eq!(read(0x34), oper(Op::ADD, Term::Error, num(0x31)));
    assert_eq!(read(0x34 | FLIP), oper(Op::ADD, num(0x31), Term::Error));
    assert_eq!(read(0x32), num(0x32));
    assert_eq!(read(0x33), num(0x33));
}

#[test]
fn root_is_no_term() {
    let (term, messages) = read(&INet::new(), true);
    assert_eq!(term, Term::Error);
    assert_eq!(
        messages,
        vec!["Unable to interpret the HVM result as a valid Bend term. (Reached Root)"
            .to_string()]
    );
}

const CYCLIC: &str = "Unable to interpret the HVM result as a valid Bend term. (Cyclic Term)";

#[test]
fn cycle_is_cut() {
    let mut net = net(vec![CON, NodeKind::Era], &[((0, 1), (1, 2)), ((1, 1), (2, 0))]);
    net.nodes[1].main = Port(1, 2);
    let (term, messages) = read(&net, true);
    assert_eq!(term, app(link("..."), Term::Era));
    assert_eq!(messages, vec![CYCLIC.to_string()]);
}

#[test]
fn errors_are_counted() {
    let mut net = net(vec![CON], &[((0, 1), (1, 2))]);
    net.nodes[1].main = Port(1, 2);
    net.nodes[1].aux1 = Port(1, 2);
    let (term, messages) = read(&net, true);
    assert_eq!(term, app(link("..."), link("...")));
    assert_eq!(messages, vec![format!("{CYCLIC} (2 occurrences)")]);
}

#[test]
fn each_error_is_reported_once() {
    // An application of a switch to an operation, neither of which can be read.
    let net = net(
        vec![CON, NodeKind::Mat, NodeKind::Opr],
        &[((0, 1), (1, 2)), ((1, 0), (2, 0)), ((1, 1), (3, 0))],
    );
    let (term, mut messages) = read(&net, true);
    messages.sort();
    assert_eq!(term, app(Term::Error, Term::Error));
    assert_eq!(messages, vec![BAD_SWITCH.to_string(), BAD_OPERATION.to_string()]);
}

#[test]
fn warnings_are_added_to_those_that_are_there() {
    let mut diagnostics = Diagnostics::new();
    diagnostics.add_diagnostic("first", Severity::Error, DiagnosticOrigin::Inet);
    net_to_term(&INet::new(), &Book::new(), &Labels::new(), true, &mut diagnostics);
    assert_eq!(diagnostics.diagnostics.len(), 2);
    assert_eq!(diagnostics.diagnostics[0].message, "first");
    assert_eq!(diagnostics.diagnostics[0].severity, Severity::Error);
}

#[test]
fn many_variables_get_different_names() {
    // Thirty nested lambdas that do not use their arguments, around a number; the arguments are
    // linked in pairs, so that each one counts as used.
    let mut kinds = Vec::new();
    let mut links = vec![((0, 1), (1, 0))];
    for i in 1..=30u64 {
        kinds.push(CON);
        links.push(((i, 2), if i < 30 { (i + 1, 0) } else { (31, 0) }));
        if i % 2 == 0 {
            links.push(((i - 1, 1), (i, 1)));
        }
    }
    kinds.push(word(0x51));
    let mut term = term_of(&net(kinds, &links), true);
    let mut names = Vec::new();
    while let Term::Lam { pat, bod, .. } = term {
        match *pat {
            Pattern::Var(Some(nam)) => names.push(nam),
            _ => panic!("no name"),
        }
        term = *bod;
    }
    assert_eq!(term, num(0x51));
    assert_eq!(names.len(), 30);
    assert_eq!(names[0].as_str(), "a");
    assert_eq!(names[25].as_str(), "z");
    assert_eq!(names[26].as_str(), "ab");
    assert_eq!(names[29].as_str(), "db");
    for i in 0..30 {
        for j in 0..i {
            assert_ne!(names[i], names[j]);
        }
    }
}
