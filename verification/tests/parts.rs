//! The parts that readback is made of.
use readback::diagnostics::{DiagnosticOrigin, Diagnostics, Severity};
use readback::book::Book;
use readback::error::{count_error, to_decimal, ReadbackError};
use readback::labels::{LabelGenerator, Labels};
use readback::name::{Name, NameSet};
use readback::namegen::NameGen;
use readback::net::{CtrKind, INet, NodeKind, Port};
use readback::num::{split_word, Num, NumType, Op};
use readback::portset::PortSet;
use readback::reader::Reader;
use readback::split::Split;
use readback::term::{FanKind, Pattern, Tag, Term};

fn name(text: &str) -> Name {
    Name::new(text)
}

fn var(text: &str) -> Term {
    Term::Var { nam: name(text) }
}

fn bind(text: &str) -> Pattern {
    Pattern::Var(Some(name(text)))
}

fn lam(pat: Pattern, bod: Term) -> Term {
    Term::Lam { tag: Tag::Static, pat: Box::new(pat), bod: Box::new(bod) }
}

fn app(fun: Term, arg: Term) -> Term {
    Term::App { tag: Tag::Static, fun: Box::new(fun), arg: Box::new(arg) }
}

fn tup(els: Vec<Term>) -> Term {
    Term::Fan { fan: FanKind::Tup, tag: Tag::Static, els }
}

fn fan_pattern(els: Vec<Pattern>) -> Pattern {
    Pattern::Fan(FanKind::Dup, Tag::Auto, els)
}

/// let {x y} = 0
fn split() -> Split {
    Split {
        fan: FanKind::Dup,
        tag: Tag::Auto,
        fst: Some(name("x")),
        snd: Some(name("y")),
        val: Term::Num { val: Num::from_bits(1) },
    }
}

fn let_split(nxt: Term) -> Term {
    Term::Let {
        pat: Box::new(fan_pattern(vec![bind("x"), bind("y")])),
        val: Box::new(Term::Num { val: Num::from_bits(1) }),
        nxt: Box::new(nxt),
    }
}

/// Inserts the split around all the uses of its variables.
fn insert(mut term: Term) -> Term {
    let mut split = split();
    let uses = term.insert_split(&mut split, usize::MAX).unwrap();
    assert_eq!(term.insert_split(&mut split, uses), None);
    assert_eq!(split.fst, None);
    assert_eq!(split.val, Term::Error);
    term
}

#[test]
fn split_goes_to_the_lowest_common_ancestor() {
    // f (\z (x y)): the application of x to y holds both uses.
    let term = app(var("f"), lam(bind("z"), app(var("x"), var("y"))));
    let expected = app(var("f"), lam(bind("z"), let_split(app(var("x"), var("y")))));
    assert_eq!(insert(term), expected);
    // (x, \z y): only the whole pair does.
    let term = || tup(vec![var("x"), lam(bind("z"), var("y"))]);
    assert_eq!(insert(term()), let_split(term()));
}

#[test]
fn split_with_one_use_goes_right_before_it() {
    let term = tup(vec![var("f"), app(var("f"), var("y"))]);
    let expected = tup(vec![var("f"), app(var("f"), let_split(var("y")))]);
    assert_eq!(insert(term), expected);
}

#[test]
fn split_without_uses_goes_to_the_first_leaf() {
    let term = app(var("f"), var("g"));
    assert_eq!(insert(term), app(let_split(var("f")), var("g")));
}

#[test]
fn split_counts_the_uses() {
    let mut term = app(app(var("x"), var("y")), tup(vec![var("x"), var("z"), Term::Era]));
    let mut split = split();
    assert_eq!(term.insert_split(&mut split, 4), Some(3));
    assert_eq!(term, app(app(var("x"), var("y")), tup(vec![var("x"), var("z"), Term::Era])));
    // A lower threshold is reached further down.
    assert_eq!(term.insert_split(&mut split, 2), None);
    let expected = app(
        let_split(app(var("x"), var("y"))),
        tup(vec![var("x"), var("z"), Term::Era]),
    );
    assert_eq!(term, expected);
}

#[test]
fn split_in_a_switch() {
    let swt = |fst: Term, snd: Term| Term::Swt {
        arg: Box::new(var("n")),
        bnd: Some(name("n")),
        with: vec![],
        pred: None,
        arms: vec![fst, snd],
    };
    let term = swt(var("f"), app(var("x"), var("y")));
    assert_eq!(insert(term), swt(var("f"), let_split(app(var("x"), var("y")))));
    let term = || swt(var("x"), var("y"));
    assert_eq!(insert(term()), let_split(term()));
}

fn unscoped_of(term: &Term, scope: &[&str], names: &[&str]) -> Vec<bool> {
    let mut unscoped = NameSet::new();
    let mut scope: Vec<Name> = scope.iter().map(|text| name(text)).collect();
    let before = scope.len();
    term.collect_unscoped(&mut unscoped, &mut scope);
    assert_eq!(scope.len(), before);
    names.iter().map(|text| unscoped.contains(&name(text))).collect()
}

#[test]
fn free_variables_are_collected() {
    let term = app(lam(bind("a"), app(var("a"), var("b"))), var("a"));
    assert_eq!(unscoped_of(&term, &[], &["a", "b", "c"]), vec![true, true, false]);
    assert_eq!(unscoped_of(&term, &["b"], &["a", "b", "c"]), vec![true, false, false]);
}

#[test]
fn value_of_a_let_is_out_of_its_scope() {
    let term = Term::Let {
        pat: Box::new(fan_pattern(vec![bind("a"), bind("b")])),
        val: Box::new(var("a")),
        nxt: Box::new(app(var("b"), var("c"))),
    };
    assert_eq!(unscoped_of(&term, &[], &["a", "b", "c"]), vec![true, false, true]);
}

#[test]
fn predecessor_is_in_scope_in_the_second_arm_only() {
    let swt = |fst: Term, snd: Term| Term::Swt {
        arg: Box::new(var("n")),
        bnd: Some(name("n")),
        with: vec![],
        pred: None,
        arms: vec![fst, snd],
    };
    let term = swt(Term::Era, var("n-1"));
    assert_eq!(unscoped_of(&term, &[], &["n", "n-1"]), vec![true, false]);
    let term = swt(var("n-1"), Term::Era);
    assert_eq!(unscoped_of(&term, &[], &["n", "n-1"]), vec![true, true]);
}

#[test]
fn unscoped_variables_are_marked_at_both_ends() {
    let mut unscoped = NameSet::new();
    unscoped.insert(name("a"));
    let mut term = app(
        lam(fan_pattern(vec![bind("a"), bind("b"), Pattern::Var(None)]), var("b")),
        var("a"),
    );
    term.apply_unscoped(&unscoped);
    let expected = app(
        lam(
            fan_pattern(vec![Pattern::Chn(name("a")), bind("b"), Pattern::Var(None)]),
            var("b"),
        ),
        Term::Link { nam: name("a") },
    );
    assert_eq!(term, expected);
}

#[test]
fn marked_term_has_no_free_variables() {
    let mut term = app(lam(bind("a"), app(var("a"), var("b"))), var("a"));
    let mut unscoped = NameSet::new();
    term.collect_unscoped(&mut unscoped, &mut Vec::new());
    term.apply_unscoped(&unscoped);
    assert_eq!(unscoped_of(&term, &[], &["a", "b"]), vec![false, false]);
}

#[test]
fn variable_is_renamed_unless_it_is_bound_again() {
    let mut term = tup(vec![var("a"), lam(bind("a"), var("a")), lam(bind("b"), var("a"))]);
    term.subst(&name("a"), &name("c"));
    let expected = tup(vec![var("c"), lam(bind("a"), var("a")), lam(bind("b"), var("c"))]);
    assert_eq!(term, expected);
}

#[test]
fn port_keeps_its_name() {
    let mut names = NameGen::default();
    assert_eq!(names.var_name(Port(5, 1)).as_str(), "a");
    assert_eq!(names.var_name(Port(5, 2)).as_str(), "b");
    assert_eq!(names.var_name(Port(5, 1)).as_str(), "a");
    assert_eq!(names.id_counter, 2);
}

#[test]
fn unique_name_is_the_name_of_no_port() {
    let mut names = NameGen::new();
    assert_eq!(names.var_name(Port(5, 1)).as_str(), "a");
    assert_eq!(names.unique().as_str(), "b");
    assert_eq!(names.unique().as_str(), "c");
    assert_eq!(names.var_name(Port(5, 2)).as_str(), "d");
}

#[test]
fn declaration_that_is_erased_has_no_name() {
    let mut net = INet::new();
    let con = net.new_node(NodeKind::Ctr(CtrKind::Con(None)));
    let era = net.new_node(NodeKind::Era);
    net.link(Port(con, 1), Port(era, 0));
    let mut names = NameGen::new();
    assert_eq!(names.decl_name(&net, Port(con, 1)), None);
    assert_eq!(names.id_counter, 0);
    assert_eq!(names.decl_name(&net, Port(con, 2)), Some(name("a")));
}

#[test]
fn names_of_numbers() {
    assert_eq!(Name::from_id(0).as_str(), "a");
    assert_eq!(Name::from_id(25).as_str(), "z");
    assert_eq!(Name::from_id(26).as_str(), "ab");
    assert_eq!(Name::from_id(27).as_str(), "bb");
    assert_eq!(Name::from_id(26 * 26).as_str(), "aab");
    assert_eq!(name("ab").pred().as_str(), "ab-1");
    assert_eq!(Name::ellipsis().as_str(), "...");
}

#[test]
fn errors_have_messages() {
    assert_eq!(
        ReadbackError::InvalidNumericMatch.message(),
        "Encountered an invalid 'switch'."
    );
    assert_eq!(
        ReadbackError::InvalidNumericOp.message(),
        "Encountered an invalid numeric operation."
    );
    assert_eq!(
        ReadbackError::ReachedRoot.message(),
        "Unable to interpret the HVM result as a valid Bend term. (Reached Root)"
    );
    assert_eq!(
        ReadbackError::Cyclic.message(),
        "Unable to interpret the HVM result as a valid Bend term. (Cyclic Term)"
    );
}

#[test]
fn report_counts_every_error() {
    let net = INet::new();
    let book = Book::new();
    let labels = Labels::new();
    let mut reader = Reader::new(&net, &book, &labels, true);
    let mut diagnostics = Diagnostics::new();
    reader.report_errors(&mut diagnostics);
    assert!(diagnostics.diagnostics.is_empty());
    for _ in 0..12 {
        reader.error(ReadbackError::Cyclic);
    }
    reader.error(ReadbackError::InvalidNumericOp);
    reader.report_errors(&mut diagnostics);
    let mut messages: Vec<String> = Vec::new();
    for diagnostic in diagnostics.diagnostics {
        assert_eq!(diagnostic.severity, Severity::Warning);
        assert_eq!(diagnostic.origin, DiagnosticOrigin::Readback);
        messages.push(diagnostic.message);
    }
    messages.sort();
    assert_eq!(
        messages,
        vec![
            "Encountered an invalid numeric operation.".to_string(),
            "Unable to interpret the HVM result as a valid Bend term. (Cyclic Term) (12 occurrences)"
                .to_string(),
        ]
    );
}

#[test]
fn errors_are_counted_one_by_one() {
    let errors = vec![ReadbackError::Cyclic, ReadbackError::ReachedRoot, ReadbackError::Cyclic];
    assert_eq!(count_error(&errors, ReadbackError::Cyclic), 2);
    assert_eq!(count_error(&errors, ReadbackError::InvalidNumericOp), 0);
    assert_eq!(to_decimal(0), "0");
    assert_eq!(to_decimal(1203), "1203");
}

#[test]
fn words_of_numbers() {
    assert_eq!(Num::from_bits_and_type(5, NumType::U24).bits, 0x51);
    assert_eq!(Num::from_bits_and_type(0xff00_0005, NumType::F24).bits, 0x53);
    assert_eq!(Num::from_bits_and_type(0x00ff_ffff, NumType::I24).bits, 0x0fff_fff2);
    assert_eq!(split_word(0x1000_0034), (true, 4, 3));
    assert_eq!(split_word(0xefff_fff1), (false, 1, 0x00ff_ffff));
    assert_eq!(NumType::from_native_tag(2), NumType::I24);
    assert_eq!(NumType::F24.native_tag(), 3);
}

#[test]
fn operators_of_tags() {
    let ints = [
        Op::ADD, Op::SUB, Op::MUL, Op::DIV, Op::REM, Op::EQL, Op::NEQ, Op::LTN, Op::GTN, Op::AND,
        Op::OR, Op::XOR,
    ];
    for (i, op) in ints.iter().enumerate() {
        assert_eq!(Op::from_native_tag(4 + i as u32, NumType::U24), *op);
        assert_eq!(Op::from_native_tag(4 + i as u32, NumType::I24), *op);
    }
    assert_eq!(Op::from_native_tag(0xc, NumType::F24), Op::GTN);
    assert_eq!(Op::from_native_tag(0xd, NumType::F24), Op::ATN);
    assert_eq!(Op::from_native_tag(0xe, NumType::F24), Op::LOG);
    assert_eq!(Op::from_native_tag(0xf, NumType::F24), Op::POW);
}

#[test]
fn tags_of_labels() {
    let mut labels = LabelGenerator::new();
    labels.insert(4, name("x"));
    assert_eq!(labels.to_tag(Some(4)), Tag::Named(name("x")));
    assert_eq!(labels.to_tag(Some(5)), Tag::Numeric(5));
    assert_eq!(labels.to_tag(None), Tag::Static);
    let mut both = Labels::new();
    both.dup.insert(1, name("d"));
    assert_eq!(both.fan_tag(FanKind::Dup, Some(1)), Tag::Named(name("d")));
    assert_eq!(both.fan_tag(FanKind::Tup, Some(1)), Tag::Numeric(1));
}

#[test]
fn set_of_ports() {
    let mut set = PortSet::new();
    assert!(set.is_empty());
    assert!(set.insert(Port(1, 2)));
    assert!(!set.insert(Port(1, 2)));
    assert!(set.insert(Port(2, 1)));
    set.remove(Port(1, 2));
    assert!(!set.is_empty());
    set.remove(Port(2, 1));
    assert!(set.is_empty());
}

#[test]
fn links_go_both_ways() {
    let mut net = INet::new();
    let con = net.new_node(NodeKind::Ctr(CtrKind::Con(None)));
    assert_eq!(con, 1);
    assert_eq!(net.enter_port(Port(con, 2)), Port(con, 2));
    net.link(Port::root(), Port(con, 0));
    assert_eq!(net.enter_port(Port::root()), Port(con, 0));
    assert_eq!(net.enter_port(Port(con, 0)), Port(0, 1));
    assert_eq!(net.node(con).kind, NodeKind::Ctr(CtrKind::Con(None)));
}
