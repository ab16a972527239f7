use proplogic::cnf::{Cnf, Disj};
use proplogic::parser::{ParsedStatement, Parser};

fn statement(line: &str) -> ParsedStatement {
    Parser::new(String::from(line)).expr()
}

/// Takes a fact into the base; tells whether it made the base contradictory.
fn tell(kb: &mut Cnf, line: &str) -> bool {
    match statement(line) {
        ParsedStatement::Fact(s) => kb.learn(&s.cnf()),
        _ => panic!("not a fact: {}", line),
    }
}

fn ask(kb: &Cnf, line: &str) -> bool {
    match statement(line) {
        ParsedStatement::Question(s) => kb.contains_all(&s.cnf()),
        _ => panic!("not a question: {}", line),
    }
}

#[test]
fn fact_then_question() {
    let mut kb = Cnf::new();
    assert!(!tell(&mut kb, "P"));
    assert!(ask(&kb, "P?"));
}

#[test]
fn contradiction_resets_base() {
    let mut kb = Cnf::new();
    assert!(!tell(&mut kb, "P"));
    assert!(tell(&mut kb, "!P"));
    assert!(kb.terms().is_empty());
    assert!(!ask(&kb, "P?"));
}

#[test]
fn modus_ponens() {
    let mut kb = Cnf::new();
    assert!(!tell(&mut kb, "P -> Q"));
    assert!(!tell(&mut kb, "P"));
    assert!(kb.contains(&Disj::fact('Q')));
    assert!(ask(&kb, "Q?"));
}

#[test]
fn contradiction_by_resolution_chain() {
    let mut kb = Cnf::new();
    assert!(tell(&mut kb, "(P | Q) & (!P | Q) & (!Q)"));
    assert!(kb.terms().is_empty());
}

#[test]
fn equivalence_then_fact() {
    let mut kb = Cnf::new();
    assert!(!tell(&mut kb, "P <-> Q"));
    assert!(!tell(&mut kb, "P"));
    assert!(ask(&kb, "Q?"));
}

#[test]
fn containment_is_not_entailment() {
    let mut kb = Cnf::new();
    assert!(!tell(&mut kb, "P"));
    assert!(!ask(&kb, "P | Q?"));
}

#[test]
fn learn_keeps_consistent_facts() {
    let mut kb = Cnf::new();
    assert!(!kb.learn(&Cnf::of_vec(&vec![Disj::implies('P', 'Q'), Disj::implies('Q', 'R')])));
    assert!(kb.contains(&Disj::implies('P', 'R')));
    assert!(!kb.learn(&Cnf::of_vec(&vec![Disj::fact('P')])));
    assert!(kb.contains(&Disj::fact('R')));
    assert!(kb.learn(&Cnf::of_vec(&vec![Disj::fact_not('R')])));
    assert!(kb.terms().is_empty());
}
