use proplogic::parser::{ParsedStatement, Parser};
use proplogic::stmt::Stmt;

fn read(line: &str) -> ParsedStatement {
    Parser::new(String::from(line)).expr()
}

fn sym(c: char) -> Stmt {
    Stmt::symbol(c)
}

fn fact(line: &str) -> Stmt {
    match read(line) {
        ParsedStatement::Fact(s) => s,
        _ => panic!("not a fact: {}", line),
    }
}

fn error(line: &str) -> (String, usize) {
    match read(line) {
        ParsedStatement::Error(m, i) => (m, i),
        _ => panic!("not an error: {}", line),
    }
}

#[test]
fn precedence_and_associativity() {
    assert!(fact("P | Q & R") == sym('P').or(sym('Q').and(sym('R'))));
    assert!(fact("P & Q -> R") == sym('P').and(sym('Q').implies(sym('R'))));
    assert!(fact("P -> Q -> R") == sym('P').implies(sym('Q').implies(sym('R'))));
    assert!(fact("P <-> Q") == sym('P').equiv(sym('Q')));
    assert!(fact("P <- Q") == sym('Q').implies(sym('P')));
    assert!(fact(" ( P|Q ) &\tR ") == sym('P').or(sym('Q')).and(sym('R')));
}

#[test]
fn constants_and_negation() {
    assert!(fact("!*") == Stmt::taut().not());
    assert!(fact("~ | !!a") == Stmt::cont().or(sym('a').not().not()));
}

#[test]
fn question_is_read() {
    match read("P -> Q?") {
        ParsedStatement::Question(s) => assert!(s == sym('P').implies(sym('Q'))),
        _ => panic!("expected a question"),
    }
    match read("P ?") {
        ParsedStatement::Question(s) => assert!(s == sym('P')),
        _ => panic!("expected a question"),
    }
}

#[test]
fn blank_line_stops() {
    assert!(matches!(read(""), ParsedStatement::Stop));
    assert!(matches!(read("  \t"), ParsedStatement::Stop));
}

#[test]
fn syntax_errors() {
    assert_eq!(error("P? Q"), (String::from("Expected end"), 2));
    assert_eq!(error("P Q"), (String::from("Expected '?' or end"), 2));
    assert_eq!(error("(P"), (String::from("Expected ')'"), 2));
    assert_eq!(error("P &"), (String::from("Expected expression"), 3));
    assert_eq!(error("!"), (String::from("Expected expression"), 1));
    assert_eq!(error("P -> )"), (String::from("Expected expression"), 5));
    assert_eq!(error(")"), (String::from("Expected expression"), 0));
    assert_eq!(error("P | 1"), (String::from("Expected expression"), 4));
}
