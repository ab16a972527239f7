use proplogic::cnf::{Cnf, Disj};
use proplogic::stmt::Stmt;

fn p() -> Stmt {
    Stmt::symbol('P')
}

fn q() -> Stmt {
    Stmt::symbol('Q')
}

fn r() -> Stmt {
    Stmt::symbol('R')
}

fn eval(s: &Stmt, t: &[char]) -> bool {
    match s {
        Stmt::Cont => false,
        Stmt::Taut => true,
        Stmt::Symbol(c) => t.contains(c),
        Stmt::Not(o) => !eval(o, t),
        Stmt::And(a, b) => eval(a, t) && eval(b, t),
        Stmt::Or(a, b) => eval(a, t) || eval(b, t),
        Stmt::Implies(a, b) => !eval(a, t) || eval(b, t),
        Stmt::Equiv(a, b) => eval(a, t) == eval(b, t),
    }
}

fn holds(k: &Cnf, t: &[char]) -> bool {
    k.terms().iter().all(|d| {
        d.pos().iter().any(|c| t.contains(c)) || d.neg().iter().any(|c| !t.contains(c))
    })
}

fn same_clauses(a: &Cnf, b: &Cnf) -> bool {
    a.contains_all(b) && b.contains_all(a)
}

fn assignments() -> Vec<Vec<char>> {
    let syms = ['P', 'Q', 'R'];
    let mut out = Vec::new();
    for m in 0..8u32 {
        let mut t = Vec::new();
        for (i, c) in syms.iter().enumerate() {
            if m & (1 << i) != 0 {
                t.push(*c);
            }
        }
        out.push(t);
    }
    out
}

#[test]
fn cnf_equivalent_by_truth_table() {
    let cases = vec![
        p().and(q()).or(r()),
        p().or(q().not()).and(r().not().or(p())),
        p().and(q().not()).or(q().and(r())).or(p().not().and(r().not())),
        p().not().or(p()),
        p().and(p().not()),
        p().or(q()).and(p().not().or(r())).or(q().not().and(r())),
        p().implies(q()).equiv(q().not().implies(r())),
        p().not().and(q()).not().or(Stmt::taut().and(r())),
        Stmt::cont().or(p().and(Stmt::taut())),
    ];
    for s in cases.iter() {
        let k = s.cnf();
        for t in assignments() {
            assert_eq!(holds(&k, &t), eval(s, &t));
        }
    }
}

#[test]
fn cnf_distributes_disjunction() {
    let k = p().and(q()).or(r()).cnf();
    let want = Cnf::of_vec(&vec![
        Disj::of_slices(&['P', 'R'], &[]),
        Disj::of_slices(&['Q', 'R'], &[]),
    ]);
    assert!(same_clauses(&k, &want));
    assert_eq!(k.terms().len(), 2);
}

#[test]
fn cnf_of_implication_matches_disjunction() {
    let a = p().and(r());
    let b = q().or(r().not());
    let left = a.clone().implies(b.clone()).cnf();
    let right = a.not().or(b).cnf();
    assert!(same_clauses(&left, &right));
    assert!(same_clauses(&p().implies(q()).cnf(), &Cnf::of_vec(&vec![Disj::implies('P', 'Q')])));
}

#[test]
fn cnf_of_equivalence_matches_conjunction() {
    let a = p().or(q());
    let b = r();
    let left = a.clone().equiv(b.clone()).cnf();
    let right = a.clone().not().or(b.clone()).and(b.not().or(a)).cnf();
    assert!(same_clauses(&left, &right));
    let k = p().equiv(q()).cnf();
    let want = Cnf::of_vec(&vec![Disj::implies('P', 'Q'), Disj::implies('Q', 'P')]);
    assert!(same_clauses(&k, &want));
}

#[test]
fn cnf_drops_tautologies_and_keeps_contradiction() {
    assert!(p().or(p().not()).cnf().terms().is_empty());
    assert!(Stmt::taut().cnf().terms().is_empty());
    let k = Stmt::cont().cnf();
    assert_eq!(k.terms().len(), 1);
    assert!(k.contains(&Disj::contradiction()));
    let k = p().and(Stmt::cont()).cnf();
    assert!(k.contains(&Disj::contradiction()));
}

#[test]
fn cnf_pushes_double_negation() {
    let s = p().and(q()).not().not().not();
    let k = s.cnf();
    let want = Cnf::of_vec(&vec![Disj::of_slices(&[], &['P', 'Q'])]);
    assert!(same_clauses(&k, &want));
}

#[test]
fn statement_equality_is_structural() {
    assert!(p().and(q()) == p().and(q()));
    assert!(p().and(q()) != q().and(p()));
    assert!(p().implies(q()) != p().not().or(q()));
    assert!(p().copy() == p());
}
