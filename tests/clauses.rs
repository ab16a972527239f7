use proplogic::cnf::{Cnf, Disj};

fn sorted(v: &Vec<char>) -> Vec<char> {
    let mut w = v.clone();
    w.sort();
    w
}

#[test]
fn new_drops_symbol_in_both_polarities() {
    let d = Disj::of_slices(&['P', 'Q'], &['Q']);
    assert_eq!(sorted(d.pos()), vec!['P']);
    assert_eq!(sorted(d.neg()), Vec::<char>::new());
}

#[test]
fn new_from_vectors_keeps_disjoint_symbols() {
    let d = Disj::new(vec!['P', 'Q', 'P'], vec!['Q', 'R']);
    assert_eq!(sorted(d.pos()), vec!['P']);
    assert_eq!(sorted(d.neg()), vec!['R']);
}

#[test]
fn empty_sets_give_contradiction() {
    let d = Disj::of_slices(&[], &[]);
    assert!(d.is_contradiction());
    assert!(Disj::contradiction().is_contradiction());
    assert!(!Disj::fact('P').is_contradiction());
}

#[test]
fn polarity_queries() {
    let d = Disj::implies('P', 'Q');
    assert!(d.is_neg('P'));
    assert!(d.is_pos('Q'));
    assert!(!d.is_pos('P'));
    assert!(d.is_unknown('R'));
    assert!(!d.is_unknown('Q'));
}

#[test]
fn resolve_over_shared_symbol() {
    let a = Disj::of_slices(&['P', 'Q'], &[]);
    let b = Disj::of_slices(&['R'], &['Q']);
    let r = a.resolve(&b, 'Q').unwrap();
    assert!(r == Disj::of_slices(&['P', 'R'], &[]));
}

#[test]
fn resolve_to_empty_clause() {
    let a = Disj::fact('P');
    let b = Disj::fact_not('P');
    let r = a.resolve(&b, 'P').unwrap();
    assert!(r.is_contradiction());
}

#[test]
fn resolve_not_applicable() {
    let a = Disj::of_slices(&['P', 'Q'], &[]);
    let b = Disj::of_slices(&['R'], &['Q']);
    assert!(a.resolve(&b, 'S').is_none());
    assert!(a.resolve(&b, 'P').is_none());
    assert!(a.resolve(&Disj::fact('Q'), 'Q').is_none());
    assert!(Disj::fact_not('Q').resolve(&b, 'Q').is_none());
}

#[test]
fn resolve_rejects_tautological_result() {
    let a = Disj::of_slices(&['P', 'Q'], &[]);
    let b = Disj::of_slices(&[], &['P', 'Q']);
    assert!(a.resolve(&b, 'P').is_none());
    assert!(a.resolve(&b, 'Q').is_none());
    assert!(a.resolve_vec(&b).is_empty());
}

#[test]
fn combine_clauses() {
    let r = Disj::fact('P').combine(&Disj::fact('Q')).unwrap();
    assert!(r == Disj::of_slices(&['P', 'Q'], &[]));
    assert!(Disj::fact('P').combine(&Disj::fact_not('P')).is_none());
}

#[test]
fn resolve_vec_lists_resolvents() {
    let a = Disj::implies('P', 'Q');
    let b = Disj::implies('Q', 'R');
    let out = a.resolve_vec(&b);
    assert_eq!(out.len(), 1);
    assert!(out[0] == Disj::implies('P', 'R'));
}

#[test]
fn equality_ignores_order() {
    assert!(Disj::of_slices(&['P', 'Q'], &['R']) == Disj::of_slices(&['Q', 'P'], &['R']));
    assert!(Disj::of_slices(&['P'], &['R']) != Disj::of_slices(&['R'], &['P']));
    let d = Disj::of_slices(&['P'], &['R']);
    assert!(d.clone() == d);
}

#[test]
fn insert_reports_change() {
    let mut k = Cnf::new();
    assert!(k.insert(Disj::fact('P')));
    assert!(!k.insert(Disj::fact('P')));
    assert!(k.contains(&Disj::fact('P')));
    assert!(!k.contains(&Disj::fact_not('P')));
    assert_eq!(k.terms().len(), 1);
    k.clear();
    assert!(k.terms().is_empty());
}

#[test]
fn insert_all_and_contains_all() {
    let mut k = Cnf::of_vec(&vec![Disj::fact('P'), Disj::fact('P'), Disj::fact('Q')]);
    assert_eq!(k.terms().len(), 2);
    let more = Cnf::of_vec(&vec![Disj::fact('Q'), Disj::fact_not('R')]);
    assert!(!k.contains_all(&more));
    assert!(k.insert_all(&more));
    assert!(!k.insert_all(&more));
    assert!(k.contains_all(&more));
    assert_eq!(k.terms().len(), 3);
}

#[test]
fn resolve_pairs_into_other_set() {
    let k = Cnf::of_vec(&vec![Disj::implies('P', 'Q'), Disj::fact('P')]);
    let mut out = Cnf::new();
    assert!(k.resolve(&mut out));
    assert!(out.contains(&Disj::fact('Q')));
    assert_eq!(out.terms().len(), 1);
    assert!(!k.resolve(&mut out));
}

#[test]
fn saturate_twice_adds_nothing() {
    let mut k = Cnf::of_vec(&vec![
        Disj::implies('P', 'Q'),
        Disj::implies('Q', 'R'),
        Disj::fact('P'),
    ]);
    assert!(k.saturate());
    assert!(k.contains(&Disj::fact('R')));
    assert!(k.contains(&Disj::implies('P', 'R')));
    let n = k.terms().len();
    assert!(!k.saturate());
    assert_eq!(k.terms().len(), n);
}

#[test]
fn complementary_facts_reset_base() {
    let mut k = Cnf::of_vec(&vec![Disj::fact('P'), Disj::fact_not('P')]);
    k.saturate();
    assert!(k.contains(&Disj::contradiction()));
    assert!(k.reset_if_contradictory());
    assert!(k.terms().is_empty());
    assert!(!k.reset_if_contradictory());
}
