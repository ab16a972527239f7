use vstd::prelude::*;
use crate::cnf::{Clause, Cnf, Disj, clause_sat, combination, empty_clause};

verus! {

/// A propositional statement over single-character symbols.
pub enum Stmt {
    /// The contradictory statement, false.
    Cont,
    /// The tautological statement, true.
    Taut,
    /// An atomic symbol.
    Symbol(char),
    /// The negation of a statement.
    Not(Box<Stmt>),
    /// The conjunction of two statements.
    And(Box<Stmt>, Box<Stmt>),
    /// The disjunction of two statements.
    Or(Box<Stmt>, Box<Stmt>),
    /// The implication of the right statement by the left one.
    Implies(Box<Stmt>, Box<Stmt>),
    /// The equivalence of two statements.
    Equiv(Box<Stmt>, Box<Stmt>),
}

/// `!a`.
pub open spec fn not_of(a: Stmt) -> Stmt {
    Stmt::Not(Box::new(a))
}

/// `a & b`.
pub open spec fn and_of(a: Stmt, b: Stmt) -> Stmt {
    Stmt::And(Box::new(a), Box::new(b))
}

/// `a | b`.
pub open spec fn or_of(a: Stmt, b: Stmt) -> Stmt {
    Stmt::Or(Box::new(a), Box::new(b))
}

/// The truth value of `s` when exactly the symbols of `t` are true.
pub open spec fn eval(s: Stmt, t: Set<char>) -> bool
    decreases s,
{
    match s {
        Stmt::Cont => false,
        Stmt::Taut => true,
        Stmt::Symbol(c) => t.contains(c),
        Stmt::Not(o) => !eval(*o, t),
        Stmt::And(l, r) => eval(*l, t) && eval(*r, t),
        Stmt::Or(l, r) => eval(*l, t) || eval(*r, t),
        Stmt::Implies(l, r) => !eval(*l, t) || eval(*r, t),
        Stmt::Equiv(l, r) => eval(*l, t) == eval(*r, t),
    }
}

/// A set of clauses holds under `t` when each of its clauses does.
pub open spec fn cnf_sat(k: Set<Clause>, t: Set<char>) -> bool {
    forall|d: Clause| #[trigger] k.contains(d) ==> clause_sat(d, t)
}

/// `s` holds no implication and no equivalence.
pub open spec fn no_arrows(s: Stmt) -> bool
    decreases s,
{
    match s {
        Stmt::Not(o) => no_arrows(*o),
        Stmt::And(l, r) => no_arrows(*l) && no_arrows(*r),
        Stmt::Or(l, r) => no_arrows(*l) && no_arrows(*r),
        Stmt::Implies(_, _) => false,
        Stmt::Equiv(_, _) => false,
        _ => true,
    }
}

/// Negation normal form: no arrows, and every negation wraps a symbol.
pub open spec fn nnf(s: Stmt) -> bool
    decreases s,
{
    match s {
        Stmt::Not(o) => *o is Symbol,
        Stmt::And(l, r) => nnf(*l) && nnf(*r),
        Stmt::Or(l, r) => nnf(*l) && nnf(*r),
        Stmt::Implies(_, _) => false,
        Stmt::Equiv(_, _) => false,
        _ => true,
    }
}

/// A disjunction of literals and constants.
pub open spec fn clause_shaped(s: Stmt) -> bool
    decreases s,
{
    match s {
        Stmt::Or(l, r) => clause_shaped(*l) && clause_shaped(*r),
        Stmt::Not(o) => *o is Symbol,
        Stmt::Symbol(_) => true,
        Stmt::Taut => true,
        Stmt::Cont => true,
        _ => false,
    }
}

/// A conjunction of clause-shaped statements.
pub open spec fn cnf_shaped(s: Stmt) -> bool
    decreases s,
{
    match s {
        Stmt::And(l, r) => cnf_shaped(*l) && cnf_shaped(*r),
        _ => clause_shaped(s),
    }
}

/// Step one of normalization: `a -> b` becomes `!a | b`, and `a <-> b`
/// becomes `(!a | b) & (!b | a)`.
pub open spec fn expanded(s: Stmt) -> Stmt
    decreases s,
{
    match s {
        Stmt::Not(o) => not_of(expanded(*o)),
        Stmt::And(l, r) => and_of(expanded(*l), expanded(*r)),
        Stmt::Or(l, r) => or_of(expanded(*l), expanded(*r)),
        Stmt::Implies(l, r) => or_of(not_of(expanded(*l)), expanded(*r)),
        Stmt::Equiv(l, r) => and_of(
            or_of(not_of(expanded(*l)), expanded(*r)),
            or_of(not_of(expanded(*r)), expanded(*l)),
        ),
        _ => s,
    }
}

/// Step two: the constants are absorbed, so that the result is a constant or
/// holds no constant.
pub open spec fn simplified(s: Stmt) -> Stmt
    decreases s,
{
    match s {
        Stmt::Not(o) => {
            let a = simplified(*o);
            if a is Cont {
                Stmt::Taut
            } else if a is Taut {
                Stmt::Cont
            } else {
                not_of(a)
            }
        },
        Stmt::And(l, r) => {
            let a = simplified(*l);
            let b = simplified(*r);
            if a is Cont || b is Cont {
                Stmt::Cont
            } else if a is Taut {
                b
            } else if b is Taut {
                a
            } else {
                and_of(a, b)
            }
        },
        Stmt::Or(l, r) => {
            let a = simplified(*l);
            let b = simplified(*r);
            if a is Taut || b is Taut {
                Stmt::Taut
            } else if a is Cont {
                b
            } else if b is Cont {
                a
            } else {
                or_of(a, b)
            }
        },
        _ => s,
    }
}

/// Step three: negations are pushed down to the symbols.
pub open spec fn pushed(s: Stmt) -> Stmt
    decreases s,
{
    match s {
        Stmt::Not(o) => negated(*o),
        Stmt::And(l, r) => and_of(pushed(*l), pushed(*r)),
        Stmt::Or(l, r) => or_of(pushed(*l), pushed(*r)),
        _ => s,
    }
}

/// The negation of `s`, with negations pushed down to the symbols.
pub open spec fn negated(s: Stmt) -> Stmt
    decreases s,
{
    match s {
        Stmt::Not(o) => pushed(*o),
        Stmt::And(l, r) => or_of(negated(*l), negated(*r)),
        Stmt::Or(l, r) => and_of(negated(*l), negated(*r)),
        Stmt::Symbol(_) => not_of(s),
        Stmt::Taut => Stmt::Cont,
        Stmt::Cont => Stmt::Taut,
        _ => s,
    }
}

/// One pass of step four: each disjunction whose rewritten operands include a
/// conjunction is distributed over it, once.
pub open spec fn distributed(s: Stmt) -> Stmt
    decreases s,
{
    match s {
        Stmt::Or(l, r) => {
            let a = distributed(*l);
            let b = distributed(*r);
            match a {
                Stmt::And(ll, lr) => match b {
                    Stmt::And(rl, rr) => and_of(
                        and_of(and_of(or_of(*ll, *rl), or_of(*ll, *rr)), or_of(*lr, *rl)),
                        or_of(*lr, *rr),
                    ),
                    _ => and_of(or_of(*ll, b), or_of(*lr, b)),
                },
                _ => match b {
                    Stmt::And(rl, rr) => and_of(or_of(a, *rl), or_of(a, *rr)),
                    _ => or_of(a, b),
                },
            }
        },
        Stmt::And(l, r) => and_of(distributed(*l), distributed(*r)),
        Stmt::Not(o) => not_of(distributed(*o)),
        _ => s,
    }
}

/// A size that each distribution pass that changes a statement makes smaller.
pub open spec fn weight(s: Stmt) -> nat
    decreases s,
{
    match s {
        Stmt::Not(o) => weight(*o) + 1,
        Stmt::And(l, r) => weight(*l) + weight(*r) + 1,
        Stmt::Or(l, r) => weight(*l) * weight(*r),
        Stmt::Implies(l, r) => weight(*l) + weight(*r) + 1,
        Stmt::Equiv(l, r) => weight(*l) + weight(*r) + 1,
        _ => 2,
    }
}

/// Step four: distribution passes repeated until one leaves the statement unchanged.
pub open spec fn settled(s: Stmt) -> Stmt
    decreases weight(s),
    via settled_decreases
{
    let n = distributed(s);
    if n == s {
        s
    } else {
        settled(n)
    }
}

#[via_fn]
proof fn settled_decreases(s: Stmt) {
    lemma_distributed_weight(s);
}

/// Steps one to four.
pub open spec fn normal_form(s: Stmt) -> Stmt {
    settled(pushed(simplified(expanded(s))))
}

/// Step five on one clause: its literals, or none when it is a tautology.
pub open spec fn clause_of(s: Stmt) -> Option<Clause>
    decreases s,
{
    match s {
        Stmt::Taut => None,
        Stmt::Cont => Some(empty_clause()),
        Stmt::Symbol(c) => Some((set![c], Set::empty())),
        Stmt::Not(o) => match *o {
            Stmt::Symbol(c) => Some((Set::empty(), set![c])),
            _ => None,
        },
        Stmt::Or(l, r) => match (clause_of(*l), clause_of(*r)) {
            (Some(a), Some(b)) => combination(a, b),
            _ => None,
        },
        _ => None,
    }
}

/// Step five: the clauses of a conjunction of clauses.
pub open spec fn clauses_of(s: Stmt) -> Set<Clause>
    decreases s,
{
    match s {
        Stmt::And(l, r) => clauses_of(*l).union(clauses_of(*r)),
        _ => match clause_of(s) {
            Some(d) => set![d],
            None => Set::empty(),
        },
    }
}

/// The clause set that normalization gives for `s`.
pub open spec fn cnf_of(s: Stmt) -> Set<Clause> {
    clauses_of(normal_form(s))
}

proof fn lemma_weight_min(s: Stmt)
    ensures
        weight(s) >= 2,
    decreases s,
{
    match s {
        Stmt::Not(o) => lemma_weight_min(*o),
        Stmt::And(l, r) => {
            lemma_weight_min(*l);
            lemma_weight_min(*r);
        },
        Stmt::Or(l, r) => {
            lemma_weight_min(*l);
            lemma_weight_min(*r);
            assert(weight(*l) * weight(*r) >= 2) by (nonlinear_arith)
                requires
                    weight(*l) >= 2,
                    weight(*r) >= 2,
            ;
        },
        Stmt::Implies(l, r) => {
            lemma_weight_min(*l);
            lemma_weight_min(*r);
        },
        Stmt::Equiv(l, r) => {
            lemma_weight_min(*l);
            lemma_weight_min(*r);
        },
        _ => {},
    }
}

proof fn lemma_distributed_weight(s: Stmt)
    ensures
        weight(distributed(s)) <= weight(s),
        distributed(s) != s ==> weight(distributed(s)) < weight(s),
    decreases s,
{
    match s {
        Stmt::Or(l, r) => {
            reveal_with_fuel(weight, 4);
            lemma_distributed_weight(*l);
            lemma_distributed_weight(*r);
            let a = distributed(*l);
            let b = distributed(*r);
            lemma_weight_min(a);
            lemma_weight_min(b);
            lemma_weight_min(*l);
            lemma_weight_min(*r);
            let (wa, wb, wl, wr) = (weight(a), weight(b), weight(*l), weight(*r));
            assert(wa * wb <= wl * wr) by (nonlinear_arith)
                requires
                    wa <= wl,
                    wb <= wr,
                    wa >= 2,
                    wb >= 2,
            ;
            assert((wa < wl || wb < wr) ==> wa * wb < wl * wr) by (nonlinear_arith)
                requires
                    wa <= wl,
                    wb <= wr,
                    wa >= 2,
                    wb >= 2,
            ;
            match a {
                Stmt::And(ll, lr) => {
                    lemma_weight_min(*ll);
                    lemma_weight_min(*lr);
                    let (x, y) = (weight(*ll), weight(*lr));
                    match b {
                        Stmt::And(rl, rr) => {
                            lemma_weight_min(*rl);
                            lemma_weight_min(*rr);
                            let (u, v) = (weight(*rl), weight(*rr));
                            assert(x * u + x * v + y * u + y * v + 3 < (x + y + 1) * (u + v + 1))
                                by (nonlinear_arith)
                                requires
                                    x >= 2,
                                    y >= 2,
                                    u >= 2,
                                    v >= 2,
                            ;
                        },
                        _ => {
                            assert(x * wb + y * wb + 1 < (x + y + 1) * wb) by (nonlinear_arith)
                                requires
                                    wb >= 2,
                            ;
                        },
                    }
                },
                _ => match b {
                    Stmt::And(rl, rr) => {
                        lemma_weight_min(*rl);
                        lemma_weight_min(*rr);
                        let (u, v) = (weight(*rl), weight(*rr));
                        assert(wa * u + wa * v + 1 < wa * (u + v + 1)) by (nonlinear_arith)
                            requires
                                wa >= 2,
                        ;
                    },
                    _ => {},
                },
            }
        },
        Stmt::And(l, r) => {
            lemma_distributed_weight(*l);
            lemma_distributed_weight(*r);
        },
        Stmt::Not(o) => {
            lemma_distributed_weight(*o);
        },
        _ => {},
    }
}

proof fn lemma_expanded(s: Stmt, t: Set<char>)
    ensures
        no_arrows(expanded(s)),
        eval(expanded(s), t) == eval(s, t),
    decreases s,
{
    match s {
        Stmt::Not(o) => {
            lemma_expanded(*o, t);
            assert(expanded(s) == not_of(expanded(*o)));
            assert(eval(not_of(expanded(*o)), t) == !eval(expanded(*o), t));
        },
        Stmt::And(l, r) => {
            lemma_expanded(*l, t);
            lemma_expanded(*r, t);
        },
        Stmt::Or(l, r) => {
            lemma_expanded(*l, t);
            lemma_expanded(*r, t);
        },
        Stmt::Implies(l, r) => {
            reveal_with_fuel(eval, 2);
            reveal_with_fuel(no_arrows, 2);
            lemma_expanded(*l, t);
            lemma_expanded(*r, t);
        },
        Stmt::Equiv(l, r) => {
            reveal_with_fuel(eval, 3);
            reveal_with_fuel(no_arrows, 3);
            lemma_expanded(*l, t);
            lemma_expanded(*r, t);
        },
        _ => {},
    }
}

proof fn lemma_simplified(s: Stmt, t: Set<char>)
    requires
        no_arrows(s),
    ensures
        no_arrows(simplified(s)),
        eval(simplified(s), t) == eval(s, t),
    decreases s,
{
    match s {
        Stmt::Not(o) => lemma_simplified(*o, t),
        Stmt::And(l, r) => {
            lemma_simplified(*l, t);
            lemma_simplified(*r, t);
        },
        Stmt::Or(l, r) => {
            lemma_simplified(*l, t);
            lemma_simplified(*r, t);
        },
        _ => {},
    }
}

proof fn lemma_pushed(s: Stmt, t: Set<char>)
    requires
        no_arrows(s),
    ensures
        nnf(pushed(s)),
        nnf(negated(s)),
        eval(pushed(s), t) == eval(s, t),
        eval(negated(s), t) == !eval(s, t),
    decreases s,
{
    match s {
        Stmt::Not(o) => lemma_pushed(*o, t),
        Stmt::And(l, r) => {
            lemma_pushed(*l, t);
            lemma_pushed(*r, t);
        },
        Stmt::Or(l, r) => {
            lemma_pushed(*l, t);
            lemma_pushed(*r, t);
        },
        _ => {},
    }
}

proof fn lemma_distributed(s: Stmt, t: Set<char>)
    requires
        nnf(s),
    ensures
        nnf(distributed(s)),
        eval(distributed(s), t) == eval(s, t),
    decreases s,
{
    match s {
        Stmt::Or(l, r) => {
            reveal_with_fuel(eval, 4);
            reveal_with_fuel(nnf, 4);
            lemma_distributed(*l, t);
            lemma_distributed(*r, t);
        },
        Stmt::And(l, r) => {
            lemma_distributed(*l, t);
            lemma_distributed(*r, t);
        },
        Stmt::Not(o) => {
            lemma_distributed(*o, t);
        },
        _ => {},
    }
}

proof fn lemma_settled(s: Stmt, t: Set<char>)
    requires
        nnf(s),
    ensures
        nnf(settled(s)),
        distributed(settled(s)) == settled(s),
        eval(settled(s), t) == eval(s, t),
    decreases weight(s),
{
    let n = distributed(s);
    if n != s {
        lemma_distributed(s, t);
        lemma_distributed_weight(s);
        lemma_settled(n, t);
    }
}

proof fn lemma_fixpoint_shape(s: Stmt)
    requires
        nnf(s),
        distributed(s) == s,
    ensures
        cnf_shaped(s),
    decreases s,
{
    match s {
        Stmt::Or(l, r) => {
            let a = distributed(*l);
            let b = distributed(*r);
            if !(a is And) && !(b is And) {
                assert(a == *l && b == *r);
                lemma_fixpoint_shape(*l);
                lemma_fixpoint_shape(*r);
            }
        },
        Stmt::And(l, r) => {
            lemma_fixpoint_shape(*l);
            lemma_fixpoint_shape(*r);
        },
        _ => {},
    }
}

/// A clause built from the literals of two clauses holds when one of them does.
proof fn lemma_union_sat(a: Clause, b: Clause, t: Set<char>)
    ensures
        clause_sat((a.0.union(b.0), a.1.union(b.1)), t) == (clause_sat(a, t) || clause_sat(b, t)),
{
    let u = (a.0.union(b.0), a.1.union(b.1));
    if clause_sat(u, t) {
        if exists|c: char| u.0.contains(c) && t.contains(c) {
            let c = choose|c: char| u.0.contains(c) && t.contains(c);
            assert(a.0.contains(c) || b.0.contains(c));
        } else {
            let c = choose|c: char| u.1.contains(c) && !t.contains(c);
            assert(a.1.contains(c) || b.1.contains(c));
        }
    }
    if clause_sat(a, t) {
        if exists|c: char| a.0.contains(c) && t.contains(c) {
            let c = choose|c: char| a.0.contains(c) && t.contains(c);
            assert(u.0.contains(c));
        } else {
            let c = choose|c: char| a.1.contains(c) && !t.contains(c);
            assert(u.1.contains(c));
        }
    }
    if clause_sat(b, t) {
        if exists|c: char| b.0.contains(c) && t.contains(c) {
            let c = choose|c: char| b.0.contains(c) && t.contains(c);
            assert(u.0.contains(c));
        } else {
            let c = choose|c: char| b.1.contains(c) && !t.contains(c);
            assert(u.1.contains(c));
        }
    }
}

proof fn lemma_clause_of(s: Stmt, t: Set<char>)
    requires
        clause_shaped(s),
    ensures
        match clause_of(s) {
            Some(d) => clause_sat(d, t) == eval(s, t),
            None => eval(s, t),
        },
    decreases s,
{
    match s {
        Stmt::Cont => {
            assert(!(exists|x: char| Set::<char>::empty().contains(x) && t.contains(x)));
            assert(!(exists|x: char| Set::<char>::empty().contains(x) && !t.contains(x)));
            assert(clause_of(s) == Some(empty_clause()));
            assert(!clause_sat(empty_clause(), t));
        },
        Stmt::Symbol(c) => {
            assert(set![c].contains(c));
            assert(clause_of(s) == Some((set![c], Set::<char>::empty())));
            assert(!(exists|x: char| Set::<char>::empty().contains(x) && !t.contains(x)));
            if exists|x: char| set![c].contains(x) && t.contains(x) {
                let x = choose|x: char| set![c].contains(x) && t.contains(x);
                assert(x == c);
            }
        },
        Stmt::Not(o) => {
            let c = o->Symbol_0;
            assert(set![c].contains(c));
            assert(clause_of(s) == Some((Set::<char>::empty(), set![c])));
            assert(!(exists|x: char| Set::<char>::empty().contains(x) && t.contains(x)));
            assert(eval(*o, t) == t.contains(c));
            if exists|x: char| set![c].contains(x) && !t.contains(x) {
                let x = choose|x: char| set![c].contains(x) && !t.contains(x);
                assert(x == c);
            }
        },
        Stmt::Or(l, r) => {
            lemma_clause_of(*l, t);
            lemma_clause_of(*r, t);
            if clause_of(*l) is Some && clause_of(*r) is Some {
                let a = clause_of(*l)->Some_0;
                let b = clause_of(*r)->Some_0;
                assert(clause_of(s) == combination(a, b));
                lemma_union_sat(a, b, t);
                let p = a.0.union(b.0);
                let n = a.1.union(b.1);
                if !p.disjoint(n) {
                    let x = choose|x: char| p.contains(x) && n.contains(x);
                    if t.contains(x) {
                        assert(p.contains(x) && t.contains(x));
                    } else {
                        assert(n.contains(x) && !t.contains(x));
                    }
                    assert(clause_sat((p, n), t));
                    assert(eval(s, t));
                } else {
                    assert(clause_of(s) == Some((p, n)));
                }
            } else {
                assert(clause_of(s) is None);
                assert(eval(s, t));
            }
        },
        _ => {},
    }
}

proof fn lemma_clauses_of(s: Stmt, t: Set<char>)
    requires
        cnf_shaped(s),
    ensures
        cnf_sat(clauses_of(s), t) == eval(s, t),
    decreases s,
{
    match s {
        Stmt::And(l, r) => {
            lemma_clauses_of(*l, t);
            lemma_clauses_of(*r, t);
            let (a, b) = (clauses_of(*l), clauses_of(*r));
            if !cnf_sat(a, t) {
                let d = choose|d: Clause| a.contains(d) && !clause_sat(d, t);
                assert(a.union(b).contains(d));
            }
            if !cnf_sat(b, t) {
                let d = choose|d: Clause| b.contains(d) && !clause_sat(d, t);
                assert(a.union(b).contains(d));
            }
        },
        _ => {
            lemma_clause_of(s, t);
            if let Some(d) = clause_of(s) {
                assert(set![d].contains(d));
            }
        },
    }
}

/// Normalization keeps the meaning of a statement and yields a conjunction of clauses.
proof fn lemma_normal_form(s: Stmt, t: Set<char>)
    ensures
        cnf_shaped(normal_form(s)),
        eval(normal_form(s), t) == eval(s, t),
{
    lemma_expanded(s, t);
    let a = expanded(s);
    lemma_simplified(a, t);
    let b = simplified(a);
    lemma_pushed(b, t);
    let c = pushed(b);
    lemma_settled(c, t);
    lemma_fixpoint_shape(settled(c));
}

/// The clause set of a statement is logically equivalent to it: under every
/// assignment, all its clauses hold exactly when the statement does.
pub proof fn lemma_cnf_equivalent(s: Stmt, t: Set<char>)
    ensures
        cnf_sat(cnf_of(s), t) == eval(s, t),
{
    lemma_normal_form(s, t);
    lemma_clauses_of(normal_form(s), t);
}

/// `a -> b` normalizes to the same clause set as `!a | b`.
pub proof fn lemma_implication_as_disjunction(a: Stmt, b: Stmt)
    ensures
        cnf_of(Stmt::Implies(Box::new(a), Box::new(b))) == cnf_of(or_of(not_of(a), b)),
{
    reveal_with_fuel(expanded, 2);
    assert(expanded(Stmt::Implies(Box::new(a), Box::new(b))) == expanded(or_of(not_of(a), b)));
}

/// `a <-> b` normalizes to the same clause set as `(!a | b) & (!b | a)`.
pub proof fn lemma_equivalence_as_conjunction(a: Stmt, b: Stmt)
    ensures
        cnf_of(Stmt::Equiv(Box::new(a), Box::new(b))) == cnf_of(
            and_of(or_of(not_of(a), b), or_of(not_of(b), a)),
        ),
{
    reveal_with_fuel(expanded, 3);
    assert(expanded(Stmt::Equiv(Box::new(a), Box::new(b))) == expanded(
        and_of(or_of(not_of(a), b), or_of(not_of(b), a)),
    ));
}

impl Stmt {
    /// The tautology, true.
    pub fn taut() -> (r: Stmt)
        ensures
            r == Stmt::Taut,
    {
        Stmt::Taut
    }

    /// The contradiction, false.
    pub fn cont() -> (r: Stmt)
        ensures
            r == Stmt::Cont,
    {
        Stmt::Cont
    }

    /// The symbol `c`.
    pub fn symbol(c: char) -> (r: Stmt)
        ensures
            r == Stmt::Symbol(c),
    {
        Stmt::Symbol(c)
    }

    /// `!self`.
    pub fn not(self) -> (r: Stmt)
        ensures
            r == not_of(self),
    {
        Stmt::Not(Box::new(self))
    }

    /// `self & e`.
    pub fn and(self, e: Stmt) -> (r: Stmt)
        ensures
            r == and_of(self, e),
    {
        Stmt::And(Box::new(self), Box::new(e))
    }

    /// `self | e`.
    pub fn or(self, e: Stmt) -> (r: Stmt)
        ensures
            r == or_of(self, e),
    {
        Stmt::Or(Box::new(self), Box::new(e))
    }

    /// `self -> e`.
    pub fn implies(self, e: Stmt) -> (r: Stmt)
        ensures
            r == Stmt::Implies(Box::new(self), Box::new(e)),
    {
        Stmt::Implies(Box::new(self), Box::new(e))
    }

    /// `self <-> e`.
    pub fn equiv(self, e: Stmt) -> (r: Stmt)
        ensures
            r == Stmt::Equiv(Box::new(self), Box::new(e)),
    {
        Stmt::Equiv(Box::new(self), Box::new(e))
    }

    /// A copy of this statement.
    pub fn copy(&self) -> (r: Stmt)
        ensures
            r == *self,
        decreases self,
    {
        match self {
            Stmt::Cont => Stmt::Cont,
            Stmt::Taut => Stmt::Taut,
            Stmt::Symbol(c) => Stmt::Symbol(*c),
            Stmt::Not(o) => Stmt::Not(Box::new(o.copy())),
            Stmt::And(l, r) => Stmt::And(Box::new(l.copy()), Box::new(r.copy())),
            Stmt::Or(l, r) => Stmt::Or(Box::new(l.copy()), Box::new(r.copy())),
            Stmt::Implies(l, r) => Stmt::Implies(Box::new(l.copy()), Box::new(r.copy())),
            Stmt::Equiv(l, r) => Stmt::Equiv(Box::new(l.copy()), Box::new(r.copy())),
        }
    }

    /// Whether this statement and `o` are the same tree.
    pub fn same(&self, o: &Stmt) -> (r: bool)
        ensures
            r == (*self == *o),
        decreases self,
    {
        match (self, o) {
            (Stmt::Cont, Stmt::Cont) => true,
            (Stmt::Taut, Stmt::Taut) => true,
            (Stmt::Symbol(a), Stmt::Symbol(b)) => *a == *b,
            (Stmt::Not(a), Stmt::Not(b)) => a.same(b),
            (Stmt::And(a, b), Stmt::And(c, d)) => a.same(c) && b.same(d),
            (Stmt::Or(a, b), Stmt::Or(c, d)) => a.same(c) && b.same(d),
            (Stmt::Implies(a, b), Stmt::Implies(c, d)) => a.same(c) && b.same(d),
            (Stmt::Equiv(a, b), Stmt::Equiv(c, d)) => a.same(c) && b.same(d),
            _ => false,
        }
    }

    fn is_cont(&self) -> (r: bool)
        ensures
            r == (*self is Cont),
    {
        match self {
            Stmt::Cont => true,
            _ => false,
        }
    }

    fn is_taut(&self) -> (r: bool)
        ensures
            r == (*self is Taut),
    {
        match self {
            Stmt::Taut => true,
            _ => false,
        }
    }

    /// Replaces implications and equivalences by conjunctions and disjunctions.
    fn extrapolate(self) -> (r: Self)
        ensures
            r == expanded(self),
        decreases self,
    {
        match self {
            Stmt::Not(o) => o.extrapolate().not(),
            Stmt::And(l, r) => l.extrapolate().and(r.extrapolate()),
            Stmt::Or(l, r) => l.extrapolate().or(r.extrapolate()),
            Stmt::Implies(l, r) => l.extrapolate().not().or(r.extrapolate()),
            Stmt::Equiv(l, r) => {
                let l2 = l.copy();
                let r2 = r.copy();
                let a = l.extrapolate().not().or(r.extrapolate());
                let b = r2.extrapolate().not().or(l2.extrapolate());
                a.and(b)
            },
            s => s,
        }
    }

    /// Absorbs the constants: the result is a constant or holds none.
    fn extract_cont_taut(self) -> (r: Self)
        requires
            no_arrows(self),
        ensures
            r == simplified(self),
        decreases self,
    {
        match self {
            Stmt::Not(o) => {
                let a = o.extract_cont_taut();
                if a.is_cont() {
                    Stmt::Taut
                } else if a.is_taut() {
                    Stmt::Cont
                } else {
                    a.not()
                }
            },
            Stmt::And(l, r) => {
                let a = l.extract_cont_taut();
                let b = r.extract_cont_taut();
                if a.is_cont() || b.is_cont() {
                    Stmt::Cont
                } else if a.is_taut() {
                    b
                } else if b.is_taut() {
                    a
                } else {
                    a.and(b)
                }
            },
            Stmt::Or(l, r) => {
                let a = l.extract_cont_taut();
                let b = r.extract_cont_taut();
                if a.is_taut() || b.is_taut() {
                    Stmt::Taut
                } else if a.is_cont() {
                    b
                } else if b.is_cont() {
                    a
                } else {
                    a.or(b)
                }
            },
            s => s,
        }
    }

    /// Pushes negations down to the symbols.
    fn demorgan_pos(self) -> (r: Self)
        requires
            no_arrows(self),
        ensures
            r == pushed(self),
        decreases self,
    {
        match self {
            Stmt::Not(o) => o.demorgan_neg(),
            Stmt::And(l, r) => l.demorgan_pos().and(r.demorgan_pos()),
            Stmt::Or(l, r) => l.demorgan_pos().or(r.demorgan_pos()),
            s => s,
        }
    }

    /// The negation of this statement, with negations pushed down to the symbols.
    fn demorgan_neg(self) -> (r: Self)
        requires
            no_arrows(self),
        ensures
            r == negated(self),
        decreases self,
    {
        match self {
            Stmt::Not(o) => o.demorgan_pos(),
            Stmt::And(l, r) => l.demorgan_neg().or(r.demorgan_neg()),
            Stmt::Or(l, r) => l.demorgan_neg().and(r.demorgan_neg()),
            Stmt::Symbol(c) => Stmt::Symbol(c).not(),
            Stmt::Taut => Stmt::Cont,
            Stmt::Cont => Stmt::Taut,
            s => s,
        }
    }

    /// One distribution pass of disjunctions over conjunctions.
    fn dist_disj(self) -> (r: Self)
        ensures
            r == distributed(self),
        decreases self,
    {
        match self {
            Stmt::Or(l, r) => {
                let a = l.dist_disj();
                let b = r.dist_disj();
                match a {
                    Stmt::And(ll, lr) => match b {
                        Stmt::And(rl, rr) => {
                            let p = ll.copy().or(rl.copy());
                            let q = ll.or(rr.copy());
                            let u = lr.copy().or(*rl);
                            let v = lr.or(*rr);
                            p.and(q).and(u).and(v)
                        },
                        b => {
                            let p = ll.or(b.copy());
                            let q = lr.or(b);
                            p.and(q)
                        },
                    },
                    a => match b {
                        Stmt::And(rl, rr) => {
                            let p = a.copy().or(*rl);
                            let q = a.or(*rr);
                            p.and(q)
                        },
                        b => a.or(b),
                    },
                }
            },
            Stmt::And(l, r) => l.dist_disj().and(r.dist_disj()),
            Stmt::Not(o) => o.dist_disj().not(),
            s => s,
        }
    }

    /// Steps one to four of normalization: a conjunction of clauses.
    fn base_cnf(self) -> (r: Self)
        ensures
            r == normal_form(self),
    {
        let ghost s0 = self;
        let e = self.extrapolate();
        proof {
            lemma_expanded(s0, Set::empty());
        }
        let e = e.extract_cont_taut();
        proof {
            lemma_simplified(expanded(s0), Set::empty());
        }
        let mut e = e.demorgan_pos();
        loop
            invariant
                settled(e) == normal_form(s0),
                s0 == self,
            decreases weight(e),
        {
            let n = e.copy().dist_disj();
            if n.same(&e) {
                assert(settled(e) == e);
                return n;
            }
            proof {
                lemma_distributed_weight(e);
            }
            e = n;
        }
    }

    /// The clause of a disjunction of literals and constants, or `None` when
    /// it is a tautology.
    fn disj(&self) -> (r: Option<Disj>)
        requires
            clause_shaped(*self),
        ensures
            match r {
                Some(d) => d.wf() && clause_of(*self) == Some(d@),
                None => clause_of(*self).is_none(),
            },
        decreases self,
    {
        match self {
            Stmt::Taut => None,
            Stmt::Cont => Some(Disj::contradiction()),
            Stmt::Symbol(c) => Some(Disj::fact(*c)),
            Stmt::Not(o) => match &**o {
                Stmt::Symbol(c) => Some(Disj::fact_not(*c)),
                _ => None,
            },
            Stmt::Or(l, r) => match (l.disj(), r.disj()) {
                (Some(a), Some(b)) => a.combine(&b),
                _ => None,
            },
            _ => None,
        }
    }

    /// Adds the clauses of this conjunction of clauses to `out`.
    fn gather(&self, out: &mut Cnf)
        requires
            cnf_shaped(*self),
            old(out).wf(),
        ensures
            final(out).wf(),
            final(out)@ == old(out)@.union(clauses_of(*self)),
        decreases self,
    {
        match self {
            Stmt::And(l, r) => {
                l.gather(out);
                r.gather(out);
                assert(final(out)@ =~= old(out)@.union(clauses_of(*self)));
            },
            _ => {
                match self.disj() {
                    Some(d) => {
                        out.insert(d);
                    },
                    None => {},
                }
                assert(final(out)@ =~= old(out)@.union(clauses_of(*self)));
            },
        }
    }

    /// Converts this statement to conjunctive normal form and returns its
    /// clauses, which hold under exactly the assignments under which it holds.
    pub fn cnf(&self) -> (r: Cnf)
        ensures
            r.wf(),
            r@ == cnf_of(*self),
            forall|t: Set<char>| cnf_sat(r@, t) == eval(*self, t),
    {
        let mut out = Cnf::new();
        let n = self.copy().base_cnf();
        proof {
            lemma_normal_form(*self, Set::empty());
        }
        n.gather(&mut out);
        assert(out@ =~= cnf_of(*self));
        assert forall|t: Set<char>| cnf_sat(out@, t) == eval(*self, t) by {
            lemma_cnf_equivalent(*self, t);
        }
        out
    }
}

impl Clone for Stmt {
    fn clone(&self) -> (r: Stmt)
        ensures
            r == *self,
    {
        self.copy()
    }
}

impl PartialEq for Stmt {
    fn eq(&self, other: &Stmt) -> bool {
        self.same(other)
    }
}

impl vstd::std_specs::cmp::PartialEqSpecImpl for Stmt {
    open spec fn obeys_eq_spec() -> bool {
        true
    }

    open spec fn eq_spec(&self, other: &Stmt) -> bool {
        *self == *other
    }
}

impl Eq for Stmt {

}

} // verus!
