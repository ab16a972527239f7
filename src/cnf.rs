use vstd::prelude::*;

verus! {

broadcast use vstd::seq_lib::group_seq_properties;


/// The meaning of a clause: the symbols it states positively and the symbols
/// it states negatively.
pub type Clause = (Set<char>, Set<char>);

/// A clause is satisfied by an assignment (the set of symbols taken to be true)
/// when one of its positive symbols is true or one of its negative symbols is false.
pub open spec fn clause_sat(d: Clause, t: Set<char>) -> bool {
    (exists|c: char| d.0.contains(c) && t.contains(c)) || (exists|c: char|
        d.1.contains(c) && !t.contains(c))
}

/// The clause built from two symbol sets: a symbol found in both is dropped
/// from both, since a clause holding `P | !P` would be a tautology.
pub open spec fn absorbed(p: Set<char>, n: Set<char>) -> Clause {
    (p.difference(n), n.difference(p))
}

/// The empty clause, which no assignment satisfies.
pub open spec fn empty_clause() -> Clause {
    (Set::empty(), Set::empty())
}

/// Whether `c` may serve as pivot between `a` and `b`: it occurs in both,
/// and not with the same polarity on both sides.
pub open spec fn pivot_applies(a: Clause, b: Clause, c: char) -> bool {
    &&& (a.0.contains(c) || a.1.contains(c))
    &&& (b.0.contains(c) || b.1.contains(c))
    &&& !(a.0.contains(c) && b.0.contains(c))
    &&& !(a.1.contains(c) && b.1.contains(c))
}

/// The resolvent of `a` and `b` over the pivot `c`, if the pivot applies and the
/// remaining literals do not collide on some other symbol.
pub open spec fn resolvent(a: Clause, b: Clause, c: char) -> Option<Clause> {
    let p = a.0.union(b.0).remove(c);
    let n = a.1.union(b.1).remove(c);
    if pivot_applies(a, b, c) && p.disjoint(n) {
        Some((p, n))
    } else {
        None
    }
}

/// The union of the literals of `a` and `b`, unless it collides on a symbol.
pub open spec fn combination(a: Clause, b: Clause) -> Option<Clause> {
    let p = a.0.union(b.0);
    let n = a.1.union(b.1);
    if p.disjoint(n) {
        Some((p, n))
    } else {
        None
    }
}

/// Every resolvent of `a` and `b`, over every pivot.
pub open spec fn resolvents(a: Clause, b: Clause) -> Set<Clause> {
    Set::new(|d: Clause| exists|c: char| resolvent(a, b, c) == Some(d))
}

/// The clauses that a sequence of `Disj` stands for.
pub open spec fn views(s: Seq<Disj>) -> Set<Clause> {
    Set::new(|d: Clause| exists|i: int| 0 <= i < s.len() && s[i]@ == d)
}

/// Whether `c` is an element of `v`.
fn in_list(v: &Vec<char>, c: char) -> (r: bool)
    ensures
        r == v@.contains(c),
{
    let mut i: usize = 0;
    while i < v.len()
        invariant
            i <= v.len(),
            forall|k: int| 0 <= k < i ==> v@[k] != c,
        decreases v.len() - i,
    {
        if v[i] == c {
            return true;
        }
        i += 1;
    }
    false
}

/// Appends to `dst` each element of `src` that is neither in `dst` already nor in `avoid`.
fn extend_new(dst: &mut Vec<char>, src: &Vec<char>, avoid: &Vec<char>)
    requires
        old(dst)@.no_duplicates(),
    ensures
        final(dst)@.no_duplicates(),
        final(dst)@.to_set() == old(dst)@.to_set().union(
            src@.to_set().difference(avoid@.to_set()),
        ),
{
    let ghost d0 = dst@;
    let ghost gone = avoid@.to_set();
    let mut i: usize = 0;
    while i < src.len()
        invariant
            i <= src.len(),
            dst@.no_duplicates(),
            gone == avoid@.to_set(),
            dst@.to_set() == d0.to_set().union(src@.subrange(0, i as int).to_set().difference(gone)),
        decreases src.len() - i,
    {
        let c = src[i];
        let ghost before = dst@;
        proof {
            assert(src@.subrange(0, i + 1) =~= src@.subrange(0, i as int).push(c));
            src@.subrange(0, i as int).lemma_push_to_set_commute(c);
        }
        let skip = in_list(avoid, c) || in_list(dst, c);
        assert(skip == (avoid@.contains(c) || before.contains(c)));
        if !skip {
            dst.push(c);
            proof {
                before.lemma_push_to_set_commute(c);
                assert forall|a: int, b: int| 0 <= a < b < dst@.len() implies dst@[a] != dst@[b] by {
                    if b == dst@.len() - 1 {
                        assert(before.contains(dst@[a]));
                    }
                }
            }
        } else {
            assert(dst@ == before);
            assert(before.to_set().contains(c) || gone.contains(c));
        }
        assert(dst@.to_set() =~= d0.to_set().union(src@.subrange(0, i + 1).to_set().difference(gone)));
        i += 1;
    }
    assert(src@.subrange(0, src@.len() as int) =~= src@);
}

/// Whether no element of `a` is an element of `b`.
fn apart(a: &Vec<char>, b: &Vec<char>) -> (r: bool)
    ensures
        r == a@.to_set().disjoint(b@.to_set()),
{
    let mut i: usize = 0;
    while i < a.len()
        invariant
            i <= a.len(),
            forall|k: int| 0 <= k < i ==> !b@.contains(a@[k]),
        decreases a.len() - i,
    {
        if in_list(b, a[i]) {
            assert(a@.to_set().contains(a@[i as int]));
            return false;
        }
        i += 1;
    }
    true
}

/// Whether every element of `a` is an element of `b`.
fn within(a: &Vec<char>, b: &Vec<char>) -> (r: bool)
    ensures
        r == a@.to_set().subset_of(b@.to_set()),
{
    let mut i: usize = 0;
    while i < a.len()
        invariant
            i <= a.len(),
            forall|k: int| 0 <= k < i ==> b@.contains(a@[k]),
        decreases a.len() - i,
    {
        if !in_list(b, a[i]) {
            assert(a@.to_set().contains(a@[i as int]));
            return false;
        }
        i += 1;
    }
    true
}

/// Copies a slice of symbols into a list.
fn list_of(s: &[char]) -> (r: Vec<char>)
    ensures
        r@ == s@,
{
    let mut r: Vec<char> = Vec::new();
    let mut i: usize = 0;
    while i < s.len()
        invariant
            i <= s.len(),
            r@ == s@.subrange(0, i as int),
        decreases s.len() - i,
    {
        r.push(s[i]);
        assert(r@ =~= s@.subrange(0, i + 1));
        i += 1;
    }
    assert(r@ =~= s@);
    r
}

/// Copies a list of symbols.
fn copy_list(v: &Vec<char>) -> (r: Vec<char>)
    ensures
        r@ == v@,
{
    let mut r: Vec<char> = Vec::new();
    let mut i: usize = 0;
    while i < v.len()
        invariant
            i <= v.len(),
            r@ == v@.subrange(0, i as int),
        decreases v.len() - i,
    {
        r.push(v[i]);
        assert(r@ =~= v@.subrange(0, i + 1));
        i += 1;
    }
    assert(r@ =~= v@);
    r
}

/// Adding a `Disj` to a sequence adds its clause to the clauses it stands for.
proof fn lemma_views_push(s: Seq<Disj>, d: Disj)
    ensures
        views(s.push(d)) == views(s).insert(d@),
{
    assert forall|x: Clause| views(s.push(d)).contains(x) <==> views(s).insert(d@).contains(x) by {
        if views(s).contains(x) {
            let i = choose|i: int| 0 <= i < s.len() && s[i]@ == x;
            assert(s.push(d)[i]@ == x);
        }
        if x == d@ {
            assert(s.push(d)[s.len() as int]@ == x);
        }
        if views(s.push(d)).contains(x) && x != d@ {
            let i = choose|i: int| 0 <= i < s.len() + 1 && s.push(d)[i]@ == x;
            assert(s[i]@ == x);
        }
    }
    assert(views(s.push(d)) =~= views(s).insert(d@));
}

/// The resolvents of `a` and `b` over the pivots among the first `n` symbols of `cs`.
spec fn resolvents_over(a: Clause, b: Clause, cs: Seq<char>, n: int) -> Set<Clause> {
    Set::new(|d: Clause| exists|k: int| 0 <= k < n && resolvent(a, b, cs[k]) == Some(d))
}

/// A disjunction of symbols, each stated either positively or negatively.
/// The two polarities are held as duplicate-free lists that share no symbol.
pub struct Disj {
    pos: Vec<char>,
    neg: Vec<char>,
}

impl View for Disj {
    type V = Clause;

    closed spec fn view(&self) -> Clause {
        (self.pos@.to_set(), self.neg@.to_set())
    }
}

impl Disj {
    /// The lists hold no duplicates and no symbol of both polarities.
    pub closed spec fn wf(&self) -> bool {
        &&& self.pos@.no_duplicates()
        &&& self.neg@.no_duplicates()
        &&& self.pos@.to_set().disjoint(self.neg@.to_set())
    }

    /// Builds the clause stating the symbols of `pos` positively and those of
    /// `neg` negatively; a symbol given in both is dropped from both.
    pub fn new(pos: Vec<char>, neg: Vec<char>) -> (r: Disj)
        ensures
            r.wf(),
            r@ == absorbed(pos@.to_set(), neg@.to_set()),
    {
        let mut p: Vec<char> = Vec::new();
        let mut n: Vec<char> = Vec::new();
        extend_new(&mut p, &pos, &neg);
        extend_new(&mut n, &neg, &pos);
        assert(p@.to_set() =~= pos@.to_set().difference(neg@.to_set()));
        assert(n@.to_set() =~= neg@.to_set().difference(pos@.to_set()));
        Disj { pos: p, neg: n }
    }

    /// Builds a clause from slices of positive and negative symbols, as [`Disj::new`] does.
    pub fn of_slices(pos: &[char], neg: &[char]) -> (r: Disj)
        ensures
            r.wf(),
            r@ == absorbed(pos@.to_set(), neg@.to_set()),
    {
        Self::new(list_of(pos), list_of(neg))
    }

    /// The symbols stated positively.
    pub fn pos(&self) -> (r: &Vec<char>)
        ensures
            r@.to_set() == self@.0,
    {
        &self.pos
    }

    /// The symbols stated negatively.
    pub fn neg(&self) -> (r: &Vec<char>)
        ensures
            r@.to_set() == self@.1,
    {
        &self.neg
    }

    /// Whether `term` is stated positively.
    pub fn is_pos(&self, term: char) -> (r: bool)
        ensures
            r == self@.0.contains(term),
    {
        in_list(&self.pos, term)
    }

    /// Whether `term` is stated negatively.
    pub fn is_neg(&self, term: char) -> (r: bool)
        ensures
            r == self@.1.contains(term),
    {
        in_list(&self.neg, term)
    }

    /// Whether `term` does not occur in this clause.
    pub fn is_unknown(&self, term: char) -> (r: bool)
        ensures
            r == (!self@.0.contains(term) && !self@.1.contains(term)),
    {
        !self.is_pos(term) && !self.is_neg(term)
    }

    /// Whether this is the empty clause, which no assignment satisfies.
    pub fn is_contradiction(&self) -> (r: bool)
        ensures
            r == (self@ == empty_clause()),
    {
        let r = self.pos.len() == 0 && self.neg.len() == 0;
        proof {
            if self.pos@.len() > 0 {
                assert(self@.0.contains(self.pos@[0]));
            } else if self.neg@.len() > 0 {
                assert(self@.1.contains(self.neg@[0]));
            } else {
                assert(self@.0 =~= Set::empty());
                assert(self@.1 =~= Set::empty());
            }
        }
        r
    }

    /// Resolves this clause against `other` over the pivot `c`: the literals of
    /// both, without `c`, unless the pivot does not apply or the remaining
    /// literals collide on a symbol.
    pub fn resolve(&self, other: &Self, c: char) -> (r: Option<Disj>)
        requires
            self.wf(),
            other.wf(),
        ensures
            match r {
                Some(d) => d.wf() && resolvent(self@, other@, c) == Some(d@),
                None => resolvent(self@, other@, c).is_none(),
            },
            !pivot_applies(self@, other@, c) ==> r.is_none(),
    {
        if self.is_unknown(c) || other.is_unknown(c) {
            return None;
        }
        if self.is_pos(c) && other.is_pos(c) {
            return None;
        }
        if self.is_neg(c) && other.is_neg(c) {
            return None;
        }
        let pivot: Vec<char> = vec![c];
        assert(pivot@.to_set() =~= set![c]);
        let mut p: Vec<char> = Vec::new();
        extend_new(&mut p, &self.pos, &pivot);
        extend_new(&mut p, &other.pos, &pivot);
        let mut n: Vec<char> = Vec::new();
        extend_new(&mut n, &self.neg, &pivot);
        extend_new(&mut n, &other.neg, &pivot);
        assert(p@.to_set() =~= self@.0.union(other@.0).remove(c));
        assert(n@.to_set() =~= self@.1.union(other@.1).remove(c));
        if !apart(&p, &n) {
            return None;
        }
        Some(Disj { pos: p, neg: n })
    }

    /// The union of the literals of both clauses, unless it would state some
    /// symbol in both polarities.
    pub fn combine(&self, other: &Self) -> (r: Option<Disj>)
        ensures
            match r {
                Some(d) => d.wf() && combination(self@, other@) == Some(d@),
                None => combination(self@, other@).is_none(),
            },
    {
        let none: Vec<char> = Vec::new();
        let mut p: Vec<char> = Vec::new();
        extend_new(&mut p, &self.pos, &none);
        extend_new(&mut p, &other.pos, &none);
        let mut n: Vec<char> = Vec::new();
        extend_new(&mut n, &self.neg, &none);
        extend_new(&mut n, &other.neg, &none);
        assert(p@.to_set() =~= self@.0.union(other@.0));
        assert(n@.to_set() =~= self@.1.union(other@.1));
        if !apart(&p, &n) {
            return None;
        }
        Some(Disj { pos: p, neg: n })
    }

    /// Every resolvent of this clause and `other`, one for each symbol of
    /// either clause over which resolution succeeds.
    pub fn resolve_vec(&self, other: &Self) -> (r: Vec<Disj>)
        requires
            self.wf(),
            other.wf(),
        ensures
            forall|i: int| 0 <= i < r.len() ==> (#[trigger] r[i]).wf(),
            views(r@) == resolvents(self@, other@),
    {
        let none: Vec<char> = Vec::new();
        let mut syms: Vec<char> = Vec::new();
        extend_new(&mut syms, &self.pos, &none);
        extend_new(&mut syms, &self.neg, &none);
        extend_new(&mut syms, &other.pos, &none);
        extend_new(&mut syms, &other.neg, &none);
        let mut out: Vec<Disj> = Vec::new();
        let mut i: usize = 0;
        assert(views(out@) =~= resolvents_over(self@, other@, syms@, 0));
        while i < syms.len()
            invariant
                self.wf(),
                other.wf(),
                i <= syms.len(),
                forall|j: int| 0 <= j < out.len() ==> (#[trigger] out[j]).wf(),
                views(out@) == resolvents_over(self@, other@, syms@, i as int),
            decreases syms.len() - i,
        {
            let c = syms[i];
            let ghost prev = out@;
            match self.resolve(other, c) {
                Some(d) => {
                    out.push(d);
                    proof {
                        lemma_views_push(prev, d);
                    }
                    assert(views(out@) =~= resolvents_over(self@, other@, syms@, i + 1));
                },
                None => {
                    assert(views(out@) =~= resolvents_over(self@, other@, syms@, i + 1));
                },
            }
            i += 1;
        }
        assert forall|d: Clause| resolvents(self@, other@).contains(d) implies views(out@).contains(d) by {
            let c = choose|c: char| resolvent(self@, other@, c) == Some(d);
            assert(syms@.to_set().contains(c));
            let k = choose|k: int| 0 <= k < syms.len() && syms@[k] == c;
            assert(resolvents_over(self@, other@, syms@, syms.len() as int).contains(d));
        }
        assert(views(out@) =~= resolvents(self@, other@));
        out
    }

    /// The clause `!l | r`, which states that `l` implies `r`.
    pub fn implies(l: char, r: char) -> (d: Disj)
        ensures
            d.wf(),
            d@ == absorbed(set![r], set![l]),
    {
        proof {
            assert(seq![r].to_set() =~= set![r]);
            assert(seq![l].to_set() =~= set![l]);
        }
        Self::of_slices(&[r], &[l])
    }

    /// The clause stating `t`.
    pub fn fact(t: char) -> (d: Disj)
        ensures
            d.wf(),
            d@ == (set![t], Set::<char>::empty()),
    {
        let d = Self::of_slices(&[t], &[]);
        assert(d@.0 =~= set![t]);
        assert(d@.1 =~= Set::<char>::empty());
        d
    }

    /// The clause stating `!t`.
    pub fn fact_not(t: char) -> (d: Disj)
        ensures
            d.wf(),
            d@ == (Set::<char>::empty(), set![t]),
    {
        let d = Self::of_slices(&[], &[t]);
        assert(d@.0 =~= Set::<char>::empty());
        assert(d@.1 =~= set![t]);
        d
    }

    /// A copy of this clause.
    pub fn duplicate(&self) -> (r: Disj)
        ensures
            r@ == self@,
            r.wf() == self.wf(),
    {
        Disj { pos: copy_list(&self.pos), neg: copy_list(&self.neg) }
    }

    /// The empty clause.
    pub fn contradiction() -> (d: Disj)
        ensures
            d.wf(),
            d@ == empty_clause(),
    {
        let d = Disj { pos: Vec::new(), neg: Vec::new() };
        assert(d@.0 =~= Set::<char>::empty());
        assert(d@.1 =~= Set::<char>::empty());
        d
    }
}

impl Clone for Disj {
    fn clone(&self) -> (r: Disj)
        ensures
            r@ == self@,
            r.wf() == self.wf(),
    {
        self.duplicate()
    }
}

impl PartialEq for Disj {
    fn eq(&self, other: &Disj) -> bool {
        let r = within(&self.pos, &other.pos) && within(&other.pos, &self.pos) && within(
            &self.neg,
            &other.neg,
        ) && within(&other.neg, &self.neg);
        proof {
            if r {
                assert(self@.0 =~= other@.0);
                assert(self@.1 =~= other@.1);
            }
        }
        r
    }
}

impl vstd::std_specs::cmp::PartialEqSpecImpl for Disj {
    open spec fn obeys_eq_spec() -> bool {
        true
    }

    open spec fn eq_spec(&self, other: &Disj) -> bool {
        self@ == other@
    }
}

impl Eq for Disj {

}

/// Every resolvent of two distinct clauses of `k`.
pub open spec fn pair_resolvents(k: Set<Clause>) -> Set<Clause> {
    Set::new(
        |d: Clause|
            exists|a: Clause, b: Clause|
                #![trigger k.contains(a), k.contains(b), resolvents(a, b)]
                k.contains(a) && k.contains(b) && a != b && resolvents(a, b).contains(d),
    )
}

/// The resolvents of the pairs `(s[p], s[q])`, `p < q`, that come before
/// `(i, j)` in the order in which [`Cnf::resolve`] visits them.
spec fn visited_resolvents(s: Seq<Disj>, i: int, j: int) -> Set<Clause> {
    Set::new(
        |d: Clause|
            exists|p: int, q: int|
                0 <= p < q < s.len() && (p < i || (p == i && q < j)) && #[trigger] resolvents(
                    s[p]@,
                    s[q]@,
                ).contains(d),
    )
}

/// Resolution does not depend on which of the two clauses comes first.
pub proof fn lemma_resolvents_symmetric(a: Clause, b: Clause)
    ensures
        resolvents(a, b) == resolvents(b, a),
{
    assert forall|c: char| resolvent(a, b, c) == resolvent(b, a, c) by {
        assert(a.0.union(b.0) =~= b.0.union(a.0));
        assert(a.1.union(b.1) =~= b.1.union(a.1));
    }
    assert(resolvents(a, b) =~= resolvents(b, a));
}

/// A set of clauses holds every resolvent of two distinct clauses of its own.
pub open spec fn closed_under_resolution(k: Set<Clause>) -> bool {
    pair_resolvents(k).subset_of(k)
}

/// `k` is the resolution closure of `k0`: the least set of clauses that holds
/// `k0` and is closed under resolution.
pub open spec fn saturation_of(k0: Set<Clause>, k: Set<Clause>) -> bool {
    &&& k0.subset_of(k)
    &&& closed_under_resolution(k)
    &&& forall|x: Set<Clause>| #[trigger]
        closed_under_resolution(x) && k0.subset_of(x) ==> k.subset_of(x)
}

/// The clauses whose symbols all lie in `syms`.
spec fn clauses_over(syms: Set<char>) -> Set<Clause> {
    Set::new(|d: Clause| d.0.subset_of(syms) && d.1.subset_of(syms))
}

/// The symbols of the clauses of a sequence.
spec fn seq_symbols(s: Seq<Disj>) -> Set<char>
    decreases s.len(),
{
    if s.len() == 0 {
        Set::empty()
    } else {
        seq_symbols(s.drop_last()).union(s.last()@.0).union(s.last()@.1)
    }
}

proof fn lemma_seq_symbols(s: Seq<Disj>)
    ensures
        seq_symbols(s).finite(),
        clauses_over(seq_symbols(s)).finite(),
        views(s).subset_of(clauses_over(seq_symbols(s))),
    decreases s.len(),
{
    if s.len() > 0 {
        let t = s.drop_last();
        lemma_seq_symbols(t);
        vstd::seq_lib::seq_to_set_is_finite(s.last().pos@);
        vstd::seq_lib::seq_to_set_is_finite(s.last().neg@);
        assert forall|d: Clause| views(s).contains(d) implies clauses_over(seq_symbols(s)).contains(
            d,
        ) by {
            let i = choose|i: int| 0 <= i < s.len() && s[i]@ == d;
            if i < t.len() {
                assert(views(t).contains(t[i]@));
            }
        }
    }
    lemma_clauses_over_finite(seq_symbols(s));
}

proof fn lemma_clauses_over_finite(syms: Set<char>)
    requires
        syms.finite(),
    ensures
        clauses_over(syms).finite(),
    decreases syms.len(),
{
    if syms =~= Set::<char>::empty() {
        let e = (Set::<char>::empty(), Set::<char>::empty());
        assert forall|d: Clause| clauses_over(syms).contains(d) implies set![e].contains(d) by {
            assert(d.0 =~= Set::<char>::empty());
            assert(d.1 =~= Set::<char>::empty());
        }
        vstd::set_lib::lemma_set_subset_finite(set![e], clauses_over(syms));
    } else {
        let x = choose|x: char| syms.contains(x);
        let rest = syms.remove(x);
        lemma_clauses_over_finite(rest);
        let base = clauses_over(rest);
        let f1 = |d: Clause| (d.0.insert(x), d.1);
        let f2 = |d: Clause| (d.0, d.1.insert(x));
        let f3 = |d: Clause| (d.0.insert(x), d.1.insert(x));
        base.lemma_map_finite(f1);
        base.lemma_map_finite(f2);
        base.lemma_map_finite(f3);
        let all = base.union(base.map(f1)).union(base.map(f2)).union(base.map(f3));
        assert forall|d: Clause| clauses_over(syms).contains(d) implies all.contains(d) by {
            let d0 = (d.0.remove(x), d.1.remove(x));
            assert(base.contains(d0));
            if d.0.contains(x) {
                assert(d.0.remove(x).insert(x) =~= d.0);
            } else {
                assert(d.0.remove(x) =~= d.0);
            }
            if d.1.contains(x) {
                assert(d.1.remove(x).insert(x) =~= d.1);
            } else {
                assert(d.1.remove(x) =~= d.1);
            }
            if d.0.contains(x) && d.1.contains(x) {
                assert(f3(d0) == d);
                assert(base.map(f3).contains(d));
            } else if d.0.contains(x) {
                assert(f1(d0) == d);
                assert(base.map(f1).contains(d));
            } else if d.1.contains(x) {
                assert(f2(d0) == d);
                assert(base.map(f2).contains(d));
            } else {
                assert(d0 == d);
            }
        }
        vstd::set_lib::lemma_set_subset_finite(all, clauses_over(syms));
    }
}

/// A resolvent mentions only symbols of the two clauses it comes from.
proof fn lemma_pair_resolvents_over(k: Set<Clause>, syms: Set<char>)
    requires
        k.subset_of(clauses_over(syms)),
    ensures
        pair_resolvents(k).subset_of(clauses_over(syms)),
{
    assert forall|d: Clause| pair_resolvents(k).contains(d) implies clauses_over(syms).contains(
        d,
    ) by {
        let (a, b) = choose|a: Clause, b: Clause|
            #![trigger k.contains(a), k.contains(b), resolvents(a, b)]
            k.contains(a) && k.contains(b) && a != b && resolvents(a, b).contains(d);
        let c = choose|c: char| resolvent(a, b, c) == Some(d);
        assert(clauses_over(syms).contains(a));
        assert(clauses_over(syms).contains(b));
    }
}

/// More clauses give more resolvents.
proof fn lemma_pair_resolvents_monotone(k: Set<Clause>, x: Set<Clause>)
    requires
        k.subset_of(x),
    ensures
        pair_resolvents(k).subset_of(pair_resolvents(x)),
{
    assert forall|d: Clause| pair_resolvents(k).contains(d) implies pair_resolvents(x).contains(
        d,
    ) by {
        let (a, b) = choose|a: Clause, b: Clause|
            #![trigger k.contains(a), k.contains(b), resolvents(a, b)]
            k.contains(a) && k.contains(b) && a != b && resolvents(a, b).contains(d);
        assert(x.contains(a) && x.contains(b));
    }
}

/// Saturating twice adds nothing the second time: the closure of a closure is
/// itself.
pub proof fn lemma_saturation_stable(k0: Set<Clause>, k1: Set<Clause>, k2: Set<Clause>)
    requires
        saturation_of(k0, k1),
        saturation_of(k1, k2),
    ensures
        k2 == k1,
{
    assert(closed_under_resolution(k1) && k1.subset_of(k1));
    assert(k2 =~= k1);
}

/// Once a set holds the clauses `c` and `!c`, its saturation holds the empty
/// clause.
pub proof fn lemma_complementary_facts_contradict(k0: Set<Clause>, k: Set<Clause>, c: char)
    requires
        k0.contains((set![c], Set::<char>::empty())),
        k0.contains((Set::<char>::empty(), set![c])),
        saturation_of(k0, k),
    ensures
        k.contains(empty_clause()),
{
    let a = (set![c], Set::<char>::empty());
    let b = (Set::<char>::empty(), set![c]);
    assert(a.0.union(b.0).remove(c) =~= Set::<char>::empty());
    assert(a.1.union(b.1).remove(c) =~= Set::<char>::empty());
    assert(resolvent(a, b, c) == Some(empty_clause()));
    assert(resolvents(a, b).contains(empty_clause()));
    assert(a != b) by {
        assert(a.0.contains(c));
    }
    assert(k.contains(a) && k.contains(b));
    assert(pair_resolvents(k).contains(empty_clause()));
}

/// A conjunction of clauses, held as a list with no two equal clauses.
pub struct Cnf {
    terms: Vec<Disj>,
}

impl View for Cnf {
    type V = Set<Clause>;

    closed spec fn view(&self) -> Set<Clause> {
        views(self.terms@)
    }
}

impl Cnf {
    /// Every clause is well formed and no clause is held twice.
    pub closed spec fn wf(&self) -> bool {
        &&& forall|i: int| 0 <= i < self.terms.len() ==> (#[trigger] self.terms[i]).wf()
        &&& forall|i: int, j: int|
            0 <= i < j < self.terms.len() ==> self.terms[i]@ != self.terms[j]@
    }

    /// The empty conjunction.
    pub fn new() -> (r: Cnf)
        ensures
            r.wf(),
            r@ == Set::<Clause>::empty(),
    {
        let r = Cnf { terms: Vec::new() };
        assert(r@ =~= Set::<Clause>::empty());
        r
    }

    /// The conjunction of the clauses of `vec`.
    pub fn of_vec(vec: &Vec<Disj>) -> (r: Cnf)
        requires
            forall|i: int| 0 <= i < vec.len() ==> (#[trigger] vec[i]).wf(),
        ensures
            r.wf(),
            r@ == views(vec@),
    {
        let mut cnf = Self::new();
        let mut i: usize = 0;
        while i < vec.len()
            invariant
                i <= vec.len(),
                forall|k: int| 0 <= k < vec.len() ==> (#[trigger] vec[k]).wf(),
                cnf.wf(),
                cnf@ == views(vec@.subrange(0, i as int)),
            decreases vec.len() - i,
        {
            cnf.insert(vec[i].duplicate());
            proof {
                assert(vec@.subrange(0, i + 1) =~= vec@.subrange(0, i as int).push(vec[i as int]));
                lemma_views_push(vec@.subrange(0, i as int), vec[i as int]);
            }
            i += 1;
        }
        assert(vec@.subrange(0, vec.len() as int) =~= vec@);
        cnf
    }

    /// The clauses, in the order in which they were added.
    pub fn terms(&self) -> (r: &Vec<Disj>)
        ensures
            views(r@) == self@,
    {
        &self.terms
    }

    /// Removes every clause.
    pub fn clear(&mut self)
        ensures
            final(self).wf(),
            final(self)@ == Set::<Clause>::empty(),
    {
        self.terms = Vec::new();
        assert(self@ =~= Set::<Clause>::empty());
    }

    /// Whether the clause `disj` is held.
    pub fn contains(&self, disj: &Disj) -> (r: bool)
        ensures
            r == self@.contains(disj@),
    {
        let mut i: usize = 0;
        while i < self.terms.len()
            invariant
                i <= self.terms.len(),
                forall|k: int| 0 <= k < i ==> self.terms[k]@ != disj@,
            decreases self.terms.len() - i,
        {
            if self.terms[i] == *disj {
                return true;
            }
            i += 1;
        }
        false
    }

    /// Adds the clause `disj`; tells whether it was new.
    pub fn insert(&mut self, disj: Disj) -> (r: bool)
        requires
            old(self).wf(),
            disj.wf(),
        ensures
            final(self).wf(),
            final(self)@ == old(self)@.insert(disj@),
            r == !old(self)@.contains(disj@),
    {
        if self.contains(&disj) {
            assert(self@ =~= self@.insert(disj@));
            return false;
        }
        let ghost prev = self.terms@;
        self.terms.push(disj);
        proof {
            lemma_views_push(prev, disj);
            assert forall|i: int, j: int| 0 <= i < j < self.terms.len() implies self.terms[i]@
                != self.terms[j]@ by {
                if j == prev.len() {
                    assert(views(prev).contains(prev[i]@));
                }
            }
        }
        true
    }

    /// Adds every clause of `cnf`; tells whether any of them was new.
    pub fn insert_all(&mut self, cnf: &Cnf) -> (r: bool)
        requires
            old(self).wf(),
            cnf.wf(),
        ensures
            final(self).wf(),
            final(self)@ == old(self)@.union(cnf@),
            r == (final(self)@ != old(self)@),
    {
        let ghost start = self@;
        let mut ch = false;
        let mut i: usize = 0;
        while i < cnf.terms.len()
            invariant
                i <= cnf.terms.len(),
                cnf.wf(),
                self.wf(),
                self@ == start.union(views(cnf.terms@.subrange(0, i as int))),
                ch == (self@ != start),
            decreases cnf.terms.len() - i,
        {
            let ghost before = self@;
            let added = self.insert(cnf.terms[i].duplicate());
            proof {
                let t = cnf.terms@;
                assert(t.subrange(0, i + 1) =~= t.subrange(0, i as int).push(t[i as int]));
                lemma_views_push(t.subrange(0, i as int), t[i as int]);
                assert(self@ =~= start.union(views(t.subrange(0, i + 1))));
                if ch {
                    assert(exists|x: Clause| before.contains(x) != start.contains(x)) by {
                        if !(exists|x: Clause| before.contains(x) != start.contains(x)) {
                            assert(before =~= start);
                        }
                    }
                    let x = choose|x: Clause| before.contains(x) != start.contains(x);
                    assert(self@.contains(x));
                }
                if added {
                    assert(!start.contains(cnf.terms[i as int]@));
                    assert(self@.contains(cnf.terms[i as int]@));
                } else {
                    assert(self@ =~= before);
                }
            }
            ch = ch || added;
            i += 1;
        }
        assert(cnf.terms@.subrange(0, cnf.terms.len() as int) =~= cnf.terms@);
        ch
    }

    /// Whether every clause of `cnf` is held: a containment test on clauses,
    /// not a test of logical consequence.
    pub fn contains_all(&self, cnf: &Cnf) -> (r: bool)
        ensures
            r == cnf@.subset_of(self@),
    {
        let mut i: usize = 0;
        while i < cnf.terms.len()
            invariant
                i <= cnf.terms.len(),
                forall|k: int| 0 <= k < i ==> self@.contains(#[trigger] cnf.terms[k]@),
            decreases cnf.terms.len() - i,
        {
            if !self.contains(&cnf.terms[i]) {
                assert(cnf@.contains(cnf.terms[i as int]@));
                return false;
            }
            i += 1;
        }
        true
    }

    /// Adds to `out` every resolvent of two distinct clauses held here; tells
    /// whether `out` changed.
    pub fn resolve(&self, out: &mut Cnf) -> (r: bool)
        requires
            self.wf(),
            old(out).wf(),
        ensures
            final(out).wf(),
            final(out)@ == old(out)@.union(pair_resolvents(self@)),
            r == (final(out)@ != old(out)@),
    {
        let ghost start = out@;
        let ghost s = self.terms@;
        let n = self.terms.len();
        let mut change = false;
        let mut i: usize = 0;
        assert(visited_resolvents(s, 0, 1) =~= Set::<Clause>::empty());
        while i < n
            invariant
                self.wf(),
                s == self.terms@,
                n == s.len(),
                i <= n,
                out.wf(),
                out@ == start.union(visited_resolvents(s, i as int, i + 1)),
                change == (out@ != start),
            decreases n - i,
        {
            let mut j: usize = i + 1;
            while j < n
                invariant
                    self.wf(),
                    s == self.terms@,
                    n == s.len(),
                    i < n,
                    i + 1 <= j <= n,
                    out.wf(),
                    out@ == start.union(visited_resolvents(s, i as int, j as int)),
                    change == (out@ != start),
                decreases n - j,
            {
                let res = self.terms[i].resolve_vec(&self.terms[j]);
                let ghost mid = out@;
                let mut k: usize = 0;
                while k < res.len()
                    invariant
                        forall|m: int| 0 <= m < res.len() ==> (#[trigger] res[m]).wf(),
                        k <= res.len(),
                        out.wf(),
                        out@ == mid.union(views(res@.subrange(0, k as int))),
                        start.subset_of(mid),
                        change == (out@ != start),
                    decreases res.len() - k,
                {
                    let ghost before = out@;
                    let added = out.insert(res[k].duplicate());
                    proof {
                        assert(res@.subrange(0, k + 1) =~= res@.subrange(0, k as int).push(
                            res[k as int],
                        ));
                        lemma_views_push(res@.subrange(0, k as int), res[k as int]);
                        assert(out@ =~= mid.union(views(res@.subrange(0, k + 1))));
                        if change {
                            assert(exists|x: Clause| before.contains(x) != start.contains(x)) by {
                        if !(exists|x: Clause| before.contains(x) != start.contains(x)) {
                            assert(before =~= start);
                        }
                    }
                    let x = choose|x: Clause| before.contains(x) != start.contains(x);
                            assert(out@.contains(x));
                        }
                        if added {
                            assert(!start.contains(res[k as int]@));
                            assert(out@.contains(res[k as int]@));
                        } else {
                            assert(out@ =~= before);
                        }
                    }
                    change = change || added;
                    k += 1;
                }
                proof {
                    assert(res@.subrange(0, res.len() as int) =~= res@);
                    assert forall|d: Clause|
                        visited_resolvents(s, i as int, j + 1).contains(d) <==> (visited_resolvents(
                            s,
                            i as int,
                            j as int,
                        ).contains(d) || resolvents(s[i as int]@, s[j as int]@).contains(d)) by {
                        if resolvents(s[i as int]@, s[j as int]@).contains(d) {
                            assert(0 <= i < j < s.len());
                        }
                    }
                    assert(out@ =~= start.union(visited_resolvents(s, i as int, j + 1)));
                }
                j += 1;
            }
            proof {
                assert(visited_resolvents(s, i as int, n as int) =~= visited_resolvents(
                    s,
                    i + 1,
                    i + 2,
                ));
            }
            i += 1;
        }
        proof {
            assert forall|d: Clause| #[trigger]
                pair_resolvents(self@).contains(d) implies visited_resolvents(
                s,
                n as int,
                n + 1,
            ).contains(d) by {
                let (a, b) = choose|a: Clause, b: Clause|
                    #![trigger self@.contains(a), self@.contains(b), resolvents(a, b)]
                    self@.contains(a) && self@.contains(b) && a != b && resolvents(a, b).contains(d);
                let p = choose|p: int| 0 <= p < s.len() && s[p]@ == a;
                let q = choose|q: int| 0 <= q < s.len() && s[q]@ == b;
                lemma_resolvents_symmetric(a, b);
                if p < q {
                    assert(resolvents(s[p]@, s[q]@).contains(d));
                } else {
                    assert(resolvents(s[q]@, s[p]@).contains(d));
                }
            }
            assert forall|d: Clause| #[trigger]
                visited_resolvents(s, n as int, n + 1).contains(d) implies pair_resolvents(
                self@,
            ).contains(d) by {
                let (p, q) = choose|p: int, q: int|
                    0 <= p < q < s.len() && (p < n || (p == n && q < n + 1)) && #[trigger] resolvents(
                        s[p]@,
                        s[q]@,
                    ).contains(d);
                assert(self@.contains(s[p]@));
                assert(self@.contains(s[q]@));
            }
            assert(visited_resolvents(s, n as int, n + 1) =~= pair_resolvents(self@));
        }
        change
    }

    /// Adds resolvents until no new clause comes: afterwards the set is its own
    /// resolution closure. Tells whether any clause was added.
    pub fn saturate(&mut self) -> (r: bool)
        requires
            old(self).wf(),
        ensures
            final(self).wf(),
            saturation_of(old(self)@, final(self)@),
            r == (final(self)@ != old(self)@),
    {
        let ghost k0 = self@;
        let ghost syms = seq_symbols(self.terms@);
        proof {
            lemma_seq_symbols(self.terms@);
        }
        let mut changed = false;
        loop
            invariant
                self.wf(),
                k0 == old(self)@,
                k0.subset_of(self@),
                clauses_over(syms).finite(),
                self@.subset_of(clauses_over(syms)),
                forall|x: Set<Clause>| #[trigger]
                    closed_under_resolution(x) && k0.subset_of(x) ==> self@.subset_of(x),
                changed == (self@ != k0),
            decreases clauses_over(syms).len() - self@.len(),
        {
            let ghost before = self@;
            proof {
                vstd::set_lib::lemma_len_subset(before, clauses_over(syms));
            }
            let mut other = Cnf::new();
            self.resolve(&mut other);
            let grew = self.insert_all(&other);
            proof {
                assert(other@ =~= pair_resolvents(before));
                lemma_pair_resolvents_over(before, syms);
                assert forall|x: Set<Clause>| #[trigger]
                    closed_under_resolution(x) && k0.subset_of(x) implies self@.subset_of(x) by {
                    lemma_pair_resolvents_monotone(before, x);
                }
            }
            if !grew {
                assert(self@ =~= before);
                return changed;
            }
            proof {
                assert(exists|y: Clause| self@.contains(y) != before.contains(y)) by {
                    if !(exists|y: Clause| self@.contains(y) != before.contains(y)) {
                        assert(self@ =~= before);
                    }
                }
                let y = choose|y: Clause| self@.contains(y) != before.contains(y);
                vstd::set_lib::lemma_set_subset_finite(clauses_over(syms), self@);
                vstd::set_lib::lemma_len_subset(before, self@.remove(y));
                vstd::set_lib::lemma_len_subset(self@, clauses_over(syms));
                if !changed {
                    assert(self@.contains(y) && !k0.contains(y));
                }
            }
            changed = true;
        }
    }

    /// Takes the clauses of a new fact into this knowledge base and saturates
    /// it; when the empty clause then appears, the facts were inconsistent and
    /// the base is emptied. Tells whether that happened.
    pub fn learn(&mut self, fact: &Cnf) -> (contradiction: bool)
        requires
            old(self).wf(),
            fact.wf(),
        ensures
            final(self).wf(),
            !contradiction ==> saturation_of(old(self)@.union(fact@), final(self)@)
                && !final(self)@.contains(empty_clause()),
            contradiction ==> final(self)@ == Set::<Clause>::empty() && exists|k: Set<Clause>|
                saturation_of(old(self)@.union(fact@), k) && k.contains(empty_clause()),
    {
        self.insert_all(fact);
        let ghost merged = self@;
        self.saturate();
        let ghost k = self@;
        let r = self.reset_if_contradictory();
        assert(r ==> saturation_of(merged, k) && k.contains(empty_clause()));
        r
    }

    /// Empties the set if it holds the empty clause; tells whether it did.
    pub fn reset_if_contradictory(&mut self) -> (r: bool)
        requires
            old(self).wf(),
        ensures
            final(self).wf(),
            r == old(self)@.contains(empty_clause()),
            r ==> final(self)@ == Set::<Clause>::empty(),
            !r ==> final(self)@ == old(self)@,
    {
        if self.contains(&Disj::contradiction()) {
            self.clear();
            true
        } else {
            false
        }
    }
}

} // verus!
