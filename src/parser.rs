use vstd::prelude::*;
use crate::stmt::{Stmt, not_of, and_of, or_of};
use vstd::std_specs::iter::IteratorSpec;

verus! {

/// What a grammar rule makes of the text from a position on.
pub enum Parse {
    /// The rule matched; the text it used ends at the position given.
    Found(Stmt, int),
    /// The rule does not start at the position given.
    Missing(int),
    /// The rule started but the text breaks it at the position given.
    Failed(Seq<char>, int),
}

/// What a whole line is read as.
pub enum Reading {
    /// A statement to be taken as true.
    Fact(Stmt),
    /// A statement followed by `?`.
    Question(Stmt),
    /// Nothing but whitespace.
    Stop,
    /// A syntax error: its message and position.
    Error(Seq<char>, int),
}

/// The message for a missing operand.
pub open spec fn msg_expression() -> Seq<char> {
    "Expected expression"@
}

/// The message for an unclosed parenthesis.
pub open spec fn msg_paren() -> Seq<char> {
    "Expected ')'"@
}

/// The message for text after `?`.
pub open spec fn msg_end() -> Seq<char> {
    "Expected end"@
}

/// The message for text after a whole statement.
pub open spec fn msg_question_or_end() -> Seq<char> {
    "Expected '?' or end"@
}

/// Whitespace that may stand between tokens.
pub open spec fn is_space(c: char) -> bool {
    c == ' ' || c == '\t' || c == '\n' || c == '\r'
}

/// An ASCII letter, which names a symbol.
pub open spec fn is_letter(c: char) -> bool {
    ('A' <= c && c <= 'Z') || ('a' <= c && c <= 'z')
}

/// Whether the text holds `c` at position `j`.
pub open spec fn at(s: Seq<char>, j: int, c: char) -> bool {
    0 <= j < s.len() && s[j] == c
}

/// The first position from `i` on that does not hold whitespace.
pub open spec fn skip_ws(s: Seq<char>, i: int) -> int
    decreases s.len() - i,
{
    if 0 <= i < s.len() && is_space(s[i]) {
        skip_ws(s, i + 1)
    } else {
        i
    }
}

// The rules below that read on after a nested rule compare the position
// reached with the one they started from (`i <= j`). Positions only move
// forward (`lemma_or_advances`), so the comparison always holds; it makes
// plain that each recursive call starts further on in the text, which is what
// ends the recursion.

/// An operand that must be there: its absence is an error.
pub open spec fn required(p: Parse) -> Parse {
    match p {
        Parse::Missing(k) => Parse::Failed(msg_expression(), k),
        _ => p,
    }
}

/// `symbol := one ASCII letter`.
pub open spec fn parse_symbol(s: Seq<char>, i: int) -> Parse {
    let j = skip_ws(s, i);
    if 0 <= j < s.len() && is_letter(s[j]) {
        Parse::Found(Stmt::Symbol(s[j]), j + 1)
    } else {
        Parse::Missing(j)
    }
}

/// `*`, the tautology.
pub open spec fn parse_taut(s: Seq<char>, i: int) -> Parse {
    let j = skip_ws(s, i);
    if at(s, j, '*') {
        Parse::Found(Stmt::Taut, j + 1)
    } else {
        Parse::Missing(j)
    }
}

/// `~`, the contradiction.
pub open spec fn parse_cont(s: Seq<char>, i: int) -> Parse {
    let j = skip_ws(s, i);
    if at(s, j, '~') {
        Parse::Found(Stmt::Cont, j + 1)
    } else {
        Parse::Missing(j)
    }
}

/// `'!' base`.
pub open spec fn parse_not(s: Seq<char>, i: int) -> Parse
    decreases s.len() - i, 1int,
{
    let j = skip_ws(s, i);
    if i <= j && at(s, j, '!') {
        match required(parse_base(s, j + 1)) {
            Parse::Found(x, e) => Parse::Found(not_of(x), e),
            p => p,
        }
    } else {
        Parse::Missing(j)
    }
}

/// `'(' or ')'`.
pub open spec fn parse_par(s: Seq<char>, i: int) -> Parse
    decreases s.len() - i, 1int,
{
    let j = skip_ws(s, i);
    if i <= j && at(s, j, '(') {
        match required(parse_or(s, j + 1)) {
            Parse::Found(x, e) => {
                let k = skip_ws(s, e);
                if at(s, k, ')') {
                    Parse::Found(x, k + 1)
                } else {
                    Parse::Failed(msg_paren(), k)
                }
            },
            p => p,
        }
    } else {
        Parse::Missing(j)
    }
}

/// `base := '!' base | '*' | '~' | symbol | '(' or ')'`: the first of these
/// that starts here decides.
pub open spec fn parse_base(s: Seq<char>, i: int) -> Parse
    decreases s.len() - i, 2int,
{
    let n = parse_not(s, i);
    let t = parse_taut(s, i);
    let c = parse_cont(s, i);
    let y = parse_symbol(s, i);
    let p = parse_par(s, i);
    if !(n is Missing) {
        n
    } else if !(t is Missing) {
        t
    } else if !(c is Missing) {
        c
    } else if !(y is Missing) {
        y
    } else if !(p is Missing) {
        p
    } else {
        Parse::Missing(skip_ws(s, i))
    }
}

/// The statement that an arrow of the given kind makes of its two sides:
/// `->` for 0, `<->` for 1, `<-` for 2.
pub open spec fn arrow(l: Stmt, r: Stmt, kind: int) -> Stmt {
    if kind == 0 {
        Stmt::Implies(Box::new(l), Box::new(r))
    } else if kind == 1 {
        Stmt::Equiv(Box::new(l), Box::new(r))
    } else {
        Stmt::Implies(Box::new(r), Box::new(l))
    }
}

/// The kind of arrow at position `j`, if any, and its length.
pub open spec fn arrow_at(s: Seq<char>, j: int) -> Option<(int, int)> {
    if at(s, j, '-') && at(s, j + 1, '>') {
        Some((0, 2))
    } else if at(s, j, '<') && at(s, j + 1, '-') && at(s, j + 2, '>') {
        Some((1, 3))
    } else if at(s, j, '<') && at(s, j + 1, '-') {
        Some((2, 2))
    } else {
        None
    }
}

/// `implication := base ( ('->' | '<->' | '<-') implication )?`.
pub open spec fn parse_implication(s: Seq<char>, i: int) -> Parse
    decreases s.len() - i, 3int,
{
    match parse_base(s, i) {
        Parse::Found(l, e) => {
            let j = skip_ws(s, e);
            match arrow_at(s, j) {
                Some((kind, len)) => if i <= j {
                    match required(parse_implication(s, j + len)) {
                        Parse::Found(r, e2) => Parse::Found(arrow(l, r, kind), e2),
                        p => p,
                    }
                } else {
                    Parse::Found(l, j)
                },
                None => Parse::Found(l, j),
            }
        },
        p => p,
    }
}

/// `and := implication ( '&' and )?`.
pub open spec fn parse_and(s: Seq<char>, i: int) -> Parse
    decreases s.len() - i, 4int,
{
    match parse_implication(s, i) {
        Parse::Found(l, e) => {
            let j = skip_ws(s, e);
            if i <= j && at(s, j, '&') {
                match required(parse_and(s, j + 1)) {
                    Parse::Found(r, e2) => Parse::Found(and_of(l, r), e2),
                    p => p,
                }
            } else {
                Parse::Found(l, j)
            }
        },
        p => p,
    }
}

/// `or := and ( '|' or )?`.
pub open spec fn parse_or(s: Seq<char>, i: int) -> Parse
    decreases s.len() - i, 5int,
{
    match parse_and(s, i) {
        Parse::Found(l, e) => {
            let j = skip_ws(s, e);
            if i <= j && at(s, j, '|') {
                match required(parse_or(s, j + 1)) {
                    Parse::Found(r, e2) => Parse::Found(or_of(l, r), e2),
                    p => p,
                }
            } else {
                Parse::Found(l, j)
            }
        },
        p => p,
    }
}

/// `expr := or ( '?' | END )`, read from position `i`: a line of whitespace
/// alone is the stop signal.
pub open spec fn read_line(s: Seq<char>, i: int) -> Reading {
    match parse_or(s, i) {
        Parse::Found(x, e) => {
            let j = skip_ws(s, e);
            if at(s, j, '?') {
                if j + 1 < s.len() {
                    Reading::Error(msg_end(), j + 1)
                } else {
                    Reading::Question(x)
                }
            } else if 0 <= j < s.len() {
                Reading::Error(msg_question_or_end(), j)
            } else {
                Reading::Fact(x)
            }
        },
        Parse::Missing(k) => if k >= s.len() {
            Reading::Stop
        } else {
            Reading::Error(msg_expression(), k)
        },
        Parse::Failed(m, k) => Reading::Error(m, k),
    }
}

/// A rule that matches ends after where it started; one that does not reports
/// a position at or after it.
pub open spec fn advances(p: Parse, i: int) -> bool {
    match p {
        Parse::Found(_, e) => i < e,
        Parse::Missing(k) => i <= k,
        Parse::Failed(_, k) => i <= k,
    }
}

proof fn lemma_ws_advances(s: Seq<char>, i: int)
    ensures
        i <= skip_ws(s, i),
    decreases s.len() - i,
{
    if 0 <= i < s.len() && is_space(s[i]) {
        lemma_ws_advances(s, i + 1);
    }
}

proof fn lemma_not_advances(s: Seq<char>, i: int)
    ensures
        advances(parse_not(s, i), i),
    decreases s.len() - i, 1int,
{
    let j = skip_ws(s, i);
    lemma_ws_advances(s, i);
    if i <= j && at(s, j, '!') {
        lemma_base_advances(s, j + 1);
    }
}

proof fn lemma_par_advances(s: Seq<char>, i: int)
    ensures
        advances(parse_par(s, i), i),
    decreases s.len() - i, 1int,
{
    let j = skip_ws(s, i);
    lemma_ws_advances(s, i);
    if i <= j && at(s, j, '(') {
        lemma_or_advances(s, j + 1);
        if let Parse::Found(_, e) = parse_or(s, j + 1) {
            lemma_ws_advances(s, e);
        }
    }
}

proof fn lemma_base_advances(s: Seq<char>, i: int)
    ensures
        advances(parse_base(s, i), i),
    decreases s.len() - i, 2int,
{
    lemma_ws_advances(s, i);
    lemma_not_advances(s, i);
    lemma_par_advances(s, i);
}

proof fn lemma_implication_advances(s: Seq<char>, i: int)
    ensures
        advances(parse_implication(s, i), i),
    decreases s.len() - i, 3int,
{
    lemma_base_advances(s, i);
    if let Parse::Found(_, e) = parse_base(s, i) {
        let j = skip_ws(s, e);
        lemma_ws_advances(s, e);
        if let Some((kind, len)) = arrow_at(s, j) {
            lemma_implication_advances(s, j + len);
        }
    }
}

proof fn lemma_and_advances(s: Seq<char>, i: int)
    ensures
        advances(parse_and(s, i), i),
    decreases s.len() - i, 4int,
{
    lemma_implication_advances(s, i);
    if let Parse::Found(_, e) = parse_implication(s, i) {
        let j = skip_ws(s, e);
        lemma_ws_advances(s, e);
        if at(s, j, '&') {
            lemma_and_advances(s, j + 1);
        }
    }
}

/// Parsing never moves backwards: so the guards `i <= j` of the rules are
/// always met.
pub proof fn lemma_or_advances(s: Seq<char>, i: int)
    ensures
        advances(parse_or(s, i), i),
    decreases s.len() - i, 5int,
{
    lemma_and_advances(s, i);
    if let Parse::Found(_, e) = parse_and(s, i) {
        let j = skip_ws(s, e);
        lemma_ws_advances(s, e);
        if at(s, j, '|') {
            lemma_or_advances(s, j + 1);
        }
    }
}

/// The outcome of one grammar rule.
enum ParseResult {
    /// The rule matched.
    Matched(Stmt),
    /// The rule does not start at the position given.
    Absent(usize),
    /// The rule started but the text breaks it at the position given.
    Error(String, usize),
}

/// What a rule's result says, given the position that the parser reached.
spec fn outcome(r: ParseResult, index: usize) -> Parse {
    match r {
        ParseResult::Matched(x) => Parse::Found(x, index as int),
        ParseResult::Absent(k) => Parse::Missing(k as int),
        ParseResult::Error(m, k) => Parse::Failed(m@, k as int),
    }
}

impl ParseResult {
    /// Turns an absent operand into the error `message`.
    fn error_if_absent(self, message: &str) -> (r: ParseResult)
        ensures
            forall|n: usize|
                #![trigger outcome(r, n)]
                outcome(r, n) == match outcome(self, n) {
                    Parse::Missing(k) => Parse::Failed(message@, k),
                    p => p,
                },
    {
        match self {
            ParseResult::Absent(idx) => ParseResult::Error(message.to_owned(), idx),
            r => r,
        }
    }

    fn is_absent(&self) -> (r: bool)
        ensures
            r == (*self is Absent),
    {
        match self {
            ParseResult::Absent(_) => true,
            _ => false,
        }
    }
}

/// What one line of input holds.
pub enum ParsedStatement {
    /// A statement to be taken as true.
    Fact(Stmt),
    /// A statement to be checked against what is known.
    Question(Stmt),
    /// The line is empty: reading ends.
    Stop,
    /// The line breaks the grammar: a message and the position of the fault.
    Error(String, usize),
}

impl ParsedStatement {
    /// What this result says, with the message as a sequence of characters.
    pub open spec fn reading(&self) -> Reading {
        match self {
            ParsedStatement::Fact(x) => Reading::Fact(*x),
            ParsedStatement::Question(x) => Reading::Question(*x),
            ParsedStatement::Stop => Reading::Stop,
            ParsedStatement::Error(m, k) => Reading::Error(m@, *k as int),
        }
    }
}

/// A recursive-descent parser over the characters of one line.
pub struct Parser {
    index: usize,
    input: Vec<char>,
}

impl Parser {
    /// The characters of the line.
    pub closed spec fn text(&self) -> Seq<char> {
        self.input@
    }

    /// The position reached.
    pub closed spec fn position(&self) -> int {
        self.index as int
    }

    /// The position lies within the line or at its end.
    pub closed spec fn wf(&self) -> bool {
        self.index <= self.input.len()
    }

    /// A parser at the start of `line`.
    pub fn new(line: String) -> (p: Parser)
        ensures
            p.wf(),
            p.text() == line@,
            p.position() == 0,
    {
        let mut input: Vec<char> = Vec::new();
        proof {
            broadcast use vstd::string::axiom_spec_iter;
        }
        for c in it: line.as_str().chars()
            invariant
                input@ == it.seq().take(it.index() as int),
        {
            input.push(c);
        }
        assert(input@ =~= line@);
        Parser { index: 0, input }
    }

    /// Whether the character at the position is `c`.
    fn has(&self, c: char) -> (r: bool)
        ensures
            r == at(self.input@, self.index as int, c),
    {
        self.index < self.input.len() && self.input[self.index] == c
    }

    /// The character at the position, if any.
    fn cur(&self) -> (r: Option<char>)
        ensures
            r == (if self.index < self.input.len() {
                Some(self.input@[self.index as int])
            } else {
                None
            }),
    {
        if self.index < self.input.len() {
            Some(self.input[self.index])
        } else {
            None
        }
    }

    /// The character `o` places after the position, if any.
    fn off(&self, o: usize) -> (r: Option<char>)
        requires
            self.wf(),
        ensures
            r == (if self.index + o < self.input.len() {
                Some(self.input@[self.index + o])
            } else {
                None
            }),
    {
        if o < self.input.len() - self.index {
            Some(self.input[self.index + o])
        } else {
            None
        }
    }

    fn shift(&mut self)
        requires
            old(self).index < old(self).input.len(),
        ensures
            final(self).input == old(self).input,
            final(self).index == old(self).index + 1,
    {
        self.index += 1;
    }

    /// Skips over whitespace.
    fn ws(&mut self)
        requires
            old(self).wf(),
        ensures
            final(self).wf(),
            final(self).input == old(self).input,
            final(self).index == skip_ws(old(self).input@, old(self).index as int),
    {
        let ghost start = self.index as int;
        while self.has(' ') || self.has('\t') || self.has('\n') || self.has('\r')
            invariant
                self.wf(),
                self.input == old(self).input,
                start == old(self).index,
                skip_ws(self.input@, self.index as int) == skip_ws(self.input@, start),
            decreases self.input.len() - self.index,
        {
            self.shift();
        }
    }

    /// Reads a whole line: a statement, then `?` for a question, or the end
    /// of the line for a fact.
    pub fn expr(&mut self) -> (r: ParsedStatement)
        requires
            old(self).wf(),
        ensures
            final(self).wf(),
            final(self).text() == old(self).text(),
            r.reading() == read_line(old(self).text(), old(self).position()),
    {
        match self.or() {
            ParseResult::Matched(s) => {
                self.ws();
                match self.cur() {
                    Some('?') => {
                        self.shift();
                        if self.cur().is_some() {
                            return ParsedStatement::Error("Expected end".to_owned(), self.index);
                        }
                        ParsedStatement::Question(s)
                    },
                    Some(_) => ParsedStatement::Error("Expected '?' or end".to_owned(), self.index),
                    None => ParsedStatement::Fact(s),
                }
            },
            ParseResult::Absent(idx) => {
                if idx >= self.input.len() {
                    ParsedStatement::Stop
                } else {
                    ParsedStatement::Error("Expected expression".to_owned(), idx)
                }
            },
            ParseResult::Error(msg, idx) => ParsedStatement::Error(msg, idx),
        }
    }

    /// Parses a symbol: one ASCII letter.
    fn symbol(&mut self) -> (r: ParseResult)
        requires
            old(self).wf(),
        ensures
            final(self).wf(),
            final(self).input == old(self).input,
            outcome(r, final(self).index) == parse_symbol(old(self).input@, old(self).index as int),
    {
        self.ws();
        if let Some(cur) = self.cur() {
            if (cur >= 'A' && cur <= 'Z') || (cur >= 'a' && cur <= 'z') {
                self.shift();
                return ParseResult::Matched(Stmt::symbol(cur));
            }
        }
        ParseResult::Absent(self.index)
    }

    /// Parses a negation: `!` and an atomic expression.
    fn not(&mut self) -> (r: ParseResult)
        requires
            old(self).wf(),
        ensures
            final(self).wf(),
            final(self).input == old(self).input,
            outcome(r, final(self).index) == parse_not(old(self).input@, old(self).index as int),
        decreases old(self).input.len() - old(self).index, 1int,
    {
        let start = self.index;
        self.ws();
        if !(start <= self.index && self.has('!')) {
            return ParseResult::Absent(self.index);
        }
        self.shift();
        match self.base() {
            ParseResult::Matched(s) => ParseResult::Matched(s.not()),
            o => o.error_if_absent("Expected expression"),
        }
    }

    /// Parses the contradiction `~`.
    fn cont(&mut self) -> (r: ParseResult)
        requires
            old(self).wf(),
        ensures
            final(self).wf(),
            final(self).input == old(self).input,
            outcome(r, final(self).index) == parse_cont(old(self).input@, old(self).index as int),
    {
        self.ws();
        if !self.has('~') {
            return ParseResult::Absent(self.index);
        }
        self.shift();
        ParseResult::Matched(Stmt::cont())
    }

    /// Parses the tautology `*`.
    fn taut(&mut self) -> (r: ParseResult)
        requires
            old(self).wf(),
        ensures
            final(self).wf(),
            final(self).input == old(self).input,
            outcome(r, final(self).index) == parse_taut(old(self).input@, old(self).index as int),
    {
        self.ws();
        if !self.has('*') {
            return ParseResult::Absent(self.index);
        }
        self.shift();
        ParseResult::Matched(Stmt::taut())
    }

    /// Parses an atomic expression: `*`, `~`, `(x)`, `!a` or a symbol.
    fn base(&mut self) -> (r: ParseResult)
        requires
            old(self).wf(),
        ensures
            final(self).wf(),
            final(self).input == old(self).input,
            outcome(r, final(self).index) == parse_base(old(self).input@, old(self).index as int),
        decreases old(self).input.len() - old(self).index, 2int,
    {
        let start = self.index;
        let n = self.not();
        if !n.is_absent() {
            return n;
        }
        self.index = start;
        let t = self.taut();
        if !t.is_absent() {
            return t;
        }
        self.index = start;
        let c = self.cont();
        if !c.is_absent() {
            return c;
        }
        self.index = start;
        let y = self.symbol();
        if !y.is_absent() {
            return y;
        }
        self.index = start;
        let p = self.par();
        if !p.is_absent() {
            return p;
        }
        self.index = start;
        self.ws();
        ParseResult::Absent(self.index)
    }

    /// Parses a parenthesized expression.
    fn par(&mut self) -> (r: ParseResult)
        requires
            old(self).wf(),
        ensures
            final(self).wf(),
            final(self).input == old(self).input,
            outcome(r, final(self).index) == parse_par(old(self).input@, old(self).index as int),
        decreases old(self).input.len() - old(self).index, 1int,
    {
        let start = self.index;
        self.ws();
        if !(start <= self.index && self.has('(')) {
            return ParseResult::Absent(self.index);
        }
        self.shift();
        let i = match self.or() {
            ParseResult::Matched(s) => s,
            o => return o.error_if_absent("Expected expression"),
        };
        self.ws();
        if !self.has(')') {
            return ParseResult::Error("Expected ')'".to_owned(), self.index);
        }
        self.shift();
        ParseResult::Matched(i)
    }

    /// Parses an implication, an equivalence or a reversed implication:
    /// `a -> b`, `a <-> b`, `a <- b`.
    fn implication(&mut self) -> (r: ParseResult)
        requires
            old(self).wf(),
        ensures
            final(self).wf(),
            final(self).input == old(self).input,
            outcome(r, final(self).index) == parse_implication(
                old(self).input@,
                old(self).index as int,
            ),
        decreases old(self).input.len() - old(self).index, 3int,
    {
        let start = self.index;
        let l = match self.base() {
            ParseResult::Matched(s) => s,
            o => return o,
        };
        self.ws();
        if start > self.index {
            return ParseResult::Matched(l);
        }
        let kind: u8 = match (self.cur(), self.off(1), self.off(2)) {
            (Some('-'), Some('>'), _) => {
                self.shift();
                self.shift();
                0
            },
            (Some('<'), Some('-'), Some('>')) => {
                self.shift();
                self.shift();
                self.shift();
                1
            },
            (Some('<'), Some('-'), _) => {
                self.shift();
                self.shift();
                2
            },
            _ => return ParseResult::Matched(l),
        };
        let r = match self.implication() {
            ParseResult::Matched(s) => s,
            o => return o.error_if_absent("Expected expression"),
        };
        if kind == 0 {
            ParseResult::Matched(l.implies(r))
        } else if kind == 1 {
            ParseResult::Matched(l.equiv(r))
        } else {
            ParseResult::Matched(r.implies(l))
        }
    }

    /// Parses a conjunction: `a & b`.
    fn and(&mut self) -> (r: ParseResult)
        requires
            old(self).wf(),
        ensures
            final(self).wf(),
            final(self).input == old(self).input,
            outcome(r, final(self).index) == parse_and(old(self).input@, old(self).index as int),
        decreases old(self).input.len() - old(self).index, 4int,
    {
        let start = self.index;
        let l = match self.implication() {
            ParseResult::Matched(s) => s,
            o => return o,
        };
        self.ws();
        if !(start <= self.index && self.has('&')) {
            return ParseResult::Matched(l);
        }
        self.shift();
        let r = match self.and() {
            ParseResult::Matched(s) => s,
            o => return o.error_if_absent("Expected expression"),
        };
        ParseResult::Matched(l.and(r))
    }

    /// Parses a disjunction: `a | b`.
    fn or(&mut self) -> (r: ParseResult)
        requires
            old(self).wf(),
        ensures
            final(self).wf(),
            final(self).input == old(self).input,
            outcome(r, final(self).index) == parse_or(old(self).input@, old(self).index as int),
        decreases old(self).input.len() - old(self).index, 5int,
    {
        let start = self.index;
        let l = match self.and() {
            ParseResult::Matched(s) => s,
            o => return o,
        };
        self.ws();
        if !(start <= self.index && self.has('|')) {
            return ParseResult::Matched(l);
        }
        self.shift();
        let r = match self.or() {
            ParseResult::Matched(s) => s,
            o => return o.error_if_absent("Expected expression"),
        };
        ParseResult::Matched(l.or(r))
    }
}

} // verus!
