//! Reading a term: the meaning of each reading step as a function on the
//! mathematical state, and the reader that follows it.
//!
//! Terms are: `λx body` (or `@x body`), applications `(f a b ...)`,
//! superpositions `{a b ...}`, `let x = v; b`-style bindings written
//! `let x = v b`, `ask x = v b`, and variables.

use vstd::prelude::*;
use crate::alias::{connect_map, flat, follow, has_value, lemma_connect_flat, lemma_connect_unmapped, redirect_map, resolves};
use crate::net::WireId;
use crate::state::{wire_result, ws_end, Model, ParseError, State};

verus! {

/// The state `m` with its budget cut down to `b` if it is larger; readers
/// never give back more budget than they got, so this never changes a state
/// that reading produced (it only makes the definitions visibly terminate).
pub open spec fn within(m: Model, b: u64) -> Model {
    if m.budget <= b {
        m
    } else {
        Model { budget: b, ..m }
    }
}

/// The state with wire `a` connected to wire `b`.
pub open spec fn connected(m: Model, a: u64, b: u64) -> Model {
    Model { aliases: connect_map(m.aliases, a, b), ..m }
}

/// The name `let`.
pub open spec fn let_word() -> Seq<char> {
    seq!['l', 'e', 't']
}

/// The name `ask`.
pub open spec fn ask_word() -> Seq<char> {
    seq!['a', 's', 'k']
}

/// Reading a term, as a binder (`binder`) or not: one unit of budget is
/// spent, whitespace is skipped, and the next character decides the form.
/// The result is the wire that stands for the term.
pub open spec fn term_result(m: Model, binder: bool) -> (Model, Result<u64, ParseError>)
    decreases m.budget, 0int,
{
    if m.budget == 0 {
        (m, Err(ParseError::OutOfBudget))
    } else {
        let m1 = Model { budget: (m.budget - 1) as u64, ..m }.skip_ws();
        match m1.peek() {
            None => (m1, Err(ParseError::ExpectedTerm)),
            Some(c) => if c == '\u{3bb}' || c == '@' {
                lam_result(m1, binder, 0)
            } else if c == '(' {
                app_result(m1, binder, 0)
            } else if c == '{' {
                if m1.label_index == u64::MAX {
                    (m1, Err(ParseError::Overflow))
                } else {
                    let (m2, l) = m1.label_or_generate(None);
                    sup_result(m2, binder, l)
                }
            } else {
                let name = m1.name_at();
                let m2 = m1.skip_name();
                if name == let_word() {
                    let_result(m2, binder)
                } else if name == ask_word() {
                    ask_result(m2, binder)
                } else {
                    m2.parse_var(name, binder)
                }
            },
        }
    }
}

/// Reading a lambda after its `λ` or `@`: the variable is read with the
/// opposite polarity, then the body; a node gets the variable on port 1 and
/// the body on port 2, and its port 0 stands for the lambda.
pub open spec fn lam_result(m: Model, binder: bool, label: u64) -> (Model, Result<u64, ParseError>)
    decreases m.budget, 2int,
{
    let m1 = m.advance();
    let (m2, r1) = term_result(m1, !binder);
    match r1 {
        Err(e) => (m2, Err(e)),
        Ok(variable) => {
            let (m3, r2) = term_result(within(m2, m1.budget), binder);
            match r2 {
                Err(e) => (m3, Err(e)),
                Ok(body) => if m3.dest_index > u64::MAX - 3 {
                    (m3, Err(ParseError::Overflow))
                } else {
                    let (m4, p) = m3.add_node(true, true, false, label);
                    (connected(connected(m4, p.1, variable), p.2, body), Ok(p.0))
                },
            }
        },
    }
}

/// Reading an application after its `(`: the head term, then the rest.
pub open spec fn app_result(m: Model, binder: bool, label: u64) -> (Model, Result<u64, ParseError>)
    decreases m.budget, 2int,
{
    let m1 = m.advance();
    let (m2, r) = term_result(m1, binder);
    match r {
        Err(e) => (m2, Err(e)),
        Ok(t) => app_rest(within(m2, m1.budget).skip_ws(), binder, label, t),
    }
}

/// The arguments of an application up to its `)`: each argument gets a node
/// with the function so far on port 0 and the argument on port 1; port 2 is
/// the function for the next argument.
pub open spec fn app_rest(m: Model, binder: bool, label: u64, term: u64) -> (Model, Result<u64, ParseError>)
    decreases m.budget, 1int,
{
    if m.peek() == Some(')') {
        (m.advance(), Ok(term))
    } else if m.budget == 0 {
        (m, Err(ParseError::OutOfBudget))
    } else {
        let (m1, r) = term_result(m, binder);
        match r {
            Err(e) => (m1, Err(e)),
            Ok(nt) => if m1.dest_index > u64::MAX - 3 {
                (m1, Err(ParseError::Overflow))
            } else {
                let (m2, p) = m1.add_node(true, true, false, label);
                let m3 = connected(connected(m2, term, p.0), nt, p.1);
                app_rest(within(m3, (m.budget - 1) as u64).skip_ws(), binder, label, p.2)
            },
        }
    }
}

/// Reading a superposition after its `{`: the first term, then the rest.
pub open spec fn sup_result(m: Model, binder: bool, label: u64) -> (Model, Result<u64, ParseError>)
    decreases m.budget, 2int,
{
    let m1 = m.advance();
    let (m2, r) = term_result(m1, binder);
    match r {
        Err(e) => (m2, Err(e)),
        Ok(t) => sup_rest(within(m2, m1.budget).skip_ws(), binder, label, t),
    }
}

/// The further terms of a superposition up to its `}`: each gets a node
/// with the superposition so far on port 1 and the term on port 2; port 0
/// is the superposition that the next term extends.
pub open spec fn sup_rest(m: Model, binder: bool, label: u64, term: u64) -> (Model, Result<u64, ParseError>)
    decreases m.budget, 1int,
{
    if m.peek() == Some('}') {
        (m.advance(), Ok(term))
    } else if m.budget == 0 {
        (m, Err(ParseError::OutOfBudget))
    } else {
        let (m1, r) = term_result(m, binder);
        match r {
            Err(e) => (m1, Err(e)),
            Ok(nt) => if m1.dest_index > u64::MAX - 3 {
                (m1, Err(ParseError::Overflow))
            } else {
                let (m2, p) = m1.add_node(true, true, false, label);
                let m3 = connected(connected(m2, term, p.1), nt, p.2);
                sup_rest(within(m3, (m.budget - 1) as u64).skip_ws(), binder, label, p.0)
            },
        }
    }
}

/// The shared start of `let` and `ask` after the keyword: the bound term
/// (opposite polarity), `=`, and the value. Gives the state and the wires of
/// the bound term and the value.
pub open spec fn binding_result(m: Model, binder: bool) -> (Model, Result<(u64, u64), ParseError>)
    decreases m.budget, 1int,
{
    let (m1, r1) = term_result(m, !binder);
    match r1 {
        Err(e) => (m1, Err(e)),
        Ok(bind) => {
            let m2 = within(m1, m.budget).skip_ws();
            if !m2.looking_at(seq!['=']) {
                (m2, Err(ParseError::ExpectedText))
            } else {
                let m3 = Model { pos: m2.pos + 1, ..m2 };
                let (m4, r2) = term_result(m3, binder);
                match r2 {
                    Err(e) => (m4, Err(e)),
                    Ok(value) => (m4, Ok((bind, value))),
                }
            }
        },
    }
}

/// Reading `let bind = value body`: the bound term is connected to the value
/// and the body stands for the whole.
pub open spec fn let_result(m: Model, binder: bool) -> (Model, Result<u64, ParseError>)
    decreases m.budget, 2int,
{
    let (m1, r1) = binding_result(m, binder);
    match r1 {
        Err(e) => (m1, Err(e)),
        Ok(bv) => {
            let (m2, r2) = term_result(within(m1, m.budget), binder);
            match r2 {
                Err(e) => (m2, Err(e)),
                Ok(body) => (connected(m2, bv.0, bv.1), Ok(body)),
            }
        },
    }
}

/// Reading `ask bind = value body`, which stands for `(value (λbind body))`:
/// a lambda node gets the bound term and the body, an application node gets
/// the value on port 0 and the lambda on port 1, and its port 2 stands for
/// the whole.
pub open spec fn ask_result(m: Model, binder: bool) -> (Model, Result<u64, ParseError>)
    decreases m.budget, 2int,
{
    let (m1, r1) = binding_result(m, binder);
    match r1 {
        Err(e) => (m1, Err(e)),
        Ok(bv) => {
            let (m2, r2) = term_result(within(m1, m.budget), binder);
            match r2 {
                Err(e) => (m2, Err(e)),
                Ok(body) => if m2.dest_index > u64::MAX - 3 {
                    (m2, Err(ParseError::Overflow))
                } else {
                    let (m3, l) = m2.add_node(true, true, false, 0);
                    let m4 = connected(connected(m3, l.1, bv.0), l.2, body);
                    if m4.dest_index > u64::MAX - 3 {
                        (m4, Err(ParseError::Overflow))
                    } else {
                        let (m5, a) = m4.add_node(true, true, false, 0);
                        (connected(connected(m5, bv.1, a.0), l.0, a.1), Ok(a.2))
                    }
                },
            }
        },
    }
}

/// The keyword law: a name other than exactly `let` or `ask` is read as a
/// variable. Where, once the budget unit is spent and whitespace skipped, a
/// name starts (the next character is none of `λ`, `@`, `(`, `{`) and that
/// name is neither `let` nor `ask`, reading a term is reading that variable
/// from the state after the name.
pub proof fn lemma_name_is_variable(m: Model, binder: bool)
    requires
        m.budget > 0,
        ({
            let m1 = Model { budget: (m.budget - 1) as u64, ..m }.skip_ws();
            &&& m1.peek() is Some
            &&& m1.peek()->0 != '\u{3bb}' && m1.peek()->0 != '@' && m1.peek()->0 != '(' && m1.peek()->0 != '{'
            &&& m1.name_at() != seq!['l', 'e', 't']
            &&& m1.name_at() != seq!['a', 's', 'k']
        }),
    ensures
        ({
            let m1 = Model { budget: (m.budget - 1) as u64, ..m }.skip_ws();
            term_result(m, binder) == m1.skip_name().parse_var(m1.name_at(), binder)
        }),
{
}

/// The keywords are read as keywords: where the name is exactly `let` (or
/// `ask`), reading a term reads a `let` (or `ask`) binding after it.
pub proof fn lemma_keywords(m: Model, binder: bool)
    requires
        m.budget > 0,
        ({
            let m1 = Model { budget: (m.budget - 1) as u64, ..m }.skip_ws();
            &&& m1.peek() is Some
            &&& m1.peek()->0 != '\u{3bb}' && m1.peek()->0 != '@' && m1.peek()->0 != '(' && m1.peek()->0 != '{'
        }),
    ensures
        ({
            let m1 = Model { budget: (m.budget - 1) as u64, ..m }.skip_ws();
            &&& m1.name_at() == seq!['l', 'e', 't'] ==> term_result(m, binder) == let_result(m1.skip_name(), binder)
            &&& m1.name_at() == seq!['a', 's', 'k'] ==> term_result(m, binder) == ask_result(m1.skip_name(), binder)
        }),
{
    let m1 = Model { budget: (m.budget - 1) as u64, ..m }.skip_ws();
    assert(let_word() == seq!['l', 'e', 't']);
    assert(ask_word() == seq!['a', 's', 'k']);
    assert(seq!['l', 'e', 't'] != seq!['a', 's', 'k']) by {
        assert(seq!['l', 'e', 't'][0] != seq!['a', 's', 'k'][0]);
    }
}

/// How reading may change a state: wires, labels and budget only move one
/// way, the input and the named labels stay, the nodes built before stay,
/// every node added is primary, vanilla and not lazy with three consecutive
/// wires handed out meanwhile, and every new alias key is a wire handed out
/// meanwhile.
pub open spec fn grows(m: Model, n: Model) -> bool {
    &&& m.dest_index <= n.dest_index
    &&& n.budget <= m.budget
    &&& n.input == m.input
    &&& n.labels == m.labels
    &&& m.label_index <= n.label_index
    &&& m.nodes.len() <= n.nodes.len()
    &&& forall|i: int| 0 <= i < m.nodes.len() ==> #[trigger] n.nodes[i] == m.nodes[i]
    &&& forall|i: int|
        m.nodes.len() <= i < n.nodes.len() ==> {
            let d = (#[trigger] n.nodes[i]);
            &&& d.primary && d.vanilla && !d.lazy
            &&& m.dest_index <= d.p0.0
            &&& d.p1.0 == d.p0.0 + 1
            &&& d.p2.0 == d.p0.0 + 2
            &&& d.p0.0 + 2 < n.dest_index
        }
    &&& forall|k: u64| #[trigger] n.aliases.contains_key(k) ==> m.aliases.contains_key(k) || m.dest_index <= k
    &&& forall|v: u64| #[trigger] has_value(n.aliases, v) ==> has_value(m.aliases, v) || m.dest_index <= v
}

/// A wire given back by reading is new and not connected to anything yet:
/// it is neither mapped nor mapped to.
pub open spec fn fresh_wire(m: Model, n: Model, r: Result<u64, ParseError>) -> bool {
    r is Ok ==> m.dest_index <= r->Ok_0 < n.dest_index && !n.aliases.contains_key(r->Ok_0) && !has_value(
        n.aliases,
        r->Ok_0,
    )
}

/// Connecting two wires that are no alias keys, both handed out already:
/// the state stays well formed and `a` becomes the one new key.
proof fn lemma_connect_fresh(m: Model, a: u64, b: u64)
    requires
        m.wf(),
        !m.aliases.contains_key(a),
        !m.aliases.contains_key(b),
        a < m.dest_index,
        b < m.dest_index,
        a != b,
    ensures
        resolves(m.aliases, b),
        flat(m.aliases) ==> flat(connected(m, a, b).aliases),
        connected(m, a, b).wf(),
        forall|k: u64| #[trigger] connected(m, a, b).aliases.contains_key(k) <==> (m.aliases.contains_key(k) || k == a),
        forall|v: u64| #[trigger] has_value(connected(m, a, b).aliases, v) ==> has_value(m.aliases, v) || v == b,
{
    assert(follow(m.aliases, b, 0) == b);
    lemma_connect_unmapped(m.aliases, a, b);
    if flat(m.aliases) {
        lemma_connect_flat(m.aliases, a, b);
    }
    let n = connected(m, a, b);
    assert forall|k: u64| #[trigger] n.aliases.contains_key(k) implies k < n.dest_index && n.aliases[k] < n.dest_index by {
        if k != a {
            assert(m.aliases.contains_key(k));
        }
    }
    assert forall|v: u64| #[trigger] has_value(n.aliases, v) implies has_value(m.aliases, v) || v == b by {
        let k = choose|k: u64| n.aliases.contains_key(k) && #[trigger] n.aliases[k] == v;
        if k != a && m.aliases[k] != a {
            assert(m.aliases.contains_key(k) && m.aliases[k] == v);
        }
    }
}

proof fn lemma_ws_end_idem(input: Seq<char>, pos: int)
    requires
        0 <= pos <= input.len(),
    ensures
        ws_end(input, ws_end(input, pos)) == ws_end(input, pos),
    decreases input.len() - pos,
{
    if pos < input.len() && crate::state::is_ws(input[pos]) {
        lemma_ws_end_idem(input, pos + 1);
    }
}

impl State {
    /// Reads a term (see `term_result`) and gives the wire that stands for it.
    pub fn parse_term(&mut self, binder: bool) -> (r: Result<WireId, ParseError>)
        requires
            old(self).wf(),
        ensures
            (final(self)@, wire_result(r)) == term_result(old(self)@, binder),
            final(self).wf(),
            grows(old(self)@, final(self)@),
            fresh_wire(old(self)@, final(self)@, wire_result(r)),
            flat(old(self)@.aliases) ==> flat(final(self)@.aliases),
            r is Ok ==> final(self).budget < old(self).budget,
        decreases old(self).budget, 0int,
    {
        if !self.take_budget() {
            return Err(ParseError::OutOfBudget);
        }
        self.skip_whitespace();
        match self.peek() {
            None => Err(ParseError::ExpectedTerm),
            Some(c) => {
                if c == '\u{3bb}' || c == '@' {
                    self.parse_lam(binder, 0)
                } else if c == '(' {
                    self.parse_app(binder, 0)
                } else if c == '{' {
                    if self.label_index == u64::MAX {
                        return Err(ParseError::Overflow);
                    }
                    let label = self.label_or_generate(None);
                    self.parse_sup(binder, label)
                } else {
                    let name = match self.parse_name() {
                        Ok(n) => n,
                        Err(e) => {
                            return Err(e);
                        },
                    };
                    if name.len() == 3 && name[0] == 'l' && name[1] == 'e' && name[2] == 't' {
                        assert(name@ =~= let_word());
                        self.parse_let(binder)
                    } else if name.len() == 3 && name[0] == 'a' && name[1] == 's' && name[2] == 'k' {
                        assert(name@ =~= ask_word());
                        assert(name@ != let_word());
                        self.parse_ask(binder)
                    } else {
                        assert(name@ != let_word());
                        assert(name@ != ask_word());
                        self.parse_var(name, binder)
                    }
                }
            },
        }
    }

    /// Reads a lambda whose `λ` or `@` is next (see `lam_result`).
    ///
    /// The opening character must be there to be read.
    pub fn parse_lam(&mut self, binder: bool, label: u64) -> (r: Result<WireId, ParseError>)
        requires
            old(self).wf(),
            old(self)@.peek() is Some,
        ensures
            (final(self)@, wire_result(r)) == lam_result(old(self)@, binder, label),
            final(self).wf(),
            grows(old(self)@, final(self)@),
            fresh_wire(old(self)@, final(self)@, wire_result(r)),
            flat(old(self)@.aliases) ==> flat(final(self)@.aliases),
        decreases old(self).budget, 2int,
    {
        let ghost m = self@;
        let _ = self.next_char();
        let variable = match self.parse_term(!binder) {
            Ok(w) => w,
            Err(e) => {
                return Err(e);
            },
        };
        let body = match self.parse_term(binder) {
            Ok(w) => w,
            Err(e) => {
                return Err(e);
            },
        };
        if self.dest_index > u64::MAX - 3 {
            return Err(ParseError::Overflow);
        }
        let ghost m3 = self@;
        let (p0, p1, p2) = self.add_node(true, true, false, label);
        let ghost m4 = self@;
        proof {
            lemma_connect_fresh(m4, p1.0, variable.0);
        }
        self.connect(&p1, &variable);
        let ghost m5 = self@;
        proof {
            lemma_connect_fresh(m5, p2.0, body.0);
        }
        self.connect(&p2, &body);
        Ok(p0)
    }

    /// Reads an application whose `(` is next (see `app_result`).
    ///
    /// The opening character must be there to be read.
    pub fn parse_app(&mut self, binder: bool, label: u64) -> (r: Result<WireId, ParseError>)
        requires
            old(self).wf(),
            old(self)@.peek() is Some,
        ensures
            (final(self)@, wire_result(r)) == app_result(old(self)@, binder, label),
            final(self).wf(),
            grows(old(self)@, final(self)@),
            fresh_wire(old(self)@, final(self)@, wire_result(r)),
            flat(old(self)@.aliases) ==> flat(final(self)@.aliases),
        decreases old(self).budget, 2int,
    {
        let ghost m = self@;
        let _ = self.next_char();
        let mut term = match self.parse_term(binder) {
            Ok(w) => w,
            Err(e) => {
                return Err(e);
            },
        };
        self.skip_whitespace();
        let ghost target = app_rest(self@, binder, label, term.0);
        assert(target == app_result(m, binder, label));
        while self.peek() != Some(')')
            invariant
                self.wf(),
                m == old(self)@,
                target == app_result(old(self)@, binder, label),
                app_rest(self@, binder, label, term.0) == target,
                grows(m, self@),
                m.dest_index <= term.0 < self.dest_index,
                !self@.aliases.contains_key(term.0),
                !has_value(self@.aliases, term.0),
                flat(m.aliases) ==> flat(self@.aliases),
                self.budget < m.budget,
            decreases self.budget,
        {
            let ghost s = self@;
            let new_term = match self.parse_term(binder) {
                Ok(w) => w,
                Err(e) => {
                    return Err(e);
                },
            };
            if self.dest_index > u64::MAX - 3 {
                return Err(ParseError::Overflow);
            }
            let (p0, p1, p2) = self.add_node(true, true, false, label);
            let ghost m2 = self@;
            proof {
                lemma_connect_fresh(m2, term.0, p0.0);
            }
            self.connect(&term, &p0);
            let ghost m3 = self@;
            proof {
                lemma_connect_fresh(m3, new_term.0, p1.0);
            }
            self.connect(&new_term, &p1);
            term = p2;
            self.skip_whitespace();
        }
        let _ = self.next_char();
        Ok(term)
    }

    /// Reads a superposition whose `{` is next (see `sup_result`).
    ///
    /// The opening character must be there to be read.
    pub fn parse_sup(&mut self, binder: bool, label: u64) -> (r: Result<WireId, ParseError>)
        requires
            old(self).wf(),
            old(self)@.peek() is Some,
        ensures
            (final(self)@, wire_result(r)) == sup_result(old(self)@, binder, label),
            final(self).wf(),
            grows(old(self)@, final(self)@),
            fresh_wire(old(self)@, final(self)@, wire_result(r)),
            flat(old(self)@.aliases) ==> flat(final(self)@.aliases),
        decreases old(self).budget, 2int,
    {
        let ghost m = self@;
        let _ = self.next_char();
        let mut term = match self.parse_term(binder) {
            Ok(w) => w,
            Err(e) => {
                return Err(e);
            },
        };
        self.skip_whitespace();
        let ghost target = sup_rest(self@, binder, label, term.0);
        assert(target == sup_result(m, binder, label));
        while self.peek() != Some('}')
            invariant
                self.wf(),
                m == old(self)@,
                target == sup_result(old(self)@, binder, label),
                sup_rest(self@, binder, label, term.0) == target,
                grows(m, self@),
                m.dest_index <= term.0 < self.dest_index,
                !self@.aliases.contains_key(term.0),
                !has_value(self@.aliases, term.0),
                flat(m.aliases) ==> flat(self@.aliases),
                self.budget < m.budget,
            decreases self.budget,
        {
            let new_term = match self.parse_term(binder) {
                Ok(w) => w,
                Err(e) => {
                    return Err(e);
                },
            };
            if self.dest_index > u64::MAX - 3 {
                return Err(ParseError::Overflow);
            }
            let (p0, p1, p2) = self.add_node(true, true, false, label);
            let ghost m2 = self@;
            proof {
                lemma_connect_fresh(m2, term.0, p1.0);
            }
            self.connect(&term, &p1);
            let ghost m3 = self@;
            proof {
                lemma_connect_fresh(m3, new_term.0, p2.0);
            }
            self.connect(&new_term, &p2);
            term = p0;
            self.skip_whitespace();
        }
        let _ = self.next_char();
        Ok(term)
    }

    /// Reads the bound term, `=` and the value of a `let` or `ask` (see
    /// `binding_result`).
    fn parse_binding(&mut self, binder: bool) -> (r: Result<(WireId, WireId), ParseError>)
        requires
            old(self).wf(),
        ensures
            final(self)@ == binding_result(old(self)@, binder).0,
            match r {
                Ok(bv) => binding_result(old(self)@, binder).1 == Ok::<(u64, u64), ParseError>((bv.0.0, bv.1.0)),
                Err(e) => binding_result(old(self)@, binder).1 == Err::<(u64, u64), ParseError>(e),
            },
            final(self).wf(),
            grows(old(self)@, final(self)@),
            r is Ok ==> old(self).dest_index <= r->Ok_0.0.0 < final(self).dest_index
                && !final(self)@.aliases.contains_key(r->Ok_0.0.0) && !has_value(final(self)@.aliases, r->Ok_0.0.0),
            r is Ok ==> old(self).dest_index <= r->Ok_0.1.0 < final(self).dest_index
                && !final(self)@.aliases.contains_key(r->Ok_0.1.0) && !has_value(final(self)@.aliases, r->Ok_0.1.0),
            r is Ok ==> r->Ok_0.0.0 < r->Ok_0.1.0,
            flat(old(self)@.aliases) ==> flat(final(self)@.aliases),
        decreases old(self).budget, 1int,
    {
        let ghost m = self@;
        let bind = match self.parse_term(!binder) {
            Ok(w) => w,
            Err(e) => {
                return Err(e);
            },
        };
        let ghost mb = self@;
        self.skip_whitespace();
        proof {
            reveal_strlit("=");
            assert("="@ =~= seq!['=']);
        }
        if !self.looking_at("=") {
            return Err(ParseError::ExpectedText);
        }
        proof {
            lemma_ws_end_idem(mb.input, mb.pos);
        }
        let ghost m1 = self@;
        self.parse_skip_text("=");
        assert(self@ == (Model { pos: m1.pos + 1, ..m1 }));
        let value = match self.parse_term(binder) {
            Ok(w) => w,
            Err(e) => {
                return Err(e);
            },
        };
        Ok((bind, value))
    }

    /// Reads a `let` after its keyword (see `let_result`).
    fn parse_let(&mut self, binder: bool) -> (r: Result<WireId, ParseError>)
        requires
            old(self).wf(),
        ensures
            (final(self)@, wire_result(r)) == let_result(old(self)@, binder),
            final(self).wf(),
            grows(old(self)@, final(self)@),
            fresh_wire(old(self)@, final(self)@, wire_result(r)),
            flat(old(self)@.aliases) ==> flat(final(self)@.aliases),
        decreases old(self).budget, 2int,
    {
        let (bind, value) = match self.parse_binding(binder) {
            Ok(bv) => bv,
            Err(e) => {
                return Err(e);
            },
        };
        let body = match self.parse_term(binder) {
            Ok(w) => w,
            Err(e) => {
                return Err(e);
            },
        };
        let ghost m2 = self@;
        proof {
            lemma_connect_fresh(m2, bind.0, value.0);
        }
        self.connect(&bind, &value);
        Ok(body)
    }

    /// Reads an `ask` after its keyword (see `ask_result`).
    fn parse_ask(&mut self, binder: bool) -> (r: Result<WireId, ParseError>)
        requires
            old(self).wf(),
        ensures
            (final(self)@, wire_result(r)) == ask_result(old(self)@, binder),
            final(self).wf(),
            grows(old(self)@, final(self)@),
            fresh_wire(old(self)@, final(self)@, wire_result(r)),
            flat(old(self)@.aliases) ==> flat(final(self)@.aliases),
        decreases old(self).budget, 2int,
    {
        let (bind, value) = match self.parse_binding(binder) {
            Ok(bv) => bv,
            Err(e) => {
                return Err(e);
            },
        };
        let body = match self.parse_term(binder) {
            Ok(w) => w,
            Err(e) => {
                return Err(e);
            },
        };
        if self.dest_index > u64::MAX - 3 {
            return Err(ParseError::Overflow);
        }
        let (l0, l1, l2) = self.add_node(true, true, false, 0);
        let ghost m3 = self@;
        proof {
            lemma_connect_fresh(m3, l1.0, bind.0);
        }
        self.connect(&l1, &bind);
        let ghost m4 = self@;
        proof {
            lemma_connect_fresh(m4, l2.0, body.0);
        }
        self.connect(&l2, &body);
        if self.dest_index > u64::MAX - 3 {
            return Err(ParseError::Overflow);
        }
        let (a0, a1, a2) = self.add_node(true, true, false, 0);
        let ghost m5 = self@;
        proof {
            lemma_connect_fresh(m5, value.0, a0.0);
        }
        self.connect(&value, &a0);
        let ghost m6 = self@;
        proof {
            lemma_connect_fresh(m6, l0.0, a1.0);
        }
        self.connect(&l0, &a1);
        Ok(a2)
    }
}

} // verus!