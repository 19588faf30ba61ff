//! The compiler's state while it reads a term: the input and the position in
//! it, the variables and labels met so far, the nodes built and the aliases
//! between wires; and the operations on it that the parser is built from.

use vstd::prelude::*;
use crate::alias::{
    connect_map, follow, lemma_follow_stable, lemma_follow_succ, lemma_link_unique,
    lemma_resolve_unique, link_iter, redirect_map, resolves, AliasMap,
};
use crate::net::{NodeData, VarData, WireId};
use crate::table::{lemma_table_set_entries, lemma_table_set_get, names_increasing, table_get, table_set, NameTable};

verus! {

/// Why reading a term stopped.
#[derive(Clone, Copy, Debug, PartialEq, Eq, Structural)]
pub enum ParseError {
    /// The input ended where a term was expected.
    ExpectedTerm,
    /// The text after `let` or `ask` and its binder was not the expected `=`.
    ExpectedText,
    /// A counter (wire, label or variable count) would pass `u64::MAX`.
    Overflow,
    /// The step budget of the state ran out (the reader may otherwise loop
    /// forever, for instance on `(a !)`).
    OutOfBudget,
}

/// A result carrying a wire, with the wire taken as its number.
pub open spec fn wire_result(r: Result<WireId, ParseError>) -> Result<u64, ParseError> {
    match r {
        Ok(w) => Ok(w.0),
        Err(e) => Err(e),
    }
}

/// Whether `c` is ASCII whitespace: space, tab, line feed, form feed or
/// carriage return.
pub open spec fn is_ws(c: char) -> bool {
    c == ' ' || c == '\t' || c == '\n' || c == '\x0C' || c == '\r'
}

/// Whether `c` may stand in a name: not whitespace and none of
/// `( ) [ ] { } @ λ ! ? ;`.
pub open spec fn is_name_char_spec(c: char) -> bool {
    &&& !is_ws(c)
    &&& c != '(' && c != ')' && c != '[' && c != ']' && c != '{' && c != '}'
    &&& c != '@' && c != '\u{3bb}' && c != '!' && c != '?' && c != ';'
}

/// The first position at or after `pos` that does not hold whitespace.
pub open spec fn ws_end(input: Seq<char>, pos: int) -> int
    decreases input.len() - pos,
{
    if 0 <= pos < input.len() && is_ws(input[pos]) {
        ws_end(input, pos + 1)
    } else {
        pos
    }
}

/// The first position at or after `pos` that does not hold a name character.
pub open spec fn name_end(input: Seq<char>, pos: int) -> int
    decreases input.len() - pos,
{
    if 0 <= pos < input.len() && is_name_char_spec(input[pos]) {
        name_end(input, pos + 1)
    } else {
        pos
    }
}

proof fn lemma_ws_end_bounds(input: Seq<char>, pos: int)
    requires
        0 <= pos <= input.len(),
    ensures
        pos <= ws_end(input, pos) <= input.len(),
        ws_end(input, pos) < input.len() ==> !is_ws(input[ws_end(input, pos)]),
    decreases input.len() - pos,
{
    if pos < input.len() && is_ws(input[pos]) {
        lemma_ws_end_bounds(input, pos + 1);
    }
}

pub(crate) proof fn lemma_name_end_bounds(input: Seq<char>, pos: int)
    requires
        0 <= pos <= input.len(),
    ensures
        pos <= name_end(input, pos) <= input.len(),
    decreases input.len() - pos,
{
    if pos < input.len() && is_name_char_spec(input[pos]) {
        lemma_name_end_bounds(input, pos + 1);
    }
}

/// Whether every wire in `m`, as key or as value, is below `d`.
pub open spec fn wires_below(m: Map<u64, u64>, d: u64) -> bool {
    forall|k: u64| #[trigger] m.contains_key(k) ==> k < d && m[k] < d
}

/// Whether every label given to a name is below `next`.
pub open spec fn labels_below(labels: Seq<(Seq<char>, u64)>, next: u64) -> bool {
    forall|i: int| 0 <= i < labels.len() ==> #[trigger] labels[i].1 < next
}

/// The mathematical state: what a `State` stands for.
pub struct Model {
    pub input: Seq<char>,
    pub pos: int,
    pub vars: Seq<(Seq<char>, VarData)>,
    pub nodes: Seq<NodeData>,
    pub aliases: Map<u64, u64>,
    pub label_index: u64,
    pub node_index: u64,
    pub labels: Seq<(Seq<char>, u64)>,
    pub dest_index: u64,
    pub budget: u64,
}

impl Model {
    /// The invariant of the state: the position lies in the input, both tables
    /// are in name order, every label given to a name was handed out already
    /// (is below `label_index`), and every wire in the aliases was handed out
    /// already (is below `dest_index`).
    pub open spec fn wf(self) -> bool {
        &&& 0 <= self.pos <= self.input.len()
        &&& names_increasing(self.vars)
        &&& names_increasing(self.labels)
        &&& labels_below(self.labels, self.label_index)
        &&& wires_below(self.aliases, self.dest_index)
    }

    /// The state that starts reading `input`, allowed to read up to `budget`
    /// terms: nothing read, nothing met, nothing built.
    pub open spec fn start(input: Seq<char>, budget: u64) -> Model {
        Model {
            input,
            pos: 0,
            vars: Seq::empty(),
            nodes: Seq::empty(),
            aliases: Map::empty(),
            label_index: 0,
            node_index: 0,
            labels: Seq::empty(),
            dest_index: 0,
            budget,
        }
    }

    /// The next character of the input, if any.
    pub open spec fn peek(self) -> Option<char> {
        if 0 <= self.pos < self.input.len() {
            Some(self.input[self.pos])
        } else {
            None
        }
    }

    /// The state after reading one character (none at the end of input).
    pub open spec fn advance(self) -> Model {
        if self.pos < self.input.len() {
            Model { pos: self.pos + 1, ..self }
        } else {
            self
        }
    }

    /// The state after skipping whitespace.
    pub open spec fn skip_ws(self) -> Model {
        Model { pos: ws_end(self.input, self.pos), ..self }
    }

    /// The name that starts at the position.
    pub open spec fn name_at(self) -> Seq<char> {
        self.input.subrange(self.pos, name_end(self.input, self.pos))
    }

    /// The state after reading the name that starts at the position.
    pub open spec fn skip_name(self) -> Model {
        Model { pos: name_end(self.input, self.pos), ..self }
    }

    /// Whether the input at the position starts with `text`.
    pub open spec fn looking_at(self, text: Seq<char>) -> bool {
        &&& self.pos + text.len() <= self.input.len()
        &&& self.input.subrange(self.pos, self.pos + text.len()) == text
    }

    /// Adding a node with the given flags and label: its three ports get the
    /// next three wires, which are returned.
    pub open spec fn add_node(self, primary: bool, vanilla: bool, lazy: bool, label: u64) -> (Model, (u64, u64, u64)) {
        let d = self.dest_index;
        let node = NodeData {
            primary,
            vanilla,
            lazy,
            label,
            p0: WireId(d),
            p1: WireId((d + 1) as u64),
            p2: WireId((d + 2) as u64),
        };
        (Model { nodes: self.nodes.push(node), dest_index: (d + 3) as u64, ..self }, (d, (d + 1) as u64, (d + 2) as u64))
    }

    /// Handing out the next wire, connected to nothing.
    pub open spec fn new_wire(self) -> (Model, u64) {
        (Model { dest_index: (self.dest_index + 1) as u64, ..self }, self.dest_index)
    }

    /// The label for a superposition: a fresh one when no name is given or
    /// the name has no label yet (it is then recorded for the name); for a
    /// name that already has one, the label counter as it stands, with
    /// nothing changed (the label that recording it would have used).
    pub open spec fn label_or_generate(self, q: Option<Seq<char>>) -> (Model, u64) {
        match q {
            None => (Model { label_index: (self.label_index + 1) as u64, ..self }, self.label_index),
            Some(name) => match table_get(self.labels, name) {
                Some(_) => (self, self.label_index),
                None => (
                    Model {
                        labels: table_set(self.labels, name, self.label_index),
                        label_index: (self.label_index + 1) as u64,
                        ..self
                    },
                    self.label_index,
                ),
            },
        }
    }

    /// What the table of variables says of `name`.
    pub open spec fn var_data(self, name: Seq<char>) -> VarData {
        match table_get(self.vars, name) {
            Some(d) => d,
            None => VarData::empty(),
        }
    }

    /// Reading the variable `name`, as a binder or as a use. The first binder
    /// (use) of a name gets a fresh wire, remembered in its entry; a later one
    /// gets auxiliary port 2 of a fresh node labelled 1 (3 for uses). Fails
    /// with `Overflow` where a counter would pass `u64::MAX`.
    pub open spec fn parse_var(self, name: Seq<char>, binder: bool) -> (Model, Result<u64, ParseError>) {
        let data = self.var_data(name);
        if binder {
            if data.binder_count == u64::MAX {
                (self, Err(ParseError::Overflow))
            } else if data.to_binder is Some {
                if self.dest_index > u64::MAX - 3 {
                    (self, Err(ParseError::Overflow))
                } else {
                    let d2 = VarData { binder_count: (data.binder_count + 1) as u64, ..data };
                    let m1 = Model { vars: table_set(self.vars, name, d2), ..self };
                    let (m2, w) = m1.add_node(true, true, false, 1);
                    (m2, Ok(w.2))
                }
            } else {
                if self.dest_index == u64::MAX {
                    (self, Err(ParseError::Overflow))
                } else {
                    let (m1, w) = self.new_wire();
                    let d2 = VarData { binder_count: (data.binder_count + 1) as u64, to_binder: Some(WireId(w)), ..data };
                    (Model { vars: table_set(m1.vars, name, d2), ..m1 }, Ok(w))
                }
            }
        } else {
            if data.user_count == u64::MAX {
                (self, Err(ParseError::Overflow))
            } else if data.to_user is Some {
                if self.dest_index > u64::MAX - 3 {
                    (self, Err(ParseError::Overflow))
                } else {
                    let d2 = VarData { user_count: (data.user_count + 1) as u64, ..data };
                    let m1 = Model { vars: table_set(self.vars, name, d2), ..self };
                    let (m2, w) = m1.add_node(true, true, false, 3);
                    (m2, Ok(w.2))
                }
            } else {
                if self.dest_index == u64::MAX {
                    (self, Err(ParseError::Overflow))
                } else {
                    let (m1, w) = self.new_wire();
                    let d2 = VarData { user_count: (data.user_count + 1) as u64, to_user: Some(WireId(w)), ..data };
                    (Model { vars: table_set(m1.vars, name, d2), ..m1 }, Ok(w))
                }
            }
        }
    }
}

/// After asking for the label of a name, the name has a label; asking
/// again for that name then changes nothing and gives the label counter as
/// it stands.
pub proof fn lemma_label_named(m: Model, name: Seq<char>)
    requires
        m.wf(),
    ensures
        ({
            let (m1, l) = m.label_or_generate(Some(name));
            &&& table_get(m1.labels, name) is Some
            &&& m1.label_or_generate(Some(name)) == (m1, m1.label_index)
        }),
{
    if table_get(m.labels, name) is None {
        lemma_table_set_get(m.labels, name, m.label_index, name);
    }
}

/// A label handed out fresh (for no name, or for a name not seen before)
/// differs from every label already given to a name; the state stays well
/// formed.
pub proof fn lemma_label_fresh(m: Model, q: Option<Seq<char>>, other: Seq<char>)
    requires
        m.wf(),
        q is None || table_get(m.labels, q->0) is None,
        m.label_index < u64::MAX,
    ensures
        m.label_or_generate(q).0.wf(),
        m.label_or_generate(q).1 == m.label_index,
        table_get(m.labels, other) matches Some(l) ==> l != m.label_or_generate(q).1,
{
    if table_get(m.labels, other) is Some {
        let i = crate::table::name_index(m.labels, other);
        assert(m.labels[i].1 < m.label_index);
    }
    if let Some(name) = q {
        let m1 = m.label_or_generate(q).0;
        lemma_table_set_get(m.labels, name, m.label_index, name);
        assert forall|i: int| 0 <= i < m1.labels.len() implies #[trigger] m1.labels[i].1 < m1.label_index by {
            lemma_table_set_entries(m.labels, name, m.label_index, i);
        }
    }
}

/// Reading the variables of `calls` (each a name and whether it is a
/// binder) one after another from `m`: the state after them and the result
/// of each.
pub open spec fn var_calls(m: Model, calls: Seq<(Seq<char>, bool)>) -> (Model, Seq<Result<u64, ParseError>>)
    decreases calls.len(),
{
    if calls.len() == 0 {
        (m, Seq::empty())
    } else {
        let (m1, rs) = var_calls(m, calls.drop_last());
        let (m2, r) = m1.parse_var(calls.last().0, calls.last().1);
        (m2, rs.push(r))
    }
}

/// How many of `calls` read `name` as a binder (`binder`) or as a use.
pub open spec fn count_calls(calls: Seq<(Seq<char>, bool)>, name: Seq<char>, binder: bool) -> nat
    decreases calls.len(),
{
    if calls.len() == 0 {
        0
    } else {
        count_calls(calls.drop_last(), name, binder) + if calls.last() == (name, binder) { 1nat } else { 0nat }
    }
}

/// The position of the first of `calls` that reads `name` as a binder
/// (`binder`) or as a use, if any.
pub open spec fn first_call(calls: Seq<(Seq<char>, bool)>, name: Seq<char>, binder: bool) -> Option<int>
    decreases calls.len(),
{
    if calls.len() == 0 {
        None
    } else {
        match first_call(calls.drop_last(), name, binder) {
            Some(i) => Some(i),
            None => if calls.last() == (name, binder) {
                Some(calls.len() - 1)
            } else {
                None
            },
        }
    }
}

proof fn lemma_var_calls_len(m: Model, calls: Seq<(Seq<char>, bool)>)
    ensures
        var_calls(m, calls).1.len() == calls.len(),
    decreases calls.len(),
{
    if calls.len() > 0 {
        lemma_var_calls_len(m, calls.drop_last());
    }
}

proof fn lemma_first_call_range(calls: Seq<(Seq<char>, bool)>, name: Seq<char>, binder: bool)
    ensures
        first_call(calls, name, binder) matches Some(i) ==> 0 <= i < calls.len() && calls[i] == (name, binder),
    decreases calls.len(),
{
    if calls.len() > 0 {
        lemma_first_call_range(calls.drop_last(), name, binder);
    }
}

/// The variable law: reading variables one after another from a fresh
/// state, all successfully, each name's binder (use) count is the number of
/// times it was read as a binder (use), and the wire recorded for its binder
/// (use) is the result of the first such read, or none if there was none.
pub proof fn lemma_var_calls(input: Seq<char>, budget: u64, calls: Seq<(Seq<char>, bool)>, name: Seq<char>)
    requires
        forall|i: int| 0 <= i < calls.len() ==> (#[trigger] var_calls(Model::start(input, budget), calls).1[i]) is Ok,
    ensures
        ({
            let (mf, rs) = var_calls(Model::start(input, budget), calls);
            let d = mf.var_data(name);
            &&& names_increasing(mf.vars)
            &&& rs.len() == calls.len()
            &&& d.binder_count == count_calls(calls, name, true)
            &&& d.user_count == count_calls(calls, name, false)
            &&& d.to_binder == match first_call(calls, name, true) {
                Some(i) => Some(WireId(rs[i]->Ok_0)),
                None => None,
            }
            &&& d.to_user == match first_call(calls, name, false) {
                Some(i) => Some(WireId(rs[i]->Ok_0)),
                None => None,
            }
        }),
    decreases calls.len(),
{
    let m = Model::start(input, budget);
    if calls.len() == 0 {
        assert(m.var_data(name) == VarData::empty());
    } else {
        let c = calls.drop_last();
        let (m1, rs1) = var_calls(m, c);
        let (mf, rs) = var_calls(m, calls);
        lemma_var_calls_len(m, c);
        assert(rs == rs1.push(m1.parse_var(calls.last().0, calls.last().1).1));
        assert forall|i: int| 0 <= i < c.len() implies (#[trigger] var_calls(m, c).1[i]) is Ok by {
            assert(rs[i] == rs1[i]);
        }
        lemma_var_calls(input, budget, c, name);
        let (n2, b2) = calls.last();
        let data = m1.var_data(n2);
        let r = m1.parse_var(n2, b2).1;
        assert(rs[calls.len() - 1] == r);
        assert(r is Ok);
        let d2 = if b2 {
            if data.to_binder is Some {
                VarData { binder_count: (data.binder_count + 1) as u64, ..data }
            } else {
                VarData { binder_count: (data.binder_count + 1) as u64, to_binder: Some(WireId(r->Ok_0)), ..data }
            }
        } else {
            if data.to_user is Some {
                VarData { user_count: (data.user_count + 1) as u64, ..data }
            } else {
                VarData { user_count: (data.user_count + 1) as u64, to_user: Some(WireId(r->Ok_0)), ..data }
            }
        };
        assert(mf.vars == table_set(m1.vars, n2, d2));
        lemma_table_set_get(m1.vars, n2, d2, name);
        lemma_first_call_range(c, name, true);
        lemma_first_call_range(c, name, false);
        if let Some(i) = first_call(c, name, true) {
            assert(rs[i] == rs1[i]);
        }
        if let Some(i) = first_call(c, name, false) {
            assert(rs[i] == rs1[i]);
        }
    }
}

/// Whether `c` is ASCII whitespace.
fn is_ascii_ws(c: char) -> (r: bool)
    ensures
        r == is_ws(c),
{
    c == ' ' || c == '\t' || c == '\n' || c == '\x0C' || c == '\r'
}

/// The compiler's state.
pub struct State {
    /// The characters of the input.
    pub input: Vec<char>,
    /// How many of them have been read.
    pub pos: usize,
    /// The variables met so far, in name order.
    pub vars: NameTable<VarData>,
    /// The nodes built so far.
    pub node_data: Vec<NodeData>,
    /// Wires known to be the same as other wires.
    pub aliases: AliasMap,
    /// The next fresh superposition label.
    pub label_index: u64,
    /// Unused counter, kept with the state.
    pub node_index: u64,
    /// Labels given to named superpositions.
    pub label_map: NameTable<u64>,
    /// The next fresh wire.
    pub dest_index: u64,
    /// How many more terms may be read.
    pub budget: u64,
}

impl View for State {
    type V = Model;

    open spec fn view(&self) -> Model {
        Model {
            input: self.input@,
            pos: self.pos as int,
            vars: self.vars@,
            nodes: self.node_data@,
            aliases: self.aliases@,
            label_index: self.label_index,
            node_index: self.node_index,
            labels: self.label_map@,
            dest_index: self.dest_index,
            budget: self.budget,
        }
    }
}

impl State {
    /// The invariant: that of the model, and the alias table in key order.
    pub open spec fn wf(&self) -> bool {
        self@.wf() && self.aliases.wf()
    }

    /// A fresh state that reads `input`, allowed to read up to `budget` terms.
    pub fn with_budget(input: Vec<char>, budget: u64) -> (r: State)
        ensures
            r.wf(),
            r@ == Model::start(input@, budget),
    {
        State {
            input,
            pos: 0,
            vars: NameTable::new(),
            node_data: Vec::new(),
            aliases: AliasMap::new(),
            label_index: 0,
            node_index: 0,
            label_map: NameTable::new(),
            dest_index: 0,
            budget,
        }
    }

    /// A fresh state that reads `input`, with the largest budget.
    pub fn new(input: Vec<char>) -> (r: State)
        ensures
            r.wf(),
            r@ == Model::start(input@, u64::MAX),
    {
        State::with_budget(input, u64::MAX)
    }

    /// The next character, without reading it.
    pub fn peek(&self) -> (r: Option<char>)
        requires
            self.wf(),
        ensures
            r == self@.peek(),
    {
        if self.pos < self.input.len() {
            Some(self.input[self.pos])
        } else {
            None
        }
    }

    /// Reads the next character.
    pub fn next_char(&mut self) -> (r: Option<char>)
        requires
            old(self).wf(),
        ensures
            r == old(self)@.peek(),
            final(self)@ == old(self)@.advance(),
            final(self).wf(),
            final(self).aliases == old(self).aliases,
    {
        if self.pos < self.input.len() {
            let c = self.input[self.pos];
            self.pos = self.pos + 1;
            Some(c)
        } else {
            None
        }
    }

    /// Takes one unit of the budget; false when none is left.
    pub fn take_budget(&mut self) -> (r: bool)
        ensures
            r == (old(self).budget > 0),
            final(self)@ == (Model { budget: if r { (old(self).budget - 1) as u64 } else { old(self).budget }, ..old(self)@ }),
            final(self).aliases == old(self).aliases,
    {
        if self.budget > 0 {
            self.budget = self.budget - 1;
            true
        } else {
            false
        }
    }

    /// Whether `c` may stand in a name.
    pub fn is_name_char(c: &char) -> (r: bool)
        ensures
            r == is_name_char_spec(*c),
    {
        let c = *c;
        !is_ascii_ws(c) && !(c == '(' || c == ')' || c == '[' || c == ']' || c == '{' || c == '}' || c == '@' || c
            == '\u{3bb}' || c == '!' || c == '?' || c == ';')
    }

    /// Skips whitespace.
    pub fn skip_whitespace(&mut self)
        requires
            old(self).wf(),
        ensures
            final(self)@ == old(self)@.skip_ws(),
            final(self).wf(),
            final(self).aliases == old(self).aliases,
    {
        proof {
            lemma_ws_end_bounds(self.input@, self.pos as int);
        }
        while self.pos < self.input.len() && is_ascii_ws(self.input[self.pos])
            invariant
                self.wf(),
                self@ == (Model { pos: self.pos as int, ..old(self)@ }),
                self.aliases == old(self).aliases,
                ws_end(self.input@, self.pos as int) == ws_end(old(self).input@, old(self).pos as int),
            decreases self.input@.len() - self.pos,
        {
            self.pos = self.pos + 1;
        }
    }

    /// Skips whitespace; never fails.
    pub fn parse_whitespace(&mut self) -> (r: Result<(), ParseError>)
        requires
            old(self).wf(),
        ensures
            r is Ok,
            final(self)@ == old(self)@.skip_ws(),
            final(self).wf(),
            final(self).aliases == old(self).aliases,
    {
        self.skip_whitespace();
        Ok(())
    }

    /// Reads the (possibly empty) name at the position; never fails.
    pub fn parse_name(&mut self) -> (r: Result<Vec<char>, ParseError>)
        requires
            old(self).wf(),
        ensures
            r is Ok,
            r->Ok_0@ == old(self)@.name_at(),
            final(self)@ == old(self)@.skip_name(),
            final(self).wf(),
            final(self).aliases == old(self).aliases,
    {
        let mut s: Vec<char> = Vec::new();
        let ghost start = self.pos as int;
        proof {
            lemma_name_end_bounds(self.input@, start);
        }
        while self.pos < self.input.len() && State::is_name_char(&self.input[self.pos])
            invariant
                self.wf(),
                self@ == (Model { pos: self.pos as int, ..old(self)@ }),
                self.aliases == old(self).aliases,
                0 <= start <= self.pos,
                s@ == self.input@.subrange(start, self.pos as int),
                name_end(self.input@, self.pos as int) == name_end(self.input@, start),
            decreases self.input@.len() - self.pos,
        {
            s.push(self.input[self.pos]);
            assert(self.input@.subrange(start, self.pos + 1) =~= self.input@.subrange(start, self.pos as int).push(self.input@[self.pos as int]));
            self.pos = self.pos + 1;
        }
        Ok(s)
    }

    /// Adds a node with the given flags and label; its ports get the next
    /// three wires, which are returned.
    ///
    /// The wire counter must not pass `u64::MAX`.
    pub fn add_node(&mut self, primary: bool, vanilla: bool, lazy: bool, label: u64) -> (r: (WireId, WireId, WireId))
        requires
            old(self).wf(),
            old(self).dest_index <= u64::MAX - 3,
        ensures
            final(self)@ == old(self)@.add_node(primary, vanilla, lazy, label).0,
            (r.0.0, r.1.0, r.2.0) == old(self)@.add_node(primary, vanilla, lazy, label).1,
            final(self).wf(),
            final(self).aliases == old(self).aliases,
    {
        self.dest_index = self.dest_index + 3;
        self.node_data.push(
            NodeData {
                primary,
                vanilla,
                lazy,
                label,
                p0: WireId(self.dest_index - 3),
                p1: WireId(self.dest_index - 2),
                p2: WireId(self.dest_index - 1),
            },
        );
        (WireId(self.dest_index - 3), WireId(self.dest_index - 2), WireId(self.dest_index - 1))
    }

    /// Hands out the next wire, connected to nothing.
    ///
    /// The wire counter must not pass `u64::MAX`.
    pub fn new_dangling_wire(&mut self) -> (r: WireId)
        requires
            old(self).wf(),
            old(self).dest_index < u64::MAX,
        ensures
            final(self)@ == old(self)@.new_wire().0,
            r.0 == old(self)@.new_wire().1,
            final(self).wf(),
            final(self).aliases == old(self).aliases,
    {
        self.dest_index = self.dest_index + 1;
        WireId(self.dest_index - 1)
    }

    /// The label for a superposition (see `Model::label_or_generate`).
    ///
    /// A fresh label must not pass `u64::MAX`.
    pub fn label_or_generate(&mut self, q: Option<Vec<char>>) -> (r: u64)
        requires
            old(self).wf(),
            (q is None || table_get(old(self)@.labels, q->0@) is None) ==> old(self).label_index < u64::MAX,
        ensures
            final(self)@ == old(self)@.label_or_generate(match q { Some(v) => Some(v@), None => None }).0,
            r == old(self)@.label_or_generate(match q { Some(v) => Some(v@), None => None }).1,
            final(self).wf(),
            final(self).aliases == old(self).aliases,
    {
        match q {
            None => {
                self.label_index = self.label_index + 1;
                self.label_index - 1
            },
            Some(label) => {
                match self.label_map.get(&label) {
                    Some(_) => self.label_index,
                    None => {
                        let ghost before = self@.labels;
                        let ghost nm = label@;
                        self.label_map.set(label, self.label_index);
                        self.label_index = self.label_index + 1;
                        proof {
                            assert forall|i: int| 0 <= i < self@.labels.len() implies #[trigger] self@.labels[i].1
                                < self.label_index by {
                                lemma_table_set_entries(before, nm, (self.label_index - 1) as u64, i);
                            }
                        }
                        self.label_index - 1
                    },
                }
            },
        }
    }

    /// Reads the variable `name` as a binder or a use (see `Model::parse_var`).
    pub fn parse_var(&mut self, name: Vec<char>, binder: bool) -> (r: Result<WireId, ParseError>)
        requires
            old(self).wf(),
        ensures
            final(self)@ == old(self)@.parse_var(name@, binder).0,
            wire_result(r) == old(self)@.parse_var(name@, binder).1,
            final(self).wf(),
            final(self).aliases == old(self).aliases,
    {
        let data = match self.vars.get(&name) {
            Some(d) => d,
            None => VarData::default(),
        };
        if binder {
            if data.binder_count == u64::MAX {
                return Err(ParseError::Overflow);
            }
            if data.to_binder.is_some() {
                if self.dest_index > u64::MAX - 3 {
                    return Err(ParseError::Overflow);
                }
                self.vars.set(name, VarData { binder_count: data.binder_count + 1, ..data });
                let (_p0, _p1, p2) = self.add_node(true, true, false, 1);
                Ok(p2)
            } else {
                if self.dest_index == u64::MAX {
                    return Err(ParseError::Overflow);
                }
                let w = self.new_dangling_wire();
                self.vars.set(name, VarData { binder_count: data.binder_count + 1, to_binder: Some(w), ..data });
                Ok(w)
            }
        } else {
            if data.user_count == u64::MAX {
                return Err(ParseError::Overflow);
            }
            if data.to_user.is_some() {
                if self.dest_index > u64::MAX - 3 {
                    return Err(ParseError::Overflow);
                }
                self.vars.set(name, VarData { user_count: data.user_count + 1, ..data });
                let (_p0, _p1, p2) = self.add_node(true, true, false, 3);
                Ok(p2)
            } else {
                if self.dest_index == u64::MAX {
                    return Err(ParseError::Overflow);
                }
                let w = self.new_dangling_wire();
                self.vars.set(name, VarData { user_count: data.user_count + 1, to_user: Some(w), ..data });
                Ok(w)
            }
        }
    }

    /// Whether the input at the position starts with `text`.
    pub fn looking_at(&self, text: &str) -> (r: bool)
        requires
            self.wf(),
        ensures
            r == self@.looking_at(text@),
    {
        let n = text.unicode_len();
        if n > self.input.len() - self.pos {
            return false;
        }
        let mut i: usize = 0;
        while i < n
            invariant
                self.wf(),
                n == text@.len(),
                i <= n,
                self.pos + n <= self.input@.len(),
                self.input@.len() <= usize::MAX,
                forall|j: int| 0 <= j < i ==> self.input@[self.pos + j] == text@[j],
            decreases n - i,
        {
            if self.input[self.pos + i] != text.get_char(i) {
                assert(self.input@.subrange(self.pos as int, self.pos + n)[i as int] != text@[i as int]);
                return false;
            }
            i = i + 1;
        }
        assert(self.input@.subrange(self.pos as int, self.pos + n) =~= text@);
        true
    }

    /// Skips whitespace and then reads `text`.
    ///
    /// The input must go on with `text` after the whitespace.
    pub fn parse_skip_text(&mut self, text: &str)
        requires
            old(self).wf(),
            old(self)@.skip_ws().looking_at(text@),
        ensures
            final(self)@ == (Model { pos: old(self)@.skip_ws().pos + text@.len(), ..old(self)@ }),
            final(self).wf(),
            final(self).aliases == old(self).aliases,
    {
        self.skip_whitespace();
        let n = text.unicode_len();
        let ghost start = self.pos as int;
        let mut i: usize = 0;
        while i < n
            invariant
                self.wf(),
                n == text@.len(),
                i <= n,
                self@ == (Model { pos: start + i, ..old(self)@ }),
                self.aliases == old(self).aliases,
                start == old(self)@.skip_ws().pos,
                0 <= start,
                start + n <= self.input@.len(),
                self.input@.subrange(start, start + n) == text@,
            decreases n - i,
        {
            assert(self.input@[start + i] == self.input@.subrange(start, start + n)[i as int]);
            let c = self.next_char();
            let t = text.get_char(i);
            assert(c == Some(t));
            i = i + 1;
        }
    }

    /// Connects wire `a` to wire `b` (see `connect_map`): `b` is followed
    /// through the aliases to the wire where its chain ends, every alias of
    /// `a` is pointed there, and `a` and its chain are pointed there.
    ///
    /// The chain from `b` must end.
    pub fn connect(&mut self, a: &WireId, b: &WireId)
        requires
            old(self).aliases.wf(),
            resolves(old(self)@.aliases, b.0),
        ensures
            final(self).aliases.wf(),
            final(self)@ == (Model { aliases: connect_map(old(self)@.aliases, a.0, b.0), ..old(self)@ }),
            final(self).vars == old(self).vars,
            final(self).label_map == old(self).label_map,
            final(self).node_data == old(self).node_data,
    {
        let ghost m = self.aliases@;
        let ghost n0 = choose|n: nat| !m.contains_key(#[trigger] follow(m, b.0, n));
        let mut r = b.0;
        let ghost mut i: nat = 0;
        let mut done = false;
        while !done
            invariant
                self.aliases@ == m,
                self.aliases.wf(),
                self@ == old(self)@,
                self.vars == old(self).vars,
                self.label_map == old(self).label_map,
                self.node_data == old(self).node_data,
                r == follow(m, b.0, i),
                i <= n0,
                !m.contains_key(follow(m, b.0, n0)),
                done ==> !m.contains_key(r),
            decreases n0 - i + (if done { 0int } else { 1int }),
        {
            match self.aliases.get(r) {
                Some(next) => {
                    proof {
                        if i >= n0 {
                            lemma_follow_stable(m, b.0, n0, i);
                        }
                        lemma_follow_succ(m, b.0, i);
                    }
                    r = next;
                    proof {
                        i = i + 1;
                    }
                },
                None => {
                    done = true;
                },
            }
        }
        proof {
            lemma_resolve_unique(m, b.0, i);
        }
        self.aliases.redirect(a.0, r);
        let ghost m1 = self.aliases@;
        assert(m1 == redirect_map(m, a.0, r));
        assert(!m1.contains_key(r));
        let mut k = a.0;
        let mut finished = false;
        let ghost mut j: nat = 0;
        assert(link_iter(m1, a.0, r, 0) == (m1, Some(a.0)));
        while !finished
            invariant
                self.aliases.wf(),
                self@ == (Model { aliases: self.aliases@, ..old(self)@ }),
                self.vars == old(self).vars,
                self.label_map == old(self).label_map,
                self.node_data == old(self).node_data,
                !finished ==> link_iter(m1, a.0, r, j) == (self.aliases@, Some(k)),
                !finished ==> !self.aliases@.contains_key(r),
                finished ==> link_iter(m1, a.0, r, j) == (self.aliases@, None::<u64>),
            decreases (if finished { 0int } else { 2 * self.aliases.count_other(r) + (if k != r { 1int } else { 0int }) + 1 }),
        {
            let ghost before = self.aliases@;
            match self.aliases.insert(k, r) {
                Some(o) => {
                    assert(before.contains_key(k));
                    proof {
                        assert(link_iter(m1, a.0, r, j + 1) == (before.insert(k, r), Some(before[k])));
                        j = j + 1;
                    }
                    k = o;
                },
                None => {
                    proof {
                        assert(link_iter(m1, a.0, r, j + 1) == (before.insert(k, r), None::<u64>));
                        j = j + 1;
                    }
                    finished = true;
                },
            }
        }
        proof {
            lemma_link_unique(m1, a.0, r, j);
        }
    }
}

} // verus!