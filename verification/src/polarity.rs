//! Binders and uses are read alike but for polarity: reading a term as a
//! binder gives what reading it as a use gives, with each variable's binder
//! side and use side swapped.

use vstd::prelude::*;
use crate::net::{NodeData, VarData};
use crate::parse::{
    app_rest, app_result, ask_result, ask_word, binding_result, connected, lam_result, let_result, let_word, sup_rest,
    sup_result, term_result, within,
};
use crate::state::Model;
use crate::table::{
    has_name, insert_pos, lemma_insert_pos_exists, lemma_insert_pos_unique, lemma_name_index_unique,
    lemma_table_set_get, name_index, names_increasing, table_get, table_set,
};

verus! {

/// A variable's record with its binder side and use side exchanged.
pub open spec fn swap_var(d: VarData) -> VarData {
    VarData { binder_count: d.user_count, to_binder: d.to_user, user_count: d.binder_count, to_user: d.to_binder }
}

/// The table of variables with every record's sides exchanged.
pub open spec fn swap_vars(s: Seq<(Seq<char>, VarData)>) -> Seq<(Seq<char>, VarData)> {
    s.map_values(|e: (Seq<char>, VarData)| (e.0, swap_var(e.1)))
}

/// Whether two node labels agree up to exchanging the copy labels 1 (for a
/// repeated binder) and 3 (for a repeated use).
pub open spec fn label_dual(a: u64, b: u64) -> bool {
    a == b || (a == 1 && b == 3) || (a == 3 && b == 1)
}

/// Whether two node lists agree but for copy labels.
pub open spec fn nodes_dual(x: Seq<NodeData>, y: Seq<NodeData>) -> bool {
    &&& x.len() == y.len()
    &&& forall|i: int|
        0 <= i < x.len() ==> #[trigger] y[i] == (NodeData { label: y[i].label, ..x[i] }) && label_dual(
            x[i].label,
            y[i].label,
        )
}

/// Whether `n` is `m` read with the opposite polarity: variables' sides
/// exchanged, copy labels exchanged, all else the same.
pub open spec fn dual(m: Model, n: Model) -> bool {
    &&& names_increasing(m.vars)
    &&& n.vars == swap_vars(m.vars)
    &&& nodes_dual(m.nodes, n.nodes)
    &&& n == (Model { vars: n.vars, nodes: n.nodes, ..m })
}

proof fn lemma_swap_get(s: Seq<(Seq<char>, VarData)>, name: Seq<char>)
    requires
        names_increasing(s),
    ensures
        names_increasing(swap_vars(s)),
        table_get(swap_vars(s), name) == match table_get(s, name) {
            Some(d) => Some(swap_var(d)),
            None => None::<VarData>,
        },
{
    let t = swap_vars(s);
    assert forall|i: int| 0 <= i < t.len() implies #[trigger] t[i].0 == s[i].0 by {}
    if has_name(s, name) {
        let i = name_index(s, name);
        assert(t[i].0 == name);
        assert(has_name(t, name));
        let j = name_index(t, name);
        assert(s[j].0 == name);
        lemma_name_index_unique(s, i, j);
    } else {
        if has_name(t, name) {
            let j = name_index(t, name);
            assert(s[j].0 == name);
        }
    }
}

proof fn lemma_swap_set(s: Seq<(Seq<char>, VarData)>, name: Seq<char>, v: VarData)
    requires
        names_increasing(s),
    ensures
        table_set(swap_vars(s), name, swap_var(v)) == swap_vars(table_set(s, name, v)),
        names_increasing(table_set(s, name, v)),
{
    lemma_table_set_get(s, name, v, name);
    let t = swap_vars(s);
    assert forall|i: int| 0 <= i < t.len() implies #[trigger] t[i].0 == s[i].0 by {}
    if has_name(s, name) {
        let i = name_index(s, name);
        assert(t[i].0 == name);
        let j = name_index(t, name);
        assert(s[j].0 == name);
        lemma_name_index_unique(s, i, j);
        assert(table_set(t, name, swap_var(v)) =~= swap_vars(table_set(s, name, v)));
    } else {
        assert(!has_name(t, name)) by {
            if has_name(t, name) {
                let j = name_index(t, name);
                assert(s[j].0 == name);
            }
        }
        lemma_insert_pos_exists(s, name);
        let p = choose|p: int| insert_pos(s, name, p);
        let q = choose|q: int| insert_pos(t, name, q);
        assert(insert_pos(t, name, p));
        assert(insert_pos(t, name, q));
        assert forall|i: int| 0 <= i < q implies crate::table::name_lt(#[trigger] s[i].0, name) by {
            assert(t[i].0 == s[i].0);
        }
        assert forall|i: int| q <= i < s.len() implies crate::table::name_lt(name, #[trigger] s[i].0) by {
            assert(t[i].0 == s[i].0);
        }
        assert(insert_pos(s, name, q));
        lemma_insert_pos_unique(s, name, p, q);
        assert(table_set(t, name, swap_var(v)) =~= swap_vars(table_set(s, name, v)));
    }
}

proof fn lemma_var_dual(m: Model, n: Model, name: Seq<char>, binder: bool)
    requires
        dual(m, n),
    ensures
        m.parse_var(name, binder).1 == n.parse_var(name, !binder).1,
        dual(m.parse_var(name, binder).0, n.parse_var(name, !binder).0),
{
    lemma_swap_get(m.vars, name);
    let data = m.var_data(name);
    assert(n.var_data(name) == swap_var(data));
    let (m2, r) = m.parse_var(name, binder);
    let (n2, s) = n.parse_var(name, !binder);
    if binder {
        if data.binder_count != u64::MAX {
            let d2 = if data.to_binder is Some {
                VarData { binder_count: (data.binder_count + 1) as u64, ..data }
            } else {
                VarData { binder_count: (data.binder_count + 1) as u64, to_binder: Some(crate::net::WireId(m.dest_index)), ..data }
            };
            lemma_swap_set(m.vars, name, d2);
        }
    } else {
        if data.user_count != u64::MAX {
            let d2 = if data.to_user is Some {
                VarData { user_count: (data.user_count + 1) as u64, ..data }
            } else {
                VarData { user_count: (data.user_count + 1) as u64, to_user: Some(crate::net::WireId(m.dest_index)), ..data }
            };
            lemma_swap_set(m.vars, name, d2);
        }
    }
    assert(nodes_dual(m2.nodes, n2.nodes));
}

proof fn lemma_add_node_dual(m: Model, n: Model, label: u64)
    requires
        dual(m, n),
    ensures
        m.add_node(true, true, false, label).1 == n.add_node(true, true, false, label).1,
        dual(m.add_node(true, true, false, label).0, n.add_node(true, true, false, label).0),
{
    let m2 = m.add_node(true, true, false, label).0;
    let n2 = n.add_node(true, true, false, label).0;
    assert forall|i: int| 0 <= i < m2.nodes.len() implies #[trigger] n2.nodes[i] == (NodeData {
        label: n2.nodes[i].label,
        ..m2.nodes[i]
    }) && label_dual(m2.nodes[i].label, n2.nodes[i].label) by {
        if i < m.nodes.len() {
            assert(n2.nodes[i] == n.nodes[i]);
            assert(m2.nodes[i] == m.nodes[i]);
        }
    }
}

/// Reading a term with one polarity from `m` and with the other from its
/// dual `n` gives the same result and dual states.
proof fn lemma_term_dual(m: Model, n: Model, binder: bool)
    requires
        dual(m, n),
    ensures
        term_result(m, binder).1 == term_result(n, !binder).1,
        dual(term_result(m, binder).0, term_result(n, !binder).0),
    decreases m.budget, 0int,
{
    if m.budget > 0 {
        let m1 = Model { budget: (m.budget - 1) as u64, ..m }.skip_ws();
        let n1 = Model { budget: (n.budget - 1) as u64, ..n }.skip_ws();
        assert(dual(m1, n1));
        if let Some(c) = m1.peek() {
            if c == '\u{3bb}' || c == '@' {
                lemma_lam_dual(m1, n1, binder, 0);
            } else if c == '(' {
                lemma_app_dual(m1, n1, binder, 0);
            } else if c == '{' {
                if m1.label_index != u64::MAX {
                    let (m2, l) = m1.label_or_generate(None);
                    let (n2, l2) = n1.label_or_generate(None);
                    assert(dual(m2, n2));
                    lemma_sup_dual(m2, n2, binder, l);
                }
            } else {
                let name = m1.name_at();
                let m2 = m1.skip_name();
                let n2 = n1.skip_name();
                assert(dual(m2, n2));
                if name == let_word() {
                    lemma_let_dual(m2, n2, binder);
                } else if name == ask_word() {
                    lemma_ask_dual(m2, n2, binder);
                } else {
                    lemma_var_dual(m2, n2, name, binder);
                }
            }
        }
    }
}

proof fn lemma_lam_dual(m: Model, n: Model, binder: bool, label: u64)
    requires
        dual(m, n),
    ensures
        lam_result(m, binder, label).1 == lam_result(n, !binder, label).1,
        dual(lam_result(m, binder, label).0, lam_result(n, !binder, label).0),
    decreases m.budget, 3int,
{
    let m1 = m.advance();
    let n1 = n.advance();
    assert(dual(m1, n1));
    lemma_term_dual(m1, n1, !binder);
    let (m2, r1) = term_result(m1, !binder);
    let (n2, s1) = term_result(n1, binder);
    if r1 is Ok {
        let m2w = within(m2, m1.budget);
        let n2w = within(n2, n1.budget);
        assert(dual(m2w, n2w));
        lemma_term_dual(m2w, n2w, binder);
        let (m3, r2) = term_result(m2w, binder);
        let (n3, s2) = term_result(n2w, !binder);
        if r2 is Ok && m3.dest_index <= u64::MAX - 3 {
            lemma_add_node_dual(m3, n3, label);
            let (m4, p) = m3.add_node(true, true, false, label);
            let (n4, q) = n3.add_node(true, true, false, label);
            assert(dual(connected(connected(m4, p.1, r1->Ok_0), p.2, r2->Ok_0), connected(
                connected(n4, q.1, s1->Ok_0),
                q.2,
                s2->Ok_0,
            )));
        }
    }
}

proof fn lemma_app_dual(m: Model, n: Model, binder: bool, label: u64)
    requires
        dual(m, n),
    ensures
        app_result(m, binder, label).1 == app_result(n, !binder, label).1,
        dual(app_result(m, binder, label).0, app_result(n, !binder, label).0),
    decreases m.budget, 3int,
{
    let m1 = m.advance();
    let n1 = n.advance();
    assert(dual(m1, n1));
    lemma_term_dual(m1, n1, binder);
    let (m2, r) = term_result(m1, binder);
    let (n2, s) = term_result(n1, !binder);
    if r is Ok {
        let m2w = within(m2, m1.budget).skip_ws();
        let n2w = within(n2, n1.budget).skip_ws();
        assert(dual(m2w, n2w));
        lemma_app_rest_dual(m2w, n2w, binder, label, r->Ok_0);
    }
}

proof fn lemma_app_rest_dual(m: Model, n: Model, binder: bool, label: u64, term: u64)
    requires
        dual(m, n),
    ensures
        app_rest(m, binder, label, term).1 == app_rest(n, !binder, label, term).1,
        dual(app_rest(m, binder, label, term).0, app_rest(n, !binder, label, term).0),
    decreases m.budget, 2int,
{
    if m.peek() == Some(')') {
        assert(dual(m.advance(), n.advance()));
    } else if m.budget > 0 {
        lemma_term_dual(m, n, binder);
        let (m1, r) = term_result(m, binder);
        let (n1, s) = term_result(n, !binder);
        if r is Ok && m1.dest_index <= u64::MAX - 3 {
            lemma_add_node_dual(m1, n1, label);
            let (m2, p) = m1.add_node(true, true, false, label);
            let (n2, q) = n1.add_node(true, true, false, label);
            let m3 = connected(connected(m2, term, p.0), r->Ok_0, p.1);
            let n3 = connected(connected(n2, term, q.0), s->Ok_0, q.1);
            let m4 = within(m3, (m.budget - 1) as u64).skip_ws();
            let n4 = within(n3, (n.budget - 1) as u64).skip_ws();
            assert(dual(m4, n4));
            lemma_app_rest_dual(m4, n4, binder, label, p.2);
        }
    }
}

proof fn lemma_sup_dual(m: Model, n: Model, binder: bool, label: u64)
    requires
        dual(m, n),
    ensures
        sup_result(m, binder, label).1 == sup_result(n, !binder, label).1,
        dual(sup_result(m, binder, label).0, sup_result(n, !binder, label).0),
    decreases m.budget, 3int,
{
    let m1 = m.advance();
    let n1 = n.advance();
    assert(dual(m1, n1));
    lemma_term_dual(m1, n1, binder);
    let (m2, r) = term_result(m1, binder);
    let (n2, s) = term_result(n1, !binder);
    if r is Ok {
        let m2w = within(m2, m1.budget).skip_ws();
        let n2w = within(n2, n1.budget).skip_ws();
        assert(dual(m2w, n2w));
        lemma_sup_rest_dual(m2w, n2w, binder, label, r->Ok_0);
    }
}

proof fn lemma_sup_rest_dual(m: Model, n: Model, binder: bool, label: u64, term: u64)
    requires
        dual(m, n),
    ensures
        sup_rest(m, binder, label, term).1 == sup_rest(n, !binder, label, term).1,
        dual(sup_rest(m, binder, label, term).0, sup_rest(n, !binder, label, term).0),
    decreases m.budget, 2int,
{
    if m.peek() == Some('}') {
        assert(dual(m.advance(), n.advance()));
    } else if m.budget > 0 {
        lemma_term_dual(m, n, binder);
        let (m1, r) = term_result(m, binder);
        let (n1, s) = term_result(n, !binder);
        if r is Ok && m1.dest_index <= u64::MAX - 3 {
            lemma_add_node_dual(m1, n1, label);
            let (m2, p) = m1.add_node(true, true, false, label);
            let (n2, q) = n1.add_node(true, true, false, label);
            let m3 = connected(connected(m2, term, p.1), r->Ok_0, p.2);
            let n3 = connected(connected(n2, term, q.1), s->Ok_0, q.2);
            let m4 = within(m3, (m.budget - 1) as u64).skip_ws();
            let n4 = within(n3, (n.budget - 1) as u64).skip_ws();
            assert(dual(m4, n4));
            lemma_sup_rest_dual(m4, n4, binder, label, p.0);
        }
    }
}

proof fn lemma_binding_dual(m: Model, n: Model, binder: bool)
    requires
        dual(m, n),
    ensures
        binding_result(m, binder).1 == binding_result(n, !binder).1,
        dual(binding_result(m, binder).0, binding_result(n, !binder).0),
    decreases m.budget, 2int,
{
    lemma_term_dual(m, n, !binder);
    let (m1, r1) = term_result(m, !binder);
    let (n1, s1) = term_result(n, binder);
    if r1 is Ok {
        let m2 = within(m1, m.budget).skip_ws();
        let n2 = within(n1, n.budget).skip_ws();
        assert(dual(m2, n2));
        if m2.looking_at(seq!['=']) {
            let m3 = Model { pos: m2.pos + 1, ..m2 };
            let n3 = Model { pos: n2.pos + 1, ..n2 };
            assert(dual(m3, n3));
            lemma_term_dual(m3, n3, binder);
        }
    }
}

proof fn lemma_let_dual(m: Model, n: Model, binder: bool)
    requires
        dual(m, n),
    ensures
        let_result(m, binder).1 == let_result(n, !binder).1,
        dual(let_result(m, binder).0, let_result(n, !binder).0),
    decreases m.budget, 3int,
{
    lemma_binding_dual(m, n, binder);
    let (m1, r1) = binding_result(m, binder);
    let (n1, s1) = binding_result(n, !binder);
    if r1 is Ok {
        let m1w = within(m1, m.budget);
        let n1w = within(n1, n.budget);
        assert(dual(m1w, n1w));
        lemma_term_dual(m1w, n1w, binder);
        let (m2, r2) = term_result(m1w, binder);
        let (n2, s2) = term_result(n1w, !binder);
        assert(dual(connected(m2, r1->Ok_0.0, r1->Ok_0.1), connected(n2, s1->Ok_0.0, s1->Ok_0.1)));
    }
}

proof fn lemma_ask_dual(m: Model, n: Model, binder: bool)
    requires
        dual(m, n),
    ensures
        ask_result(m, binder).1 == ask_result(n, !binder).1,
        dual(ask_result(m, binder).0, ask_result(n, !binder).0),
    decreases m.budget, 3int,
{
    lemma_binding_dual(m, n, binder);
    let (m1, r1) = binding_result(m, binder);
    let (n1, s1) = binding_result(n, !binder);
    if r1 is Ok {
        let m1w = within(m1, m.budget);
        let n1w = within(n1, n.budget);
        assert(dual(m1w, n1w));
        lemma_term_dual(m1w, n1w, binder);
        let (m2, r2) = term_result(m1w, binder);
        let (n2, s2) = term_result(n1w, !binder);
        if r2 is Ok && m2.dest_index <= u64::MAX - 3 {
            let bv = r1->Ok_0;
            lemma_add_node_dual(m2, n2, 0);
            let (m3, l) = m2.add_node(true, true, false, 0);
            let (n3, l2) = n2.add_node(true, true, false, 0);
            let m4 = connected(connected(m3, l.1, bv.0), l.2, r2->Ok_0);
            let n4 = connected(connected(n3, l2.1, bv.0), l2.2, s2->Ok_0);
            assert(dual(m4, n4));
            if m4.dest_index <= u64::MAX - 3 {
                lemma_add_node_dual(m4, n4, 0);
                let (m5, a) = m4.add_node(true, true, false, 0);
                let (n5, a2) = n4.add_node(true, true, false, 0);
                assert(dual(connected(connected(m5, bv.1, a.0), l.0, a.1), connected(
                    connected(n5, bv.1, a2.0),
                    l2.0,
                    a2.1,
                )));
            }
        }
    }
}

/// The polarity law: reading a term as a binder and reading it as a use
/// differ only in polarity. From a state and the same state with every
/// variable's binder side and use side exchanged, reading with opposite
/// binder flags gives the same result and the same input position, wires,
/// aliases and labels; the same nodes but that a copy made for a repeated
/// binder (label 1) is one made for a repeated use (label 3) and the other
/// way round; and the variables with their sides exchanged. In particular
/// every part of a term (the elements of a superposition, the terms of an
/// application, a lambda's body) is read with the term's polarity, and a
/// lambda's variable with the opposite one.
pub proof fn lemma_polarity(m: Model, binder: bool)
    requires
        names_increasing(m.vars),
    ensures
        ({
            let n = Model { vars: swap_vars(m.vars), ..m };
            &&& term_result(m, binder).1 == term_result(n, !binder).1
            &&& dual(term_result(m, binder).0, term_result(n, !binder).0)
        }),
{
    let n = Model { vars: swap_vars(m.vars), ..m };
    assert(dual(m, n));
    lemma_term_dual(m, n, binder);
}

/// From a fresh state, reading a term as a binder and as a use gives the
/// same result, and each variable's binder record after the one is its use
/// record after the other.
pub proof fn lemma_polarity_fresh(input: Seq<char>, budget: u64, name: Seq<char>)
    ensures
        ({
            let (mb, rb) = term_result(Model::start(input, budget), true);
            let (mu, ru) = term_result(Model::start(input, budget), false);
            &&& rb == ru
            &&& mu.var_data(name) == swap_var(mb.var_data(name))
        }),
{
    let m = Model::start(input, budget);
    assert(swap_vars(m.vars) =~= m.vars);
    lemma_polarity(m, true);
    let mb = term_result(m, true).0;
    let mu = term_result(m, false).0;
    lemma_swap_get(mb.vars, name);
}

} // verus!
