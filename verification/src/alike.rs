//! Reading a term depends only on the text from the position on, and reads
//! `λ` and `@` alike: two states that agree but for what lies before their
//! positions and for which of the two lambda signs stands where, read the
//! same term, with the same result, into states that agree the same way.

use vstd::prelude::*;
use crate::parse::{
    app_rest, app_result, ask_result, ask_word, binding_result, connected, lam_result, let_result, let_word, sup_rest,
    sup_result, term_result, within,
};
use crate::state::{is_name_char_spec, is_ws, lemma_name_end_bounds, name_end, ws_end, Model};

verus! {

/// Whether two characters read alike: they are equal, or both are lambda
/// signs (`λ` or `@`).
pub open spec fn same_char(a: char, b: char) -> bool {
    a == b || ((a == '\u{3bb}' || a == '@') && (b == '\u{3bb}' || b == '@'))
}

/// The text from the position on.
pub open spec fn rest(m: Model) -> Seq<char> {
    m.input.skip(m.pos)
}

/// Whether two states read alike: both positions lie in their inputs, the
/// texts from the positions on have the same length and read alike
/// character by character, and everything else is the same.
pub open spec fn reads_alike(m: Model, n: Model) -> bool {
    &&& 0 <= m.pos <= m.input.len()
    &&& 0 <= n.pos <= n.input.len()
    &&& rest(m).len() == rest(n).len()
    &&& forall|k: int| 0 <= k < rest(m).len() ==> same_char(#[trigger] rest(m)[k], rest(n)[k])
    &&& n == (Model { input: n.input, pos: n.pos, ..m })
}

proof fn lemma_alike_peek(m: Model, n: Model)
    requires
        reads_alike(m, n),
    ensures
        (m.peek() is None) == (n.peek() is None),
        m.peek() is Some ==> same_char(m.peek()->0, n.peek()->0),
        reads_alike(m.advance(), n.advance()),
{
    if m.pos < m.input.len() {
        assert(rest(m)[0] == m.input[m.pos]);
        assert(rest(n)[0] == n.input[n.pos]);
        let m1 = m.advance();
        let n1 = n.advance();
        assert forall|k: int| 0 <= k < rest(m1).len() implies same_char(#[trigger] rest(m1)[k], rest(n1)[k]) by {
            assert(rest(m1)[k] == rest(m)[k + 1]);
            assert(rest(n1)[k] == rest(n)[k + 1]);
        }
    }
}

proof fn lemma_alike_step(m: Model, n: Model)
    requires
        reads_alike(m, n),
        m.pos < m.input.len(),
    ensures
        reads_alike(Model { pos: m.pos + 1, ..m }, Model { pos: n.pos + 1, ..n }),
{
    lemma_alike_peek(m, n);
}

proof fn lemma_alike_ws(m: Model, n: Model)
    requires
        reads_alike(m, n),
    ensures
        ws_end(m.input, m.pos) - m.pos == ws_end(n.input, n.pos) - n.pos,
        reads_alike(m.skip_ws(), n.skip_ws()),
    decreases m.input.len() - m.pos,
{
    lemma_alike_peek(m, n);
    if m.pos < m.input.len() && is_ws(m.input[m.pos]) {
        assert(m.input[m.pos] == n.input[n.pos]);
        lemma_alike_ws(m.advance(), n.advance());
    } else if n.pos < n.input.len() && is_ws(n.input[n.pos]) {
        assert(m.input[m.pos] == n.input[n.pos]);
    }
}

proof fn lemma_alike_name(m: Model, n: Model)
    requires
        reads_alike(m, n),
    ensures
        name_end(m.input, m.pos) - m.pos == name_end(n.input, n.pos) - n.pos,
        m.name_at() == n.name_at(),
        reads_alike(m.skip_name(), n.skip_name()),
    decreases m.input.len() - m.pos,
{
    lemma_alike_peek(m, n);
    if m.pos < m.input.len() && is_name_char_spec(m.input[m.pos]) {
        assert(m.input[m.pos] == n.input[n.pos]);
        let m1 = m.advance();
        let n1 = n.advance();
        lemma_alike_name(m1, n1);
        lemma_name_end_bounds(m.input, m.pos + 1);
        lemma_name_end_bounds(n.input, n.pos + 1);
        assert(name_end(m.input, m.pos) == name_end(m.input, m.pos + 1));
        assert(name_end(n.input, n.pos) == name_end(n.input, n.pos + 1));
        assert(m.name_at() =~= seq![m.input[m.pos]] + m1.name_at());
        assert(n.name_at() =~= seq![n.input[n.pos]] + n1.name_at());
    } else if n.pos < n.input.len() && is_name_char_spec(n.input[n.pos]) {
        assert(m.input[m.pos] == n.input[n.pos]);
    } else {
        assert(m.name_at() =~= Seq::<char>::empty());
        assert(n.name_at() =~= Seq::<char>::empty());
    }
}

proof fn lemma_alike_equals(m: Model, n: Model)
    requires
        reads_alike(m, n),
    ensures
        m.looking_at(seq!['=']) == n.looking_at(seq!['=']),
{
    lemma_alike_peek(m, n);
    if m.pos < m.input.len() {
        let a = m.input[m.pos];
        let b = n.input[n.pos];
        assert(same_char(a, b));
        assert(m.input.subrange(m.pos, m.pos + 1) =~= seq![a]);
        assert(n.input.subrange(n.pos, n.pos + 1) =~= seq![b]);
        if a == '=' {
            assert(b == '=');
            assert(seq![a] =~= seq!['=']);
            assert(seq![b] =~= seq!['=']);
        } else {
            assert(b != '=');
            assert(seq![a][0] != seq!['='][0]);
            assert(seq![b][0] != seq!['='][0]);
        }
    }
}

/// Reading a term from two states that read alike once whitespace is
/// skipped gives the same result; unless the budget was already spent (then
/// both states are left as they were), the states after it read alike.
pub proof fn lemma_term_alike(m: Model, n: Model, binder: bool)
    requires
        reads_alike(m.skip_ws(), n.skip_ws()),
    ensures
        term_result(m, binder).1 == term_result(n, binder).1,
        m.budget > 0 ==> reads_alike(term_result(m, binder).0, term_result(n, binder).0),
        m.budget == 0 ==> term_result(m, binder).0 == m && term_result(n, binder).0 == n,
        term_result(m, binder).0.input == m.input,
        term_result(n, binder).0.input == n.input,
    decreases m.budget, 0int,
{
    if m.budget > 0 {
        let m1 = Model { budget: (m.budget - 1) as u64, ..m }.skip_ws();
        let n1 = Model { budget: (n.budget - 1) as u64, ..n }.skip_ws();
        assert(reads_alike(m1, n1)) by {
            assert(rest(m1) == rest(m.skip_ws()));
            assert(rest(n1) == rest(n.skip_ws()));
        }
        lemma_alike_peek(m1, n1);
        if let Some(c) = m1.peek() {
            let d = n1.peek()->0;
            if c == '\u{3bb}' || c == '@' {
                lemma_lam_alike(m1, n1, binder, 0);
            } else if c == '(' {
                lemma_app_alike(m1, n1, binder, 0);
            } else if c == '{' {
                if m1.label_index != u64::MAX {
                    let (m2, l) = m1.label_or_generate(None);
                    let (n2, l2) = n1.label_or_generate(None);
                    assert(rest(m2) == rest(m1) && rest(n2) == rest(n1));
                    lemma_sup_alike(m2, n2, binder, l);
                }
            } else {
                lemma_alike_name(m1, n1);
                let name = m1.name_at();
                let m2 = m1.skip_name();
                let n2 = n1.skip_name();
                if name == let_word() {
                    lemma_let_alike(m2, n2, binder);
                } else if name == ask_word() {
                    lemma_ask_alike(m2, n2, binder);
                } else {
                    assert(rest(m2.parse_var(name, binder).0) == rest(m2));
                    assert(rest(n2.parse_var(name, binder).0) == rest(n2));
                }
            }
        }
    }
}

/// A term read from two alike states leaves alike states, with the same
/// result.
proof fn lemma_term_alike_strong(m: Model, n: Model, binder: bool)
    requires
        reads_alike(m, n),
    ensures
        term_result(m, binder).1 == term_result(n, binder).1,
        reads_alike(term_result(m, binder).0, term_result(n, binder).0),
        term_result(m, binder).0.input == m.input,
        term_result(n, binder).0.input == n.input,
    decreases m.budget, 1int,
{
    lemma_alike_ws(m, n);
    lemma_term_alike(m, n, binder);
}

proof fn lemma_lam_alike(m: Model, n: Model, binder: bool, label: u64)
    requires
        reads_alike(m, n),
    ensures
        lam_result(m, binder, label).1 == lam_result(n, binder, label).1,
        reads_alike(lam_result(m, binder, label).0, lam_result(n, binder, label).0),
        lam_result(m, binder, label).0.input == m.input,
        lam_result(n, binder, label).0.input == n.input,
    decreases m.budget, 3int,
{
    lemma_alike_peek(m, n);
    let m1 = m.advance();
    let n1 = n.advance();
    lemma_term_alike_strong(m1, n1, !binder);
    let (m2, r1) = term_result(m1, !binder);
    let (n2, s1) = term_result(n1, !binder);
    if r1 is Ok {
        let m2w = within(m2, m1.budget);
        let n2w = within(n2, n1.budget);
        assert(rest(m2w) == rest(m2) && rest(n2w) == rest(n2));
        lemma_term_alike_strong(m2w, n2w, binder);
        let (m3, r2) = term_result(m2w, binder);
        let (n3, s2) = term_result(n2w, binder);
        if r2 is Ok && m3.dest_index <= u64::MAX - 3 {
            let (m4, p) = m3.add_node(true, true, false, label);
            let (n4, q) = n3.add_node(true, true, false, label);
            assert(rest(m4) == rest(m3) && rest(n4) == rest(n3));
            let m5 = connected(connected(m4, p.1, r1->Ok_0), p.2, r2->Ok_0);
            let n5 = connected(connected(n4, q.1, s1->Ok_0), q.2, s2->Ok_0);
            assert(rest(m5) == rest(m4) && rest(n5) == rest(n4));
        }
    }
}

proof fn lemma_app_alike(m: Model, n: Model, binder: bool, label: u64)
    requires
        reads_alike(m, n),
    ensures
        app_result(m, binder, label).1 == app_result(n, binder, label).1,
        reads_alike(app_result(m, binder, label).0, app_result(n, binder, label).0),
        app_result(m, binder, label).0.input == m.input,
        app_result(n, binder, label).0.input == n.input,
    decreases m.budget, 3int,
{
    lemma_alike_peek(m, n);
    let m1 = m.advance();
    let n1 = n.advance();
    lemma_term_alike_strong(m1, n1, binder);
    let (m2, r) = term_result(m1, binder);
    let (n2, s) = term_result(n1, binder);
    if r is Ok {
        let m2w = within(m2, m1.budget);
        let n2w = within(n2, n1.budget);
        assert(rest(m2w) == rest(m2) && rest(n2w) == rest(n2));
        lemma_alike_ws(m2w, n2w);
        lemma_app_rest_alike(m2w.skip_ws(), n2w.skip_ws(), binder, label, r->Ok_0);
    }
}

proof fn lemma_app_rest_alike(m: Model, n: Model, binder: bool, label: u64, term: u64)
    requires
        reads_alike(m, n),
    ensures
        app_rest(m, binder, label, term).1 == app_rest(n, binder, label, term).1,
        reads_alike(app_rest(m, binder, label, term).0, app_rest(n, binder, label, term).0),
        app_rest(m, binder, label, term).0.input == m.input,
        app_rest(n, binder, label, term).0.input == n.input,
    decreases m.budget, 2int,
{
    lemma_alike_peek(m, n);
    if m.peek() == Some(')') {
        assert(n.peek() == Some(')'));
    } else if m.budget > 0 {
        assert(n.peek() != Some(')'));
        lemma_term_alike_strong(m, n, binder);
        let (m1, r) = term_result(m, binder);
        let (n1, s) = term_result(n, binder);
        if r is Ok && m1.dest_index <= u64::MAX - 3 {
            let (m2, p) = m1.add_node(true, true, false, label);
            let (n2, q) = n1.add_node(true, true, false, label);
            let m3 = connected(connected(m2, term, p.0), r->Ok_0, p.1);
            let n3 = connected(connected(n2, term, q.0), s->Ok_0, q.1);
            let m4 = within(m3, (m.budget - 1) as u64);
            let n4 = within(n3, (n.budget - 1) as u64);
            assert(rest(m4) == rest(m1) && rest(n4) == rest(n1));
            lemma_alike_ws(m4, n4);
            lemma_app_rest_alike(m4.skip_ws(), n4.skip_ws(), binder, label, p.2);
        }
    }
}

proof fn lemma_sup_alike(m: Model, n: Model, binder: bool, label: u64)
    requires
        reads_alike(m, n),
    ensures
        sup_result(m, binder, label).1 == sup_result(n, binder, label).1,
        reads_alike(sup_result(m, binder, label).0, sup_result(n, binder, label).0),
        sup_result(m, binder, label).0.input == m.input,
        sup_result(n, binder, label).0.input == n.input,
    decreases m.budget, 3int,
{
    lemma_alike_peek(m, n);
    let m1 = m.advance();
    let n1 = n.advance();
    lemma_term_alike_strong(m1, n1, binder);
    let (m2, r) = term_result(m1, binder);
    let (n2, s) = term_result(n1, binder);
    if r is Ok {
        let m2w = within(m2, m1.budget);
        let n2w = within(n2, n1.budget);
        assert(rest(m2w) == rest(m2) && rest(n2w) == rest(n2));
        lemma_alike_ws(m2w, n2w);
        lemma_sup_rest_alike(m2w.skip_ws(), n2w.skip_ws(), binder, label, r->Ok_0);
    }
}

proof fn lemma_sup_rest_alike(m: Model, n: Model, binder: bool, label: u64, term: u64)
    requires
        reads_alike(m, n),
    ensures
        sup_rest(m, binder, label, term).1 == sup_rest(n, binder, label, term).1,
        reads_alike(sup_rest(m, binder, label, term).0, sup_rest(n, binder, label, term).0),
        sup_rest(m, binder, label, term).0.input == m.input,
        sup_rest(n, binder, label, term).0.input == n.input,
    decreases m.budget, 2int,
{
    lemma_alike_peek(m, n);
    if m.peek() == Some('}') {
        assert(n.peek() == Some('}'));
    } else if m.budget > 0 {
        assert(n.peek() != Some('}'));
        lemma_term_alike_strong(m, n, binder);
        let (m1, r) = term_result(m, binder);
        let (n1, s) = term_result(n, binder);
        if r is Ok && m1.dest_index <= u64::MAX - 3 {
            let (m2, p) = m1.add_node(true, true, false, label);
            let (n2, q) = n1.add_node(true, true, false, label);
            let m3 = connected(connected(m2, term, p.1), r->Ok_0, p.2);
            let n3 = connected(connected(n2, term, q.1), s->Ok_0, q.2);
            let m4 = within(m3, (m.budget - 1) as u64);
            let n4 = within(n3, (n.budget - 1) as u64);
            assert(rest(m4) == rest(m1) && rest(n4) == rest(n1));
            lemma_alike_ws(m4, n4);
            lemma_sup_rest_alike(m4.skip_ws(), n4.skip_ws(), binder, label, p.0);
        }
    }
}

proof fn lemma_binding_alike(m: Model, n: Model, binder: bool)
    requires
        reads_alike(m, n),
    ensures
        binding_result(m, binder).1 == binding_result(n, binder).1,
        reads_alike(binding_result(m, binder).0, binding_result(n, binder).0),
        binding_result(m, binder).0.input == m.input,
        binding_result(n, binder).0.input == n.input,
    decreases m.budget, 2int,
{
    lemma_term_alike_strong(m, n, !binder);
    let (m1, r1) = term_result(m, !binder);
    let (n1, s1) = term_result(n, !binder);
    if r1 is Ok {
        let m1w = within(m1, m.budget);
        let n1w = within(n1, n.budget);
        assert(rest(m1w) == rest(m1) && rest(n1w) == rest(n1));
        lemma_alike_ws(m1w, n1w);
        let m2 = m1w.skip_ws();
        let n2 = n1w.skip_ws();
        lemma_alike_equals(m2, n2);
        if m2.looking_at(seq!['=']) {
            lemma_alike_step(m2, n2);
            let m3 = Model { pos: m2.pos + 1, ..m2 };
            let n3 = Model { pos: n2.pos + 1, ..n2 };
            lemma_term_alike_strong(m3, n3, binder);
        }
    }
}

proof fn lemma_let_alike(m: Model, n: Model, binder: bool)
    requires
        reads_alike(m, n),
    ensures
        let_result(m, binder).1 == let_result(n, binder).1,
        reads_alike(let_result(m, binder).0, let_result(n, binder).0),
        let_result(m, binder).0.input == m.input,
        let_result(n, binder).0.input == n.input,
    decreases m.budget, 3int,
{
    lemma_binding_alike(m, n, binder);
    let (m1, r1) = binding_result(m, binder);
    let (n1, s1) = binding_result(n, binder);
    if r1 is Ok {
        let m1w = within(m1, m.budget);
        let n1w = within(n1, n.budget);
        assert(rest(m1w) == rest(m1) && rest(n1w) == rest(n1));
        lemma_term_alike_strong(m1w, n1w, binder);
        let (m2, r2) = term_result(m1w, binder);
        let (n2, s2) = term_result(n1w, binder);
        assert(rest(connected(m2, r1->Ok_0.0, r1->Ok_0.1)) == rest(m2));
        assert(rest(connected(n2, s1->Ok_0.0, s1->Ok_0.1)) == rest(n2));
    }
}

proof fn lemma_ask_alike(m: Model, n: Model, binder: bool)
    requires
        reads_alike(m, n),
    ensures
        ask_result(m, binder).1 == ask_result(n, binder).1,
        reads_alike(ask_result(m, binder).0, ask_result(n, binder).0),
        ask_result(m, binder).0.input == m.input,
        ask_result(n, binder).0.input == n.input,
    decreases m.budget, 3int,
{
    lemma_binding_alike(m, n, binder);
    let (m1, r1) = binding_result(m, binder);
    let (n1, s1) = binding_result(n, binder);
    if r1 is Ok {
        let m1w = within(m1, m.budget);
        let n1w = within(n1, n.budget);
        assert(rest(m1w) == rest(m1) && rest(n1w) == rest(n1));
        lemma_term_alike_strong(m1w, n1w, binder);
        let (m2, r2) = term_result(m1w, binder);
        let (n2, s2) = term_result(n1w, binder);
        if r2 is Ok && m2.dest_index <= u64::MAX - 3 {
            let bv = r1->Ok_0;
            let (m3, l) = m2.add_node(true, true, false, 0);
            let (n3, l2) = n2.add_node(true, true, false, 0);
            let m4 = connected(connected(m3, l.1, bv.0), l.2, r2->Ok_0);
            let n4 = connected(connected(n3, l2.1, bv.0), l2.2, s2->Ok_0);
            assert(rest(m4) == rest(m2) && rest(n4) == rest(n2));
            if m4.dest_index <= u64::MAX - 3 {
                let (m5, a) = m4.add_node(true, true, false, 0);
                let (n5, a2) = n4.add_node(true, true, false, 0);
                let m6 = connected(connected(m5, bv.1, a.0), l.0, a.1);
                let n6 = connected(connected(n5, bv.1, a2.0), l2.0, a2.1);
                assert(rest(m6) == rest(m2) && rest(n6) == rest(n2));
            }
        }
    }
}

proof fn lemma_ws_end_shift(p: Seq<char>, s: Seq<char>, j: int)
    requires
        0 <= j <= s.len(),
    ensures
        ws_end(p + s, p.len() + j) == p.len() + ws_end(s, j),
    decreases s.len() - j,
{
    if j < s.len() {
        assert((p + s)[p.len() + j] == s[j]);
        if is_ws(s[j]) {
            lemma_ws_end_shift(p, s, j + 1);
        }
    }
}

proof fn lemma_ws_end_prefix(ws: Seq<char>, s: Seq<char>, i: int)
    requires
        0 <= i <= ws.len(),
        forall|k: int| 0 <= k < ws.len() ==> is_ws(#[trigger] ws[k]),
    ensures
        ws_end(ws + s, i) == ws_end(ws + s, ws.len() as int),
    decreases ws.len() - i,
{
    if i < ws.len() {
        assert((ws + s)[i] == ws[i]);
        lemma_ws_end_prefix(ws, s, i + 1);
    }
}

proof fn lemma_ws_end_bounds(input: Seq<char>, pos: int)
    requires
        0 <= pos <= input.len(),
    ensures
        pos <= ws_end(input, pos) <= input.len(),
    decreases input.len() - pos,
{
    if pos < input.len() && is_ws(input[pos]) {
        lemma_ws_end_bounds(input, pos + 1);
    }
}

/// Leading whitespace does not change what is read: reading a term from a
/// fresh state over `ws + s`, `ws` all whitespace, gives the same result as
/// over `s`; unless the budget is zero, the states after it agree in all
/// but the input and position, and the text left to read is the same.
pub proof fn lemma_leading_whitespace(ws: Seq<char>, s: Seq<char>, budget: u64, binder: bool)
    requires
        forall|k: int| 0 <= k < ws.len() ==> is_ws(#[trigger] ws[k]),
    ensures
        ({
            let (m1, r1) = term_result(Model::start(ws + s, budget), binder);
            let (n1, s1) = term_result(Model::start(s, budget), binder);
            &&& r1 == s1
            &&& budget > 0 ==> reads_alike(m1, n1) && rest(m1) == rest(n1)
        }),
{
    let m = Model::start(ws + s, budget);
    let n = Model::start(s, budget);
    lemma_ws_end_prefix(ws, s, 0);
    lemma_ws_end_shift(ws, s, 0);
    lemma_ws_end_bounds(s, 0);
    let e = ws_end(s, 0);
    assert(rest(m.skip_ws()) =~= rest(n.skip_ws()));
    lemma_term_alike(m, n, binder);
    if budget > 0 {
        let m1 = term_result(m, binder).0;
        let n1 = term_result(n, binder).0;
        assert(rest(m1) =~= rest(n1));
    }
}

/// `λ` and `@` are read alike: reading a term from a fresh state over `s`
/// and over `s` with every `λ` written as `@` gives the same result, and
/// the states after it read alike.
pub proof fn lemma_lambda_sign(s: Seq<char>, budget: u64, binder: bool)
    ensures
        ({
            let t = s.map_values(|c: char| if c == '\u{3bb}' { '@' } else { c });
            let (m1, r1) = term_result(Model::start(s, budget), binder);
            let (n1, s1) = term_result(Model::start(t, budget), binder);
            r1 == s1 && reads_alike(m1, n1)
        }),
{
    let t = s.map_values(|c: char| if c == '\u{3bb}' { '@' } else { c });
    let m = Model::start(s, budget);
    let n = Model::start(t, budget);
    assert(rest(m) =~= s);
    assert(rest(n) =~= t);
    assert(reads_alike(m, n));
    lemma_term_alike_strong(m, n, binder);
}

} // verus!
