use hvm_compiler::alias::AliasMap;
use hvm_compiler::compile::compile;
use hvm_compiler::net::WireId;
use hvm_compiler::state::State;
use hvm_compiler::table::NameTable;

fn chars(s: &str) -> Vec<char> {
    s.chars().collect()
}

/// Where the chain of aliases from `w` ends.
fn end_of(m: &AliasMap, w: u64) -> u64 {
    let mut cur = w;
    for _ in 0..=m.len() {
        match m.get(cur) {
            Some(next) => cur = next,
            None => return cur,
        }
    }
    panic!("chain from {} does not end", w)
}

#[test]
fn connect_merges_two_classes() {
    let mut s = State::new(vec![]);
    s.dest_index = 10;
    // classes {0, 1, 4} ending at 0, {2, 3} ending at 2, {5} alone
    s.connect(&WireId(1), &WireId(0));
    s.connect(&WireId(4), &WireId(1));
    s.connect(&WireId(3), &WireId(2));
    let before: Vec<u64> = (0..6).map(|w| end_of(&s.aliases, w)).collect();
    assert_eq!(before, vec![0, 0, 2, 2, 0, 5]);
    // connect a member of the first class to a member of the second
    s.connect(&WireId(4), &WireId(3));
    let after: Vec<u64> = (0..6).map(|w| end_of(&s.aliases, w)).collect();
    assert_eq!(after, vec![2, 2, 2, 2, 2, 5]);
    assert!(s.aliases.chain_ends(4));
    assert!(s.aliases.chain_ends(5));
}

#[test]
fn connect_within_one_class_breaks_the_chain() {
    // the law leaves this case out: the end of the class gets mapped to itself
    let mut s = State::new(vec![]);
    s.dest_index = 4;
    s.connect(&WireId(1), &WireId(0));
    s.connect(&WireId(0), &WireId(1));
    assert_eq!(s.aliases.get(0), Some(0));
    assert!(!s.aliases.chain_ends(1));
}

#[test]
fn alias_map_reads_back_writes() {
    let mut m = AliasMap::new();
    assert_eq!(m.insert(7, 1), None);
    assert_eq!(m.insert(3, 2), None);
    assert_eq!(m.insert(7, 4), Some(1));
    assert_eq!(m.get(7), Some(4));
    assert_eq!(m.get(3), Some(2));
    assert_eq!(m.get(5), None);
    assert_eq!(m.len(), 2);
    m.redirect(4, 9);
    assert_eq!(m.get(7), Some(9));
    assert_eq!(m.get(3), Some(2));
}

#[test]
fn name_table_reads_back_writes() {
    let mut t: NameTable<u64> = NameTable::new();
    t.set(chars("m"), 1);
    t.set(chars("a"), 2);
    t.set(chars("z"), 3);
    t.set(chars("m"), 4);
    assert_eq!(t.get(&chars("m")), Some(4));
    assert_eq!(t.get(&chars("a")), Some(2));
    assert_eq!(t.get(&chars("z")), Some(3));
    assert_eq!(t.get(&chars("b")), None);
    assert_eq!(t.len(), 3);
    // kept in name order
    assert_eq!(t.value_at(0), 2);
    assert_eq!(t.value_at(1), 4);
    assert_eq!(t.value_at(2), 3);
}

#[test]
fn known_name_gets_the_counter_and_changes_nothing() {
    let mut s = State::new(vec![]);
    assert_eq!(s.label_or_generate(None), 0);
    assert_eq!(s.label_or_generate(Some(chars("dup"))), 1);
    let index = s.label_index;
    assert_eq!(s.label_or_generate(Some(chars("dup"))), index);
    assert_eq!(s.label_or_generate(Some(chars("dup"))), index);
    assert_eq!(s.label_index, index);
    assert_eq!(s.label_map.get(&chars("dup")), Some(1));
}

#[test]
fn fresh_label_differs_from_named_labels() {
    let mut s = State::new(vec![]);
    let a = s.label_or_generate(Some(chars("a")));
    let b = s.label_or_generate(Some(chars("b")));
    let c = s.label_or_generate(None);
    let d = s.label_or_generate(Some(chars("c")));
    let all = [a, b, c, d];
    for i in 0..4 {
        for j in 0..i {
            assert_ne!(all[i], all[j]);
        }
    }
}

#[test]
fn returned_wires_are_unconnected() {
    for text in ["λx x", "(f a b)", "{a b c}", "let x = y x", "ask x = f x", "x"] {
        let mut s = State::new(chars(text));
        let w = s.parse_term(false).unwrap();
        assert_eq!(s.aliases.get(w.0), None, "{}", text);
        for k in 0..s.dest_index {
            assert_ne!(s.aliases.get(k), Some(w.0), "{}", text);
        }
        assert!(w.0 < s.dest_index);
    }
}

#[test]
fn image_has_header_slot_pairs_and_active_pairs() {
    let mut s = State::new(chars("(f a)"));
    let root = s.parse_term(false).unwrap();
    let out = s.close(root).unwrap();
    let nodes = s.node_data.len();
    assert!(out.len() >= 16 + 16 * nodes);
    assert_eq!((out.len() - 16 - 16 * nodes) % 48, 0);
    let out2 = compile(chars("(f a)")).unwrap();
    assert_eq!(out, out2);
}

#[test]
fn reading_keeps_aliases_flat() {
    for text in ["λx x", "(f a b c)", "{a b c}", "let x = λy y (x x)", "ask x = f x", "λf λx (f (f x))"] {
        let mut s = State::new(chars(text));
        s.parse_term(false).unwrap();
        for k in 0..s.dest_index {
            if let Some(v) = s.aliases.get(k) {
                assert_eq!(s.aliases.get(v), None, "{}: {} -> {}", text, k, v);
            }
        }
    }
}

#[test]
fn lambda_sign_and_leading_whitespace_do_not_matter() {
    for text in ["λf λx (f x)", "{λa a λb b}", "let x = λy y (x x)"] {
        let at: String = text.chars().map(|c| if c == 'λ' { '@' } else { c }).collect();
        let spaced = format!(" \t\n{}", text);
        let mut a = State::new(chars(text));
        let mut b = State::new(chars(&at));
        let mut c = State::new(chars(&spaced));
        let ra = a.parse_term(false);
        assert_eq!(ra, b.parse_term(false));
        assert_eq!(ra, c.parse_term(false));
        assert_eq!(a.node_data, b.node_data);
        assert_eq!(a.node_data, c.node_data);
        assert_eq!(a.dest_index, c.dest_index);
        assert_eq!(a.input.len() - a.pos, c.input.len() - c.pos);
    }
}

#[test]
fn reading_adds_plain_nodes_with_consecutive_fresh_wires() {
    let mut s = State::new(chars("λf λx (f (f x))"));
    s.add_node(false, false, true, 9);
    let before = s.node_data.clone();
    let d = s.dest_index;
    let labels = s.label_index;
    s.parse_term(false).unwrap();
    assert_eq!(s.node_data[..before.len()], before[..]);
    for n in &s.node_data[before.len()..] {
        assert!(n.primary && n.vanilla && !n.lazy);
        assert!(d <= n.p0.0 && n.p2.0 < s.dest_index);
        assert_eq!((n.p1.0, n.p2.0), (n.p0.0 + 1, n.p0.0 + 2));
    }
    assert_eq!(s.label_index, labels);
}

#[test]
fn variable_counts_follow_the_calls() {
    let mut s = State::new(vec![]);
    let calls = [("x", true), ("y", false), ("x", false), ("x", true), ("y", false), ("x", false)];
    let mut results = vec![];
    for (name, binder) in calls {
        results.push(s.parse_var(chars(name), binder).unwrap());
    }
    let x = s.vars.get(&chars("x")).unwrap();
    assert_eq!((x.binder_count, x.user_count), (2, 2));
    assert_eq!(x.to_binder, Some(results[0]));
    assert_eq!(x.to_user, Some(results[2]));
    let y = s.vars.get(&chars("y")).unwrap();
    assert_eq!((y.binder_count, y.user_count), (0, 2));
    assert_eq!(y.to_binder, None);
    assert_eq!(y.to_user, Some(results[1]));
}

#[test]
fn connect_maps_a_to_the_end_of_b() {
    let mut s = State::new(vec![]);
    s.dest_index = 10;
    s.connect(&WireId(1), &WireId(0));
    s.connect(&WireId(3), &WireId(2));
    s.connect(&WireId(1), &WireId(3));
    assert_eq!(s.aliases.get(1), Some(2));
    for w in 0..10 {
        assert!(s.aliases.chain_ends(w));
    }
}

#[test]
fn image_words_of_linked_auxiliary_ports() {
    // λx x: ports 0.1 and 0.2 share the variable's wire
    let out = compile(chars("λx x")).unwrap();
    let word = |i: usize| u64::from_le_bytes(out[8 * i..8 * i + 8].try_into().unwrap());
    // slot 0.1 points at 0.2 (vanilla 6, port-2 flag 8), minus its offset 0
    assert_eq!(word(2), 6 + 8);
    // slot 0.2 points at 0.1, minus its offset 8
    assert_eq!(word(3), 6u64.wrapping_sub(8));
    // no active pairs
    assert_eq!(word(1), 0);
}
