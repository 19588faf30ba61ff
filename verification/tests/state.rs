use hvm_compiler::close::{encode, CloseError, LaidOut};
use hvm_compiler::net::{Addr, NodeData, Port, VarData, WireId};
use hvm_compiler::state::{ParseError, State};

fn chars(s: &str) -> Vec<char> {
    s.chars().collect()
}

fn node(label: u64, d: u64) -> NodeData {
    NodeData { primary: true, vanilla: true, lazy: false, label, p0: WireId(d), p1: WireId(d + 1), p2: WireId(d + 2) }
}

#[test]
fn is_name_char_excludes_whitespace_and_punctuation() {
    for c in ['a', 'Z', '0', '=', '_', '-', 'é'] {
        assert!(State::is_name_char(&c), "{}", c);
    }
    for c in [' ', '\t', '\n', '\r', '\x0C', '(', ')', '[', ']', '{', '}', '@', 'λ', '!', '?', ';'] {
        assert!(!State::is_name_char(&c), "{:?}", c);
    }
}

#[test]
fn skip_whitespace_stops_at_first_other_char() {
    let mut s = State::new(chars(" \t\n\r\x0Cab"));
    s.skip_whitespace();
    assert_eq!(s.pos, 5);
    assert_eq!(s.peek(), Some('a'));
    s.skip_whitespace();
    assert_eq!(s.pos, 5);
}

#[test]
fn parse_whitespace_never_fails() {
    let mut s = State::new(chars("   "));
    assert!(s.parse_whitespace().is_ok());
    assert_eq!(s.pos, 3);
    assert!(s.parse_whitespace().is_ok());
    assert_eq!(s.peek(), None);
}

#[test]
fn parse_name_reads_name_chars() {
    let mut s = State::new(chars("foo bar"));
    assert_eq!(s.parse_name().unwrap(), chars("foo"));
    assert_eq!(s.pos, 3);
    let mut s = State::new(chars("(x"));
    assert_eq!(s.parse_name().unwrap(), Vec::<char>::new());
    assert_eq!(s.pos, 0);
    let mut s = State::new(chars("a=b;c"));
    assert_eq!(s.parse_name().unwrap(), chars("a=b"));
}

#[test]
fn add_node_hands_out_three_new_wires() {
    let mut s = State::new(vec![]);
    assert_eq!(s.add_node(true, true, false, 4), (WireId(0), WireId(1), WireId(2)));
    assert_eq!(s.add_node(false, true, true, 5), (WireId(3), WireId(4), WireId(5)));
    assert_eq!(s.dest_index, 6);
    assert_eq!(s.node_data.len(), 2);
    assert_eq!(s.node_data[0], node(4, 0));
    assert_eq!(
        s.node_data[1],
        NodeData { primary: false, vanilla: true, lazy: true, label: 5, p0: WireId(3), p1: WireId(4), p2: WireId(5) }
    );
}

#[test]
fn new_dangling_wire_counts_up() {
    let mut s = State::new(vec![]);
    assert_eq!(s.new_dangling_wire(), WireId(0));
    assert_eq!(s.new_dangling_wire(), WireId(1));
    assert_eq!(s.dest_index, 2);
    assert!(s.node_data.is_empty());
}

#[test]
fn label_or_generate_numbers_labels() {
    let mut s = State::new(vec![]);
    assert_eq!(s.label_or_generate(None), 0);
    assert_eq!(s.label_or_generate(None), 1);
    assert_eq!(s.label_or_generate(Some(chars("a"))), 2);
    // a known name gets the counter as it stands, which does not move
    assert_eq!(s.label_or_generate(Some(chars("a"))), 3);
    assert_eq!(s.label_index, 3);
    assert_eq!(s.label_or_generate(Some(chars("b"))), 3);
    assert_eq!(s.label_or_generate(None), 4);
    assert_eq!(s.label_or_generate(Some(chars("b"))), 5);
    assert_eq!(s.label_index, 5);
    assert_eq!(s.label_map.get(&chars("a")), Some(2));
    assert_eq!(s.label_map.get(&chars("b")), Some(3));
}

#[test]
fn parse_var_first_binder_and_use_get_fresh_wires() {
    let mut s = State::new(vec![]);
    assert_eq!(s.parse_var(chars("x"), true).unwrap(), WireId(0));
    assert_eq!(s.parse_var(chars("x"), false).unwrap(), WireId(1));
    assert_eq!(
        s.vars.get(&chars("x")),
        Some(VarData { binder_count: 1, to_binder: Some(WireId(0)), user_count: 1, to_user: Some(WireId(1)) })
    );
    assert!(s.node_data.is_empty());
}

#[test]
fn parse_var_later_binders_and_uses_get_dup_nodes() {
    let mut s = State::new(vec![]);
    s.parse_var(chars("x"), true).unwrap();
    // second binder: a node labelled 1, its port 2
    assert_eq!(s.parse_var(chars("x"), true).unwrap(), WireId(3));
    assert_eq!(s.node_data[0], node(1, 1));
    s.parse_var(chars("x"), false).unwrap();
    // second use: a node labelled 3, its port 2
    assert_eq!(s.parse_var(chars("x"), false).unwrap(), WireId(7));
    assert_eq!(s.node_data[1], node(3, 5));
    assert_eq!(
        s.vars.get(&chars("x")),
        Some(VarData { binder_count: 2, to_binder: Some(WireId(0)), user_count: 2, to_user: Some(WireId(4)) })
    );
}

#[test]
fn parse_var_overflow_when_wires_run_out() {
    let mut s = State::new(vec![]);
    s.dest_index = u64::MAX;
    assert_eq!(s.parse_var(chars("x"), true), Err(ParseError::Overflow));
    assert_eq!(s.vars.len(), 0);
}

#[test]
fn parse_skip_text_reads_after_whitespace() {
    let mut s = State::new(chars("  = x"));
    s.parse_skip_text("=");
    assert_eq!(s.pos, 3);
    let mut s = State::new(chars("ab->c"));
    s.pos = 2;
    s.parse_skip_text("->");
    assert_eq!(s.pos, 4);
}

#[test]
fn looking_at_compares_the_input() {
    let s = State::new(chars("=x"));
    assert!(s.looking_at("="));
    assert!(s.looking_at("=x"));
    assert!(!s.looking_at("x"));
    assert!(!s.looking_at("=x="));
}

#[test]
fn connect_points_a_at_the_end_of_b() {
    let mut s = State::new(vec![]);
    s.connect(&WireId(1), &WireId(0));
    assert_eq!(s.aliases.get(1), Some(0));
    s.connect(&WireId(2), &WireId(1));
    assert_eq!(s.aliases.get(2), Some(0));
    // the old aliases of 3's chain now point at the end of 0's chain
    s.connect(&WireId(5), &WireId(3));
    s.connect(&WireId(3), &WireId(2));
    assert_eq!(s.aliases.get(5), Some(0));
    assert_eq!(s.aliases.get(3), Some(0));
    assert_eq!(s.aliases.len(), 4);
}

#[test]
fn parse_lam_builds_a_lambda_node() {
    let mut s = State::new(chars("λx x"));
    assert_eq!(s.parse_lam(false, 0).unwrap(), WireId(2));
    assert_eq!(s.node_data, vec![node(0, 2)]);
    assert_eq!(s.aliases.get(3), Some(0));
    assert_eq!(s.aliases.get(4), Some(1));
    assert_eq!(s.pos, 4);
}

#[test]
fn parse_app_chains_application_nodes() {
    let mut s = State::new(chars("(f a b)"));
    assert_eq!(s.parse_app(false, 0).unwrap(), WireId(8));
    assert_eq!(s.node_data, vec![node(0, 2), node(0, 6)]);
    // f on port 0 of the first node, a on its port 1
    assert_eq!(s.aliases.get(0), Some(2));
    assert_eq!(s.aliases.get(1), Some(3));
    // the first result on port 0 of the second node, b on its port 1
    assert_eq!(s.aliases.get(4), Some(6));
    assert_eq!(s.aliases.get(5), Some(7));
    assert_eq!(s.peek(), None);
}

#[test]
fn parse_sup_chains_superposition_nodes() {
    let mut s = State::new(chars("{a b}"));
    assert_eq!(s.parse_sup(false, 7).unwrap(), WireId(2));
    assert_eq!(s.node_data, vec![node(7, 2)]);
    assert_eq!(s.aliases.get(0), Some(3));
    assert_eq!(s.aliases.get(1), Some(4));
}

#[test]
fn parse_term_reads_superposition_with_fresh_label() {
    let mut s = State::new(chars("{a b}"));
    assert_eq!(s.parse_term(false).unwrap(), WireId(2));
    assert_eq!(s.node_data, vec![node(0, 2)]);
    assert_eq!(s.label_index, 1);
}

#[test]
fn parse_term_ask_builds_lambda_and_application() {
    let mut s = State::new(chars("ask x = f x"));
    // x binder 0, f 1, x use 2; lambda node 3..5, application node 6..8
    assert_eq!(s.parse_term(false).unwrap(), WireId(8));
    assert_eq!(s.node_data, vec![node(0, 3), node(0, 6)]);
    assert_eq!(s.aliases.get(4), Some(0));
    assert_eq!(s.aliases.get(5), Some(2));
    assert_eq!(s.aliases.get(1), Some(6));
    assert_eq!(s.aliases.get(3), Some(7));
}

#[test]
fn parse_term_let_connects_binding_to_value() {
    let mut s = State::new(chars("let x = y x"));
    assert_eq!(s.parse_term(false).unwrap(), WireId(2));
    assert_eq!(s.aliases.get(0), Some(1));
    assert!(s.node_data.is_empty());
}

#[test]
fn parse_term_out_of_budget() {
    let mut s = State::with_budget(chars("(f a)"), 2);
    assert_eq!(s.parse_term(false), Err(ParseError::OutOfBudget));
    let mut s = State::with_budget(chars("(f a)"), 3);
    assert_eq!(s.parse_term(false), Ok(WireId(4)));
    assert_eq!(s.budget, 0);
    // a character that is neither a term nor a name never advances
    let mut s = State::with_budget(chars("(a !)"), 10);
    assert_eq!(s.parse_term(false), Err(ParseError::OutOfBudget));
}

#[test]
fn parse_term_overflow_of_labels() {
    let mut s = State::new(chars("{a b}"));
    s.label_index = u64::MAX;
    assert_eq!(s.parse_term(false), Err(ParseError::Overflow));
}

#[test]
fn close_too_many_endpoints() {
    let mut s = State::new(vec![]);
    s.add_node(true, true, false, 0);
    s.add_node(true, true, false, 0);
    s.connect(&WireId(3), &WireId(0));
    s.connect(&WireId(4), &WireId(0));
    let f = s.close(WireId(5)).unwrap_err();
    assert_eq!(f.error, CloseError::TooManyEndpoints);
    assert!(f.written.is_empty());
}

#[test]
fn close_cyclic_alias() {
    let mut s = State::new(vec![]);
    s.dest_index = 6;
    s.connect(&WireId(1), &WireId(0));
    s.connect(&WireId(0), &WireId(1));
    s.vars.set(chars("x"), VarData { binder_count: 1, to_binder: Some(WireId(5)), user_count: 1, to_user: Some(WireId(1)) });
    let f = s.close(WireId(0)).unwrap_err();
    assert_eq!(f.error, CloseError::CyclicAlias);
    assert!(f.written.is_empty());
}

#[test]
fn close_adds_erasers_for_lone_ports() {
    let mut s = State::new(chars("(f a)"));
    let root = s.parse_term(false).unwrap();
    let out = s.close(root).unwrap();
    assert_eq!(s.node_data.len(), 3);
    assert_eq!(s.node_data[1].label, 0xFF);
    assert_eq!(s.node_data[2].p0, WireId(u64::MAX));
    assert_eq!(out.len(), 16 + 16 * 3 + 48);
}

#[test]
fn encode_stops_at_overflow() {
    let big = Port {
        is_primary: true,
        is_vanilla: false,
        is_lazy: false,
        target: Addr { node: 0x0FFF_FFFF_FFFF_FFFF, port: 0 },
        label: 0xFFFF,
    };
    let nodes = vec![NodeData { primary: true, vanilla: true, lazy: false, label: 0, p0: WireId(0), p1: WireId(1), p2: WireId(2) }];
    let image = LaidOut { mem: vec![(big, Port::default())], redex: vec![], root: Some(Addr { node: 0, port: 0 }) };
    let (bytes, done) = encode(&image, &nodes, Addr { node: 0, port: 0 });
    assert!(!done);
    // only the header was written
    let mut header = (7u64 + 16).to_le_bytes().to_vec();
    header.extend_from_slice(&0u64.to_le_bytes());
    assert_eq!(bytes, header);
    let _ = CloseError::Overflow;
}
