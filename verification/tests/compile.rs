use hvm_compiler::close::CloseError;
use hvm_compiler::compile::{compile, CompileError};
use hvm_compiler::state::ParseError;

fn chars(s: &str) -> Vec<char> {
    s.chars().collect()
}

fn words_to_bytes(words: &[u64]) -> Vec<u8> {
    let mut out = Vec::new();
    for w in words {
        out.extend_from_slice(&w.to_le_bytes());
    }
    out
}

fn identity_image() -> Vec<u8> {
    // Root: the lambda's principal port (primary + vanilla = 7) plus 16.
    // No active pairs. Slot pair of node 0: port 1 points at 0.2 (14),
    // port 2 points at 0.1 (6) minus its offset 8.
    words_to_bytes(&[23, 0, 14, 6u64.wrapping_sub(8)])
}

#[test]
fn compile_identity_lambda() {
    assert_eq!(compile(chars("λx x")).unwrap(), identity_image());
}

#[test]
fn compile_identity_with_at_sign() {
    assert_eq!(compile(chars("@x x")).unwrap(), identity_image());
}

#[test]
fn compile_identity_with_surrounding_whitespace() {
    assert_eq!(compile(chars("  \n\tλx   x \n")).unwrap(), identity_image());
}

#[test]
fn compile_let_binding_is_its_value() {
    // let x = λy y; x  is the identity again.
    assert_eq!(compile(chars("let x = λy y x")).unwrap(), identity_image());
}

#[test]
fn compile_application_of_free_variables() {
    let eraser_label: u64 = 0xFF << 48;
    let words = [
        // header: root is auxiliary port 0.2 (vanilla 6, port-2 flag 8) + 16;
        // active pairs start after 3 slot pairs: 3 * 16 + 48 - 8.
        30,
        88,
        // node 0 (the application): port 1 is erased by node 2, port 2 is the root.
        (7 + (2 << 4) + eraser_label),
        0u64.wrapping_sub(8).wrapping_sub(14),
        // nodes 1 and 2: erasers whose auxiliary ports point at each other.
        (6 + 8 + (1 << 4)) - 16,
        (6 + (1 << 4) as u64).wrapping_sub(24),
        (6 + 8 + (2 << 4)) - 32,
        (6 + (2 << 4) as u64).wrapping_sub(40),
        // the active pair: node 0 against eraser 1.
        7u64.wrapping_sub(48),
        8,
        (7 + (1 << 4) + eraser_label) - 64,
        8,
        0u64.wrapping_sub(80),
        (8i64 - 48) as u64,
    ];
    let out = compile(chars("(f a)")).unwrap();
    assert_eq!(out, words_to_bytes(&words));
    assert_eq!(out.len(), 16 + 16 * 3 + 48);
}

#[test]
fn compile_image_size_matches_layout() {
    for text in ["λx x", "(f a)", "λf λx (f (f x))", "{a b}", "ask x = f x", "let x = λy y (x x)"] {
        let out = compile(chars(text)).expect(text);
        assert!(out.len() >= 16);
        assert_eq!(out.len() % 16, 0, "{}", text);
    }
}

#[test]
fn compile_empty_input_expects_term() {
    assert!(matches!(compile(chars("")), Err(CompileError::Parse(ParseError::ExpectedTerm))));
    assert!(matches!(compile(chars("   ")), Err(CompileError::Parse(ParseError::ExpectedTerm))));
}

#[test]
fn compile_missing_body_expects_term() {
    assert!(matches!(compile(chars("λx")), Err(CompileError::Parse(ParseError::ExpectedTerm))));
}

#[test]
fn compile_let_without_equals_expects_text() {
    assert!(matches!(compile(chars("let x y z")), Err(CompileError::Parse(ParseError::ExpectedText))));
    assert!(matches!(compile(chars("ask x y z")), Err(CompileError::Parse(ParseError::ExpectedText))));
}

#[test]
fn compile_lone_free_variable_has_no_root() {
    match compile(chars("x")) {
        Err(CompileError::Close(f)) => {
            assert_eq!(f.error, CloseError::NoRoot);
            assert!(f.written.is_empty());
        }
        other => panic!("unexpected {:?}", other),
    }
}
