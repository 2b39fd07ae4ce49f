use brainfuck::token::tokenize;
use brainfuck::parser::parse_root;
use brainfuck::lower::BytecodeElement;
use brainfuck::lower::tree_walker;

fn compile(src: &str) -> Vec<BytecodeElement> {
    tree_walker(parse_root(tokenize(src)).unwrap())
}

/// Checks the jump-pair shape at run time: every `PositiveJump` targets
/// one past a `NegativeJump` that targets it back, and every
/// `NegativeJump` targets a `PositiveJump` whose target is one past it.
fn assert_jump_pairs(code: &[BytecodeElement]) {
    for (p, instr) in code.iter().enumerate() {
        match instr {
            BytecodeElement::PositiveJump(t) => {
                assert!(p + 2 <= *t && *t <= code.len());
                assert_eq!(code[*t - 1], BytecodeElement::NegativeJump(p));
            }
            BytecodeElement::NegativeJump(u) => {
                assert!(*u < p);
                assert_eq!(code[*u], BytecodeElement::PositiveJump(p + 1));
            }
            _ => {}
        }
    }
}

#[test]
fn lowers_simple_statements_one_to_one() {
    assert_eq!(
        compile("+-><.,"),
        vec![
            BytecodeElement::ChangeValue(1),
            BytecodeElement::ChangeValue(-1),
            BytecodeElement::MovePointer(1),
            BytecodeElement::MovePointer(-1),
            BytecodeElement::Print,
            BytecodeElement::Read,
        ]
    );
}

#[test]
fn lowers_a_simple_loop() {
    assert_eq!(
        compile("[+]"),
        vec![
            BytecodeElement::PositiveJump(3),
            BytecodeElement::ChangeValue(1),
            BytecodeElement::NegativeJump(0),
        ]
    );
}

#[test]
fn lowers_sibling_loops() {
    assert_eq!(
        compile("[][]"),
        vec![
            BytecodeElement::PositiveJump(2),
            BytecodeElement::NegativeJump(0),
            BytecodeElement::PositiveJump(4),
            BytecodeElement::NegativeJump(2),
        ]
    );
}

#[test]
fn lowers_nested_loops() {
    assert_eq!(
        compile("[[]]"),
        vec![
            BytecodeElement::PositiveJump(4),
            BytecodeElement::PositiveJump(3),
            BytecodeElement::NegativeJump(1),
            BytecodeElement::NegativeJump(0),
        ]
    );
}

#[test]
fn empty_source_lowers_to_empty_code() {
    assert_eq!(compile(""), vec![]);
    assert_eq!(compile("no operators here"), vec![]);
}

#[test]
fn jump_pairs_hold_over_many_nesting_shapes() {
    let shapes = [
        "[]",
        "[[]]",
        "[][]",
        "[[][]]",
        "[[[]]][[]][]",
        "+[>[-]<[[]][->+<]]+[]",
        "[[[[[[[[[[]]]]]]]]]]",
        "[.[.[.].].][,][+][[-][+[.]]]",
    ];
    for src in shapes {
        let code = compile(src);
        assert_jump_pairs(&code);
    }
}
