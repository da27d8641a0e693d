use exprvm::code::{Code, DecLit, Lit, OpCode};
use exprvm::compiler::{compile, Parser};
use exprvm::InterpretError;

fn constant(n: i64, line: usize) -> Code {
    Code {
        code: OpCode::Constant(Lit::Int(n)),
        line,
    }
}

fn op(code: OpCode, line: usize) -> Code {
    Code { code, line }
}

#[test]
fn compiles_precedence_order() {
    // 3 * 4 binds tighter, so its product is computed before the addition.
    let codes = compile("2 + 3 * 4").unwrap();
    assert_eq!(
        codes,
        vec![
            constant(2, 1),
            constant(3, 1),
            constant(4, 1),
            op(OpCode::Mul, 1),
            op(OpCode::Add, 1),
            op(OpCode::Return, 2),
        ]
    );
}

#[test]
fn compiles_grouping_before_product() {
    let codes = compile("(2 + 3) * 4").unwrap();
    assert_eq!(
        codes,
        vec![
            constant(2, 1),
            constant(3, 1),
            op(OpCode::Add, 1),
            constant(4, 1),
            op(OpCode::Mul, 1),
            op(OpCode::Return, 2),
        ]
    );
}

#[test]
fn compiles_unary_negation_postfix() {
    let codes = compile("-2 + 3").unwrap();
    assert_eq!(
        codes,
        vec![
            constant(2, 1),
            op(OpCode::Negate, 1),
            constant(3, 1),
            op(OpCode::Add, 1),
            op(OpCode::Return, 2),
        ]
    );
}

#[test]
fn compiles_decimal_literal() {
    let codes = compile("1.05").unwrap();
    assert_eq!(
        codes,
        vec![
            op(
                OpCode::Constant(Lit::Dec(DecLit {
                    ipart: 1,
                    fpart: 5,
                    flen: 2,
                })),
                1
            ),
            op(OpCode::Return, 2),
        ]
    );
}

#[test]
fn compiling_twice_yields_identical_sequences() {
    let source = "-(1 + 2.5) * 4 / (3 - 1)";
    let first = compile(source).unwrap();
    let second = compile(source).unwrap();
    assert_eq!(first, second);
}

#[test]
fn unterminated_group_is_a_compile_error() {
    assert_eq!(
        compile("(1 + 2"),
        Err(InterpretError::CompileError { line: 2 })
    );
}

#[test]
fn missing_prefix_rule_is_a_compile_error() {
    assert_eq!(
        compile("* 3"),
        Err(InterpretError::CompileError { line: 1 })
    );
}

#[test]
fn malformed_decimal_is_a_compile_error() {
    assert_eq!(
        compile("1.2.3"),
        Err(InterpretError::CompileError { line: 1 })
    );
}

#[test]
fn integer_overflowing_literal_is_a_compile_error() {
    assert_eq!(
        compile("9223372036854775808"),
        Err(InterpretError::CompileError { line: 1 })
    );
    assert_eq!(
        compile("9223372036854775807").unwrap()[0],
        constant(9223372036854775807, 1)
    );
}

#[test]
fn trailing_input_is_a_compile_error() {
    assert_eq!(compile("1 2"), Err(InterpretError::CompileError { line: 1 }));
}

#[test]
fn parser_hands_out_instructions_lazily() {
    let mut parser = Parser::new("1 + 2");
    assert_eq!(Ok(Some(constant(1, 1))), parser.next());
    assert_eq!(Ok(Some(constant(2, 1))), parser.next());
    assert_eq!(Ok(Some(op(OpCode::Add, 1))), parser.next());
    assert_eq!(Ok(Some(op(OpCode::Return, 2))), parser.next());
    assert_eq!(Ok(None), parser.next());
    assert_eq!(Ok(None), parser.next());
}

#[test]
fn parser_reports_compile_errors() {
    let mut parser = Parser::new("* 3");
    assert_eq!(
        Err(InterpretError::CompileError { line: 1 }),
        parser.next()
    );
    assert_eq!(
        Err(InterpretError::CompileError { line: 1 }),
        parser.next()
    );
}
