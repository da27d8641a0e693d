use exprvm::code::{BinOp, DecLit, Value};
use exprvm::vm::{DoubleReq, Outcome, Vm};
use exprvm::InterpretError;

fn as_f64(v: Value) -> f64 {
    match v {
        Value::Int(n) => n as f64,
        Value::Double(bits) => f64::from_bits(bits),
    }
}

fn literal_bits(d: DecLit) -> u64 {
    let text = format!("{}.{:0w$}", d.ipart, d.fpart, w = d.flen as usize);
    text.parse::<f64>().unwrap().to_bits()
}

/// Runs a source line to completion, computing every requested double
/// operation with host floating point and resuming the machine.
fn run(vm: &mut Vm, source: &str) -> Result<Value, InterpretError> {
    let mut outcome = vm.interpret(source);
    loop {
        match outcome {
            Outcome::Done(v) => return Ok(v),
            Outcome::Fault(e) => return Err(e),
            Outcome::NeedDouble(req) => {
                let bits = match req {
                    DoubleReq::Lit(d) => literal_bits(d),
                    DoubleReq::Bin { op, lhs, rhs } => {
                        let a = as_f64(lhs);
                        let b = as_f64(rhs);
                        let r = match op {
                            BinOp::Add => a + b,
                            BinOp::Sub => a - b,
                            BinOp::Mul => a * b,
                            BinOp::Div => a / b,
                        };
                        r.to_bits()
                    }
                };
                outcome = vm.resume(bits);
            }
        }
    }
}

fn eval(source: &str) -> Result<Value, InterpretError> {
    let mut vm = Vm::new();
    run(&mut vm, source)
}

#[test]
fn precedence_holds() {
    assert_eq!(eval("2 + 3 * 4"), Ok(Value::Int(14)));
    assert_eq!(eval("(2 + 3) * 4"), Ok(Value::Int(20)));
}

#[test]
fn same_precedence_is_left_associative() {
    assert_eq!(eval("8 - 3 - 2"), Ok(Value::Int(3)));
    assert_eq!(eval("8 / 4 / 2"), Ok(Value::Int(1)));
}

#[test]
fn unary_negation_binds_tightest() {
    assert_eq!(eval("-2 + 3"), Ok(Value::Int(1)));
    assert_eq!(eval("-(2 + 3)"), Ok(Value::Int(-5)));
    assert_eq!(eval("--2"), Ok(Value::Int(2)));
}

#[test]
fn numeric_promotion() {
    assert_eq!(eval("1 + 2"), Ok(Value::Int(3)));
    assert_eq!(eval("1 + 2.0"), Ok(Value::Double((3.0f64).to_bits())));
    assert_eq!(eval("2.5 * 2"), Ok(Value::Double((5.0f64).to_bits())));
}

#[test]
fn integer_division_truncates_toward_zero() {
    assert_eq!(eval("7 / 2"), Ok(Value::Int(3)));
    assert_eq!(eval("-7 / 2"), Ok(Value::Int(-3)));
    assert_eq!(eval("7 / -2"), Ok(Value::Int(-3)));
}

#[test]
fn integer_division_by_zero_is_a_runtime_error() {
    assert_eq!(eval("1 / 0"), Err(InterpretError::RuntimeError));
}

#[test]
fn double_division_by_zero_is_infinite() {
    assert_eq!(
        eval("1.0 / 0"),
        Ok(Value::Double(f64::INFINITY.to_bits()))
    );
}

#[test]
fn negated_double_flips_the_sign_bit() {
    assert_eq!(eval("-2.5"), Ok(Value::Double((-2.5f64).to_bits())));
    assert_eq!(eval("-(1.5 + 1.0)"), Ok(Value::Double((-2.5f64).to_bits())));
}

#[test]
fn malformed_input_is_a_compile_error_not_a_crash() {
    assert_eq!(
        eval("(1 + 2"),
        Err(InterpretError::CompileError { line: 2 })
    );
    assert_eq!(
        eval("* 3"),
        Err(InterpretError::CompileError { line: 1 })
    );
}

#[test]
fn empty_input_underflows_at_return() {
    assert_eq!(eval(""), Err(InterpretError::RuntimeError));
}

#[test]
fn machine_is_reusable_across_lines() {
    let mut vm = Vm::new();
    assert_eq!(run(&mut vm, "1 + 1"), Ok(Value::Int(2)));
    assert_eq!(run(&mut vm, "* 3"), Err(InterpretError::CompileError { line: 1 }));
    assert_eq!(run(&mut vm, "1 / 0"), Err(InterpretError::RuntimeError));
    assert_eq!(run(&mut vm, "2 * 21"), Ok(Value::Int(42)));
}

#[test]
fn long_chains_run_without_underflow() {
    let mut source = String::from("1");
    for _ in 0..100 {
        source.push_str(" + 1");
    }
    assert_eq!(eval(&source), Ok(Value::Int(101)));

    let mut nested = String::new();
    for _ in 0..50 {
        nested.push_str("-(");
    }
    nested.push('7');
    for _ in 0..50 {
        nested.push(')');
    }
    assert_eq!(eval(&nested), Ok(Value::Int(7)));
}

#[test]
fn wrapping_integer_arithmetic() {
    assert_eq!(
        eval("9223372036854775807 + 1"),
        Ok(Value::Int(i64::MIN))
    );
    assert_eq!(
        eval("(0 - 9223372036854775807 - 1) / -1"),
        Ok(Value::Int(i64::MIN))
    );
}

#[test]
fn negation_preserves_the_variant() {
    assert_eq!(Value::Int(3).negate(), Value::Int(-3));
    assert_eq!(
        Value::Double((2.5f64).to_bits()).negate(),
        Value::Double((-2.5f64).to_bits())
    );
}
