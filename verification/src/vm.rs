//! The virtual machine: executes an instruction sequence on a value stack.
//!
//! Double-precision arithmetic cannot be performed here, so every step that
//! needs it pauses the run with [`Outcome::NeedDouble`]; the driver computes
//! the IEEE 754 result and hands its bits back through [`Vm::resume`].

use vstd::prelude::*;

use crate::code::{
    int_op, spec_int_op, spec_negate, BinOp, Code, DecLit, Lit, OpCode, Value,
};
use crate::compiler::{compile, compile_spec};
use crate::InterpretError;

verus! {

/// A double-precision operation the driver must carry out: the value of a
/// decimal literal, or a binary operation at least one of whose operands is
/// a double (the integer operand, if any, is promoted).
#[derive(Clone, Copy, Debug, PartialEq, Eq, Structural)]
pub enum DoubleReq {
    Lit(DecLit),
    Bin { op: BinOp, lhs: Value, rhs: Value },
}

/// How a run stands after `interpret` or `resume`: finished with a value,
/// stopped at a fault, or paused awaiting a double from the driver.
#[derive(Clone, Copy, Debug, PartialEq, Eq, Structural)]
pub enum Outcome {
    Done(Value),
    Fault(InterpretError),
    NeedDouble(DoubleReq),
}

/// The machine state: the program, the instruction pointer, and the operand
/// stack.
pub ghost struct VmModel {
    pub code: Seq<Code>,
    pub ip: int,
    pub stack: Seq<Value>,
}

/// Execute a binary arithmetic instruction at position `i`: pop the right
/// operand, then the left; fewer than two operands is a runtime fault. Two
/// integers are computed here (division by zero is a runtime fault); any
/// double operand pauses the run for the driver.
pub open spec fn sp_arith(c: Seq<Code>, i: int, st: Seq<Value>, op: BinOp) -> (
    Outcome,
    int,
    Seq<Value>,
)
    decreases c.len() - i, 0int,
{
    if i < 0 || i >= c.len() {
        (Outcome::Fault(InterpretError::RuntimeError), i, st)
    } else if st.len() < 2 {
        (Outcome::Fault(InterpretError::RuntimeError), i, st)
    } else {
        let rhs = st.last();
        let lhs = st.drop_last().last();
        let st2 = st.drop_last().drop_last();
        match (lhs, rhs) {
            (Value::Int(a), Value::Int(b)) => {
                if op is Div && b == 0 {
                    (Outcome::Fault(InterpretError::RuntimeError), i, st2)
                } else {
                    run_from(c, i + 1, st2.push(Value::Int(spec_int_op(op, a, b))))
                }
            },
            _ => (Outcome::NeedDouble(DoubleReq::Bin { op, lhs, rhs }), i + 1, st2),
        }
    }
}

/// Run instructions in order from position `i` until `Return`, a fault, or
/// a pause. Yields the outcome together with the machine position and stack
/// it stops at; a pause is resumed by pushing the driver's double and
/// continuing from that position.
pub open spec fn run_from(c: Seq<Code>, i: int, st: Seq<Value>) -> (Outcome, int, Seq<Value>)
    decreases c.len() - i, 1int,
{
    if i < 0 || i >= c.len() {
        (Outcome::Fault(InterpretError::RuntimeError), i, st)
    } else {
        match c[i].code {
            OpCode::Constant(l) => match l {
                Lit::Int(n) => run_from(c, i + 1, st.push(Value::Int(n))),
                Lit::Dec(d) => (Outcome::NeedDouble(DoubleReq::Lit(d)), i + 1, st),
            },
            OpCode::Negate => {
                if st.len() < 1 {
                    (Outcome::Fault(InterpretError::RuntimeError), i, st)
                } else {
                    run_from(c, i + 1, st.drop_last().push(spec_negate(st.last())))
                }
            },
            OpCode::Add => sp_arith(c, i, st, BinOp::Add),
            OpCode::Sub => sp_arith(c, i, st, BinOp::Sub),
            OpCode::Mul => sp_arith(c, i, st, BinOp::Mul),
            OpCode::Div => sp_arith(c, i, st, BinOp::Div),
            OpCode::Return => {
                if st.len() < 1 {
                    (Outcome::Fault(InterpretError::RuntimeError), i, st)
                } else {
                    (Outcome::Done(st.last()), i + 1, st.drop_last())
                }
            },
        }
    }
}

/// The virtual machine. It owns the operand stack; the stack is reset at
/// the start of every `interpret` call, and drained by a successful run.
pub struct Vm {
    code: Vec<Code>,
    ip: usize,
    stack: Vec<Value>,
}

impl View for Vm {
    type V = VmModel;

    closed spec fn view(&self) -> VmModel {
        VmModel { code: self.code@, ip: self.ip as int, stack: self.stack@ }
    }
}

impl Vm {
    pub fn new() -> (v: Vm)
        ensures
            v@ == (VmModel { code: Seq::<Code>::empty(), ip: 0, stack: Seq::<Value>::empty() }),
    {
        let code: Vec<Code> = Vec::new();
        let stack: Vec<Value> = Vec::new();
        proof {
            assert(code@ =~= Seq::<Code>::empty());
            assert(stack@ =~= Seq::<Value>::empty());
        }
        Vm { code, ip: 0, stack }
    }

    /// One arithmetic instruction; `None` means the run goes on.
    fn arith(&mut self, op: BinOp) -> (r: Option<Outcome>)
        requires
            old(self)@.ip < old(self)@.code.len(),
        ensures
            final(self)@.code == old(self)@.code,
            r is None ==> final(self)@.ip == old(self)@.ip + 1,
            ({
                let s = sp_arith(old(self)@.code, old(self)@.ip, old(self)@.stack, op);
                match r {
                    Some(o) => s == (o, final(self)@.ip, final(self)@.stack),
                    None => s == run_from(final(self)@.code, final(self)@.ip, final(self)@.stack),
                }
            }),
    {
        let cap = self.code.len();
        let rhs = match self.stack.pop() {
            Some(v) => v,
            None => {
                return Some(Outcome::Fault(InterpretError::RuntimeError));
            },
        };
        let lhs = match self.stack.pop() {
            Some(v) => v,
            None => {
                self.stack.push(rhs);
                proof {
                    assert(self@.stack =~= old(self)@.stack);
                }
                return Some(Outcome::Fault(InterpretError::RuntimeError));
            },
        };
        proof {
            assert(self.ip < cap);
        }
        match (lhs, rhs) {
            (Value::Int(a), Value::Int(b)) => {
                if matches!(op, BinOp::Div) && b == 0 {
                    Some(Outcome::Fault(InterpretError::RuntimeError))
                } else {
                    self.stack.push(Value::Int(int_op(op, a, b)));
                    self.ip = self.ip + 1;
                    None
                }
            },
            _ => {
                self.ip = self.ip + 1;
                Some(Outcome::NeedDouble(DoubleReq::Bin { op, lhs, rhs }))
            },
        }
    }

    /// Run from the current position until the run finishes, faults, or
    /// pauses for the driver.
    fn run(&mut self) -> (r: Outcome)
        ensures
            final(self)@.code == old(self)@.code,
            (r, final(self)@.ip, final(self)@.stack) == run_from(
                old(self)@.code,
                old(self)@.ip,
                old(self)@.stack,
            ),
    {
        loop
            invariant
                self@.code == old(self)@.code,
                run_from(self@.code, self@.ip, self@.stack) == run_from(
                    old(self)@.code,
                    old(self)@.ip,
                    old(self)@.stack,
                ),
            decreases self@.code.len() - self@.ip,
        {
            if self.ip >= self.code.len() {
                return Outcome::Fault(InterpretError::RuntimeError);
            }
            let ins = self.code[self.ip];
            match ins.code {
                OpCode::Constant(l) => match l {
                    Lit::Int(n) => {
                        self.stack.push(Value::Int(n));
                        self.ip = self.ip + 1;
                    },
                    Lit::Dec(d) => {
                        self.ip = self.ip + 1;
                        return Outcome::NeedDouble(DoubleReq::Lit(d));
                    },
                },
                OpCode::Negate => {
                    match self.stack.pop() {
                        Some(v) => {
                            self.stack.push(v.negate());
                            self.ip = self.ip + 1;
                        },
                        None => {
                            return Outcome::Fault(InterpretError::RuntimeError);
                        },
                    }
                },
                OpCode::Add => {
                    if let Some(o) = self.arith(BinOp::Add) {
                        return o;
                    }
                },
                OpCode::Sub => {
                    if let Some(o) = self.arith(BinOp::Sub) {
                        return o;
                    }
                },
                OpCode::Mul => {
                    if let Some(o) = self.arith(BinOp::Mul) {
                        return o;
                    }
                },
                OpCode::Div => {
                    if let Some(o) = self.arith(BinOp::Div) {
                        return o;
                    }
                },
                OpCode::Return => {
                    match self.stack.pop() {
                        Some(v) => {
                            self.ip = self.ip + 1;
                            return Outcome::Done(v);
                        },
                        None => {
                            return Outcome::Fault(InterpretError::RuntimeError);
                        },
                    }
                },
            }
        }
    }

    /// Compile and run one line of source text. The result is the computed
    /// value, the compile or runtime fault, or a request for the driver to
    /// compute a double. The operand stack is reset first, so the machine
    /// may be reused across calls.
    pub fn interpret(&mut self, source: &str) -> (r: Outcome)
        requires
            source@.len() + 2 <= usize::MAX,
        ensures
            ({
                match compile_spec(source@) {
                    Err(line) => r == Outcome::Fault(InterpretError::CompileError { line }),
                    Ok(cs) => final(self)@.code == cs && (r, final(self)@.ip, final(self)@.stack)
                        == run_from(cs, 0, Seq::<Value>::empty()),
                }
            }),
    {
        self.stack = Vec::new();
        self.ip = 0;
        match compile(source) {
            Err(e) => {
                self.code = Vec::new();
                Outcome::Fault(e)
            },
            Ok(cs) => {
                self.code = cs;
                proof {
                    assert(self@.stack =~= Seq::<Value>::empty());
                }
                self.run()
            },
        }
    }

    /// Resume a run paused by `NeedDouble`: push the double the driver
    /// computed, as IEEE 754 bits, and continue executing.
    pub fn resume(&mut self, bits: u64) -> (r: Outcome)
        ensures
            final(self)@.code == old(self)@.code,
            (r, final(self)@.ip, final(self)@.stack) == run_from(
                old(self)@.code,
                old(self)@.ip,
                old(self)@.stack.push(Value::Double(bits)),
            ),
    {
        self.stack.push(Value::Double(bits));
        self.run()
    }
}

impl Default for Vm {
    fn default() -> (v: Vm)
        ensures
            v@ == (VmModel { code: Seq::<Code>::empty(), ip: 0, stack: Seq::<Value>::empty() }),
    {
        Vm::new()
    }
}

} // verus!
