//! Laws of the compiler and the machine: compiled code is stack-balanced,
//! executing it never pops an empty stack, compilation is deterministic,
//! and arithmetic promotes by the fixed variant rule.

use vstd::prelude::*;

use crate::code::{spec_int_op, spec_negate, BinOp, Code, Lit, OpCode, Value};
use crate::compiler::{
    compile_spec, prog_fuel, scan_init, sp_binary, sp_grouping, sp_infix, sp_number, sp_prec,
    sp_unary, spec_rank, spec_rule_of, RANK_ASSIGNMENT,
};
use crate::scanner::{token_stream, TokenKind, TokenModel};
use crate::vm::{run_from, sp_arith, DoubleReq, Outcome};

verus! {

/// How many operands an instruction pops.
pub open spec fn arity(c: Code) -> int {
    match c.code {
        OpCode::Constant(_) => 0,
        OpCode::Negate => 1,
        OpCode::Add => 2,
        OpCode::Sub => 2,
        OpCode::Mul => 2,
        OpCode::Div => 2,
        OpCode::Return => 1,
    }
}

/// The net stack effect of an instruction.
pub open spec fn delta(c: Code) -> int {
    match c.code {
        OpCode::Constant(_) => 1,
        OpCode::Negate => 0,
        OpCode::Add => -1,
        OpCode::Sub => -1,
        OpCode::Mul => -1,
        OpCode::Div => -1,
        OpCode::Return => -1,
    }
}

/// The net stack effect of a sequence of instructions.
pub open spec fn net(s: Seq<Code>) -> int
    decreases s.len(),
{
    if s.len() == 0 {
        0
    } else {
        net(s.drop_last()) + delta(s.last())
    }
}

/// A stack-balanced expression body: it leaves exactly one value, contains
/// no `Return`, and before each instruction the values already produced
/// cover what it pops.
pub open spec fn well_expr(s: Seq<Code>) -> bool {
    &&& net(s) == 1
    &&& forall|k: int| 0 <= k < s.len() ==> !((#[trigger] s[k]).code is Return)
    &&& forall|k: int| 0 <= k < s.len() ==> net(s.take(k)) >= arity(#[trigger] s[k])
}

/// The shape of a compiled non-empty expression: a balanced body followed
/// by exactly one `Return`.
pub open spec fn program_shape(c: Seq<Code>) -> bool {
    &&& c.len() >= 1
    &&& c.last().code is Return
    &&& well_expr(c.drop_last())
}

proof fn lemma_net_concat(a: Seq<Code>, b: Seq<Code>)
    ensures
        net(a + b) == net(a) + net(b),
    decreases b.len(),
{
    if b.len() == 0 {
        assert(a + b =~= a);
    } else {
        assert((a + b).drop_last() =~= a + b.drop_last());
        assert((a + b).last() == b.last());
        lemma_net_concat(a, b.drop_last());
    }
}

proof fn lemma_net_take_step(c: Seq<Code>, k: int)
    requires
        0 <= k < c.len(),
    ensures
        net(c.take(k + 1)) == net(c.take(k)) + delta(c[k]),
{
    assert(c.take(k + 1).drop_last() =~= c.take(k));
    assert(c.take(k + 1).last() == c[k]);
}

/// Appending a second balanced operand and a binary instruction to a
/// balanced expression keeps it balanced.
proof fn lemma_well_concat_bin(a: Seq<Code>, b: Seq<Code>, c: Code)
    requires
        well_expr(a),
        well_expr(b),
        arity(c) == 2,
        delta(c) == -1,
        !(c.code is Return),
    ensures
        well_expr(a + b + seq![c]),
{
    let s = a + b + seq![c];
    lemma_net_concat(a, b);
    lemma_net_concat(a + b, seq![c]);
    assert(seq![c].drop_last() =~= Seq::<Code>::empty());
    assert(net(Seq::<Code>::empty()) == 0);
    assert(net(seq![c]) == delta(c));
    assert forall|k: int| 0 <= k < s.len() implies net(s.take(k)) >= arity(#[trigger] s[k]) by {
        if k < a.len() {
            assert(s.take(k) =~= a.take(k));
            assert(s[k] == a[k]);
        } else if k < a.len() + b.len() {
            assert(s.take(k) =~= a + b.take(k - a.len()));
            lemma_net_concat(a, b.take(k - a.len()));
            assert(s[k] == b[k - a.len()]);
        } else {
            assert(k == a.len() + b.len());
            assert(s.take(k) =~= a + b);
            assert(s[k] == c);
        }
    }
    assert forall|k: int| 0 <= k < s.len() implies !((#[trigger] s[k]).code is Return) by {
        if k < a.len() {
            assert(s[k] == a[k]);
        } else if k < a.len() + b.len() {
            assert(s[k] == b[k - a.len()]);
        } else {
            assert(s[k] == c);
        }
    }
}

/// Appending a `Negate` to a balanced expression keeps it balanced.
proof fn lemma_well_append_neg(a: Seq<Code>, c: Code)
    requires
        well_expr(a),
        arity(c) == 1,
        delta(c) == 0,
        !(c.code is Return),
    ensures
        well_expr(a + seq![c]),
{
    let s = a + seq![c];
    lemma_net_concat(a, seq![c]);
    assert(seq![c].drop_last() =~= Seq::<Code>::empty());
    assert(net(Seq::<Code>::empty()) == 0);
    assert(net(seq![c]) == delta(c));
    assert forall|k: int| 0 <= k < s.len() implies net(s.take(k)) >= arity(#[trigger] s[k]) by {
        if k < a.len() {
            assert(s.take(k) =~= a.take(k));
            assert(s[k] == a[k]);
        } else {
            assert(k == a.len());
            assert(s.take(k) =~= a);
            assert(s[k] == c);
        }
    }
    assert forall|k: int| 0 <= k < s.len() implies !((#[trigger] s[k]).code is Return) by {
        if k < a.len() {
            assert(s[k] == a[k]);
        } else {
            assert(s[k] == c);
        }
    }
}

/// A single constant is a balanced expression.
proof fn lemma_well_const(c: Code)
    requires
        c.code is Constant,
    ensures
        well_expr(seq![c]),
{
    assert(seq![c].drop_last() =~= Seq::<Code>::empty());
    assert forall|k: int| 0 <= k < seq![c].len() implies net(seq![c].take(k)) >= arity(
        #[trigger] seq![c][k],
    ) by {
        assert(seq![c].take(0) =~= Seq::<Code>::empty());
    }
}

proof fn lemma_prec_well(ts: Seq<TokenModel>, i: int, min: u8, fuel: nat)
    requires
        min >= 1,
    ensures
        ({
            let r = sp_prec(ts, i, min, fuel);
            r.err is None ==> well_expr(r.emitted)
        }),
    decreases fuel, 3int,
{
    if fuel != 0 && 0 <= i < ts.len() {
        let t = ts[i];
        let g = (fuel - 1) as nat;
        match spec_rule_of(t.kind).prefix {
            Some(crate::compiler::Rule::Number) => {
                let p = sp_number(ts, i + 1);
                if p.err is None {
                    lemma_well_const(p.emitted[0]);
                    assert(p.emitted =~= seq![p.emitted[0]]);
                    lemma_infix_well(ts, p.next, min, g, p.emitted);
                }
            },
            Some(crate::compiler::Rule::Unary) => {
                lemma_unary_well(ts, i + 1, g);
                let p = sp_unary(ts, i + 1, g);
                if p.err is None {
                    lemma_infix_well(ts, p.next, min, g, p.emitted);
                }
            },
            Some(crate::compiler::Rule::Grouping) => {
                lemma_grouping_well(ts, i + 1, g);
                let p = sp_grouping(ts, i + 1, g);
                if p.err is None {
                    lemma_infix_well(ts, p.next, min, g, p.emitted);
                }
            },
            None => {},
        }
    }
}

/// Folding in further operators preserves balance of the whole.
proof fn lemma_infix_well(ts: Seq<TokenModel>, j: int, min: u8, fuel: nat, a: Seq<Code>)
    requires
        min >= 1,
        well_expr(a),
    ensures
        ({
            let r = sp_infix(ts, j, min, fuel);
            r.err is None ==> well_expr(a + r.emitted)
        }),
    decreases fuel, 4int,
{
    let r = sp_infix(ts, j, min, fuel);
    if fuel == 0 {
    } else if j < 0 || j >= ts.len() {
        assert(a + r.emitted =~= a);
    } else if spec_rank(spec_rule_of(ts[j].kind).precedence) >= min {
        let g = (fuel - 1) as nat;
        lemma_binary_well(ts, j + 1, g, a);
        let b = sp_binary(ts, j + 1, g);
        if b.err is None {
            lemma_infix_well(ts, b.next, min, g, a + b.emitted);
            let rest = sp_infix(ts, b.next, min, g);
            if rest.err is None {
                assert(a + (b.emitted + rest.emitted) =~= (a + b.emitted) + rest.emitted);
            }
        }
    } else {
        assert(a + r.emitted =~= a);
    }
}

proof fn lemma_binary_well(ts: Seq<TokenModel>, j1: int, fuel: nat, a: Seq<Code>)
    requires
        well_expr(a),
        1 <= j1 <= ts.len(),
        spec_rank(spec_rule_of(ts[j1 - 1].kind).precedence) >= 1,
    ensures
        ({
            let b = sp_binary(ts, j1, fuel);
            b.err is None ==> well_expr(a + b.emitted)
        }),
    decreases fuel, 1int,
{
    if fuel != 0 {
        let g = (fuel - 1) as nat;
        let kind = ts[j1 - 1].kind;
        lemma_prec_well(ts, j1, (spec_rank(spec_rule_of(kind).precedence) + 1) as u8, g);
        let r = sp_prec(ts, j1, (spec_rank(spec_rule_of(kind).precedence) + 1) as u8, g);
        if r.err is None {
            let c = Code {
                code: crate::compiler::opcode_of(kind),
                line: crate::compiler::line_at(ts, j1 - 1),
            };
            lemma_well_concat_bin(a, r.emitted, c);
            assert(a + (r.emitted + seq![c]) =~= a + r.emitted + seq![c]);
        }
    }
}

proof fn lemma_unary_well(ts: Seq<TokenModel>, i1: int, fuel: nat)
    ensures
        ({
            let r = sp_unary(ts, i1, fuel);
            r.err is None ==> well_expr(r.emitted)
        }),
    decreases fuel, 1int,
{
    if fuel != 0 {
        let g = (fuel - 1) as nat;
        lemma_prec_well(ts, i1, crate::compiler::RANK_UNARY, g);
        let r = sp_prec(ts, i1, crate::compiler::RANK_UNARY, g);
        if r.err is None {
            let c = Code { code: OpCode::Negate, line: crate::compiler::line_at(ts, i1 - 1) };
            lemma_well_append_neg(r.emitted, c);
        }
    }
}

proof fn lemma_grouping_well(ts: Seq<TokenModel>, i1: int, fuel: nat)
    ensures
        ({
            let r = sp_grouping(ts, i1, fuel);
            r.err is None ==> well_expr(r.emitted)
        }),
    decreases fuel, 2int,
{
    if fuel != 0 {
        lemma_prec_well(ts, i1, RANK_ASSIGNMENT, (fuel - 1) as nat);
    }
}

/// What compiling yields is a balanced body closed by one `Return`; the
/// empty input compiles to the lone `Return`.
pub proof fn lemma_compile_well_formed(src: Seq<char>, cs: Seq<Code>)
    requires
        compile_spec(src) == Result::<Seq<Code>, usize>::Ok(cs),
    ensures
        cs.len() >= 1,
        cs.last().code is Return,
        cs.len() >= 2 ==> program_shape(cs),
{
    let ts = token_stream(scan_init(src));
    if ts.len() == 0 {
    } else if ts[0].kind == TokenKind::Eof {
        assert(cs =~= seq![Code { code: OpCode::Return, line: ts[0].line }]);
    } else {
        let r = sp_prec(ts, 0, RANK_ASSIGNMENT, prog_fuel(ts));
        lemma_prec_well(ts, 0, RANK_ASSIGNMENT, prog_fuel(ts));
        if r.err is None && 0 <= r.next < ts.len() && ts[r.next].kind == TokenKind::Eof {
            let ret = Code { code: OpCode::Return, line: ts[r.next].line };
            assert(cs =~= r.emitted + seq![ret]);
            assert(cs.drop_last() =~= r.emitted);
            assert(cs.last() == ret);
            if r.emitted.len() == 0 {
                assert(r.emitted =~= Seq::<Code>::empty());
                assert(net(r.emitted) == 0);
            }
        }
    }
}

/// Does the run from this state ever pop an empty stack? The binary
/// arithmetic step, mirrored.
pub open spec fn ha_arith(c: Seq<Code>, i: int, st: Seq<Value>, op: BinOp) -> bool
    decreases c.len() - i, 0int,
{
    if i < 0 || i >= c.len() {
        false
    } else if st.len() < 2 {
        true
    } else {
        let rhs = st.last();
        let lhs = st.drop_last().last();
        let st2 = st.drop_last().drop_last();
        match (lhs, rhs) {
            (Value::Int(a), Value::Int(b)) => {
                if op is Div && b == 0 {
                    false
                } else {
                    hits_underflow(c, i + 1, st2.push(Value::Int(spec_int_op(op, a, b))))
                }
            },
            _ => false,
        }
    }
}

/// Does the run from this state ever pop an empty stack before it ends or
/// pauses?
pub open spec fn hits_underflow(c: Seq<Code>, i: int, st: Seq<Value>) -> bool
    decreases c.len() - i, 1int,
{
    if i < 0 || i >= c.len() {
        false
    } else {
        match c[i].code {
            OpCode::Constant(l) => match l {
                Lit::Int(n) => hits_underflow(c, i + 1, st.push(Value::Int(n))),
                Lit::Dec(d) => false,
            },
            OpCode::Negate => {
                if st.len() < 1 {
                    true
                } else {
                    hits_underflow(c, i + 1, st.drop_last().push(spec_negate(st.last())))
                }
            },
            OpCode::Add => ha_arith(c, i, st, BinOp::Add),
            OpCode::Sub => ha_arith(c, i, st, BinOp::Sub),
            OpCode::Mul => ha_arith(c, i, st, BinOp::Mul),
            OpCode::Div => ha_arith(c, i, st, BinOp::Div),
            OpCode::Return => st.len() < 1,
        }
    }
}

/// From any position of a well-formed program whose stack depth matches
/// the instructions already executed, the run never pops an empty stack;
/// and when it pauses for the driver, the resumed state (one double
/// pushed) matches again, so the guarantee carries across every resume.
pub proof fn lemma_no_underflow(c: Seq<Code>, i: int, st: Seq<Value>)
    requires
        program_shape(c),
        0 <= i < c.len(),
        st.len() == net(c.take(i)),
    ensures
        !hits_underflow(c, i, st),
        ({
            let (o, i2, st2) = run_from(c, i, st);
            o is NeedDouble ==> 0 <= i2 < c.len() && st2.len() + 1 == net(c.take(i2))
        }),
    decreases c.len() - i, 1int,
{
    let e = c.drop_last();
    lemma_net_take_step(c, i);
    if i < c.len() - 1 {
        assert(c.take(i) =~= e.take(i));
        assert(c.take(i + 1) =~= e.take(i + 1));
        assert(c[i] == e[i]);
        assert(net(e.take(i)) >= arity(e[i]));
        match c[i].code {
            OpCode::Constant(l) => match l {
                Lit::Int(n) => {
                    lemma_no_underflow(c, i + 1, st.push(Value::Int(n)));
                },
                Lit::Dec(d) => {},
            },
            OpCode::Negate => {
                lemma_no_underflow(c, i + 1, st.drop_last().push(spec_negate(st.last())));
            },
            OpCode::Add => {
                lemma_arith_no_underflow(c, i, st, BinOp::Add);
            },
            OpCode::Sub => {
                lemma_arith_no_underflow(c, i, st, BinOp::Sub);
            },
            OpCode::Mul => {
                lemma_arith_no_underflow(c, i, st, BinOp::Mul);
            },
            OpCode::Div => {
                lemma_arith_no_underflow(c, i, st, BinOp::Div);
            },
            OpCode::Return => {
                assert(false);
            },
        }
    } else {
        assert(c.take(i) =~= e);
        assert(c[i] == c.last());
        assert(st.len() == 1);
    }
}

proof fn lemma_arith_no_underflow(c: Seq<Code>, i: int, st: Seq<Value>, op: BinOp)
    requires
        program_shape(c),
        0 <= i < c.len() - 1,
        st.len() == net(c.take(i)),
        st.len() >= 2,
        net(c.take(i + 1)) == net(c.take(i)) - 1,
    ensures
        !ha_arith(c, i, st, op),
        ({
            let (o, i2, st2) = sp_arith(c, i, st, op);
            o is NeedDouble ==> 0 <= i2 < c.len() && st2.len() + 1 == net(c.take(i2))
        }),
    decreases c.len() - i, 0int,
{
    let rhs = st.last();
    let lhs = st.drop_last().last();
    let st2 = st.drop_last().drop_last();
    match (lhs, rhs) {
        (Value::Int(a), Value::Int(b)) => {
            if !(op is Div && b == 0) {
                lemma_no_underflow(c, i + 1, st2.push(Value::Int(spec_int_op(op, a, b))));
            }
        },
        _ => {},
    }
}

/// Every compiled well-formed expression runs from the empty stack without
/// ever popping empty, whatever double results the driver supplies at each
/// pause.
pub proof fn lemma_compiled_never_underflows(src: Seq<char>, cs: Seq<Code>)
    requires
        compile_spec(src) == Result::<Seq<Code>, usize>::Ok(cs),
        cs.len() >= 2,
    ensures
        !hits_underflow(cs, 0, Seq::<Value>::empty()),
{
    lemma_compile_well_formed(src, cs);
    assert(cs.take(0) =~= Seq::<Code>::empty());
    lemma_no_underflow(cs, 0, Seq::<Value>::empty());
}

/// Compiling the same source twice yields identical instruction sequences:
/// by `compile`'s contract the result is the pure function `compile_spec`
/// of the text alone.
pub proof fn lemma_compile_deterministic(s1: Seq<char>, s2: Seq<char>)
    requires
        s1 == s2,
    ensures
        compile_spec(s1) == compile_spec(s2),
{
}

/// Numeric promotion: two integer operands stay integer (the computed
/// value is pushed and the run goes on), and a double operand on either
/// side defers the operation to the driver, which resumes with a double.
pub proof fn lemma_promotion(c: Seq<Code>, i: int, st: Seq<Value>, op: BinOp)
    requires
        0 <= i < c.len(),
        st.len() >= 2,
    ensures
        ({
            let rhs = st.last();
            let lhs = st.drop_last().last();
            let st2 = st.drop_last().drop_last();
            match (lhs, rhs) {
                (Value::Int(a), Value::Int(b)) => (op is Div && b == 0) || sp_arith(c, i, st, op)
                    == run_from(c, i + 1, st2.push(Value::Int(spec_int_op(op, a, b)))),
                _ => sp_arith(c, i, st, op) == (
                    Outcome::NeedDouble(DoubleReq::Bin { op, lhs, rhs }),
                    i + 1,
                    st2,
                ),
            }
        }),
{
}

} // verus!
