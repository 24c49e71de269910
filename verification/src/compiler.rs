//! The bytecode compiler: a depth-first, post-order lowering of AST nodes
//! into a flat instruction list for a stack machine, so that operands are
//! always emitted before the operator that consumes them.
use vstd::prelude::*;

use crate::ast::Ast;
use crate::ast::AstNode;
use crate::ast::BinaryOp;
use crate::ast::lemma_view_nodes;
use crate::ast::view_node;
use crate::ast::view_nodes;
use crate::errors::CompilerError;

verus! {

broadcast use vstd::std_specs::vec::group_vec_axioms;

/// A stack-machine operation.
#[derive(Debug, Clone, Copy, PartialEq, Eq, Structural)]
pub enum OpCode {
    /// Push a literal onto the stack.
    Push,
    /// Discard the top of the stack.
    Pop,
    /// Pop two values, push their sum.
    Add,
    /// Pop two values, push their difference.
    Sub,
    /// Pop two values, push their product.
    Mul,
    /// Pop two values, push their quotient.
    Div,
    /// Pop two values, push the remainder.
    Mod,
    /// Negate the top of the stack.
    Neg,
    /// Pop two values, push whether they are equal.
    Eq,
    /// Pop two values, push whether they differ.
    Neq,
    /// Pop two values, push the greater-than comparison.
    Gt,
    /// Pop two values, push the less-than comparison.
    Lt,
    /// Pop two values, push the greater-or-equal comparison.
    Gte,
    /// Pop two values, push the less-or-equal comparison.
    Lte,
    /// Jump to a section unconditionally.
    Jump,
    /// Jump to a section when the top of the stack is true.
    JumpIf,
    /// Load a named value onto the stack.
    LoadName,
    /// Store the top of the stack under a name.
    StoreName,
    /// Open a named section that collects the following instructions.
    MakeSection,
    /// Close the section opened last.
    EndMakeSection,
    /// Leave the current section.
    Return,
}

/// One instruction: an opcode tag and its string arguments.
#[derive(Debug, PartialEq, Eq)]
pub struct ByteCode {
    pub op: OpCode,
    pub args: Vec<String>,
}

/// The mathematical model of a [`ByteCode`] record.
#[verifier::ext_equal]
pub ghost struct Bc {
    pub op: OpCode,
    pub args: Seq<Seq<char>>,
}

impl View for ByteCode {
    type V = Bc;

    open spec fn view(&self) -> Bc {
        Bc { op: self.op, args: self.args.deep_view() }
    }
}

impl DeepView for ByteCode {
    type V = Bc;

    open spec fn deep_view(&self) -> Bc {
        self.view()
    }
}

impl ByteCode {
    pub fn new(op: OpCode, args: Vec<String>) -> (r: Self)
        ensures
            r@ == (Bc { op, args: args.deep_view() }),
    {
        Self { op, args }
    }
}

/// Relies on rand::thread_rng and rand::Rng::gen_range: the sample lies
/// in the given half-open range, so the result is below ten. Nothing is
/// assumed of which value comes back, nor of how two calls relate.
#[verifier::external_body]
fn random_digit() -> (d: u8)
    ensures
        d < 10,
{
    rand::Rng::gen_range(&mut rand::thread_rng(), 0u8..10u8)
}

/// A decimal digit character.
pub open spec fn is_decimal_digit(c: char) -> bool {
    '0' as u32 <= c as u32 && c as u32 <= '9' as u32
}

/// The single-character text of a digit value.
fn digit_text(d: u8) -> (r: &'static str)
    requires
        d < 10,
    ensures
        r@.len() == 1,
        is_decimal_digit(r@[0]),
{
    let r: &'static str = match d {
        0 => "0",
        1 => "1",
        2 => "2",
        3 => "3",
        4 => "4",
        5 => "5",
        6 => "6",
        7 => "7",
        8 => "8",
        _ => "9",
    };
    proof {
        reveal_strlit("0");
        reveal_strlit("1");
        reveal_strlit("2");
        reveal_strlit("3");
        reveal_strlit("4");
        reveal_strlit("5");
        reveal_strlit("6");
        reveal_strlit("7");
        reveal_strlit("8");
        reveal_strlit("9");
    }
    r
}

/// An eight-digit numeric section name drawn from the process-wide random
/// source. The name is not guaranteed unique.
#[verifier::loop_isolation(false)]
pub fn get_random_name() -> (r: String)
    ensures
        r@.len() == 8,
        forall|i: int| 0 <= i < 8 ==> is_decimal_digit(r@[i]),
{
    let mut name = String::new();
    let mut i: usize = 0;
    while i < 8
        invariant
            0 <= i <= 8,
            name@.len() == i,
            forall|k: int| 0 <= k < i ==> is_decimal_digit(name@[k]),
        decreases 8 - i,
    {
        let d = random_digit();
        name.append(digit_text(d));
        i = i + 1;
    }
    name
}

/// The opcode that evaluates each binary operator.
pub open spec fn op_code_of(op: BinaryOp) -> OpCode {
    match op {
        BinaryOp::Add => OpCode::Add,
        BinaryOp::Sub => OpCode::Sub,
        BinaryOp::Mul => OpCode::Mul,
        BinaryOp::Div => OpCode::Div,
        BinaryOp::Mod => OpCode::Mod,
        BinaryOp::Eq => OpCode::Eq,
        BinaryOp::Neq => OpCode::Neq,
        BinaryOp::Gt => OpCode::Gt,
        BinaryOp::Gte => OpCode::Gte,
        BinaryOp::Lt => OpCode::Lt,
        BinaryOp::Lte => OpCode::Lte,
    }
}

impl BinaryOp {
    /// The opcode that evaluates this operator.
    pub fn to_opcode(&self) -> (r: OpCode)
        ensures
            r == op_code_of(*self),
    {
        match self {
            BinaryOp::Add => OpCode::Add,
            BinaryOp::Sub => OpCode::Sub,
            BinaryOp::Mul => OpCode::Mul,
            BinaryOp::Div => OpCode::Div,
            BinaryOp::Mod => OpCode::Mod,
            BinaryOp::Eq => OpCode::Eq,
            BinaryOp::Neq => OpCode::Neq,
            BinaryOp::Gt => OpCode::Gt,
            BinaryOp::Gte => OpCode::Gte,
            BinaryOp::Lt => OpCode::Lt,
            BinaryOp::Lte => OpCode::Lte,
        }
    }
}

/// The instruction list a tree lowers to, or an error where an expression
/// node carries an operator without a right operand. Program nodes
/// concatenate their children's lowerings in order; expressions lower
/// post-order (left, right, operator); identifiers and constants emit one
/// instruction; statement variants are not lowered and emit nothing.
pub open spec fn compile_node(v: Ast) -> Result<Seq<Bc>, ()>
    decreases v,
{
    match v {
        Ast::Program(nodes) => compile_nodes(nodes),
        Ast::Expr(left, op, right) => match compile_node(*left) {
            Err(e) => Err(e),
            Ok(left_code) => match op {
                None => Ok(left_code),
                Some(o) => match right {
                    None => Err(()),
                    Some(r) => match compile_node(*r) {
                        Err(e) => Err(e),
                        Ok(right_code) => Ok(
                            left_code + right_code + seq![
                                Bc { op: op_code_of(o), args: Seq::empty() },
                            ],
                        ),
                    },
                },
            },
        },
        Ast::Identifier(name) => Ok(seq![Bc { op: OpCode::LoadName, args: seq![name] }]),
        Ast::Constant(text) => Ok(seq![Bc { op: OpCode::Push, args: seq![text] }]),
        _ => Ok(Seq::empty()),
    }
}

/// Lowering of a node list: the concatenation of each node's lowering,
/// aborted at the first error.
pub open spec fn compile_nodes(nodes: Seq<Ast>) -> Result<Seq<Bc>, ()>
    decreases nodes,
{
    if nodes.len() == 0 {
        Ok(Seq::empty())
    } else {
        match compile_nodes(nodes.drop_last()) {
            Err(e) => Err(e),
            Ok(front) => match compile_node(nodes.last()) {
                Err(e) => Err(e),
                Ok(last_code) => Ok(front + last_code),
            },
        }
    }
}

/// A failing prefix makes the whole list fail.
proof fn lemma_compile_nodes_err_prefix(nodes: Seq<Ast>, j: int)
    requires
        0 <= j <= nodes.len(),
        compile_nodes(nodes.subrange(0, j)) is Err,
    ensures
        compile_nodes(nodes) is Err,
    decreases nodes.len(),
{
    if j == nodes.len() {
        assert(nodes.subrange(0, j) =~= nodes);
    } else {
        assert(nodes.drop_last().subrange(0, j) =~= nodes.subrange(0, j));
        lemma_compile_nodes_err_prefix(nodes.drop_last(), j);
    }
}

/// The stack height after one straight-line instruction runs from the
/// given height: literals and loads push one value, binary operators
/// consume two values and push one. `None` where the stack would
/// underflow or the instruction is no straight-line expression code.
pub open spec fn step_height(bc: Bc, h: int) -> Option<int> {
    match bc.op {
        OpCode::Push => Some(h + 1),
        OpCode::LoadName => Some(h + 1),
        OpCode::Add => if h >= 2 {
            Some(h - 1)
        } else {
            None
        },
        OpCode::Sub => if h >= 2 {
            Some(h - 1)
        } else {
            None
        },
        OpCode::Mul => if h >= 2 {
            Some(h - 1)
        } else {
            None
        },
        OpCode::Div => if h >= 2 {
            Some(h - 1)
        } else {
            None
        },
        OpCode::Mod => if h >= 2 {
            Some(h - 1)
        } else {
            None
        },
        OpCode::Eq => if h >= 2 {
            Some(h - 1)
        } else {
            None
        },
        OpCode::Neq => if h >= 2 {
            Some(h - 1)
        } else {
            None
        },
        OpCode::Gt => if h >= 2 {
            Some(h - 1)
        } else {
            None
        },
        OpCode::Lt => if h >= 2 {
            Some(h - 1)
        } else {
            None
        },
        OpCode::Gte => if h >= 2 {
            Some(h - 1)
        } else {
            None
        },
        OpCode::Lte => if h >= 2 {
            Some(h - 1)
        } else {
            None
        },
        _ => None,
    }
}

/// The stack height after an instruction list runs from the given height,
/// or `None` where some instruction would underflow.
pub open spec fn run_height(code: Seq<Bc>, h: int) -> Option<int>
    decreases code.len(),
{
    if code.len() == 0 {
        Some(h)
    } else {
        match step_height(code[0], h) {
            None => None,
            Some(h2) => run_height(code.subrange(1, code.len() as int), h2),
        }
    }
}

/// How many values a tree's lowering leaves on the stack: one for an
/// expression, an identifier or a constant, none for a statement, the sum
/// over the children for a program.
pub open spec fn values_produced(v: Ast) -> int
    decreases v,
{
    match v {
        Ast::Program(nodes) => values_produced_list(nodes),
        Ast::Constant(_) => 1,
        Ast::Identifier(_) => 1,
        Ast::Expr(left, op, right) => match op {
            None => values_produced(*left),
            Some(_) => 1,
        },
        _ => 0,
    }
}

pub open spec fn values_produced_list(nodes: Seq<Ast>) -> int
    decreases nodes,
{
    if nodes.len() == 0 {
        0
    } else {
        values_produced_list(nodes.drop_last()) + values_produced(nodes.last())
    }
}

/// A tree whose lowering is straight-line evaluable: every binary
/// expression has a right operand, and both operands leave exactly one
/// value on the stack for the operator to consume.
pub open spec fn evaluable(v: Ast) -> bool
    decreases v,
{
    match v {
        Ast::Program(nodes) => evaluable_list(nodes),
        Ast::Constant(_) => true,
        Ast::Identifier(_) => true,
        Ast::Expr(left, op, right) => match op {
            None => evaluable(*left),
            Some(_) => match right {
                None => false,
                Some(r) => evaluable(*left) && values_produced(*left) == 1 && evaluable(*r)
                    && values_produced(*r) == 1,
            },
        },
        _ => true,
    }
}

pub open spec fn evaluable_list(nodes: Seq<Ast>) -> bool
    decreases nodes,
{
    if nodes.len() == 0 {
        true
    } else {
        evaluable_list(nodes.drop_last()) && evaluable(nodes.last())
    }
}

/// A node list is evaluable exactly when each of its nodes is.
pub proof fn lemma_evaluable_list_pointwise(nodes: Seq<Ast>)
    ensures
        evaluable_list(nodes) <==> (forall|i: int|
            0 <= i < nodes.len() ==> evaluable(#[trigger] nodes[i])),
    decreases nodes.len(),
{
    if nodes.len() > 0 {
        lemma_evaluable_list_pointwise(nodes.drop_last());
        if evaluable_list(nodes) {
            assert forall|i: int| 0 <= i < nodes.len() implies evaluable(
                #[trigger] nodes[i],
            ) by {
                if i < nodes.len() - 1 {
                    assert(nodes.drop_last()[i] == nodes[i]);
                } else {
                    assert(nodes[i] == nodes.last());
                }
            }
        }
        if forall|i: int| 0 <= i < nodes.len() ==> evaluable(#[trigger] nodes[i]) {
            assert forall|i: int| 0 <= i < nodes.drop_last().len() implies evaluable(
                nodes.drop_last()[i],
            ) by {
                assert(nodes.drop_last()[i] == nodes[i]);
            }
            assert(evaluable(nodes[nodes.len() - 1]));
        }
    }
}

/// Running one list after another composes the height effects.
proof fn lemma_run_concat(a: Seq<Bc>, b: Seq<Bc>, h: int)
    requires
        run_height(a, h) is Some,
    ensures
        run_height(a + b, h) == run_height(b, run_height(a, h)->0),
    decreases a.len(),
{
    if a.len() == 0 {
        assert(a + b =~= b);
    } else {
        let h2 = step_height(a[0], h)->0;
        assert((a + b).subrange(1, (a + b).len() as int) =~= a.subrange(1, a.len() as int)
            + b);
        lemma_run_concat(a.subrange(1, a.len() as int), b, h2);
    }
}

/// No tree leaves a negative number of values.
proof fn lemma_values_nonneg(v: Ast)
    ensures
        values_produced(v) >= 0,
    decreases v, 0int,
{
    match v {
        Ast::Program(nodes) => {
            lemma_values_list_nonneg(nodes);
        },
        Ast::Expr(left, op, right) => {
            if op is None {
                lemma_values_nonneg(*left);
            }
        },
        _ => {},
    }
}

proof fn lemma_values_list_nonneg(nodes: Seq<Ast>)
    ensures
        values_produced_list(nodes) >= 0,
    decreases nodes, 1int,
{
    if nodes.len() > 0 {
        lemma_values_list_nonneg(nodes.drop_last());
        lemma_values_nonneg(nodes.last());
    }
}

/// The post-order lowering is correct for a stack machine: on an
/// evaluable tree the compiler succeeds, and from any starting height the
/// emitted instructions run without underflow, operands standing before
/// the operator that consumes them, and leave exactly the tree's values
/// on the stack.
pub proof fn lemma_compile_stack_order(v: Ast, h: int)
    requires
        evaluable(v),
        h >= 0,
    ensures
        compile_node(v) is Ok,
        run_height(compile_node(v)->Ok_0, h) == Some(h + values_produced(v)),
    decreases v, 0int,
{
    match v {
        Ast::Program(nodes) => {
            lemma_compile_stack_order_list(nodes, h);
            assert(compile_node(v) == compile_nodes(nodes));
            assert(values_produced(v) == values_produced_list(nodes));
        },
        Ast::Constant(text) => {
            let code = compile_node(v)->Ok_0;
            assert(code.subrange(1, code.len() as int) =~= Seq::<Bc>::empty());
            assert(run_height(Seq::<Bc>::empty(), h + 1) == Some(h + 1));
        },
        Ast::Identifier(name) => {
            let code = compile_node(v)->Ok_0;
            assert(code.subrange(1, code.len() as int) =~= Seq::<Bc>::empty());
            assert(run_height(Seq::<Bc>::empty(), h + 1) == Some(h + 1));
        },
        Ast::Expr(left, op, right) => {
            lemma_compile_stack_order(*left, h);
            let left_code = compile_node(*left)->Ok_0;
            match op {
                None => {},
                Some(o) => {
                    let r = right->0;
                    lemma_compile_stack_order(*r, h + 1);
                    let right_code = compile_node(*r)->Ok_0;
                    let op_code = seq![Bc { op: op_code_of(o), args: Seq::empty() }];
                    lemma_run_concat(left_code, right_code + op_code, h);
                    lemma_run_concat(right_code, op_code, h + 1);
                    assert(compile_node(v)->Ok_0 =~= left_code + (right_code + op_code));
                    assert(op_code.subrange(1, op_code.len() as int) =~= Seq::<Bc>::empty());
                    assert(run_height(Seq::<Bc>::empty(), h + 1) == Some(h + 1));
                    assert(step_height(op_code[0], h + 2) == Some(h + 1));
                    assert(run_height(op_code, h + 2) == Some(h + 1));
                },
            }
        },
        _ => {
            assert(compile_node(v)->Ok_0 =~= Seq::<Bc>::empty());
        },
    }
}

proof fn lemma_compile_stack_order_list(nodes: Seq<Ast>, h: int)
    requires
        evaluable_list(nodes),
        h >= 0,
    ensures
        compile_nodes(nodes) is Ok,
        run_height(compile_nodes(nodes)->Ok_0, h) == Some(h + values_produced_list(nodes)),
    decreases nodes, 1int,
{
    if nodes.len() == 0 {
    } else {
        lemma_compile_stack_order_list(nodes.drop_last(), h);
        lemma_values_list_nonneg(nodes.drop_last());
        let front = compile_nodes(nodes.drop_last())->Ok_0;
        let h2 = h + values_produced_list(nodes.drop_last());
        lemma_compile_stack_order(nodes.last(), h2);
        let last_code = compile_node(nodes.last())->Ok_0;
        lemma_run_concat(front, last_code, h);
    }
}

impl AstNode {
    /// Lowers this tree into a stack-machine instruction list. Lowering
    /// an evaluable tree always succeeds.
    pub fn compile(&self) -> (r: Result<Vec<ByteCode>, CompilerError>)
        ensures
            r is Ok <==> compile_node(self@) is Ok,
            r matches Ok(v) ==> Ok::<_, ()>(v.deep_view()) == compile_node(self@),
            evaluable(self@) ==> r is Ok,
        decreases *self,
    {
        proof {
            if evaluable(self@) {
                lemma_compile_stack_order(self@, 0);
            }
        }
        match self {
            AstNode::Program(nodes) => {
                proof {
                    assert(decreases_to!(*self => self->Program_0));
                    assert(decreases_to!(*nodes => nodes@));
                    assert(decreases_to!(*self => nodes@));
                }
                match compile_program(nodes) {
                    Ok(bytecode) => Ok(bytecode),
                    Err(e) => Err(e),
                }
            },
            AstNode::Expr(left, op, right) => {
                let left_bytecode = match left.compile() {
                    Ok(b) => b,
                    Err(e) => {
                        return Err(e);
                    },
                };
                match op {
                    Some(o) => {
                        match right {
                            Some(rr) => {
                                let right_bytecode = match rr.compile() {
                                    Ok(b) => b,
                                    Err(e) => {
                                        return Err(e);
                                    },
                                };
                                let mut bytecode = left_bytecode;
                                let mut right_bytecode = right_bytecode;
                                bytecode.append(&mut right_bytecode);
                                bytecode.push(ByteCode::new(o.to_opcode(), Vec::new()));
                                proof {
                                    assert(bytecode.deep_view() =~~= compile_node(
                                        self@,
                                    )->Ok_0);
                                }
                                Ok(bytecode)
                            },
                            None => Err(
                                CompilerError::CompileError(
                                    String::from_str(
                                        "Failed to compile right side of expression",
                                    ),
                                ),
                            ),
                        }
                    },
                    None => Ok(left_bytecode),
                }
            },
            AstNode::Identifier(name) => {
                let mut args: Vec<String> = Vec::new();
                args.push(name.clone());
                let mut bytecode: Vec<ByteCode> = Vec::new();
                bytecode.push(ByteCode::new(OpCode::LoadName, args));
                proof {
                    assert(bytecode.deep_view() =~~= compile_node(self@)->Ok_0);
                }
                Ok(bytecode)
            },
            AstNode::Constant(text) => {
                let mut args: Vec<String> = Vec::new();
                args.push(text.clone());
                let mut bytecode: Vec<ByteCode> = Vec::new();
                bytecode.push(ByteCode::new(OpCode::Push, args));
                proof {
                    assert(bytecode.deep_view() =~~= compile_node(self@)->Ok_0);
                }
                Ok(bytecode)
            },
            _ => {
                proof {
                    assert(compile_node(self@) == Ok::<Seq<Bc>, ()>(Seq::empty()));
                }
                let empty: Vec<ByteCode> = Vec::new();
                proof {
                    assert(empty.deep_view() =~~= Seq::<Bc>::empty());
                }
                Ok(empty)
            },
        }
    }
}

/// Lowers every statement of a program in order.
#[verifier::loop_isolation(false)]
fn compile_program(nodes: &Vec<AstNode>) -> (r: Result<Vec<ByteCode>, CompilerError>)
    ensures
        r is Ok <==> compile_nodes(view_nodes(nodes@)) is Ok,
        r matches Ok(v) ==> Ok::<_, ()>(v.deep_view()) == compile_nodes(view_nodes(nodes@)),
    decreases nodes@,
{
    let ghost vs = view_nodes(nodes@);
    proof {
        lemma_view_nodes(nodes@);
    }
    let mut bytecode: Vec<ByteCode> = Vec::new();
    let mut i: usize = 0;
    while i < nodes.len()
        invariant
            0 <= i <= nodes.len(),
            compile_nodes(vs.subrange(0, i as int)) is Ok,
            bytecode.deep_view() == compile_nodes(vs.subrange(0, i as int))->Ok_0,
        decreases nodes.len() - i,
    {
        proof {
            assert(decreases_to!(nodes@ => nodes@[i as int]));
            assert(vs.subrange(0, i as int + 1).drop_last() =~= vs.subrange(0, i as int));
            assert(vs.subrange(0, i as int + 1).last() == view_node(nodes@[i as int]));
        }
        match nodes[i].compile() {
            Ok(mut more) => {
                bytecode.append(&mut more);
                proof {
                    assert(bytecode.deep_view() =~~= compile_nodes(
                        vs.subrange(0, i as int + 1),
                    )->Ok_0);
                }
            },
            Err(e) => {
                proof {
                    lemma_compile_nodes_err_prefix(vs, i as int + 1);
                }
                return Err(e);
            },
        }
        i = i + 1;
    }
    proof {
        assert(vs.subrange(0, nodes@.len() as int) =~= vs);
    }
    Ok(bytecode)
}

} // verus!
