//! The abstract syntax tree of the Blue Arch language: binary operators,
//! the closed set of node variants, and the ghost model that contracts
//! throughout the crate are stated over.
use vstd::prelude::*;

verus! {

broadcast use vstd::std_specs::vec::group_vec_axioms;

/// A binary operator, each with a fixed textual symbol and a fixed
/// precedence tier.
#[derive(Debug, Clone, Copy, PartialEq, Eq, Structural)]
pub enum BinaryOp {
    Add,
    Sub,
    Mul,
    Div,
    Mod,
    Eq,
    Neq,
    Gt,
    Gte,
    Lt,
    Lte,
}

/// A node of the abstract syntax tree. Every node exclusively owns its
/// children; there is no sharing and there are no cycles.
#[derive(Debug, PartialEq, Eq)]
pub enum AstNode {
    /// Top-level sequence of statements.
    Program(Vec<AstNode>),
    /// A lexical block of statements.
    Block(Vec<AstNode>),
    /// A literal, carried as its canonical rendered text: the builder
    /// strips an integer's leading zeros and a float's redundant zeros.
    Constant(String),
    /// Either a binary operation (operator and right operand present) or a
    /// degenerate pass-through (both absent, the value is the left operand).
    Expr(Box<AstNode>, Option<BinaryOp>, Option<Box<AstNode>>),
    /// A variable reference.
    Identifier(String),
    /// A declaration: identifier, optional type annotation, value.
    Assign(Box<AstNode>, Option<Box<AstNode>>, Box<AstNode>),
    /// A reassignment: identifier and value, never annotated.
    SetValue(Box<AstNode>, Box<AstNode>),
    /// The value produced by exiting a block.
    ReturnBlock(Box<AstNode>),
    /// Parser-internal marker for comments and end of input; never part of
    /// a finished tree.
    Empty,
    /// Conditional: condition, taken block, elif branches, else branch.
    If(Box<AstNode>, Box<AstNode>, Vec<AstNode>, Option<Box<AstNode>>),
    /// An elif branch: condition and block.
    Elif(Box<AstNode>, Box<AstNode>),
    /// An else branch: block only.
    Else(Box<AstNode>),
}

/// The mathematical model of an [`AstNode`]: the same tree with text as
/// character sequences and child lists as `Seq`.
#[verifier::ext_equal]
pub ghost enum Ast {
    Program(Seq<Ast>),
    Block(Seq<Ast>),
    Constant(Seq<char>),
    Expr(Box<Ast>, Option<BinaryOp>, Option<Box<Ast>>),
    Identifier(Seq<char>),
    Assign(Box<Ast>, Option<Box<Ast>>, Box<Ast>),
    SetValue(Box<Ast>, Box<Ast>),
    ReturnBlock(Box<Ast>),
    Empty,
    If(Box<Ast>, Box<Ast>, Seq<Ast>, Option<Box<Ast>>),
    Elif(Box<Ast>, Box<Ast>),
    Else(Box<Ast>),
}

pub open spec fn view_node(n: AstNode) -> Ast
    decreases n,
{
    match n {
        AstNode::Program(nodes) => Ast::Program(view_nodes(nodes@)),
        AstNode::Block(nodes) => Ast::Block(view_nodes(nodes@)),
        AstNode::Constant(s) => Ast::Constant(s@),
        AstNode::Expr(left, op, right) => Ast::Expr(
            Box::new(view_node(*left)),
            op,
            match right {
                Some(r) => Some(Box::new(view_node(*r))),
                None => None,
            },
        ),
        AstNode::Identifier(s) => Ast::Identifier(s@),
        AstNode::Assign(id, ann, value) => Ast::Assign(
            Box::new(view_node(*id)),
            match ann {
                Some(a) => Some(Box::new(view_node(*a))),
                None => None,
            },
            Box::new(view_node(*value)),
        ),
        AstNode::SetValue(id, value) => Ast::SetValue(
            Box::new(view_node(*id)),
            Box::new(view_node(*value)),
        ),
        AstNode::ReturnBlock(value) => Ast::ReturnBlock(Box::new(view_node(*value))),
        AstNode::Empty => Ast::Empty,
        AstNode::If(cond, block, elifs, els) => Ast::If(
            Box::new(view_node(*cond)),
            Box::new(view_node(*block)),
            view_nodes(elifs@),
            match els {
                Some(e) => Some(Box::new(view_node(*e))),
                None => None,
            },
        ),
        AstNode::Elif(cond, block) => Ast::Elif(
            Box::new(view_node(*cond)),
            Box::new(view_node(*block)),
        ),
        AstNode::Else(block) => Ast::Else(Box::new(view_node(*block))),
    }
}

pub open spec fn view_nodes(s: Seq<AstNode>) -> Seq<Ast>
    decreases s,
{
    if s.len() == 0 {
        Seq::empty()
    } else {
        view_nodes(s.drop_last()).push(view_node(s.last()))
    }
}

impl View for AstNode {
    type V = Ast;

    open spec fn view(&self) -> Ast {
        view_node(*self)
    }
}

/// The view of a node list is the pointwise view of its elements.
pub broadcast proof fn lemma_view_nodes(s: Seq<AstNode>)
    ensures
        (#[trigger] view_nodes(s)).len() == s.len(),
        forall|i: int| 0 <= i < s.len() ==> view_nodes(s)[i] == view_node(s[i]),
    decreases s.len(),
{
    if s.len() > 0 {
        lemma_view_nodes(s.drop_last());
    }
}

/// The textual symbol of each operator.
pub open spec fn op_symbol(op: BinaryOp) -> Seq<char> {
    match op {
        BinaryOp::Add => "+"@,
        BinaryOp::Sub => "-"@,
        BinaryOp::Mul => "*"@,
        BinaryOp::Div => "/"@,
        BinaryOp::Mod => "%"@,
        BinaryOp::Eq => "=="@,
        BinaryOp::Neq => "!="@,
        BinaryOp::Gt => ">"@,
        BinaryOp::Gte => ">="@,
        BinaryOp::Lt => "<"@,
        BinaryOp::Lte => "<="@,
    }
}

/// Canonical textual rendering of a tree, used for diagnostics and
/// round-trip testing.
pub open spec fn code_of(v: Ast) -> Seq<char>
    decreases v,
{
    match v {
        Ast::Program(nodes) => code_of_lines(nodes),
        Ast::Block(nodes) => "{"@ + code_of_lines(nodes) + "}"@,
        Ast::Constant(s) => s,
        Ast::Identifier(s) => s,
        Ast::Expr(left, op, right) => match (op, right) {
            (Some(o), Some(r)) => "("@ + code_of(*left) + " "@ + op_symbol(o) + " "@ + code_of(
                *r,
            ) + ")"@,
            _ => code_of(*left),
        },
        Ast::Assign(id, ann, value) => match ann {
            Some(a) => "let "@ + code_of(*id) + ": "@ + code_of(*a) + " = "@ + code_of(*value)
                + ";"@,
            None => "let "@ + code_of(*id) + " = "@ + code_of(*value) + ";"@,
        },
        Ast::SetValue(id, value) => code_of(*id) + " = "@ + code_of(*value) + ";"@,
        Ast::ReturnBlock(value) => "return "@ + code_of(*value) + ";"@,
        Ast::If(cond, block, elifs, els) => "if "@ + code_of(*cond) + " \n"@ + code_of(*block)
            + "\n"@ + code_of_lines(elifs) + match els {
            Some(e) => code_of(*e) + "\n"@,
            None => Seq::empty(),
        },
        Ast::Elif(cond, block) => "elif "@ + code_of(*cond) + " \n"@ + code_of(*block) + "\n"@,
        Ast::Else(block) => "else \n"@ + code_of(*block) + "\n"@,
        Ast::Empty => Seq::empty(),
    }
}

/// Rendering of a node list: each node's rendering on its own line.
pub open spec fn code_of_lines(nodes: Seq<Ast>) -> Seq<char>
    decreases nodes,
{
    if nodes.len() == 0 {
        Seq::empty()
    } else {
        code_of_lines(nodes.drop_last()) + code_of(nodes.last()) + "\n"@
    }
}

/// Renders each node of a list on its own line.
#[verifier::loop_isolation(false)]
fn render_lines(nodes: &Vec<AstNode>) -> (r: String)
    ensures
        r@ == code_of_lines(view_nodes(nodes@)),
    decreases nodes@,
{
    let mut code = String::new();
    let mut i: usize = 0;
    while i < nodes.len()
        invariant
            0 <= i <= nodes.len(),
            code@ == code_of_lines(view_nodes(nodes@).subrange(0, i as int)),
        decreases nodes.len() - i,
    {
        proof {
            assert(decreases_to!(nodes@ => nodes@[i as int]));
        }
        let line = nodes[i].as_code();
        code.append(line.as_str());
        code.append("\n");
        proof {
            lemma_view_nodes(nodes@);
            let vs = view_nodes(nodes@);
            assert(vs.subrange(0, i as int + 1).drop_last() =~= vs.subrange(0, i as int));
            assert(vs.subrange(0, i as int + 1).last() == view_node(nodes@[i as int]));
            assert(code@ =~= code_of_lines(vs.subrange(0, i as int + 1)));
        }
        i = i + 1;
    }
    proof {
        lemma_view_nodes(nodes@);
        assert(view_nodes(nodes@).subrange(0, nodes@.len() as int) =~= view_nodes(nodes@));
    }
    code
}

impl AstNode {
    /// The canonical code rendering of this node.
    pub fn as_code(&self) -> (r: String)
        ensures
            r@ == code_of(self@),
        decreases *self,
    {
        match self {
            AstNode::Program(nodes) => {
                proof {
                    assert(decreases_to!(*self => self->Program_0));
                    assert(decreases_to!(*nodes => nodes@));
                    assert(decreases_to!(*self => nodes@));
                }
                render_lines(nodes)
            },
            AstNode::Block(nodes) => {
                proof {
                    assert(decreases_to!(*self => self->Block_0));
                    assert(decreases_to!(*nodes => nodes@));
                    assert(decreases_to!(*self => nodes@));
                }
                let mut code = String::from_str("{");
                let lines = render_lines(nodes);
                code.append(lines.as_str());
                code.append("}");
                proof {
                    assert(code@ =~= code_of(self@));
                }
                code
            },
            AstNode::Constant(s) => s.clone(),
            AstNode::Identifier(s) => s.clone(),
            AstNode::Expr(left, Some(op), Some(right)) => {
                let left_string = left.as_code();
                let right_string = right.as_code();
                let mut code = String::from_str("(");
                code.append(left_string.as_str());
                code.append(" ");
                code.append(op.as_raw());
                code.append(" ");
                code.append(right_string.as_str());
                code.append(")");
                proof {
                    assert(code@ =~= code_of(self@));
                }
                code
            },
            AstNode::Expr(left, _, _) => left.as_code(),
            AstNode::Assign(id, ann, value) => {
                let identifier_string = id.as_code();
                let value_string = value.as_code();
                let mut code = String::from_str("let ");
                code.append(identifier_string.as_str());
                match ann {
                    Some(a) => {
                        let annotation_string = a.as_code();
                        code.append(": ");
                        code.append(annotation_string.as_str());
                    },
                    None => {},
                }
                code.append(" = ");
                code.append(value_string.as_str());
                code.append(";");
                proof {
                    assert(code@ =~= code_of(self@));
                }
                code
            },
            AstNode::SetValue(id, value) => {
                let mut code = id.as_code();
                let value_string = value.as_code();
                code.append(" = ");
                code.append(value_string.as_str());
                code.append(";");
                proof {
                    assert(code@ =~= code_of(self@));
                }
                code
            },
            AstNode::ReturnBlock(value) => {
                let value_string = value.as_code();
                let mut code = String::from_str("return ");
                code.append(value_string.as_str());
                code.append(";");
                proof {
                    assert(code@ =~= code_of(self@));
                }
                code
            },
            AstNode::If(cond, block, elifs, els) => {
                proof {
                    assert(decreases_to!(*self => self->If_2));
                    assert(decreases_to!(*elifs => elifs@));
                    assert(decreases_to!(*self => elifs@));
                }
                let mut code = String::from_str("if ");
                let cond_string = cond.as_code();
                let block_string = block.as_code();
                code.append(cond_string.as_str());
                code.append(" \n");
                code.append(block_string.as_str());
                code.append("\n");
                let elif_lines = render_lines(elifs);
                code.append(elif_lines.as_str());
                match els {
                    Some(e) => {
                        let else_string = e.as_code();
                        code.append(else_string.as_str());
                        code.append("\n");
                    },
                    None => {},
                }
                proof {
                    assert(code@ =~= code_of(self@));
                }
                code
            },
            AstNode::Elif(cond, block) => {
                let mut code = String::from_str("elif ");
                let cond_string = cond.as_code();
                let block_string = block.as_code();
                code.append(cond_string.as_str());
                code.append(" \n");
                code.append(block_string.as_str());
                code.append("\n");
                proof {
                    assert(code@ =~= code_of(self@));
                }
                code
            },
            AstNode::Else(block) => {
                let mut code = String::from_str("else \n");
                let block_string = block.as_code();
                code.append(block_string.as_str());
                code.append("\n");
                proof {
                    assert(code@ =~= code_of(self@));
                }
                code
            },
            AstNode::Empty => String::new(),
        }
    }

    /// A structurally equal copy of this node.
    #[verifier::loop_isolation(false)]
    pub fn deep_copy(&self) -> (r: AstNode)
        ensures
            r@ == self@,
        decreases *self,
    {
        match self {
            AstNode::Program(nodes) => {
                proof {
                    assert(decreases_to!(*self => self->Program_0));
                    assert(decreases_to!(*nodes => nodes@));
                    assert(decreases_to!(*self => nodes@));
                }
                let copies = copy_nodes(nodes);
                proof {
                    assert(view_node(AstNode::Program(copies)) =~= self@);
                }
                AstNode::Program(copies)
            },
            AstNode::Block(nodes) => {
                proof {
                    assert(decreases_to!(*self => self->Block_0));
                    assert(decreases_to!(*nodes => nodes@));
                    assert(decreases_to!(*self => nodes@));
                }
                let copies = copy_nodes(nodes);
                proof {
                    assert(view_node(AstNode::Block(copies)) =~= self@);
                }
                AstNode::Block(copies)
            },
            AstNode::Constant(s) => AstNode::Constant(s.clone()),
            AstNode::Identifier(s) => AstNode::Identifier(s.clone()),
            AstNode::Expr(left, op, right) => AstNode::Expr(
                Box::new(left.deep_copy()),
                *op,
                match right {
                    Some(r) => Some(Box::new(r.deep_copy())),
                    None => None,
                },
            ),
            AstNode::Assign(id, ann, value) => AstNode::Assign(
                Box::new(id.deep_copy()),
                match ann {
                    Some(a) => Some(Box::new(a.deep_copy())),
                    None => None,
                },
                Box::new(value.deep_copy()),
            ),
            AstNode::SetValue(id, value) => AstNode::SetValue(
                Box::new(id.deep_copy()),
                Box::new(value.deep_copy()),
            ),
            AstNode::ReturnBlock(value) => AstNode::ReturnBlock(Box::new(value.deep_copy())),
            AstNode::Empty => AstNode::Empty,
            AstNode::If(cond, block, elifs, els) => {
                proof {
                    assert(decreases_to!(*self => self->If_2));
                    assert(decreases_to!(*elifs => elifs@));
                    assert(decreases_to!(*self => elifs@));
                }
                let elif_copies = copy_nodes(elifs);
                let r = AstNode::If(
                    Box::new(cond.deep_copy()),
                    Box::new(block.deep_copy()),
                    elif_copies,
                    match els {
                        Some(e) => Some(Box::new(e.deep_copy())),
                        None => None,
                    },
                );
                proof {
                    assert(r@ =~= self@);
                }
                r
            },
            AstNode::Elif(cond, block) => AstNode::Elif(
                Box::new(cond.deep_copy()),
                Box::new(block.deep_copy()),
            ),
            AstNode::Else(block) => AstNode::Else(Box::new(block.deep_copy())),
        }
    }
}

/// Copies every node of a list.
#[verifier::loop_isolation(false)]
fn copy_nodes(nodes: &Vec<AstNode>) -> (r: Vec<AstNode>)
    ensures
        view_nodes(r@) == view_nodes(nodes@),
    decreases nodes@,
{
    let mut copies: Vec<AstNode> = Vec::new();
    let mut i: usize = 0;
    while i < nodes.len()
        invariant
            0 <= i <= nodes.len(),
            copies@.len() == i,
            forall|k: int| 0 <= k < i ==> view_node(copies@[k]) == view_node(nodes@[k]),
        decreases nodes.len() - i,
    {
        proof {
            assert(decreases_to!(nodes@ => nodes@[i as int]));
        }
        let c = nodes[i].deep_copy();
        copies.push(c);
        i = i + 1;
    }
    proof {
        lemma_view_nodes(copies@);
        lemma_view_nodes(nodes@);
        assert(view_nodes(copies@) =~= view_nodes(nodes@));
    }
    copies
}

/// Wraps a value as a degenerate expression unless it already is an
/// expression node, so that downstream code can assume a single shape for
/// a value slot.
pub open spec fn wrap_expr(v: Ast) -> Ast {
    if v is Expr {
        v
    } else {
        Ast::Expr(Box::new(v), None, None)
    }
}

/// The canonicalization pass: a structure-preserving rewrite that wraps
/// every `Assign` value and every `If`/`Elif` condition as an expression
/// node and recurses into the rewritten variants.
pub open spec fn norm(v: Ast) -> Ast
    decreases v,
{
    match v {
        Ast::Assign(id, ann, value) => Ast::Assign(
            Box::new(norm(*id)),
            match ann {
                Some(a) => Some(Box::new(norm(*a))),
                None => None,
            },
            Box::new(wrap_expr(norm(*value))),
        ),
        Ast::Block(nodes) => Ast::Block(norm_seq(nodes)),
        Ast::ReturnBlock(value) => Ast::ReturnBlock(Box::new(norm(*value))),
        Ast::SetValue(id, value) => Ast::SetValue(Box::new(norm(*id)), Box::new(norm(*value))),
        Ast::Expr(left, op, right) => Ast::Expr(
            Box::new(norm(*left)),
            op,
            match right {
                Some(r) => Some(Box::new(norm(*r))),
                None => None,
            },
        ),
        Ast::If(cond, block, elifs, els) => Ast::If(
            Box::new(wrap_expr(norm(*cond))),
            Box::new(norm(*block)),
            norm_seq(elifs),
            match els {
                Some(e) => Some(Box::new(norm(*e))),
                None => None,
            },
        ),
        Ast::Elif(cond, block) => Ast::Elif(
            Box::new(wrap_expr(norm(*cond))),
            Box::new(norm(*block)),
        ),
        _ => v,
    }
}

pub open spec fn norm_seq(s: Seq<Ast>) -> Seq<Ast>
    decreases s,
{
    if s.len() == 0 {
        Seq::empty()
    } else {
        norm_seq(s.drop_last()).push(norm(s.last()))
    }
}

/// Pointwise characterization of [`norm_seq`].
pub broadcast proof fn lemma_norm_seq(s: Seq<Ast>)
    ensures
        (#[trigger] norm_seq(s)).len() == s.len(),
        forall|i: int| 0 <= i < s.len() ==> norm_seq(s)[i] == norm(s[i]),
    decreases s.len(),
{
    if s.len() > 0 {
        lemma_norm_seq(s.drop_last());
    }
}

/// A tree is canonical when, in every subtree, the value of an `Assign`
/// and the condition of an `If` or `Elif` are expression nodes.
pub open spec fn canonical(v: Ast) -> bool
    decreases v,
{
    match v {
        Ast::Program(nodes) => canonical_seq(nodes),
        Ast::Block(nodes) => canonical_seq(nodes),
        Ast::Constant(_) => true,
        Ast::Identifier(_) => true,
        Ast::Empty => true,
        Ast::Expr(left, _, right) => canonical(*left) && match right {
            Some(r) => canonical(*r),
            None => true,
        },
        Ast::Assign(id, ann, value) => canonical(*id) && (match ann {
            Some(a) => canonical(*a),
            None => true,
        }) && *value is Expr && canonical(*value),
        Ast::SetValue(id, value) => canonical(*id) && canonical(*value),
        Ast::ReturnBlock(value) => canonical(*value),
        Ast::If(cond, block, elifs, els) => *cond is Expr && canonical(*cond) && canonical(*block)
            && canonical_seq(elifs) && match els {
            Some(e) => canonical(*e),
            None => true,
        },
        Ast::Elif(cond, block) => *cond is Expr && canonical(*cond) && canonical(*block),
        Ast::Else(block) => canonical(*block),
    }
}

pub open spec fn canonical_seq(s: Seq<Ast>) -> bool
    decreases s,
{
    if s.len() == 0 {
        true
    } else {
        canonical_seq(s.drop_last()) && canonical(s.last())
    }
}

/// Pointwise characterization of [`canonical_seq`].
pub broadcast proof fn lemma_canonical_seq(s: Seq<Ast>)
    ensures
        #[trigger] canonical_seq(s) <==> (forall|i: int| 0 <= i < s.len() ==> canonical(s[i])),
    decreases s.len(),
{
    if s.len() > 0 {
        lemma_canonical_seq(s.drop_last());
        if canonical_seq(s) {
            assert forall|i: int| 0 <= i < s.len() implies canonical(s[i]) by {
                if i < s.len() - 1 {
                    assert(s.drop_last()[i] == s[i]);
                } else {
                    assert(s[i] == s.last());
                }
            }
        }
        if forall|i: int| 0 <= i < s.len() ==> canonical(s[i]) {
            assert forall|i: int| 0 <= i < s.drop_last().len() implies canonical(
                s.drop_last()[i],
            ) by {
                assert(s.drop_last()[i] == s[i]);
            }
            assert(canonical(s[s.len() - 1]));
        }
    }
}

/// Wrapping preserves canonicity and always yields an expression node.
pub proof fn lemma_wrap_canonical(v: Ast)
    requires
        canonical(v),
    ensures
        canonical(wrap_expr(v)),
        wrap_expr(v) is Expr,
{
}

/// Normalization is the identity on canonical trees.
pub proof fn lemma_norm_canonical_noop(v: Ast)
    requires
        canonical(v),
    ensures
        norm(v) == v,
    decreases v,
{
    match v {
        Ast::Program(nodes) => {},
        Ast::Block(nodes) => {
            lemma_norm_seq_canonical_noop(nodes);
            assert(norm(v) =~= v);
        },
        Ast::Expr(left, op, right) => {
            lemma_norm_canonical_noop(*left);
            match right {
                Some(r) => lemma_norm_canonical_noop(*r),
                None => {},
            }
            assert(norm(v) =~= v);
        },
        Ast::Assign(id, ann, value) => {
            lemma_norm_canonical_noop(*id);
            match ann {
                Some(a) => lemma_norm_canonical_noop(*a),
                None => {},
            }
            lemma_norm_canonical_noop(*value);
            assert(norm(v) =~= v);
        },
        Ast::SetValue(id, value) => {
            lemma_norm_canonical_noop(*id);
            lemma_norm_canonical_noop(*value);
            assert(norm(v) =~= v);
        },
        Ast::ReturnBlock(value) => {
            lemma_norm_canonical_noop(*value);
            assert(norm(v) =~= v);
        },
        Ast::If(cond, block, elifs, els) => {
            lemma_norm_canonical_noop(*cond);
            lemma_norm_canonical_noop(*block);
            lemma_norm_seq_canonical_noop(elifs);
            match els {
                Some(e) => lemma_norm_canonical_noop(*e),
                None => {},
            }
            assert(norm(v) =~= v);
        },
        Ast::Elif(cond, block) => {
            lemma_norm_canonical_noop(*cond);
            lemma_norm_canonical_noop(*block);
            assert(norm(v) =~= v);
        },
        Ast::Else(block) => {},
        _ => {},
    }
}

pub proof fn lemma_norm_seq_canonical_noop(s: Seq<Ast>)
    requires
        canonical_seq(s),
    ensures
        norm_seq(s) == s,
    decreases s,
{
    if s.len() > 0 {
        lemma_norm_seq_canonical_noop(s.drop_last());
        lemma_norm_canonical_noop(s.last());
        assert(norm_seq(s) =~= s);
    }
}

/// Normalizing a node whose children are already canonical yields a
/// canonical tree: this is how the builders establish the degenerate-wrap
/// invariant, normalizing each node bottom-up as it is built.
pub proof fn lemma_norm_canonical(v: Ast)
    requires
        children_canonical(v),
    ensures
        canonical(norm(v)),
{
    match v {
        Ast::Assign(id, ann, value) => {
            lemma_norm_canonical_noop(*id);
            match ann {
                Some(a) => lemma_norm_canonical_noop(*a),
                None => {},
            }
            lemma_norm_canonical_noop(*value);
            lemma_wrap_canonical(*value);
        },
        Ast::Block(nodes) => {
            lemma_norm_seq_canonical_noop(nodes);
        },
        Ast::ReturnBlock(value) => {
            lemma_norm_canonical_noop(*value);
        },
        Ast::SetValue(id, value) => {
            lemma_norm_canonical_noop(*id);
            lemma_norm_canonical_noop(*value);
        },
        Ast::Expr(left, op, right) => {
            lemma_norm_canonical_noop(*left);
            match right {
                Some(r) => lemma_norm_canonical_noop(*r),
                None => {},
            }
        },
        Ast::If(cond, block, elifs, els) => {
            lemma_norm_canonical_noop(*cond);
            lemma_norm_canonical_noop(*block);
            lemma_norm_seq_canonical_noop(elifs);
            match els {
                Some(e) => lemma_norm_canonical_noop(*e),
                None => {},
            }
            lemma_wrap_canonical(*cond);
        },
        Ast::Elif(cond, block) => {
            lemma_norm_canonical_noop(*cond);
            lemma_norm_canonical_noop(*block);
            lemma_wrap_canonical(*cond);
        },
        _ => {},
    }
}

/// Every immediate child of the node is canonical.
pub open spec fn children_canonical(v: Ast) -> bool {
    match v {
        Ast::Program(nodes) => canonical_seq(nodes),
        Ast::Block(nodes) => canonical_seq(nodes),
        Ast::Constant(_) => true,
        Ast::Identifier(_) => true,
        Ast::Empty => true,
        Ast::Expr(left, _, right) => canonical(*left) && match right {
            Some(r) => canonical(*r),
            None => true,
        },
        Ast::Assign(id, ann, value) => canonical(*id) && (match ann {
            Some(a) => canonical(*a),
            None => true,
        }) && canonical(*value),
        Ast::SetValue(id, value) => canonical(*id) && canonical(*value),
        Ast::ReturnBlock(value) => canonical(*value),
        Ast::If(cond, block, elifs, els) => canonical(*cond) && canonical(*block) && canonical_seq(
            elifs,
        ) && match els {
            Some(e) => canonical(*e),
            None => true,
        },
        Ast::Elif(cond, block) => canonical(*cond) && canonical(*block),
        Ast::Else(block) => canonical(*block),
    }
}

/// After normalization, the value of an assignment and the condition of a
/// conditional are always expression nodes, never bare constants or
/// identifiers.
pub proof fn lemma_norm_wraps_slots(v: Ast)
    ensures
        norm(v) matches Ast::Assign(id, ann, value) ==> *value is Expr,
        norm(v) matches Ast::If(cond, block, elifs, els) ==> *cond is Expr,
        norm(v) matches Ast::Elif(cond, block) ==> *cond is Expr,
{
    match v {
        Ast::Assign(id, ann, value) => {
            assert(wrap_expr(norm(*value)) is Expr);
        },
        Ast::If(cond, block, elifs, els) => {
            assert(wrap_expr(norm(*cond)) is Expr);
        },
        Ast::Elif(cond, block) => {
            assert(wrap_expr(norm(*cond)) is Expr);
        },
        _ => {},
    }
}

/// Normalization is idempotent: re-applying it to an already-normalized
/// tree is a no-op.
pub proof fn lemma_norm_idempotent(t: Ast)
    ensures
        norm(norm(t)) == norm(t),
    decreases t,
{
    match t {
        Ast::Assign(id, ann, value) => {
            lemma_norm_idempotent(*id);
            match ann {
                Some(a) => lemma_norm_idempotent(*a),
                None => {},
            }
            lemma_norm_idempotent(*value);
            assert(norm(wrap_expr(norm(*value))) == wrap_expr(norm(*value)));
            assert(norm(norm(t)) =~= norm(t));
        },
        Ast::Block(nodes) => {
            lemma_norm_seq_idempotent(nodes);
            assert(norm(norm(t)) =~= norm(t));
        },
        Ast::ReturnBlock(value) => {
            lemma_norm_idempotent(*value);
            assert(norm(norm(t)) =~= norm(t));
        },
        Ast::SetValue(id, value) => {
            lemma_norm_idempotent(*id);
            lemma_norm_idempotent(*value);
            assert(norm(norm(t)) =~= norm(t));
        },
        Ast::Expr(left, op, right) => {
            lemma_norm_idempotent(*left);
            match right {
                Some(r) => lemma_norm_idempotent(*r),
                None => {},
            }
            assert(norm(norm(t)) =~= norm(t));
        },
        Ast::If(cond, block, elifs, els) => {
            lemma_norm_idempotent(*cond);
            lemma_norm_idempotent(*block);
            lemma_norm_seq_idempotent(elifs);
            match els {
                Some(e) => lemma_norm_idempotent(*e),
                None => {},
            }
            assert(norm(wrap_expr(norm(*cond))) == wrap_expr(norm(*cond)));
            assert(norm(norm(t)) =~= norm(t));
        },
        Ast::Elif(cond, block) => {
            lemma_norm_idempotent(*cond);
            lemma_norm_idempotent(*block);
            assert(norm(wrap_expr(norm(*cond))) == wrap_expr(norm(*cond)));
            assert(norm(norm(t)) =~= norm(t));
        },
        _ => {},
    }
}

pub proof fn lemma_norm_seq_idempotent(s: Seq<Ast>)
    ensures
        norm_seq(norm_seq(s)) == norm_seq(s),
    decreases s,
{
    if s.len() > 0 {
        lemma_norm_seq_idempotent(s.drop_last());
        lemma_norm_idempotent(s.last());
        assert(norm_seq(s).drop_last() =~= norm_seq(s.drop_last()));
        assert(norm_seq(norm_seq(s)) =~= norm_seq(s));
    }
}

/// Wraps a node as a degenerate expression unless it already is one.
fn wrap_as_expr(node: AstNode) -> (r: AstNode)
    ensures
        r@ == wrap_expr(node@),
{
    match node {
        AstNode::Expr(_, _, _) => node,
        _ => AstNode::Expr(Box::new(node), None, None),
    }
}

/// Normalizes every node of a list.
#[verifier::loop_isolation(false)]
fn format_nodes(nodes: &Vec<AstNode>) -> (r: Vec<AstNode>)
    ensures
        view_nodes(r@) == norm_seq(view_nodes(nodes@)),
    decreases nodes@,
{
    let mut formatted: Vec<AstNode> = Vec::new();
    let mut i: usize = 0;
    while i < nodes.len()
        invariant
            0 <= i <= nodes.len(),
            formatted@.len() == i,
            forall|k: int| 0 <= k < i ==> view_node(formatted@[k]) == norm(
                view_node(nodes@[k]),
            ),
        decreases nodes.len() - i,
    {
        proof {
            assert(decreases_to!(nodes@ => nodes@[i as int]));
        }
        let f = nodes[i].format_ast();
        formatted.push(f);
        i = i + 1;
    }
    proof {
        lemma_view_nodes(formatted@);
        lemma_view_nodes(nodes@);
        lemma_norm_seq(view_nodes(nodes@));
        assert(view_nodes(formatted@) =~= norm_seq(view_nodes(nodes@)));
    }
    formatted
}

impl AstNode {
    /// Normalizes this tree, enforcing the canonical shape of every value
    /// and condition slot.
    pub fn format_ast(&self) -> (r: AstNode)
        ensures
            r@ == norm(self@),
        decreases *self,
    {
        match self {
            AstNode::Assign(id, ann, value) => {
                let id_formatted = id.format_ast();
                let ann_formatted = match ann {
                    Some(a) => Some(Box::new(a.format_ast())),
                    None => None,
                };
                let value_formatted = value.format_ast();
                let r = AstNode::Assign(
                    Box::new(id_formatted),
                    ann_formatted,
                    Box::new(wrap_as_expr(value_formatted)),
                );
                proof {
                    assert(r@ =~= norm(self@));
                }
                r
            },
            AstNode::Block(nodes) => {
                proof {
                    assert(decreases_to!(*self => self->Block_0));
                    assert(decreases_to!(*nodes => nodes@));
                    assert(decreases_to!(*self => nodes@));
                }
                let r = AstNode::Block(format_nodes(nodes));
                proof {
                    assert(r@ =~= norm(self@));
                }
                r
            },
            AstNode::ReturnBlock(value) => {
                let r = AstNode::ReturnBlock(Box::new(value.format_ast()));
                proof {
                    assert(r@ =~= norm(self@));
                }
                r
            },
            AstNode::SetValue(id, value) => {
                let r = AstNode::SetValue(
                    Box::new(id.format_ast()),
                    Box::new(value.format_ast()),
                );
                proof {
                    assert(r@ =~= norm(self@));
                }
                r
            },
            AstNode::Expr(left, op, right) => {
                let r = AstNode::Expr(
                    Box::new(left.format_ast()),
                    *op,
                    match right {
                        Some(rr) => Some(Box::new(rr.format_ast())),
                        None => None,
                    },
                );
                proof {
                    assert(r@ =~= norm(self@));
                }
                r
            },
            AstNode::If(cond, block, elifs, els) => {
                proof {
                    assert(decreases_to!(*self => self->If_2));
                    assert(decreases_to!(*elifs => elifs@));
                    assert(decreases_to!(*self => elifs@));
                }
                let cond_formatted = cond.format_ast();
                let r = AstNode::If(
                    Box::new(wrap_as_expr(cond_formatted)),
                    Box::new(block.format_ast()),
                    format_nodes(elifs),
                    match els {
                        Some(e) => Some(Box::new(e.format_ast())),
                        None => None,
                    },
                );
                proof {
                    assert(r@ =~= norm(self@));
                }
                r
            },
            AstNode::Elif(cond, block) => {
                let cond_formatted = cond.format_ast();
                let r = AstNode::Elif(
                    Box::new(wrap_as_expr(cond_formatted)),
                    Box::new(block.format_ast()),
                );
                proof {
                    assert(r@ =~= norm(self@));
                }
                r
            },
            _ => self.deep_copy(),
        }
    }
}

impl BinaryOp {
    /// The raw source-text symbol of this operator.
    pub fn as_raw(&self) -> (r: &str)
        ensures
            r@ == op_symbol(*self),
    {
        match self {
            BinaryOp::Add => "+",
            BinaryOp::Sub => "-",
            BinaryOp::Mul => "*",
            BinaryOp::Div => "/",
            BinaryOp::Mod => "%",
            BinaryOp::Eq => "==",
            BinaryOp::Neq => "!=",
            BinaryOp::Gt => ">",
            BinaryOp::Gte => ">=",
            BinaryOp::Lt => "<",
            BinaryOp::Lte => "<=",
        }
    }
}

} // verus!
