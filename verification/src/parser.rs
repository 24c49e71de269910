//! The expression and statement builders: they turn rule-tagged parse
//! trees into precedence-correct, normalized AST nodes. Expressions are
//! resolved against a fixed table of left-associative precedence tiers;
//! statements are classified by their rule tag and built recursively.
use vstd::prelude::*;

use crate::ast::Ast;
use crate::ast::AstNode;
use crate::ast::BinaryOp;
use crate::ast::canonical;
use crate::ast::canonical_seq;
use crate::ast::lemma_canonical_seq;
use crate::ast::lemma_norm_canonical;
use crate::ast::lemma_view_nodes;
use crate::ast::norm;
use crate::ast::view_node;
use crate::ast::view_nodes;
use crate::compiler::evaluable;
use crate::compiler::values_produced;
use crate::errors::ParseErrKind;
use crate::errors::ParserError;
use crate::parse_tree::ParseTree;
use crate::parse_tree::PTree;
use crate::parse_tree::Rule;
use crate::parse_tree::lemma_view_trees;
use crate::parse_tree::view_tree;
use crate::parse_tree::view_trees;

verus! {

broadcast use vstd::std_specs::vec::group_vec_axioms;

/// The canonical text of an integer literal: leading zeros are removed,
/// a lone zero is kept.
pub open spec fn canon_int_text(s: Seq<char>) -> Seq<char>
    decreases s.len(),
{
    if s.len() > 1 && s[0] == '0' {
        canon_int_text(s.drop_first())
    } else {
        s
    }
}

/// Whether the text contains a decimal point.
pub open spec fn has_dot(s: Seq<char>) -> bool {
    exists|k: int| 0 <= k < s.len() && s[k] == '.'
}

/// Leading zeros of a float literal removed, keeping the digit that abuts
/// the decimal point.
pub open spec fn trim_whole(s: Seq<char>) -> Seq<char>
    decreases s.len(),
{
    if s.len() > 1 && s[0] == '0' && s[1] != '.' {
        trim_whole(s.drop_first())
    } else {
        s
    }
}

/// Trailing zeros of a float literal removed, keeping the digit that
/// abuts the decimal point.
pub open spec fn trim_frac(s: Seq<char>) -> Seq<char>
    decreases s.len(),
{
    if s.len() > 1 && s.last() == '0' && s[s.len() - 2] != '.' {
        trim_frac(s.drop_last())
    } else {
        s
    }
}

/// The canonical text of a float literal: redundant zeros on both sides
/// of the decimal point are removed. A trailing zero right after the
/// point is kept (`1.0` stays `1.0`), the one deliberate divergence from
/// rendering the parsed numeric value, which would need float formatting.
/// Text without a decimal point is treated as an integer literal.
pub open spec fn canon_float_text(s: Seq<char>) -> Seq<char> {
    if has_dot(s) {
        trim_frac(trim_whole(s))
    } else {
        canon_int_text(s)
    }
}

/// The operator an infix rule tag denotes, if any.
pub open spec fn op_of_rule(r: Rule) -> Option<BinaryOp> {
    match r {
        Rule::Add => Some(BinaryOp::Add),
        Rule::Subtract => Some(BinaryOp::Sub),
        Rule::Multiply => Some(BinaryOp::Mul),
        Rule::Divide => Some(BinaryOp::Div),
        Rule::Modulo => Some(BinaryOp::Mod),
        Rule::Equals => Some(BinaryOp::Eq),
        Rule::NotEquals => Some(BinaryOp::Neq),
        Rule::GreaterThan => Some(BinaryOp::Gt),
        Rule::GreaterThanOrEqualTo => Some(BinaryOp::Gte),
        Rule::LessThan => Some(BinaryOp::Lt),
        Rule::LessThanOrEqualTo => Some(BinaryOp::Lte),
        _ => None,
    }
}

/// The precedence tier of an operator, higher binding tighter; operators
/// of one tier combine left-to-right.
pub open spec fn tier_of(op: BinaryOp) -> int {
    match op {
        BinaryOp::Eq => 1,
        BinaryOp::Neq => 1,
        BinaryOp::Gt => 1,
        BinaryOp::Gte => 1,
        BinaryOp::Lt => 1,
        BinaryOp::Lte => 1,
        BinaryOp::Add => 2,
        BinaryOp::Sub => 2,
        BinaryOp::Mul => 3,
        BinaryOp::Div => 3,
        BinaryOp::Mod => 4,
    }
}

/// The operand list and operator list of a flat expression node: the
/// children must alternate between primaries and infix operators, and
/// every primary must build. `None` otherwise.
pub open spec fn build_operands(s: Seq<PTree>) -> Option<(Seq<Ast>, Seq<BinaryOp>)>
    decreases s, 3int,
{
    if s.len() == 0 {
        None
    } else if s.len() == 1 {
        match build_pair(s[0]) {
            Ok(a) => Some((seq![a], Seq::empty())),
            Err(_) => None,
        }
    } else {
        match build_pair(s[0]) {
            Err(_) => None,
            Ok(a) => match op_of_rule(s[1].rule) {
                None => None,
                Some(op) => match build_operands(s.subrange(2, s.len() as int)) {
                    None => None,
                    Some(rest) => Some((seq![a] + rest.0, seq![op] + rest.1)),
                },
            },
        }
    }
}

/// One left-to-right pass that folds every adjacent pair joined by an
/// operator of the given tier into a binary expression node.
pub open spec fn collapse_tier(asts: Seq<Ast>, ops: Seq<BinaryOp>, t: int) -> (Seq<Ast>, Seq<
    BinaryOp,
>)
    decreases ops.len(),
{
    if ops.len() == 0 || asts.len() < 2 {
        (asts, ops)
    } else if tier_of(ops[0]) == t {
        collapse_tier(
            seq![Ast::Expr(Box::new(asts[0]), Some(ops[0]), Some(Box::new(asts[1])))] + asts
                .subrange(2, asts.len() as int),
            ops.drop_first(),
            t,
        )
    } else {
        let rest = collapse_tier(asts.drop_first(), ops.drop_first(), t);
        (seq![asts[0]] + rest.0, seq![ops[0]] + rest.1)
    }
}

/// Folds an operand/operator alternation into a single tree, binding the
/// highest tier first and combining operators of one tier left-to-right.
pub open spec fn fold_expr(asts: Seq<Ast>, ops: Seq<BinaryOp>) -> Ast {
    let r4 = collapse_tier(asts, ops, 4);
    let r3 = collapse_tier(r4.0, r4.1, 3);
    let r2 = collapse_tier(r3.0, r3.1, 2);
    let r1 = collapse_tier(r2.0, r2.1, 1);
    r1.0[0]
}

/// What the expression builder yields for a flat expression node, after
/// normalization; `None` when a primary operand cannot be classified or
/// the children do not alternate.
pub open spec fn build_expr_pair(t: PTree) -> Option<Ast>
    decreases t, 0int,
{
    match build_operands(t.children) {
        None => None,
        Some(parts) => Some(norm(fold_expr(parts.0, parts.1))),
    }
}

/// What the builder yields for one parse-tree node: the built AST node,
/// normalized, or the kind of error raised.
pub open spec fn build_pair(t: PTree) -> Result<Ast, ParseErrKind>
    decreases t, 2int,
{
    match build_pair_raw(t) {
        Ok(v) => Ok(norm(v)),
        Err(e) => Err(e),
    }
}

/// The raw build of one parse-tree node, before the normalization that
/// [`build_pair`] applies on top.
pub open spec fn build_pair_raw(t: PTree) -> Result<Ast, ParseErrKind>
    decreases t, 1int,
{
    match t.rule {
        Rule::Expr => match build_expr_pair(t) {
            Some(v) => Ok(v),
            None => Err(ParseErrKind::Syntax),
        },
        Rule::Int => Ok(Ast::Constant(canon_int_text(t.text))),
        Rule::Float => Ok(Ast::Constant(canon_float_text(t.text))),
        Rule::StringLit => Ok(Ast::Constant(t.text)),
        Rule::Boolean => Ok(Ast::Constant(t.text)),
        Rule::Ident => Ok(Ast::Identifier(t.text)),
        Rule::AssignStatement => if t.children.len() == 2 {
            match build_pair(t.children[0]) {
                Err(e) => Err(e),
                Ok(id) => match build_pair(t.children[1]) {
                    Err(e) => Err(e),
                    Ok(value) => Ok(Ast::Assign(Box::new(id), None, Box::new(value))),
                },
            }
        } else if t.children.len() == 3 {
            match build_pair(t.children[0]) {
                Err(e) => Err(e),
                Ok(id) => match build_pair(t.children[1]) {
                    Err(e) => Err(e),
                    Ok(ann) => match build_pair(t.children[2]) {
                        Err(e) => Err(e),
                        Ok(value) => Ok(
                            Ast::Assign(Box::new(id), Some(Box::new(ann)), Box::new(value)),
                        ),
                    },
                },
            }
        } else {
            Err(ParseErrKind::Unknown)
        },
        Rule::SetValueStatement => if t.children.len() == 2 {
            match build_pair(t.children[0]) {
                Err(e) => Err(e),
                Ok(id) => match build_pair(t.children[1]) {
                    Err(e) => Err(e),
                    Ok(value) => Ok(Ast::SetValue(Box::new(id), Box::new(value))),
                },
            }
        } else {
            Err(ParseErrKind::Unknown)
        },
        Rule::ReturnBlockStatement => if t.children.len() == 1 {
            match build_pair(t.children[0]) {
                Err(e) => Err(e),
                Ok(value) => Ok(Ast::ReturnBlock(Box::new(value))),
            }
        } else {
            Err(ParseErrKind::Unknown)
        },
        Rule::IfStatement => if t.children.len() >= 2 {
            match build_pair(t.children[0]) {
                Err(e) => Err(e),
                Ok(cond) => match build_pair(t.children[1]) {
                    Err(e) => Err(e),
                    Ok(block) => match build_if_rest(
                        t.children.subrange(2, t.children.len() as int),
                    ) {
                        Err(e) => Err(e),
                        Ok(rest) => Ok(
                            Ast::If(
                                Box::new(cond),
                                Box::new(block),
                                rest.0,
                                match rest.1 {
                                    Some(e) => Some(Box::new(e)),
                                    None => None,
                                },
                            ),
                        ),
                    },
                },
            }
        } else {
            Err(ParseErrKind::Unknown)
        },
        Rule::ElifStatement => if t.children.len() == 2 {
            match build_pair(t.children[0]) {
                Err(e) => Err(e),
                Ok(cond) => match build_pair(t.children[1]) {
                    Err(e) => Err(e),
                    Ok(block) => Ok(Ast::Elif(Box::new(cond), Box::new(block))),
                },
            }
        } else {
            Err(ParseErrKind::Unknown)
        },
        Rule::ElseStatement => if t.children.len() == 1 {
            match build_pair(t.children[0]) {
                Err(e) => Err(e),
                Ok(block) => Ok(Ast::Else(Box::new(block))),
            }
        } else {
            Err(ParseErrKind::Unknown)
        },
        Rule::Block => match build_pairs(t.children) {
            Err(e) => Err(e),
            Ok(nodes) => Ok(Ast::Block(nodes)),
        },
        Rule::Statement => if t.children.len() >= 1 {
            build_pair(t.children[0])
        } else {
            Err(ParseErrKind::Unknown)
        },
        Rule::Constant => if t.children.len() >= 1 {
            build_pair(t.children[0])
        } else {
            Err(ParseErrKind::Unknown)
        },
        Rule::Eoi => Ok(Ast::Empty),
        Rule::Comment => Ok(Ast::Empty),
        _ => Err(ParseErrKind::Unknown),
    }
}

/// Classification of the trailing children of a conditional: elif nodes
/// accumulate in order, an else node becomes the else branch, anything
/// else is an error. The first error wins.
pub open spec fn build_if_rest(s: Seq<PTree>) -> Result<(Seq<Ast>, Option<Ast>), ParseErrKind>
    decreases s, 3int,
{
    if s.len() == 0 {
        Ok((Seq::empty(), None))
    } else {
        match build_if_rest(s.drop_last()) {
            Err(e) => Err(e),
            Ok(front) => match build_pair(s.last()) {
                Err(e) => Err(e),
                Ok(node) => if node is Elif {
                    Ok((front.0.push(node), front.1))
                } else if node is Else {
                    Ok((front.0, Some(node)))
                } else {
                    Err(ParseErrKind::Unknown)
                },
            },
        }
    }
}

/// What the builder yields for a node list: each node built in order,
/// empty markers filtered out, aborted at the first error.
pub open spec fn build_pairs(s: Seq<PTree>) -> Result<Seq<Ast>, ParseErrKind>
    decreases s, 3int,
{
    if s.len() == 0 {
        Ok(Seq::empty())
    } else {
        match build_pairs(s.drop_last()) {
            Err(e) => Err(e),
            Ok(nodes) => match build_pair(s.last()) {
                Err(e) => Err(e),
                Ok(node) => if node is Empty {
                    Ok(nodes)
                } else {
                    Ok(nodes.push(node))
                },
            },
        }
    }
}

/// A literal rule tag.
pub open spec fn is_literal_rule(r: Rule) -> bool {
    r == Rule::Int || r == Rule::Float || r == Rule::StringLit || r == Rule::Boolean
}

/// A primary operand the builder accepts without fail: a wrapped literal,
/// a name, or a nested well-formed expression.
pub open spec fn wf_primary(t: PTree) -> bool
    decreases t, 5int,
{
    ||| (t.rule == Rule::Constant && t.children.len() == 1 && is_literal_rule(
        t.children[0].rule,
    ))
    ||| t.rule == Rule::Ident
    ||| wf_expr(t)
}

/// A well-formed operand alternation: primaries in the even positions,
/// infix operators in the odd ones, at least one operand.
pub open spec fn wf_operands(s: Seq<PTree>) -> bool
    decreases s, 6int,
{
    if s.len() == 0 {
        false
    } else if s.len() == 1 {
        wf_primary(s[0])
    } else {
        wf_primary(s[0]) && op_of_rule(s[1].rule) is Some && wf_operands(
            s.subrange(2, s.len() as int),
        )
    }
}

/// A well-formed flat expression node.
pub open spec fn wf_expr(t: PTree) -> bool
    decreases t, 4int,
{
    t.rule == Rule::Expr && wf_operands(t.children)
}

/// A well-formed statement wrapper around one of the statement shapes.
pub open spec fn wf_statement(t: PTree) -> bool
    decreases t, 9int,
{
    t.rule == Rule::Statement && t.children.len() == 1 && wf_statement_inner(t.children[0])
}

/// The well-formed statement shapes the builder accepts without fail.
pub open spec fn wf_statement_inner(t: PTree) -> bool
    decreases t, 8int,
{
    match t.rule {
        Rule::AssignStatement => (t.children.len() == 2 && t.children[0].rule == Rule::Ident
            && wf_expr(t.children[1])) || (t.children.len() == 3 && t.children[0].rule
            == Rule::Ident && t.children[1].rule == Rule::Ident && wf_expr(t.children[2])),
        Rule::SetValueStatement => t.children.len() == 2 && t.children[0].rule == Rule::Ident
            && wf_expr(t.children[1]),
        Rule::ReturnBlockStatement => t.children.len() == 1 && wf_expr(t.children[0]),
        Rule::IfStatement => t.children.len() >= 2 && wf_expr(t.children[0]) && wf_block(
            t.children[1],
        ) && wf_branches(t.children.subrange(2, t.children.len() as int)),
        Rule::Block => wf_block(t),
        Rule::Expr => wf_operands(t.children),
        _ => false,
    }
}

/// A well-formed braced block: a list of well-formed statements.
pub open spec fn wf_block(t: PTree) -> bool
    decreases t, 7int,
{
    t.rule == Rule::Block && wf_statements(t.children)
}

/// Every tree of the list is a well-formed statement.
pub open spec fn wf_statements(s: Seq<PTree>) -> bool
    decreases s, 10int,
{
    if s.len() == 0 {
        true
    } else {
        wf_statements(s.drop_last()) && wf_statement(s.last())
    }
}

/// A well-formed trailing branch of a conditional.
pub open spec fn wf_branch(t: PTree) -> bool
    decreases t, 8int,
{
    ||| (t.rule == Rule::ElifStatement && t.children.len() == 2 && wf_expr(t.children[0])
        && wf_block(t.children[1]))
    ||| (t.rule == Rule::ElseStatement && t.children.len() == 1 && wf_block(t.children[0]))
}

/// Every tree of the list is a well-formed conditional branch.
pub open spec fn wf_branches(s: Seq<PTree>) -> bool
    decreases s, 10int,
{
    if s.len() == 0 {
        true
    } else {
        wf_branches(s.drop_last()) && wf_branch(s.last())
    }
}

/// A top-level tree the grammar engine emits: a well-formed statement or
/// the end-of-input marker.
pub open spec fn wf_top(t: PTree) -> bool {
    wf_statement(t) || t.rule == Rule::Eoi
}

/// Every top-level tree of the list is well-formed.
pub open spec fn wf_tops(s: Seq<PTree>) -> bool
    decreases s,
{
    if s.len() == 0 {
        true
    } else {
        wf_tops(s.drop_last()) && wf_top(s.last())
    }
}

/// The builder accepts every well-formed primary.
proof fn lemma_build_primary_ok(t: PTree)
    requires
        wf_primary(t),
    ensures
        build_pair(t) is Ok,
    decreases t, 5int,
{
    if t.rule == Rule::Constant && t.children.len() == 1 && is_literal_rule(t.children[0].rule) {
        assert(build_pair(t.children[0]) is Ok);
        assert(build_pair_raw(t) is Ok);
    } else if t.rule == Rule::Ident {
        assert(build_pair_raw(t) is Ok);
    } else {
        lemma_build_expr_ok(t);
    }
}

/// The builder accepts every well-formed operand alternation.
proof fn lemma_build_operands_ok(s: Seq<PTree>)
    requires
        wf_operands(s),
    ensures
        build_operands(s) is Some,
    decreases s, 6int,
{
    if s.len() == 1 {
        lemma_build_primary_ok(s[0]);
    } else {
        lemma_build_primary_ok(s[0]);
        lemma_build_operands_ok(s.subrange(2, s.len() as int));
    }
}

/// The expression builder accepts every well-formed expression node.
proof fn lemma_build_expr_ok(t: PTree)
    requires
        wf_expr(t),
    ensures
        build_expr_pair(t) is Some,
        build_pair(t) is Ok,
    decreases t, 4int,
{
    lemma_build_operands_ok(t.children);
}

/// The builder accepts every well-formed statement.
proof fn lemma_build_statement_ok(t: PTree)
    requires
        wf_statement(t),
    ensures
        build_pair(t) is Ok,
    decreases t, 9int,
{
    lemma_build_statement_inner_ok(t.children[0]);
}

/// The builder accepts every well-formed statement shape.
proof fn lemma_build_statement_inner_ok(t: PTree)
    requires
        wf_statement_inner(t),
    ensures
        build_pair(t) is Ok,
    decreases t, 8int,
{
    match t.rule {
        Rule::AssignStatement => {
            if t.children.len() == 2 {
                assert(build_pair(t.children[0]) is Ok);
                lemma_build_expr_ok(t.children[1]);
            } else {
                assert(build_pair(t.children[0]) is Ok);
                assert(build_pair(t.children[1]) is Ok);
                lemma_build_expr_ok(t.children[2]);
            }
        },
        Rule::SetValueStatement => {
            assert(build_pair(t.children[0]) is Ok);
            lemma_build_expr_ok(t.children[1]);
        },
        Rule::ReturnBlockStatement => {
            lemma_build_expr_ok(t.children[0]);
        },
        Rule::IfStatement => {
            lemma_build_expr_ok(t.children[0]);
            lemma_build_block_ok(t.children[1]);
            lemma_build_branches_ok(t.children.subrange(2, t.children.len() as int));
            assert(build_pair_raw(t) is Ok);
        },
        Rule::Block => {
            lemma_build_block_ok(t);
        },
        Rule::Expr => {
            lemma_build_operands_ok(t.children);
            assert(build_expr_pair(t) is Some);
            assert(build_pair_raw(t) is Ok);
        },
        _ => {},
    }
}

/// The builder accepts every well-formed block.
proof fn lemma_build_block_ok(t: PTree)
    requires
        wf_block(t),
    ensures
        build_pair(t) is Ok,
    decreases t, 7int,
{
    lemma_build_statements_ok(t.children);
}

/// The list builder accepts every list of well-formed statements.
proof fn lemma_build_statements_ok(s: Seq<PTree>)
    requires
        wf_statements(s),
    ensures
        build_pairs(s) is Ok,
    decreases s, 10int,
{
    if s.len() > 0 {
        lemma_build_statements_ok(s.drop_last());
        lemma_build_statement_ok(s.last());
    }
}

/// The builder accepts every well-formed branch, and yields the matching
/// branch node.
proof fn lemma_build_branch_ok(t: PTree)
    requires
        wf_branch(t),
    ensures
        build_pair(t) is Ok,
        t.rule == Rule::ElifStatement ==> build_pair(t)->Ok_0 is Elif,
        t.rule == Rule::ElseStatement ==> build_pair(t)->Ok_0 is Else,
    decreases t, 8int,
{
    if t.rule == Rule::ElifStatement {
        lemma_build_expr_ok(t.children[0]);
        lemma_build_block_ok(t.children[1]);
    } else {
        lemma_build_block_ok(t.children[0]);
    }
}

/// The classification accepts every list of well-formed branches.
proof fn lemma_build_branches_ok(s: Seq<PTree>)
    requires
        wf_branches(s),
    ensures
        build_if_rest(s) is Ok,
    decreases s, 10int,
{
    if s.len() > 0 {
        lemma_build_branches_ok(s.drop_last());
        lemma_build_branch_ok(s.last());
    }
}

/// The builder accepts everything the grammar engine emits: a list of
/// well-formed top-level trees never provokes a builder error.
pub proof fn lemma_build_tops_ok(s: Seq<PTree>)
    requires
        wf_tops(s),
    ensures
        build_pairs(s) is Ok,
    decreases s,
{
    if s.len() > 0 {
        lemma_build_tops_ok(s.drop_last());
        if wf_statement(s.last()) {
            lemma_build_statement_ok(s.last());
        } else {
            assert(build_pair(s.last()) is Ok);
        }
    }
}

/// Appending an operator and a primary keeps an alternation well-formed.
pub(crate) proof fn lemma_wf_operands_append(s: Seq<PTree>, op: PTree, p: PTree)
    requires
        wf_operands(s),
        op_of_rule(op.rule) is Some,
        wf_primary(p),
    ensures
        wf_operands(s.push(op).push(p)),
    decreases s.len(),
{
    let grown = s.push(op).push(p);
    assert(grown.len() == s.len() + 2);
    assert(grown[0] == s[0]);
    if s.len() == 1 {
        assert(grown[1] == op);
        assert(grown.subrange(2, grown.len() as int) =~= seq![p]);
        assert(wf_operands(grown.subrange(2, grown.len() as int)));
    } else {
        assert(grown[1] == s[1]);
        lemma_wf_operands_append(s.subrange(2, s.len() as int), op, p);
        assert(grown.subrange(2, grown.len() as int) =~= s.subrange(2, s.len() as int).push(
            op,
        ).push(p));
        assert(wf_operands(grown.subrange(2, grown.len() as int)));
    }
}

/// A collapse pass keeps every operand evaluable and worth one stack
/// value, and never empties the operand list.
proof fn lemma_collapse_evaluable(asts: Seq<Ast>, ops: Seq<BinaryOp>, t: int)
    requires
        forall|i: int|
            0 <= i < asts.len() ==> evaluable(#[trigger] asts[i]) && values_produced(asts[i])
                == 1,
    ensures
        forall|i: int|
            0 <= i < collapse_tier(asts, ops, t).0.len() ==> evaluable(
                #[trigger] collapse_tier(asts, ops, t).0[i],
            ) && values_produced(collapse_tier(asts, ops, t).0[i]) == 1,
        asts.len() >= 1 ==> collapse_tier(asts, ops, t).0.len() >= 1,
    decreases ops.len(),
{
    if ops.len() == 0 || asts.len() < 2 {
    } else if tier_of(ops[0]) == t {
        let folded = seq![Ast::Expr(Box::new(asts[0]), Some(ops[0]), Some(Box::new(asts[1])))]
            + asts.subrange(2, asts.len() as int);
        assert(forall|i: int|
            0 <= i < folded.len() ==> evaluable(#[trigger] folded[i]) && values_produced(
                folded[i],
            ) == 1);
        lemma_collapse_evaluable(folded, ops.drop_first(), t);
    } else {
        let tail = asts.drop_first();
        assert(forall|i: int|
            0 <= i < tail.len() ==> evaluable(#[trigger] tail[i]) && values_produced(tail[i])
                == 1);
        lemma_collapse_evaluable(tail, ops.drop_first(), t);
        let rest = collapse_tier(tail, ops.drop_first(), t);
        let whole = seq![asts[0]] + rest.0;
        assert(forall|i: int|
            0 <= i < whole.len() ==> evaluable(#[trigger] whole[i]) && values_produced(
                whole[i],
            ) == 1);
    }
}

/// Every operand a well-formed alternation builds is evaluable and worth
/// one stack value.
proof fn lemma_evaluable_operands(s: Seq<PTree>)
    requires
        wf_operands(s),
    ensures
        build_operands(s) matches Some(parts) ==> forall|i: int|
            0 <= i < parts.0.len() ==> evaluable(#[trigger] parts.0[i]) && values_produced(
                parts.0[i],
            ) == 1,
    decreases s, 6int,
{
    if s.len() == 1 {
        lemma_evaluable_primary(s[0]);
    } else {
        lemma_evaluable_primary(s[0]);
        lemma_evaluable_operands(s.subrange(2, s.len() as int));
    }
}

/// Every node a well-formed primary builds is evaluable and worth one
/// stack value.
proof fn lemma_evaluable_primary(t: PTree)
    requires
        wf_primary(t),
    ensures
        build_pair(t) matches Ok(v) ==> evaluable(v) && values_produced(v) == 1,
    decreases t, 5int,
{
    if t.rule == Rule::Constant && t.children.len() == 1 && is_literal_rule(t.children[0].rule) {
        let c = t.children[0];
        let lit = match c.rule {
            Rule::Int => Ast::Constant(canon_int_text(c.text)),
            Rule::Float => Ast::Constant(canon_float_text(c.text)),
            _ => Ast::Constant(c.text),
        };
        assert(build_pair(c) == Ok::<Ast, ParseErrKind>(lit));
        assert(build_pair(t) == Ok::<Ast, ParseErrKind>(lit));
    } else if t.rule == Rule::Ident {
        assert(build_pair(t) == Ok::<Ast, ParseErrKind>(Ast::Identifier(t.text)));
    } else {
        lemma_evaluable_expr(t);
    }
}

/// Every node a well-formed expression builds is evaluable and worth one
/// stack value.
proof fn lemma_evaluable_expr(t: PTree)
    requires
        wf_expr(t),
    ensures
        build_pair(t) matches Ok(v) ==> evaluable(v) && values_produced(v) == 1,
        build_expr_pair(t) matches Some(v) ==> evaluable(v) && values_produced(v) == 1,
    decreases t, 4int,
{
    lemma_evaluable_operands(t.children);
    lemma_build_operands_canonical(t.children);
    if build_operands(t.children) is Some {
        let parts = build_operands(t.children)->0;
        lemma_collapse_evaluable(parts.0, parts.1, 4);
        lemma_collapse_canonical(parts.0, parts.1, 4);
        let r4 = collapse_tier(parts.0, parts.1, 4);
        lemma_collapse_evaluable(r4.0, r4.1, 3);
        lemma_collapse_canonical(r4.0, r4.1, 3);
        let r3 = collapse_tier(r4.0, r4.1, 3);
        lemma_collapse_evaluable(r3.0, r3.1, 2);
        lemma_collapse_canonical(r3.0, r3.1, 2);
        let r2 = collapse_tier(r3.0, r3.1, 2);
        lemma_collapse_evaluable(r2.0, r2.1, 1);
        lemma_collapse_canonical(r2.0, r2.1, 1);
        let folded = fold_expr(parts.0, parts.1);
        assert(evaluable(folded) && values_produced(folded) == 1);
        crate::ast::lemma_norm_canonical_noop(folded);
    }
}

/// Every node a well-formed statement builds is evaluable: statements
/// lower to nothing, and expression statements lower to straight-line
/// code that leaves one value.
proof fn lemma_evaluable_statement(t: PTree)
    requires
        wf_statement(t),
    ensures
        build_pair(t) matches Ok(v) ==> evaluable(v),
    decreases t, 9int,
{
    let inner = t.children[0];
    if build_pair(inner) is Ok {
        let v0 = build_pair(inner)->Ok_0;
        match inner.rule {
            Rule::Expr => {
                lemma_evaluable_expr(inner);
                lemma_build_pair_canonical(inner);
                crate::ast::lemma_norm_canonical_noop(v0);
                assert(build_pair(t) == Ok::<Ast, ParseErrKind>(v0));
            },
            Rule::AssignStatement => {
                assert(build_pair_raw(inner) matches Ok(x) ==> x is Assign);
                assert(v0 is Assign);
                assert(norm(v0) is Assign);
            },
            Rule::SetValueStatement => {
                assert(v0 is SetValue);
                assert(norm(v0) is SetValue);
            },
            Rule::ReturnBlockStatement => {
                assert(v0 is ReturnBlock);
                assert(norm(v0) is ReturnBlock);
            },
            Rule::IfStatement => {
                assert(v0 is If);
                assert(norm(v0) is If);
            },
            Rule::Block => {
                assert(v0 is Block);
                assert(norm(v0) is Block);
            },
            _ => {},
        }
    }
}

/// Every node list built from the grammar engine's output is evaluable
/// node by node.
pub proof fn lemma_build_tops_evaluable(s: Seq<PTree>)
    requires
        wf_tops(s),
    ensures
        build_pairs(s) matches Ok(nodes) ==> forall|i: int|
            0 <= i < nodes.len() ==> evaluable(#[trigger] nodes[i]),
    decreases s,
{
    if s.len() > 0 {
        lemma_build_tops_evaluable(s.drop_last());
        if wf_statement(s.last()) {
            lemma_evaluable_statement(s.last());
        }
        if build_pairs(s) matches Ok(nodes) {
            let front = build_pairs(s.drop_last())->Ok_0;
            let node = build_pair(s.last())->Ok_0;
            if !(node is Empty) {
                assert(forall|i: int|
                    0 <= i < front.len() ==> front.push(node)[i] == front[i]);
                assert(front.push(node).last() == node);
            }
        }
    }
}

/// A collapse pass keeps every operand canonical and never empties the
/// operand list.
proof fn lemma_collapse_canonical(asts: Seq<Ast>, ops: Seq<BinaryOp>, t: int)
    requires
        forall|i: int| 0 <= i < asts.len() ==> canonical(#[trigger] asts[i]),
    ensures
        forall|i: int|
            0 <= i < collapse_tier(asts, ops, t).0.len() ==> canonical(
                #[trigger] collapse_tier(asts, ops, t).0[i],
            ),
        asts.len() >= 1 ==> collapse_tier(asts, ops, t).0.len() >= 1,
    decreases ops.len(),
{
    if ops.len() == 0 || asts.len() < 2 {
    } else if tier_of(ops[0]) == t {
        let folded = seq![Ast::Expr(Box::new(asts[0]), Some(ops[0]), Some(Box::new(asts[1])))]
            + asts.subrange(2, asts.len() as int);
        assert(forall|i: int| 0 <= i < folded.len() ==> canonical(#[trigger] folded[i]));
        lemma_collapse_canonical(folded, ops.drop_first(), t);
    } else {
        let tail = asts.drop_first();
        assert(forall|i: int| 0 <= i < tail.len() ==> canonical(#[trigger] tail[i]));
        lemma_collapse_canonical(tail, ops.drop_first(), t);
        let rest = collapse_tier(tail, ops.drop_first(), t);
        let whole = seq![asts[0]] + rest.0;
        assert(forall|i: int| 0 <= i < whole.len() ==> canonical(#[trigger] whole[i]));
    }
}

/// Every operand the alternation yields is canonical, and there is one
/// more operand than operators.
proof fn lemma_build_operands_canonical(s: Seq<PTree>)
    ensures
        build_operands(s) matches Some(parts) ==> {
            &&& forall|i: int| 0 <= i < parts.0.len() ==> canonical(#[trigger] parts.0[i])
            &&& parts.0.len() == parts.1.len() + 1
        },
    decreases s, 3int,
{
    if s.len() == 0 {
    } else if s.len() == 1 {
        lemma_build_pair_canonical(s[0]);
    } else {
        lemma_build_pair_canonical(s[0]);
        lemma_build_operands_canonical(s.subrange(2, s.len() as int));
    }
}

/// Every elif branch and the else branch the classification yields are
/// canonical.
proof fn lemma_build_if_rest_canonical(s: Seq<PTree>)
    ensures
        build_if_rest(s) matches Ok(rest) ==> {
            &&& canonical_seq(rest.0)
            &&& rest.1 matches Some(e) ==> canonical(e)
        },
    decreases s, 3int,
{
    if s.len() > 0 {
        lemma_build_if_rest_canonical(s.drop_last());
        lemma_build_pair_canonical(s.last());
        if build_if_rest(s) matches Ok(rest) {
            let front = build_if_rest(s.drop_last())->Ok_0;
            let node = build_pair(s.last())->Ok_0;
            lemma_canonical_seq(front.0);
            if node is Elif {
                lemma_canonical_seq(front.0.push(node));
            }
        }
    }
}

/// Every node the list builder yields is canonical, and none is the
/// empty marker.
pub proof fn lemma_build_pairs_canonical(s: Seq<PTree>)
    ensures
        build_pairs(s) matches Ok(nodes) ==> {
            &&& canonical_seq(nodes)
            &&& forall|i: int| 0 <= i < nodes.len() ==> !((#[trigger] nodes[i]) is Empty)
        },
    decreases s, 3int,
{
    if s.len() > 0 {
        lemma_build_pairs_canonical(s.drop_last());
        lemma_build_pair_canonical(s.last());
        if build_pairs(s) matches Ok(nodes) {
            let front = build_pairs(s.drop_last())->Ok_0;
            let node = build_pair(s.last())->Ok_0;
            lemma_canonical_seq(front);
            if !(node is Empty) {
                lemma_canonical_seq(front.push(node));
            }
        }
    }
}

/// Every tree the builder yields is canonical: value and condition slots
/// are always expression nodes, throughout the tree. The builder
/// normalizes each node bottom-up as it is built, so the invariant holds
/// deeply.
pub proof fn lemma_build_pair_canonical(t: PTree)
    ensures
        build_pair(t) matches Ok(v) ==> canonical(v),
    decreases t, 2int,
{
    if build_pair_raw(t) is Ok {
        let raw = build_pair_raw(t)->Ok_0;
        match t.rule {
            Rule::Expr => {
                lemma_build_operands_canonical(t.children);
                if build_operands(t.children) is Some {
                    let parts = build_operands(t.children)->0;
                    lemma_collapse_canonical(parts.0, parts.1, 4);
                    let r4 = collapse_tier(parts.0, parts.1, 4);
                    lemma_collapse_canonical(r4.0, r4.1, 3);
                    let r3 = collapse_tier(r4.0, r4.1, 3);
                    lemma_collapse_canonical(r3.0, r3.1, 2);
                    let r2 = collapse_tier(r3.0, r3.1, 2);
                    lemma_collapse_canonical(r2.0, r2.1, 1);
                    let folded = fold_expr(parts.0, parts.1);
                    assert(canonical(folded));
                    crate::ast::lemma_norm_canonical_noop(folded);
                    crate::ast::lemma_norm_canonical_noop(raw);
                }
            },
            Rule::AssignStatement => {
                if t.children.len() == 2 {
                    lemma_build_pair_canonical(t.children[0]);
                    lemma_build_pair_canonical(t.children[1]);
                } else if t.children.len() == 3 {
                    lemma_build_pair_canonical(t.children[0]);
                    lemma_build_pair_canonical(t.children[1]);
                    lemma_build_pair_canonical(t.children[2]);
                }
                lemma_norm_canonical(raw);
            },
            Rule::SetValueStatement => {
                if t.children.len() == 2 {
                    lemma_build_pair_canonical(t.children[0]);
                    lemma_build_pair_canonical(t.children[1]);
                }
                lemma_norm_canonical(raw);
            },
            Rule::ReturnBlockStatement => {
                if t.children.len() == 1 {
                    lemma_build_pair_canonical(t.children[0]);
                }
                lemma_norm_canonical(raw);
            },
            Rule::IfStatement => {
                if t.children.len() >= 2 {
                    lemma_build_pair_canonical(t.children[0]);
                    lemma_build_pair_canonical(t.children[1]);
                    lemma_build_if_rest_canonical(
                        t.children.subrange(2, t.children.len() as int),
                    );
                }
                lemma_norm_canonical(raw);
            },
            Rule::ElifStatement => {
                if t.children.len() == 2 {
                    lemma_build_pair_canonical(t.children[0]);
                    lemma_build_pair_canonical(t.children[1]);
                }
                lemma_norm_canonical(raw);
            },
            Rule::ElseStatement => {
                if t.children.len() == 1 {
                    lemma_build_pair_canonical(t.children[0]);
                }
                lemma_norm_canonical(raw);
            },
            Rule::Block => {
                lemma_build_pairs_canonical(t.children);
                lemma_norm_canonical(raw);
            },
            Rule::Statement => {
                if t.children.len() >= 1 {
                    lemma_build_pair_canonical(t.children[0]);
                    crate::ast::lemma_norm_canonical_noop(raw);
                }
            },
            Rule::Constant => {
                if t.children.len() >= 1 {
                    lemma_build_pair_canonical(t.children[0]);
                    crate::ast::lemma_norm_canonical_noop(raw);
                }
            },
            _ => {
                lemma_norm_canonical(raw);
            },
        }
    }
}

/// The display name of a rule tag, for error descriptions.
fn rule_name(r: Rule) -> &'static str {
    match r {
        Rule::Program => "program",
        Rule::Statement => "statement",
        Rule::Expr => "expr",
        Rule::Int => "int",
        Rule::Float => "float",
        Rule::StringLit => "string",
        Rule::Boolean => "boolean",
        Rule::Ident => "ident",
        Rule::Constant => "constant",
        Rule::AssignStatement => "assign_statement",
        Rule::SetValueStatement => "set_value_statement",
        Rule::ReturnBlockStatement => "return_block_statement",
        Rule::IfStatement => "if_statement",
        Rule::ElifStatement => "elif_statement",
        Rule::ElseStatement => "else_statement",
        Rule::Block => "block",
        Rule::Add => "add",
        Rule::Subtract => "subtract",
        Rule::Multiply => "multiply",
        Rule::Divide => "divide",
        Rule::Modulo => "modulo",
        Rule::Equals => "equals",
        Rule::NotEquals => "not_equals",
        Rule::GreaterThan => "greater_than",
        Rule::GreaterThanOrEqualTo => "greater_than_or_equal_to",
        Rule::LessThan => "less_than",
        Rule::LessThanOrEqualTo => "less_than_or_equal_to",
        Rule::Eoi => "EOI",
        Rule::Comment => "COMMENT",
    }
}

/// Classifies an infix operator node.
pub fn parse_binary_op(pair: &ParseTree) -> (r: Result<BinaryOp, ParserError>)
    ensures
        r matches Ok(op) ==> op_of_rule(pair@.rule) == Some(op),
        r matches Err(e) ==> op_of_rule(pair@.rule) is None && e.kind() == ParseErrKind::Syntax,
{
    match pair.rule {
        Rule::Add => Ok(BinaryOp::Add),
        Rule::Subtract => Ok(BinaryOp::Sub),
        Rule::Multiply => Ok(BinaryOp::Mul),
        Rule::Divide => Ok(BinaryOp::Div),
        Rule::Modulo => Ok(BinaryOp::Mod),
        Rule::Equals => Ok(BinaryOp::Eq),
        Rule::NotEquals => Ok(BinaryOp::Neq),
        Rule::GreaterThan => Ok(BinaryOp::Gt),
        Rule::GreaterThanOrEqualTo => Ok(BinaryOp::Gte),
        Rule::LessThan => Ok(BinaryOp::Lt),
        Rule::LessThanOrEqualTo => Ok(BinaryOp::Lte),
        _ => {
            let mut message = String::from_str("Unknown binary operator: ");
            message.append(rule_name(pair.rule));
            Err(ParserError::SyntaxError(message))
        },
    }
}

/// The executable precedence tier of an operator.
fn tier_exec(op: BinaryOp) -> (r: u8)
    ensures
        r as int == tier_of(op),
{
    match op {
        BinaryOp::Eq => 1,
        BinaryOp::Neq => 1,
        BinaryOp::Gt => 1,
        BinaryOp::Gte => 1,
        BinaryOp::Lt => 1,
        BinaryOp::Lte => 1,
        BinaryOp::Add => 2,
        BinaryOp::Sub => 2,
        BinaryOp::Mul => 3,
        BinaryOp::Div => 3,
        BinaryOp::Mod => 4,
    }
}

/// Every tier sits between the relational tier and the modulo tier.
proof fn lemma_tier_bounds()
    ensures
        forall|op: BinaryOp| 1 <= #[trigger] tier_of(op) <= 4,
{
}

/// Shape of one collapse pass: the operand list stays one longer than the
/// operator list, and no operator of the collapsed tier survives.
proof fn lemma_collapse_tier_shape(asts: Seq<Ast>, ops: Seq<BinaryOp>, t: int)
    requires
        asts.len() == ops.len() + 1,
        forall|i: int| 0 <= i < ops.len() ==> 1 <= #[trigger] tier_of(ops[i]) <= t,
    ensures
        collapse_tier(asts, ops, t).0.len() == collapse_tier(asts, ops, t).1.len() + 1,
        forall|i: int|
            0 <= i < collapse_tier(asts, ops, t).1.len() ==> 1 <= #[trigger] tier_of(
                collapse_tier(asts, ops, t).1[i],
            ) <= t - 1,
    decreases ops.len(),
{
    if ops.len() == 0 {
    } else if tier_of(ops[0]) == t {
        let folded = seq![Ast::Expr(Box::new(asts[0]), Some(ops[0]), Some(Box::new(asts[1])))]
            + asts.subrange(2, asts.len() as int);
        assert(forall|i: int|
            0 <= i < ops.drop_first().len() ==> 1 <= #[trigger] tier_of(ops.drop_first()[i])
                <= t);
        lemma_collapse_tier_shape(folded, ops.drop_first(), t);
    } else {
        assert(forall|i: int|
            0 <= i < ops.drop_first().len() ==> 1 <= #[trigger] tier_of(ops.drop_first()[i])
                <= t);
        lemma_collapse_tier_shape(asts.drop_first(), ops.drop_first(), t);
    }
}

/// One collapse pass over the operand and operator lists.
#[verifier::rlimit(50)]
fn collapse_exec(asts: Vec<AstNode>, ops: Vec<BinaryOp>, t: u8) -> (r: (Vec<AstNode>, Vec<
    BinaryOp,
>))
    ensures
        view_nodes(r.0@) == collapse_tier(view_nodes(asts@), ops@, t as int).0,
        r.1@ == collapse_tier(view_nodes(asts@), ops@, t as int).1,
    decreases ops@.len(),
{
    proof {
        lemma_view_nodes(asts@);
    }
    if ops.len() == 0 || asts.len() < 2 {
        proof {
            assert(view_nodes(asts@).len() == asts@.len());
        }
        (asts, ops)
    } else {
        let mut asts = asts;
        let mut ops = ops;
        let ghost asts0 = asts@;
        let ghost ops0 = ops@;
        let op0 = ops.remove(0);
        if tier_exec(op0) == t {
            let a0 = asts.remove(0);
            let a1 = asts.remove(0);
            let combined = AstNode::Expr(Box::new(a0), Some(op0), Some(Box::new(a1)));
            asts.insert(0, combined);
            proof {
                lemma_view_nodes(asts0);
                lemma_view_nodes(asts@);
                assert(ops@ =~= ops0.drop_first());
                assert(view_nodes(asts@) =~= seq![
                    Ast::Expr(
                        Box::new(view_nodes(asts0)[0]),
                        Some(ops0[0]),
                        Some(Box::new(view_nodes(asts0)[1])),
                    ),
                ] + view_nodes(asts0).subrange(2, view_nodes(asts0).len() as int));
            }
            let r = collapse_exec(asts, ops, t);
            proof {
                assert(collapse_tier(view_nodes(asts0), ops0, t as int) == collapse_tier(
                    view_nodes(asts@),
                    ops@,
                    t as int,
                ));
            }
            r
        } else {
            let a0 = asts.remove(0);
            proof {
                lemma_view_nodes(asts0);
                lemma_view_nodes(asts@);
                assert(ops@ =~= ops0.drop_first());
                assert(view_nodes(asts@) =~= view_nodes(asts0).drop_first());
            }
            let r = collapse_exec(asts, ops, t);
            let (mut ra, mut ro) = r;
            let ghost ra0 = ra@;
            let ghost ro0 = ro@;
            ra.insert(0, a0);
            ro.insert(0, op0);
            proof {
                lemma_view_nodes(ra0);
                lemma_view_nodes(ra@);
                assert(ra@ =~= seq![a0] + ra0);
                assert(ro@ =~= seq![op0] + ro0);
                assert(view_nodes(ra@) =~= seq![view_node(a0)] + collapse_tier(
                    view_nodes(asts@),
                    ops@,
                    t as int,
                ).0);
                assert(ro@ =~= seq![op0] + collapse_tier(
                    view_nodes(asts@),
                    ops@,
                    t as int,
                ).1);
            }
            (ra, ro)
        }
    }
}

/// Splits the children of a flat expression node, from the given index
/// on, into built primary operands and classified operators.
fn collect_operands(children: &Vec<ParseTree>, i: usize) -> (r: Option<(Vec<AstNode>, Vec<
    BinaryOp,
>)>)
    requires
        i <= children@.len(),
    ensures
        ({
            let sub = view_trees(children@).subrange(i as int, children@.len() as int);
            match r {
                Some(parts) => build_operands(sub) == Some(
                    (view_nodes(parts.0@), parts.1@),
                ) && parts.0@.len() == parts.1@.len() + 1,
                None => build_operands(sub) is None,
            }
        }),
    decreases children@, children@.len() - i,
{
    let ghost sub = view_trees(children@).subrange(i as int, children@.len() as int);
    proof {
        lemma_view_trees(children@);
    }
    if i == children.len() {
        None
    } else if i + 1 == children.len() {
        proof {
            assert(sub.len() == 1);
            assert(sub[0] == view_tree(children@[i as int]));
            assert(decreases_to!(children@ => children@[i as int]));
        }
        match parse_pair(&children[i]) {
            Ok(node) => {
                let mut operands: Vec<AstNode> = Vec::new();
                operands.push(node);
                let operators: Vec<BinaryOp> = Vec::new();
                proof {
                    lemma_view_nodes(operands@);
                    assert(view_nodes(operands@) =~= seq![view_node(operands@[0])]);
                }
                Some((operands, operators))
            },
            Err(_) => None,
        }
    } else {
        proof {
            assert(sub.len() >= 2);
            assert(sub[0] == view_tree(children@[i as int]));
            assert(sub[1] == view_tree(children@[i as int + 1]));
            assert(decreases_to!(children@ => children@[i as int]));
        }
        match parse_pair(&children[i]) {
            Err(_) => None,
            Ok(node) => match parse_binary_op(&children[i + 1]) {
                Err(_) => None,
                Ok(op) => match collect_operands(children, i + 2) {
                    None => {
                        proof {
                            assert(sub.subrange(2, sub.len() as int) =~= view_trees(
                                children@,
                            ).subrange(i as int + 2, children@.len() as int));
                        }
                        None
                    },
                    Some(rest) => {
                        let (mut ra, mut ro) = rest;
                        let ghost ra0 = ra@;
                        let ghost ro0 = ro@;
                        let mut operands: Vec<AstNode> = Vec::new();
                        operands.push(node);
                        operands.append(&mut ra);
                        let mut operators: Vec<BinaryOp> = Vec::new();
                        operators.push(op);
                        operators.append(&mut ro);
                        proof {
                            assert(sub.subrange(2, sub.len() as int) =~= view_trees(
                                children@,
                            ).subrange(i as int + 2, children@.len() as int));
                            assert(operands@ =~= seq![node] + ra0);
                            assert(operators@ =~= seq![op] + ro0);
                            lemma_view_nodes(operands@);
                            lemma_view_nodes(ra0);
                            assert(view_nodes(operands@) =~= seq![view_node(node)]
                                + view_nodes(ra0));
                        }
                        Some((operands, operators))
                    },
                },
            },
        }
    }
}

/// Resolves a flat expression node into a precedence-correct tree:
/// primaries are built recursively, and operators of each tier, highest
/// first, combine left-to-right. The result is normalized.
pub fn parse_expr(pair: &ParseTree) -> (r: Option<AstNode>)
    ensures
        match r {
            Some(node) => build_expr_pair(pair@) == Some(node@),
            None => build_expr_pair(pair@) is None,
        },
    decreases *pair, 1int,
{
    proof {
        assert(decreases_to!(*pair => pair.children));
        assert(decreases_to!(pair.children => pair.children@));
        assert(decreases_to!(*pair => pair.children@));
    }
    let parts = match collect_operands(&pair.children, 0) {
        Some(p) => p,
        None => {
            proof {
                lemma_view_trees(pair.children@);
                assert(view_trees(pair.children@).subrange(
                    0,
                    pair.children@.len() as int,
                ) =~= pair@.children);
            }
            return None;
        },
    };
    let (asts, ops) = parts;
    proof {
        lemma_view_trees(pair.children@);
        assert(view_trees(pair.children@).subrange(0, pair.children@.len() as int)
            =~= pair@.children);
        lemma_tier_bounds();
        lemma_view_nodes(asts@);
        lemma_collapse_tier_shape(view_nodes(asts@), ops@, 4);
    }
    let ghost s4 = collapse_tier(view_nodes(asts@), ops@, 4);
    let r4 = collapse_exec(asts, ops, 4);
    proof {
        lemma_collapse_tier_shape(s4.0, s4.1, 3);
    }
    let ghost s3 = collapse_tier(s4.0, s4.1, 3);
    let r3 = collapse_exec(r4.0, r4.1, 3);
    proof {
        lemma_collapse_tier_shape(s3.0, s3.1, 2);
    }
    let ghost s2 = collapse_tier(s3.0, s3.1, 2);
    let r2 = collapse_exec(r3.0, r3.1, 2);
    proof {
        lemma_collapse_tier_shape(s2.0, s2.1, 1);
    }
    let ghost s1 = collapse_tier(s2.0, s2.1, 1);
    let mut r1 = collapse_exec(r2.0, r2.1, 1);
    proof {
        if s1.1.len() > 0 {
            assert(1 <= tier_of(s1.1[0]) <= 0);
        }
        assert(s1.0.len() == 1);
        lemma_view_nodes(r1.0@);
    }
    let node = r1.0.remove(0);
    let formatted = node.format_ast();
    proof {
        assert(node@ == s1.0[0]);
        assert(formatted@ == norm(fold_expr(view_nodes(asts@), ops@)));
    }
    Some(formatted)
}

/// The error for a parse-tree shape the builder has no case for.
fn unknown_pair_error(r: Rule) -> (e: ParserError)
    ensures
        e.kind() == ParseErrKind::Unknown,
{
    let mut message = String::from_str("Unknown pair: ");
    message.append(rule_name(r));
    ParserError::UnknownError(message)
}

/// A failing prefix makes the whole list fail.
proof fn lemma_build_pairs_err_prefix(s: Seq<PTree>, j: int)
    requires
        0 <= j <= s.len(),
        build_pairs(s.subrange(0, j)) is Err,
    ensures
        build_pairs(s) is Err,
        build_pairs(s) == build_pairs(s.subrange(0, j)),
    decreases s.len(),
{
    if j == s.len() {
        assert(s.subrange(0, j) =~= s);
    } else {
        assert(s.drop_last().subrange(0, j) =~= s.subrange(0, j));
        lemma_build_pairs_err_prefix(s.drop_last(), j);
    }
}

/// A failing prefix makes the whole classification fail.
proof fn lemma_build_if_rest_err_prefix(s: Seq<PTree>, j: int)
    requires
        0 <= j <= s.len(),
        build_if_rest(s.subrange(0, j)) is Err,
    ensures
        build_if_rest(s) is Err,
        build_if_rest(s) == build_if_rest(s.subrange(0, j)),
    decreases s.len(),
{
    if j == s.len() {
        assert(s.subrange(0, j) =~= s);
    } else {
        assert(s.drop_last().subrange(0, j) =~= s.subrange(0, j));
        lemma_build_if_rest_err_prefix(s.drop_last(), j);
    }
}

/// Renders an integer literal's text canonically: leading zeros removed.
#[verifier::loop_isolation(false)]
fn canon_int(text: &String) -> (r: String)
    ensures
        r@ == canon_int_text(text@),
{
    let ghost s = text@;
    let len = text.as_str().unicode_len();
    proof {
        assert(s.subrange(0, len as int) =~= s);
    }
    let mut f: usize = 0;
    while len - f > 1 && text.as_str().get_char(f) == '0'
        invariant
            0 <= f <= len,
            len == s.len(),
            canon_int_text(s) == canon_int_text(s.subrange(f as int, len as int)),
        decreases len - f,
    {
        proof {
            let sub = s.subrange(f as int, len as int);
            assert(sub.len() > 1 && sub[0] == '0');
            assert(sub.drop_first() =~= s.subrange(f as int + 1, len as int));
        }
        f = f + 1;
    }
    proof {
        let sub = s.subrange(f as int, len as int);
        assert(canon_int_text(sub) == sub);
    }
    String::from_str(text.as_str().substring_char(f, len))
}

/// Renders a float literal's text canonically: redundant zeros on both
/// sides of the decimal point removed; text without a point is rendered
/// as an integer literal.
#[verifier::loop_isolation(false)]
fn canon_float(text: &String) -> (r: String)
    ensures
        r@ == canon_float_text(text@),
{
    let ghost s = text@;
    let len = text.as_str().unicode_len();
    let mut k: usize = 0;
    while k < len && text.as_str().get_char(k) != '.'
        invariant
            0 <= k <= len,
            len == s.len(),
            forall|j: int| 0 <= j < k ==> s[j] != '.',
        decreases len - k,
    {
        k = k + 1;
    }
    if k == len {
        proof {
            assert(!has_dot(s));
        }
        return canon_int(text);
    }
    proof {
        assert(s[k as int] == '.');
        assert(has_dot(s));
    }
    proof {
        assert(s.subrange(0, len as int) =~= s);
    }
    let mut f: usize = 0;
    while len - f > 1 && text.as_str().get_char(f) == '0' && text.as_str().get_char(f + 1)
        != '.'
        invariant
            0 <= f <= len,
            len == s.len(),
            len >= 1,
            trim_whole(s) == trim_whole(s.subrange(f as int, len as int)),
        decreases len - f,
    {
        proof {
            let sub = s.subrange(f as int, len as int);
            assert(sub.len() > 1 && sub[0] == '0' && sub[1] != '.');
            assert(sub.drop_first() =~= s.subrange(f as int + 1, len as int));
        }
        f = f + 1;
    }
    proof {
        let sub = s.subrange(f as int, len as int);
        assert(trim_whole(sub) == sub);
        assert(trim_whole(s) == s.subrange(f as int, len as int));
    }
    let mut e: usize = len;
    while e - f > 1 && text.as_str().get_char(e - 1) == '0' && text.as_str().get_char(e - 2)
        != '.'
        invariant
            f + 1 <= e <= len || (e == len && f <= len),
            f <= e,
            len == s.len(),
            trim_frac(s.subrange(f as int, len as int)) == trim_frac(
                s.subrange(f as int, e as int),
            ),
        decreases e,
    {
        proof {
            let sub = s.subrange(f as int, e as int);
            assert(sub.len() > 1);
            assert(sub.last() == s[e as int - 1]);
            assert(sub[sub.len() - 2] == s[e as int - 2]);
            assert(sub.drop_last() =~= s.subrange(f as int, e as int - 1));
        }
        e = e - 1;
    }
    proof {
        let sub = s.subrange(f as int, e as int);
        assert(trim_frac(sub) == sub);
        assert(canon_float_text(s) == s.subrange(f as int, e as int));
    }
    String::from_str(text.as_str().substring_char(f, e))
}

/// Builds the AST node of one parse-tree node: literals and identifiers
/// become leaves, with numeric literal text rendered canonically
/// ([`canon_int_text`], [`canon_float_text`]); statements are classified
/// by their rule tag and built recursively, expression nodes go through
/// the expression builder, and the result is normalized.
#[verifier::loop_isolation(false)]
pub fn parse_pair(pair: &ParseTree) -> (r: Result<AstNode, ParserError>)
    ensures
        r matches Ok(node) ==> build_pair(pair@) == Ok::<_, ParseErrKind>(node@),
        r matches Err(e) ==> build_pair(pair@) == Err::<Ast, _>(e.kind()),
    decreases *pair, 2int,
{
    proof {
        lemma_view_trees(pair.children@);
    }
    let raw: Result<AstNode, ParserError> = match pair.rule {
        Rule::Expr => {
            match parse_expr(pair) {
                Some(node) => Ok(node),
                None => {
                    let mut message = String::from_str("Invalid expression: ");
                    message.append(pair.text.as_str());
                    Err(ParserError::SyntaxError(message))
                },
            }
        },
        Rule::Int => Ok(AstNode::Constant(canon_int(&pair.text))),
        Rule::Float => Ok(AstNode::Constant(canon_float(&pair.text))),
        Rule::StringLit => Ok(AstNode::Constant(pair.text.clone())),
        Rule::Boolean => Ok(AstNode::Constant(pair.text.clone())),
        Rule::Ident => Ok(AstNode::Identifier(pair.text.clone())),
        Rule::AssignStatement => {
            if pair.children.len() == 2 {
                proof {
                    assert(decreases_to!(*pair => pair.children));
                    assert(decreases_to!(pair.children => pair.children@));
                    assert(decreases_to!(pair.children@ => pair.children@[0]));
                    assert(decreases_to!(pair.children@ => pair.children@[1]));
                    assert(decreases_to!(*pair => pair.children@[0]));
                    assert(decreases_to!(*pair => pair.children@[1]));
                }
                match parse_pair(&pair.children[0]) {
                    Err(e) => Err(e),
                    Ok(id) => match parse_pair(&pair.children[1]) {
                        Err(e) => Err(e),
                        Ok(value) => Ok(
                            AstNode::Assign(Box::new(id), None, Box::new(value)),
                        ),
                    },
                }
            } else if pair.children.len() == 3 {
                proof {
                    assert(decreases_to!(*pair => pair.children));
                    assert(decreases_to!(pair.children => pair.children@));
                    assert(decreases_to!(pair.children@ => pair.children@[0]));
                    assert(decreases_to!(pair.children@ => pair.children@[1]));
                    assert(decreases_to!(pair.children@ => pair.children@[2]));
                    assert(decreases_to!(*pair => pair.children@[0]));
                    assert(decreases_to!(*pair => pair.children@[1]));
                    assert(decreases_to!(*pair => pair.children@[2]));
                }
                match parse_pair(&pair.children[0]) {
                    Err(e) => Err(e),
                    Ok(id) => match parse_pair(&pair.children[1]) {
                        Err(e) => Err(e),
                        Ok(ann) => match parse_pair(&pair.children[2]) {
                            Err(e) => Err(e),
                            Ok(value) => Ok(
                                AstNode::Assign(
                                    Box::new(id),
                                    Some(Box::new(ann)),
                                    Box::new(value),
                                ),
                            ),
                        },
                    },
                }
            } else {
                Err(unknown_pair_error(pair.rule))
            }
        },
        Rule::SetValueStatement => {
            if pair.children.len() == 2 {
                proof {
                    assert(decreases_to!(*pair => pair.children));
                    assert(decreases_to!(pair.children => pair.children@));
                    assert(decreases_to!(pair.children@ => pair.children@[0]));
                    assert(decreases_to!(pair.children@ => pair.children@[1]));
                    assert(decreases_to!(*pair => pair.children@[0]));
                    assert(decreases_to!(*pair => pair.children@[1]));
                }
                match parse_pair(&pair.children[0]) {
                    Err(e) => Err(e),
                    Ok(id) => match parse_pair(&pair.children[1]) {
                        Err(e) => Err(e),
                        Ok(value) => Ok(AstNode::SetValue(Box::new(id), Box::new(value))),
                    },
                }
            } else {
                Err(unknown_pair_error(pair.rule))
            }
        },
        Rule::ReturnBlockStatement => {
            if pair.children.len() == 1 {
                proof {
                    assert(decreases_to!(*pair => pair.children));
                    assert(decreases_to!(pair.children => pair.children@));
                    assert(decreases_to!(pair.children@ => pair.children@[0]));
                    assert(decreases_to!(*pair => pair.children@[0]));
                }
                match parse_pair(&pair.children[0]) {
                    Err(e) => Err(e),
                    Ok(value) => Ok(AstNode::ReturnBlock(Box::new(value))),
                }
            } else {
                Err(unknown_pair_error(pair.rule))
            }
        },
        Rule::IfStatement => {
            if pair.children.len() >= 2 {
                proof {
                    assert(decreases_to!(*pair => pair.children));
                    assert(decreases_to!(pair.children => pair.children@));
                    assert(decreases_to!(pair.children@ => pair.children@[0]));
                    assert(decreases_to!(pair.children@ => pair.children@[1]));
                    assert(decreases_to!(*pair => pair.children@[0]));
                    assert(decreases_to!(*pair => pair.children@[1]));
                }
                match parse_if_branches(pair) {
                    Err(e) => Err(e),
                    Ok(node) => Ok(node),
                }
            } else {
                Err(unknown_pair_error(pair.rule))
            }
        },
        Rule::ElifStatement => {
            if pair.children.len() == 2 {
                proof {
                    assert(decreases_to!(*pair => pair.children));
                    assert(decreases_to!(pair.children => pair.children@));
                    assert(decreases_to!(pair.children@ => pair.children@[0]));
                    assert(decreases_to!(pair.children@ => pair.children@[1]));
                    assert(decreases_to!(*pair => pair.children@[0]));
                    assert(decreases_to!(*pair => pair.children@[1]));
                }
                match parse_pair(&pair.children[0]) {
                    Err(e) => Err(e),
                    Ok(cond) => match parse_pair(&pair.children[1]) {
                        Err(e) => Err(e),
                        Ok(block) => Ok(AstNode::Elif(Box::new(cond), Box::new(block))),
                    },
                }
            } else {
                Err(unknown_pair_error(pair.rule))
            }
        },
        Rule::ElseStatement => {
            if pair.children.len() == 1 {
                proof {
                    assert(decreases_to!(*pair => pair.children));
                    assert(decreases_to!(pair.children => pair.children@));
                    assert(decreases_to!(pair.children@ => pair.children@[0]));
                    assert(decreases_to!(*pair => pair.children@[0]));
                }
                match parse_pair(&pair.children[0]) {
                    Err(e) => Err(e),
                    Ok(block) => Ok(AstNode::Else(Box::new(block))),
                }
            } else {
                Err(unknown_pair_error(pair.rule))
            }
        },
        Rule::Block => {
            proof {
                assert(decreases_to!(*pair => pair.children));
                assert(decreases_to!(pair.children => pair.children@));
                assert(decreases_to!(*pair => pair.children@));
            }
            match parse_pairs(&pair.children) {
                Err(e) => Err(e),
                Ok(nodes) => Ok(AstNode::Block(nodes)),
            }
        },
        Rule::Statement => {
            if pair.children.len() >= 1 {
                proof {
                    assert(decreases_to!(*pair => pair.children));
                    assert(decreases_to!(pair.children => pair.children@));
                    assert(decreases_to!(pair.children@ => pair.children@[0]));
                    assert(decreases_to!(*pair => pair.children@[0]));
                }
                parse_pair(&pair.children[0])
            } else {
                Err(unknown_pair_error(pair.rule))
            }
        },
        Rule::Constant => {
            if pair.children.len() >= 1 {
                proof {
                    assert(decreases_to!(*pair => pair.children));
                    assert(decreases_to!(pair.children => pair.children@));
                    assert(decreases_to!(pair.children@ => pair.children@[0]));
                    assert(decreases_to!(*pair => pair.children@[0]));
                }
                parse_pair(&pair.children[0])
            } else {
                Err(unknown_pair_error(pair.rule))
            }
        },
        Rule::Eoi => Ok(AstNode::Empty),
        Rule::Comment => Ok(AstNode::Empty),
        _ => Err(unknown_pair_error(pair.rule)),
    };
    match raw {
        Ok(node) => Ok(node.format_ast()),
        Err(e) => Err(e),
    }
}

/// Builds a conditional: condition and taken block first, any further
/// children classified as elif branches or the else branch.
#[verifier::loop_isolation(false)]
fn parse_if_branches(pair: &ParseTree) -> (r: Result<AstNode, ParserError>)
    requires
        pair.children@.len() >= 2,
        pair@.rule == Rule::IfStatement,
    ensures
        r matches Ok(node) ==> build_pair_raw(pair@) == Ok::<_, ParseErrKind>(node@),
        r matches Err(e) ==> build_pair_raw(pair@) == Err::<Ast, _>(e.kind()),
    decreases *pair, 1int,
{
    proof {
        lemma_view_trees(pair.children@);
        assert(decreases_to!(*pair => pair.children));
        assert(decreases_to!(pair.children => pair.children@));
        assert(decreases_to!(pair.children@ => pair.children@[0]));
        assert(decreases_to!(pair.children@ => pair.children@[1]));
        assert(decreases_to!(*pair => pair.children@[0]));
        assert(decreases_to!(*pair => pair.children@[1]));
    }
    let ghost rest_trees = pair@.children.subrange(2, pair@.children.len() as int);
    let condition = match parse_pair(&pair.children[0]) {
        Ok(node) => node,
        Err(e) => {
            return Err(e);
        },
    };
    let block = match parse_pair(&pair.children[1]) {
        Ok(node) => node,
        Err(e) => {
            return Err(e);
        },
    };
    let mut elif_branches: Vec<AstNode> = Vec::new();
    let mut else_branch: Option<Box<AstNode>> = None;
    let mut i: usize = 2;
    while i < pair.children.len()
        invariant
            2 <= i <= pair.children@.len(),
            build_if_rest(rest_trees.subrange(0, i as int - 2)) == Ok::<_, ParseErrKind>(
                (
                    view_nodes(elif_branches@),
                    match else_branch {
                        Some(b) => Some(view_node(*b)),
                        None => None::<Ast>,
                    },
                ),
            ),
        decreases pair.children@.len() - i,
    {
        proof {
            assert(decreases_to!(pair.children@ => pair.children@[i as int]));
            assert(decreases_to!(*pair => pair.children@[i as int]));
            assert(rest_trees.subrange(0, i as int - 1).drop_last() =~= rest_trees.subrange(
                0,
                i as int - 2,
            ));
            assert(rest_trees.subrange(0, i as int - 1).last() == view_tree(
                pair.children@[i as int],
            ));
        }
        let node = match parse_pair(&pair.children[i]) {
            Ok(node) => node,
            Err(e) => {
                proof {
                    lemma_build_if_rest_err_prefix(rest_trees, i as int - 1);
                }
                return Err(e);
            },
        };
        match node {
            AstNode::Elif(_, _) => {
                let ghost old_branches = elif_branches@;
                elif_branches.push(node);
                proof {
                    lemma_view_nodes(elif_branches@);
                    lemma_view_nodes(old_branches);
                    assert(view_nodes(elif_branches@) =~= view_nodes(old_branches).push(
                        view_node(node),
                    ));
                }
            },
            AstNode::Else(_) => {
                else_branch = Some(Box::new(node));
            },
            _ => {
                proof {
                    lemma_build_if_rest_err_prefix(rest_trees, i as int - 1);
                }
                return Err(unknown_pair_error(pair.rule));
            },
        }
        i = i + 1;
    }
    proof {
        assert(rest_trees.subrange(0, rest_trees.len() as int) =~= rest_trees);
    }
    let r = AstNode::If(Box::new(condition), Box::new(block), elif_branches, else_branch);
    proof {
        assert(r@ =~= build_pair_raw(pair@)->Ok_0);
    }
    Ok(r)
}

/// Builds the AST nodes of a node list in order, filtering out empty
/// markers; the first error aborts the whole list.
#[verifier::loop_isolation(false)]
pub fn parse_pairs(pairs: &Vec<ParseTree>) -> (r: Result<Vec<AstNode>, ParserError>)
    ensures
        r matches Ok(nodes) ==> build_pairs(view_trees(pairs@)) == Ok::<_, ParseErrKind>(
            view_nodes(nodes@),
        ),
        r matches Err(e) ==> build_pairs(view_trees(pairs@)) == Err::<Seq<Ast>, _>(e.kind()),
    decreases pairs@, 3int,
{
    let ghost ts = view_trees(pairs@);
    proof {
        lemma_view_trees(pairs@);
    }
    let mut ast_nodes: Vec<AstNode> = Vec::new();
    let mut i: usize = 0;
    while i < pairs.len()
        invariant
            0 <= i <= pairs@.len(),
            build_pairs(ts.subrange(0, i as int)) == Ok::<_, ParseErrKind>(
                view_nodes(ast_nodes@),
            ),
        decreases pairs@.len() - i,
    {
        proof {
            assert(decreases_to!(pairs@ => pairs@[i as int]));
            assert(ts.subrange(0, i as int + 1).drop_last() =~= ts.subrange(0, i as int));
            assert(ts.subrange(0, i as int + 1).last() == view_tree(pairs@[i as int]));
        }
        let node = match parse_pair(&pairs[i]) {
            Ok(node) => node,
            Err(e) => {
                proof {
                    lemma_build_pairs_err_prefix(ts, i as int + 1);
                }
                return Err(e);
            },
        };
        match node {
            AstNode::Empty => {},
            _ => {
                let ghost old_nodes = ast_nodes@;
                ast_nodes.push(node);
                proof {
                    lemma_view_nodes(ast_nodes@);
                    lemma_view_nodes(old_nodes);
                    assert(view_nodes(ast_nodes@) =~= view_nodes(old_nodes).push(
                        view_node(ast_nodes@[ast_nodes@.len() - 1]),
                    ));
                }
            },
        }
        i = i + 1;
    }
    proof {
        assert(ts.subrange(0, pairs@.len() as int) =~= ts);
    }
    Ok(ast_nodes)
}

/// Parses source text into the normalized AST nodes of its statements:
/// exactly the nodes the builders yield for the trees the grammar
/// relation assigns to the text, and an error exactly when that relation
/// rejects the text. Every returned node is canonical: value and
/// condition slots hold expression nodes throughout, and no
/// parser-internal empty marker remains. Every error is grammar-level:
/// the builders accept every tree the grammar engine emits, so no rule
/// mismatch can surface. Every returned node is also evaluable, so
/// lowering it to bytecode succeeds and runs a stack machine without
/// underflow.
pub fn parse(input: &str) -> (r: Result<Vec<AstNode>, ParserError>)
    ensures
        r matches Ok(nodes) ==> (crate::grammar::spec_parse_source(input@) matches Some(trees)
            && build_pairs(trees) == Ok::<Seq<Ast>, ParseErrKind>(view_nodes(nodes@))),
        r is Err <==> crate::grammar::spec_parse_source(input@) is None,
        r matches Ok(nodes) ==> forall|i: int|
            0 <= i < nodes@.len() ==> canonical(#[trigger] nodes@[i]@) && !(nodes@[i]@
                is Empty) && evaluable(nodes@[i]@),
        r matches Err(e) ==> e.kind() == ParseErrKind::Syntax,
{
    let trees = match crate::grammar::parse_source(input) {
        Ok(trees) => trees,
        Err(e) => {
            return Err(e);
        },
    };
    proof {
        lemma_build_tops_ok(view_trees(trees@));
    }
    let r = parse_pairs(&trees);
    proof {
        if r is Ok {
            let nodes = r->Ok_0;
            lemma_build_pairs_canonical(view_trees(trees@));
            lemma_build_tops_evaluable(view_trees(trees@));
            lemma_canonical_seq(view_nodes(nodes@));
            lemma_view_nodes(nodes@);
            assert forall|i: int| 0 <= i < nodes@.len() implies canonical(
                #[trigger] nodes@[i]@,
            ) && !(nodes@[i]@ is Empty) && evaluable(nodes@[i]@) by {
                assert(view_nodes(nodes@)[i] == view_node(nodes@[i]));
                assert(canonical(view_nodes(nodes@)[i]));
                assert(evaluable(view_nodes(nodes@)[i]));
            }
        }
    }
    r
}

} // verus!
