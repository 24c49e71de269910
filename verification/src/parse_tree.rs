//! The concrete parse tree: the fixed rule vocabulary shared with the
//! grammar engine, and rule-tagged nodes carrying matched text.
use vstd::prelude::*;

verus! {

broadcast use vstd::std_specs::vec::group_vec_axioms;

/// The fixed rule vocabulary: the contract between the grammar engine and
/// the AST builders.
#[derive(Debug, Clone, Copy, PartialEq, Eq, Structural)]
pub enum Rule {
    Program,
    Statement,
    Expr,
    Int,
    Float,
    StringLit,
    Boolean,
    Ident,
    Constant,
    AssignStatement,
    SetValueStatement,
    ReturnBlockStatement,
    IfStatement,
    ElifStatement,
    ElseStatement,
    Block,
    Add,
    Subtract,
    Multiply,
    Divide,
    Modulo,
    Equals,
    NotEquals,
    GreaterThan,
    GreaterThanOrEqualTo,
    LessThan,
    LessThanOrEqualTo,
    Eoi,
    Comment,
}

/// A node of the concrete parse tree: a rule tag, the matched source
/// text, and the sub-matches in source order.
#[derive(Debug, PartialEq, Eq)]
pub struct ParseTree {
    pub rule: Rule,
    pub text: String,
    pub children: Vec<ParseTree>,
}

/// The mathematical model of a [`ParseTree`].
#[verifier::ext_equal]
pub ghost struct PTree {
    pub rule: Rule,
    pub text: Seq<char>,
    pub children: Seq<PTree>,
}

pub open spec fn view_tree(t: ParseTree) -> PTree
    decreases t,
{
    PTree { rule: t.rule, text: t.text@, children: view_trees(t.children@) }
}

pub open spec fn view_trees(s: Seq<ParseTree>) -> Seq<PTree>
    decreases s,
{
    if s.len() == 0 {
        Seq::empty()
    } else {
        view_trees(s.drop_last()).push(view_tree(s.last()))
    }
}

impl View for ParseTree {
    type V = PTree;

    open spec fn view(&self) -> PTree {
        view_tree(*self)
    }
}

/// The view of a tree list is the pointwise view of its elements.
pub broadcast proof fn lemma_view_trees(s: Seq<ParseTree>)
    ensures
        (#[trigger] view_trees(s)).len() == s.len(),
        forall|i: int| 0 <= i < s.len() ==> view_trees(s)[i] == view_tree(s[i]),
    decreases s.len(),
{
    if s.len() > 0 {
        lemma_view_trees(s.drop_last());
    }
}

} // verus!
