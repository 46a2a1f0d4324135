use vstd::prelude::*;

verus! {

/// A target program: its statements in order.
#[derive(PartialEq, Eq, Debug)]
pub struct Program {
    pub body: Vec<Node>,
}

#[derive(PartialEq, Eq, Debug)]
pub struct Identifier {
    pub name: String,
}

/// A call of `callee` on `arguments`.
#[derive(PartialEq, Eq, Debug)]
pub struct CallExpression {
    pub callee: Identifier,
    pub arguments: Vec<Node>,
}

/// A call that stands as a statement of its own.
#[derive(PartialEq, Eq, Debug)]
pub struct ExpressionStatement {
    pub expression: CallExpression,
}

#[derive(PartialEq, Eq, Debug)]
pub struct NumberLiteral {
    pub value: String,
}

#[derive(PartialEq, Eq, Debug)]
pub struct StringLiteral {
    pub value: String,
}

#[derive(PartialEq, Eq, Debug)]
pub enum Node {
    Program(Program),
    Identifier(Identifier),
    CallExpression(CallExpression),
    ExpressionStatement(ExpressionStatement),
    NumberLiteral(NumberLiteral),
    StringLiteral(StringLiteral),
}

/// The mathematical form of a `Node`. A call and a statement are given by
/// the callee's name and the trees of the arguments.
pub enum Tree {
    Program(Seq<Tree>),
    Identifier(Seq<char>),
    CallExpression(Seq<char>, Seq<Tree>),
    ExpressionStatement(Seq<char>, Seq<Tree>),
    NumberLiteral(Seq<char>),
    StringLiteral(Seq<char>),
}

pub open spec fn tree_of(n: Node) -> Tree
    decreases n,
{
    match n {
        Node::Program(p) => Tree::Program(trees_of(p.body@)),
        Node::Identifier(id) => Tree::Identifier(id.name@),
        Node::CallExpression(c) => Tree::CallExpression(c.callee.name@, trees_of(c.arguments@)),
        Node::ExpressionStatement(s) => Tree::ExpressionStatement(
            s.expression.callee.name@,
            trees_of(s.expression.arguments@),
        ),
        Node::NumberLiteral(l) => Tree::NumberLiteral(l.value@),
        Node::StringLiteral(l) => Tree::StringLiteral(l.value@),
    }
}

pub open spec fn trees_of(s: Seq<Node>) -> Seq<Tree>
    decreases s,
{
    if s.len() == 0 {
        Seq::empty()
    } else {
        trees_of(s.subrange(0, s.len() - 1)).push(tree_of(s[s.len() - 1]))
    }
}

impl View for Node {
    type V = Tree;

    open spec fn view(&self) -> Tree {
        tree_of(*self)
    }
}

impl View for Program {
    type V = Tree;

    open spec fn view(&self) -> Tree {
        Tree::Program(trees_of(self.body@))
    }
}

impl Node {
    pub fn new_program(body: Vec<Node>) -> (r: Node)
        ensures
            r@ == Tree::Program(trees_of(body@)),
    {
        Node::Program(Program { body })
    }

    pub fn new_identifier(name: String) -> (r: Node)
        ensures
            r@ == Tree::Identifier(name@),
    {
        Node::Identifier(Identifier { name })
    }

    pub fn new_call_expression(callee: Identifier, arguments: Vec<Node>) -> (r: Node)
        ensures
            r@ == Tree::CallExpression(callee.name@, trees_of(arguments@)),
    {
        Node::CallExpression(CallExpression { callee, arguments })
    }

    pub fn new_expression_statement(expression: CallExpression) -> (r: Node)
        ensures
            r@ == Tree::ExpressionStatement(
                expression.callee.name@,
                trees_of(expression.arguments@),
            ),
    {
        Node::ExpressionStatement(ExpressionStatement { expression })
    }

    pub fn new_number_literal(value: String) -> (r: Node)
        ensures
            r@ == Tree::NumberLiteral(value@),
    {
        Node::NumberLiteral(NumberLiteral { value })
    }

    pub fn new_string_literal(value: String) -> (r: Node)
        ensures
            r@ == Tree::StringLiteral(value@),
    {
        Node::StringLiteral(StringLiteral { value })
    }

    /// The program that this node holds; the node must be a program.
    pub fn unwrap_program(self) -> (r: Program)
        requires
            self is Program,
        ensures
            self == Node::Program(r),
            r@ == self@,
    {
        match self {
            Node::Program(p) => p,
            _ => {
                proof {
                    assert(false);
                }
                Program { body: Vec::new() }
            },
        }
    }
}

/// The trees of a run of nodes after one more node is pushed.
pub proof fn lemma_trees_of_push(s: Seq<Node>, n: Node)
    ensures
        trees_of(s.push(n)) == trees_of(s).push(tree_of(n)),
{
    assert(s.push(n).subrange(0, s.len() as int) =~= s);
}

/// Each element of `trees_of(s)` is the tree of the node at the same place.
pub proof fn lemma_trees_of_index(s: Seq<Node>)
    ensures
        trees_of(s).len() == s.len(),
        forall|i: int| 0 <= i < s.len() ==> #[trigger] trees_of(s)[i] == tree_of(s[i]),
    decreases s.len(),
{
    if s.len() > 0 {
        lemma_trees_of_index(s.subrange(0, s.len() - 1));
    }
}

} // verus!
