use vstd::prelude::*;

pub mod visit;

verus! {

/// A source program, the root of the tree that the parser builds.
#[derive(PartialEq, Eq, Debug)]
pub struct Program {
    pub body: Vec<Node>,
}

/// A call `(name params...)`.
#[derive(PartialEq, Eq, Debug)]
pub struct CallExpression {
    pub name: String,
    pub params: Vec<Node>,
}

/// A number, kept as the digits that spelled it.
#[derive(PartialEq, Eq, Debug)]
pub struct NumberLiteral {
    pub value: String,
}

/// A quoted string, kept without its quotes.
#[derive(PartialEq, Eq, Debug)]
pub struct StringLiteral {
    pub value: String,
}

#[derive(PartialEq, Eq, Debug)]
pub enum Node {
    Program(Program),
    CallExpression(CallExpression),
    NumberLiteral(NumberLiteral),
    StringLiteral(StringLiteral),
}

/// The mathematical form of a `Node`.
pub enum Tree {
    Program(Seq<Tree>),
    CallExpression(Seq<char>, Seq<Tree>),
    NumberLiteral(Seq<char>),
    StringLiteral(Seq<char>),
}

pub open spec fn tree_of(n: Node) -> Tree
    decreases n,
{
    match n {
        Node::Program(p) => Tree::Program(trees_of(p.body@)),
        Node::CallExpression(c) => Tree::CallExpression(c.name@, trees_of(c.params@)),
        Node::NumberLiteral(l) => Tree::NumberLiteral(l.value@),
        Node::StringLiteral(l) => Tree::StringLiteral(l.value@),
    }
}

pub open spec fn trees_of(s: Seq<Node>) -> Seq<Tree>
    decreases s,
{
    if s.len() == 0 {
        Seq::empty()
    } else {
        trees_of(s.subrange(0, s.len() - 1)).push(tree_of(s[s.len() - 1]))
    }
}

impl View for Node {
    type V = Tree;

    open spec fn view(&self) -> Tree {
        tree_of(*self)
    }
}

impl Node {
    pub fn new_program(body: Vec<Node>) -> (r: Node)
        ensures
            r@ == Tree::Program(trees_of(body@)),
    {
        Node::Program(Program { body })
    }

    pub fn new_call_expression(name: String, params: Vec<Node>) -> (r: Node)
        ensures
            r@ == Tree::CallExpression(name@, trees_of(params@)),
    {
        Node::CallExpression(CallExpression { name, params })
    }

    pub fn new_number_literal(value: String) -> (r: Node)
        ensures
            r@ == Tree::NumberLiteral(value@),
    {
        Node::NumberLiteral(NumberLiteral { value })
    }

    pub fn new_string_literal(value: String) -> (r: Node)
        ensures
            r@ == Tree::StringLiteral(value@),
    {
        Node::StringLiteral(StringLiteral { value })
    }
}

/// The trees of a run of nodes after one more node is pushed.
pub proof fn lemma_trees_of_push(s: Seq<Node>, n: Node)
    ensures
        trees_of(s.push(n)) == trees_of(s).push(tree_of(n)),
{
    assert(s.push(n).subrange(0, s.len() as int) =~= s);
}

/// A run of nodes has as many trees as nodes.
pub proof fn lemma_trees_of_len(s: Seq<Node>)
    ensures
        trees_of(s).len() == s.len(),
    decreases s.len(),
{
    if s.len() > 0 {
        lemma_trees_of_len(s.subrange(0, s.len() - 1));
    }
}

} // verus!
