use vstd::prelude::*;
use super::{CallExpression, Node, NumberLiteral, Program, StringLiteral, Tree, trees_of};

verus! {

/// One step of a walk over a tree: a node is entered or left, with the
/// tree of its parent where it has one.
pub enum Event {
    Enter(Tree, Option<Tree>),
    Exit(Tree, Option<Tree>),
}

pub open spec fn program_tree(p: Program) -> Tree {
    Tree::Program(trees_of(p.body@))
}

pub open spec fn call_tree(c: CallExpression) -> Tree {
    Tree::CallExpression(c.name@, trees_of(c.params@))
}

pub open spec fn number_tree(l: NumberLiteral) -> Tree {
    Tree::NumberLiteral(l.value@)
}

pub open spec fn string_tree(l: StringLiteral) -> Tree {
    Tree::StringLiteral(l.value@)
}

/// Hooks that a walk calls as it enters and leaves each node.
///
/// A visitor describes itself by `visited`: the state it is in after it
/// has handled one event in a given state. Each hook takes the visitor
/// from its state to the state that `visited` gives for that hook's event.
pub trait Visitor: View + Sized {
    spec fn visited(state: Self::V, e: Event) -> Self::V;

    fn enter_program(&mut self, node: &Program)
        ensures
            final(self)@ == Self::visited(old(self)@, Event::Enter(program_tree(*node), None)),
    ;

    fn exit_program(&mut self, node: &Program)
        ensures
            final(self)@ == Self::visited(old(self)@, Event::Exit(program_tree(*node), None)),
    ;

    fn enter_call_expression(&mut self, node: &CallExpression, parent: &Node)
        ensures
            final(self)@ == Self::visited(
                old(self)@,
                Event::Enter(call_tree(*node), Some(parent@)),
            ),
    ;

    fn exit_call_expression(&mut self, node: &CallExpression, parent: &Node)
        ensures
            final(self)@ == Self::visited(
                old(self)@,
                Event::Exit(call_tree(*node), Some(parent@)),
            ),
    ;

    fn enter_number_literal(&mut self, node: &NumberLiteral, parent: &Node)
        ensures
            final(self)@ == Self::visited(
                old(self)@,
                Event::Enter(number_tree(*node), Some(parent@)),
            ),
    ;

    fn exit_number_literal(&mut self, node: &NumberLiteral, parent: &Node)
        ensures
            final(self)@ == Self::visited(
                old(self)@,
                Event::Exit(number_tree(*node), Some(parent@)),
            ),
    ;

    fn enter_string_literal(&mut self, node: &StringLiteral, parent: &Node)
        ensures
            final(self)@ == Self::visited(
                old(self)@,
                Event::Enter(string_tree(*node), Some(parent@)),
            ),
    ;

    fn exit_string_literal(&mut self, node: &StringLiteral, parent: &Node)
        ensures
            final(self)@ == Self::visited(
                old(self)@,
                Event::Exit(string_tree(*node), Some(parent@)),
            ),
    ;
}

} // verus!
