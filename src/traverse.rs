use vstd::prelude::*;
use crate::ast::{Node, Tree, trees_of};
use crate::ast::visit::{Event, Visitor};

verus! {

/// The events of a depth-first walk over `n`: enter `n`, walk its
/// children from left to right with `n` as their parent, leave `n`.
/// A program is entered and left without a parent.
pub open spec fn walk(n: Tree, parent: Option<Tree>) -> Seq<Event>
    decreases n,
{
    match n {
        Tree::Program(body) => seq![Event::Enter(n, None)] + walk_all(body, Some(n)) + seq![
            Event::Exit(n, None),
        ],
        Tree::CallExpression(_, params) => seq![Event::Enter(n, parent)] + walk_all(
            params,
            Some(n),
        ) + seq![Event::Exit(n, parent)],
        _ => seq![Event::Enter(n, parent), Event::Exit(n, parent)],
    }
}

/// The walks of the siblings `s`, one after the other.
pub open spec fn walk_all(s: Seq<Tree>, parent: Option<Tree>) -> Seq<Event>
    decreases s,
{
    if s.len() == 0 {
        Seq::empty()
    } else {
        walk_all(s.subrange(0, s.len() - 1), parent) + walk(s[s.len() - 1], parent)
    }
}

/// The state of a visitor of type `V` after it has handled `evs` in order,
/// starting from `state`.
pub open spec fn replay<V: Visitor>(state: V::V, evs: Seq<Event>) -> V::V
    decreases evs.len(),
{
    if evs.len() == 0 {
        state
    } else {
        V::visited(replay::<V>(state, evs.subrange(0, evs.len() - 1)), evs[evs.len() - 1])
    }
}

pub open spec fn parent_tree(parent: Option<&Node>) -> Option<Tree> {
    match parent {
        Some(p) => Some(p@),
        None => None,
    }
}

/// Handling two runs of events one after the other is handling their concatenation.
pub proof fn lemma_replay_append<V: Visitor>(state: V::V, a: Seq<Event>, b: Seq<Event>)
    ensures
        replay::<V>(state, a + b) == replay::<V>(replay::<V>(state, a), b),
    decreases b.len(),
{
    if b.len() > 0 {
        let b0 = b.subrange(0, b.len() - 1);
        lemma_replay_append::<V>(state, a, b0);
        assert((a + b).subrange(0, (a + b).len() - 1) =~= a + b0);
    }
}

/// Handling a single event is one step of `visited`.
pub proof fn lemma_replay_one<V: Visitor>(state: V::V, e: Event)
    ensures
        replay::<V>(state, seq![e]) == V::visited(state, e),
{
    assert(seq![e].subrange(0, 0) =~= Seq::<Event>::empty());
    reveal_with_fuel(replay, 2);
}

proof fn lemma_replay_leaf<V: Visitor>(state: V::V, n: Tree, p: Option<Tree>)
    ensures
        replay::<V>(state, seq![Event::Enter(n, p), Event::Exit(n, p)]) == V::visited(
            V::visited(state, Event::Enter(n, p)),
            Event::Exit(n, p),
        ),
{
    let a = seq![Event::Enter(n, p)];
    let b = seq![Event::Exit(n, p)];
    assert(seq![Event::Enter(n, p), Event::Exit(n, p)] =~= a + b);
    lemma_replay_append::<V>(state, a, b);
    lemma_replay_one::<V>(state, Event::Enter(n, p));
    lemma_replay_one::<V>(replay::<V>(state, a), Event::Exit(n, p));
}

/// Walks the tree below `ast`, a program, calling the hooks of `visitor`
/// in document order.
pub fn traverser<V: Visitor>(ast: &Node, visitor: &mut V)
    requires
        ast is Program,
    ensures
        final(visitor)@ == replay::<V>(old(visitor)@, walk(ast@, None)),
{
    traverse_node(visitor, ast, None);
}

fn traverse_node<V: Visitor>(visitor: &mut V, node: &Node, parent: Option<&Node>)
    requires
        node is Program || parent is Some,
    ensures
        final(visitor)@ == replay::<V>(old(visitor)@, walk(node@, parent_tree(parent))),
    decreases node,
{
    let ghost v0 = visitor@;
    let ghost p = parent_tree(parent);
    match node {
        Node::Program(prog) => {
            visitor.enter_program(prog);
            let ghost v1 = visitor@;
            traverse_all(visitor, &prog.body, node);
            let ghost v2 = visitor@;
            visitor.exit_program(prog);
            proof {
                let p0: Option<Tree> = None;
                let a = seq![Event::Enter(node@, None)];
                let b = walk_all(trees_of(prog.body@), Some(node@));
                let c = seq![Event::Exit(node@, None)];
                lemma_replay_append::<V>(v0, a, b);
                lemma_replay_append::<V>(v0, a + b, c);
                lemma_replay_one::<V>(v0, Event::Enter(node@, p0));
                lemma_replay_one::<V>(v2, Event::Exit(node@, p0));
            }
        },
        Node::CallExpression(call) => {
            let up = parent.unwrap();
            visitor.enter_call_expression(call, up);
            let ghost v1 = visitor@;
            traverse_all(visitor, &call.params, node);
            let ghost v2 = visitor@;
            visitor.exit_call_expression(call, up);
            proof {
                let p0 = p;
                let a = seq![Event::Enter(node@, p)];
                let b = walk_all(trees_of(call.params@), Some(node@));
                let c = seq![Event::Exit(node@, p)];
                lemma_replay_append::<V>(v0, a, b);
                lemma_replay_append::<V>(v0, a + b, c);
                lemma_replay_one::<V>(v0, Event::Enter(node@, p0));
                lemma_replay_one::<V>(v2, Event::Exit(node@, p0));
            }
        },
        Node::NumberLiteral(lit) => {
            let up = parent.unwrap();
            visitor.enter_number_literal(lit, up);
            visitor.exit_number_literal(lit, up);
            proof {
                lemma_replay_leaf::<V>(v0, node@, p);
            }
        },
        Node::StringLiteral(lit) => {
            let up = parent.unwrap();
            visitor.enter_string_literal(lit, up);
            visitor.exit_string_literal(lit, up);
            proof {
                lemma_replay_leaf::<V>(v0, node@, p);
            }
        },
    }
}

fn traverse_all<V: Visitor>(visitor: &mut V, nodes: &Vec<Node>, parent: &Node)
    ensures
        final(visitor)@ == replay::<V>(old(visitor)@, walk_all(trees_of(nodes@), Some(parent@))),
    decreases nodes,
{
    let ghost v0 = visitor@;
    let mut i: usize = 0;
    while i < nodes.len()
        invariant
            i <= nodes.len(),
            visitor@ == replay::<V>(
                v0,
                walk_all(trees_of(nodes@.subrange(0, i as int)), Some(parent@)),
            ),
        decreases nodes.len() - i,
    {
        let ghost before = visitor@;
        proof {
            assert(decreases_to!(nodes => nodes@[i as int]));
        }
        traverse_node(visitor, &nodes[i], Some(parent));
        proof {
            let s0 = nodes@.subrange(0, i as int);
            let s1 = nodes@.subrange(0, i + 1);
            assert(s1.subrange(0, s1.len() - 1) =~= s0);
            let t0 = trees_of(s0);
            let t1 = trees_of(s1);
            assert(t1.subrange(0, t1.len() - 1) =~= t0);
            let done = walk_all(t0, Some(parent@));
            lemma_replay_append::<V>(v0, done, walk(nodes@[i as int]@, Some(parent@)));
        }
        i = i + 1;
    }
    assert(nodes@.subrange(0, nodes.len() as int) =~= nodes@);
}

} // verus!
