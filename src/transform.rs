use vstd::prelude::*;
use crate::ast;
use crate::ast::visit::{Event, Visitor};
use crate::ast_new;
use crate::ast_new::{trees_of, tree_of, lemma_trees_of_index, lemma_trees_of_push};
use crate::traverse::{replay, traverser, walk, walk_all, lemma_replay_append, lemma_replay_one};

verus! {

/// Why a stack of frames could not be put back together into a program.
#[derive(PartialEq, Eq, Structural, Debug, Clone, Copy)]
pub enum ReassemblyError {
    /// The stack holds a node that never stands on it (a bare identifier).
    UnexpectedNode,
    /// A node asks for more children than have been rebuilt.
    MissingChildren,
    /// More than one node, or none, was left once the stack was empty.
    NotOneNode,
    /// The one node left is not a program.
    NotProgram,
}

/// A target node on the transform's stack, before its children are
/// attached, with the number of children that it takes.
#[derive(PartialEq, Eq, Debug)]
pub struct Frame {
    pub node: ast_new::Node,
    pub children: usize,
}

pub open spec fn frames_view(s: Seq<Frame>) -> Seq<(ast_new::Tree, int)> {
    s.map_values(|f: Frame| (f.node@, f.children as int))
}

/// Whether a node whose parent is `parent` sits inside a call.
pub open spec fn under_call(parent: Option<ast::Tree>) -> bool {
    match parent {
        Some(ast::Tree::CallExpression(_, _)) => true,
        _ => false,
    }
}

/// The target node that stands for `n` before its children are attached:
/// a call inside a call stays a call, any other call becomes a statement.
pub open spec fn shell(n: ast::Tree, parent: Option<ast::Tree>) -> ast_new::Tree {
    match n {
        ast::Tree::Program(_) => ast_new::Tree::Program(Seq::empty()),
        ast::Tree::CallExpression(name, _) => if under_call(parent) {
            ast_new::Tree::CallExpression(name, Seq::empty())
        } else {
            ast_new::Tree::ExpressionStatement(name, Seq::empty())
        },
        ast::Tree::NumberLiteral(v) => ast_new::Tree::NumberLiteral(v),
        ast::Tree::StringLiteral(v) => ast_new::Tree::StringLiteral(v),
    }
}

pub open spec fn child_count(n: ast::Tree) -> int {
    match n {
        ast::Tree::Program(body) => body.len() as int,
        ast::Tree::CallExpression(_, params) => params.len() as int,
        _ => 0,
    }
}

/// The frames of `n` and of every node below it, in document order.
pub open spec fn frames(n: ast::Tree, parent: Option<ast::Tree>) -> Seq<(ast_new::Tree, int)>
    decreases n,
{
    match n {
        ast::Tree::Program(body) => seq![(shell(n, parent), child_count(n))] + frames_all(
            body,
            Some(n),
        ),
        ast::Tree::CallExpression(_, params) => seq![(shell(n, parent), child_count(n))]
            + frames_all(params, Some(n)),
        _ => seq![(shell(n, parent), 0int)],
    }
}

pub open spec fn frames_all(s: Seq<ast::Tree>, parent: Option<ast::Tree>) -> Seq<
    (ast_new::Tree, int),
>
    decreases s,
{
    if s.len() == 0 {
        Seq::empty()
    } else {
        frames_all(s.subrange(0, s.len() - 1), parent) + frames(s[s.len() - 1], parent)
    }
}

/// The target tree that mirrors `n`: a call inside a call stays a call,
/// any other call becomes a statement, literals are copied, and every list
/// of children keeps its order.
pub open spec fn convert(n: ast::Tree, in_call: bool) -> ast_new::Tree
    decreases n,
{
    match n {
        ast::Tree::Program(body) => ast_new::Tree::Program(convert_all(body, false)),
        ast::Tree::CallExpression(name, params) => if in_call {
            ast_new::Tree::CallExpression(name, convert_all(params, true))
        } else {
            ast_new::Tree::ExpressionStatement(name, convert_all(params, true))
        },
        ast::Tree::NumberLiteral(v) => ast_new::Tree::NumberLiteral(v),
        ast::Tree::StringLiteral(v) => ast_new::Tree::StringLiteral(v),
    }
}

pub open spec fn convert_all(s: Seq<ast::Tree>, in_call: bool) -> Seq<ast_new::Tree>
    decreases s,
{
    if s.len() == 0 {
        Seq::empty()
    } else {
        convert_all(s.subrange(0, s.len() - 1), in_call).push(convert(s[s.len() - 1], in_call))
    }
}

pub proof fn lemma_convert_all_index(s: Seq<ast::Tree>, in_call: bool)
    ensures
        convert_all(s, in_call).len() == s.len(),
        forall|i: int|
            0 <= i < s.len() ==> #[trigger] convert_all(s, in_call)[i] == convert(s[i], in_call),
    decreases s.len(),
{
    if s.len() > 0 {
        lemma_convert_all_index(s.subrange(0, s.len() - 1), in_call);
    }
}

/// `top` with `kids` as its children.
pub open spec fn attach(top: ast_new::Tree, kids: Seq<ast_new::Tree>) -> ast_new::Tree {
    match top {
        ast_new::Tree::ExpressionStatement(name, _) => ast_new::Tree::ExpressionStatement(
            name,
            kids,
        ),
        ast_new::Tree::CallExpression(name, _) => ast_new::Tree::CallExpression(name, kids),
        ast_new::Tree::Program(_) => ast_new::Tree::Program(kids),
        _ => top,
    }
}

/// One step of the drain pass on the frame `f`. A literal joins
/// `collected`. Any other node takes the last `f.1` collected trees as its
/// children; they were rebuilt from right to left, so they are reversed.
/// The node then stands in their place.
pub open spec fn drain_step(f: (ast_new::Tree, int), collected: Seq<ast_new::Tree>) -> Result<
    Seq<ast_new::Tree>,
    ReassemblyError,
> {
    let (top, k) = f;
    let n = collected.len() as int;
    match top {
        ast_new::Tree::NumberLiteral(_) => Ok(collected.push(top)),
        ast_new::Tree::StringLiteral(_) => Ok(collected.push(top)),
        ast_new::Tree::Identifier(_) => Err(ReassemblyError::UnexpectedNode),
        _ => if 0 <= k <= n {
            Ok(collected.subrange(0, n - k).push(attach(top, collected.subrange(n - k, n).reverse())))
        } else {
            Err(ReassemblyError::MissingChildren)
        },
    }
}

/// The drain pass: pop the frames of `stack` from its top, one step each.
pub open spec fn drain(stack: Seq<(ast_new::Tree, int)>, collected: Seq<ast_new::Tree>) -> Result<
    Seq<ast_new::Tree>,
    ReassemblyError,
>
    decreases stack.len(),
{
    if stack.len() == 0 {
        Ok(collected)
    } else {
        match drain_step(stack[stack.len() - 1], collected) {
            Ok(c) => drain(stack.subrange(0, stack.len() - 1), c),
            Err(e) => Err(e),
        }
    }
}

/// The program that draining `stack` leaves, or why there is none.
pub open spec fn reassembly(stack: Seq<(ast_new::Tree, int)>) -> Result<
    ast_new::Tree,
    ReassemblyError,
> {
    match drain(stack, Seq::empty()) {
        Err(e) => Err(e),
        Ok(c) => if c.len() != 1 {
            Err(ReassemblyError::NotOneNode)
        } else if c[0] is Program {
            Ok(c[0])
        } else {
            Err(ReassemblyError::NotProgram)
        },
    }
}

/// The visitor that records one frame for each node it enters.
struct State {
    stack: Vec<Frame>,
}

impl View for State {
    type V = Seq<(ast_new::Tree, int)>;

    closed spec fn view(&self) -> Seq<(ast_new::Tree, int)> {
        frames_view(self.stack@)
    }
}

proof fn lemma_frames_view_push(s: Seq<Frame>, f: Frame)
    ensures
        frames_view(s.push(f)) == frames_view(s).push((f.node@, f.children as int)),
{
    assert(frames_view(s.push(f)) =~= frames_view(s).push((f.node@, f.children as int)));
}

impl Visitor for State {
    open spec fn visited(state: Seq<(ast_new::Tree, int)>, e: Event) -> Seq<(ast_new::Tree, int)> {
        match e {
            Event::Enter(n, parent) => state.push((shell(n, parent), child_count(n))),
            Event::Exit(_, _) => state,
        }
    }

    fn enter_program(&mut self, node: &ast::Program) {
        let f = Frame { node: ast_new::Node::new_program(Vec::new()), children: node.body.len() };
        proof {
            lemma_frames_view_push(self.stack@, f);
            ast::lemma_trees_of_len(node.body@);
            assert(trees_of(Seq::<ast_new::Node>::empty()) =~= Seq::empty());
        }
        self.stack.push(f);
    }

    fn exit_program(&mut self, _node: &ast::Program) {
    }

    fn enter_call_expression(&mut self, node: &ast::CallExpression, parent: &ast::Node) {
        let id = ast_new::Identifier { name: node.name.clone() };
        let exp = ast_new::CallExpression { callee: id, arguments: Vec::new() };
        let n = if let ast::Node::CallExpression(_) = parent {
            ast_new::Node::CallExpression(exp)
        } else {
            ast_new::Node::new_expression_statement(exp)
        };
        let f = Frame { node: n, children: node.params.len() };
        proof {
            lemma_frames_view_push(self.stack@, f);
            ast::lemma_trees_of_len(node.params@);
            assert(trees_of(Seq::<ast_new::Node>::empty()) =~= Seq::empty());
        }
        self.stack.push(f);
    }

    fn exit_call_expression(&mut self, _node: &ast::CallExpression, _parent: &ast::Node) {
    }

    fn enter_number_literal(&mut self, node: &ast::NumberLiteral, _parent: &ast::Node) {
        let f = Frame { node: ast_new::Node::new_number_literal(node.value.clone()), children: 0 };
        proof {
            lemma_frames_view_push(self.stack@, f);
        }
        self.stack.push(f);
    }

    fn exit_number_literal(&mut self, _node: &ast::NumberLiteral, _parent: &ast::Node) {
    }

    fn enter_string_literal(&mut self, node: &ast::StringLiteral, _parent: &ast::Node) {
        let f = Frame { node: ast_new::Node::new_string_literal(node.value.clone()), children: 0 };
        proof {
            lemma_frames_view_push(self.stack@, f);
        }
        self.stack.push(f);
    }

    fn exit_string_literal(&mut self, _node: &ast::StringLiteral, _parent: &ast::Node) {
    }
}

/// Recording the walk of `n` pushes the frames of `n`, in document order.
proof fn lemma_replay_walk(st: Seq<(ast_new::Tree, int)>, n: ast::Tree, p: Option<ast::Tree>)
    ensures
        replay::<State>(st, walk(n, p)) == st + frames(n, p),
    decreases n,
{
    match n {
        ast::Tree::Program(body) => {
            lemma_replay_node(st, n, p, None, body);
        },
        ast::Tree::CallExpression(_, params) => {
            lemma_replay_node(st, n, p, p, params);
        },
        _ => {
            let a = seq![Event::Enter(n, p)];
            let b = seq![Event::Exit(n, p)];
            let f = (shell(n, p), child_count(n));
            assert(walk(n, p) =~= a + b);
            lemma_replay_append::<State>(st, a, b);
            lemma_replay_one::<State>(st, Event::Enter(n, p));
            lemma_replay_one::<State>(st.push(f), Event::Exit(n, p));
            assert(st + frames(n, p) =~= st.push(f));
        },
    }
}

proof fn lemma_replay_node(
    st: Seq<(ast_new::Tree, int)>,
    n: ast::Tree,
    p: Option<ast::Tree>,
    q: Option<ast::Tree>,
    children: Seq<ast::Tree>,
)
    requires
        walk(n, p) == seq![Event::Enter(n, q)] + walk_all(children, Some(n)) + seq![
            Event::Exit(n, q),
        ],
        frames(n, p) == seq![(shell(n, p), child_count(n))] + frames_all(children, Some(n)),
        shell(n, q) == shell(n, p),
        decreases_to!(n => children),
    ensures
        replay::<State>(st, walk(n, p)) == st + frames(n, p),
    decreases n, 0int,
{
    let a = seq![Event::Enter(n, q)];
    let b = walk_all(children, Some(n));
    let c = seq![Event::Exit(n, q)];
    let f = (shell(n, p), child_count(n));
    lemma_replay_append::<State>(st, a, b);
    lemma_replay_append::<State>(st, a + b, c);
    lemma_replay_one::<State>(st, Event::Enter(n, q));
    lemma_replay_all(st.push(f), children, Some(n));
    lemma_replay_one::<State>(replay::<State>(st, a + b), Event::Exit(n, q));
    assert(st + frames(n, p) =~= st.push(f) + frames_all(children, Some(n)));
}

proof fn lemma_replay_all(st: Seq<(ast_new::Tree, int)>, s: Seq<ast::Tree>, p: Option<ast::Tree>)
    ensures
        replay::<State>(st, walk_all(s, p)) == st + frames_all(s, p),
    decreases s,
{
    if s.len() == 0 {
        assert(st + frames_all(s, p) =~= st);
    } else {
        let s0 = s.subrange(0, s.len() - 1);
        let last = s[s.len() - 1];
        lemma_replay_append::<State>(st, walk_all(s0, p), walk(last, p));
        lemma_replay_all(st, s0, p);
        lemma_replay_walk(st + frames_all(s0, p), last, p);
        assert(st + frames_all(s, p) =~= st + frames_all(s0, p) + frames(last, p));
    }
}

/// Draining a stack is draining its top part, then the rest.
proof fn lemma_drain_split(
    s: Seq<(ast_new::Tree, int)>,
    t: Seq<(ast_new::Tree, int)>,
    c: Seq<ast_new::Tree>,
)
    ensures
        drain(s + t, c) == match drain(t, c) {
            Ok(c2) => drain(s, c2),
            Err(e) => Err(e),
        },
    decreases t.len(),
{
    if t.len() == 0 {
        assert(s + t =~= s);
    } else {
        let t0 = t.subrange(0, t.len() - 1);
        assert((s + t).subrange(0, (s + t).len() - 1) =~= s + t0);
        assert((s + t)[(s + t).len() - 1] == t[t.len() - 1]);
        if let Ok(c2) = drain_step(t[t.len() - 1], c) {
            lemma_drain_split(s, t0, c2);
        }
    }
}

proof fn lemma_drain_one(f: (ast_new::Tree, int), c: Seq<ast_new::Tree>)
    ensures
        drain(seq![f], c) == drain_step(f, c),
{
    assert(seq![f].subrange(0, 0) =~= Seq::<(ast_new::Tree, int)>::empty());
    reveal_with_fuel(drain, 2);
}

/// Draining the frames of a tree on top of what was collected adds the
/// tree's mirror to it.
proof fn lemma_drain_frames(n: ast::Tree, p: Option<ast::Tree>, c: Seq<ast_new::Tree>)
    ensures
        drain(frames(n, p), c) == Ok::<Seq<ast_new::Tree>, ReassemblyError>(
            c.push(convert(n, under_call(p))),
        ),
    decreases n,
{
    match n {
        ast::Tree::Program(body) => {
            lemma_drain_node(n, p, c, body, false);
        },
        ast::Tree::CallExpression(_, params) => {
            lemma_drain_node(n, p, c, params, true);
        },
        _ => {
            lemma_drain_one((shell(n, p), 0int), c);
        },
    }
}

proof fn lemma_drain_node(
    n: ast::Tree,
    p: Option<ast::Tree>,
    c: Seq<ast_new::Tree>,
    children: Seq<ast::Tree>,
    k: bool,
)
    requires
        frames(n, p) == seq![(shell(n, p), child_count(n))] + frames_all(children, Some(n)),
        child_count(n) == children.len(),
        under_call(Some(n)) == k,
        !(shell(n, p) is NumberLiteral),
        !(shell(n, p) is StringLiteral),
        !(shell(n, p) is Identifier),
        attach(shell(n, p), convert_all(children, k)) == convert(n, under_call(p)),
        decreases_to!(n => children),
    ensures
        drain(frames(n, p), c) == Ok::<Seq<ast_new::Tree>, ReassemblyError>(
            c.push(convert(n, under_call(p))),
        ),
    decreases n, 0int,
{
    let f = (shell(n, p), child_count(n));
    lemma_drain_split(seq![f], frames_all(children, Some(n)), c);
    lemma_drain_frames_all(children, Some(n), c);
    let ck = convert_all(children, k);
    let c2 = c + ck.reverse();
    lemma_convert_all_index(children, k);
    lemma_drain_one(f, c2);
    let m = c2.len() as int;
    assert(c2.subrange(0, m - children.len()) =~= c);
    assert(c2.subrange(m - children.len(), m) =~= ck.reverse());
    assert(ck.reverse().reverse() =~= ck);
}

proof fn lemma_drain_frames_all(s: Seq<ast::Tree>, p: Option<ast::Tree>, c: Seq<ast_new::Tree>)
    ensures
        drain(frames_all(s, p), c) == Ok::<Seq<ast_new::Tree>, ReassemblyError>(
            c + convert_all(s, under_call(p)).reverse(),
        ),
    decreases s,
{
    let k = under_call(p);
    if s.len() == 0 {
        assert(c + convert_all(s, k).reverse() =~= c);
    } else {
        let s0 = s.subrange(0, s.len() - 1);
        let last = s[s.len() - 1];
        lemma_drain_split(frames_all(s0, p), frames(last, p), c);
        lemma_drain_frames(last, p, c);
        lemma_drain_frames_all(s0, p, c.push(convert(last, k)));
        lemma_convert_all_index(s0, k);
        lemma_convert_all_index(s, k);
        assert(c + convert_all(s, k).reverse() =~= c.push(convert(last, k)) + convert_all(
            s0,
            k,
        ).reverse());
    }
}

/// The frames of a program reassemble into its mirror.
proof fn lemma_reassembly_mirror(n: ast::Tree)
    requires
        n is Program,
    ensures
        reassembly(frames(n, None)) == Ok::<ast_new::Tree, ReassemblyError>(convert(n, false)),
{
    lemma_drain_frames(n, None, Seq::empty());
    assert(Seq::<ast_new::Tree>::empty().push(convert(n, false))[0] == convert(n, false));
}

/// The trees of a part of a run of nodes, reversed, are that part of the
/// trees, reversed.
proof fn lemma_trees_of_tail_reversed(s: Seq<ast_new::Node>, lo: int)
    requires
        0 <= lo <= s.len(),
    ensures
        trees_of(s.subrange(lo, s.len() as int).reverse()) == trees_of(s).subrange(
            lo,
            s.len() as int,
        ).reverse(),
        trees_of(s.subrange(0, lo)) == trees_of(s).subrange(0, lo),
{
    let r = s.subrange(lo, s.len() as int).reverse();
    lemma_trees_of_index(s);
    lemma_trees_of_index(r);
    lemma_trees_of_index(s.subrange(0, lo));
    assert(trees_of(r) =~= trees_of(s).subrange(lo, s.len() as int).reverse());
    assert(trees_of(s.subrange(0, lo)) =~= trees_of(s).subrange(0, lo));
}

/// Takes the last `k` nodes off `collected`. The last one comes first:
/// the nodes were rebuilt from right to left, so this restores their order.
fn take_children(collected: &mut Vec<ast_new::Node>, k: usize) -> (kids: Option<Vec<ast_new::Node>>)
    ensures
        k > old(collected)@.len() ==> kids is None && final(collected)@ == old(collected)@,
        k <= old(collected)@.len() ==> ({
            let n = old(collected)@.len() as int;
            &&& kids is Some
            &&& kids->0@ == old(collected)@.subrange(n - k, n).reverse()
            &&& final(collected)@ == old(collected)@.subrange(0, n - k)
        }),
{
    if k > collected.len() {
        return None;
    }
    let ghost c0 = collected@;
    let ghost n = c0.len() as int;
    let mut kids: Vec<ast_new::Node> = Vec::new();
    let mut i: usize = 0;
    while i < k
        invariant
            k <= n,
            n == c0.len(),
            i <= k,
            collected@ == c0.subrange(0, n - i),
            kids@ == c0.subrange(n - i, n).reverse(),
        decreases k - i,
    {
        let x = collected.pop().unwrap();
        kids.push(x);
        i = i + 1;
        proof {
            assert(kids@ =~= c0.subrange(n - i, n).reverse());
        }
    }
    Some(kids)
}

/// A reassembled program, or why there is none, over trees.
pub open spec fn result_tree(r: Result<ast_new::Program, ReassemblyError>) -> Result<
    ast_new::Tree,
    ReassemblyError,
> {
    match r {
        Ok(p) => Ok(p@),
        Err(e) => Err(e),
    }
}

/// Puts a program back together from a stack of frames by the drain pass.
pub fn reassemble(stack: Vec<Frame>) -> (r: Result<ast_new::Program, ReassemblyError>)
    ensures
        reassembly(frames_view(stack@)) == result_tree(r),
{
    let ghost s0 = frames_view(stack@);
    let mut pending = stack;
    let mut collected: Vec<ast_new::Node> = Vec::new();
    proof {
        assert(trees_of(collected@) =~= Seq::empty());
    }
    while pending.len() > 0
        invariant
            s0 == frames_view(stack@),
            drain(frames_view(pending@), trees_of(collected@)) == drain(s0, Seq::empty()),
        decreases pending.len(),
    {
        let ghost before = pending@;
        let ghost c0 = trees_of(collected@);
        let frame = pending.pop().unwrap();
        let ghost step = drain_step((frame.node@, frame.children as int), c0);
        proof {
            let fb = frames_view(before);
            assert(fb.subrange(0, fb.len() - 1) =~= frames_view(pending@));
            assert(fb[fb.len() - 1] == (frame.node@, frame.children as int));
            lemma_trees_of_index(collected@);
        }
        let k = frame.children;
        let ghost n = collected@.len() as int;
        match frame.node {
            ast_new::Node::NumberLiteral(l) => {
                let x = ast_new::Node::NumberLiteral(l);
                proof {
                    lemma_trees_of_push(collected@, x);
                }
                collected.push(x);
            },
            ast_new::Node::StringLiteral(l) => {
                let x = ast_new::Node::StringLiteral(l);
                proof {
                    lemma_trees_of_push(collected@, x);
                }
                collected.push(x);
            },
            ast_new::Node::Identifier(_) => {
                return Err(ReassemblyError::UnexpectedNode);
            },
            ast_new::Node::ExpressionStatement(mut es) => {
                let ghost cs = collected@;
                let kids = match take_children(&mut collected, k) {
                    Some(kids) => kids,
                    None => {
                        return Err(ReassemblyError::MissingChildren);
                    },
                };
                es.expression.arguments = kids;
                let x = ast_new::Node::ExpressionStatement(es);
                proof {
                    lemma_trees_of_tail_reversed(cs, n - k);
                    lemma_trees_of_push(collected@, x);
                }
                collected.push(x);
            },
            ast_new::Node::CallExpression(mut call) => {
                let ghost cs = collected@;
                let kids = match take_children(&mut collected, k) {
                    Some(kids) => kids,
                    None => {
                        return Err(ReassemblyError::MissingChildren);
                    },
                };
                call.arguments = kids;
                let x = ast_new::Node::CallExpression(call);
                proof {
                    lemma_trees_of_tail_reversed(cs, n - k);
                    lemma_trees_of_push(collected@, x);
                }
                collected.push(x);
            },
            ast_new::Node::Program(mut p) => {
                let ghost cs = collected@;
                let kids = match take_children(&mut collected, k) {
                    Some(kids) => kids,
                    None => {
                        return Err(ReassemblyError::MissingChildren);
                    },
                };
                p.body = kids;
                let x = ast_new::Node::Program(p);
                proof {
                    lemma_trees_of_tail_reversed(cs, n - k);
                    lemma_trees_of_push(collected@, x);
                }
                collected.push(x);
            },
        }
        proof {
            assert(step == Ok::<Seq<ast_new::Tree>, ReassemblyError>(trees_of(collected@)));
        }
    }
    proof {
        lemma_trees_of_index(collected@);
    }
    if collected.len() != 1 {
        return Err(ReassemblyError::NotOneNode);
    }
    let last = collected.pop().unwrap();
    if let ast_new::Node::Program(_) = last {
        Ok(last.unwrap_program())
    } else {
        Err(ReassemblyError::NotProgram)
    }
}

/// Turns a source program into its mirror in the target tree: every node
/// is recorded as it is entered, with the number of its children, then the
/// drain pass attaches to each node its own children.
pub fn transformer(ast: &mut ast::Node) -> (r: ast_new::Program)
    requires
        *old(ast) is Program,
    ensures
        *final(ast) == *old(ast),
        r@ == convert(old(ast)@, false),
{
    let mut s = State { stack: Vec::new() };
    proof {
        assert(s@ =~= Seq::empty());
    }
    traverser(ast, &mut s);
    proof {
        lemma_replay_walk(Seq::empty(), ast@, None);
        assert(Seq::<(ast_new::Tree, int)>::empty() + frames(ast@, None) =~= frames(ast@, None));
        lemma_reassembly_mirror(ast@);
    }
    match reassemble(s.stack) {
        Ok(p) => p,
        Err(_) => {
            proof {
                assert(false);
            }
            ast_new::Program { body: Vec::new() }
        },
    }
}

} // verus!
