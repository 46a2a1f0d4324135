use vstd::prelude::*;
use crate::ast;
use crate::ast_new;
use crate::transform::{convert, convert_all, lemma_convert_all_index};

verus! {

/// Whether `b` has the shape of `a`: the same kind of node (a call may
/// stand as a statement), the same name or literal text, and children that
/// mirror each other one for one, in the same order.
pub open spec fn mirrors(a: ast::Tree, b: ast_new::Tree) -> bool
    decreases a,
{
    match a {
        ast::Tree::Program(body) => b is Program && mirrors_all(body, b->Program_0),
        ast::Tree::CallExpression(name, params) => match b {
            ast_new::Tree::CallExpression(callee, args) => callee == name && mirrors_all(
                params,
                args,
            ),
            ast_new::Tree::ExpressionStatement(callee, args) => callee == name && mirrors_all(
                params,
                args,
            ),
            _ => false,
        },
        ast::Tree::NumberLiteral(v) => b == ast_new::Tree::NumberLiteral(v),
        ast::Tree::StringLiteral(v) => b == ast_new::Tree::StringLiteral(v),
    }
}

pub open spec fn mirrors_all(s: Seq<ast::Tree>, t: Seq<ast_new::Tree>) -> bool
    decreases s,
{
    &&& s.len() == t.len()
    &&& forall|i: int| 0 <= i < s.len() ==> mirrors(s[i], #[trigger] t[i])
}

/// Whether no statement stands in the argument list of a call or of a
/// statement anywhere in `t`.
pub open spec fn args_unwrapped(t: ast_new::Tree) -> bool
    decreases t,
{
    match t {
        ast_new::Tree::Program(body) => forall|i: int|
            0 <= i < body.len() ==> args_unwrapped(#[trigger] body[i]),
        ast_new::Tree::CallExpression(_, args) => forall|i: int|
            0 <= i < args.len() ==> !(args[i] is ExpressionStatement) && args_unwrapped(
                #[trigger] args[i],
            ),
        ast_new::Tree::ExpressionStatement(_, args) => forall|i: int|
            0 <= i < args.len() ==> !(args[i] is ExpressionStatement) && args_unwrapped(
                #[trigger] args[i],
            ),
        _ => true,
    }
}

proof fn lemma_convert_mirrors(n: ast::Tree, in_call: bool)
    ensures
        mirrors(n, convert(n, in_call)),
        args_unwrapped(convert(n, in_call)),
        in_call ==> !(convert(n, in_call) is ExpressionStatement),
    decreases n,
{
    match n {
        ast::Tree::Program(body) => {
            lemma_convert_all_index(body, false);
            assert forall|i: int| 0 <= i < body.len() implies mirrors(
                body[i],
                #[trigger] convert_all(body, false)[i],
            ) && args_unwrapped(convert_all(body, false)[i]) by {
                lemma_convert_mirrors(body[i], false);
            }
        },
        ast::Tree::CallExpression(_, params) => {
            lemma_convert_all_index(params, true);
            assert forall|i: int| 0 <= i < params.len() implies mirrors(
                params[i],
                #[trigger] convert_all(params, true)[i],
            ) && args_unwrapped(convert_all(params, true)[i]) && !(convert_all(
                params,
                true,
            )[i] is ExpressionStatement) by {
                lemma_convert_mirrors(params[i], true);
            }
        },
        _ => {},
    }
}

/// Order is kept: the transform of a program (`transformer` returns
/// `convert(n, false)`) mirrors it. Every list of siblings keeps its length
/// and its order, calls keep their names and literals their text.
pub proof fn lemma_transform_keeps_order(n: ast::Tree)
    ensures
        mirrors(n, convert(n, false)),
{
    lemma_convert_mirrors(n, false);
}

/// A literal as it is written: its kind and its text.
pub enum Literal {
    Number(Seq<char>),
    Str(Seq<char>),
}

/// The literals of a source tree, in document order.
pub open spec fn source_literals(n: ast::Tree) -> Seq<Literal>
    decreases n,
{
    match n {
        ast::Tree::Program(body) => source_literals_all(body),
        ast::Tree::CallExpression(_, params) => source_literals_all(params),
        ast::Tree::NumberLiteral(v) => seq![Literal::Number(v)],
        ast::Tree::StringLiteral(v) => seq![Literal::Str(v)],
    }
}

pub open spec fn source_literals_all(s: Seq<ast::Tree>) -> Seq<Literal>
    decreases s,
{
    if s.len() == 0 {
        Seq::empty()
    } else {
        source_literals_all(s.subrange(0, s.len() - 1)) + source_literals(s[s.len() - 1])
    }
}

/// The literals of a target tree, in document order.
pub open spec fn target_literals(t: ast_new::Tree) -> Seq<Literal>
    decreases t,
{
    match t {
        ast_new::Tree::Program(body) => target_literals_all(body),
        ast_new::Tree::CallExpression(_, args) => target_literals_all(args),
        ast_new::Tree::ExpressionStatement(_, args) => target_literals_all(args),
        ast_new::Tree::NumberLiteral(v) => seq![Literal::Number(v)],
        ast_new::Tree::StringLiteral(v) => seq![Literal::Str(v)],
        ast_new::Tree::Identifier(_) => Seq::empty(),
    }
}

pub open spec fn target_literals_all(s: Seq<ast_new::Tree>) -> Seq<Literal>
    decreases s,
{
    if s.len() == 0 {
        Seq::empty()
    } else {
        target_literals_all(s.subrange(0, s.len() - 1)) + target_literals(s[s.len() - 1])
    }
}

proof fn lemma_convert_literals(n: ast::Tree, in_call: bool)
    ensures
        target_literals(convert(n, in_call)) == source_literals(n),
    decreases n,
{
    match n {
        ast::Tree::Program(body) => {
            lemma_convert_literals_all(body, false);
        },
        ast::Tree::CallExpression(_, params) => {
            lemma_convert_literals_all(params, true);
        },
        _ => {},
    }
}

proof fn lemma_convert_literals_all(s: Seq<ast::Tree>, in_call: bool)
    ensures
        target_literals_all(convert_all(s, in_call)) == source_literals_all(s),
    decreases s,
{
    if s.len() > 0 {
        let s0 = s.subrange(0, s.len() - 1);
        let c = convert_all(s, in_call);
        lemma_convert_all_index(s, in_call);
        assert(c.subrange(0, c.len() - 1) =~= convert_all(s0, in_call));
        lemma_convert_literals_all(s0, in_call);
        lemma_convert_literals(s[s.len() - 1], in_call);
    }
}

/// Literal text is copied unchanged: the literals of the transform of a
/// program, in document order, are those of the program, each of the same
/// kind and with the same text.
pub proof fn lemma_transform_keeps_literals(n: ast::Tree)
    ensures
        target_literals(convert(n, false)) == source_literals(n),
{
    lemma_convert_literals(n, false);
}

/// Whether no program stands anywhere in `n`.
pub open spec fn no_program(n: ast::Tree) -> bool
    decreases n,
{
    match n {
        ast::Tree::Program(_) => false,
        ast::Tree::CallExpression(_, params) => forall|i: int|
            0 <= i < params.len() ==> no_program(#[trigger] params[i]),
        _ => true,
    }
}

pub open spec fn no_program_all(s: Seq<ast::Tree>) -> bool {
    forall|i: int| 0 <= i < s.len() ==> no_program(#[trigger] s[i])
}

/// Whether `t` is made of calls and literals only.
pub open spec fn bare(t: ast_new::Tree) -> bool
    decreases t,
{
    match t {
        ast_new::Tree::CallExpression(_, args) => forall|i: int|
            0 <= i < args.len() ==> bare(#[trigger] args[i]),
        ast_new::Tree::NumberLiteral(_) => true,
        ast_new::Tree::StringLiteral(_) => true,
        _ => false,
    }
}

pub open spec fn bare_all(s: Seq<ast_new::Tree>) -> bool {
    forall|i: int| 0 <= i < s.len() ==> bare(#[trigger] s[i])
}

proof fn lemma_convert_bare(n: ast::Tree)
    requires
        no_program(n),
    ensures
        bare(convert(n, true)),
        n is CallExpression ==> convert(n, false) == ast_new::Tree::ExpressionStatement(
            n->CallExpression_0,
            convert_all(n->CallExpression_1, true),
        ),
        n is CallExpression ==> bare_all(convert_all(n->CallExpression_1, true)),
    decreases n,
{
    if let ast::Tree::CallExpression(_, params) = n {
        lemma_convert_all_index(params, true);
        assert forall|i: int| 0 <= i < params.len() implies bare(
            #[trigger] convert_all(params, true)[i],
        ) by {
            lemma_convert_bare(params[i]);
        }
    }
}

/// Top-level calls are wrapped once, nested calls never: in the transform of
/// a program with no other program below it, each call of the body becomes
/// one statement at the same place, under the same name, whose arguments
/// hold calls and literals only; every other element of the body is copied.
pub proof fn lemma_transform_wraps_top_level_calls(n: ast::Tree)
    requires
        n is Program,
        no_program_all(n->Program_0),
    ensures
        ({
            let body = n->Program_0;
            let r = convert(n, false);
            &&& r is Program
            &&& r->Program_0.len() == body.len()
            &&& forall|i: int|
                0 <= i < body.len() && #[trigger] body[i] is CallExpression ==> {
                    let s = r->Program_0[i];
                    &&& s is ExpressionStatement
                    &&& s->ExpressionStatement_0 == body[i]->CallExpression_0
                    &&& bare_all(s->ExpressionStatement_1)
                }
            &&& forall|i: int|
                0 <= i < body.len() && !(#[trigger] body[i] is CallExpression) ==> r->Program_0[i]
                    == convert(body[i], false) && !(r->Program_0[i] is ExpressionStatement)
            &&& args_unwrapped(r)
        }),
{
    let body = n->Program_0;
    lemma_convert_all_index(body, false);
    lemma_convert_mirrors(n, false);
    assert forall|i: int| 0 <= i < body.len() && #[trigger] body[i] is CallExpression implies {
        let s = convert_all(body, false)[i];
        &&& s is ExpressionStatement
        &&& s->ExpressionStatement_0 == body[i]->CallExpression_0
        &&& bare_all(s->ExpressionStatement_1)
    } by {
        lemma_convert_bare(body[i]);
    }
}

} // verus!
