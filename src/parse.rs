use vstd::prelude::*;
use crate::ast::{Node, Tree, trees_of, lemma_trees_of_push};
use crate::token::{Lexeme, Token, lexemes};

verus! {

/// The expression that starts at token `i` and the place just after it,
/// or `None` where no expression starts there. An expression is a number,
/// a string, or `(` and a name followed by the call's parameters.
pub open spec fn parse_expr(t: Seq<Lexeme>, i: int) -> Option<(Tree, int)>
    decreases t.len() - i, 0int,
{
    if i < 0 || i >= t.len() {
        None
    } else {
        match t[i] {
            Lexeme::Number(v) => Some((Tree::NumberLiteral(v), i + 1)),
            Lexeme::Str(v) => Some((Tree::StringLiteral(v), i + 1)),
            Lexeme::ParenLeft => if i + 1 < t.len() && t[i + 1] is Name {
                match parse_params(t, i + 2) {
                    Some((params, j)) => Some(
                        (Tree::CallExpression(t[i + 1]->Name_0, params), j),
                    ),
                    None => None,
                }
            } else {
                None
            },
            _ => None,
        }
    }
}

/// The parameters of a call from token `i` on, and the place after the `)`
/// that closes it. A call left open at the end of the tokens ends there.
pub open spec fn parse_params(t: Seq<Lexeme>, i: int) -> Option<(Seq<Tree>, int)>
    decreases t.len() - i, 1int,
{
    if i < 0 || i >= t.len() {
        Some((Seq::empty(), t.len() as int))
    } else if t[i] is ParenRight {
        Some((Seq::empty(), i + 1))
    } else {
        match parse_expr(t, i) {
            // An expression always ends after the place where it starts.
            Some((e, j)) => if i < j <= t.len() {
                glue_params(seq![e], parse_params(t, j))
            } else {
                None
            },
            None => None,
        }
    }
}

/// The trees `p` followed by those of `rest`, where `rest` has any.
pub open spec fn glue_params(p: Seq<Tree>, rest: Option<(Seq<Tree>, int)>) -> Option<
    (Seq<Tree>, int),
> {
    match rest {
        Some((r, j)) => Some((p + r, j)),
        None => None,
    }
}

/// The expressions of a program's body from token `i` to the end.
pub open spec fn parse_body(t: Seq<Lexeme>, i: int) -> Option<Seq<Tree>>
    decreases t.len() - i,
{
    if i < 0 || i >= t.len() {
        Some(Seq::empty())
    } else {
        match parse_expr(t, i) {
            Some((e, j)) => if i < j <= t.len() {
                match parse_body(t, j) {
                    Some(rest) => Some(seq![e] + rest),
                    None => None,
                }
            } else {
                None
            },
            None => None,
        }
    }
}

/// The program that the tokens `t` spell, or `None` where they are not one.
pub open spec fn parsed(t: Seq<Lexeme>) -> Option<Tree> {
    match parse_body(t, 0) {
        Some(body) => Some(Tree::Program(body)),
        None => None,
    }
}

fn walk(tokens: &Vec<Token>, current: &mut usize) -> (r: Option<Node>)
    requires
        *old(current) < tokens.len(),
    ensures
        match r {
            Some(n) => {
                &&& parse_expr(lexemes(tokens@), *old(current) as int) == Some(
                    (n@, *final(current) as int),
                )
                &&& *old(current) < *final(current) <= tokens.len()
            },
            None => parse_expr(lexemes(tokens@), *old(current) as int) is None,
        },
    decreases tokens.len() - *old(current),
{
    let ghost t = lexemes(tokens@);
    let i = *current;
    match &tokens[i] {
        Token::Number(value) => {
            *current = i + 1;
            Some(Node::new_number_literal(value.clone()))
        },
        Token::Str(value) => {
            *current = i + 1;
            Some(Node::new_string_literal(value.clone()))
        },
        Token::ParenLeft => {
            if i + 1 >= tokens.len() {
                return None;
            }
            let name = match &tokens[i + 1] {
                Token::Name(name) => name.clone(),
                _ => {
                    return None;
                },
            };
            let mut params: Vec<Node> = Vec::new();
            let mut k: usize = i + 2;
            let mut open = true;
            proof {
                assert(trees_of(params@) =~= Seq::empty());
                if let Some((ps, j)) = parse_params(t, k as int) {
                    assert(Seq::<Tree>::empty() + ps =~= ps);
                }
            }
            while open && k < tokens.len()
                invariant
                    i + 2 <= k <= tokens.len(),
                    i == *old(current),
                    t == lexemes(tokens@),
                    parse_expr(t, i as int) == match parse_params(t, i + 2) {
                        Some((ps, j)) => Some((Tree::CallExpression(name@, ps), j)),
                        None => None,
                    },
                    open ==> parse_params(t, i + 2) == glue_params(
                        trees_of(params@),
                        parse_params(t, k as int),
                    ),
                    !open ==> parse_params(t, i + 2) == Some((trees_of(params@), k as int)),
                decreases tokens.len() - k,
            {
                if let Token::ParenRight = &tokens[k] {
                    proof {
                        assert(trees_of(params@) + Seq::empty() =~= trees_of(params@));
                    }
                    k = k + 1;
                    open = false;
                } else {
                    let mut c = k;
                    match walk(tokens, &mut c) {
                        Some(n) => {
                            proof {
                                lemma_trees_of_push(params@, n);
                                if let Some((rest, e)) = parse_params(t, c as int) {
                                    assert(trees_of(params@) + (seq![n@] + rest) =~= trees_of(
                                        params@,
                                    ).push(n@) + rest);
                                }
                            }
                            params.push(n);
                            k = c;
                        },
                        None => {
                            return None;
                        },
                    }
                }
            }
            proof {
                if open {
                    assert(trees_of(params@) + Seq::empty() =~= trees_of(params@));
                }
            }
            *current = k;
            Some(Node::new_call_expression(name, params))
        },
        _ => None,
    }
}

/// Builds the program that `tokens` spell, or gives `None` where they are
/// not one: a `(` that no name follows, or a `)` or a name where an
/// expression should start.
pub fn try_parser(tokens: &Vec<Token>) -> (r: Option<Node>)
    ensures
        match r {
            Some(n) => parsed(lexemes(tokens@)) == Some(n@),
            None => parsed(lexemes(tokens@)) is None,
        },
{
    let ghost t = lexemes(tokens@);
    let mut body: Vec<Node> = Vec::new();
    let mut current: usize = 0;
    proof {
        assert(trees_of(body@) =~= Seq::empty());
        if let Some(b) = parse_body(t, 0) {
            assert(Seq::<Tree>::empty() + b =~= b);
        }
    }
    while current < tokens.len()
        invariant
            current <= tokens.len(),
            t == lexemes(tokens@),
            parse_body(t, 0) == match parse_body(t, current as int) {
                Some(rest) => Some(trees_of(body@) + rest),
                None => None,
            },
        decreases tokens.len() - current,
    {
        let ghost before = current as int;
        match walk(tokens, &mut current) {
            Some(n) => {
                proof {
                    lemma_trees_of_push(body@, n);
                    if let Some(rest) = parse_body(t, current as int) {
                        assert(trees_of(body@) + (seq![n@] + rest) =~= trees_of(body@).push(n@)
                            + rest);
                    }
                }
                body.push(n);
            },
            None => {
                return None;
            },
        }
    }
    proof {
        assert(trees_of(body@) + Seq::empty() =~= trees_of(body@));
    }
    Some(Node::new_program(body))
}

/// Builds the program that `tokens` spell; they must spell one.
pub fn parser(tokens: &Vec<Token>) -> (r: Node)
    requires
        parsed(lexemes(tokens@)) is Some,
    ensures
        parsed(lexemes(tokens@)) == Some(r@),
        r is Program,
{
    match try_parser(tokens) {
        Some(n) => n,
        None => {
            proof {
                assert(false);
            }
            Node::new_program(Vec::new())
        },
    }
}

} // verus!
