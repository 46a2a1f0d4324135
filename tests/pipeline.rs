use tiny_compiler::ast;
use tiny_compiler::ast_new;
use tiny_compiler::transform::Frame;
use tiny_compiler::{
    parser, reassemble, transformer, tokenizer, try_parser, try_tokenizer, ReassemblyError, Token,
};

const INPUT: &str = "(add 2 (subtract 4 2))";

fn num(v: &str) -> ast_new::Node {
    ast_new::Node::new_number_literal(v.to_string())
}

fn id(name: &str) -> ast_new::Identifier {
    ast_new::Identifier { name: name.to_string() }
}

#[test]
fn tokenizer_test() {
    let tokens = vec![
        Token::ParenLeft,
        Token::Name("add".to_string()),
        Token::Number("2".to_string()),
        Token::ParenLeft,
        Token::Name("subtract".to_string()),
        Token::Number("4".to_string()),
        Token::Number("2".to_string()),
        Token::ParenRight,
        Token::ParenRight,
    ];
    assert_eq!(tokenizer(INPUT), tokens);
}

#[test]
fn parser_test() {
    let right = {
        ast::Node::new_program(vec![ast::Node::new_call_expression(
            "add".to_owned(),
            vec![
                ast::Node::new_number_literal("2".to_string()),
                ast::Node::new_call_expression(
                    "subtract".to_owned(),
                    vec![
                        ast::Node::new_number_literal("4".to_owned()),
                        ast::Node::new_number_literal("2".to_owned()),
                    ],
                ),
            ],
        )])
    };
    assert_eq!(parser(&tokenizer(INPUT)), right);
}

#[test]
fn transformer_test() {
    let right = ast_new::Program {
        body: vec![ast_new::Node::new_expression_statement(ast_new::CallExpression {
            callee: ast_new::Identifier { name: "add".to_string() },
            arguments: vec![
                ast_new::Node::new_number_literal("2".to_owned()),
                ast_new::Node::new_call_expression(
                    ast_new::Identifier { name: "subtract".to_owned() },
                    vec![
                        ast_new::Node::new_number_literal("4".to_owned()),
                        ast_new::Node::new_number_literal("2".to_owned()),
                    ],
                ),
            ],
        })],
    };
    assert_eq!(transformer(&mut parser(&tokenizer(INPUT))), right);
}

#[test]
fn tokenizer_reads_strings_names_and_multi_digit_numbers() {
    let tokens = tokenizer("(concat \"a b\" 105 x)");
    assert_eq!(
        tokens,
        vec![
            Token::ParenLeft,
            Token::Name("concat".to_string()),
            Token::Str("a b".to_string()),
            Token::Number("105".to_string()),
            Token::Name("x".to_string()),
            Token::ParenRight,
        ]
    );
}

#[test]
fn tokenizer_closes_unterminated_string_at_end() {
    assert_eq!(tokenizer("\"abc"), vec![Token::Str("abc".to_string())]);
}

#[test]
fn tokenizer_splits_name_from_digits() {
    assert_eq!(
        tokenizer("ab12"),
        vec![Token::Name("ab".to_string()), Token::Number("12".to_string())]
    );
}

#[test]
fn tokenizer_rejects_unknown_characters() {
    assert_eq!(try_tokenizer("(add 1 #)"), None);
    assert_eq!(try_tokenizer("0"), None);
    assert_eq!(try_tokenizer("(add 10)").map(|t| t.len()), Some(4));
}

#[test]
fn tokenizer_of_empty_input_is_empty() {
    assert_eq!(tokenizer(""), vec![]);
}

#[test]
fn parser_rejects_paren_without_name() {
    let tokens = vec![Token::ParenLeft, Token::Number("1".to_string())];
    assert_eq!(try_parser(&tokens), None);
    assert_eq!(try_parser(&vec![Token::ParenLeft]), None);
}

#[test]
fn parser_rejects_unexpected_tokens() {
    assert_eq!(try_parser(&vec![Token::ParenRight]), None);
    assert_eq!(try_parser(&vec![Token::Name("x".to_string())]), None);
}

#[test]
fn parser_closes_open_call_at_end() {
    let tree = parser(&tokenizer("(add 1 2"));
    let right = ast::Node::new_program(vec![ast::Node::new_call_expression(
        "add".to_string(),
        vec![
            ast::Node::new_number_literal("1".to_string()),
            ast::Node::new_number_literal("2".to_string()),
        ],
    )]);
    assert_eq!(tree, right);
}

#[test]
fn parser_keeps_statements_in_order() {
    let tree = parser(&tokenizer("(foo 1)(bar 2)"));
    let right = ast::Node::new_program(vec![
        ast::Node::new_call_expression("foo".to_string(), vec![ast::Node::new_number_literal("1".to_string())]),
        ast::Node::new_call_expression("bar".to_string(), vec![ast::Node::new_number_literal("2".to_string())]),
    ]);
    assert_eq!(tree, right);
}

#[test]
fn parser_reads_token_after_nested_call() {
    let tree = parser(&tokenizer("(a (b) 1)"));
    let right = ast::Node::new_program(vec![ast::Node::new_call_expression(
        "a".to_string(),
        vec![
            ast::Node::new_call_expression("b".to_string(), vec![]),
            ast::Node::new_number_literal("1".to_string()),
        ],
    )]);
    assert_eq!(tree, right);
}

#[test]
fn transformer_keeps_argument_order_and_literal_text() {
    let mut tree = parser(&tokenizer("(f 3 \"x y\" 12 (g 7 8))"));
    let right = ast_new::Program {
        body: vec![ast_new::Node::new_expression_statement(ast_new::CallExpression {
            callee: id("f"),
            arguments: vec![
                num("3"),
                ast_new::Node::new_string_literal("x y".to_string()),
                num("12"),
                ast_new::Node::new_call_expression(id("g"), vec![num("7"), num("8")]),
            ],
        })],
    };
    assert_eq!(transformer(&mut tree), right);
}

#[test]
fn transformer_leaves_deeply_nested_calls_bare() {
    let mut tree = parser(&tokenizer("(a (b (c 1)))"));
    let right = ast_new::Program {
        body: vec![ast_new::Node::new_expression_statement(ast_new::CallExpression {
            callee: id("a"),
            arguments: vec![ast_new::Node::new_call_expression(
                id("b"),
                vec![ast_new::Node::new_call_expression(id("c"), vec![num("1")])],
            )],
        })],
    };
    assert_eq!(transformer(&mut tree), right);
}

#[test]
fn transformer_of_empty_program_is_empty() {
    let mut tree = parser(&tokenizer(""));
    assert_eq!(transformer(&mut tree), ast_new::Program { body: vec![] });
}

#[test]
fn unwrap_program_returns_the_program() {
    let p = ast_new::Node::new_program(vec![num("5")]).unwrap_program();
    assert_eq!(p, ast_new::Program { body: vec![num("5")] });
}

#[test]
fn transformer_keeps_literal_before_single_call_in_place() {
    let mut tree = parser(&tokenizer("1 (foo 2)"));
    let right = ast_new::Program {
        body: vec![
            num("1"),
            ast_new::Node::new_expression_statement(ast_new::CallExpression {
                callee: id("foo"),
                arguments: vec![num("2")],
            }),
        ],
    };
    assert_eq!(transformer(&mut tree), right);
}

fn frame(node: ast_new::Node, children: usize) -> Frame {
    Frame { node, children }
}

fn stmt(name: &str, arguments: Vec<ast_new::Node>) -> ast_new::Node {
    ast_new::Node::new_expression_statement(ast_new::CallExpression { callee: id(name), arguments })
}

#[test]
fn transformer_keeps_two_statements_in_order() {
    let mut tree = parser(&tokenizer("(foo 1)(bar 2)"));
    let r = transformer(&mut tree);
    assert_eq!(r.body.len(), 2);
    assert_eq!(r.body, vec![stmt("foo", vec![num("1")]), stmt("bar", vec![num("2")])]);
}

#[test]
fn transformer_keeps_sibling_after_nested_call() {
    let mut tree = parser(&tokenizer("(add (f 1) 2)"));
    let right = ast_new::Program {
        body: vec![stmt(
            "add",
            vec![ast_new::Node::new_call_expression(id("f"), vec![num("1")]), num("2")],
        )],
    };
    assert_eq!(transformer(&mut tree), right);
}

#[test]
fn transformer_keeps_literal_after_call_at_top_level() {
    let mut tree = parser(&tokenizer("(foo 1) 2"));
    let right = ast_new::Program { body: vec![stmt("foo", vec![num("1")]), num("2")] };
    assert_eq!(transformer(&mut tree), right);
}

#[test]
fn transformer_wraps_each_of_three_statements() {
    let mut tree = parser(&tokenizer("(a (b 1) \"s\")(c)(d 2 (e))"));
    let right = ast_new::Program {
        body: vec![
            stmt(
                "a",
                vec![
                    ast_new::Node::new_call_expression(id("b"), vec![num("1")]),
                    ast_new::Node::new_string_literal("s".to_string()),
                ],
            ),
            stmt("c", vec![]),
            stmt("d", vec![num("2"), ast_new::Node::new_call_expression(id("e"), vec![])]),
        ],
    };
    assert_eq!(transformer(&mut tree), right);
}

#[test]
fn reassemble_rebuilds_from_frames() {
    let stack = vec![
        frame(ast_new::Node::new_program(vec![]), 2),
        frame(stmt("add", vec![]), 2),
        frame(num("1"), 0),
        frame(num("2"), 0),
        frame(stmt("neg", vec![]), 1),
        frame(num("3"), 0),
    ];
    let right = ast_new::Program {
        body: vec![stmt("add", vec![num("1"), num("2")]), stmt("neg", vec![num("3")])],
    };
    assert_eq!(reassemble(stack), Ok(right));
}

#[test]
fn reassemble_of_empty_stack_fails() {
    assert_eq!(reassemble(vec![]), Err(ReassemblyError::NotOneNode));
}

#[test]
fn reassemble_with_identifier_fails() {
    let stack = vec![
        frame(ast_new::Node::new_program(vec![]), 1),
        frame(ast_new::Node::new_identifier("x".to_string()), 0),
    ];
    assert_eq!(reassemble(stack), Err(ReassemblyError::UnexpectedNode));
}

#[test]
fn reassemble_with_missing_children_fails() {
    let stack = vec![frame(ast_new::Node::new_program(vec![]), 2), frame(num("1"), 0)];
    assert_eq!(reassemble(stack), Err(ReassemblyError::MissingChildren));
}

#[test]
fn reassemble_with_two_nodes_left_fails() {
    let stack = vec![frame(ast_new::Node::new_program(vec![]), 0), frame(num("2"), 0)];
    assert_eq!(reassemble(stack), Err(ReassemblyError::NotOneNode));
    let stack = vec![frame(num("2"), 0), frame(ast_new::Node::new_program(vec![]), 0)];
    assert_eq!(reassemble(stack), Err(ReassemblyError::NotOneNode));
}

#[test]
fn reassemble_without_program_fails() {
    assert_eq!(reassemble(vec![frame(num("2"), 0)]), Err(ReassemblyError::NotProgram));
    let stack = vec![
        frame(ast_new::Node::new_call_expression(id("f"), vec![]), 1),
        frame(num("1"), 0),
    ];
    assert_eq!(reassemble(stack), Err(ReassemblyError::NotProgram));
}
