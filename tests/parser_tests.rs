use burn_lang::ast::{AstType, Node, Number};
use burn_lang::builtins::{load, random};
use burn_lang::lexer::{tokenize, Token, TokenType};
use burn_lang::parser::{parse, program, ParseError, Parser};

fn parse_src(src: &str) -> Result<Vec<Node>, ParseError> {
    parse(tokenize(src.to_string()).unwrap())
}

fn one(src: &str) -> Node {
    let mut nodes = parse_src(src).unwrap();
    assert_eq!(nodes.len(), 1);
    nodes.pop().unwrap()
}

fn var(name: &str) -> Node {
    Node::Var { name: name.to_string(), value: Box::new(Node::String { value: String::new() }) }
}

fn integer(v: isize) -> Node {
    Node::Number { value: Number::Int(v) }
}

fn binop(op: &str, left: Node, right: Node) -> Node {
    Node::BinOp { left: Box::new(left), right: Box::new(right), op: op.to_string(), wrapped: false }
}

fn declare(name: &str, value: Node) -> Node {
    Node::Var { name: name.to_string(), value: Box::new(value) }
}

#[test]
fn var_declaration_parses() {
    assert_eq!(one("burn x = 5"), declare("x", integer(5)));
}

#[test]
fn if_else_parses() {
    let n = one("if (True) { burn x = 1 } else { burn x = 2 }");
    assert_eq!(
        n,
        Node::If {
            condition: Box::new(Node::Bool { value: true }),
            body: vec![declare("x", integer(1))],
            otherwise: vec![Node::Else { body: vec![declare("x", integer(2))] }],
        }
    );
}

#[test]
fn function_declaration_parses() {
    let n = one("prepmatch add(a, b) { return a + b }");
    assert_eq!(
        n,
        Node::Func {
            name: "add".to_string(),
            params: vec!["a".to_string(), "b".to_string()],
            body: vec![Node::Return { value: Box::new(binop("+", var("a"), var("b"))) }],
        }
    );
}

#[test]
fn index_chain_parses() {
    assert_eq!(one("foo[0]"), Node::Chain { name: Box::new(var("foo")), chain: vec![integer(0)] });
}

#[test]
fn attribute_chain_parses() {
    assert_eq!(
        one("foo[.bar]"),
        Node::Chain { name: Box::new(var("foo")), chain: vec![Node::Attr { attr: "bar".to_string() }] }
    );
}

#[test]
fn call_chain_parses() {
    assert_eq!(
        one("f(1, x)[.y]()"),
        Node::Chain {
            name: Box::new(var("f")),
            chain: vec![
                Node::Call { args: vec![integer(1), var("x")] },
                Node::Attr { attr: "y".to_string() },
                Node::Call { args: vec![] },
            ],
        }
    );
}

#[test]
fn operators_group_to_the_right() {
    assert_eq!(one("a - b - c"), binop("-", var("a"), binop("-", var("b"), var("c"))));
    assert_eq!(one("a * b + c"), binop("*", var("a"), binop("+", var("b"), var("c"))));
    assert_eq!(one("a and b or c"), binop("and", var("a"), binop("or", var("b"), var("c"))));
}

#[test]
fn parenthesised_left_operand_is_wrapped() {
    let n = one("(a + b) * c");
    assert_eq!(
        n,
        Node::BinOp {
            left: Box::new(Node::BinOp {
                left: Box::new(var("a")),
                right: Box::new(var("b")),
                op: "+".to_string(),
                wrapped: true,
            }),
            right: Box::new(var("c")),
            op: "*".to_string(),
            wrapped: false,
        }
    );
}

#[test]
fn integer_and_decimal_literals() {
    assert_eq!(one("42"), integer(42));
    assert_eq!(one("3.14"), Node::Number { value: Number::Float { negative: false, literal: "3.14".to_string() } });
    assert_eq!(one("9223372036854775807"), integer(isize::MAX));
}

#[test]
fn negative_literals() {
    assert_eq!(one("-7"), integer(-7));
    assert_eq!(one("--7"), integer(7));
    assert_eq!(one("-(2)"), integer(-2));
    assert_eq!(one("-1.5"), Node::Number { value: Number::Float { negative: true, literal: "1.5".to_string() } });
}

#[test]
fn negating_a_non_number_fails() {
    assert_eq!(parse_src("-x"), Err(ParseError::OperandTypeMismatch { position: 0 }));
    assert_eq!(parse_src("1 + -'s'"), Err(ParseError::OperandTypeMismatch { position: 2 }));
}

#[test]
fn oversized_integer_is_invalid() {
    assert_eq!(parse_src("9223372036854775808"), Err(ParseError::InvalidNumericLiteral { position: 0 }));
}

#[test]
fn non_ascii_digits_are_invalid_literals() {
    assert_eq!(parse_src("٣"), Err(ParseError::InvalidNumericLiteral { position: 0 }));
}

#[test]
fn strings_booleans_arrays_and_dicts() {
    assert_eq!(one("'hi'"), Node::String { value: "hi".to_string() });
    assert_eq!(one("False"), Node::Bool { value: false });
    assert_eq!(one("[]"), Node::Array { items: vec![] });
    assert_eq!(one("[1, 2]"), Node::Array { items: vec![integer(1), integer(2)] });
    assert_eq!(one("{}"), Node::Dict { items: vec![] });
    assert_eq!(
        one("{'a': 1, \"b\": x}"),
        Node::Dict { items: vec![("a".to_string(), integer(1)), ("b".to_string(), var("x"))] }
    );
}

#[test]
fn dict_repeated_key_keeps_last_value() {
    assert_eq!(
        one("{'a': 1, 'b': 2, 'a': 3}"),
        Node::Dict { items: vec![("a".to_string(), integer(3)), ("b".to_string(), integer(2))] }
    );
}

#[test]
fn dict_key_must_be_a_string() {
    assert_eq!(
        parse_src("{a: 1}"),
        Err(ParseError::UnexpectedToken { expected: Some(TokenType::String), found: TokenType::Word, position: 1 })
    );
}

#[test]
fn class_with_methods() {
    let n = one("lightertype P { prepmatch a() { } prepmatch b(x) { return x } }");
    assert_eq!(n.kind(), AstType::Class);
    assert_eq!(
        n,
        Node::Class {
            name: "P".to_string(),
            methods: vec![
                Node::Func { name: "a".to_string(), params: vec![], body: vec![] },
                Node::Func {
                    name: "b".to_string(),
                    params: vec!["x".to_string()],
                    body: vec![Node::Return { value: Box::new(var("x")) }],
                },
            ],
        }
    );
}

#[test]
fn while_loop() {
    assert_eq!(
        one("while (x < 3) { x }"),
        Node::While { condition: Box::new(binop("<", var("x"), integer(3))), body: vec![var("x")] }
    );
}

#[test]
fn for_loop_through_range() {
    assert_eq!(
        one("for i through (0, 10) { f(i) }"),
        Node::For {
            var: "i".to_string(),
            through: vec![integer(0), integer(10)],
            body: vec![Node::Chain { name: Box::new(var("f")), chain: vec![Node::Call { args: vec![var("i")] }] }],
        }
    );
}

#[test]
fn if_else_then_elifs_then_else() {
    let n = one("if (a) { } else { 1 } elif (b) { 2 } else { 3 }");
    assert_eq!(
        n,
        Node::If {
            condition: Box::new(var("a")),
            body: vec![],
            otherwise: vec![
                Node::Else { body: vec![integer(1)] },
                Node::If { condition: Box::new(var("b")), body: vec![integer(2)], otherwise: vec![] },
                Node::Else { body: vec![integer(3)] },
            ],
        }
    );
}

#[test]
fn if_condition_is_a_statement() {
    let n = one("if (burn y = 1) { }");
    assert_eq!(n, Node::If { condition: Box::new(declare("y", integer(1))), body: vec![], otherwise: vec![] });
}

#[test]
fn single_statements_give_one_node_of_their_kind() {
    assert_eq!(one("burn x = 1").kind(), AstType::Var);
    assert_eq!(one("prepmatch f() { }").kind(), AstType::Func);
    assert_eq!(one("lightertype C { }").kind(), AstType::Class);
    assert_eq!(one("return 1").kind(), AstType::Return);
    assert_eq!(one("for i through (1) { }").kind(), AstType::For);
    assert_eq!(one("while (1) { }").kind(), AstType::While);
    assert_eq!(one("if (1) { }").kind(), AstType::If);
    assert_eq!(one("1 + 2").kind(), AstType::BinOp);
    assert_eq!(one("x").kind(), AstType::Var);
}

#[test]
fn several_statements_in_order() {
    let nodes = parse_src("burn a = 1\nburn b = a\nreturn b").unwrap();
    assert_eq!(nodes.len(), 3);
    assert_eq!(nodes[0], declare("a", integer(1)));
    assert_eq!(nodes[1], declare("b", var("a")));
    assert_eq!(nodes[2], Node::Return { value: Box::new(var("b")) });
}

#[test]
fn empty_program() {
    assert_eq!(parse_src(""), Ok(vec![]));
}

#[test]
fn parsing_twice_gives_identical_trees() {
    let src = "prepmatch f(a) { if (a) { return [a, {'k': a[.x]}] } }";
    assert_eq!(parse_src(src), parse_src(src));
}

#[test]
fn missing_token_is_unexpected() {
    assert_eq!(
        parse_src("burn x 5"),
        Err(ParseError::UnexpectedToken { expected: Some(TokenType::Equal), found: TokenType::Number, position: 2 })
    );
    assert_eq!(
        parse_src(")"),
        Err(ParseError::UnexpectedToken { expected: None, found: TokenType::RightParen, position: 0 })
    );
}

#[test]
fn eof_inside_expression_is_unexpected_token() {
    assert_eq!(
        parse_src("burn x ="),
        Err(ParseError::UnexpectedToken { expected: None, found: TokenType::Eof, position: 3 })
    );
}

#[test]
fn running_out_of_tokens_is_end_of_input() {
    let toks = vec![Token::new(TokenType::Word, "x".to_string(), "x".to_string())];
    assert_eq!(parse(toks), Err(ParseError::UnexpectedEndOfInput { position: 1 }));
    assert_eq!(parse(vec![]), Err(ParseError::UnexpectedEndOfInput { position: 0 }));
}

#[test]
fn parser_peek_and_eat() {
    let mut p = Parser::new(tokenize("x 1".to_string()).unwrap());
    assert_eq!(p.peek_token_type(), Some(&TokenType::Word));
    assert_eq!(p.peek_token().unwrap().value, "x");
    assert_eq!(
        p.eat(TokenType::Number).unwrap_err(),
        ParseError::UnexpectedToken { expected: Some(TokenType::Number), found: TokenType::Word, position: 0 }
    );
    let t = p.eat(TokenType::Word).unwrap();
    assert_eq!(t.value, "x");
    assert_eq!(p.peek_token_type(), Some(&TokenType::Number));
    let nodes = program(&mut p).unwrap();
    assert_eq!(nodes, vec![integer(1)]);
}

#[test]
fn random_stays_in_range() {
    load();
    for _ in 0..100 {
        let r = random(-3, 4);
        assert!((-3..=4).contains(&r));
    }
    assert_eq!(random(7, 7), 7);
}
