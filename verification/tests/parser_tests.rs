use quark::parser::ParseError;
use quark::AstNode;
use quark::Lexer;
use quark::NodeType;
use quark::Parser;
use quark::TokenType;

fn parse_source(source: &str) -> AstNode {
    let tokens = Lexer::new(source).tokenize().unwrap();
    Parser::new(tokens).parse().unwrap()
}

fn same_tree(a: &AstNode, b: &AstNode) -> bool {
    if a.node_type != b.node_type || a.children.len() != b.children.len() {
        return false;
    }
    match (&a.token, &b.token) {
        (Some(x), Some(y)) => {
            if x.token_type != y.token_type || x.lexeme != y.lexeme {
                return false;
            }
        }
        (None, None) => {}
        _ => return false,
    }
    a.children
        .iter()
        .zip(b.children.iter())
        .all(|(x, y)| same_tree(x, y))
}

#[test]
fn test_simple_expression() {
    let mut lexer = Lexer::new("2 + 3 * 4");
    let tokens = lexer.tokenize().unwrap();
    let mut parser = Parser::new(tokens);
    let ast = parser.parse().unwrap();

    assert_eq!(ast.node_type, NodeType::CompilationUnit);
    assert_eq!(ast.children.len(), 1);
}

#[test]
fn test_function_definition() {
    let input = "fn add x, y:\n    x + y";
    let mut lexer = Lexer::new(input);
    let tokens = lexer.tokenize().unwrap();
    let mut parser = Parser::new(tokens);
    let ast = parser.parse().unwrap();

    assert_eq!(ast.node_type, NodeType::CompilationUnit);
    assert_eq!(ast.children.len(), 1);
    assert_eq!(ast.children[0].node_type, NodeType::Function);
}

#[test]
fn test_parse_deterministic() {
    let source = "fn add x, y:\n    x + y\nadd(1, 2)\n";
    let first = parse_source(source);
    let second = parse_source(source);
    assert!(same_tree(&first, &second));
}

#[test]
fn test_precedence_multiplication_binds_tighter() {
    let ast = parse_source("2 + 3 * 4");
    let stmt = &ast.children[0];
    assert_eq!(stmt.node_type, NodeType::Statement);
    let plus = &stmt.children[0];
    assert_eq!(plus.node_type, NodeType::BinaryOp);
    assert_eq!(plus.token.as_ref().unwrap().lexeme, "+");
    let left = &plus.children[0];
    assert_eq!(left.node_type, NodeType::Literal);
    assert_eq!(left.token.as_ref().unwrap().lexeme, "2");
    let times = &plus.children[1];
    assert_eq!(times.node_type, NodeType::BinaryOp);
    assert_eq!(times.token.as_ref().unwrap().lexeme, "*");
}

#[test]
fn test_exponent_right_associative() {
    let ast = parse_source("2 ** 3 ** 2");
    let outer = &ast.children[0].children[0];
    assert_eq!(outer.node_type, NodeType::BinaryOp);
    assert_eq!(outer.token.as_ref().unwrap().lexeme, "**");
    assert_eq!(
        outer.children[0].token.as_ref().unwrap().lexeme,
        "2"
    );
    let inner = &outer.children[1];
    assert_eq!(inner.node_type, NodeType::BinaryOp);
    assert_eq!(inner.token.as_ref().unwrap().lexeme, "**");
}

#[test]
fn test_application_by_juxtaposition() {
    let ast = parse_source("f x");
    let call = &ast.children[0].children[0];
    assert_eq!(call.node_type, NodeType::FunctionCall);
    assert_eq!(call.children.len(), 2);
    assert_eq!(call.children[0].node_type, NodeType::Identifier);
    assert_eq!(call.children[0].token.as_ref().unwrap().lexeme, "f");
    assert_eq!(call.children[1].node_type, NodeType::Identifier);
    assert_eq!(call.children[1].token.as_ref().unwrap().lexeme, "x");
}

#[test]
fn test_parenthesized_call_has_arguments_node() {
    let ast = parse_source("f(x, y)");
    let call = &ast.children[0].children[0];
    assert_eq!(call.node_type, NodeType::FunctionCall);
    assert_eq!(call.children.len(), 2);
    assert_eq!(call.children[0].token.as_ref().unwrap().lexeme, "f");
    let args = &call.children[1];
    assert_eq!(args.node_type, NodeType::Arguments);
    assert_eq!(args.children.len(), 2);
    assert_eq!(args.children[0].token.as_ref().unwrap().lexeme, "x");
    assert_eq!(args.children[1].token.as_ref().unwrap().lexeme, "y");
}

#[test]
fn test_function_block_form() {
    let ast = parse_source("fn add x, y:\n    x + y");
    let func = &ast.children[0];
    assert_eq!(func.node_type, NodeType::Function);
    assert_eq!(func.token.as_ref().unwrap().lexeme, "add");
    let params = &func.children[0];
    assert_eq!(params.node_type, NodeType::Arguments);
    assert_eq!(params.children.len(), 2);
    assert_eq!(params.children[0].token.as_ref().unwrap().lexeme, "x");
    assert_eq!(params.children[1].token.as_ref().unwrap().lexeme, "y");
    let body = &func.children[1];
    assert_eq!(body.node_type, NodeType::Block);
    assert_eq!(body.children.len(), 1);
    let stmt = &body.children[0];
    assert_eq!(stmt.node_type, NodeType::Statement);
    assert_eq!(stmt.children[0].node_type, NodeType::BinaryOp);
    assert_eq!(stmt.children[0].token.as_ref().unwrap().lexeme, "+");
}

#[test]
fn test_ternary_child_order() {
    let ast = parse_source("a if cond else b");
    let ternary = &ast.children[0].children[0];
    assert_eq!(ternary.node_type, NodeType::Ternary);
    assert_eq!(ternary.children.len(), 3);
    assert_eq!(ternary.children[0].token.as_ref().unwrap().lexeme, "cond");
    assert_eq!(ternary.children[1].token.as_ref().unwrap().lexeme, "a");
    assert_eq!(ternary.children[2].token.as_ref().unwrap().lexeme, "b");
}

#[test]
fn test_missing_rparen_position() {
    let tokens = Lexer::new("f(x").tokenize().unwrap();
    let err = Parser::new(tokens).parse().unwrap_err();
    match err {
        ParseError::ExpectedToken {
            expected,
            found,
            line,
            col,
        } => {
            assert_eq!(expected, TokenType::Rparen);
            assert_eq!(found, TokenType::Eof);
            assert_eq!(line, 1);
            assert_eq!(col, 4);
        }
        other => panic!("wrong error: {:?}", other),
    }
}

#[test]
fn test_unexpected_prefix_token() {
    let tokens = Lexer::new("* 2").tokenize().unwrap();
    let err = Parser::new(tokens).parse().unwrap_err();
    match err {
        ParseError::UnexpectedPrefixToken { found, line, col } => {
            assert_eq!(found, TokenType::Star);
            assert_eq!(line, 1);
            assert_eq!(col, 1);
        }
        other => panic!("wrong error: {:?}", other),
    }
}

#[test]
fn test_if_elseif_else() {
    let ast = parse_source("if a:\n    1\nelseif b:\n    2\nelse:\n    3");
    let node = &ast.children[0];
    assert_eq!(node.node_type, NodeType::IfStatement);
    // condition, then-block, elseif clause, else-block
    assert_eq!(node.children.len(), 4);
    assert_eq!(node.children[0].token.as_ref().unwrap().lexeme, "a");
    assert_eq!(node.children[1].node_type, NodeType::Block);
    assert_eq!(node.children[2].node_type, NodeType::IfStatement);
    assert_eq!(node.children[3].node_type, NodeType::Block);
}

#[test]
fn test_when_patterns() {
    let ast = parse_source("when x:\n    1 or 2: a\n    3: b\n");
    let node = &ast.children[0];
    assert_eq!(node.node_type, NodeType::WhenStatement);
    assert_eq!(node.children.len(), 3);
    assert_eq!(node.children[0].token.as_ref().unwrap().lexeme, "x");
    let first = &node.children[1];
    assert_eq!(first.node_type, NodeType::Pattern);
    // the `or` guard expression, then the result
    assert_eq!(first.children.len(), 2);
    assert_eq!(first.children[0].node_type, NodeType::BinaryOp);
    assert_eq!(first.children[0].token.as_ref().unwrap().lexeme, "or");
    let second = &node.children[2];
    assert_eq!(second.children.len(), 2);
}

#[test]
fn test_for_and_while_loops() {
    let ast = parse_source("for i in 1..5:\n    i\nwhile x < 3:\n    x\n");
    let for_node = &ast.children[0];
    assert_eq!(for_node.node_type, NodeType::ForLoop);
    assert_eq!(for_node.children.len(), 3);
    assert_eq!(for_node.children[0].token.as_ref().unwrap().lexeme, "i");
    assert_eq!(for_node.children[1].node_type, NodeType::BinaryOp);
    let while_node = &ast.children[1];
    assert_eq!(while_node.node_type, NodeType::WhileLoop);
    assert_eq!(while_node.children.len(), 2);
}

#[test]
fn test_list_and_dict_literals() {
    let ast = parse_source("{1, 2, 3}");
    let list = &ast.children[0].children[0];
    assert_eq!(list.node_type, NodeType::List);
    assert_eq!(list.children.len(), 3);

    let ast2 = parse_source("[a: 1, b: 2]");
    let dict = &ast2.children[0].children[0];
    assert_eq!(dict.node_type, NodeType::Dict);
    assert_eq!(dict.children.len(), 2);
    assert_eq!(dict.children[0].node_type, NodeType::Expression);
    assert_eq!(dict.children[0].children.len(), 2);
}

#[test]
fn test_member_access_and_at_call() {
    let ast = parse_source("a.b");
    let access = &ast.children[0].children[0];
    assert_eq!(access.node_type, NodeType::MemberAccess);
    assert_eq!(access.token.as_ref().unwrap().lexeme, "b");
    assert_eq!(access.children[0].token.as_ref().unwrap().lexeme, "a");

    let ast2 = parse_source("@f(1)");
    let call = &ast2.children[0].children[0];
    assert_eq!(call.node_type, NodeType::FunctionCall);
    assert_eq!(call.children[1].node_type, NodeType::Arguments);
}

#[test]
fn test_token_lexeme_helper() {
    let ast = parse_source("abc");
    let ident = &ast.children[0].children[0];
    assert_eq!(ident.token_lexeme(), "abc");
    assert_eq!(ast.token_lexeme(), "");
}
