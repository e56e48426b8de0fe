use quark::AstNode;
use quark::Lexer;
use quark::NodeType;
use quark::Parser;
use quark::Token;
use quark::TokenType;
use quark::Visualizer;

#[test]
fn test_simple_visualization() {
    let mut root = AstNode::new(NodeType::CompilationUnit, None);
    let child = AstNode::new(NodeType::Expression, None);
    root.add_child(child);

    let mut viz = Visualizer::new();
    let dot = viz.visualize(&root);

    assert!(dot.contains("digraph AST"));
    assert!(dot.contains("CompilationUnit"));
    assert!(dot.contains("Expression"));
}

#[test]
fn test_visualization_edges_and_ids() {
    let tokens = Lexer::new("1 + 2").tokenize().unwrap();
    let ast = Parser::new(tokens).parse().unwrap();
    let dot = Visualizer::new().visualize(&ast);
    assert!(dot.starts_with("digraph AST {"));
    assert!(dot.trim_end().ends_with("}"));
    assert!(dot.contains("node0 -> node1;"));
    assert!(dot.contains("BinaryOp\\\\n'+'"));
}

#[test]
fn test_label_escaping() {
    let token = Token::new(TokenType::String, "a\"b\\c".to_string(), 1, 1);
    let node = AstNode::new(NodeType::Literal, Some(token));
    let dot = Visualizer::new().visualize(&node);
    assert!(dot.contains("Literal\\\\n'a\\\"b\\\\c'"));
}
