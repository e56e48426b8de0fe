//! The renderer: prints a syntax tree in Graphviz DOT form, one `node`
//! line per tree node and one edge per parent–child pair, visiting every
//! node and its children in order.
//!
//! Rendering is outside the language's grammar; its contracts state the
//! exact text of the labels and that the output only ever grows while a
//! tree is walked.

use crate::ast::AstNode;
use crate::ast::AstModel;
use crate::ast::NodeType;
use crate::lexer::push_char;
use vstd::prelude::*;
use vstd::string::StringExecFns;

verus! {

/// The name of a node kind, as the labels spell it.
pub open spec fn spec_type_name(ty: NodeType) -> Seq<char> {
    match ty {
        NodeType::CompilationUnit => "CompilationUnit"@,
        NodeType::Block => "Block"@,
        NodeType::Statement => "Statement"@,
        NodeType::Expression => "Expression"@,
        NodeType::Function => "Function"@,
        NodeType::FunctionCall => "FunctionCall"@,
        NodeType::Arguments => "Arguments"@,
        NodeType::IfStatement => "IfStatement"@,
        NodeType::WhenStatement => "WhenStatement"@,
        NodeType::Pattern => "Pattern"@,
        NodeType::ForLoop => "ForLoop"@,
        NodeType::WhileLoop => "WhileLoop"@,
        NodeType::Lambda => "Lambda"@,
        NodeType::Ternary => "Ternary"@,
        NodeType::Pipe => "Pipe"@,
        NodeType::Identifier => "Identifier"@,
        NodeType::Literal => "Literal"@,
        NodeType::Operator => "Operator"@,
        NodeType::BinaryOp => "BinaryOp"@,
        NodeType::UnaryOp => "UnaryOp"@,
        NodeType::List => "List"@,
        NodeType::Dict => "Dict"@,
        NodeType::MemberAccess => "MemberAccess"@,
    }
}

fn kind_name(ty: NodeType) -> (r: &'static str)
    ensures
        r@ == spec_type_name(ty),
{
    match ty {
        NodeType::CompilationUnit => "CompilationUnit",
        NodeType::Block => "Block",
        NodeType::Statement => "Statement",
        NodeType::Expression => "Expression",
        NodeType::Function => "Function",
        NodeType::FunctionCall => "FunctionCall",
        NodeType::Arguments => "Arguments",
        NodeType::IfStatement => "IfStatement",
        NodeType::WhenStatement => "WhenStatement",
        NodeType::Pattern => "Pattern",
        NodeType::ForLoop => "ForLoop",
        NodeType::WhileLoop => "WhileLoop",
        NodeType::Lambda => "Lambda",
        NodeType::Ternary => "Ternary",
        NodeType::Pipe => "Pipe",
        NodeType::Identifier => "Identifier",
        NodeType::Literal => "Literal",
        NodeType::Operator => "Operator",
        NodeType::BinaryOp => "BinaryOp",
        NodeType::UnaryOp => "UnaryOp",
        NodeType::List => "List",
        NodeType::Dict => "Dict",
        NodeType::MemberAccess => "MemberAccess",
    }
}

/// The label of one node: its kind's name, and its token's text quoted on
/// a label line of its own when it has any.
pub open spec fn spec_label(m: AstModel) -> Seq<char> {
    match m.token {
        Some(t) => if t.text.len() > 0 {
            spec_type_name(m.kind) + "\\n'"@ + t.text + "'"@
        } else {
            spec_type_name(m.kind)
        },
        None => spec_type_name(m.kind),
    }
}

/// How one character is written inside a quoted DOT label.
pub open spec fn spec_escape_char(c: char) -> Seq<char> {
    if c == '\\' {
        "\\\\"@
    } else if c == '"' {
        "\\\""@
    } else if c == '\n' {
        "\\n"@
    } else {
        seq![c]
    }
}

/// The whole label escaped, character by character.
pub open spec fn spec_escaped(s: Seq<char>) -> Seq<char>
    decreases s.len(),
{
    if s.len() == 0 {
        Seq::empty()
    } else {
        spec_escape_char(s[0]) + spec_escaped(s.drop_first())
    }
}

/// Escaping one more character on the right.
pub proof fn lemma_escaped_snoc(s: Seq<char>, c: char)
    ensures
        spec_escaped(s.push(c)) == spec_escaped(s) + spec_escape_char(c),
    decreases s.len(),
{
    if s.len() == 0 {
        assert(s.push(c).drop_first() =~= Seq::<char>::empty());
        assert(s.push(c)[0] == c);
        assert(spec_escaped(Seq::<char>::empty()) =~= Seq::<char>::empty());
        assert(spec_escaped(s) =~= Seq::<char>::empty());
        assert(spec_escape_char(c) + Seq::<char>::empty() =~= spec_escape_char(c));
        assert(spec_escaped(s) + spec_escape_char(c) =~= spec_escape_char(c));
    } else {
        assert(s.push(c).drop_first() =~= s.drop_first().push(c));
        lemma_escaped_snoc(s.drop_first(), c);
        assert(spec_escape_char(s[0]) + (spec_escaped(s.drop_first()) + spec_escape_char(c))
            =~= (spec_escape_char(s[0]) + spec_escaped(s.drop_first())) + spec_escape_char(c));
        assert(s.push(c)[0] == s[0]);
    }
}

/// The decimal spelling of a number.
pub open spec fn spec_decimal(n: nat) -> Seq<char>
    decreases n,
{
    if n < 10 {
        seq![spec_digit(n)]
    } else {
        spec_decimal(n / 10) + seq![spec_digit(n % 10)]
    }
}

/// The digit character of a value below ten.
pub open spec fn spec_digit(d: nat) -> char {
    ((48 + d) as u8) as char
}

fn decimal_string(n: usize) -> (r: String)
    ensures
        r@ == spec_decimal(n as nat),
    decreases n,
{
    if n < 10 {
        let mut s = String::new();
        push_char(&mut s, ((48 + (n as u8)) as u8) as char);
        proof {
            assert(s@ =~= seq![spec_digit(n as nat)]);
        }
        s
    } else {
        let mut s = decimal_string(n / 10);
        push_char(&mut s, (48 + ((n % 10) as u8)) as char);
        proof {
            assert(s@ =~= spec_decimal((n / 10) as nat) + seq![spec_digit((n % 10) as nat)]);
        }
        s
    }
}

/// The tree renderer: accumulates the DOT text and numbers the nodes in
/// visiting order.
pub struct Visualizer {
    dot_output: String,
    node_counter: usize,
}

pub proof fn lemma_prefix_trans(a: Seq<char>, b: Seq<char>, c: Seq<char>)
    requires
        a.is_prefix_of(b),
        b.is_prefix_of(c),
    ensures
        a.is_prefix_of(c),
{
    assert(a =~= c.subrange(0, a.len() as int));
}

impl Visualizer {
    pub fn new() -> (v: Visualizer)
        ensures
            v@ == Seq::<char>::empty(),
    {
        Visualizer { dot_output: String::new(), node_counter: 0 }
    }

    /// The DOT text accumulated so far.
    pub closed spec fn view(&self) -> Seq<char> {
        self.dot_output@
    }

    /// Renders the whole tree: a `digraph AST` header, one labelled node
    /// line per tree node in visiting order, one edge per parent–child
    /// pair, and the closing brace.
    pub fn visualize(&mut self, root: &AstNode) -> (r: String)
        ensures
            r@ == final(self)@,
            "digraph AST {"@.is_prefix_of(r@),
    {
        self.dot_output = String::new();
        self.node_counter = 0;
        self.dot_output.append("digraph AST {\n");
        proof {
            reveal_strlit("digraph AST {");
            reveal_strlit("digraph AST {\n");
            assert("digraph AST {"@.is_prefix_of(self.dot_output@));
        }
        let ghost h1 = self@;
        self.dot_output.append("    node [shape=box];\n");
        proof {
            assert(h1.is_prefix_of(self@));
            lemma_prefix_trans("digraph AST {"@, h1, self@);
        }
        let ghost h2 = self@;
        self.dot_output.append("    rankdir=TB;\n");
        proof {
            assert(h2.is_prefix_of(self@));
            lemma_prefix_trans("digraph AST {"@, h2, self@);
        }
        let ghost before = self@;
        self.visit_node(root, None);
        proof {
            lemma_prefix_trans("digraph AST {"@, before, self@);
        }
        let ghost before2 = self@;
        self.dot_output.append("}\n");
        proof {
            assert(before2.is_prefix_of(self@));
            lemma_prefix_trans("digraph AST {"@, before2, self@);
        }
        self.dot_output.clone()
    }

    /// Writes this node's labelled line and its edge from its parent, then
    /// visits the children in order. The output only grows.
    fn visit_node(&mut self, node: &AstNode, parent_id: Option<usize>) -> (id: usize)
        ensures
            old(self)@.is_prefix_of(final(self)@),
        decreases *node,
    {
        let current_id = self.node_counter;
        if self.node_counter < usize::MAX {
            self.node_counter = self.node_counter + 1;
        }
        let label = self.create_label(node);
        let escaped = Self::escape_label(label.as_str());
        let ghost s0 = self@;
        self.dot_output.append("    node");
        self.dot_output.append(decimal_string(current_id).as_str());
        self.dot_output.append(" [label=\"");
        self.dot_output.append(escaped.as_str());
        self.dot_output.append("\"];\n");
        match parent_id {
            Some(parent) => {
                self.dot_output.append("    node");
                self.dot_output.append(decimal_string(parent).as_str());
                self.dot_output.append(" -> node");
                self.dot_output.append(decimal_string(current_id).as_str());
                self.dot_output.append(";\n");
            },
            None => {},
        }
        proof {
            assert(s0.is_prefix_of(self@));
        }
        let n = node.children.len();
        let mut i: usize = 0;
        while i < n
            invariant
                n == node.children@.len(),
                i <= n,
                s0.is_prefix_of(self@),
            decreases n - i,
        {
            let ghost sb = self@;
            proof {
                assert(decreases_to!(*node => node.children@[i as int]));
            }
            self.visit_node(&node.children[i], Some(current_id));
            proof {
                lemma_prefix_trans(s0, sb, self@);
            }
            i = i + 1;
        }
        current_id
    }

    /// The node's label text, before escaping.
    fn create_label(&self, node: &AstNode) -> (r: String)
        ensures
            r@ == spec_label(node@),
    {
        let mut label = String::new();
        label.append(kind_name(node.node_type));
        match &node.token {
            Some(token) => {
                if token.lexeme.unicode_len() > 0 {
                    label.append("\\n'");
                    label.append(token.lexeme.as_str());
                    label.append("'");
                }
            },
            None => {},
        }
        label
    }

    /// The label with backslashes, quotes and newlines escaped for a
    /// quoted DOT string.
    fn escape_label(label: &str) -> (r: String)
        ensures
            r@ == spec_escaped(label@),
    {
        let n = label.unicode_len();
        let mut out = String::new();
        let mut i: usize = 0;
        proof {
            assert(label@.subrange(0, 0) =~= Seq::<char>::empty());
        }
        while i < n
            invariant
                n == label@.len(),
                i <= n,
                out@ == spec_escaped(label@.subrange(0, i as int)),
            decreases n - i,
        {
            let c = label.get_char(i);
            if c == '\\' {
                out.append("\\\\");
            } else if c == '"' {
                out.append("\\\"");
            } else if c == '\n' {
                out.append("\\n");
            } else {
                push_char(&mut out, c);
            }
            proof {
                lemma_escaped_snoc(label@.subrange(0, i as int), label@[i as int]);
                assert(label@.subrange(0, i as int + 1) =~= label@.subrange(0, i as int).push(
                    label@[i as int],
                ));
                assert(out@ =~= spec_escaped(label@.subrange(0, i as int + 1)));
            }
            i = i + 1;
        }
        proof {
            assert(label@.subrange(0, n as int) =~= label@);
        }
        out
    }
}

} // verus!
