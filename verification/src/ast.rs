//! The syntax-tree model: node kinds, the node record, and binding strength.

use crate::token::Token;
use crate::token::TokenModel;
use vstd::prelude::*;

verus! {

/// The closed set of syntax-tree node kinds.
#[derive(Clone, Copy, Debug, PartialEq, Eq, Structural)]
pub enum NodeType {
    CompilationUnit,
    Block,
    Statement,
    Expression,
    Function,
    FunctionCall,
    Arguments,
    IfStatement,
    WhenStatement,
    Pattern,
    ForLoop,
    WhileLoop,
    Lambda,
    Ternary,
    Pipe,
    Identifier,
    Literal,
    Operator,
    BinaryOp,
    UnaryOp,
    List,
    Dict,
    MemberAccess,
}

/// Mathematical model of a syntax-tree node: kind, optional originating
/// token, and the ordered children.
#[verifier::ext_equal]
pub struct AstModel {
    pub kind: NodeType,
    pub token: Option<TokenModel>,
    pub children: Seq<AstModel>,
}

/// One syntax-tree node. The parent exclusively owns its children; order of
/// children is semantically significant.
#[derive(Debug)]
pub struct AstNode {
    pub node_type: NodeType,
    pub token: Option<Token>,
    pub children: Vec<AstNode>,
}

/// The model of an optional originating token.
pub open spec fn opt_token_view(t: Option<Token>) -> Option<TokenModel> {
    match t {
        Some(tok) => Some(tok@),
        None => None,
    }
}

/// The model of a node, recursively over its children.
pub open spec fn ast_view(n: AstNode) -> AstModel
    decreases n,
{
    AstModel {
        kind: n.node_type,
        token: opt_token_view(n.token),
        children: asts_view(n.children@),
    }
}

/// The model of a sequence of nodes: each node's model, in order.
pub open spec fn asts_view(s: Seq<AstNode>) -> Seq<AstModel>
    decreases s,
{
    if s.len() == 0 {
        Seq::empty()
    } else {
        asts_view(s.drop_last()).push(ast_view(s.last()))
    }
}

impl View for AstNode {
    type V = AstModel;

    open spec fn view(&self) -> AstModel {
        ast_view(*self)
    }
}

pub broadcast proof fn lemma_asts_view_len(s: Seq<AstNode>)
    ensures
        #[trigger] asts_view(s).len() == s.len(),
    decreases s,
{
    if s.len() > 0 {
        lemma_asts_view_len(s.drop_last());
    }
}

pub broadcast proof fn lemma_asts_view_index(s: Seq<AstNode>, i: int)
    requires
        0 <= i < s.len(),
    ensures
        asts_view(s).len() == s.len(),
        #[trigger] asts_view(s)[i] == s[i]@,
    decreases s,
{
    lemma_asts_view_len(s);
    if i < s.len() - 1 {
        lemma_asts_view_index(s.drop_last(), i);
    } else {
        assert(s[i] == s.last());
    }
}

pub proof fn lemma_asts_view_concat(a: Seq<AstNode>, b: Seq<AstNode>)
    ensures
        asts_view(a + b) == asts_view(a) + asts_view(b),
{
    lemma_asts_view_len(a);
    lemma_asts_view_len(b);
    lemma_asts_view_len(a + b);
    assert forall|i: int| 0 <= i < (a + b).len() implies asts_view(a + b)[i] == (asts_view(a)
        + asts_view(b))[i] by {
        lemma_asts_view_index(a + b, i);
        if i < a.len() {
            lemma_asts_view_index(a, i);
        } else {
            lemma_asts_view_index(b, i - a.len());
        }
    }
    assert(asts_view(a + b) =~= asts_view(a) + asts_view(b));
}

pub broadcast proof fn lemma_asts_view_push(s: Seq<AstNode>, n: AstNode)
    ensures
        #[trigger] asts_view(s.push(n)) == asts_view(s).push(n@),
{
    assert(s.push(n).drop_last() =~= s);
    assert(s.push(n).last() == n);
}

impl AstNode {
    pub fn new(node_type: NodeType, token: Option<Token>) -> (n: AstNode)
        ensures
            n@ == (AstModel {
                kind: node_type,
                token: opt_token_view(token),
                children: Seq::<AstModel>::empty(),
            }),
    {
        AstNode { node_type, token, children: Vec::new() }
    }

    pub fn with_children(node_type: NodeType, token: Option<Token>, children: Vec<AstNode>) -> (n:
        AstNode)
        ensures
            n@ == (AstModel {
                kind: node_type,
                token: opt_token_view(token),
                children: asts_view(children@),
            }),
    {
        AstNode { node_type, token, children }
    }

    pub fn add_child(&mut self, child: AstNode)
        ensures
            final(self)@ == (AstModel {
                kind: old(self)@.kind,
                token: old(self)@.token,
                children: old(self)@.children.push(child@),
            }),
    {
        self.children.push(child);
        proof {
            lemma_asts_view_push(old(self).children@, child);
        }
    }

    /// The lexeme of the node's originating token, or the empty string.
    pub fn token_lexeme(&self) -> (r: String)
        ensures
            r@ == (match self@.token {
                Some(t) => t.text,
                None => Seq::<char>::empty(),
            }),
    {
        match &self.token {
            Some(t) => t.lexeme.clone(),
            None => String::new(),
        }
    }
}

/// Binding strength for the Pratt expression grammar, as a small integer
/// scale; a strictly greater value binds tighter. The named levels are the
/// `PREC_*` constants in the parser.
#[derive(Clone, Copy, Debug, PartialEq, Eq, PartialOrd, Ord, Structural)]
pub struct Precedence(pub u32);

} // verus!
