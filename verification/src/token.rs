//! The token model: lexical categories and the token record.

use vstd::prelude::*;
use vstd::string::StrSliceExecFns;

verus! {

/// The closed set of lexical categories.
#[derive(Clone, Copy, Debug, PartialEq, Eq, Structural)]
pub enum TokenType {
    // Literals
    Integer,
    Float,
    String,
    // Identifiers and keywords
    Identifier,
    Use,
    Module,
    In,
    And,
    Or,
    If,
    Elseif,
    Else,
    For,
    While,
    When,
    Fn,
    Class,
    // Operators
    Plus,
    Minus,
    Star,
    Slash,
    Percent,
    Power,
    Equals,
    EqualsEquals,
    NotEquals,
    Less,
    LessEquals,
    Greater,
    GreaterEquals,
    Not,
    Tilde,
    Ampersand,
    Pipe,
    DotDot,
    Dot,
    At,
    // Delimiters
    Lparen,
    Rparen,
    Lbrace,
    Rbrace,
    Lsquare,
    Rsquare,
    Comma,
    Colon,
    // Structural
    Newline,
    Indent,
    Dedent,
    Eof,
}

/// Mathematical model of a token: category, text, and 1-based position.
#[verifier::ext_equal]
pub struct TokenModel {
    pub ty: TokenType,
    pub text: Seq<char>,
    pub line: int,
    pub col: int,
}

/// One lexical token: its category, the exact source text (empty for the
/// structural categories), and the 1-based line and column of its first
/// character. Created by the lexer and never mutated.
#[derive(Debug)]
pub struct Token {
    pub token_type: TokenType,
    pub lexeme: String,
    pub line: usize,
    pub column: usize,
}

impl View for Token {
    type V = TokenModel;

    open spec fn view(&self) -> TokenModel {
        TokenModel {
            ty: self.token_type,
            text: self.lexeme@,
            line: self.line as int,
            col: self.column as int,
        }
    }
}

impl Clone for Token {
    fn clone(&self) -> (r: Self)
        ensures
            r@ == self@,
    {
        Token {
            token_type: self.token_type,
            lexeme: self.lexeme.clone(),
            line: self.line,
            column: self.column,
        }
    }
}

impl Token {
    pub fn new(token_type: TokenType, lexeme: String, line: usize, column: usize) -> (t: Token)
        ensures
            t@ == (TokenModel {
                ty: token_type,
                text: lexeme@,
                line: line as int,
                col: column as int,
            }),
    {
        Token { token_type, lexeme, line, column }
    }
}

/// The model of a token sequence: each token's model, in order.
pub open spec fn tokens_view(ts: Seq<Token>) -> Seq<TokenModel> {
    ts.map_values(|t: Token| t@)
}

pub broadcast proof fn lemma_tokens_view_push(ts: Seq<Token>, t: Token)
    ensures
        #[trigger] tokens_view(ts.push(t)) == tokens_view(ts).push(t@),
{
    assert(tokens_view(ts.push(t)) =~= tokens_view(ts).push(t@));
}

/// The keyword category a spelling denotes, if any.
pub open spec fn spec_keyword(s: Seq<char>) -> Option<TokenType> {
    if s == "use"@ {
        Some(TokenType::Use)
    } else if s == "module"@ {
        Some(TokenType::Module)
    } else if s == "in"@ {
        Some(TokenType::In)
    } else if s == "and"@ {
        Some(TokenType::And)
    } else if s == "or"@ {
        Some(TokenType::Or)
    } else if s == "if"@ {
        Some(TokenType::If)
    } else if s == "elseif"@ {
        Some(TokenType::Elseif)
    } else if s == "else"@ {
        Some(TokenType::Else)
    } else if s == "for"@ {
        Some(TokenType::For)
    } else if s == "while"@ {
        Some(TokenType::While)
    } else if s == "when"@ {
        Some(TokenType::When)
    } else if s == "fn"@ {
        Some(TokenType::Fn)
    } else if s == "class"@ {
        Some(TokenType::Class)
    } else {
        None
    }
}

/// Character-by-character string equality.
fn str_eq(a: &str, b: &str) -> (r: bool)
    ensures
        r == (a@ == b@),
{
    let n = a.unicode_len();
    let m = b.unicode_len();
    if n != m {
        return false;
    }
    let mut i: usize = 0;
    while i < n
        invariant
            n == a@.len(),
            n == b@.len(),
            i <= n,
            forall|j: int| 0 <= j < i ==> a@[j] == b@[j],
        decreases n - i,
    {
        let ca = a.get_char(i);
        let cb = b.get_char(i);
        if ca != cb {
            return false;
        }
        i = i + 1;
    }
    proof {
        assert(a@ =~= b@);
    }
    true
}

/// Re-tags an identifier's spelling as its keyword category, if it is one.
pub fn keyword_type(word: &str) -> (r: Option<TokenType>)
    ensures
        r == spec_keyword(word@),
{
    if str_eq(word, "use") {
        Some(TokenType::Use)
    } else if str_eq(word, "module") {
        Some(TokenType::Module)
    } else if str_eq(word, "in") {
        Some(TokenType::In)
    } else if str_eq(word, "and") {
        Some(TokenType::And)
    } else if str_eq(word, "or") {
        Some(TokenType::Or)
    } else if str_eq(word, "if") {
        Some(TokenType::If)
    } else if str_eq(word, "elseif") {
        Some(TokenType::Elseif)
    } else if str_eq(word, "else") {
        Some(TokenType::Else)
    } else if str_eq(word, "for") {
        Some(TokenType::For)
    } else if str_eq(word, "while") {
        Some(TokenType::While)
    } else if str_eq(word, "when") {
        Some(TokenType::When)
    } else if str_eq(word, "fn") {
        Some(TokenType::Fn)
    } else if str_eq(word, "class") {
        Some(TokenType::Class)
    } else {
        None
    }
}

} // verus!
