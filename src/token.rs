use vstd::prelude::*;

verus! {

/// One lexical unit of assembly source.
#[derive(Debug, PartialEq, Eq)]
pub enum Token {
    /// The name of an instruction; the first token of a line.
    Mnemonic(String),
    /// A signed integer literal.
    Number(i64),
    /// A register reference, named by the text after its `%`.
    Register(String),
    /// A string literal. The line tokenizer does not produce it: quoted strings are left to
    /// extensions of the grammar.
    String(String),
}

/// The mathematical value of a [`Token`]: its text as a sequence of characters.
pub enum TokenModel {
    Mnemonic(Seq<char>),
    Number(i64),
    Register(Seq<char>),
    String(Seq<char>),
}

impl View for Token {
    type V = TokenModel;

    open spec fn view(&self) -> TokenModel {
        match self {
            Token::Mnemonic(s) => TokenModel::Mnemonic(s@),
            Token::Number(n) => TokenModel::Number(*n),
            Token::Register(s) => TokenModel::Register(s@),
            Token::String(s) => TokenModel::String(s@),
        }
    }
}

/// The model of a line of tokens.
pub open spec fn line_model(line: Seq<Token>) -> Seq<TokenModel> {
    line.map_values(|t: Token| t@)
}

/// The model of a sequence of token lines.
pub open spec fn lines_model(lines: Seq<Vec<Token>>) -> Seq<Seq<TokenModel>> {
    lines.map_values(|l: Vec<Token>| line_model(l@))
}

} // verus!
