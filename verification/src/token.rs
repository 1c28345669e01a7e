use vstd::prelude::*;

verus! {

/// The bracket kind of a token group.
#[derive(Clone, Copy, Debug, PartialEq, Eq)]
pub enum Delimiter {
    /// `( ... )`
    Parenthesis,
    /// `{ ... }`
    Brace,
    /// `[ ... ]`
    Bracket,
    /// A group without visible brackets.
    Invisible,
}

/// Whether a punctuation character is immediately followed by another one.
#[derive(Clone, Copy, Debug, PartialEq, Eq)]
pub enum Spacing {
    /// Followed by whitespace, a non-punctuation token, or the end of its group.
    Alone,
    /// Immediately followed by another punctuation character.
    Joint,
}

/// One token tree of the macro input, holding as plain values what the
/// parser reads of it.
#[derive(Debug, PartialEq, Eq)]
pub enum Token {
    /// An identifier, by its text.
    Ident(String),
    /// A literal, by its source text.
    Literal(String),
    /// A single punctuation character and its spacing.
    Punct(char, Spacing),
    /// A delimited group and the tokens inside it.
    Group(Delimiter, Vec<Token>),
}

/// Mathematical model of a [`Token`].
pub enum Tok {
    Ident(Seq<char>),
    Literal(Seq<char>),
    Punct(char, Spacing),
    Group(Delimiter, Seq<Tok>),
}

impl View for Token {
    type V = Tok;

    open spec fn view(&self) -> Tok {
        token_model(*self)
    }
}

/// The model of one token.
pub open spec fn token_model(t: Token) -> Tok
    decreases t,
{
    match t {
        Token::Ident(s) => Tok::Ident(s@),
        Token::Literal(s) => Tok::Literal(s@),
        Token::Punct(c, sp) => Tok::Punct(c, sp),
        Token::Group(d, v) => Tok::Group(d, tokens_view(v@)),
    }
}

/// The model of a sequence of tokens, token by token.
pub open spec fn tokens_view(s: Seq<Token>) -> Seq<Tok>
    decreases s,
{
    if s.len() == 0 {
        Seq::empty()
    } else {
        tokens_view(s.drop_last()).push(token_model(s.last()))
    }
}

pub proof fn lemma_tokens_view(s: Seq<Token>)
    ensures
        tokens_view(s).len() == s.len(),
        forall|i: int| 0 <= i < s.len() ==> #[trigger] tokens_view(s)[i] == s[i]@,
    decreases s.len(),
{
    if s.len() > 0 {
        lemma_tokens_view(s.drop_last());
    }
}

} // verus!
