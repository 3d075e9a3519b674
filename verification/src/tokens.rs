//! The tokenizer: characters of a pattern with their positions, escapes resolved.
use vstd::prelude::*;
use vstd::std_specs::iter::IteratorSpec;

use crate::text::push_char;

verus! {

/// The character that strips the structural meaning of the one after it.
pub const ESCAPE: char = '\\';

/// Where in the pattern a token was read, counted in characters.
#[derive(Debug, PartialEq, Eq, Clone, Copy, Structural)]
pub struct TokenMeta {
    pub position: usize,
}

/// One character of a pattern, tagged with how it was written.
#[derive(Debug, PartialEq, Eq, Clone, Copy, Structural)]
pub enum Token {
    /// The character that followed an escape, at the position of the escape.
    Escaped(char, TokenMeta),
    /// A character written plainly.
    Raw(char, TokenMeta),
    /// An escape with nothing after it.
    TrailingEscapeCharacter(TokenMeta),
}

impl Token {
    /// The character that this token stands for.
    pub open spec fn spec_to_char(self) -> char {
        match self {
            Token::Escaped(c, _) => c,
            Token::Raw(c, _) => c,
            Token::TrailingEscapeCharacter(_) => ESCAPE,
        }
    }

    /// The metadata that this token carries.
    pub open spec fn spec_meta(self) -> TokenMeta {
        match self {
            Token::Escaped(_, m) => m,
            Token::Raw(_, m) => m,
            Token::TrailingEscapeCharacter(m) => m,
        }
    }

    /// The character that this token stands for; a trailing escape stands for
    /// the escape character itself.
    #[verifier::when_used_as_spec(spec_to_char)]
    pub fn to_char(self) -> (c: char)
        ensures
            c == self.spec_to_char(),
    {
        match self {
            Token::Escaped(c, _) => c,
            Token::Raw(c, _) => c,
            Token::TrailingEscapeCharacter(_) => ESCAPE,
        }
    }

    /// The character of this token as a string.
    pub fn to_string(&self) -> (text: String)
        ensures
            text@ == seq![self.spec_to_char()],
    {
        let mut text = String::new();
        push_char(&mut text, self.to_char());
        text
    }

    /// The offset in the pattern, in characters, at which this token starts.
    pub fn position(&self) -> (position: usize)
        ensures
            position == self.spec_meta().position,
    {
        let meta = self.meta();
        meta.position
    }

    /// The metadata that this token carries.
    pub fn meta(&self) -> (meta: &TokenMeta)
        ensures
            *meta == self.spec_meta(),
    {
        match self {
            Token::Escaped(_, m) => m,
            Token::Raw(_, m) => m,
            Token::TrailingEscapeCharacter(m) => m,
        }
    }
}

/// The token that starts at `chars[at]`.
///
/// An escape takes the character after it along and yields one token at its
/// own position; an escape at the very end is a trailing escape.
pub open spec fn token_at(chars: Seq<char>, at: int) -> Token
    recommends
        0 <= at < chars.len(),
{
    let meta = TokenMeta { position: at as usize };
    if chars[at] != ESCAPE {
        Token::Raw(chars[at], meta)
    } else if at + 1 < chars.len() {
        Token::Escaped(chars[at + 1], meta)
    } else {
        Token::TrailingEscapeCharacter(meta)
    }
}

/// The number of characters that the token starting at `chars[at]` takes up.
pub open spec fn token_width(chars: Seq<char>, at: int) -> int
    recommends
        0 <= at < chars.len(),
{
    if chars[at] == ESCAPE && at + 1 < chars.len() {
        2
    } else {
        1
    }
}

/// The tokens of the characters from `chars[at]` on, read from left to right.
pub open spec fn tokens_from(chars: Seq<char>, at: int) -> Seq<Token>
    decreases chars.len() - at,
{
    if 0 <= at < chars.len() {
        seq![token_at(chars, at)] + tokens_from(chars, at + token_width(chars, at))
    } else {
        Seq::empty()
    }
}

/// The tokens of a whole pattern.
pub open spec fn tokenise_spec(chars: Seq<char>) -> Seq<Token> {
    tokens_from(chars, 0)
}

/// Splits a pattern into its tokens in one pass from left to right. Every
/// pattern has tokens: a malformed escape is a token of its own.
pub fn tokenise(pattern: &str) -> (tokens: Vec<Token>)
    ensures
        tokens@ == tokenise_spec(pattern@),
        tokens@.len() <= pattern@.len(),
        forall|i: int|
            0 <= i < tokens@.len() - 1 ==> !(#[trigger] tokens@[i] is TrailingEscapeCharacter),
{
    proof {
        lemma_tokens_from_shape(pattern@, 0);
    }
    let length = pattern.unicode_len();
    let mut tokens: Vec<Token> = Vec::new();
    let mut chars = pattern.chars();
    let mut position: usize = 0;
    loop
        invariant
            length == pattern@.len(),
            position <= length,
            chars.remaining() == pattern@.skip(position as int),
            tokens@ + tokens_from(pattern@, position as int) == tokenise_spec(pattern@),
        ensures
            tokens@ == tokenise_spec(pattern@),
        decreases length - position,
    {
        let meta = TokenMeta { position };
        let ghost done = tokens@;
        let ghost rest = tokens_from(pattern@, position as int);
        match chars.next() {
            None => {
                assert(done + rest =~= done);
                break;
            },
            Some(c) => {
                position = position + 1;
                if c != ESCAPE {
                    tokens.push(Token::Raw(c, meta));
                } else {
                    assert(chars.remaining() =~= pattern@.skip(position as int));
                    match chars.next() {
                        None => {
                            tokens.push(Token::TrailingEscapeCharacter(meta));
                        },
                        Some(escaped) => {
                            position = position + 1;
                            tokens.push(Token::Escaped(escaped, meta));
                        },
                    }
                }
            },
        }
        assert(chars.remaining() =~= pattern@.skip(position as int));
        assert(tokens@ + tokens_from(pattern@, position as int) =~= done + rest);
    }
    tokens
}

/// The character `chars[at]` as an unescaped token at its own position.
pub open spec fn raw_token_at(chars: Seq<char>, at: int) -> Token
    recommends
        0 <= at < chars.len(),
{
    Token::Raw(chars[at], TokenMeta { position: at as usize })
}

/// Every character as an unescaped token at its own position.
pub open spec fn raw_tokens(chars: Seq<char>) -> Seq<Token> {
    Seq::new(chars.len(), |i: int| raw_token_at(chars, i))
}

/// From any position on, a pattern without an escape has one unescaped token
/// for each character.
proof fn lemma_tokens_from_raw(chars: Seq<char>, at: int)
    requires
        0 <= at <= chars.len(),
        forall|i: int| 0 <= i < chars.len() ==> #[trigger] chars[i] != ESCAPE,
    ensures
        tokens_from(chars, at) == raw_tokens(chars).skip(at),
    decreases chars.len() - at,
{
    if at < chars.len() {
        lemma_tokens_from_raw(chars, at + 1);
        assert(token_at(chars, at) == raw_tokens(chars)[at]);
        assert(raw_tokens(chars).skip(at) =~= seq![raw_tokens(chars)[at]] + raw_tokens(chars).skip(
            at + 1,
        ));
    } else {
        assert(raw_tokens(chars).skip(at) =~= Seq::<Token>::empty());
    }
}

/// A pattern without an escape has one unescaped token for each character.
pub proof fn lemma_tokens_without_escape(chars: Seq<char>)
    requires
        forall|i: int| 0 <= i < chars.len() ==> #[trigger] chars[i] != ESCAPE,
    ensures
        tokenise_spec(chars) == raw_tokens(chars),
{
    lemma_tokens_from_raw(chars, 0);
    assert(raw_tokens(chars).skip(0) =~= raw_tokens(chars));
}

/// From any position on, a pattern whose only escape is its last character
/// has one unescaped token for each character before it, and a trailing
/// escape at the end.
proof fn lemma_tokens_from_trailing(prefix: Seq<char>, at: int)
    requires
        0 <= at <= prefix.len(),
        forall|i: int| 0 <= i < prefix.len() ==> #[trigger] prefix[i] != ESCAPE,
    ensures
        tokens_from(prefix.push(ESCAPE), at) == raw_tokens(prefix).skip(at).push(
            Token::TrailingEscapeCharacter(TokenMeta { position: prefix.len() as usize }),
        ),
    decreases prefix.len() - at,
{
    let chars = prefix.push(ESCAPE);
    let last = Token::TrailingEscapeCharacter(TokenMeta { position: prefix.len() as usize });
    if at < prefix.len() {
        lemma_tokens_from_trailing(prefix, at + 1);
        assert(chars[at] == prefix[at]);
        assert(token_at(chars, at) == raw_tokens(prefix)[at]);
        assert(raw_tokens(prefix).skip(at).push(last) =~= seq![raw_tokens(prefix)[at]] + raw_tokens(
            prefix,
        ).skip(at + 1).push(last));
    } else {
        assert(tokens_from(chars, at + 1) =~= Seq::<Token>::empty());
        assert(raw_tokens(prefix).skip(at).push(last) =~= seq![last]);
    }
}

/// A pattern whose only escape is its last character has one unescaped token
/// for each character before it, and a trailing escape at the end.
pub proof fn lemma_tokens_with_trailing_escape(prefix: Seq<char>)
    requires
        forall|i: int| 0 <= i < prefix.len() ==> #[trigger] prefix[i] != ESCAPE,
    ensures
        tokenise_spec(prefix.push(ESCAPE)) == raw_tokens(prefix).push(
            Token::TrailingEscapeCharacter(TokenMeta { position: prefix.len() as usize }),
        ),
{
    lemma_tokens_from_trailing(prefix, 0);
    assert(raw_tokens(prefix).skip(0) =~= raw_tokens(prefix));
}

/// There are no more tokens than characters, and only the last token can be
/// a trailing escape.
pub proof fn lemma_tokens_from_shape(chars: Seq<char>, at: int)
    requires
        0 <= at <= chars.len(),
    ensures
        tokens_from(chars, at).len() <= chars.len() - at,
        forall|i: int|
            0 <= i < tokens_from(chars, at).len() - 1 ==> !(
            #[trigger] tokens_from(chars, at)[i] is TrailingEscapeCharacter),
    decreases chars.len() - at,
{
    if at < chars.len() {
        let next = at + token_width(chars, at);
        if next <= chars.len() {
            lemma_tokens_from_shape(chars, next);
            let rest = tokens_from(chars, next);
            assert forall|i: int| 0 <= i < tokens_from(chars, at).len() - 1 implies !(
            #[trigger] tokens_from(chars, at)[i] is TrailingEscapeCharacter) by {
                if i > 0 {
                    assert(tokens_from(chars, at)[i] == rest[i - 1]);
                }
            }
        }
    }
}

} // verus!
