//! Token kinds produced by the tokenizer, and their text as a sequence of
//! source bytes.

use vstd::prelude::*;

verus! {

/// The control punctuation characters that form one-byte tokens.
#[derive(Debug, Clone, Copy, PartialEq, Eq)]
pub enum TokenControlKind {
    OpenCurly,
    CloseCurly,
    Colon,
    Semicolon,
    OpenSquare,
    CloseParentheses,
}

impl TokenControlKind {
    /// The source byte this control kind stands for.
    pub open spec fn spec_byte(self) -> u8 {
        match self {
            TokenControlKind::OpenCurly => 123,
            TokenControlKind::CloseCurly => 125,
            TokenControlKind::Colon => 58,
            TokenControlKind::Semicolon => 59,
            TokenControlKind::OpenSquare => 91,
            TokenControlKind::CloseParentheses => 41,
        }
    }

    pub fn byte(self) -> (r: u8)
        ensures
            r == self.spec_byte(),
    {
        match self {
            TokenControlKind::OpenCurly => 123,
            TokenControlKind::CloseCurly => 125,
            TokenControlKind::Colon => 58,
            TokenControlKind::Semicolon => 59,
            TokenControlKind::OpenSquare => 91,
            TokenControlKind::CloseParentheses => 41,
        }
    }

    /// The one-byte content a control token of this kind carries.
    pub fn text(self) -> (r: Vec<u8>)
        ensures
            r@ == seq![self.spec_byte()],
    {
        let mut r: Vec<u8> = Vec::new();
        r.push(self.byte());
        proof {
            assert(r@ =~= seq![self.spec_byte()]);
        }
        r
    }
}

/// One lexical token.
///
/// Every kind except `Space` and `BadBracket` records `pos`, the offset of its
/// first byte, and `next`, the offset of its last consumed byte. `BadBracket`
/// marks a `(` that does not open a well-formed group; it carries only its
/// position and stands for that single byte.
#[derive(Debug, PartialEq, Eq)]
pub enum Token {
    Space { content: Vec<u8> },
    Word { content: Vec<u8>, pos: usize, next: usize },
    String { content: Vec<u8>, pos: usize, next: usize },
    Comment { content: Vec<u8>, pos: usize, next: usize },
    AtWord { content: Vec<u8>, pos: usize, next: usize },
    Brackets { content: Vec<u8>, pos: usize, next: usize },
    Control { kind: TokenControlKind, content: Vec<u8>, pos: usize },
    BadBracket { pos: usize },
}

/// The source bytes a token stands for: its content, or the single byte `(`
/// for a `BadBracket`.
pub open spec fn token_text(t: Token) -> Seq<u8> {
    match t {
        Token::Space { content } => content@,
        Token::Word { content, .. } => content@,
        Token::String { content, .. } => content@,
        Token::Comment { content, .. } => content@,
        Token::AtWord { content, .. } => content@,
        Token::Brackets { content, .. } => content@,
        Token::Control { content, .. } => content@,
        Token::BadBracket { .. } => seq![40u8],
    }
}

impl Token {
    /// The token's content as owned bytes; a `BadBracket` yields `(`.
    pub fn get_content(&self) -> (r: Vec<u8>)
        ensures
            r@ == token_text(*self),
    {
        match self {
            Token::Space { content } => clone_bytes(content),
            Token::Word { content, .. } => clone_bytes(content),
            Token::String { content, .. } => clone_bytes(content),
            Token::Comment { content, .. } => clone_bytes(content),
            Token::AtWord { content, .. } => clone_bytes(content),
            Token::Brackets { content, .. } => clone_bytes(content),
            Token::Control { content, .. } => clone_bytes(content),
            Token::BadBracket { .. } => {
                let mut r: Vec<u8> = Vec::new();
                r.push(40);
                proof {
                    assert(r@ =~= seq![40u8]);
                }
                r
            },
        }
    }
}

/// Copies a byte vector element by element.
pub fn clone_bytes(v: &Vec<u8>) -> (r: Vec<u8>)
    ensures
        r@ == v@,
{
    let mut r: Vec<u8> = Vec::new();
    let mut i: usize = 0;
    while i < v.len()
        invariant
            i <= v.len(),
            r@ == v@.subrange(0, i as int),
        decreases v.len() - i,
    {
        r.push(v[i]);
        i = i + 1;
        proof {
            assert(r@ =~= v@.subrange(0, i as int));
        }
    }
    proof {
        assert(r@ =~= v@);
    }
    r
}

} // verus!
