//! The tree builder: drives the tokenizer leniently over the whole input and
//! assembles a lossless syntax tree, one token at a time.
//!
//! Construction contexts form a stack whose bottom is always the root. Spaces,
//! comments and free semicolons collect as pending trivia; words, strings,
//! brackets and stray punctuation collect in a buffer that becomes a rule
//! selector, an at-rule prelude or a declaration when the next structural
//! token decides which.

use vstd::prelude::*;

use crate::input::Input;
use crate::scan::TokenModel;
use crate::scan::lemma_tokens_cover;
use crate::scan::token_list;
use crate::tokenizer::Tokenizer;
use crate::tokenizer::token_model;
use crate::tokens::Token;
use crate::tokens::TokenControlKind;
use crate::tokens::token_text;
use crate::tree::Element;
use crate::tree::NodeKind;
use crate::tree::SyntaxNode;
use crate::tree::elem_text;
use crate::tree::lemma_seq_text_concat;
use crate::tree::lemma_seq_text_push;
use crate::tree::lemma_seq_text_singleton;
use crate::tree::lemma_seq_text_split;
use crate::tree::node_text;
use crate::tree::seq_text;

verus! {

/// A structural fault: an unbalanced closing brace at the root, at this
/// byte offset.
#[derive(Debug, Clone, Copy, PartialEq, Eq, Structural)]
pub struct ParseError {
    pub pos: usize,
}

/// The concatenated text held by a stack of open construction contexts,
/// bottom first.
pub open spec fn stack_text(s: Seq<SyntaxNode>) -> Seq<u8>
    decreases s,
{
    if s.len() == 0 {
        Seq::empty()
    } else {
        stack_text(s.drop_last()) + seq_text(s.last().children@)
    }
}

pub proof fn lemma_stack_text_push(s: Seq<SyntaxNode>, n: SyntaxNode)
    ensures
        stack_text(s.push(n)) == stack_text(s) + seq_text(n.children@),
{
    assert(s.push(n).drop_last() =~= s);
    assert(s.push(n).last() == n);
}

/// A pending-trivia leaf: a space, a comment, or a free semicolon. These are
/// the elements the parser holds back until a value or structural token
/// arrives, so they never decide what construct the buffer opens.
pub open spec fn is_trivia_elem(e: Element) -> bool {
    match e {
        Element::Token(t) => match t {
            Token::Space { .. } => true,
            Token::Comment { .. } => true,
            Token::Control { kind, .. } => kind == TokenControlKind::Semicolon,
            _ => false,
        },
        Element::Node(_) => false,
    }
}

/// Whether the first non-trivia buffered element is an at-word, which makes
/// the construct the buffer opens an at-rule.
pub open spec fn starts_at_word(buffer: Seq<Element>) -> bool
    decreases buffer,
{
    if buffer.len() == 0 {
        false
    } else if buffer[0] matches Element::Token(Token::AtWord { .. }) {
        true
    } else if is_trivia_elem(buffer[0]) {
        starts_at_word(buffer.drop_first())
    } else {
        false
    }
}

/// Whether the first non-trivia element of `buffer` is an at-word.
fn buffer_starts_at_word(buffer: &Vec<Element>) -> (r: bool)
    ensures
        r == starts_at_word(buffer@),
{
    let mut i: usize = 0;
    proof {
        assert(buffer@.skip(0) =~= buffer@);
    }
    while i < buffer.len()
        invariant
            i <= buffer.len(),
            starts_at_word(buffer@) == starts_at_word(buffer@.skip(i as int)),
        decreases buffer.len() - i,
    {
        proof {
            assert(buffer@.skip(i as int)[0] == buffer@[i as int]);
            assert(buffer@.skip(i as int).drop_first() =~= buffer@.skip(i + 1));
        }
        match &buffer[i] {
            Element::Token(t) => {
                match t {
                    Token::AtWord { .. } => {
                        return true;
                    },
                    Token::Space { .. } => {},
                    Token::Comment { .. } => {},
                    Token::Control { kind: TokenControlKind::Semicolon, .. } => {},
                    _ => {
                        return false;
                    },
                }
            },
            Element::Node(_) => {
                return false;
            },
        }
        i = i + 1;
    }
    proof {
        assert(buffer@.skip(i as int) =~= Seq::<Element>::empty());
    }
    false
}

/// The kind of node a `{` opens for the buffered selector.
pub open spec fn spec_open_kind(buffer: Seq<Element>) -> NodeKind {
    if starts_at_word(buffer) {
        NodeKind::AtRule
    } else {
        NodeKind::Rule
    }
}

/// The kind of node a flushed buffer becomes when closed by `;`, `}` or the
/// end of the input.
pub open spec fn spec_flush_kind(buffer: Seq<Element>) -> NodeKind {
    if starts_at_word(buffer) {
        NodeKind::AtRule
    } else {
        NodeKind::Prop
    }
}

/// The byte offset of the first closing brace that no brace opened inside
/// the token stream matches, starting from `depth` already-open contexts.
pub open spec fn stray_close_pos(toks: Seq<TokenModel>, depth: int) -> Option<int>
    decreases toks,
{
    if toks.len() == 0 {
        None
    } else {
        match toks[0] {
            TokenModel::Control { kind, pos, .. } => {
                if kind == TokenControlKind::CloseCurly {
                    if depth <= 0 {
                        Some(pos)
                    } else {
                        stray_close_pos(toks.drop_first(), depth - 1)
                    }
                } else if kind == TokenControlKind::OpenCurly {
                    stray_close_pos(toks.drop_first(), depth + 1)
                } else {
                    stray_close_pos(toks.drop_first(), depth)
                }
            },
            _ => stray_close_pos(toks.drop_first(), depth),
        }
    }
}

/// Moves every element of `src`, in order, to the end of `dst`.
fn move_all(dst: &mut Vec<Element>, src: &mut Vec<Element>)
    ensures
        final(dst)@ == old(dst)@ + old(src)@,
        final(src)@ == Seq::<Element>::empty(),
{
    while src.len() > 0
        invariant
            dst@ + src@ == old(dst)@ + old(src)@,
        decreases src.len(),
    {
        let e = src.remove(0);
        dst.push(e);
        proof {
            assert(dst@ + src@ =~= old(dst)@ + old(src)@);
        }
    }
    proof {
        assert(src@ =~= Seq::<Element>::empty());
        assert(dst@ =~= dst@ + src@);
    }
}

/// Builds a lossless syntax tree from an `Input`.
pub struct Parser<'a> {
    pub input: &'a Input,
    pub tokenizer: Tokenizer<'a>,
    pub stack: Vec<SyntaxNode>,
    pub buffer: Vec<Element>,
    pub spaces: Vec<Element>,
}

impl<'a> Parser<'a> {
    /// Every byte consumed so far, in order: the text already attached to the
    /// open contexts, then the buffered tokens, then the pending trivia.
    pub open spec fn consumed_text(self) -> Seq<u8> {
        stack_text(self.stack@) + seq_text(self.buffer@) + seq_text(self.spaces@)
    }

    /// The parser's invariant: a root frame at the bottom of the stack, a
    /// lenient tokenizer over the parser's own input, and every consumed
    /// byte accounted for exactly once.
    pub open spec fn inv(self) -> bool {
        &&& self.stack@.len() >= 1
        &&& self.stack@[0].kind == NodeKind::Root
        &&& self.tokenizer.wf()
        &&& self.tokenizer.ignore_errors
        &&& self.tokenizer.src() == self.input.source@
        &&& self.consumed_text() == self.input.source@.subrange(0, self.tokenizer.pos as int)
    }

    pub fn new(input: &'a Input) -> (r: Parser<'a>)
        ensures
            r.inv(),
            r.input == input,
            r.input.source@ == input.source@,
            r.tokenizer.pos == 0,
            r.tokenizer.prev_url == false,
            r.stack@.len() == 1,
            r.stack@[0].children@.len() == 0,
            r.stack@[0].own_semicolon is None,
            r.buffer@.len() == 0,
            r.spaces@.len() == 0,
    {
        let root = SyntaxNode { kind: NodeKind::Root, own_semicolon: None, children: Vec::new() };
        let mut stack: Vec<SyntaxNode> = Vec::new();
        stack.push(root);
        let r = Parser {
            input,
            tokenizer: Tokenizer::new(input, true),
            stack,
            buffer: Vec::new(),
            spaces: Vec::new(),
        };
        proof {
            assert(r.stack@.drop_last() =~= Seq::<SyntaxNode>::empty());
            assert(stack_text(Seq::<SyntaxNode>::empty()) =~= Seq::<u8>::empty());
            assert(r.consumed_text() =~= Seq::<u8>::empty());
            assert(input.source@.subrange(0, 0) =~= Seq::<u8>::empty());
        }
        r
    }

    /// The root of the tree built so far; after a successful `parse` it is
    /// the completed tree of the whole input.
    pub fn root(&self) -> (r: &SyntaxNode)
        requires
            self.stack@.len() >= 1,
        ensures
            *r == self.stack@[0],
    {
        &self.stack[0]
    }

    /// Any non-structural token: pending trivia flushes into the buffer and
    /// the token joins it.
    pub fn other(&mut self, token: Token)
        ensures
            final(self).stack == old(self).stack,
            final(self).tokenizer == old(self).tokenizer,
            final(self).input == old(self).input,
            final(self).spaces@ == Seq::<Element>::empty(),
            final(self).buffer@ == old(self).buffer@ + old(self).spaces@ + seq![
                Element::Token(token),
            ],
            final(self).consumed_text() == old(self).consumed_text() + token_text(token),
    {
        let ghost b0 = self.buffer@;
        let ghost sp0 = self.spaces@;
        move_all(&mut self.buffer, &mut self.spaces);
        self.buffer.push(Element::Token(token));
        proof {
            assert(self.buffer@ =~= b0 + sp0 + seq![Element::Token(token)]);
            lemma_seq_text_concat(b0 + sp0, seq![Element::Token(token)]);
            lemma_seq_text_concat(b0, sp0);
            lemma_seq_text_singleton(Element::Token(token));
            assert(seq_text(Seq::<Element>::empty()) =~= Seq::<u8>::empty());
            assert(final(self).consumed_text() =~= old(self).consumed_text() + token_text(
                token,
            ));
        }
    }

    /// A comment joins the pending trivia.
    pub fn comment(&mut self, token: Token)
        ensures
            final(self).stack == old(self).stack,
            final(self).buffer == old(self).buffer,
            final(self).tokenizer == old(self).tokenizer,
            final(self).input == old(self).input,
            final(self).spaces@ == old(self).spaces@.push(Element::Token(token)),
            final(self).consumed_text() == old(self).consumed_text() + token_text(token),
    {
        self.spaces.push(Element::Token(token));
        proof {
            lemma_seq_text_push(old(self).spaces@, Element::Token(token));
            lemma_seq_text_singleton(Element::Token(token));
            assert(final(self).consumed_text() =~= old(self).consumed_text() + token_text(
                token,
            ));
        }
    }

    /// An at-word opens an at-rule context: it starts (or extends) the
    /// buffered prelude, exactly as any other value token would.
    pub fn atrule(&mut self, token: Token)
        ensures
            final(self).stack == old(self).stack,
            final(self).tokenizer == old(self).tokenizer,
            final(self).input == old(self).input,
            final(self).spaces@ == Seq::<Element>::empty(),
            final(self).buffer@ == old(self).buffer@ + old(self).spaces@ + seq![
                Element::Token(token),
            ],
            final(self).consumed_text() == old(self).consumed_text() + token_text(token),
    {
        self.other(token);
    }

    /// An opening brace pushes a new rule (or at-rule) context whose leading
    /// children are the buffered selector, the pending trivia and the brace
    /// itself.
    pub fn empty_rule(&mut self, token: Token)
        ensures
            final(self).tokenizer == old(self).tokenizer,
            final(self).input == old(self).input,
            final(self).buffer@ == Seq::<Element>::empty(),
            final(self).spaces@ == Seq::<Element>::empty(),
            final(self).stack@.len() == old(self).stack@.len() + 1,
            final(self).stack@.drop_last() == old(self).stack@,
            final(self).stack@.last().kind == spec_open_kind(old(self).buffer@),
            final(self).stack@.last().own_semicolon is None,
            final(self).stack@.last().children@ == old(self).buffer@ + old(self).spaces@ + seq![
                Element::Token(token),
            ],
            final(self).consumed_text() == old(self).consumed_text() + token_text(token),
    {
        let ghost b0 = self.buffer@;
        let ghost sp0 = self.spaces@;
        let at = buffer_starts_at_word(&self.buffer);
        let kind = if at {
            NodeKind::AtRule
        } else {
            NodeKind::Rule
        };
        let mut children: Vec<Element> = Vec::new();
        move_all(&mut children, &mut self.buffer);
        move_all(&mut children, &mut self.spaces);
        children.push(Element::Token(token));
        proof {
            assert(children@ =~= b0 + sp0 + seq![Element::Token(token)]);
        }
        let frame = SyntaxNode { kind, own_semicolon: None, children };
        self.stack.push(frame);
        proof {
            assert(final(self).stack@.drop_last() =~= old(self).stack@);
            lemma_stack_text_push(old(self).stack@, frame);
            lemma_seq_text_concat(b0 + sp0, seq![Element::Token(token)]);
            lemma_seq_text_concat(b0, sp0);
            lemma_seq_text_singleton(Element::Token(token));
            assert(seq_text(Seq::<Element>::empty()) =~= Seq::<u8>::empty());
            assert(final(self).consumed_text() =~= old(self).consumed_text() + token_text(
                token,
            ));
        }
    }

    /// Flushes a non-empty buffer, together with the pending trivia, as a
    /// completed declaration or body-less at-rule attached to the innermost
    /// open context. An empty buffer leaves everything as it is.
    fn wrap_buffer(&mut self)
        requires
            old(self).stack@.len() >= 1,
        ensures
            final(self).tokenizer == old(self).tokenizer,
            final(self).input == old(self).input,
            final(self).consumed_text() == old(self).consumed_text(),
            old(self).buffer@.len() == 0 ==> *final(self) == *old(self),
            old(self).buffer@.len() > 0 ==> {
                &&& final(self).buffer@ == Seq::<Element>::empty()
                &&& final(self).spaces@ == Seq::<Element>::empty()
                &&& final(self).stack@.len() == old(self).stack@.len()
                &&& final(self).stack@.drop_last() == old(self).stack@.drop_last()
                &&& final(self).stack@.last().kind == old(self).stack@.last().kind
                &&& final(self).stack@.last().own_semicolon == old(
                    self,
                ).stack@.last().own_semicolon
                &&& final(self).stack@.last().children@.len() == old(
                    self,
                ).stack@.last().children@.len() + 1
                &&& final(self).stack@.last().children@.drop_last() == old(
                    self,
                ).stack@.last().children@
                &&& (final(self).stack@.last().children@.last() matches Element::Node(d)
                    && d.kind == spec_flush_kind(old(self).buffer@) && d.own_semicolon is None
                    && d.children@ == old(self).buffer@ + old(self).spaces@)
            },
    {
        if self.buffer.len() == 0 {
            return ;
        }
        let ghost b0 = self.buffer@;
        let ghost sp0 = self.spaces@;
        let at = buffer_starts_at_word(&self.buffer);
        let kind = if at {
            NodeKind::AtRule
        } else {
            NodeKind::Prop
        };
        let mut children: Vec<Element> = Vec::new();
        move_all(&mut children, &mut self.buffer);
        move_all(&mut children, &mut self.spaces);
        proof {
            assert(children@ =~= b0 + sp0);
        }
        let decl = SyntaxNode { kind, own_semicolon: None, children };
        let mut top = self.stack.pop().unwrap();
        top.children.push(Element::Node(decl));
        let ghost mid = self.stack@;
        self.stack.push(top);
        proof {
            assert(mid =~= old(self).stack@.drop_last());
            lemma_stack_text_push(mid, top);
            lemma_seq_text_push(old(self).stack@.last().children@, Element::Node(decl));
            lemma_seq_text_concat(b0, sp0);
            assert(seq_text(Seq::<Element>::empty()) =~= Seq::<u8>::empty());
            assert(final(self).consumed_text() =~= old(self).consumed_text());
            assert(final(self).stack@.drop_last() =~= old(self).stack@.drop_last());
        }
    }

    /// A semicolon: it terminates a buffered declaration or body-less
    /// at-rule; with nothing buffered it is a free semicolon, flushed as
    /// trivia, and when the rule just completed records that it owns its own
    /// terminating semicolon, that record is updated to say whether
    /// whitespace intervened before this one.
    pub fn free_semicolon(&mut self, token: Token)
        requires
            old(self).stack@.len() >= 1,
        ensures
            final(self).tokenizer == old(self).tokenizer,
            final(self).input == old(self).input,
            final(self).stack@.len() == old(self).stack@.len(),
            final(self).stack@[0].kind == old(self).stack@[0].kind,
            final(self).consumed_text() == old(self).consumed_text() + token_text(token),
            old(self).buffer@.len() > 0 ==> {
                &&& final(self).buffer@ == Seq::<Element>::empty()
                &&& final(self).spaces@ == Seq::<Element>::empty()
                &&& final(self).stack@.drop_last() == old(self).stack@.drop_last()
                &&& final(self).stack@.last().kind == old(self).stack@.last().kind
                &&& final(self).stack@.last().children@.len() == old(
                    self,
                ).stack@.last().children@.len() + 1
                &&& final(self).stack@.last().children@.drop_last() == old(
                    self,
                ).stack@.last().children@
                &&& (final(self).stack@.last().children@.last() matches Element::Node(d)
                    && d.kind == spec_flush_kind(
                        old(self).buffer@ + old(self).spaces@ + seq![Element::Token(token)],
                    ) && d.own_semicolon is None && d.children@ == old(self).buffer@ + old(
                        self,
                    ).spaces@ + seq![Element::Token(token)])
            },
            old(self).buffer@.len() == 0 ==> {
                &&& final(self).buffer@ == old(self).buffer@
                &&& final(self).spaces@ == old(self).spaces@.push(Element::Token(token))
                &&& final(self).stack@.drop_last() == old(self).stack@.drop_last()
                &&& final(self).stack@.last().kind == old(self).stack@.last().kind
                &&& final(self).stack@.last().children@ == own_semicolon_updated(
                    old(self).stack@.last().children@,
                    old(self).spaces@.len() > 0,
                )
            },
    {
        if self.buffer.len() > 0 {
            let ghost b0 = self.buffer@;
            let ghost sp0 = self.spaces@;
            self.other(token);
            self.wrap_buffer();
            proof {
                let all = b0 + sp0 + seq![Element::Token(token)];
                assert(all[0] == b0[0]);
                assert(all + Seq::<Element>::empty() =~= all);
                if old(self).stack@.len() == 1 {
                    assert(final(self).stack@[0] == final(self).stack@.last());
                    assert(old(self).stack@[0] == old(self).stack@.last());
                } else {
                    assert(final(self).stack@[0] == final(self).stack@.drop_last()[0]);
                    assert(old(self).stack@[0] == old(self).stack@.drop_last()[0]);
                }
            }
        } else {
            let intervened = self.spaces.len() > 0;
            let mut top = self.stack.pop().unwrap();
            let ghost ch0 = top.children@;
            if top.children.len() > 0 {
                let last = top.children.pop().unwrap();
                match last {
                    Element::Node(mut m) => {
                        if m.kind == NodeKind::Rule && matches!(m.own_semicolon, Some(true)) {
                            m.own_semicolon = Some(intervened);
                        }
                        top.children.push(Element::Node(m));
                        proof {
                            lemma_own_update_text(ch0, top.children@);
                        }
                    },
                    e => {
                        top.children.push(e);
                        proof {
                            assert(top.children@ =~= ch0);
                        }
                    },
                }
            }
            proof {
                assert(top.children@ =~= own_semicolon_updated(ch0, old(self).spaces@.len() > 0));
            }
            let ghost mid = self.stack@;
            self.stack.push(top);
            self.spaces.push(Element::Token(token));
            proof {
                assert(mid =~= old(self).stack@.drop_last());
                lemma_stack_text_push(mid, top);
                lemma_own_updated_same_text(ch0, old(self).spaces@.len() > 0);
                lemma_seq_text_push(old(self).spaces@, Element::Token(token));
                lemma_seq_text_singleton(Element::Token(token));
                assert(final(self).stack@.drop_last() =~= old(self).stack@.drop_last());
                assert(final(self).consumed_text() =~= old(self).consumed_text() + token_text(
                    token,
                ));
            }
        }
    }

    /// Consumes the whole input and assembles the tree.
    ///
    /// Tokenization is lenient, so no lexical fault can occur; the one
    /// failure is structural: the call returns the error exactly when the
    /// lenient token stream holds a closing brace that no brace opened
    /// during this parse matches, and the error carries that brace's byte
    /// offset. On success the stack has collapsed to the root, whose
    /// serialization is the entire source text.
    pub fn parse(&mut self) -> (r: Result<(), ParseError>)
        requires
            old(self).inv(),
        ensures
            final(self).input == old(self).input,
            r is Ok ==> final(self).inv(),
            r is Ok ==> final(self).buffer@.len() == 0 && final(self).spaces@.len() == 0
                && final(self).tokenizer.spec_eof(),
            ({
                let src = old(self).input.source@;
                let toks = token_list(
                    src,
                    old(self).tokenizer.pos as int,
                    old(self).tokenizer.prev_url,
                    true,
                )->Some_0;
                let stray = stray_close_pos(toks, old(self).stack@.len() - 1);
                match r {
                    Ok(()) => stray is None && final(self).stack@.len() == 1 && node_text(
                        final(self).stack@[0],
                    ) == src,
                    Err(e) => stray matches Some(p) && e.pos as int == p,
                }
            }),
    {
        let ghost src = self.input.source@;
        proof {
            lemma_tokens_cover(src, self.tokenizer.pos as int, self.tokenizer.prev_url);
        }
        let ghost stray0 = stray_close_pos(
            token_list(src, self.tokenizer.pos as int, self.tokenizer.prev_url, true)->Some_0,
            self.stack@.len() - 1,
        );
        loop
            invariant
                self.inv(),
                self.input == old(self).input,
                self.input.source@ == src,
                src == old(self).input.source@,
                token_list(src, self.tokenizer.pos as int, self.tokenizer.prev_url, true)
                    is Some,
                stray_close_pos(
                    token_list(
                        src,
                        self.tokenizer.pos as int,
                        self.tokenizer.prev_url,
                        true,
                    )->Some_0,
                    self.stack@.len() - 1,
                ) == stray0,
                stray0 == stray_close_pos(
                    token_list(
                        src,
                        old(self).tokenizer.pos as int,
                        old(self).tokenizer.prev_url,
                        true,
                    )->Some_0,
                    old(self).stack@.len() - 1,
                ),
            ensures
                self.inv(),
                self.input == old(self).input,
                self.input.source@ == src,
                src == old(self).input.source@,
                self.tokenizer.spec_eof(),
                stray0 is None,
                stray0 == stray_close_pos(
                    token_list(
                        src,
                        old(self).tokenizer.pos as int,
                        old(self).tokenizer.prev_url,
                        true,
                    )->Some_0,
                    old(self).stack@.len() - 1,
                ),
            decreases src.len() - self.tokenizer.pos,
        {
            if self.tokenizer.end_of_file() {
                proof {
                    let toks = token_list(
                        src,
                        self.tokenizer.pos as int,
                        self.tokenizer.prev_url,
                        true,
                    )->Some_0;
                    assert(toks =~= Seq::<TokenModel>::empty());
                }
                break;
            }
            let ghost pos0 = self.tokenizer.pos as int;
            let ghost url0 = self.tokenizer.prev_url;
            let ghost d0 = self.stack@.len() - 1;
            let tok_res = self.tokenizer.next_token(true);
            let token = match tok_res {
                Ok(t) => t,
                Err(_) => {
                    proof {
                        assert(false);
                    }
                    return Err(ParseError { pos: 0 });
                },
            };
            let ghost tm = token_model(token);
            let ghost end = self.tokenizer.pos as int;
            let ghost u2 = self.tokenizer.prev_url;
            let ghost rest = token_list(src, end, u2, true)->Some_0;
            proof {
                lemma_tokens_cover(src, end, u2);
                assert(crate::scan::scan(src, pos0, url0, true) == (crate::scan::Scan::Tok {
                    t: tm,
                    end,
                    url: u2,
                }));
                assert(token_list(src, pos0, url0, true) == Some(seq![tm] + rest));
                assert((seq![tm] + rest)[0] == tm);
                assert((seq![tm] + rest).drop_first() =~= rest);
                assert(src.subrange(0, pos0) + src.subrange(pos0, end) =~= src.subrange(0, end));
            }
            match token {
                t @ Token::Space { .. } => {
                    let ghost sp0 = self.spaces@;
                    self.spaces.push(Element::Token(t));
                    proof {
                        lemma_seq_text_push(sp0, Element::Token(t));
                        lemma_seq_text_singleton(Element::Token(t));
                        assert(self.consumed_text() =~= src.subrange(0, end));
                        assert(stray_close_pos(seq![tm] + rest, d0) == stray_close_pos(rest, d0));
                    }
                },
                t @ Token::Control { kind: TokenControlKind::Semicolon, .. } => {
                    self.free_semicolon(t);
                    proof {
                        assert(self.consumed_text() =~= src.subrange(0, end));
                        assert(stray_close_pos(seq![tm] + rest, d0) == stray_close_pos(rest, d0));
                    }
                },
                t @ Token::Control { kind: TokenControlKind::CloseCurly, .. } => {
                    match self.end(t) {
                        Ok(()) => {
                            proof {
                                assert(self.consumed_text() =~= src.subrange(0, end));
                                assert(stray_close_pos(seq![tm] + rest, d0) == stray_close_pos(
                                    rest,
                                    d0 - 1,
                                ));
                            }
                        },
                        Err(e) => {
                            proof {
                                assert(stray_close_pos(seq![tm] + rest, d0) == Some(
                                    e.pos as int,
                                ));
                            }
                            return Err(e);
                        },
                    }
                },
                t @ Token::Control { kind: TokenControlKind::OpenCurly, .. } => {
                    self.empty_rule(t);
                    proof {
                        assert(self.stack@[0] == self.stack@.drop_last()[0]);
                        assert(self.consumed_text() =~= src.subrange(0, end));
                        assert(stray_close_pos(seq![tm] + rest, d0) == stray_close_pos(
                            rest,
                            d0 + 1,
                        ));
                    }
                },
                t @ Token::Comment { .. } => {
                    self.comment(t);
                    proof {
                        assert(self.consumed_text() =~= src.subrange(0, end));
                        assert(stray_close_pos(seq![tm] + rest, d0) == stray_close_pos(rest, d0));
                    }
                },
                t @ Token::AtWord { .. } => {
                    self.atrule(t);
                    proof {
                        assert(self.consumed_text() =~= src.subrange(0, end));
                        assert(stray_close_pos(seq![tm] + rest, d0) == stray_close_pos(rest, d0));
                    }
                },
                t => {
                    self.other(t);
                    proof {
                        assert(self.consumed_text() =~= src.subrange(0, end));
                        assert(stray_close_pos(seq![tm] + rest, d0) == stray_close_pos(rest, d0));
                    }
                },
            }
        }
        let ghost before = *self;
        self.end_file();
        proof {
            assert(src.subrange(0, src.len() as int) =~= src);
            assert(node_text(self.stack@[0]) == before.consumed_text());
            assert(before.consumed_text() == src);
            assert(self.stack@.drop_last() =~= Seq::<SyntaxNode>::empty());
            assert(stack_text(Seq::<SyntaxNode>::empty()) =~= Seq::<u8>::empty());
            assert(stack_text(self.stack@) =~= node_text(self.stack@[0]));
            assert(seq_text(Seq::<Element>::empty()) =~= Seq::<u8>::empty());
            assert(self.consumed_text() =~= src);
        }
        Ok(())
    }

    /// A closing brace: closes the innermost open rule or at-rule, first
    /// flushing any buffered declaration and pending trivia into it. A brace
    /// with no open context to close is a structural fault at its offset.
    pub fn end(&mut self, token: Token) -> (r: Result<(), ParseError>)
        requires
            old(self).stack@.len() >= 1,
            token matches Token::Control { kind: TokenControlKind::CloseCurly, .. },
        ensures
            final(self).tokenizer == old(self).tokenizer,
            final(self).input == old(self).input,
            r is Err <==> old(self).stack@.len() == 1,
            r matches Err(e) ==> *final(self) == *old(self) && (token matches Token::Control {
                pos,
                ..
            } && e.pos == pos),
            r is Ok ==> {
                &&& final(self).stack@.len() == old(self).stack@.len() - 1
                &&& final(self).stack@[0].kind == old(self).stack@[0].kind
                &&& final(self).buffer@ == Seq::<Element>::empty()
                &&& final(self).spaces@ == Seq::<Element>::empty()
                &&& final(self).consumed_text() == old(self).consumed_text() + token_text(token)
            },
    {
        if self.stack.len() == 1 {
            let p = match &token {
                Token::Control { pos, .. } => *pos,
                _ => 0,
            };
            return Err(ParseError { pos: p });
        }
        self.wrap_buffer();
        let ghost snap = *self;
        let mut top = self.stack.pop().unwrap();
        let ghost ch1 = top.children@;
        move_all(&mut top.children, &mut self.spaces);
        top.children.push(Element::Token(token));
        let mut parent = self.stack.pop().unwrap();
        let ghost pch = parent.children@;
        parent.children.push(Element::Node(top));
        let ghost mid = self.stack@;
        self.stack.push(parent);
        proof {
            let s1 = snap.stack@;
            assert(mid =~= s1.drop_last().drop_last());
            lemma_stack_text_push(mid, parent);
            lemma_seq_text_push(pch, Element::Node(top));
            lemma_seq_text_concat(ch1, snap.spaces@);
            lemma_seq_text_push(ch1 + snap.spaces@, Element::Token(token));
            lemma_seq_text_singleton(Element::Token(token));
            assert(top.children@ =~= (ch1 + snap.spaces@).push(Element::Token(token)));
            assert(stack_text(s1) == stack_text(s1.drop_last()) + seq_text(ch1));
            assert(stack_text(s1.drop_last()) == stack_text(mid) + seq_text(pch));
            assert(seq_text(Seq::<Element>::empty()) =~= Seq::<u8>::empty());
            assert(final(self).consumed_text() =~= snap.consumed_text() + token_text(token));
        }
        Ok(())
    }

    /// The end of the input: a buffered declaration is flushed, every open
    /// context is implicitly closed, and the remaining trivia becomes
    /// trailing trivia of the root.
    pub fn end_file(&mut self)
        requires
            old(self).stack@.len() >= 1,
        ensures
            final(self).tokenizer == old(self).tokenizer,
            final(self).input == old(self).input,
            final(self).stack@.len() == 1,
            final(self).stack@[0].kind == old(self).stack@[0].kind,
            final(self).buffer@ == Seq::<Element>::empty(),
            final(self).spaces@ == Seq::<Element>::empty(),
            node_text(final(self).stack@[0]) == old(self).consumed_text(),
    {
        self.wrap_buffer();
        proof {
            assert(seq_text(Seq::<Element>::empty()) =~= Seq::<u8>::empty());
            if old(self).buffer@.len() > 0 {
                if old(self).stack@.len() == 1 {
                    assert(self.stack@[0] == self.stack@.last());
                    assert(old(self).stack@[0] == old(self).stack@.last());
                } else {
                    assert(self.stack@[0] == self.stack@.drop_last()[0]);
                    assert(old(self).stack@[0] == old(self).stack@.drop_last()[0]);
                }
            }
            assert(stack_text(self.stack@) + seq_text(self.spaces@) =~= self.consumed_text());
        }
        while self.stack.len() > 1
            invariant
                self.stack@.len() >= 1,
                self.stack@[0].kind == old(self).stack@[0].kind,
                self.tokenizer == old(self).tokenizer,
                self.input == old(self).input,
                self.buffer@ == Seq::<Element>::empty(),
                stack_text(self.stack@) + seq_text(self.spaces@) == old(self).consumed_text(),
            decreases self.stack@.len(),
        {
            let ghost s1 = self.stack@;
            let top = self.stack.pop().unwrap();
            let mut parent = self.stack.pop().unwrap();
            let ghost pch = parent.children@;
            parent.children.push(Element::Node(top));
            let ghost mid = self.stack@;
            self.stack.push(parent);
            proof {
                assert(mid =~= s1.drop_last().drop_last());
                lemma_stack_text_push(mid, parent);
                lemma_seq_text_push(pch, Element::Node(top));
                assert(stack_text(s1) == stack_text(s1.drop_last()) + seq_text(
                    top.children@,
                ));
                assert(stack_text(s1.drop_last()) == stack_text(mid) + seq_text(pch));
                assert(stack_text(self.stack@) =~= stack_text(s1));
            }
        }
        let ghost s_end = self.stack@;
        let mut root = self.stack.pop().unwrap();
        let ghost rch = root.children@;
        let ghost sp1 = self.spaces@;
        move_all(&mut root.children, &mut self.spaces);
        self.stack.push(root);
        proof {
            assert(s_end.drop_last() =~= Seq::<SyntaxNode>::empty());
            assert(stack_text(Seq::<SyntaxNode>::empty()) =~= Seq::<u8>::empty());
            assert(stack_text(s_end) == stack_text(s_end.drop_last()) + seq_text(
                s_end.last().children@,
            ));
            assert(stack_text(s_end) =~= seq_text(rch));
            assert(root.children@ =~= rch + sp1);
            lemma_seq_text_concat(rch, sp1);
            assert(self.stack@[0] == root);
            assert(node_text(self.stack@[0]) =~= old(self).consumed_text());
            assert(seq_text(Seq::<Element>::empty()) =~= Seq::<u8>::empty());
        }
    }
}

/// The free-semicolon bookkeeping: when the most recently
/// completed child is a rule that records owning its semicolon, that record
/// becomes whether whitespace intervened; otherwise nothing changes.
pub open spec fn own_semicolon_updated(ch: Seq<Element>, intervened: bool) -> Seq<Element> {
    if ch.len() > 0 {
        match ch.last() {
            Element::Node(m) => {
                if m.kind == NodeKind::Rule && m.own_semicolon == Some(true) {
                    ch.update(
                        ch.len() - 1,
                        Element::Node(
                            SyntaxNode {
                                kind: m.kind,
                                own_semicolon: Some(intervened),
                                children: m.children,
                            },
                        ),
                    )
                } else {
                    ch
                }
            },
            _ => ch,
        }
    } else {
        ch
    }
}

proof fn lemma_own_update_text(a: Seq<Element>, b: Seq<Element>)
    requires
        a.len() == b.len(),
        a.len() > 0,
        forall|j: int| 0 <= j < a.len() - 1 ==> a[j] == b[j],
        ({
            match (a.last(), b.last()) {
                (Element::Node(m1), Element::Node(m2)) => m1.children == m2.children,
                (x, y) => x == y,
            }
        }),
    ensures
        seq_text(a) == seq_text(b),
{
    let i = a.len() - 1;
    lemma_seq_text_split(a, i);
    lemma_seq_text_split(b, i);
    assert(a.take(i) =~= b.take(i));
    assert(a.skip(i + 1) =~= b.skip(i + 1));
    assert(elem_text(a[i]) == elem_text(b[i]));
}

proof fn lemma_own_updated_same_text(ch: Seq<Element>, intervened: bool)
    ensures
        seq_text(own_semicolon_updated(ch, intervened)) == seq_text(ch),
{
    let u = own_semicolon_updated(ch, intervened);
    if u != ch {
        lemma_own_update_text(ch, u);
    }
}

} // verus!
