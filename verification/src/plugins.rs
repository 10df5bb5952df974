//! Tree-walking clients of the syntax tree: re-emitting a document with its
//! whitespace removed (textually or by editing the tree) and re-emitting it
//! with each declaration's text reversed.

use vstd::prelude::*;

use crate::tokens::Token;
use crate::tokens::token_text;
use crate::tree::Element;
use crate::tree::NodeKind;
use crate::tree::elem_text;
use crate::tree::SyntaxNode;
use crate::tree::node_text;
use crate::tree::seq_text;

verus! {

/// The bytes of an element with every space token dropped.
pub open spec fn stripped_elem(e: Element) -> Seq<u8>
    decreases e,
{
    match e {
        Element::Token(t) => if t matches Token::Space { .. } {
            Seq::empty()
        } else {
            token_text(t)
        },
        Element::Node(n) => stripped_seq(n.children@),
    }
}

pub open spec fn stripped_seq(s: Seq<Element>) -> Seq<u8>
    decreases s,
{
    if s.len() == 0 {
        Seq::empty()
    } else {
        stripped_elem(s[0]) + stripped_seq(s.drop_first())
    }
}

pub proof fn lemma_stripped_seq_concat(a: Seq<Element>, b: Seq<Element>)
    ensures
        stripped_seq(a + b) == stripped_seq(a) + stripped_seq(b),
    decreases a,
{
    if a.len() == 0 {
        assert(a + b =~= b);
        assert(stripped_seq(a) + stripped_seq(b) =~= stripped_seq(b));
    } else {
        assert((a + b)[0] == a[0]);
        assert((a + b).drop_first() =~= a.drop_first() + b);
        lemma_stripped_seq_concat(a.drop_first(), b);
        assert(stripped_elem(a[0]) + stripped_seq(a.drop_first()) + stripped_seq(b)
            =~= stripped_elem(a[0]) + (stripped_seq(a.drop_first()) + stripped_seq(b)));
    }
}

proof fn lemma_stripped_seq_singleton(e: Element)
    ensures
        stripped_seq(seq![e]) == stripped_elem(e),
{
    assert(seq![e].drop_first() =~= Seq::<Element>::empty());
    assert(stripped_seq(Seq::<Element>::empty()) =~= Seq::<u8>::empty());
    assert(stripped_elem(e) + Seq::<u8>::empty() =~= stripped_elem(e));
}

/// Walks the tree and appends every non-space token's bytes, in order.
pub fn remove_space(node: &SyntaxNode, output: &mut Vec<u8>)
    ensures
        final(output)@ == old(output)@ + stripped_seq(node.children@),
{
    remove_space_children(&node.children, output);
}

fn remove_space_elem(e: &Element, output: &mut Vec<u8>)
    ensures
        final(output)@ == old(output)@ + stripped_elem(*e),
    decreases *e,
{
    match e {
        Element::Token(t) => {
            if !matches!(t, Token::Space { .. }) {
                let mut c = t.get_content();
                output.append(&mut c);
            } else {
                proof {
                    assert(output@ =~= output@ + Seq::<u8>::empty());
                }
            }
        },
        Element::Node(n) => {
            remove_space_children(&n.children, output);
        },
    }
}

fn remove_space_children(children: &Vec<Element>, output: &mut Vec<u8>)
    ensures
        final(output)@ == old(output)@ + stripped_seq(children@),
    decreases children@,
{
    let ghost base = output@;
    let mut i: usize = 0;
    while i < children.len()
        invariant
            i <= children.len(),
            output@ == base + stripped_seq(children@.take(i as int)),
        decreases children.len() - i,
    {
        proof {
            assert(children@.take(i + 1) =~= children@.take(i as int) + seq![
                children@[i as int],
            ]);
            lemma_stripped_seq_concat(children@.take(i as int), seq![children@[i as int]]);
            lemma_stripped_seq_singleton(children@[i as int]);
        }
        remove_space_elem(&children[i], output);
        i = i + 1;
        proof {
            assert(output@ =~= base + stripped_seq(children@.take(i as int)));
        }
    }
    proof {
        assert(children@.take(children@.len() as int) =~= children@);
    }
}

/// `post` is `pre` with every space token removed, at every depth, and
/// nothing else changed: every kept token carries the same kind, content and
/// offsets, and every node keeps its kind and metadata.
pub open spec fn space_stripped(pre: Seq<Element>, post: Seq<Element>) -> bool
    decreases pre,
{
    if pre.len() == 0 {
        post.len() == 0
    } else {
        match pre[0] {
            Element::Token(t) => {
                if t matches Token::Space { .. } {
                    space_stripped(pre.drop_first(), post)
                } else {
                    post.len() > 0 && (match post[0] {
                        Element::Token(t2) => crate::tree::same_token(t, t2),
                        Element::Node(_) => false,
                    }) && space_stripped(pre.drop_first(), post.drop_first())
                }
            },
            Element::Node(m) => {
                post.len() > 0 && (match post[0] {
                    Element::Node(m2) => m2.kind == m.kind && m2.own_semicolon
                        == m.own_semicolon && space_stripped(m.children@, m2.children@),
                    Element::Token(_) => false,
                }) && space_stripped(pre.drop_first(), post.drop_first())
            },
        }
    }
}

pub proof fn lemma_space_stripped_concat(a: Seq<Element>, b: Seq<Element>, a2: Seq<Element>, b2: Seq<Element>)
    requires
        space_stripped(a, b),
        space_stripped(a2, b2),
    ensures
        space_stripped(a + a2, b + b2),
    decreases a,
{
    if a.len() == 0 {
        assert(a + a2 =~= a2);
        assert(b + b2 =~= b2);
    } else {
        assert((a + a2)[0] == a[0]);
        assert((a + a2).drop_first() =~= a.drop_first() + a2);
        match a[0] {
            Element::Token(t) => {
                if t matches Token::Space { .. } {
                    lemma_space_stripped_concat(a.drop_first(), b, a2, b2);
                } else {
                    assert((b + b2)[0] == b[0]);
                    assert((b + b2).drop_first() =~= b.drop_first() + b2);
                    lemma_space_stripped_concat(a.drop_first(), b.drop_first(), a2, b2);
                }
            },
            Element::Node(_) => {
                assert((b + b2)[0] == b[0]);
                assert((b + b2).drop_first() =~= b.drop_first() + b2);
                lemma_space_stripped_concat(a.drop_first(), b.drop_first(), a2, b2);
            },
        }
    }
}

/// The edited tree serializes to exactly the space-stripped text of the
/// original.
pub proof fn lemma_space_stripped_text(pre: Seq<Element>, post: Seq<Element>)
    requires
        space_stripped(pre, post),
    ensures
        seq_text(post) == stripped_seq(pre),
    decreases pre,
{
    if pre.len() == 0 {
        assert(post =~= Seq::<Element>::empty());
        assert(seq_text(post) =~= Seq::<u8>::empty());
    } else {
        match pre[0] {
            Element::Token(t) => {
                if t matches Token::Space { .. } {
                    lemma_space_stripped_text(pre.drop_first(), post);
                    assert(stripped_seq(pre) == stripped_elem(pre[0]) + stripped_seq(
                        pre.drop_first(),
                    ));
                    assert(Seq::<u8>::empty() + stripped_seq(pre.drop_first()) =~= stripped_seq(
                        pre.drop_first(),
                    ));
                } else {
                    lemma_space_stripped_text(pre.drop_first(), post.drop_first());
                    assert(seq_text(post) == crate::tree::elem_text(post[0]) + seq_text(
                        post.drop_first(),
                    ));
                    assert(stripped_seq(pre) == stripped_elem(pre[0]) + stripped_seq(
                        pre.drop_first(),
                    ));
                    match post[0] {
                        Element::Token(t2) => {
                            crate::tokenizer::lemma_token_text_model(t);
                            crate::tokenizer::lemma_token_text_model(t2);
                        },
                        Element::Node(_) => {},
                    }
                }
            },
            Element::Node(m) => {
                match post[0] {
                    Element::Node(m2) => {
                        lemma_space_stripped_text(m.children@, m2.children@);
                        lemma_space_stripped_text(pre.drop_first(), post.drop_first());
                        assert(seq_text(post) == crate::tree::elem_text(post[0]) + seq_text(
                            post.drop_first(),
                        ));
                        assert(crate::tree::elem_text(post[0]) == seq_text(m2.children@));
                        assert(stripped_seq(pre) == stripped_elem(pre[0]) + stripped_seq(
                            pre.drop_first(),
                        ));
                        assert(stripped_elem(pre[0]) == stripped_seq(m.children@));
                    },
                    Element::Token(_) => {},
                }
            },
        }
    }
}

/// How many space tokens an element holds, at every depth.
pub open spec fn space_count_elem(e: Element) -> nat
    decreases e,
{
    match e {
        Element::Token(t) => if t matches Token::Space { .. } {
            1nat
        } else {
            0nat
        },
        Element::Node(n) => space_count_seq(n.children@),
    }
}

pub open spec fn space_count_seq(s: Seq<Element>) -> nat
    decreases s,
{
    if s.len() == 0 {
        0nat
    } else {
        space_count_elem(s[0]) + space_count_seq(s.drop_first())
    }
}

/// The offset, within the element's text, where its first space token starts.
pub open spec fn first_space_offset_elem(e: Element) -> int
    decreases e,
{
    match e {
        Element::Token(_) => 0,
        Element::Node(n) => first_space_offset_seq(n.children@),
    }
}

pub open spec fn first_space_offset_seq(s: Seq<Element>) -> int
    decreases s,
{
    if s.len() == 0 {
        0
    } else if space_count_elem(s[0]) >= 1 {
        first_space_offset_elem(s[0])
    } else {
        elem_text(s[0]).len() + first_space_offset_seq(s.drop_first())
    }
}

/// The byte length of the element's first space token.
pub open spec fn first_space_len_elem(e: Element) -> int
    decreases e,
{
    match e {
        Element::Token(t) => match t {
            Token::Space { content } => content@.len() as int,
            _ => 0,
        },
        Element::Node(n) => first_space_len_seq(n.children@),
    }
}

pub open spec fn first_space_len_seq(s: Seq<Element>) -> int
    decreases s,
{
    if s.len() == 0 {
        0
    } else if space_count_elem(s[0]) >= 1 {
        first_space_len_elem(s[0])
    } else {
        first_space_len_seq(s.drop_first())
    }
}

proof fn lemma_strip_no_space_elem(e: Element)
    requires
        space_count_elem(e) == 0,
    ensures
        stripped_elem(e) == elem_text(e),
    decreases e,
{
    match e {
        Element::Token(_) => {},
        Element::Node(n) => {
            lemma_strip_no_space_seq(n.children@);
        },
    }
}

proof fn lemma_strip_no_space_seq(s: Seq<Element>)
    requires
        space_count_seq(s) == 0,
    ensures
        stripped_seq(s) == seq_text(s),
    decreases s,
{
    if s.len() > 0 {
        lemma_strip_no_space_elem(s[0]);
        lemma_strip_no_space_seq(s.drop_first());
    }
}

proof fn lemma_strip_single_space_elem(e: Element)
    requires
        space_count_elem(e) == 1,
    ensures
        ({
            let full = elem_text(e);
            let a = first_space_offset_elem(e);
            let b = a + first_space_len_elem(e);
            &&& 0 <= a <= b <= full.len()
            &&& stripped_elem(e) == full.subrange(0, a) + full.subrange(b, full.len() as int)
        }),
    decreases e,
{
    match e {
        Element::Token(t) => {
            let full = elem_text(e);
            assert(full.subrange(0, 0) =~= Seq::<u8>::empty());
            assert(full.subrange(full.len() as int, full.len() as int) =~= Seq::<u8>::empty());
            assert(Seq::<u8>::empty() + Seq::<u8>::empty() =~= Seq::<u8>::empty());
        },
        Element::Node(n) => {
            lemma_strip_single_space_seq(n.children@);
        },
    }
}

proof fn lemma_strip_single_space_seq(s: Seq<Element>)
    requires
        space_count_seq(s) == 1,
    ensures
        ({
            let full = seq_text(s);
            let a = first_space_offset_seq(s);
            let b = a + first_space_len_seq(s);
            &&& 0 <= a <= b <= full.len()
            &&& stripped_seq(s) == full.subrange(0, a) + full.subrange(b, full.len() as int)
        }),
    decreases s,
{
    let full = seq_text(s);
    let e0 = elem_text(s[0]);
    let r = seq_text(s.drop_first());
    assert(full == e0 + r);
    if space_count_elem(s[0]) >= 1 {
        lemma_strip_single_space_elem(s[0]);
        lemma_strip_no_space_seq(s.drop_first());
        let a = first_space_offset_elem(s[0]);
        let b = a + first_space_len_elem(s[0]);
        assert(full.subrange(0, a) =~= e0.subrange(0, a));
        assert(full.subrange(b, full.len() as int) =~= e0.subrange(b, e0.len() as int) + r);
        assert((e0.subrange(0, a) + e0.subrange(b, e0.len() as int)) + r =~= e0.subrange(0, a)
            + (e0.subrange(b, e0.len() as int) + r));
    } else {
        lemma_strip_no_space_elem(s[0]);
        lemma_strip_single_space_seq(s.drop_first());
        let a2 = first_space_offset_seq(s.drop_first());
        let b2 = a2 + first_space_len_seq(s.drop_first());
        let a = e0.len() + a2;
        let b = a + first_space_len_seq(s.drop_first());
        assert(full.subrange(0, a as int) =~= e0 + r.subrange(0, a2));
        assert(full.subrange(b as int, full.len() as int) =~= r.subrange(b2, r.len() as int));
        assert(e0 + (r.subrange(0, a2) + r.subrange(b2, r.len() as int)) =~= (e0 + r.subrange(
            0,
            a2,
        )) + r.subrange(b2, r.len() as int));
    }
}

/// Removing the spaces of a tree that holds exactly one space token removes
/// exactly that token's byte range: the edited tree serializes to the text
/// before the space followed by the text after it.
pub proof fn lemma_remove_single_space(pre: Seq<Element>, post: Seq<Element>)
    requires
        space_stripped(pre, post),
        space_count_seq(pre) == 1,
    ensures
        ({
            let full = seq_text(pre);
            let a = first_space_offset_seq(pre);
            let b = a + first_space_len_seq(pre);
            &&& 0 <= a <= b <= full.len()
            &&& seq_text(post) == full.subrange(0, a) + full.subrange(b, full.len() as int)
        }),
{
    lemma_space_stripped_text(pre, post);
    lemma_strip_single_space_seq(pre);
}

fn strip_elem(e: &Element) -> (r: Option<Element>)
    ensures
        match r {
            Some(e2) => space_stripped(seq![*e], seq![e2]),
            None => space_stripped(seq![*e], Seq::<Element>::empty()),
        },
    decreases *e,
{
    proof {
        assert(seq![*e].drop_first() =~= Seq::<Element>::empty());
        assert(space_stripped(Seq::<Element>::empty(), Seq::<Element>::empty()));
    }
    match e {
        Element::Token(t) => {
            if matches!(t, Token::Space { .. }) {
                None
            } else {
                let t2 = crate::tree::clone_token(t);
                proof {
                    assert(seq![Element::Token(t2)].drop_first() =~= Seq::<Element>::empty());
                }
                Some(Element::Token(t2))
            }
        },
        Element::Node(m) => {
            let children = strip_children_vec(&m.children);
            let m2 = SyntaxNode { kind: m.kind, own_semicolon: m.own_semicolon, children };
            proof {
                assert(seq![Element::Node(m2)].drop_first() =~= Seq::<Element>::empty());
            }
            Some(Element::Node(m2))
        },
    }
}

fn strip_children_vec(children: &Vec<Element>) -> (r: Vec<Element>)
    ensures
        space_stripped(children@, r@),
    decreases children@,
{
    let mut out: Vec<Element> = Vec::new();
    let mut i: usize = 0;
    proof {
        assert(children@.take(0) =~= Seq::<Element>::empty());
        assert(space_stripped(Seq::<Element>::empty(), Seq::<Element>::empty()));
    }
    while i < children.len()
        invariant
            i <= children.len(),
            space_stripped(children@.take(i as int), out@),
        decreases children.len() - i,
    {
        let ghost out0 = out@;
        match strip_elem(&children[i]) {
            Some(e2) => {
                out.push(e2);
                proof {
                    lemma_space_stripped_concat(
                        children@.take(i as int),
                        out0,
                        seq![children@[i as int]],
                        seq![e2],
                    );
                    assert(children@.take(i + 1) =~= children@.take(i as int) + seq![
                        children@[i as int],
                    ]);
                    assert(out0 + seq![e2] =~= out@);
                }
            },
            None => {
                proof {
                    lemma_space_stripped_concat(
                        children@.take(i as int),
                        out0,
                        seq![children@[i as int]],
                        Seq::<Element>::empty(),
                    );
                    assert(children@.take(i + 1) =~= children@.take(i as int) + seq![
                        children@[i as int],
                    ]);
                    assert(out0 + Seq::<Element>::empty() =~= out@);
                }
            },
        }
        i = i + 1;
    }
    proof {
        assert(children@.take(children@.len() as int) =~= children@);
    }
    out
}

/// Edits the tree in place, detaching every space token at every depth; the
/// edited tree serializes to the original text with its spaces removed.
pub fn remove_space_mut(node: &mut SyntaxNode)
    ensures
        final(node).kind == old(node).kind,
        final(node).own_semicolon == old(node).own_semicolon,
        space_stripped(old(node).children@, final(node).children@),
        node_text(*final(node)) == stripped_seq(old(node).children@),
{
    let stripped = strip_children_vec(&node.children);
    node.children = stripped;
    proof {
        lemma_space_stripped_text(old(node).children@, final(node).children@);
    }
}

/// The bytes a value of the reversing walk emits: declarations come out with
/// their text reversed, everything else verbatim.
pub open spec fn rev_bytes(s: Seq<u8>) -> Seq<u8> {
    Seq::new(s.len(), |i: int| s[s.len() - 1 - i])
}

pub open spec fn reversed_elem(e: Element) -> Seq<u8>
    decreases e,
{
    match e {
        Element::Token(t) => token_text(t),
        Element::Node(n) => if n.kind == NodeKind::Prop {
            rev_bytes(node_text(n))
        } else {
            reversed_seq(n.children@)
        },
    }
}

pub open spec fn reversed_seq(s: Seq<Element>) -> Seq<u8>
    decreases s,
{
    if s.len() == 0 {
        Seq::empty()
    } else {
        reversed_elem(s[0]) + reversed_seq(s.drop_first())
    }
}

fn push_reversed(v: &Vec<u8>, output: &mut Vec<u8>)
    ensures
        final(output)@ == old(output)@ + rev_bytes(v@),
{
    let ghost base = output@;
    let n = v.len();
    let mut i: usize = 0;
    while i < n
        invariant
            i <= n,
            n == v@.len(),
            output@ == base + rev_bytes(v@).take(i as int),
        decreases n - i,
    {
        output.push(v[n - 1 - i]);
        i = i + 1;
        proof {
            assert(output@ =~= base + rev_bytes(v@).take(i as int));
        }
    }
    proof {
        assert(rev_bytes(v@).take(n as int) =~= rev_bytes(v@));
    }
}

/// Walks the tree and appends its text, with every declaration node's text
/// reversed byte for byte. The reversal is over bytes, not characters: on
/// declaration text that is not pure ASCII the output is the reversed byte
/// string, which need not be valid UTF-8.
pub fn reverse_plugin(node: &SyntaxNode, output: &mut Vec<u8>)
    ensures
        final(output)@ == old(output)@ + reversed_seq(node.children@),
{
    reverse_children_into(&node.children, output);
}

fn reverse_elem_into(e: &Element, output: &mut Vec<u8>)
    ensures
        final(output)@ == old(output)@ + reversed_elem(*e),
    decreases *e,
{
    match e {
        Element::Token(t) => {
            let mut c = t.get_content();
            output.append(&mut c);
        },
        Element::Node(n) => {
            if matches!(n.kind, NodeKind::Prop) {
                let bytes = n.serialize();
                push_reversed(&bytes, output);
            } else {
                reverse_children_into(&n.children, output);
            }
        },
    }
}

fn reverse_children_into(children: &Vec<Element>, output: &mut Vec<u8>)
    ensures
        final(output)@ == old(output)@ + reversed_seq(children@),
    decreases children@,
{
    let ghost base = output@;
    let mut i: usize = 0;
    while i < children.len()
        invariant
            i <= children.len(),
            output@ == base + reversed_seq(children@.take(i as int)),
        decreases children.len() - i,
    {
        proof {
            assert(children@.take(i + 1) =~= children@.take(i as int) + seq![
                children@[i as int],
            ]);
            lemma_reversed_seq_concat(children@.take(i as int), seq![children@[i as int]]);
            lemma_reversed_seq_singleton(children@[i as int]);
        }
        reverse_elem_into(&children[i], output);
        i = i + 1;
        proof {
            assert(output@ =~= base + reversed_seq(children@.take(i as int)));
        }
    }
    proof {
        assert(children@.take(children@.len() as int) =~= children@);
    }
}

proof fn lemma_reversed_seq_concat(a: Seq<Element>, b: Seq<Element>)
    ensures
        reversed_seq(a + b) == reversed_seq(a) + reversed_seq(b),
    decreases a,
{
    if a.len() == 0 {
        assert(a + b =~= b);
        assert(reversed_seq(a) + reversed_seq(b) =~= reversed_seq(b));
    } else {
        assert((a + b)[0] == a[0]);
        assert((a + b).drop_first() =~= a.drop_first() + b);
        lemma_reversed_seq_concat(a.drop_first(), b);
        assert(reversed_elem(a[0]) + reversed_seq(a.drop_first()) + reversed_seq(b)
            =~= reversed_elem(a[0]) + (reversed_seq(a.drop_first()) + reversed_seq(b)));
    }
}

proof fn lemma_reversed_seq_singleton(e: Element)
    ensures
        reversed_seq(seq![e]) == reversed_elem(e),
{
    assert(seq![e].drop_first() =~= Seq::<Element>::empty());
    assert(reversed_seq(Seq::<Element>::empty()) =~= Seq::<u8>::empty());
    assert(reversed_elem(e) + Seq::<u8>::empty() =~= reversed_elem(e));
}

} // verus!
