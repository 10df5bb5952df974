//! The concrete syntax tree: nodes own an ordered sequence of children, each
//! a nested node or a leaf token, and the text of a node is the concatenation
//! of its descendants' texts in order.

use vstd::prelude::*;

use crate::tokens::Token;
use crate::tokens::clone_bytes;
use crate::tokens::token_text;

verus! {

/// The kind tag of a tree node.
#[derive(Debug, Clone, Copy, PartialEq, Eq, Structural)]
pub enum NodeKind {
    Root,
    Rule,
    AtRule,
    Prop,
}

/// A tree node: a kind, optional raw metadata, and ordered children.
///
/// `own_semicolon` is raw formatting metadata kept on `Rule` nodes only: it
/// records whether the rule owns its terminating semicolon, for clients that
/// re-emit redundant semicolons. The parser itself never sets it — it builds
/// every node with `None` and only updates a record a tree-building client
/// has put there — and it never affects serialization.
#[derive(Debug, PartialEq, Eq)]
pub struct SyntaxNode {
    pub kind: NodeKind,
    pub own_semicolon: Option<bool>,
    pub children: Vec<Element>,
}

/// One child of a node: a nested node or a leaf token.
#[derive(Debug, PartialEq, Eq)]
pub enum Element {
    Node(SyntaxNode),
    Token(Token),
}

/// The source bytes an element stands for.
pub open spec fn elem_text(e: Element) -> Seq<u8>
    decreases e,
{
    match e {
        Element::Token(t) => token_text(t),
        Element::Node(n) => seq_text(n.children@),
    }
}

/// The concatenated text of a sequence of elements.
pub open spec fn seq_text(s: Seq<Element>) -> Seq<u8>
    decreases s,
{
    if s.len() == 0 {
        Seq::empty()
    } else {
        elem_text(s[0]) + seq_text(s.drop_first())
    }
}

/// The text of a node is the concatenated text of its children.
pub open spec fn node_text(n: SyntaxNode) -> Seq<u8> {
    seq_text(n.children@)
}

pub proof fn lemma_seq_text_concat(a: Seq<Element>, b: Seq<Element>)
    ensures
        seq_text(a + b) == seq_text(a) + seq_text(b),
    decreases a,
{
    if a.len() == 0 {
        assert(a + b =~= b);
        assert(seq_text(a) + seq_text(b) =~= seq_text(b));
    } else {
        assert((a + b)[0] == a[0]);
        assert((a + b).drop_first() =~= a.drop_first() + b);
        lemma_seq_text_concat(a.drop_first(), b);
        assert(elem_text(a[0]) + seq_text(a.drop_first()) + seq_text(b) =~= elem_text(a[0]) + (
        seq_text(a.drop_first()) + seq_text(b)));
    }
}

pub proof fn lemma_seq_text_singleton(e: Element)
    ensures
        seq_text(seq![e]) == elem_text(e),
{
    assert(seq![e].drop_first() =~= Seq::<Element>::empty());
    assert(seq_text(Seq::<Element>::empty()) =~= Seq::<u8>::empty());
    assert(elem_text(e) + Seq::<u8>::empty() =~= elem_text(e));
}

pub proof fn lemma_seq_text_push(s: Seq<Element>, e: Element)
    ensures
        seq_text(s.push(e)) == seq_text(s) + elem_text(e),
{
    assert(s.push(e) =~= s + seq![e]);
    lemma_seq_text_concat(s, seq![e]);
    lemma_seq_text_singleton(e);
}

/// A sequence's text splits around any one of its elements.
pub proof fn lemma_seq_text_split(s: Seq<Element>, i: int)
    requires
        0 <= i < s.len(),
    ensures
        seq_text(s) == seq_text(s.take(i)) + elem_text(s[i]) + seq_text(s.skip(i + 1)),
{
    assert(s =~= s.take(i) + seq![s[i]] + s.skip(i + 1));
    lemma_seq_text_concat(s.take(i) + seq![s[i]], s.skip(i + 1));
    lemma_seq_text_concat(s.take(i), seq![s[i]]);
    lemma_seq_text_singleton(s[i]);
}

/// A path from a node to a strict descendant: at each step the index of the
/// child to enter, with every step but the last landing on a nested node.
pub open spec fn valid_path(n: SyntaxNode, path: Seq<usize>) -> bool
    decreases path,
{
    &&& path.len() >= 1
    &&& (path[0] as int) < n.children@.len()
    &&& (path.len() == 1 || (match n.children@[path[0] as int] {
        Element::Node(m) => valid_path(m, path.drop_first()),
        Element::Token(_) => false,
    }))
}

/// The element a path leads to.
pub open spec fn subtree_at(n: SyntaxNode, path: Seq<usize>) -> Element
    recommends
        valid_path(n, path),
    decreases path,
{
    if path.len() <= 1 {
        n.children@[path[0] as int]
    } else {
        match n.children@[path[0] as int] {
            Element::Node(m) => subtree_at(m, path.drop_first()),
            Element::Token(t) => Element::Token(t),
        }
    }
}

/// The byte offset, within the node's own text, where the subtree a path
/// leads to begins.
pub open spec fn path_offset(n: SyntaxNode, path: Seq<usize>) -> int
    recommends
        valid_path(n, path),
    decreases path,
{
    if path.len() <= 1 {
        seq_text(n.children@.take(path[0] as int)).len() as int
    } else {
        seq_text(n.children@.take(path[0] as int)).len() + (match n.children@[path[0] as int] {
            Element::Node(m) => path_offset(m, path.drop_first()),
            Element::Token(_) => 0,
        })
    }
}

/// `post` is `pre` with exactly the element the path leads to removed and
/// nothing else changed.
pub open spec fn is_detached(pre: SyntaxNode, post: SyntaxNode, path: Seq<usize>) -> bool
    decreases path,
{
    &&& post.kind == pre.kind
    &&& post.own_semicolon == pre.own_semicolon
    &&& if path.len() <= 1 {
        post.children@ == pre.children@.remove(path[0] as int)
    } else {
        &&& post.children@.len() == pre.children@.len()
        &&& (forall|j: int|
            0 <= j < pre.children@.len() && j != path[0] as int ==> post.children@[j]
                == pre.children@[j])
        &&& (match (pre.children@[path[0] as int], post.children@[path[0] as int]) {
            (Element::Node(m), Element::Node(m2)) => is_detached(m, m2, path.drop_first()),
            _ => false,
        })
    }
}

/// Detaching a subtree removes exactly its bytes: the detached element's text
/// is the slice of the whole text at its offset, and the remaining tree
/// serializes to the text around that slice.
pub proof fn lemma_detach_text(pre: SyntaxNode, post: SyntaxNode, path: Seq<usize>)
    requires
        valid_path(pre, path),
        is_detached(pre, post, path),
    ensures
        ({
            let full = node_text(pre);
            let a = path_offset(pre, path);
            let b = a + elem_text(subtree_at(pre, path)).len();
            &&& 0 <= a <= b <= full.len()
            &&& full.subrange(a, b) == elem_text(subtree_at(pre, path))
            &&& node_text(post) == full.subrange(0, a) + full.subrange(b, full.len() as int)
        }),
    decreases path,
{
    let ch = pre.children@;
    let i = path[0] as int;
    let full = node_text(pre);
    let t = seq_text(ch.take(i));
    let z = seq_text(ch.skip(i + 1));
    lemma_seq_text_split(ch, i);
    if path.len() <= 1 {
        let e = elem_text(ch[i]);
        assert(full.subrange(t.len() as int, (t.len() + e.len()) as int) =~= e);
        assert(post.children@ =~= ch.take(i) + ch.skip(i + 1));
        lemma_seq_text_concat(ch.take(i), ch.skip(i + 1));
        assert(full.subrange(0, t.len() as int) =~= t);
        assert(full.subrange((t.len() + e.len()) as int, full.len() as int) =~= z);
    } else {
        match (ch[i], post.children@[i]) {
            (Element::Node(m), Element::Node(m2)) => {
                lemma_detach_text(m, m2, path.drop_first());
                let mfull = node_text(m);
                let a2 = path_offset(m, path.drop_first());
                let sub = elem_text(subtree_at(m, path.drop_first()));
                let b2 = a2 + sub.len();
                assert(elem_text(ch[i]) == mfull);
                assert(subtree_at(pre, path) == subtree_at(m, path.drop_first()));
                let a = t.len() + a2;
                let b = a + sub.len();
                assert(full == t + mfull + z);
                assert(full.subrange(a, b) =~= mfull.subrange(a2, b2));
                assert(post.children@ =~= ch.update(i, Element::Node(m2)));
                lemma_seq_text_split(post.children@, i);
                assert(post.children@.take(i) =~= ch.take(i));
                assert(post.children@.skip(i + 1) =~= ch.skip(i + 1));
                assert(node_text(post) == t + node_text(m2) + z);
                assert(node_text(m2) == mfull.subrange(0, a2) + mfull.subrange(
                    b2,
                    mfull.len() as int,
                ));
                assert(full.subrange(0, a) =~= t + mfull.subrange(0, a2));
                assert(full.subrange(b, full.len() as int) =~= mfull.subrange(
                    b2,
                    mfull.len() as int,
                ) + z);
                assert(t + (mfull.subrange(0, a2) + mfull.subrange(b2, mfull.len() as int)) + z
                    =~= (t + mfull.subrange(0, a2)) + (mfull.subrange(b2, mfull.len() as int)
                    + z));
            },
            _ => {},
        }
    }
}

/// A subtree's range lies inside its root's text.
pub proof fn lemma_path_offset_bound(n: SyntaxNode, path: Seq<usize>)
    requires
        valid_path(n, path),
    ensures
        0 <= path_offset(n, path),
        path_offset(n, path) + elem_text(subtree_at(n, path)).len() <= node_text(n).len(),
    decreases path,
{
    let ch = n.children@;
    let i = path[0] as int;
    lemma_seq_text_split(ch, i);
    if path.len() > 1 {
        match ch[i] {
            Element::Node(m) => {
                lemma_path_offset_bound(m, path.drop_first());
            },
            Element::Token(_) => {},
        }
    }
}

/// The byte length of an element's text.
fn elem_text_len(e: &Element) -> (r: usize)
    requires
        elem_text(*e).len() <= usize::MAX,
    ensures
        r as int == elem_text(*e).len(),
    decreases *e,
{
    match e {
        Element::Token(t) => {
            let c = t.get_content();
            c.len()
        },
        Element::Node(n) => children_text_len(&n.children),
    }
}

fn children_text_len(children: &Vec<Element>) -> (r: usize)
    requires
        seq_text(children@).len() <= usize::MAX,
    ensures
        r as int == seq_text(children@).len(),
    decreases children@,
{
    let mut total: usize = 0;
    let mut j: usize = 0;
    proof {
        assert(children@.take(0) =~= Seq::<Element>::empty());
        assert(seq_text(Seq::<Element>::empty()) =~= Seq::<u8>::empty());
    }
    while j < children.len()
        invariant
            j <= children.len(),
            seq_text(children@).len() <= usize::MAX,
            total as int == seq_text(children@.take(j as int)).len(),
        decreases children.len() - j,
    {
        proof {
            lemma_seq_text_split(children@, j as int);
            assert(children@.take(j + 1) =~= children@.take(j as int).push(
                children@[j as int],
            ));
            lemma_seq_text_push(children@.take(j as int), children@[j as int]);
            assert(children@.take(j as int) =~= children@.take(j as int));
        }
        let l = elem_text_len(&children[j]);
        total = total + l;
        j = j + 1;
    }
    proof {
        assert(children@.take(children@.len() as int) =~= children@);
    }
    total
}

fn range_rec(n: &SyntaxNode, path: &Vec<usize>, d: usize) -> (r: (usize, usize))
    requires
        d < path@.len(),
        valid_path(*n, path@.skip(d as int)),
        node_text(*n).len() <= usize::MAX,
    ensures
        r.0 as int == path_offset(*n, path@.skip(d as int)),
        r.1 as int == elem_text(subtree_at(*n, path@.skip(d as int))).len(),
    decreases path@.len() - d,
{
    let ghost p = path@.skip(d as int);
    let plen = path.len();
    let i = path[d];
    proof {
        assert(p[0] == path@[d as int]);
        lemma_seq_text_split(n.children@, i as int);
    }
    let mut start: usize = 0;
    let mut j: usize = 0;
    proof {
        assert(n.children@.take(0) =~= Seq::<Element>::empty());
        assert(seq_text(Seq::<Element>::empty()) =~= Seq::<u8>::empty());
    }
    while j < i
        invariant
            j <= i < n.children@.len(),
            node_text(*n).len() <= usize::MAX,
            start as int == seq_text(n.children@.take(j as int)).len(),
        decreases i - j,
    {
        proof {
            lemma_seq_text_split(n.children@, j as int);
            assert(n.children@.take(j + 1) =~= n.children@.take(j as int).push(
                n.children@[j as int],
            ));
            lemma_seq_text_push(n.children@.take(j as int), n.children@[j as int]);
        }
        let l = elem_text_len(&n.children[j]);
        start = start + l;
        j = j + 1;
    }
    if d + 1 == plen {
        let l = elem_text_len(&n.children[i]);
        (start, l)
    } else {
        proof {
            assert(p.drop_first() =~= path@.skip(d + 1));
        }
        match &n.children[i] {
            Element::Node(m) => {
                proof {
                    lemma_path_offset_bound(*m, path@.skip(d + 1));
                }
                let inner = range_rec(m, path, d + 1);
                (start + inner.0, inner.1)
            },
            Element::Token(_) => {
                proof {
                    assert(false);
                }
                (0, 0)
            },
        }
    }
}

impl SyntaxNode {
    /// The byte span `[start, end)`, within this node's own serialized text,
    /// of the subtree a path leads to. Ranges are derived from the tree, so
    /// after edits they reflect the remaining children.
    pub fn text_range_at(&self, path: &Vec<usize>) -> (r: (usize, usize))
        requires
            valid_path(*self, path@),
            node_text(*self).len() <= usize::MAX,
        ensures
            r.0 as int == path_offset(*self, path@),
            r.1 as int == path_offset(*self, path@) + elem_text(
                subtree_at(*self, path@),
            ).len(),
    {
        proof {
            assert(path@.skip(0) =~= path@);
            lemma_path_offset_bound(*self, path@);
        }
        let range = range_rec(self, path, 0);
        (range.0, range.0 + range.1)
    }

    /// Serializes the node: exactly the bytes of all its descendant tokens,
    /// in order.
    pub fn serialize(&self) -> (r: Vec<u8>)
        ensures
            r@ == node_text(*self),
    {
        let mut out: Vec<u8> = Vec::new();
        serialize_children_into(&self.children, &mut out);
        out
    }

    /// Removes the element the path leads to, leaving every other child of
    /// every node unchanged.
    pub fn detach(&mut self, path: &Vec<usize>)
        requires
            valid_path(*old(self), path@),
        ensures
            is_detached(*old(self), *final(self), path@),
    {
        proof {
            assert(path@.skip(0) =~= path@);
        }
        detach_rec(self, path, 0);
    }

    /// A structural copy that can be edited independently; it has the same
    /// kinds, metadata and token contents everywhere, hence the same text.
    pub fn clone_for_update(&self) -> (r: SyntaxNode)
        ensures
            same_node(*self, r),
            node_text(r) == node_text(*self),
    {
        let r = clone_node(self);
        proof {
            lemma_same_node_text(*self, r);
        }
        r
    }
}

fn serialize_elem_into(e: &Element, out: &mut Vec<u8>)
    ensures
        final(out)@ == old(out)@ + elem_text(*e),
    decreases *e,
{
    match e {
        Element::Token(t) => {
            let mut c = t.get_content();
            out.append(&mut c);
        },
        Element::Node(n) => {
            serialize_children_into(&n.children, out);
        },
    }
}

fn serialize_children_into(children: &Vec<Element>, out: &mut Vec<u8>)
    ensures
        final(out)@ == old(out)@ + seq_text(children@),
    decreases children@,
{
    let ghost base = out@;
    let mut i: usize = 0;
    while i < children.len()
        invariant
            i <= children.len(),
            out@ == base + seq_text(children@.take(i as int)),
        decreases children.len() - i,
    {
        proof {
            assert(children@.take(i + 1) =~= children@.take(i as int).push(children@[i as int]));
            lemma_seq_text_push(children@.take(i as int), children@[i as int]);
        }
        serialize_elem_into(&children[i], out);
        i = i + 1;
    }
    proof {
        assert(children@.take(children@.len() as int) =~= children@);
    }
}

fn detach_rec(n: &mut SyntaxNode, path: &Vec<usize>, d: usize)
    requires
        d < path@.len(),
        valid_path(*old(n), path@.skip(d as int)),
    ensures
        is_detached(*old(n), *final(n), path@.skip(d as int)),
    decreases path@.len() - d,
{
    let ghost p = path@.skip(d as int);
    let plen = path.len();
    let i = path[d];
    proof {
        assert(p[0] == path@[d as int]);
    }
    if d + 1 == plen {
        let _ = n.children.remove(i);
    } else {
        proof {
            assert(p.drop_first() =~= path@.skip(d + 1));
        }
        let c = n.children.remove(i);
        match c {
            Element::Node(mut m) => {
                detach_rec(&mut m, path, d + 1);
                n.children.insert(i, Element::Node(m));
                proof {
                    assert(n.children@ =~= old(n).children@.update(
                        i as int,
                        Element::Node(m),
                    ));
                }
            },
            Element::Token(t) => {
                proof {
                    assert(false);
                }
                n.children.insert(i, Element::Token(t));
            },
        }
    }
}

/// Two tokens carry the same kind, content and offsets.
pub open spec fn same_token(a: Token, b: Token) -> bool {
    crate::tokenizer::token_model(a) == crate::tokenizer::token_model(b)
}

/// Two elements are structurally the same tree: equal kinds and metadata,
/// and the same token data at every leaf.
pub open spec fn same_elem(a: Element, b: Element) -> bool
    decreases a,
{
    match (a, b) {
        (Element::Token(t1), Element::Token(t2)) => same_token(t1, t2),
        (Element::Node(n1), Element::Node(n2)) => same_node(n1, n2),
        _ => false,
    }
}

pub open spec fn same_node(a: SyntaxNode, b: SyntaxNode) -> bool
    decreases a,
{
    &&& a.kind == b.kind
    &&& a.own_semicolon == b.own_semicolon
    &&& a.children@.len() == b.children@.len()
    &&& (forall|i: int|
        0 <= i < a.children@.len() ==> same_elem(#[trigger] a.children@[i], b.children@[i]))
}

/// Structurally equal trees serialize to the same text.
pub proof fn lemma_same_elem_text(a: Element, b: Element)
    requires
        same_elem(a, b),
    ensures
        elem_text(a) == elem_text(b),
    decreases a,
{
    match (a, b) {
        (Element::Node(n1), Element::Node(n2)) => {
            lemma_same_node_text(n1, n2);
        },
        _ => {},
    }
}

pub proof fn lemma_same_node_text(a: SyntaxNode, b: SyntaxNode)
    requires
        same_node(a, b),
    ensures
        node_text(a) == node_text(b),
    decreases a,
{
    lemma_same_children_text(a.children@, b.children@);
}

proof fn lemma_same_children_text(a: Seq<Element>, b: Seq<Element>)
    requires
        a.len() == b.len(),
        forall|i: int| 0 <= i < a.len() ==> same_elem(#[trigger] a[i], b[i]),
    ensures
        seq_text(a) == seq_text(b),
    decreases a,
{
    if a.len() > 0 {
        lemma_same_elem_text(a[0], b[0]);
        lemma_same_children_text(a.drop_first(), b.drop_first());
    }
}

pub(crate) fn clone_token(t: &Token) -> (r: Token)
    ensures
        same_token(*t, r),
{
    match t {
        Token::Space { content } => Token::Space { content: clone_bytes(content) },
        Token::Word { content, pos, next } => Token::Word {
            content: clone_bytes(content),
            pos: *pos,
            next: *next,
        },
        Token::String { content, pos, next } => Token::String {
            content: clone_bytes(content),
            pos: *pos,
            next: *next,
        },
        Token::Comment { content, pos, next } => Token::Comment {
            content: clone_bytes(content),
            pos: *pos,
            next: *next,
        },
        Token::AtWord { content, pos, next } => Token::AtWord {
            content: clone_bytes(content),
            pos: *pos,
            next: *next,
        },
        Token::Brackets { content, pos, next } => Token::Brackets {
            content: clone_bytes(content),
            pos: *pos,
            next: *next,
        },
        Token::Control { kind, content, pos } => Token::Control {
            kind: *kind,
            content: clone_bytes(content),
            pos: *pos,
        },
        Token::BadBracket { pos } => Token::BadBracket { pos: *pos },
    }
}

fn clone_elem(e: &Element) -> (r: Element)
    ensures
        same_elem(*e, r),
    decreases *e,
{
    match e {
        Element::Token(t) => Element::Token(clone_token(t)),
        Element::Node(n) => Element::Node(clone_node(n)),
    }
}

fn clone_node(n: &SyntaxNode) -> (r: SyntaxNode)
    ensures
        same_node(*n, r),
    decreases *n,
{
    let mut children: Vec<Element> = Vec::new();
    let mut i: usize = 0;
    while i < n.children.len()
        invariant
            i <= n.children.len(),
            children@.len() == i,
            forall|j: int|
                0 <= j < i ==> same_elem(#[trigger] n.children@[j], children@[j]),
        decreases n.children.len() - i,
    {
        children.push(clone_elem(&n.children[i]));
        i = i + 1;
    }
    SyntaxNode { kind: n.kind, own_semicolon: n.own_semicolon, children }
}

} // verus!
