//! The mathematical model of the tokenizer: a step function `scan` that, given
//! the source bytes, a cursor, the url-word flag and the leniency for this
//! call, says exactly which token comes next, where the cursor lands, and when
//! a fault is raised instead.
//!
//! Every token covers exactly the bytes between the old and the new cursor, so
//! a full scan partitions the source with no gaps or overlaps.

use vstd::prelude::*;

use crate::tokens::TokenControlKind;

verus! {

/// Whitespace bytes: space, newline, tab, carriage return, form feed, and the
/// device-control byte 0x12, which this tokenizer also treats as a line
/// separator.
pub open spec fn is_space_byte(b: u8) -> bool {
    b == 32 || b == 10 || b == 9 || b == 13 || b == 12 || b == 18
}

/// Bytes that end a word when seen after its first byte: whitespace, the
/// control punctuation, quotes, `@`, a `!` (which forces a token split), a
/// backslash (which starts an escape of its own), and `/` when it starts a
/// comment.
pub open spec fn is_word_end_at(s: Seq<u8>, i: int) -> bool
    recommends
        0 <= i < s.len(),
{
    ||| is_space_byte(s[i])
    ||| s[i] == 33  // !
    ||| s[i] == 34  // "
    ||| s[i] == 39  // '
    ||| s[i] == 40  // (
    ||| s[i] == 41  // )
    ||| s[i] == 58  // :
    ||| s[i] == 59  // ;
    ||| s[i] == 64  // @
    ||| s[i] == 91  // [
    ||| s[i] == 92  // backslash
    ||| s[i] == 123  // {
    ||| s[i] == 125  // }
    ||| (s[i] == 47 && i + 1 < s.len() && s[i + 1] == 42)  // comment start
}

/// Bytes that end an at-word when not escaped: everything that is not an
/// identifier constituent. Unlike a word, `/` always ends it, while `:` and
/// `@` do not; an escaped byte never ends it.
pub open spec fn is_at_end_byte(b: u8) -> bool {
    ||| is_space_byte(b)
    ||| b == 33
    ||| b == 34
    ||| b == 35
    ||| b == 39
    ||| b == 40
    ||| b == 41
    ||| b == 47
    ||| b == 59
    ||| b == 91
    ||| b == 93
    ||| b == 123
    ||| b == 125
}

/// Bytes that make a parenthesized group "bad" when they occur strictly inside
/// it: line ends, quotes, a nested `(`, `/` or a backslash.
pub open spec fn is_bad_paren_byte(b: u8) -> bool {
    b == 13 || b == 10 || b == 34 || b == 39 || b == 40 || b == 47 || b == 92
}

/// Bytes after an odd backslash run that stop the escape from extending the
/// word: `/` and whitespace.
pub open spec fn is_escape_stop_byte(b: u8) -> bool {
    b == 47 || is_space_byte(b)
}

/// Bytes right after `(` that rule out the url-style raw scan: quotes and
/// whitespace.
pub open spec fn is_url_stop_byte(b: u8) -> bool {
    b == 39 || b == 34 || is_space_byte(b)
}

/// The word `url` as bytes.
pub open spec fn url_seq() -> Seq<u8> {
    seq![117u8, 114u8, 108u8]
}

/// First position at or after `i` that is not whitespace, or the length.
pub open spec fn space_end(s: Seq<u8>, i: int) -> int
    decreases s.len() - i,
{
    if i < 0 || i >= s.len() || !is_space_byte(s[i]) {
        i
    } else {
        space_end(s, i + 1)
    }
}

/// First position at or after `i` that ends a word, or the length.
pub open spec fn word_end(s: Seq<u8>, i: int) -> int
    decreases s.len() - i,
{
    if i < 0 || i >= s.len() || is_word_end_at(s, i) {
        i
    } else {
        word_end(s, i + 1)
    }
}

/// First position at or after `i` that ends an at-word, or the length; a
/// backslash escapes the byte after it, so both belong to the at-word.
pub open spec fn at_end(s: Seq<u8>, i: int) -> int
    decreases s.len() - i,
{
    if i < 0 || i >= s.len() {
        i
    } else if s[i] == 92 {
        if i + 1 >= s.len() {
            s.len() as int
        } else {
            at_end(s, i + 2)
        }
    } else if is_at_end_byte(s[i]) {
        i
    } else {
        at_end(s, i + 1)
    }
}

/// First position at or after `i` holding byte `b`, or `-1`.
pub open spec fn find_byte(s: Seq<u8>, i: int, b: u8) -> int
    decreases s.len() - i,
{
    if i < 0 || i >= s.len() {
        -1
    } else if s[i] == b {
        i
    } else {
        find_byte(s, i + 1, b)
    }
}

/// First position at or after `i` where `*/` starts, or `-1`.
pub open spec fn comment_end(s: Seq<u8>, i: int) -> int
    decreases s.len() - i,
{
    if i < 0 || i + 1 >= s.len() {
        -1
    } else if s[i] == 42 && s[i + 1] == 47 {
        i
    } else {
        comment_end(s, i + 1)
    }
}

/// First position at or after `i` holding an unescaped `q`, scanning with the
/// escape state `esc` (a byte after a backslash never closes), or `-1`.
pub open spec fn quote_end(s: Seq<u8>, i: int, q: u8, esc: bool) -> int
    decreases s.len() - i,
{
    if i < 0 || i >= s.len() {
        -1
    } else if esc {
        quote_end(s, i + 1, q, false)
    } else if s[i] == q {
        i
    } else if s[i] == 92 {
        quote_end(s, i + 1, q, true)
    } else {
        quote_end(s, i + 1, q, false)
    }
}

/// First position at or after `i` that is not a backslash, or the length.
pub open spec fn bs_run_end(s: Seq<u8>, i: int) -> int
    decreases s.len() - i,
{
    if i < 0 || i >= s.len() || s[i] != 92 {
        i
    } else {
        bs_run_end(s, i + 1)
    }
}

/// A byte strictly inside `[a, b)` disqualifies a simple parenthesized group.
pub open spec fn has_bad_paren_byte(s: Seq<u8>, a: int, b: int) -> bool {
    exists|i: int| a <= i < b && i < s.len() && is_bad_paren_byte(s[i])
}

/// The ghost shape of a token: the exec token with its content as a byte
/// sequence and its offsets as mathematical integers.
pub enum TokenModel {
    Space { content: Seq<u8> },
    Word { content: Seq<u8>, pos: int, next: int },
    String { content: Seq<u8>, pos: int, next: int },
    Comment { content: Seq<u8>, pos: int, next: int },
    AtWord { content: Seq<u8>, pos: int, next: int },
    Brackets { content: Seq<u8>, pos: int, next: int },
    Control { kind: TokenControlKind, content: Seq<u8>, pos: int },
    BadBracket { pos: int },
}

/// The source bytes a modeled token stands for.
pub open spec fn tm_text(t: TokenModel) -> Seq<u8> {
    match t {
        TokenModel::Space { content } => content,
        TokenModel::Word { content, .. } => content,
        TokenModel::String { content, .. } => content,
        TokenModel::Comment { content, .. } => content,
        TokenModel::AtWord { content, .. } => content,
        TokenModel::Brackets { content, .. } => content,
        TokenModel::Control { content, .. } => content,
        TokenModel::BadBracket { .. } => seq![40u8],
    }
}

/// The unclosed construct a strict scan faults on.
#[derive(Debug, Clone, Copy, PartialEq, Eq, Structural)]
pub enum LexErrorKind {
    UnclosedString,
    UnclosedComment,
    UnclosedBracket,
}

/// One step of the tokenizer: the token found and the state after it, or the
/// fault raised in strict mode.
pub enum Scan {
    Tok { t: TokenModel, end: int, url: bool },
    Fail { kind: LexErrorKind, at: int },
}

pub open spec fn scan_space(s: Seq<u8>, pos: int, url: bool) -> Scan {
    let j = space_end(s, pos);
    Scan::Tok { t: TokenModel::Space { content: s.subrange(pos, j) }, end: j, url }
}

pub open spec fn scan_control(s: Seq<u8>, pos: int, k: TokenControlKind, url: bool) -> Scan {
    Scan::Tok {
        t: TokenModel::Control { kind: k, content: seq![k.spec_byte()], pos },
        end: pos + 1,
        url,
    }
}

pub open spec fn scan_word(s: Seq<u8>, pos: int) -> Scan {
    let j = word_end(s, pos + 1);
    let c = s.subrange(pos, j);
    Scan::Tok { t: TokenModel::Word { content: c, pos, next: j - 1 }, end: j, url: c == url_seq() }
}

pub open spec fn scan_at_word(s: Seq<u8>, pos: int) -> Scan {
    let j = at_end(s, pos + 1);
    Scan::Tok {
        t: TokenModel::AtWord { content: s.subrange(pos, j), pos, next: j - 1 },
        end: j,
        url: false,
    }
}

pub open spec fn scan_string(s: Seq<u8>, pos: int, lenient: bool, url: bool) -> Scan {
    let e = quote_end(s, pos + 1, s[pos], false);
    if e >= 0 {
        Scan::Tok {
            t: TokenModel::String { content: s.subrange(pos, e + 1), pos, next: e },
            end: e + 1,
            url,
        }
    } else if lenient {
        let j = if pos + 2 <= s.len() { pos + 2 } else { s.len() as int };
        Scan::Tok {
            t: TokenModel::String { content: s.subrange(pos, j), pos, next: pos + 1 },
            end: j,
            url,
        }
    } else {
        Scan::Fail { kind: LexErrorKind::UnclosedString, at: pos }
    }
}

pub open spec fn scan_comment(s: Seq<u8>, pos: int, lenient: bool, url: bool) -> Scan {
    let k = comment_end(s, pos + 2);
    if k >= 0 {
        Scan::Tok {
            t: TokenModel::Comment { content: s.subrange(pos, k + 2), pos, next: k + 1 },
            end: k + 2,
            url,
        }
    } else if lenient {
        Scan::Tok {
            t: TokenModel::Comment { content: s.subrange(pos, s.len() as int), pos, next: s.len() as int },
            end: s.len() as int,
            url,
        }
    } else {
        Scan::Fail { kind: LexErrorKind::UnclosedComment, at: pos }
    }
}

/// A backslash starts a word. An unpaired trailing backslash escapes the
/// byte after the run, which joins the word as ordinary content, and the
/// word then runs on to the next word-ending byte; a backslash before
/// whitespace or `/`, or a fully paired run, ends the word at the run.
pub open spec fn scan_backslash(s: Seq<u8>, pos: int) -> Scan {
    let r = bs_run_end(s, pos);
    let odd = (r - pos) % 2 == 1;
    if odd && (r >= s.len() || !is_escape_stop_byte(s[r])) {
        if r < s.len() {
            let j = word_end(s, r + 1);
            Scan::Tok {
                t: TokenModel::Word { content: s.subrange(pos, j), pos, next: j - 1 },
                end: j,
                url: false,
            }
        } else {
            Scan::Tok {
                t: TokenModel::Word { content: s.subrange(pos, s.len() as int), pos, next: r },
                end: s.len() as int,
                url: false,
            }
        }
    } else {
        Scan::Tok {
            t: TokenModel::Word { content: s.subrange(pos, r), pos, next: r - 1 },
            end: r,
            url: false,
        }
    }
}

/// An opening parenthesis: after a `url` word it is scanned raw to the first
/// unescaped `)`; otherwise a group up to the nearest `)` counts only when no
/// disqualifying byte lies inside, and a lone `(` is a recoverable
/// `BadBracket`.
pub open spec fn scan_paren(s: Seq<u8>, pos: int, lenient: bool, url: bool) -> Scan {
    if url && !(pos + 1 < s.len() && is_url_stop_byte(s[pos + 1])) {
        let e = quote_end(s, pos + 1, 41u8, false);
        if e >= 0 {
            Scan::Tok {
                t: TokenModel::Brackets { content: s.subrange(pos, e + 1), pos, next: e },
                end: e + 1,
                url: false,
            }
        } else if lenient {
            Scan::Tok {
                t: TokenModel::Brackets { content: s.subrange(pos, pos + 1), pos, next: pos },
                end: pos + 1,
                url: false,
            }
        } else {
            Scan::Fail { kind: LexErrorKind::UnclosedBracket, at: pos }
        }
    } else {
        let rp = find_byte(s, pos + 1, 41);
        if rp < 0 || has_bad_paren_byte(s, pos + 1, rp) {
            Scan::Tok { t: TokenModel::BadBracket { pos }, end: pos + 1, url: false }
        } else {
            Scan::Tok {
                t: TokenModel::Brackets { content: s.subrange(pos, rp + 1), pos, next: rp },
                end: rp + 1,
                url: false,
            }
        }
    }
}

/// The tokenizer's step function.
pub open spec fn scan(s: Seq<u8>, pos: int, url: bool, lenient: bool) -> Scan
    recommends
        0 <= pos < s.len(),
{
    let b = s[pos];
    if is_space_byte(b) {
        scan_space(s, pos, url)
    } else if b == 123 {
        scan_control(s, pos, TokenControlKind::OpenCurly, url)
    } else if b == 125 {
        scan_control(s, pos, TokenControlKind::CloseCurly, url)
    } else if b == 58 {
        scan_control(s, pos, TokenControlKind::Colon, url)
    } else if b == 59 {
        scan_control(s, pos, TokenControlKind::Semicolon, url)
    } else if b == 91 {
        scan_control(s, pos, TokenControlKind::OpenSquare, url)
    } else if b == 41 {
        scan_control(s, pos, TokenControlKind::CloseParentheses, url)
    } else if b == 40 {
        scan_paren(s, pos, lenient, url)
    } else if b == 39 || b == 34 {
        scan_string(s, pos, lenient, url)
    } else if b == 64 {
        scan_at_word(s, pos)
    } else if b == 92 {
        scan_backslash(s, pos)
    } else if b == 47 && pos + 1 < s.len() && s[pos + 1] == 42 {
        scan_comment(s, pos, lenient, url)
    } else {
        scan_word(s, pos)
    }
}

pub proof fn lemma_space_end(s: Seq<u8>, i: int)
    requires
        0 <= i <= s.len(),
    ensures
        i <= space_end(s, i) <= s.len(),
        i < s.len() && is_space_byte(s[i]) ==> i < space_end(s, i),
    decreases s.len() - i,
{
    if i < s.len() && is_space_byte(s[i]) {
        lemma_space_end(s, i + 1);
    }
}

pub proof fn lemma_word_end(s: Seq<u8>, i: int)
    requires
        0 <= i <= s.len(),
    ensures
        i <= word_end(s, i) <= s.len(),
    decreases s.len() - i,
{
    if i < s.len() && !is_word_end_at(s, i) {
        lemma_word_end(s, i + 1);
    }
}

pub proof fn lemma_at_end(s: Seq<u8>, i: int)
    requires
        0 <= i <= s.len(),
    ensures
        i <= at_end(s, i) <= s.len(),
    decreases s.len() - i,
{
    if i < s.len() {
        if s[i] == 92 {
            if i + 2 <= s.len() {
                lemma_at_end(s, i + 2);
            }
        } else if !is_at_end_byte(s[i]) {
            lemma_at_end(s, i + 1);
        }
    }
}

pub proof fn lemma_find_byte(s: Seq<u8>, i: int, b: u8)
    requires
        0 <= i,
    ensures
        find_byte(s, i, b) == -1 || (i <= find_byte(s, i, b) < s.len() && s[find_byte(s, i, b)]
            == b),
    decreases s.len() - i,
{
    if i < s.len() && s[i] != b {
        lemma_find_byte(s, i + 1, b);
    }
}

pub proof fn lemma_comment_end(s: Seq<u8>, i: int)
    requires
        0 <= i,
    ensures
        comment_end(s, i) == -1 || (i <= comment_end(s, i) && comment_end(s, i) + 1 < s.len()),
    decreases s.len() - i,
{
    if i + 1 < s.len() && !(s[i] == 42 && s[i + 1] == 47) {
        lemma_comment_end(s, i + 1);
    }
}

pub proof fn lemma_quote_end(s: Seq<u8>, i: int, q: u8, esc: bool)
    requires
        0 <= i,
    ensures
        quote_end(s, i, q, esc) == -1 || i <= quote_end(s, i, q, esc) < s.len(),
    decreases s.len() - i,
{
    if i < s.len() {
        if esc {
            lemma_quote_end(s, i + 1, q, false);
        } else if s[i] != q {
            if s[i] == 92 {
                lemma_quote_end(s, i + 1, q, true);
            } else {
                lemma_quote_end(s, i + 1, q, false);
            }
        }
    }
}

pub proof fn lemma_bs_run_end(s: Seq<u8>, i: int)
    requires
        0 <= i <= s.len(),
    ensures
        i <= bs_run_end(s, i) <= s.len(),
        i < s.len() && s[i] == 92 ==> i < bs_run_end(s, i),
    decreases s.len() - i,
{
    if i < s.len() && s[i] == 92 {
        lemma_bs_run_end(s, i + 1);
    }
}

/// A scan step never faults in lenient mode; when it yields a token, the token
/// covers exactly the bytes from the old cursor to the new one, and the cursor
/// strictly advances without passing the end.
pub proof fn lemma_scan_step(s: Seq<u8>, pos: int, url: bool, lenient: bool)
    requires
        0 <= pos < s.len(),
    ensures
        lenient ==> scan(s, pos, url, lenient) is Tok,
        scan(s, pos, url, lenient) matches Scan::Tok { t, end, url: u2 } ==> pos < end <= s.len()
            && tm_text(t) == s.subrange(pos, end),
{
    let b = s[pos];
    if is_space_byte(b) {
        lemma_space_end(s, pos);
    } else if b == 123 || b == 125 || b == 58 || b == 59 || b == 91 || b == 41 {
        let k = match scan(s, pos, url, lenient) {
            Scan::Tok { t: TokenModel::Control { kind, .. }, .. } => kind,
            _ => TokenControlKind::OpenCurly,
        };
        assert(seq![k.spec_byte()] =~= s.subrange(pos, pos + 1));
    } else if b == 40 {
        if url && !(pos + 1 < s.len() && is_url_stop_byte(s[pos + 1])) {
            lemma_quote_end(s, pos + 1, 41u8, false);
        } else {
            lemma_find_byte(s, pos + 1, 41);
            if scan(s, pos, url, lenient) matches Scan::Tok { t: TokenModel::BadBracket { .. }, .. } {
                assert(seq![40u8] =~= s.subrange(pos, pos + 1));
            }
        }
    } else if b == 39 || b == 34 {
        lemma_quote_end(s, pos + 1, s[pos], false);
    } else if b == 64 {
        lemma_at_end(s, pos + 1);
    } else if b == 92 {
        lemma_bs_run_end(s, pos);
        let r = bs_run_end(s, pos);
        if r < s.len() {
            lemma_word_end(s, r + 1);
        }
    } else if b == 47 && pos + 1 < s.len() && s[pos + 1] == 42 {
        lemma_comment_end(s, pos + 2);
    } else {
        lemma_word_end(s, pos + 1);
    }
}

/// Strictness only decides what happens on a fault: when the strict scan finds
/// a token, the lenient scan finds the same one.
pub proof fn lemma_scan_mode(s: Seq<u8>, pos: int, url: bool)
    requires
        0 <= pos < s.len(),
        scan(s, pos, url, false) is Tok,
    ensures
        scan(s, pos, url, true) == scan(s, pos, url, false),
{
}

/// The full lenient token stream from `pos`, or `None` when a strict fault
/// stops the scan.
pub open spec fn token_list(s: Seq<u8>, pos: int, url: bool, lenient: bool) -> Option<
    Seq<TokenModel>,
>
    decreases s.len() - pos,
{
    if pos < 0 || pos >= s.len() {
        Some(Seq::empty())
    } else {
        match scan(s, pos, url, lenient) {
            Scan::Tok { t, end, url: u2 } => {
                if pos < end <= s.len() {
                    match token_list(s, end, u2, lenient) {
                        Some(rest) => Some(seq![t] + rest),
                        None => None,
                    }
                } else {
                    None
                }
            },
            Scan::Fail { .. } => None,
        }
    }
}

/// The concatenated text of a token stream.
pub open spec fn texts_concat(l: Seq<TokenModel>) -> Seq<u8>
    decreases l,
{
    if l.len() == 0 {
        Seq::empty()
    } else {
        tm_text(l[0]) + texts_concat(l.drop_first())
    }
}

/// Coverage and contiguity: a lenient scan always succeeds, and the contents
/// of its tokens, concatenated in order, reproduce the scanned suffix of the
/// source exactly.
pub proof fn lemma_tokens_cover(s: Seq<u8>, pos: int, url: bool)
    requires
        0 <= pos <= s.len(),
    ensures
        token_list(s, pos, url, true) is Some,
        texts_concat(token_list(s, pos, url, true)->Some_0) == s.subrange(pos, s.len() as int),
    decreases s.len() - pos,
{
    if pos >= s.len() {
        assert(s.subrange(pos, s.len() as int) =~= Seq::<u8>::empty());
    } else {
        lemma_scan_step(s, pos, url, true);
        match scan(s, pos, url, true) {
            Scan::Tok { t, end, url: u2 } => {
                lemma_tokens_cover(s, end, u2);
                let rest = token_list(s, end, u2, true)->Some_0;
                let l = seq![t] + rest;
                assert(l.drop_first() =~= rest);
                assert(s.subrange(pos, s.len() as int) =~= s.subrange(pos, end) + s.subrange(
                    end,
                    s.len() as int,
                ));
            },
            Scan::Fail { .. } => {},
        }
    }
}

/// Leniency equivalence: when the strict scan of a suffix succeeds, the
/// lenient scan yields exactly the same token stream.
pub proof fn lemma_mode_equivalence(s: Seq<u8>, pos: int, url: bool)
    requires
        0 <= pos <= s.len(),
        token_list(s, pos, url, false) is Some,
    ensures
        token_list(s, pos, url, true) == token_list(s, pos, url, false),
    decreases s.len() - pos,
{
    if pos < s.len() {
        match scan(s, pos, url, false) {
            Scan::Tok { t, end, url: u2 } => {
                lemma_scan_mode(s, pos, url);
                lemma_scan_step(s, pos, url, false);
                lemma_mode_equivalence(s, end, u2);
            },
            Scan::Fail { .. } => {},
        }
    }
}

} // verus!
