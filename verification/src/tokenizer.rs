//! The executable tokenizer: a cursor over an `Input` that yields one token
//! per call, exactly as the `scan` model prescribes.

use vstd::prelude::*;

use crate::input::Input;
use crate::scan::LexErrorKind;
use crate::scan::Scan;
use crate::scan::TokenModel;
use crate::scan::at_end;
use crate::scan::bs_run_end;
use crate::scan::comment_end;
use crate::scan::find_byte;
use crate::scan::has_bad_paren_byte;
use crate::scan::is_at_end_byte;
use crate::scan::is_bad_paren_byte;
use crate::scan::is_escape_stop_byte;
use crate::scan::is_space_byte;
use crate::scan::is_url_stop_byte;
use crate::scan::is_word_end_at;
use crate::scan::lemma_scan_step;
use crate::scan::lemma_tokens_cover;
use crate::scan::quote_end;
use crate::scan::scan;
use crate::scan::space_end;
use crate::scan::texts_concat;
use crate::scan::token_list;
use crate::scan::url_seq;
use crate::scan::word_end;
use crate::tokens::Token;
use crate::tokens::TokenControlKind;
use crate::tokens::token_text;

verus! {

/// A fatal lexical fault: the kind of unclosed construct and the offset of
/// its opening delimiter.
#[derive(Debug, Clone, Copy, PartialEq, Eq, Structural)]
pub struct TokenizerError {
    pub kind: LexErrorKind,
    pub pos: usize,
}

/// The ghost shape of an exec token.
pub open spec fn token_model(t: Token) -> TokenModel {
    match t {
        Token::Space { content } => TokenModel::Space { content: content@ },
        Token::Word { content, pos, next } => TokenModel::Word {
            content: content@,
            pos: pos as int,
            next: next as int,
        },
        Token::String { content, pos, next } => TokenModel::String {
            content: content@,
            pos: pos as int,
            next: next as int,
        },
        Token::Comment { content, pos, next } => TokenModel::Comment {
            content: content@,
            pos: pos as int,
            next: next as int,
        },
        Token::AtWord { content, pos, next } => TokenModel::AtWord {
            content: content@,
            pos: pos as int,
            next: next as int,
        },
        Token::Brackets { content, pos, next } => TokenModel::Brackets {
            content: content@,
            pos: pos as int,
            next: next as int,
        },
        Token::Control { kind, content, pos } => TokenModel::Control {
            kind,
            content: content@,
            pos: pos as int,
        },
        Token::BadBracket { pos } => TokenModel::BadBracket { pos: pos as int },
    }
}

pub proof fn lemma_token_text_model(t: Token)
    ensures
        token_text(t) == crate::scan::tm_text(token_model(t)),
{
}

fn is_space_b(b: u8) -> (r: bool)
    ensures
        r == is_space_byte(b),
{
    b == 32 || b == 10 || b == 9 || b == 13 || b == 12 || b == 18
}

fn is_at_end_b(b: u8) -> (r: bool)
    ensures
        r == is_at_end_byte(b),
{
    is_space_b(b) || b == 33 || b == 34 || b == 35 || b == 39 || b == 40 || b == 41 || b == 47
        || b == 59 || b == 91 || b == 93 || b == 123 || b == 125
}

fn is_bad_paren_b(b: u8) -> (r: bool)
    ensures
        r == is_bad_paren_byte(b),
{
    b == 13 || b == 10 || b == 34 || b == 39 || b == 40 || b == 47 || b == 92
}

fn is_escape_stop_b(b: u8) -> (r: bool)
    ensures
        r == is_escape_stop_byte(b),
{
    b == 47 || is_space_b(b)
}

fn is_url_stop_b(b: u8) -> (r: bool)
    ensures
        r == is_url_stop_byte(b),
{
    b == 39 || b == 34 || is_space_b(b)
}

fn is_word_end_x(v: &Vec<u8>, j: usize) -> (r: bool)
    requires
        j < v.len(),
    ensures
        r == is_word_end_at(v@, j as int),
{
    let b = v[j];
    is_space_b(b) || b == 33 || b == 34 || b == 39 || b == 40 || b == 41 || b == 58 || b == 59
        || b == 64 || b == 91 || b == 92 || b == 123 || b == 125 || (b == 47 && j + 1 < v.len()
        && v[j + 1] == 42)
}

fn space_end_x(v: &Vec<u8>, i: usize) -> (r: usize)
    requires
        i <= v.len(),
    ensures
        r as int == space_end(v@, i as int),
        i <= r <= v.len(),
{
    let mut j = i;
    while j < v.len() && is_space_b(v[j])
        invariant
            i <= j <= v.len(),
            space_end(v@, i as int) == space_end(v@, j as int),
        decreases v.len() - j,
    {
        j = j + 1;
    }
    j
}

fn word_end_x(v: &Vec<u8>, i: usize) -> (r: usize)
    requires
        i <= v.len(),
    ensures
        r as int == word_end(v@, i as int),
        i <= r <= v.len(),
{
    let mut j = i;
    while j < v.len() && !is_word_end_x(v, j)
        invariant
            i <= j <= v.len(),
            word_end(v@, i as int) == word_end(v@, j as int),
        decreases v.len() - j,
    {
        j = j + 1;
    }
    j
}

fn at_end_x(v: &Vec<u8>, i: usize) -> (r: usize)
    requires
        i <= v.len(),
    ensures
        r as int == at_end(v@, i as int),
        i <= r <= v.len(),
{
    let mut j = i;
    while j < v.len()
        invariant
            i <= j <= v.len(),
            at_end(v@, i as int) == at_end(v@, j as int),
        decreases v.len() - j,
    {
        if v[j] == 92 {
            if j + 1 >= v.len() {
                return v.len();
            }
            j = j + 2;
        } else if is_at_end_b(v[j]) {
            return j;
        } else {
            j = j + 1;
        }
    }
    j
}

fn bs_run_end_x(v: &Vec<u8>, i: usize) -> (r: usize)
    requires
        i <= v.len(),
    ensures
        r as int == bs_run_end(v@, i as int),
        i <= r <= v.len(),
{
    let mut j = i;
    while j < v.len() && v[j] == 92
        invariant
            i <= j <= v.len(),
            bs_run_end(v@, i as int) == bs_run_end(v@, j as int),
        decreases v.len() - j,
    {
        j = j + 1;
    }
    j
}

fn find_byte_x(v: &Vec<u8>, i: usize, b: u8) -> (r: Option<usize>)
    requires
        i <= v.len(),
    ensures
        match r {
            Some(k) => k as int == find_byte(v@, i as int, b) && i <= k < v.len(),
            None => find_byte(v@, i as int, b) == -1,
        },
{
    let mut j = i;
    while j < v.len()
        invariant
            i <= j <= v.len(),
            find_byte(v@, i as int, b) == find_byte(v@, j as int, b),
        decreases v.len() - j,
    {
        if v[j] == b {
            return Some(j);
        }
        j = j + 1;
    }
    None
}

fn comment_end_x(v: &Vec<u8>, i: usize) -> (r: Option<usize>)
    requires
        i <= v.len(),
    ensures
        match r {
            Some(k) => k as int == comment_end(v@, i as int) && i <= k && k + 1 < v.len(),
            None => comment_end(v@, i as int) == -1,
        },
{
    let mut j = i;
    while j < v.len() && j + 1 < v.len()
        invariant
            i <= j <= v.len(),
            comment_end(v@, i as int) == comment_end(v@, j as int),
        decreases v.len() - j,
    {
        if v[j] == 42 && v[j + 1] == 47 {
            return Some(j);
        }
        j = j + 1;
    }
    None
}

fn quote_end_x(v: &Vec<u8>, i: usize, q: u8) -> (r: Option<usize>)
    requires
        i <= v.len(),
    ensures
        match r {
            Some(k) => k as int == quote_end(v@, i as int, q, false) && i <= k < v.len(),
            None => quote_end(v@, i as int, q, false) == -1,
        },
{
    let mut j = i;
    let mut esc = false;
    while j < v.len()
        invariant
            i <= j <= v.len(),
            quote_end(v@, i as int, q, false) == quote_end(v@, j as int, q, esc),
        decreases v.len() - j,
    {
        if esc {
            esc = false;
        } else if v[j] == q {
            return Some(j);
        } else {
            esc = v[j] == 92;
        }
        j = j + 1;
    }
    None
}

fn has_bad_paren_x(v: &Vec<u8>, a: usize, b: usize) -> (r: bool)
    requires
        a <= b <= v.len(),
    ensures
        r == has_bad_paren_byte(v@, a as int, b as int),
{
    let mut j = a;
    while j < b
        invariant
            a <= j <= b <= v.len(),
            forall|k: int| a <= k < j ==> !is_bad_paren_byte(v@[k]),
        decreases b - j,
    {
        if is_bad_paren_b(v[j]) {
            return true;
        }
        j = j + 1;
    }
    proof {
        assert(!has_bad_paren_byte(v@, a as int, b as int)) by {
            if has_bad_paren_byte(v@, a as int, b as int) {
                let k = choose|k: int|
                    a <= k < b && k < v@.len() && is_bad_paren_byte(v@[k]);
                assert(!is_bad_paren_byte(v@[k]));
            }
        }
    }
    false
}

/// Copies the bytes of `v` in `[a, b)` into a fresh vector.
fn copy_range(v: &Vec<u8>, a: usize, b: usize) -> (r: Vec<u8>)
    requires
        a <= b <= v.len(),
    ensures
        r@ == v@.subrange(a as int, b as int),
{
    let mut r: Vec<u8> = Vec::new();
    let mut i = a;
    while i < b
        invariant
            a <= i <= b <= v.len(),
            r@ == v@.subrange(a as int, i as int),
        decreases b - i,
    {
        r.push(v[i]);
        i = i + 1;
        proof {
            assert(r@ =~= v@.subrange(a as int, i as int));
        }
    }
    r
}

/// A cursor-driven lexical scanner over an `Input`.
///
/// `ignore_errors` is the instance-level leniency chosen at construction;
/// each call to `next_token` may additionally request leniency for that call
/// alone. `prev_url` remembers whether the most recent word-like token was
/// exactly `url`, which switches a following `(` to the raw url scan. The
/// flag deliberately survives intervening spaces, comments, strings and
/// control tokens — so `url (` still scans raw — and is cleared by any other
/// word-like token or by the `(` that consumes it.
pub struct Tokenizer<'a> {
    pub input: &'a Input,
    pub pos: usize,
    pub ignore_errors: bool,
    pub prev_url: bool,
}

impl<'a> Tokenizer<'a> {
    /// The source bytes being scanned.
    pub open spec fn src(self) -> Seq<u8> {
        self.input.source@
    }

    /// The cursor never passes the end of the source.
    pub open spec fn wf(self) -> bool {
        self.pos <= self.src().len()
    }

    /// Whether a call with this per-call override scans leniently.
    pub open spec fn lenient(self, ignore_unclosed: bool) -> bool {
        self.ignore_errors || ignore_unclosed
    }

    pub open spec fn spec_eof(self) -> bool {
        self.pos >= self.src().len()
    }

    pub fn new(input: &'a Input, ignore_errors: bool) -> (r: Tokenizer<'a>)
        ensures
            r.input == input,
            r.src() == input.source@,
            r.pos == 0,
            r.ignore_errors == ignore_errors,
            r.prev_url == false,
            r.wf(),
    {
        Tokenizer { input, pos: 0, ignore_errors, prev_url: false }
    }

    /// True once every byte of the source has been consumed.
    pub fn end_of_file(&self) -> (r: bool)
        ensures
            r == self.spec_eof(),
    {
        self.pos >= self.input.source.len()
    }

    /// The cursor after the last consumed token: 0 before any call, and the
    /// source length once the end is reached.
    pub fn position(&self) -> (r: usize)
        ensures
            r == self.pos,
    {
        self.pos
    }

    /// Scans the next token, advancing the cursor past it.
    ///
    /// The returned token covers exactly the bytes between the old and the
    /// new cursor, and the cursor strictly advances, never past the end; so
    /// successive positions are strictly increasing and the contents of the
    /// returned tokens tile the source without gaps or overlaps. A lenient
    /// call (instance-level or per-call) never fails; a strict call fails
    /// exactly when the model says an unclosed construct starts here, and
    /// then leaves the cursor where it was.
    #[verifier::rlimit(100)]
    pub fn next_token(&mut self, ignore_unclosed: bool) -> (r: Result<Token, TokenizerError>)
        requires
            old(self).wf(),
            !old(self).spec_eof(),
        ensures
            final(self).wf(),
            final(self).input == old(self).input,
            final(self).src() == old(self).src(),
            final(self).ignore_errors == old(self).ignore_errors,
            ({
                let sc = scan(
                    old(self).src(),
                    old(self).pos as int,
                    old(self).prev_url,
                    old(self).lenient(ignore_unclosed),
                );
                match r {
                    Ok(t) => sc matches Scan::Tok { t: tm, end, url } && token_model(t) == tm
                        && final(self).pos as int == end && final(self).prev_url == url,
                    Err(e) => sc matches Scan::Fail { kind, at } && e.kind == kind && e.pos as int
                        == at && final(self).pos == old(self).pos && final(self).prev_url == old(
                        self,
                    ).prev_url,
                }
            }),
            old(self).lenient(ignore_unclosed) ==> r is Ok,
            r matches Ok(t) ==> old(self).pos < final(self).pos && token_text(t) == old(
                self,
            ).src().subrange(old(self).pos as int, final(self).pos as int),
    {
        let input = self.input;
        let v = &input.source;
        let n = v.len();
        let pos = self.pos;
        proof {
            assert(pos < n);
        }
        let lenient = self.ignore_errors || ignore_unclosed;
        let ghost s = v@;
        proof {
            lemma_scan_step(s, pos as int, self.prev_url, lenient);
        }
        let b = v[pos];
        if is_space_b(b) {
            let j = space_end_x(v, pos);
            let content = copy_range(v, pos, j);
            self.pos = j;
            Ok(Token::Space { content })
        } else if b == 123 {
            self.pos = pos + 1;
            Ok(Token::Control {
                kind: TokenControlKind::OpenCurly,
                content: TokenControlKind::OpenCurly.text(),
                pos,
            })
        } else if b == 125 {
            self.pos = pos + 1;
            Ok(Token::Control {
                kind: TokenControlKind::CloseCurly,
                content: TokenControlKind::CloseCurly.text(),
                pos,
            })
        } else if b == 58 {
            self.pos = pos + 1;
            Ok(Token::Control {
                kind: TokenControlKind::Colon,
                content: TokenControlKind::Colon.text(),
                pos,
            })
        } else if b == 59 {
            self.pos = pos + 1;
            Ok(Token::Control {
                kind: TokenControlKind::Semicolon,
                content: TokenControlKind::Semicolon.text(),
                pos,
            })
        } else if b == 91 {
            self.pos = pos + 1;
            Ok(Token::Control {
                kind: TokenControlKind::OpenSquare,
                content: TokenControlKind::OpenSquare.text(),
                pos,
            })
        } else if b == 41 {
            self.pos = pos + 1;
            Ok(Token::Control {
                kind: TokenControlKind::CloseParentheses,
                content: TokenControlKind::CloseParentheses.text(),
                pos,
            })
        } else if b == 40 {
            let url_scan = self.prev_url && !(pos + 1 < v.len() && is_url_stop_b(v[pos + 1]));
            if url_scan {
                match quote_end_x(v, pos + 1, 41) {
                    Some(e) => {
                        let content = copy_range(v, pos, e + 1);
                        self.pos = e + 1;
                        self.prev_url = false;
                        Ok(Token::Brackets { content, pos, next: e })
                    },
                    None => {
                        if lenient {
                            let content = copy_range(v, pos, pos + 1);
                            self.pos = pos + 1;
                            self.prev_url = false;
                            Ok(Token::Brackets { content, pos, next: pos })
                        } else {
                            Err(TokenizerError { kind: LexErrorKind::UnclosedBracket, pos })
                        }
                    },
                }
            } else {
                match find_byte_x(v, pos + 1, 41) {
                    Some(rp) => {
                        if has_bad_paren_x(v, pos + 1, rp) {
                            self.pos = pos + 1;
                            self.prev_url = false;
                            Ok(Token::BadBracket { pos })
                        } else {
                            let content = copy_range(v, pos, rp + 1);
                            self.pos = rp + 1;
                            self.prev_url = false;
                            Ok(Token::Brackets { content, pos, next: rp })
                        }
                    },
                    None => {
                        self.pos = pos + 1;
                        self.prev_url = false;
                        Ok(Token::BadBracket { pos })
                    },
                }
            }
        } else if b == 39 || b == 34 {
            match quote_end_x(v, pos + 1, b) {
                Some(e) => {
                    let content = copy_range(v, pos, e + 1);
                    self.pos = e + 1;
                    Ok(Token::String { content, pos, next: e })
                },
                None => {
                    if lenient {
                        let j = if n - pos >= 2 {
                            pos + 2
                        } else {
                            n
                        };
                        let content = copy_range(v, pos, j);
                        self.pos = j;
                        Ok(Token::String { content, pos, next: pos + 1 })
                    } else {
                        Err(TokenizerError { kind: LexErrorKind::UnclosedString, pos })
                    }
                },
            }
        } else if b == 64 {
            let j = at_end_x(v, pos + 1);
            let content = copy_range(v, pos, j);
            self.pos = j;
            self.prev_url = false;
            Ok(Token::AtWord { content, pos, next: j - 1 })
        } else if b == 92 {
            let r = bs_run_end_x(v, pos);
            let odd = (r - pos) % 2 == 1;
            if odd && (r >= v.len() || !is_escape_stop_b(v[r])) {
                if r < v.len() {
                    let j = word_end_x(v, r + 1);
                    let content = copy_range(v, pos, j);
                    self.pos = j;
                    self.prev_url = false;
                    Ok(Token::Word { content, pos, next: j - 1 })
                } else {
                    let content = copy_range(v, pos, v.len());
                    self.pos = v.len();
                    self.prev_url = false;
                    Ok(Token::Word { content, pos, next: r })
                }
            } else {
                let content = copy_range(v, pos, r);
                self.pos = r;
                self.prev_url = false;
                Ok(Token::Word { content, pos, next: r - 1 })
            }
        } else if b == 47 && pos + 1 < v.len() && v[pos + 1] == 42 {
            match comment_end_x(v, pos + 2) {
                Some(k) => {
                    let content = copy_range(v, pos, k + 2);
                    self.pos = k + 2;
                    Ok(Token::Comment { content, pos, next: k + 1 })
                },
                None => {
                    if lenient {
                        let content = copy_range(v, pos, v.len());
                        self.pos = v.len();
                        Ok(Token::Comment { content, pos, next: v.len() })
                    } else {
                        Err(TokenizerError { kind: LexErrorKind::UnclosedComment, pos })
                    }
                },
            }
        } else {
            let j = word_end_x(v, pos + 1);
            let content = copy_range(v, pos, j);
            let is_url = content.len() == 3 && content[0] == 117 && content[1] == 114
                && content[2] == 108;
            proof {
                let u = url_seq();
                assert(u.len() == 3 && u[0] == 117u8 && u[1] == 114u8 && u[2] == 108u8);
                if is_url {
                    assert(content@ =~= u);
                }
            }
            self.pos = j;
            self.prev_url = is_url;
            Ok(Token::Word { content, pos, next: j - 1 })
        }
    }
}

/// Tokenizes a whole input from the start: the token stream of the model, or
/// the first fault a strict scan raises.
///
/// In lenient mode this never fails, and the contents of the returned tokens,
/// concatenated in order, are exactly the source bytes.
pub fn tokenize(input: &Input, ignore_errors: bool) -> (r: Result<Vec<Token>, TokenizerError>)
    ensures
        match r {
            Ok(ts) => token_list(input.source@, 0, false, ignore_errors) matches Some(l)
                && ts@.map_values(|t: Token| token_model(t)) == l,
            Err(e) => token_list(input.source@, 0, false, ignore_errors) is None,
        },
        ignore_errors ==> r is Ok,
        r matches Ok(ts) ==> texts_concat(ts@.map_values(|t: Token| token_model(t)))
            == input.source@,
{
    let ghost s = input.source@;
    let mut tk = Tokenizer::new(input, ignore_errors);
    let mut out: Vec<Token> = Vec::new();
    proof {
        assert(out@.map_values(|t: Token| token_model(t)) =~= Seq::<TokenModel>::empty());
        match token_list(s, 0, false, ignore_errors) {
            Some(rest) => {
                assert(Seq::<TokenModel>::empty() + rest =~= rest);
            },
            None => {},
        }
    }
    loop
        invariant
            s == input.source@,
            tk.src() == s,
            tk.ignore_errors == ignore_errors,
            tk.wf(),
            token_list(s, 0, false, ignore_errors) == (match token_list(
                s,
                tk.pos as int,
                tk.prev_url,
                ignore_errors,
            ) {
                Some(rest) => Some(out@.map_values(|t: Token| token_model(t)) + rest),
                None => None::<Seq<TokenModel>>,
            }),
        ensures
            s == input.source@,
            tk.src() == s,
            tk.ignore_errors == ignore_errors,
            tk.wf(),
            tk.spec_eof(),
            token_list(s, 0, false, ignore_errors) == (match token_list(
                s,
                tk.pos as int,
                tk.prev_url,
                ignore_errors,
            ) {
                Some(rest) => Some(out@.map_values(|t: Token| token_model(t)) + rest),
                None => None::<Seq<TokenModel>>,
            }),
        decreases s.len() - tk.pos,
    {
        if tk.end_of_file() {
            break;
        }
        let ghost pos0 = tk.pos as int;
        let ghost url0 = tk.prev_url;
        let ghost models0 = out@.map_values(|t: Token| token_model(t));
        match tk.next_token(false) {
            Ok(t) => {
                let ghost tm = token_model(t);
                let ghost end = tk.pos as int;
                let ghost u2 = tk.prev_url;
                out.push(t);
                proof {
                    let m = ignore_errors;
                    assert(scan(s, pos0, url0, m) == (Scan::Tok { t: tm, end, url: u2 }));
                    assert(token_list(s, pos0, url0, m) == (match token_list(s, end, u2, m) {
                        Some(rest) => Some(seq![tm] + rest),
                        None => None::<Seq<TokenModel>>,
                    }));
                    let models1 = out@.map_values(|t: Token| token_model(t));
                    assert(models1 =~= models0.push(tm));
                    match token_list(s, end, u2, m) {
                        Some(rest) => {
                            assert(models0 + (seq![tm] + rest) =~= models1 + rest);
                        },
                        None => {},
                    }
                }
            },
            Err(e) => {
                proof {
                    assert(scan(s, pos0, url0, ignore_errors) is Fail);
                    assert(token_list(s, pos0, url0, ignore_errors) is None);
                    assert(token_list(s, 0, false, ignore_errors) is None);
                }
                return Err(e);
            },
        }
    }
    proof {
        assert(token_list(s, tk.pos as int, tk.prev_url, ignore_errors) matches Some(l) && l
            =~= Seq::<TokenModel>::empty());
        assert(out@.map_values(|t: Token| token_model(t)) + Seq::<TokenModel>::empty()
            =~= out@.map_values(|t: Token| token_model(t)));
        lemma_tokens_cover(s, 0, false);
        if !ignore_errors {
            crate::scan::lemma_mode_equivalence(s, 0, false);
        }
        assert(s.subrange(0, s.len() as int) =~= s);
    }
    Ok(out)
}

} // verus!
