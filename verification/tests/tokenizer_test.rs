use postcss::Input;
use postcss::LexErrorKind;
use postcss::Token;
use postcss::TokenControlKind;
use postcss::Tokenizer;

fn tokenize(css: &str, ignore_errors: bool) -> Result<Vec<Token>, postcss::TokenizerError> {
    let input = Input::new(css.as_bytes().to_vec());
    let mut processor = Tokenizer::new(&input, ignore_errors);
    let mut tokens = vec![];
    while !processor.end_of_file() {
        match processor.next_token(false) {
            Ok(t) => tokens.push(t),
            Err(e) => return Err(e),
        }
    }
    Ok(tokens)
}

fn run(css: &str, tokens: Vec<Token>) {
    assert_eq!(tokenize(css, false).unwrap(), tokens);
}

fn run_ignore_errors(css: &str, tokens: Vec<Token>) {
    assert_eq!(tokenize(css, true).unwrap(), tokens);
}

fn b(s: &str) -> Vec<u8> {
    s.as_bytes().to_vec()
}

fn word(content: &str, pos: usize, next: usize) -> Token {
    Token::Word { content: b(content), pos, next }
}

fn space(content: &str) -> Token {
    Token::Space { content: b(content) }
}

fn string(content: &str, pos: usize, next: usize) -> Token {
    Token::String { content: b(content), pos, next }
}

fn comment(content: &str, pos: usize, next: usize) -> Token {
    Token::Comment { content: b(content), pos, next }
}

fn at_word(content: &str, pos: usize, next: usize) -> Token {
    Token::AtWord { content: b(content), pos, next }
}

fn brackets(content: &str, pos: usize, next: usize) -> Token {
    Token::Brackets { content: b(content), pos, next }
}

fn control(kind: TokenControlKind, pos: usize) -> Token {
    Token::Control { kind, content: kind.text(), pos }
}

fn bad_bracket(pos: usize) -> Token {
    Token::BadBracket { pos }
}

#[test]
fn tokenizes_empty_file() {
    run("", vec![]);
}

#[test]
fn tokenizes_space() {
    run("\r\n \u{12}\t", vec![space("\r\n \u{12}\t")]);
}

#[test]
fn tokenizes_word() {
    run("ab", vec![word("ab", 0, 1)]);
}

#[test]
fn splits_word_by_exclamation_mark() {
    run("aa!bb", vec![word("aa", 0, 1), word("!bb", 2, 4)]);
}

#[test]
fn changes_lines_in_spaces() {
    run("a \n b", vec![word("a", 0, 0), space(" \n "), word("b", 4, 4)]);
}

#[test]
fn tokenizes_control_chars() {
    run(
        "{:;}",
        vec![
            control(TokenControlKind::OpenCurly, 0),
            control(TokenControlKind::Colon, 1),
            control(TokenControlKind::Semicolon, 2),
            control(TokenControlKind::CloseCurly, 3),
        ],
    );
}

#[test]
fn escapes_control_symbols() {
    run(
        "\\(\\{\\\"\\@\\\\\"\"",
        vec![
            word("\\(", 0, 1),
            word("\\{", 2, 3),
            word("\\\"", 4, 5),
            word("\\@", 6, 7),
            word("\\\\", 8, 9),
            string("\"\"", 10, 11),
        ],
    );
}

#[test]
fn escapes_backslash() {
    run(
        "\\\\\\\\{",
        vec![word("\\\\\\\\", 0, 3), control(TokenControlKind::OpenCurly, 4)],
    );
}

#[test]
fn tokenizes_simple_brackets() {
    run("(ab)", vec![brackets("(ab)", 0, 3)]);
}

#[test]
fn tokenizes_square_brackets() {
    run(
        "a[bc]",
        vec![word("a", 0, 0), control(TokenControlKind::OpenSquare, 1), word("bc]", 2, 4)],
    );
}

#[test]
fn tokenizes_complicated_brackets() {
    run(
        "(())(\"\")(/**/)(\\\\)(\n)(",
        vec![
            bad_bracket(0),
            brackets("()", 1, 2),
            control(TokenControlKind::CloseParentheses, 3),
            bad_bracket(4),
            string("\"\"", 5, 6),
            control(TokenControlKind::CloseParentheses, 7),
            bad_bracket(8),
            comment("/**/", 9, 12),
            control(TokenControlKind::CloseParentheses, 13),
            bad_bracket(14),
            word("\\\\", 15, 16),
            control(TokenControlKind::CloseParentheses, 17),
            bad_bracket(18),
            space("\n"),
            control(TokenControlKind::CloseParentheses, 20),
            bad_bracket(21),
        ],
    );
}

#[test]
fn tokenizes_string() {
    run("'\"'\"\\\"\"", vec![string("'\"'", 0, 2), string("\"\\\"\"", 3, 6)]);
}

#[test]
fn tokenizes_escaped_string() {
    run("\"\\\\\"", vec![string("\"\\\\\"", 0, 3)]);
}

#[test]
fn changes_lines_in_strings() {
    run("\"\n\n\"\"\n\n\"", vec![string("\"\n\n\"", 0, 3), string("\"\n\n\"", 4, 7)]);
}

#[test]
fn tokenizes_at_word() {
    run("@word ", vec![at_word("@word", 0, 4), space(" ")]);
}

#[test]
fn tokenizes_at_word_end() {
    run(
        "@one{@two()@three\"\"@four;",
        vec![
            at_word("@one", 0, 3),
            control(TokenControlKind::OpenCurly, 4),
            at_word("@two", 5, 8),
            brackets("()", 9, 10),
            at_word("@three", 11, 16),
            string("\"\"", 17, 18),
            at_word("@four", 19, 23),
            control(TokenControlKind::Semicolon, 24),
        ],
    );
}

#[test]
fn tokenizes_urls() {
    run("url(/*\\))", vec![word("url", 0, 2), brackets("(/*\\))", 3, 8)]);
}

#[test]
fn tokenizes_quoted_urls() {
    run(
        "url(\")\")",
        vec![
            word("url", 0, 2),
            bad_bracket(3),
            string("\")\"", 4, 6),
            control(TokenControlKind::CloseParentheses, 7),
        ],
    );
}

#[test]
fn tokenizes_at_symbol() {
    run("@", vec![at_word("@", 0, 0)]);
}

#[test]
fn tokenizes_comment() {
    run("/* a\nb */", vec![comment("/* a\nb */", 0, 8)]);
}

#[test]
fn changes_lines_in_comments() {
    run(
        "a/* \n */b",
        vec![word("a", 0, 0), comment("/* \n */", 1, 7), word("b", 8, 8)],
    );
}

#[test]
fn supports_line_feed() {
    run("a\u{12}b", vec![word("a", 0, 0), space("\u{12}"), word("b", 2, 2)]);
}

#[test]
fn supports_carriage_return() {
    run(
        "a\rb\r\nc",
        vec![word("a", 0, 0), space("\r"), word("b", 2, 2), space("\r\n"), word("c", 5, 5)],
    );
}

#[test]
fn tokenizes_css() {
    run(
        "a {\n  content: \"a\";\n  width: calc(1px;)\n  }\n/* small screen */\n@media screen {}",
        vec![
            word("a", 0, 0),
            space(" "),
            control(TokenControlKind::OpenCurly, 2),
            space("\n  "),
            word("content", 6, 12),
            control(TokenControlKind::Colon, 13),
            space(" "),
            string("\"a\"", 15, 17),
            control(TokenControlKind::Semicolon, 18),
            space("\n  "),
            word("width", 22, 26),
            control(TokenControlKind::Colon, 27),
            space(" "),
            word("calc", 29, 32),
            brackets("(1px;)", 33, 38),
            space("\n  "),
            control(TokenControlKind::CloseCurly, 42),
            space("\n"),
            comment("/* small screen */", 44, 61),
            space("\n"),
            at_word("@media", 63, 68),
            space(" "),
            word("screen", 70, 75),
            space(" "),
            control(TokenControlKind::OpenCurly, 77),
            control(TokenControlKind::CloseCurly, 78),
        ],
    );
}

#[test]
fn throws_error_on_unclosed_string() {
    let err = tokenize(" \"", false).unwrap_err();
    assert_eq!(err.kind, LexErrorKind::UnclosedString);
    assert_eq!(err.pos, 1);
}

#[test]
fn throws_error_on_unclosed_comment() {
    let err = tokenize(" /*", false).unwrap_err();
    assert_eq!(err.kind, LexErrorKind::UnclosedComment);
    assert_eq!(err.pos, 1);
}

#[test]
fn throws_error_on_unclosed_url() {
    let err = tokenize("url(", false).unwrap_err();
    assert_eq!(err.kind, LexErrorKind::UnclosedBracket);
    assert_eq!(err.pos, 3);
}

#[test]
fn ignores_unclosing_string_on_request() {
    run_ignore_errors(" \"", vec![space(" "), string("\"", 1, 2)]);
}

#[test]
fn ignores_unclosing_comment_on_request() {
    run_ignore_errors(" /*", vec![space(" "), comment("/*", 1, 3)]);
}

#[test]
fn ignores_unclosing_function_on_request() {
    run_ignore_errors("url(", vec![word("url", 0, 2), brackets("(", 3, 3)]);
}

#[test]
fn tokenizes_hexadecimal_escape() {
    run(
        "\\0a \\09 \\z ",
        vec![
            word("\\0a", 0, 2),
            space(" "),
            word("\\09", 4, 6),
            space(" "),
            word("\\z", 8, 9),
            space(" "),
        ],
    );
}

#[test]
fn ignore_unclosed_per_token_request() {
    fn tokn(css: &str) -> Vec<Token> {
        let input = Input::new(css.as_bytes().to_vec());
        let mut processor = Tokenizer::new(&input, false);
        let mut tokens = vec![];
        while !processor.end_of_file() {
            tokens.push(processor.next_token(true).unwrap());
        }
        tokens
    }

    let tokens = tokn("How's it going (");
    let expected = vec![
        word("How", 0, 2),
        string("'s", 3, 4),
        space(" "),
        word("it", 6, 7),
        space(" "),
        word("going", 9, 13),
        space(" "),
        bad_bracket(15),
    ];
    assert_eq!(tokens, expected);
}

#[test]
fn provides_correct_position() {
    let css = "Three tokens";
    let input = Input::new(css.as_bytes().to_vec());
    let mut processor = Tokenizer::new(&input, false);
    assert_eq!(processor.position(), 0);
    processor.next_token(false).unwrap();
    assert_eq!(processor.position(), 5);
    processor.next_token(false).unwrap();
    assert_eq!(processor.position(), 6);
    processor.next_token(false).unwrap();
    assert_eq!(processor.position(), 12);
}
