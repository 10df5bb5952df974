use postcss::Element;
use postcss::Input;
use postcss::NodeKind;
use postcss::Parser;
use postcss::Token;
use postcss::plugins::remove_space;
use postcss::plugins::remove_space_mut;
use postcss::plugins::reverse_plugin;
use postcss::tokenize;

const SAMPLE: &str = "/**\n * Sample stylesheet.\n */\n@media screen and (min-width: 480px) {\n    body, .result {\n        background-color: lightgreen;\n    }\n}\n\n#main {\n    border: 1px solid black;\n}\n\nul li {\n  padding: 5px;\n}\n\n";

fn parse_to_bytes(css: &str) -> Vec<u8> {
    let input = Input::new(css.as_bytes().to_vec());
    let mut parser = Parser::new(&input);
    parser.parse().unwrap();
    parser.root().serialize()
}

fn token_content(t: &Token) -> Vec<u8> {
    t.get_content()
}

#[test]
fn lenient_tokens_cover_the_source() {
    let cases = [
        SAMPLE,
        "",
        "a{b:c}",
        "a { b: url(\"x ) y\"; } ]",
        "\\0a \\09 \\z \\",
        "url(",
        "\"unterminated",
        "/* unterminated",
        "(())(\"\")(/**/)(\\\\)(\n)(",
        "a[b]{c;;}d:e;}",
    ];
    for css in cases {
        let input = Input::new(css.as_bytes().to_vec());
        let tokens = tokenize(&input, true).unwrap();
        let mut joined: Vec<u8> = vec![];
        for t in &tokens {
            joined.extend(token_content(t));
        }
        assert_eq!(joined, css.as_bytes().to_vec());
    }
}

#[test]
fn strict_and_lenient_agree_on_well_formed_input() {
    let cases = [SAMPLE, "", "a{b:c}", "a[b]{c(d);}@media x{}", "(ok) 'str' /*c*/ @x;"];
    for css in cases {
        let input = Input::new(css.as_bytes().to_vec());
        let strict = tokenize(&input, false).unwrap();
        let lenient = tokenize(&input, true).unwrap();
        assert_eq!(strict, lenient);
    }
}

#[test]
fn escaped_delimiters_stay_separate_words() {
    let input = Input::new("\\(\\{\\\"\\@\\\\".as_bytes().to_vec());
    let tokens = tokenize(&input, false).unwrap();
    assert_eq!(tokens.len(), 5);
    for t in &tokens {
        assert!(matches!(t, Token::Word { .. }));
        assert_eq!(token_content(t).len(), 2);
    }
}

#[test]
fn stray_open_bracket_is_reported_separately() {
    let input = Input::new("(())".as_bytes().to_vec());
    let tokens = tokenize(&input, false).unwrap();
    assert_eq!(tokens.len(), 3);
    assert!(matches!(tokens[0], Token::BadBracket { pos: 0 }));
    assert!(
        matches!(&tokens[1], Token::Brackets { content, pos: 1, next: 2 } if content.as_slice() == "()".as_bytes())
    );
    assert!(matches!(tokens[2], Token::Control { pos: 3, .. }));
}

#[test]
fn positions_increase_and_reach_the_end() {
    let css = "a { b: url( \"x";
    let input = Input::new(css.as_bytes().to_vec());
    let mut processor = postcss::Tokenizer::new(&input, true);
    let mut last = processor.position();
    assert_eq!(last, 0);
    while !processor.end_of_file() {
        processor.next_token(false).unwrap();
        let now = processor.position();
        assert!(now > last);
        last = now;
    }
    assert_eq!(last, css.len());
}

#[test]
fn parse_round_trips_exactly() {
    let cases = [
        SAMPLE,
        "",
        "a{b:c}",
        "a {\n  content: \"a\";\n  width: calc(1px;)\n  }\n",
        "@import url(x.css);@media s{a{b:c;}}",
        ";;a;;",
        "a{b:c",
        "\"unterminated",
        "/* unterminated",
    ];
    for css in cases {
        assert_eq!(parse_to_bytes(css), css.as_bytes().to_vec());
    }
}

#[test]
fn parse_reports_unbalanced_close() {
    let input = Input::new("a{}}".as_bytes().to_vec());
    let mut parser = Parser::new(&input);
    let err = parser.parse().unwrap_err();
    assert_eq!(err.pos, 3);
}

#[test]
fn parse_builds_rules_and_declarations() {
    let input = Input::new("a{b:c;}@x;".as_bytes().to_vec());
    let mut parser = Parser::new(&input);
    parser.parse().unwrap();
    let root = parser.root();
    assert_eq!(root.kind, NodeKind::Root);
    assert_eq!(root.children.len(), 2);
    match &root.children[0] {
        Element::Node(rule) => {
            assert_eq!(rule.kind, NodeKind::Rule);
            let has_prop = rule
                .children
                .iter()
                .any(|c| matches!(c, Element::Node(n) if n.kind == NodeKind::Prop));
            assert!(has_prop);
        }
        _ => panic!("expected a rule node"),
    }
    match &root.children[1] {
        Element::Node(at) => assert_eq!(at.kind, NodeKind::AtRule),
        _ => panic!("expected an at-rule node"),
    }
}

#[test]
fn hash_and_close_square_are_word_content() {
    let input = Input::new("a#b x]y".as_bytes().to_vec());
    let tokens = tokenize(&input, false).unwrap();
    assert_eq!(tokens.len(), 3);
    assert!(matches!(&tokens[0], Token::Word { content, pos: 0, next: 2 } if content.as_slice() == "a#b".as_bytes()));
    assert!(matches!(&tokens[2], Token::Word { content, pos: 4, next: 6 } if content.as_slice() == "x]y".as_bytes()));
}

#[test]
fn at_word_includes_escape_sequences() {
    let input = Input::new("@a\\{b {".as_bytes().to_vec());
    let tokens = tokenize(&input, false).unwrap();
    assert!(matches!(&tokens[0], Token::AtWord { content, pos: 0, next: 4 } if content.as_slice() == "@a\\{b".as_bytes()));
    assert!(matches!(&tokens[1], Token::Space { .. }));
    assert!(matches!(&tokens[2], Token::Control { pos: 6, .. }));
}

#[test]
fn at_rule_opens_after_leading_trivia() {
    let css = " /*c*/ @media x {}";
    let input = Input::new(css.as_bytes().to_vec());
    let mut parser = Parser::new(&input);
    parser.parse().unwrap();
    let root = parser.root();
    assert_eq!(root.children.len(), 1);
    match &root.children[0] {
        Element::Node(at) => assert_eq!(at.kind, NodeKind::AtRule),
        _ => panic!("expected an at-rule node"),
    }
    assert_eq!(parser.root().serialize(), css.as_bytes().to_vec());
}

#[test]
fn bodyless_at_rule_after_free_semicolon() {
    let css = ";@import x;";
    let input = Input::new(css.as_bytes().to_vec());
    let mut parser = Parser::new(&input);
    parser.parse().unwrap();
    let root = parser.root();
    assert_eq!(root.children.len(), 1);
    match &root.children[0] {
        Element::Node(at) => assert_eq!(at.kind, NodeKind::AtRule),
        _ => panic!("expected an at-rule node"),
    }
    assert_eq!(parser.root().serialize(), css.as_bytes().to_vec());
}

#[test]
fn detach_removes_exactly_the_subtree() {
    let css = "a{x:1}b{y:2}";
    let input = Input::new(css.as_bytes().to_vec());
    let mut parser = Parser::new(&input);
    parser.parse().unwrap();
    let mut tree = parser.root().clone_for_update();
    tree.detach(&vec![0]);
    assert_eq!(tree.serialize(), "b{y:2}".as_bytes().to_vec());
}

#[test]
fn detach_of_nested_declaration() {
    let css = "a{x:1;y:2;}";
    let input = Input::new(css.as_bytes().to_vec());
    let mut parser = Parser::new(&input);
    parser.parse().unwrap();
    let mut tree = parser.root().clone_for_update();
    // The rule's children are: a { prop(x:1;) prop(y:2;) }
    tree.detach(&vec![0, 2]);
    assert_eq!(tree.serialize(), "a{y:2;}".as_bytes().to_vec());
}

#[test]
fn text_range_matches_source_span() {
    let css = "a{x:1}b{y:2}";
    let input = Input::new(css.as_bytes().to_vec());
    let mut parser = Parser::new(&input);
    parser.parse().unwrap();
    let root = parser.root();
    assert_eq!(root.text_range_at(&vec![0]), (0, 6));
    assert_eq!(root.text_range_at(&vec![1]), (6, 12));
    // The first rule's children are: a { prop(x:1) }
    assert_eq!(root.text_range_at(&vec![0, 2]), (2, 5));
}

#[test]
fn clone_for_update_leaves_the_original_alone() {
    let css = "a{x:1}";
    let input = Input::new(css.as_bytes().to_vec());
    let mut parser = Parser::new(&input);
    parser.parse().unwrap();
    let original = parser.root();
    let mut copy = original.clone_for_update();
    assert_eq!(copy.serialize(), css.as_bytes().to_vec());
    copy.detach(&vec![0]);
    assert_eq!(copy.serialize(), Vec::<u8>::new());
    assert_eq!(original.serialize(), css.as_bytes().to_vec());
}

#[test]
fn remove_space_skips_every_space_token() {
    let css = "a {\n  b: c;\n}\n";
    let input = Input::new(css.as_bytes().to_vec());
    let mut parser = Parser::new(&input);
    parser.parse().unwrap();
    let mut out: Vec<u8> = vec![];
    remove_space(parser.root(), &mut out);
    assert_eq!(out, "a{b:c;}".as_bytes().to_vec());
}

#[test]
fn remove_space_mut_matches_remove_space() {
    let css = "a {\n  b: c;\n}\n@media x { }";
    let input = Input::new(css.as_bytes().to_vec());
    let mut parser = Parser::new(&input);
    parser.parse().unwrap();
    let mut expected: Vec<u8> = vec![];
    remove_space(parser.root(), &mut expected);
    let mut tree = parser.root().clone_for_update();
    remove_space_mut(&mut tree);
    assert_eq!(tree.serialize(), expected);
}

#[test]
fn removing_the_only_space_splices_its_range_out() {
    // Exactly one space token, covering bytes 4..5 of the source.
    let css = "a{x} b{y}";
    let input = Input::new(css.as_bytes().to_vec());
    let mut parser = Parser::new(&input);
    parser.parse().unwrap();
    let mut tree = parser.root().clone_for_update();
    remove_space_mut(&mut tree);
    let mut expected = css.as_bytes()[..4].to_vec();
    expected.extend_from_slice(&css.as_bytes()[5..]);
    assert_eq!(tree.serialize(), expected);
}

#[test]
fn reverse_plugin_reverses_declaration_text() {
    let css = "a{b:c}";
    let input = Input::new(css.as_bytes().to_vec());
    let mut parser = Parser::new(&input);
    parser.parse().unwrap();
    let mut out: Vec<u8> = vec![];
    reverse_plugin(parser.root(), &mut out);
    assert_eq!(out, "a{c:b}".as_bytes().to_vec());
}

#[test]
fn lines_and_columns_for_diagnostics() {
    let input = Input::new("ab\ncd\r\nef".as_bytes().to_vec());
    assert_eq!(input.line_column(0), (1, 1));
    assert_eq!(input.line_column(1), (1, 2));
    assert_eq!(input.line_column(3), (2, 1));
    assert_eq!(input.line_column(6), (2, 4));
    assert_eq!(input.line_column(7), (3, 1));
    let lone = Input::new("x\ry".as_bytes().to_vec());
    assert_eq!(lone.line_column(2), (2, 1));
}

#[test]
fn tokenize_reports_first_fault_in_strict_mode() {
    let input = Input::new("ok \"broken".as_bytes().to_vec());
    let err = tokenize(&input, false).unwrap_err();
    assert_eq!(err.kind, postcss::LexErrorKind::UnclosedString);
    assert_eq!(err.pos, 3);
}
