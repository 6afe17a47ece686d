use markup::lexer::{Lexer, LexemeType};
use markup::syntaxer::{ElementBody, ElementEnd, Leaf, Syntaxer, Tag};

fn all_lexemes(text: &str) -> Vec<(u64, LexemeType)> {
    let mut lx = Lexer::new(text);
    let mut out = Vec::new();
    while let Some(l) = lx.next() {
        out.push((l.line(), l.kind().clone()));
    }
    out
}

fn ident(s: &str) -> LexemeType {
    LexemeType::Identifier(s.to_owned())
}

#[test]
fn lexemes_of_simple_tag() {
    let ls = all_lexemes("<a b=\"c\">text");
    assert_eq!(ls.len(), 7);
    assert_eq!(ls[0].1, LexemeType::BracketLeft);
    assert_eq!(ls[1].1, ident("a"));
    assert_eq!(ls[2].1, ident("b"));
    assert_eq!(ls[3].1, LexemeType::Equals);
    assert_eq!(ls[4].1, LexemeType::Literal("c".to_owned()));
    assert_eq!(ls[5].1, LexemeType::BracketRight);
    assert_eq!(ls[6].1, ident("text"));
}

#[test]
fn lexeme_carries_its_first_characters_line() {
    // The newline that ends the first run is consumed with it but stamps
    // nothing: each run carries the line its own characters sit on.
    let ls = all_lexemes("a\nb");
    assert_eq!(ls, vec![(1, ident("a")), (2, ident("b"))]);
}

#[test]
fn line_counts_newlines_in_every_mode() {
    // One newline inside a quoted literal, one in content mode, one in tag
    // mode: all three step the line counter.
    let ls = all_lexemes("<a b=\"x\ny\">\nc<d\n>");
    let lines: Vec<u64> = ls.iter().map(|(n, _)| *n).collect();
    assert_eq!(
        ls.last().map(|(_, k)| k.clone()),
        Some(LexemeType::BracketRight)
    );
    assert_eq!(lines.last(), Some(&4));
}

#[test]
fn quoted_literal_keeps_structural_characters() {
    let ls = all_lexemes("<a b=\"</x=1>\">");
    assert_eq!(ls[4].1, LexemeType::Literal("</x=1>".to_owned()));
}

#[test]
fn empty_literal_scans_as_literal() {
    let ls = all_lexemes("<a b=\"\">");
    assert_eq!(ls[4].1, LexemeType::Literal(String::new()));
}

#[test]
fn content_mode_swallows_structural_characters() {
    let ls = all_lexemes("<a>x=/\"y\"<");
    assert_eq!(ls[3].1, ident("x=/\"y\""));
    assert_eq!(ls[4].1, LexemeType::BracketLeft);
}

#[test]
fn whitespace_splits_runs_in_tag_mode() {
    let ls = all_lexemes("  a  b  ");
    assert_eq!(ls[0].1, ident("a"));
    assert_eq!(ls[1].1, ident("b"));
}

#[test]
fn syntaxer_synthesizes_end_for_self_closing() {
    let mut sx = Syntaxer::new("<a b=\"1\"/>rest");
    let first = sx.next().unwrap().unwrap();
    let body = match first {
        Leaf::Body(b) => b,
        other => panic!("expected a Body leaf, got {other:?}"),
    };
    assert_eq!(body.name, "a");
    assert_eq!(body.line, 1);
    assert_eq!(body.tags.len(), 1);
    assert_eq!(body.tags[0].name(), "b");
    let second = sx.next().unwrap().unwrap();
    match second {
        Leaf::End(e) => {
            assert_eq!(e.name, "a");
            assert_eq!(e.line, 1);
        },
        other => panic!("expected the synthesized End leaf, got {other:?}"),
    }
    let third = sx.next().unwrap().unwrap();
    assert!(matches!(third, Leaf::Content(ref t) if t == "rest"));
    assert!(sx.next().unwrap().is_none());
}

#[test]
fn syntaxer_close_tag_discards_extra_lexemes() {
    let mut sx = Syntaxer::new("</a junk=\"1\">");
    let leaf = sx.next().unwrap().unwrap();
    match leaf {
        Leaf::End(e) => assert_eq!(e.name, "a"),
        other => panic!("expected an End leaf, got {other:?}"),
    }
    assert!(sx.next().unwrap().is_none());
}

#[test]
fn leaf_parse_reads_one_leaf() {
    let mut lx = Lexer::new("<p class=\"c\">tail");
    let (synth, leaf) = Leaf::parse(&mut lx).unwrap();
    assert!(synth.is_none());
    match leaf {
        Leaf::Body(b) => {
            assert_eq!(b.name, "p");
            assert_eq!(b.tags[0].content().as_deref(), Some("c"));
        },
        other => panic!("expected a Body leaf, got {other:?}"),
    }
    let (_, tail) = Leaf::parse(&mut lx).unwrap();
    assert!(matches!(tail, Leaf::Content(ref t) if t == "tail"));
}

#[test]
fn tag_parse_takes_value_and_hands_back_lookahead() {
    let mut lx = Lexer::new("=\"v\" next>");
    let (tag, carried) = Tag::parse("a".to_owned(), &mut lx).unwrap();
    assert_eq!(tag.name(), "a");
    assert_eq!(tag.content().as_deref(), Some("v"));
    assert!(carried.is_none());

    let mut lx2 = Lexer::new("next>");
    let (tag2, carried2) = Tag::parse("b".to_owned(), &mut lx2).unwrap();
    assert_eq!(tag2.name(), "b");
    assert_eq!(tag2.content(), &None);
    assert_eq!(carried2.unwrap().kind().clone(), ident("next"));
}

#[test]
fn element_body_parse_collects_attributes() {
    let mut lx = Lexer::new("href=\"x\" disabled>");
    let (body, short) = ElementBody::parse("a".to_owned(), 1, &mut lx).unwrap();
    assert!(!short);
    assert_eq!(body.name, "a");
    assert_eq!(body.tags.len(), 2);
    assert_eq!(body.tags[0].name(), "href");
    assert_eq!(body.tags[0].content().as_deref(), Some("x"));
    assert_eq!(body.tags[1].name(), "disabled");
    assert_eq!(body.tags[1].content(), &None);
}

#[test]
fn element_body_parse_reports_self_closing() {
    let mut lx = Lexer::new("c=\"1\"/>");
    let (body, short) = ElementBody::parse("x".to_owned(), 3, &mut lx).unwrap();
    assert!(short);
    assert_eq!(body.line, 3);
}

#[test]
fn close_tag_discards_everything_before_bracket() {
    // A `/` inside a close tag is discarded like any other lexeme there;
    // only an open tag's trailing `/` synthesizes a closing leaf.
    let mut sx = Syntaxer::new("</a/>");
    let first = sx.next().unwrap().unwrap();
    assert!(matches!(first, Leaf::End(ref e) if e.name == "a"));
    assert!(sx.next().unwrap().is_none());

    let mut sx2 = Syntaxer::new("</a b / c>d");
    let end = sx2.next().unwrap().unwrap();
    assert!(matches!(end, Leaf::End(ref e) if e.name == "a"));
    let after = sx2.next().unwrap().unwrap();
    assert!(matches!(after, Leaf::Content(ref t) if t == "d"));
}

#[test]
fn slash_not_directly_before_bracket_is_an_error() {
    let mut sx = Syntaxer::new("<a/ b>");
    assert!(matches!(
        sx.next(),
        Err(markup::error::ParseError::UnexpectedToken { found: Some(_), .. })
    ));
}

#[test]
fn double_slash_close_tag_is_an_error() {
    let mut sx = Syntaxer::new("<//a>");
    assert!(matches!(
        sx.next(),
        Err(markup::error::ParseError::UnexpectedToken { found: Some(_), .. })
    ));
}

#[test]
fn lexeme_equality_ignores_the_line() {
    let mut lx = Lexer::new("a\na b");
    let first = lx.next().unwrap();
    let second = lx.next().unwrap();
    let third = lx.next().unwrap();
    assert_eq!(first.line(), 1);
    assert_eq!(second.line(), 2);
    assert!(first == second);
    assert!(first != third);
}

#[test]
fn element_end_new_holds_name_and_line() {
    let e = ElementEnd::new("q".to_owned(), 7);
    assert_eq!(e.name, "q");
    assert_eq!(e.line, 7);
}
