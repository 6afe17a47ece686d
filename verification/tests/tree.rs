use markup::error::{ExpectedLeaves, ParseError};
use markup::parser::{Child, Element, Parser};

fn parse(text: &str) -> Result<Element, ParseError> {
    Parser::new(text).parse()
}

fn parse_ok(text: &str) -> Element {
    parse(text).unwrap()
}

/// Structural equivalence: names, attribute name/value pairs, and children
/// equal in order and kind.
fn same_tree(a: &Element, b: &Element) -> bool {
    if a.name() != b.name() {
        return false;
    }
    if a.tags().len() != b.tags().len() {
        return false;
    }
    for (ta, tb) in a.tags().iter().zip(b.tags().iter()) {
        if ta.name() != tb.name() || ta.content() != tb.content() {
            return false;
        }
    }
    if a.children().len() != b.children().len() {
        return false;
    }
    for (ca, cb) in a.children().iter().zip(b.children().iter()) {
        let ok = match (ca, cb) {
            (Child::Element(ea), Child::Element(eb)) => same_tree(ea, eb),
            (Child::Text(ta), Child::Text(tb)) => ta == tb,
            _ => false,
        };
        if !ok {
            return false;
        }
    }
    true
}

#[test]
fn well_formed_document() {
    let e = parse_ok("<html lang=\"en\"><body><p class=\"x\">hello</p><p>world</p></body></html>");
    assert_eq!(e.name(), "html");
    assert_eq!(e.tags().len(), 1);
    assert_eq!(e.tags()[0].name(), "lang");
    assert_eq!(e.tags()[0].content().as_deref(), Some("en"));
    assert_eq!(e.children().len(), 1);
    let body = e.children()[0].element().unwrap();
    assert_eq!(body.name(), "body");
    assert_eq!(body.children().len(), 2);
    let p1 = body.children()[0].element().unwrap();
    assert_eq!(p1.name(), "p");
    assert_eq!(p1.tags()[0].name(), "class");
    assert_eq!(p1.tags()[0].content().as_deref(), Some("x"));
    assert_eq!(p1.children()[0].text(), Some("hello"));
    let p2 = body.children()[1].element().unwrap();
    assert_eq!(p2.children()[0].text(), Some("world"));
}

#[test]
fn self_closing_void_equals_explicit_close() {
    let a = parse_ok("<img src=\"a.png\"/>");
    let b = parse_ok("<img src=\"a.png\"></img>");
    assert_eq!(a.name(), "img");
    assert_eq!(a.tags().len(), 1);
    assert_eq!(a.tags()[0].name(), "src");
    assert_eq!(a.tags()[0].content().as_deref(), Some("a.png"));
    assert_eq!(a.children().len(), 0);
    assert!(same_tree(&a, &b));
}

#[test]
fn self_closing_non_void_equals_explicit_close() {
    let a = parse_ok("<div id=\"d\"/>");
    let b = parse_ok("<div id=\"d\"></div>");
    assert_eq!(a.children().len(), 0);
    assert!(same_tree(&a, &b));
}

#[test]
fn void_element_takes_no_children() {
    let e = parse_ok("<div><br>text</div>");
    assert_eq!(e.children().len(), 2);
    let br = e.children()[0].element().unwrap();
    assert_eq!(br.name(), "br");
    assert_eq!(br.children().len(), 0);
    assert_eq!(e.children()[1].text(), Some("text"));
}

#[test]
fn void_element_nested_deeper() {
    let e = parse_ok("<div><span><hr>tail</span></div>");
    let span = e.children()[0].element().unwrap();
    assert_eq!(span.children().len(), 2);
    assert_eq!(span.children()[0].element().unwrap().name(), "hr");
    assert_eq!(span.children()[0].element().unwrap().children().len(), 0);
    assert_eq!(span.children()[1].text(), Some("tail"));
}

#[test]
fn mismatched_end_tag_names_and_lines() {
    let err = parse("<div><span></div>").unwrap_err();
    match err {
        ParseError::MismatchedEndTag { expected_name, expected_line, found_name, found_line } => {
            assert_eq!(expected_name, "span");
            assert_eq!(found_name, "div");
            assert_eq!(expected_line, 1);
            assert_eq!(found_line, 1);
        },
        other => panic!("expected MismatchedEndTag, got {other:?}"),
    }
}

#[test]
fn mismatched_end_tag_cites_each_tags_own_line() {
    let err = parse("<div>\n<span>\n</div>").unwrap_err();
    match err {
        ParseError::MismatchedEndTag { expected_name, expected_line, found_name, found_line } => {
            assert_eq!(expected_name, "span");
            assert_eq!(expected_line, 2);
            assert_eq!(found_name, "div");
            assert_eq!(found_line, 3);
        },
        other => panic!("expected MismatchedEndTag, got {other:?}"),
    }
}

#[test]
fn newline_inside_quoted_value_counts() {
    let err = parse("<div x=\"a\nb\">\n<span>\n</div>").unwrap_err();
    match err {
        ParseError::MismatchedEndTag { expected_line, found_line, .. } => {
            assert_eq!(expected_line, 3);
            assert_eq!(found_line, 4);
        },
        other => panic!("expected MismatchedEndTag, got {other:?}"),
    }
}

#[test]
fn whitespace_only_body_has_no_children() {
    let e = parse_ok("<div>   </div>");
    assert_eq!(e.children().len(), 0);
    let e2 = parse_ok("<div> \n\t </div>");
    assert_eq!(e2.children().len(), 0);
}

#[test]
fn attribute_with_and_without_value() {
    let e = parse_ok("<a href=\"x\" disabled></a>");
    assert_eq!(e.tags().len(), 2);
    assert_eq!(e.tags()[0].name(), "href");
    assert_eq!(e.tags()[0].content().as_deref(), Some("x"));
    assert_eq!(e.tags()[1].name(), "disabled");
    assert_eq!(e.tags()[1].content(), &None);
}

#[test]
fn text_kept_exactly_as_scanned() {
    let e = parse_ok("<a> x  y </a>");
    assert_eq!(e.children().len(), 1);
    assert_eq!(e.children()[0].text(), Some(" x  y "));
}

#[test]
fn quotes_in_content_are_plain_text() {
    let e = parse_ok("<a>say \"hi\" now</a>");
    assert_eq!(e.children()[0].text(), Some("say \"hi\" now"));
}

#[test]
fn void_root_parses_alone() {
    let e = parse_ok("<br>");
    assert_eq!(e.name(), "br");
    assert_eq!(e.children().len(), 0);
}

#[test]
fn unterminated_element_error() {
    assert!(matches!(parse("<div>"), Err(ParseError::UnterminatedElement)));
    assert!(matches!(parse("<div><span></span>"), Err(ParseError::UnterminatedElement)));
}

#[test]
fn unexpected_leaf_on_bare_text_root() {
    assert!(matches!(
        parse("plain"),
        Err(ParseError::UnexpectedLeaf { found: Some(_), expected: ExpectedLeaves::Body })
    ));
}

#[test]
fn unexpected_leaf_on_empty_input() {
    assert!(matches!(
        parse(""),
        Err(ParseError::UnexpectedLeaf { found: None, expected: ExpectedLeaves::Body })
    ));
}

#[test]
fn child_parse_rejects_a_close_leaf() {
    let mut sx = markup::syntaxer::Syntaxer::new("");
    let end = markup::syntaxer::ElementEnd::new("a".to_owned(), 1);
    let err = Child::parse(markup::syntaxer::Leaf::End(end), &mut sx).unwrap_err();
    assert!(matches!(
        err,
        ParseError::UnexpectedLeaf { found: Some(_), expected: ExpectedLeaves::ContentOrBody }
    ));
}

#[test]
fn unexpected_token_on_unquoted_attribute_value() {
    let err = parse("<a b=c></a>").unwrap_err();
    assert!(matches!(err, ParseError::UnexpectedToken { found: Some(_), .. }));
}

#[test]
fn unexpected_token_cites_the_offending_lexemes_line() {
    let err = parse("<a\nb=c></a>").unwrap_err();
    match err {
        ParseError::UnexpectedToken { found: Some(lexeme), .. } => {
            assert_eq!(lexeme.line(), 2);
        },
        other => panic!("expected UnexpectedToken with a lexeme, got {other:?}"),
    }
}

#[test]
fn unexpected_token_on_empty_close_tag() {
    let err = parse("<div></></div>").unwrap_err();
    assert!(matches!(err, ParseError::UnexpectedToken { .. }));
}

#[test]
fn trailing_content_after_root_is_ignored() {
    let e = parse_ok("<a></a><b></b>junk");
    assert_eq!(e.name(), "a");
    let e2 = parse_ok("<a></a><this is not even [valid");
    assert_eq!(e2.name(), "a");
}

#[test]
fn get_and_get_name_lookups() {
    let e = parse_ok("<div>lead<a></a><b></b><a id=\"second\"></a></div>");
    assert_eq!(e.children().len(), 4);
    assert!(e.get(0).unwrap().text().is_some());
    assert_eq!(e.get(1).unwrap().element().unwrap().name(), "a");
    assert!(e.get(4).is_none());
    let first_a = e.get_name("a").unwrap();
    assert_eq!(first_a.tags().len(), 0);
    assert_eq!(e.get_name("b").unwrap().name(), "b");
    assert!(e.get_name("missing").is_none());
}

#[test]
fn equals_without_literal_value_is_an_error() {
    let err = parse("<a b= ></a>").unwrap_err();
    assert!(matches!(err, ParseError::UnexpectedToken { found: Some(_), .. }));
}

#[test]
fn attribute_order_is_kept() {
    let e = parse_ok("<a z=\"1\" y b=\"2\"></a>");
    let names: Vec<&str> = e.tags().iter().map(|t| t.name()).collect();
    assert_eq!(names, vec!["z", "y", "b"]);
    assert_eq!(e.tags()[2].content().as_deref(), Some("2"));
}

#[test]
fn deep_nesting_keeps_structure() {
    let e = parse_ok("<a><b><c>x</c></b></a>");
    let b = e.children()[0].element().unwrap();
    let c = b.children()[0].element().unwrap();
    assert_eq!(c.name(), "c");
    assert_eq!(c.children()[0].text(), Some("x"));
    assert_eq!(e.children().len(), 1);
    assert_eq!(b.children().len(), 1);
}

#[test]
fn text_at_end_of_input_leaves_element_unterminated() {
    assert!(matches!(parse("<a>text"), Err(ParseError::UnterminatedElement)));
}

#[test]
fn element_parse_reads_one_root_from_a_syntaxer() {
    let mut sx = markup::syntaxer::Syntaxer::new("<a></a><b></b>");
    let first = markup::parser::Element::parse(&mut sx).unwrap();
    assert_eq!(first.name(), "a");
    let second = markup::parser::Element::parse(&mut sx).unwrap();
    assert_eq!(second.name(), "b");
}

#[test]
fn child_parse_drops_whitespace_and_keeps_text() {
    let mut sx = markup::syntaxer::Syntaxer::new("");
    let none = Child::parse(markup::syntaxer::Leaf::Content("  \n ".to_owned()), &mut sx).unwrap();
    assert!(none.is_none());
    let some = Child::parse(markup::syntaxer::Leaf::Content("words".to_owned()), &mut sx).unwrap();
    assert_eq!(some.unwrap().text(), Some("words"));
}

#[test]
fn nested_self_closing_void_leaves_its_end_leaf() {
    // A self-closing tag synthesizes a closing leaf, but a void element
    // consumes no closing leaf at all, so inside another element the
    // synthesized leaf reaches the parent's name check and fails there.
    // A nested void element is written without the slash: `<img>`.
    let err = parse("<div><img/></div>").unwrap_err();
    match err {
        ParseError::MismatchedEndTag { expected_name, found_name, .. } => {
            assert_eq!(expected_name, "div");
            assert_eq!(found_name, "img");
        },
        other => panic!("expected MismatchedEndTag, got {other:?}"),
    }
}

#[test]
fn round_trip_rebuilds_equivalent_tree() {
    let src = "<html lang=\"en\"><body><p class=\"x\">hello</p><img src=\"a.png\"><p>world <b>bold</b></p></body></html>";
    let first = parse_ok(src);
    let printed = first.to_markup();
    let second = parse_ok(&printed);
    assert!(same_tree(&first, &second));
}

#[test]
fn round_trip_with_void_and_bare_attributes() {
    let first = parse_ok("<form action=\"/s\" novalidate><input name=\"q\" required><br>done</form>");
    let second = parse_ok(&first.to_markup());
    assert!(same_tree(&first, &second));
}

#[test]
fn to_markup_exact_text() {
    let e = parse_ok("<div id=\"d\" hidden><p>text</p><br></div>");
    assert_eq!(e.to_markup(), "<div id=\"d\" hidden><p>text</p><br></div>");
}
