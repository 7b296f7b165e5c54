use haml::format::HtmlFormat;
use haml::parser::{DCollector, Parser};
use haml::token::Token;

fn run(tokens: Vec<Token>) -> Result<haml::dom_tree::DomTree, String> {
    let mut parser = Parser::new(HtmlFormat::Html5);
    parser.execute(tokens)
}

#[test]
fn document_beginning_with_indent_is_invalid() {
    let tokens = vec![
        Token::Indent(' ', 2),
        Token::Tag(String::from("tag")),
        Token::Eol,
        Token::Eof,
    ];
    assert!(run(tokens).is_err());
}

#[test]
fn document_beginning_with_no_indent_is_valid() {
    let tokens = vec![Token::Tag(String::from("tag")), Token::Eol, Token::Eof];
    assert!(run(tokens).is_ok());
}

#[test]
fn document_beginning_with_eol_then_indent_is_invalid() {
    let tokens = vec![
        Token::Eol,
        Token::Indent(' ', 2),
        Token::Tag(String::from("tag")),
        Token::Eol,
        Token::Eof,
    ];
    assert!(run(tokens).is_err());
}

#[test]
fn document_beginning_with_eol_then_no_indent_is_valid() {
    let tokens = vec![
        Token::Eol,
        Token::Tag(String::from("tag")),
        Token::Eol,
        Token::Eof,
    ];
    assert!(run(tokens).is_ok());
}

#[test]
fn cannot_indent_using_space_and_tabs_in_the_same_line() {
    let tokens = vec![
        Token::Tag(String::from("tag")),
        Token::Eol,
        Token::Indent(' ', 2),
        Token::Indent('\t', 2),
        Token::Eol,
        Token::Eof,
    ];
    assert!(run(tokens).is_err());
}

#[test]
fn can_indent_document() {
    let tokens = vec![
        Token::Tag(String::from("tag")),
        Token::Eol,
        Token::Indent(' ', 2),
        Token::Tag(String::from("tag")),
        Token::Eol,
        Token::Indent(' ', 4),
        Token::Tag(String::from("tag")),
        Token::Eol,
        Token::Tag(String::from("tag")),
        Token::Eol,
        Token::Eof,
    ];
    assert!(run(tokens).is_ok());
}

#[test]
fn can_indent_using_space_and_tabs_in_different_lines() {
    let tokens = vec![
        Token::Tag(String::from("tag")),
        Token::Eol,
        Token::Indent(' ', 2),
        Token::Tag(String::from("tag")),
        Token::Eol,
        Token::Indent('\t', 4),
        Token::Tag(String::from("tag")),
        Token::Eol,
        Token::Eof,
    ];
    assert!(run(tokens).is_err());
}

#[test]
fn can_indent_in_the_same_lvl() {
    let tokens = vec![
        Token::Tag(String::from("tag")),
        Token::Eol,
        Token::Indent(' ', 2),
        Token::Tag(String::from("tag")),
        Token::Eol,
        Token::Indent(' ', 2),
        Token::Tag(String::from("tag")),
        Token::Eol,
        Token::Indent(' ', 2),
        Token::Tag(String::from("tag")),
        Token::Eol,
        Token::Indent(' ', 2),
        Token::Tag(String::from("tag")),
        Token::Eol,
        Token::Eof,
    ];
    assert!(run(tokens).is_ok());
}

#[test]
fn cannot_omit_a_lvl() {
    let tokens = vec![
        Token::Tag(String::from("tag")),
        Token::Eol,
        Token::Indent(' ', 2),
        Token::Tag(String::from("tag")),
        Token::Eol,
        Token::Indent(' ', 6),
        Token::Tag(String::from("tag")),
        Token::Eol,
        Token::Eof,
    ];
    assert!(run(tokens).is_err());
}

#[test]
fn each_indent_have_the_same_base_length() {
    let tokens = vec![
        Token::Tag(String::from("tag")),
        Token::Eol,
        Token::Indent(' ', 2),
        Token::Tag(String::from("tag")),
        Token::Eol,
        Token::Indent(' ', 4),
        Token::Tag(String::from("tag")),
        Token::Eol,
        Token::Indent(' ', 6),
        Token::Tag(String::from("tag")),
        Token::Eol,
        Token::Eof,
    ];
    assert!(run(tokens).is_ok());
}

#[test]
fn indent_cannot_have_different_base_length() {
    let tokens = vec![
        Token::Tag(String::from("tag")),
        Token::Eol,
        Token::Indent(' ', 2),
        Token::Tag(String::from("tag")),
        Token::Eol,
        Token::Indent(' ', 3),
        Token::Tag(String::from("tag")),
        Token::Eol,
        Token::Eof,
    ];
    assert!(run(tokens).is_err());
}

#[test]
fn tag_can_have_alphanumeric_char_in_name() {
    let tokens = vec![Token::Tag(String::from("tag")), Token::Eol, Token::Eof];
    assert!(run(tokens).is_ok());
}

#[test]
fn tag_cannot_be_empty_or_have_invalid_char() {
    let tokens = vec![Token::Tag(String::from("")), Token::Eol, Token::Eof];
    assert!(run(tokens).is_err());
}

#[test]
fn class_can_have_alphanumeric_name() {
    let tokens = vec![Token::Class(String::from("class")), Token::Eol, Token::Eof];
    assert!(run(tokens).is_ok());
}

#[test]
fn id_can_have_alphanumeric_name() {
    let tokens = vec![Token::Class(String::from("id")), Token::Eol, Token::Eof];
    assert!(run(tokens).is_ok());
}

#[test]
fn class_name_cannot_be_empty_or_have_invalid_char() {
    let tokens = vec![Token::Class(String::from("")), Token::Eol, Token::Eof];
    assert!(run(tokens).is_err());
}

#[test]
fn id_name_cannot_be_empty_or_have_invalid_char() {
    let tokens = vec![Token::Class(String::from("")), Token::Eol, Token::Eof];
    assert!(run(tokens).is_err());
}

#[test]
fn content_on_the_same_line_and_nested_is_illegal() {
    let tokens = vec![
        Token::Tag(String::from("tag")),
        Token::PlainText(String::from("Hello world")),
        Token::Eol,
        Token::Indent(' ', 2),
        Token::Tag(String::from("tag2")),
        Token::Eol,
        Token::Eof,
    ];
    assert!(run(tokens).is_err());
}

#[test]
fn content_can_be_on_the_same_line_if_not_nested() {
    let tokens = vec![
        Token::Tag(String::from("tag")),
        Token::PlainText(String::from("Hello world")),
        Token::Eol,
        Token::Tag(String::from("tag2")),
        Token::Eol,
        Token::Eof,
    ];
    assert!(run(tokens).is_ok());
}

#[test]
fn content_can_be_inline_inside_a_nested_tag() {
    let tokens = vec![
        Token::Tag(String::from("tag")),
        Token::Eol,
        Token::Indent(' ', 2),
        Token::Tag(String::from("tag2")),
        Token::PlainText(String::from("Hello world")),
        Token::Eol,
        Token::Tag(String::from("tag")),
        Token::Eol,
        Token::Eof,
    ];
    assert!(run(tokens).is_ok());
}

#[test]
fn plain_text_cannot_be_nested_within_plain_text() {
    let tokens = vec![
        Token::PlainText(String::from("Hello world")),
        Token::Eol,
        Token::Indent(' ', 2),
        Token::PlainText(String::from("Hello world")),
        Token::Eol,
        Token::Eof,
    ];
    assert!(run(tokens).is_err());
}

#[test]
fn div_cannot_be_nested_within_plain_text() {
    let tokens = vec![
        Token::PlainText(String::from("Hello world")),
        Token::Eol,
        Token::Indent(' ', 2),
        Token::Tag(String::from("tag")),
        Token::Eol,
        Token::Eof,
    ];
    assert!(run(tokens).is_err());
}

#[test]
fn plain_text_can_be_followed_by_plain_text() {
    let tokens = vec![
        Token::PlainText(String::from("Hello world")),
        Token::Eol,
        Token::PlainText(String::from("Hello world")),
        Token::Eol,
        Token::Eof,
    ];
    assert!(run(tokens).is_ok());
}

#[test]
fn plain_text_can_be_followed_by_div() {
    let tokens = vec![
        Token::PlainText(String::from("Hello world")),
        Token::Eol,
        Token::Tag(String::from("tag")),
        Token::Eol,
        Token::Eof,
    ];
    assert!(run(tokens).is_ok());
}

#[test]
fn data_collector_is_empty() {
    let data = DCollector::new();
    assert!(data.is_empty());
    assert!(!data.is_inline());
    assert!(!data.is_block());
    assert!(!data.is_plaintext());
}

#[test]
fn data_collector_is_plaintext() {
    let mut data = DCollector::new();
    data.content = String::from("some content");
    assert!(!data.is_empty());
    assert!(!data.is_inline());
    assert!(!data.is_block());
    assert!(data.is_plaintext());
}

#[test]
fn data_collector_is_block() {
    let mut data = DCollector::new();
    data.tag = String::from("some tag");
    assert!(!data.is_empty());
    assert!(!data.is_inline());
    assert!(data.is_block());
    assert!(!data.is_plaintext());
}

#[test]
fn data_collector_is_inline() {
    let mut data = DCollector::new();
    data.tag = String::from("some_tag");
    data.content = String::from("some content");
    assert!(!data.is_empty());
    assert!(data.is_inline());
    assert!(!data.is_block());
    assert!(!data.is_plaintext());
}
