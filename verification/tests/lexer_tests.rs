use haml::input_reader::InputReader;
use haml::lexer::Lexer;
use haml::token::Token;

fn prepare_test_lexer(haml_str: &str) -> Lexer {
    let input_reader = InputReader::new(haml_str);
    Lexer::new(input_reader)
}

fn lex(haml_str: &str) -> Vec<Token> {
    let mut lexer = prepare_test_lexer(haml_str);
    lexer.execute()
}

#[test]
fn lex_plain_text() {
    let expected = vec![
        Token::PlainText(String::from("this is a plain text string")),
        Token::Eol,
        Token::Eof,
    ];
    assert_eq!(expected, lex("this is a plain text string\n"));
}

#[test]
fn lex_empty_input() {
    let expected = vec![Token::Eof];
    assert_eq!(expected, lex(""));
}

#[test]
fn lex_white_space_on_begin_give_indent() {
    let expected = vec![
        Token::Indent(' ', 2),
        Token::Tag(String::from("tag")),
        Token::Eol,
        Token::Eof,
    ];
    assert_eq!(expected, lex("  %tag\n"));
}

#[test]
fn lex_a_line_ending_with_return() {
    let expected = vec![
        Token::Indent(' ', 2),
        Token::Tag(String::from("tag")),
        Token::Id(String::from("id")),
        Token::Class(String::from("class")),
        Token::PlainText(String::from("text")),
        Token::Eol,
        Token::Eof,
    ];
    assert_eq!(expected, lex("  %tag#id.class text\n"));
}

#[test]
fn lex_a_line_ending_with_end_of_file() {
    let expected = vec![
        Token::Indent(' ', 2),
        Token::Tag(String::from("tag")),
        Token::Id(String::from("id")),
        Token::Class(String::from("class")),
        Token::PlainText(String::from("text")),
        Token::Eof,
    ];
    assert_eq!(expected, lex("  %tag#id.class text"));
}

#[test]
fn lex_plain_text_and_remove_extra_white_space() {
    let expected = vec![
        Token::Tag(String::from("t")),
        Token::PlainText(String::from("plain text")),
        Token::Eol,
        Token::Eof,
    ];
    assert_eq!(expected, lex("%t \t   plain text   \t   \t   \t\n"));
}

#[test]
fn lex_escape_string_give_plain_text() {
    let expected = vec![
        Token::PlainText(String::from("%t.i#4 + plain text string")),
        Token::Eol,
        Token::Eof,
    ];
    assert_eq!(expected, lex("\\%t.i#4 + plain text string\n"));
}

#[test]
fn lex_indent_with_escape_string_give_indent_and_plain_text() {
    let expected = vec![
        Token::Indent(' ', 2),
        Token::PlainText(String::from("%t.i#4 + plain text string")),
        Token::Eol,
        Token::Eof,
    ];
    assert_eq!(expected, lex("  \\%t.i#4 + plain text string\n"));
}

#[test]
fn lex_chained_tag_id_and_class() {
    let expected = vec![
        Token::Tag(String::from("tag")),
        Token::Class(String::from("class")),
        Token::Id(String::from("id")),
        Token::Class(String::from("class")),
        Token::Eol,
        Token::Eof,
    ];
    assert_eq!(expected, lex("%tag.class#id.class\n"));
}

#[test]
fn remove_blankline_let_return() {
    let expected = vec![Token::Eol, Token::Eol, Token::Eof];
    assert_eq!(expected, lex("    \t     \n     \t    \n"));
}

#[test]
fn remove_blankline_with_content() {
    let expected = vec![
        Token::Eol,
        Token::Tag(String::from("t")),
        Token::Eol,
        Token::Eol,
        Token::Eof,
    ];
    assert_eq!(expected, lex("    \t     \n%t\n     \t    \n"));
}

#[test]
fn remove_blankline_inside_content() {
    let expected = vec![
        Token::Eol,
        Token::Tag(String::from("t")),
        Token::Eol,
        Token::Eol,
        Token::Tag(String::from("i")),
        Token::Eol,
        Token::Eof,
    ];
    assert_eq!(expected, lex("    \t     \n%t\n     \t    \n%i\n"));
}

#[test]
fn remove_blankline_and_keep_indent() {
    let expected = vec![
        Token::Eol,
        Token::Indent(' ', 2),
        Token::Tag(String::from("t")),
        Token::Eol,
        Token::Eol,
        Token::Eof,
    ];
    assert_eq!(expected, lex("    \t     \n  %t\n     \t    \n"));
}

#[test]
fn blank_space_after_tag_is_not_plain_text() {
    let expected = vec![Token::Tag(String::from("t")), Token::Eol, Token::Eof];
    assert_eq!(expected, lex("%t          \n"));
}

#[test]
fn three_exclamation_and_more_is_doctype() {
    let expected = vec![Token::Doctype, Token::Eol, Token::Eof];
    assert_eq!(expected, lex("!!!\n"));
}

#[test]
fn doctype_can_have_plain_text_specifier() {
    let expected = vec![
        Token::Doctype,
        Token::PlainText(String::from("Strict")),
        Token::Eol,
        Token::Eof,
    ];
    assert_eq!(expected, lex("!!! Strict\n"));
}

#[test]
fn one_exclamation_is_not_doctype() {
    let expected = vec![Token::PlainText(String::from("!!")), Token::Eol, Token::Eof];
    assert_eq!(expected, lex("!!\n"));
}

#[test]
fn two_exclamation_is_not_doctype() {
    let expected = vec![Token::PlainText(String::from("!")), Token::Eol, Token::Eof];
    assert_eq!(expected, lex("!\n"));
}

#[test]
fn lex_html_comment_with_no_new_line_give_plain_text() {
    let expected = vec![
        Token::HtmlComment,
        Token::PlainText(String::from("%t hello world")),
        Token::Eof,
    ];
    assert_eq!(expected, lex("/ %t hello world"));
}

#[test]
fn lex_html_comment_with_nested_tag_give_a_tag() {
    let expected = vec![
        Token::HtmlComment,
        Token::Eol,
        Token::Indent(' ', 2),
        Token::Tag(String::from("t")),
        Token::PlainText(String::from("hello world")),
        Token::Eof,
    ];
    assert_eq!(expected, lex("/ \n  %t hello world"));
}

#[test]
fn lex_haml_comment_with_no_new_line_give_plain_text() {
    let expected = vec![
        Token::HamlComment,
        Token::PlainText(String::from("%t hello world")),
        Token::Eof,
    ];
    assert_eq!(expected, lex("-# %t hello world"));
}

#[test]
fn lex_haml_comment_with_nested_tag_give_a_tag() {
    let expected = vec![
        Token::HamlComment,
        Token::Eol,
        Token::Indent(' ', 2),
        Token::Tag(String::from("t")),
        Token::PlainText(String::from("hello world")),
        Token::Eof,
    ];
    assert_eq!(expected, lex("-# \n  %t hello world"));
}

#[test]
fn lex_equal_on_new_ligne_give_assign() {
    let expected = vec![
        Token::Tag(String::from("t")),
        Token::Eol,
        Token::Indent(' ', 2),
        Token::Assign,
        Token::Eof,
    ];
    assert_eq!(expected, lex("%t\n  ="));
}

#[test]
fn lex_equal_stuck_top_tag_give_assign() {
    let expected = vec![Token::Tag(String::from("t")), Token::Assign, Token::Eof];
    assert_eq!(expected, lex("%t="));
}

#[test]
fn lex_equal_not_stuck_to_tag_is_plain_text() {
    let expected = vec![
        Token::Tag(String::from("t")),
        Token::PlainText(String::from("=")),
        Token::Eof,
    ];
    assert_eq!(expected, lex("%t ="));
}

#[test]
fn find_slash_after_tag_create_empty_tag() {
    let expected = vec![
        Token::Tag(String::from("t")),
        Token::ClosingEmpty,
        Token::PlainText(String::from("hello")),
        Token::Eof,
    ];
    assert_eq!(expected, lex("%t/ hello"));
}

#[test]
fn lex_unicode_tag_name() {
    let expected = vec![
        Token::Tag(String::from("éléφ1")),
        Token::PlainText(String::from("text")),
        Token::Eol,
        Token::Eof,
    ];
    assert_eq!(expected, lex("%éléφ1 text\n"));
}

#[test]
fn lex_doctype_after_tag() {
    let expected = vec![Token::Tag(String::from("t")), Token::Doctype, Token::Eof];
    assert_eq!(expected, lex("%t!!!"));
}
