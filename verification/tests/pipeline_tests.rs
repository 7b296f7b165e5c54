use haml::dom_tree::{Attributes, DomTree, Item, ItemId};
use haml::engine::Engine;
use haml::error;
use haml::format::{get_specific_format, HtmlFormat};
use haml::input_reader::InputReader;

fn compile(input: &str, fmt: HtmlFormat) -> Result<String, String> {
    let mut engine = Engine::new(input, fmt);
    match engine.execute() {
        Ok(()) => Ok(engine.generate()),
        Err(e) => Err(e),
    }
}

fn html5(input: &str) -> Result<String, String> {
    compile(input, HtmlFormat::Html5)
}

#[test]
fn plain_text_renders_as_itself() {
    assert_eq!(
        html5("this is a plain text string\n").unwrap(),
        "this is a plain text string\n"
    );
}

#[test]
fn first_line_indent_is_a_syntax_error() {
    let r = html5("  %tag#id.class text\n");
    assert_eq!(
        r.unwrap_err(),
        "line 1, indenting is forbidden at the beginning of the document."
    );
}

#[test]
fn nested_element_renders_on_its_own_lines() {
    assert_eq!(html5("%t\n  %u hello\n").unwrap(), "<t>\n  <u>hello</u>\n</t>\n");
}

#[test]
fn two_levels_deeper_is_a_syntax_error() {
    let r = html5("%tag\n  %tag\n      %tag\n");
    assert_eq!(
        r.unwrap_err(),
        "line 3, was indented 2 levels deeper than the previous line."
    );
}

#[test]
fn doctype_line_renders_the_html5_doctype() {
    assert_eq!(
        html5("!!!\n%html\n").unwrap(),
        "<!DOCTYPE html>\n<html></html>\n"
    );
}

#[test]
fn doctype_specifier_selects_the_xhtml_strict_doctype() {
    let out = compile("!!! Strict\n", HtmlFormat::Xhtml).unwrap();
    assert_eq!(
        out,
        "<!DOCTYPE html PUBLIC \"-//W3C//DTD XHTML 1.0 Strict//EN\" \"http://www.w3.org/TR/xhtml1/DTD/xhtml1-strict.dtd\">\n"
    );
}

#[test]
fn rendering_twice_gives_identical_output() {
    let mut engine = Engine::new("%t\n  inner text\n  %u\n", HtmlFormat::Html5);
    engine.execute().unwrap();
    let first = engine.generate();
    let second = engine.generate();
    assert_eq!(first, second);
}

#[test]
fn block_without_children_closes_on_the_same_line() {
    assert_eq!(html5("%t\n").unwrap(), "<t></t>\n");
}

#[test]
fn block_with_children_puts_each_tag_on_its_own_line() {
    assert_eq!(
        html5("%a\n  %b\n  %c\n").unwrap(),
        "<a>\n  <b></b>\n  <c></c>\n</a>\n"
    );
}

#[test]
fn id_attribute_renders_inside_the_opening_tag() {
    assert_eq!(html5("%p#x hi\n").unwrap(), "<p id='x'>hi</p>\n");
}

#[test]
fn classes_merge_into_one_space_separated_attribute() {
    assert_eq!(html5("%p.a.b hi\n").unwrap(), "<p class='a b'>hi</p>\n");
}

#[test]
fn bare_class_line_becomes_a_div() {
    assert_eq!(html5(".cls\n").unwrap(), "<div class='cls'></div>\n");
}

#[test]
fn bare_id_line_becomes_a_div() {
    assert_eq!(html5("#top\n").unwrap(), "<div id='top'></div>\n");
}

#[test]
fn html_comment_renders_on_one_line() {
    assert_eq!(html5("/ hello\n").unwrap(), "<!-- hello -->\n");
}

#[test]
fn html_comment_with_children_renders_on_three_lines() {
    assert_eq!(html5("/\n  %t\n").unwrap(), "<!--\n  <t></t>\n-->\n");
}

#[test]
fn haml_comment_is_discarded_from_output() {
    assert_eq!(html5("-# secret\n%t\n").unwrap(), "<t></t>\n");
}

#[test]
fn haml_comment_swallows_its_nested_lines() {
    assert_eq!(html5("-# secret\n  %u\n%t\n").unwrap(), "<t></t>\n");
}

#[test]
fn escaped_line_is_literal_text() {
    assert_eq!(html5("\\%t not a tag\n").unwrap(), "%t not a tag\n");
}

#[test]
fn deeper_line_after_inline_content_is_a_syntax_error() {
    let r = html5("%t inline\n  %u\n");
    assert_eq!(
        r.unwrap_err(),
        "line 1, illegal nesting: content can't be both given on the same line as %t and nested within it."
    );
}

#[test]
fn deeper_line_after_plain_text_is_a_syntax_error() {
    let r = html5("words\n  more\n");
    assert_eq!(
        r.unwrap_err(),
        "line 1, illegal nesting: nesting within plain text is illegal"
    );
}

#[test]
fn mixing_kinds_on_one_line_is_a_syntax_error() {
    let r = html5("%t\n \t%u\n");
    assert_eq!(r.unwrap_err(), "line 2, indentation can't use both tabs and spaces.");
}

#[test]
fn switching_indent_character_is_a_syntax_error() {
    let r = html5("%t\n  %u\n%t\n\t\t%u\n");
    assert_eq!(
        r.unwrap_err(),
        "line 4, inconsistent indentation: 2 tabs used for indentation, but the rest of the document was indented using 2 spaces."
    );
}

#[test]
fn indent_off_the_unit_is_a_syntax_error() {
    let r = html5("%t\n  %u\n   %v\n");
    assert_eq!(
        r.unwrap_err(),
        "line 3, inconsistent indentation: 3 spaces used for indentation, but the rest of the document was indented using 2 spaces."
    );
}

#[test]
fn empty_tag_name_is_a_syntax_error() {
    let r = html5("% x\n");
    assert_eq!(r.unwrap_err(), "line 1, invalid tag name \"%\"");
}

#[test]
fn empty_class_name_is_a_syntax_error() {
    let r = html5("%t.\n");
    assert_eq!(r.unwrap_err(), "line 1, illegal element: classes and ids must have values.");
}

#[test]
fn blank_lines_are_skipped() {
    assert_eq!(html5("\n\n%t\n\n").unwrap(), "<t></t>\n");
}

#[test]
fn shallower_line_closes_the_open_scopes() {
    assert_eq!(
        html5("%a\n  %b\n    %c\n%d\n").unwrap(),
        "<a>\n  <b>\n    <c></c>\n  </b>\n</a>\n<d></d>\n"
    );
}

#[test]
fn tabs_can_be_the_document_unit() {
    assert_eq!(html5("%a\n\t%b\n").unwrap(), "<a>\n  <b></b>\n</a>\n");
}

#[test]
fn xml_specifier_selects_the_default_prolog() {
    assert_eq!(
        html5("!!! XML\n").unwrap(),
        "<?xml version='1.0' encoding='utf-8' ?>\n"
    );
}

#[test]
fn xml_specifier_carries_an_encoding() {
    assert_eq!(
        html5("!!! XML iso-8859-1\n").unwrap(),
        "<?xml version='1.0' encoding='iso-8859-1' ?>\n"
    );
}

#[test]
fn format_lookup_defaults_to_transitional_for_xhtml() {
    assert_eq!(
        get_specific_format("", HtmlFormat::Xhtml),
        "<!DOCTYPE html PUBLIC \"-//W3C//DTD XHTML 1.0 Transitional//EN\" \"http://www.w3.org/TR/xhtml1/DTD/xhtml1-transitional.dtd\">"
    );
}

#[test]
fn format_lookup_knows_html4_strict() {
    assert_eq!(
        get_specific_format("Strict", HtmlFormat::Html4),
        "<!DOCTYPE html PUBLIC \"-//W3C//DTD HTML 4.01//EN\" \"http://www.w3.org/TR/html4/strict.dtd\">"
    );
}

#[test]
fn format_lookup_ignores_the_specifier_for_html5() {
    assert_eq!(get_specific_format("anything", HtmlFormat::Html5), "<!DOCTYPE html>");
}

#[test]
fn error_messages_carry_the_line_number() {
    assert_eq!(
        error::illegal_indent_at_begin(12),
        "line 12, indenting is forbidden at the beginning of the document."
    );
    assert_eq!(
        error::indent_using_line_and_space(3),
        "line 3, indentation can't use both tabs and spaces."
    );
    assert_eq!(
        error::indent_level_much_deeper(7, 2),
        "line 7, was indented 2 levels deeper than the previous line."
    );
    assert_eq!(
        error::inconsistent_indent(4, '\t', ' ', 4, 2),
        "line 4, inconsistent indentation: 4 tabs used for indentation, but the rest of the document was indented using 2 spaces."
    );
    assert_eq!(error::invalid_tag(9, "%"), "line 9, invalid tag name \"%\"");
    assert_eq!(
        error::illegal_element_class_id(2),
        "line 2, illegal element: classes and ids must have values."
    );
    assert_eq!(
        error::illegal_nesting(5, "div"),
        "line 5, illegal nesting: content can't be both given on the same line as %div and nested within it."
    );
    assert_eq!(
        error::illegal_plain_text_nesting(8),
        "line 8, illegal nesting: nesting within plain text is illegal"
    );
    assert_eq!(
        error::illegal_indent_at_begin(105),
        "line 105, indenting is forbidden at the beginning of the document."
    );
}

#[test]
fn input_reader_serves_pushback_in_lifo_order() {
    let mut reader = InputReader::new("ab");
    assert_eq!(reader.get(), Some('a'));
    reader.unget('a');
    reader.unget('x');
    assert_eq!(reader.get(), Some('x'));
    assert_eq!(reader.get(), Some('a'));
    assert_eq!(reader.get(), Some('b'));
    assert_eq!(reader.get(), None);
}

#[test]
fn input_reader_end_of_stream_is_sticky() {
    let mut reader = InputReader::new("ab");
    assert_eq!(reader.get(), Some('a'));
    reader.unget_eof();
    reader.unget('z');
    assert_eq!(reader.get(), Some('z'));
    assert_eq!(reader.get(), None);
    assert_eq!(reader.get(), None);
}

#[test]
fn dom_tree_insert_descends_and_back_climbs() {
    let mut tree = DomTree::new();
    assert_eq!(tree.get_current_lvl(), 0);
    tree.insert(Item::block(String::from("a"), Attributes::new()));
    assert_eq!(tree.get_current_lvl(), 1);
    tree.insert(Item::block(String::from("b"), Attributes::new()));
    assert_eq!(tree.get_current_lvl(), 2);
    tree.back();
    assert_eq!(tree.get_current_lvl(), 1);
    tree.back();
    tree.back();
    assert_eq!(tree.get_current_lvl(), 0);
}

#[test]
fn dom_tree_insert_and_back_keeps_the_cursor() {
    let mut tree = DomTree::new();
    tree.insert_and_back(Item::plain_text(String::from("x")));
    tree.insert_and_back(Item::plain_text(String::from("y")));
    assert_eq!(tree.get_current_lvl(), 0);
    assert_eq!(tree.to_html(), "x\ny\n");
}

#[test]
fn dom_tree_get_elt_resolves_ids_and_rejects_strays() {
    let mut tree = DomTree::new();
    let id = tree.insert(Item::inline(
        String::from("p"),
        Attributes::new(),
        String::from("hello"),
    ));
    let id = id.unwrap();
    let item = tree.get_elt(id).unwrap();
    assert!(!item.had_child());
    assert_eq!(item.get_childs().len(), 0);
    assert!(tree.get_elt(ItemId(vec![0, 7])).is_none());
    assert!(tree.get_elt(ItemId(vec![])).is_none());
}

#[test]
fn item_add_child_appends_and_counts() {
    let mut item = Item::root();
    assert!(!item.had_child());
    let first = item.add_child(Item::plain_text(String::from("x")));
    let second = item.add_child(Item::plain_text(String::from("y")));
    assert_eq!(first, 0);
    assert_eq!(second, 1);
    assert!(item.had_child());
    assert_eq!(item.get_childs().len(), 2);
}

#[test]
fn nameless_blocks_and_inlines_default_to_div() {
    let block = Item::block(String::from(""), Attributes::new());
    let inline = Item::inline(String::from(""), Attributes::new(), String::from("t"));
    assert_eq!(block.tag, "div");
    assert_eq!(inline.tag, "div");
}

#[test]
fn assign_and_closing_tokens_are_consumed_without_effect() {
    assert_eq!(html5("%t/\n").unwrap(), "<t></t>\n");
    assert_eq!(html5("%t=\n").unwrap(), "<t></t>\n");
}

#[test]
fn whole_document_compiles() {
    let source = "!!!\n%html\n  %body\n    #main.wide\n      Some words\n    / note\n";
    let expected = "<!DOCTYPE html>\n<html>\n  <body>\n    <div id='main' class='wide'>\n      Some words\n    </div>\n    <!-- note -->\n  </body>\n</html>\n";
    assert_eq!(html5(source).unwrap(), expected);
}

#[test]
fn item_get_mut_childs_allows_growth_in_place() {
    let mut item = Item::root();
    item.get_mut_childs().push(Item::plain_text(String::from("x")));
    assert_eq!(item.get_childs().len(), 1);
    assert!(item.had_child());
}

#[test]
fn tree_depth_is_the_deepest_level_plus_one() {
    let mut engine = Engine::new("%a\n  %b\n    c text\n", HtmlFormat::Html5);
    engine.execute().unwrap();
    let tree = &engine.dom_tree;
    assert!(tree.get_elt(ItemId(vec![0, 0])).is_some());
    assert!(tree.get_elt(ItemId(vec![0, 0, 0, 0])).is_some());
    assert!(tree.get_elt(ItemId(vec![0, 0, 0, 0, 0])).is_none());
}

#[test]
fn empty_input_renders_nothing() {
    assert_eq!(html5("").unwrap(), "");
}

#[test]
fn newline_only_input_renders_nothing() {
    assert_eq!(html5("\n").unwrap(), "");
}

#[test]
fn unterminated_last_line_contributes_nothing() {
    // a line closed by the end of the input instead of a newline is never
    // finalised, so its element does not reach the tree
    assert_eq!(html5("%t").unwrap(), "");
    assert_eq!(html5("%a\n%t").unwrap(), "<a></a>\n");
}
