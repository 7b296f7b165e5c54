use vstd::prelude::*;
use vstd::string::StringExecFns;

verus! {

/// The decimal digit character of a value below ten.
pub open spec fn dec_digit(d: nat) -> char {
    if d == 0 {
        '0'
    } else if d == 1 {
        '1'
    } else if d == 2 {
        '2'
    } else if d == 3 {
        '3'
    } else if d == 4 {
        '4'
    } else if d == 5 {
        '5'
    } else if d == 6 {
        '6'
    } else if d == 7 {
        '7'
    } else if d == 8 {
        '8'
    } else {
        '9'
    }
}

/// The decimal numeral of `n`, most significant digit first.
pub open spec fn dec_str(n: nat) -> Seq<char>
    decreases n,
{
    if n < 10 {
        seq![dec_digit(n)]
    } else {
        dec_str(n / 10).push(dec_digit(n % 10))
    }
}

/// Append the decimal numeral of `n` to `out`.
fn push_dec(n: usize, out: &mut String)
    ensures
        final(out)@ == old(out)@ + dec_str(n as nat),
    decreases n,
{
    if n >= 10 {
        push_dec(n / 10, out);
    }
    let d = n % 10;
    let c = if d == 0 {
        '0'
    } else if d == 1 {
        '1'
    } else if d == 2 {
        '2'
    } else if d == 3 {
        '3'
    } else if d == 4 {
        '4'
    } else if d == 5 {
        '5'
    } else if d == 6 {
        '6'
    } else if d == 7 {
        '7'
    } else if d == 8 {
        '8'
    } else {
        '9'
    };
    out.push(c);
    proof {
        if n < 10 {
            assert(old(out)@.push(dec_digit(n as nat)) =~= old(out)@ + dec_str(n as nat));
        } else {
            assert((old(out)@ + dec_str(n as nat / 10)).push(dec_digit(n as nat % 10)) =~= old(
                out,
            )@ + dec_str(n as nat / 10).push(dec_digit(n as nat % 10)));
        }
    }
}

/// The name of a whitespace kind in a diagnostic.
pub open spec fn ws_name(c: char) -> Seq<char> {
    if c == ' ' {
        "spaces"@
    } else {
        "tabs"@
    }
}

pub open spec fn illegal_indent_at_begin_msg(line: nat) -> Seq<char> {
    "line "@ + dec_str(line) + ", indenting is forbidden at the beginning of the document."@
}

/// The diagnostic for an indented first line.
pub fn illegal_indent_at_begin(line: usize) -> (r: String)
    ensures
        r@ == illegal_indent_at_begin_msg(line as nat),
{
    let mut s = "line ".to_owned();
    push_dec(line, &mut s);
    s.append(", indenting is forbidden at the beginning of the document.");
    s
}

pub open spec fn indent_using_line_and_space_msg(line: nat) -> Seq<char> {
    "line "@ + dec_str(line) + ", indentation can't use both tabs and spaces."@
}

/// The diagnostic for a line that mixes tabs and spaces in its indentation.
pub fn indent_using_line_and_space(line: usize) -> (r: String)
    ensures
        r@ == indent_using_line_and_space_msg(line as nat),
{
    let mut s = "line ".to_owned();
    push_dec(line, &mut s);
    s.append(", indentation can't use both tabs and spaces.");
    s
}

pub open spec fn indent_level_much_deeper_msg(line: nat, deep_indent: nat) -> Seq<char> {
    "line "@ + dec_str(line) + ", was indented "@ + dec_str(deep_indent)
        + " levels deeper than the previous line."@
}

/// The diagnostic for a line indented more than one level deeper than the one before.
pub fn indent_level_much_deeper(line: usize, deep_indent: usize) -> (r: String)
    ensures
        r@ == indent_level_much_deeper_msg(line as nat, deep_indent as nat),
{
    let mut s = "line ".to_owned();
    push_dec(line, &mut s);
    s.append(", was indented ");
    push_dec(deep_indent, &mut s);
    s.append(" levels deeper than the previous line.");
    s
}

pub open spec fn inconsistent_indent_msg(
    line: nat,
    bad_c: char,
    c: char,
    bad_indent: nat,
    indent: nat,
) -> Seq<char> {
    "line "@ + dec_str(line) + ", inconsistent indentation: "@ + dec_str(bad_indent) + " "@
        + ws_name(bad_c)
        + " used for indentation, but the rest of the document was indented using "@ + dec_str(
        indent,
    ) + " "@ + ws_name(c) + "."@
}

/// The diagnostic for an indentation whose character or unit size differs from
/// the one the document established.
pub fn inconsistent_indent(line: usize, bad_c: char, c: char, bad_indent: usize, indent: usize) -> (r:
    String)
    ensures
        r@ == inconsistent_indent_msg(line as nat, bad_c, c, bad_indent as nat, indent as nat),
{
    let mut s = "line ".to_owned();
    push_dec(line, &mut s);
    s.append(", inconsistent indentation: ");
    push_dec(bad_indent, &mut s);
    s.append(" ");
    s.append(if bad_c == ' ' { "spaces" } else { "tabs" });
    s.append(" used for indentation, but the rest of the document was indented using ");
    push_dec(indent, &mut s);
    s.append(" ");
    s.append(if c == ' ' { "spaces" } else { "tabs" });
    s.append(".");
    s
}

pub open spec fn invalid_tag_msg(line: nat, name: Seq<char>) -> Seq<char> {
    "line "@ + dec_str(line) + ", invalid tag name \""@ + name + "\""@
}

/// The diagnostic for an empty or invalid element name.
pub fn invalid_tag(line: usize, name: &str) -> (r: String)
    ensures
        r@ == invalid_tag_msg(line as nat, name@),
{
    let mut s = "line ".to_owned();
    push_dec(line, &mut s);
    s.append(", invalid tag name \"");
    s.append(name);
    s.append("\"");
    s
}

pub open spec fn illegal_element_class_id_msg(line: nat) -> Seq<char> {
    "line "@ + dec_str(line) + ", illegal element: classes and ids must have values."@
}

/// The diagnostic for an empty class or id name.
pub fn illegal_element_class_id(line: usize) -> (r: String)
    ensures
        r@ == illegal_element_class_id_msg(line as nat),
{
    let mut s = "line ".to_owned();
    push_dec(line, &mut s);
    s.append(", illegal element: classes and ids must have values.");
    s
}

pub open spec fn illegal_nesting_msg(line: nat, tag_name: Seq<char>) -> Seq<char> {
    "line "@ + dec_str(line)
        + ", illegal nesting: content can't be both given on the same line as %"@ + tag_name
        + " and nested within it."@
}

/// The diagnostic for a line carrying inline content that is also nested into.
pub fn illegal_nesting(line: usize, tag_name: &str) -> (r: String)
    ensures
        r@ == illegal_nesting_msg(line as nat, tag_name@),
{
    let mut s = "line ".to_owned();
    push_dec(line, &mut s);
    s.append(", illegal nesting: content can't be both given on the same line as %");
    s.append(tag_name);
    s.append(" and nested within it.");
    s
}

pub open spec fn illegal_plain_text_nesting_msg(line: nat) -> Seq<char> {
    "line "@ + dec_str(line) + ", illegal nesting: nesting within plain text is illegal"@
}

/// The diagnostic for nesting under a plain-text line.
pub fn illegal_plain_text_nesting(line: usize) -> (r: String)
    ensures
        r@ == illegal_plain_text_nesting_msg(line as nat),
{
    let mut s = "line ".to_owned();
    push_dec(line, &mut s);
    s.append(", illegal nesting: nesting within plain text is illegal");
    s
}

} // verus!
