use vstd::prelude::*;
use vstd::string::StrSliceExecFns;
use vstd::string::StringExecFns;

use crate::dom_tree::{
    attrs_add, attrs_set, leaf_view, tree_at, tree_insert, tree_valid, AttrView, Attributes,
    DomTree, Item, ItemView,
};
use crate::error::{
    illegal_element_class_id, illegal_element_class_id_msg, illegal_indent_at_begin,
    illegal_indent_at_begin_msg, illegal_nesting, illegal_nesting_msg, illegal_plain_text_nesting,
    illegal_plain_text_nesting_msg, inconsistent_indent_msg, indent_level_much_deeper,
    indent_level_much_deeper_msg, indent_using_line_and_space, indent_using_line_and_space_msg,
    invalid_tag, invalid_tag_msg,
};
use crate::format::{specific_format, HtmlFormat};
use crate::lexer::indent_tok_wf;
use crate::token::{Token, TokenView};

verus! {

/// What the collector has recognised on the current line.
#[derive(Clone, Copy, Debug, PartialEq, Eq, Structural)]
pub enum TagType {
    Tag,
    Header,
    Unknown,
    HamlComment,
    HtmlComment,
}

/// The value of the per-line collector.
pub struct CollView {
    pub attributes: AttrView,
    pub tag: Seq<char>,
    pub content: Seq<char>,
    pub tag_type: TagType,
}

/// A collector that has seen nothing yet.
pub open spec fn empty_coll() -> CollView {
    CollView {
        attributes: Seq::empty(),
        tag: Seq::empty(),
        content: Seq::empty(),
        tag_type: TagType::Unknown,
    }
}

pub open spec fn coll_is_empty(d: CollView) -> bool {
    d.tag.len() == 0 && d.attributes.len() == 0 && d.content.len() == 0
}

pub open spec fn coll_is_inline(d: CollView) -> bool {
    (d.tag.len() != 0 || d.attributes.len() != 0) && d.content.len() != 0
}

pub open spec fn coll_is_block(d: CollView) -> bool {
    (d.tag.len() != 0 || d.attributes.len() != 0) && d.content.len() == 0
}

pub open spec fn coll_is_plaintext(d: CollView) -> bool {
    d.tag.len() == 0 && d.attributes.len() == 0 && d.content.len() != 0
}

/// The parser's abstract state between tokens.
pub struct ParseSt {
    pub line: nat,
    pub indent_length: nat,
    pub indent_char: char,
    pub lvl: nat,
    pub tree: ItemView,
    pub cursor: Seq<usize>,
    pub data: CollView,
}

/// A token stream the parser accepts as input: an `Eof` occurs somewhere, and
/// every `Indent` token is well formed.
pub open spec fn wf_tokens(ts: Seq<TokenView>) -> bool {
    &&& exists|i: int| 0 <= i < ts.len() && (#[trigger] ts[i]) is Eof
    &&& forall|i: int| 0 <= i < ts.len() ==> indent_tok_wf(#[trigger] ts[i])
}

/// A name left empty selects the `div` element.
pub open spec fn or_div(tag: Seq<char>) -> Seq<char> {
    if tag.len() == 0 {
        "div"@
    } else {
        tag
    }
}

/// The item a finished line's collector turns into, or none for a line that
/// held nothing.
pub open spec fn collector_item(d: CollView, f: HtmlFormat) -> Option<ItemView> {
    match d.tag_type {
        TagType::Unknown => if !coll_is_empty(d) {
            Some(
                leaf_view(
                    Seq::empty(),
                    Seq::<char>::empty(),
                    d.content,
                    crate::dom_tree::TagType::PlainText,
                ),
            )
        } else {
            None
        },
        TagType::Tag => if coll_is_block(d) {
            Some(
                leaf_view(
                    d.attributes,
                    or_div(d.tag),
                    Seq::<char>::empty(),
                    crate::dom_tree::TagType::Block,
                ),
            )
        } else {
            Some(leaf_view(d.attributes, or_div(d.tag), d.content, crate::dom_tree::TagType::Inline))
        },
        TagType::HamlComment => Some(
            leaf_view(
                Seq::empty(),
                Seq::<char>::empty(),
                Seq::<char>::empty(),
                crate::dom_tree::TagType::HamlComment,
            ),
        ),
        TagType::HtmlComment => Some(
            leaf_view(
                Seq::empty(),
                Seq::<char>::empty(),
                d.content,
                crate::dom_tree::TagType::HtmlComment,
            ),
        ),
        TagType::Header => Some(
            leaf_view(
                Seq::empty(),
                Seq::<char>::empty(),
                specific_format(d.content, f),
                crate::dom_tree::TagType::Header,
            ),
        ),
    }
}

/// The cursor after closing every scope the current line has exited.
pub open spec fn back_path(cursor: Seq<usize>, lvl: nat) -> Seq<usize> {
    if lvl < cursor.len() {
        cursor.take(lvl as int)
    } else {
        cursor
    }
}

/// The tree and cursor after a finished line's item, if any, is inserted
/// under the cursor (the cursor descends into the new item).
pub open spec fn insert_step(
    tree: ItemView,
    cursor: Seq<usize>,
    lvl: nat,
    d: CollView,
    f: HtmlFormat,
) -> (ItemView, Seq<usize>) {
    match collector_item(d, f) {
        Option::None => (tree, cursor),
        Option::Some(item) => {
            let p = back_path(cursor, lvl);
            (
                tree_insert(tree, p, item),
                p.push(#[verifier::truncate] (tree_at(tree, p).children.len() as usize)),
            )
        },
    }
}

/// The count an `Indent` token carries.
pub open spec fn indent_count(t: TokenView) -> nat {
    match t {
        TokenView::Indent(_, n) => n,
        _ => 0,
    }
}

/// One token at a time, what the parser makes of the stream: the finished
/// tree, or the first diagnostic.
pub open spec fn parse_toks(st: ParseSt, f: HtmlFormat, ts: Seq<TokenView>) -> Result<
    ItemView,
    Seq<char>,
>
    decreases ts.len(),
{
    if ts.len() == 0 {
        Ok(st.tree)
    } else {
        match ts[0] {
            TokenView::Eof => Ok(st.tree),
            TokenView::Indent(c, n) => {
                let il = if st.indent_length == 0 {
                    n
                } else {
                    st.indent_length
                };
                let ic = if st.indent_length == 0 {
                    c
                } else {
                    st.indent_char
                };
                if ts.len() >= 2 && (ts[1] is Indent) {
                    Err(indent_using_line_and_space_msg(st.line))
                } else if ic != c {
                    Err(inconsistent_indent_msg(st.line, c, ic, n, il))
                } else if n % il != 0 {
                    Err(inconsistent_indent_msg(st.line, c, c, n, il))
                } else if n / il > st.lvl + 1 {
                    Err(indent_level_much_deeper_msg(st.line, (n / il - st.lvl) as nat))
                } else {
                    parse_toks(
                        ParseSt { indent_length: il, indent_char: ic, lvl: n / il, ..st },
                        f,
                        ts.skip(1),
                    )
                }
            },
            TokenView::Tag(name) => {
                if name.len() != 0 {
                    parse_toks(
                        ParseSt {
                            data: CollView { tag: name, tag_type: TagType::Tag, ..st.data },
                            ..st
                        },
                        f,
                        ts.skip(1),
                    )
                } else {
                    Err(invalid_tag_msg(st.line, "%"@))
                }
            },
            TokenView::Id(name) => {
                if name.len() == 0 {
                    Err(illegal_element_class_id_msg(st.line))
                } else {
                    parse_toks(
                        ParseSt {
                            data: CollView {
                                attributes: attrs_set(st.data.attributes, "id"@, seq![name]),
                                tag_type: TagType::Tag,
                                ..st.data
                            },
                            ..st
                        },
                        f,
                        ts.skip(1),
                    )
                }
            },
            TokenView::Class(name) => {
                if name.len() == 0 {
                    Err(illegal_element_class_id_msg(st.line))
                } else {
                    parse_toks(
                        ParseSt {
                            data: CollView {
                                attributes: attrs_add(st.data.attributes, "class"@, name),
                                tag_type: TagType::Tag,
                                ..st.data
                            },
                            ..st
                        },
                        f,
                        ts.skip(1),
                    )
                }
            },
            TokenView::PlainText(sp) => parse_toks(
                ParseSt { data: CollView { content: sp, ..st.data }, ..st },
                f,
                ts.skip(1),
            ),
            TokenView::HamlComment => parse_toks(
                ParseSt {
                    data: CollView {
                        tag_type: TagType::HamlComment,
                        content: "stuff"@,
                        ..st.data
                    },
                    ..st
                },
                f,
                ts.skip(1),
            ),
            TokenView::HtmlComment => parse_toks(
                ParseSt { data: CollView { tag_type: TagType::HtmlComment, ..st.data }, ..st },
                f,
                ts.skip(1),
            ),
            TokenView::Doctype => parse_toks(
                ParseSt { data: CollView { tag_type: TagType::Header, ..st.data }, ..st },
                f,
                ts.skip(1),
            ),
            TokenView::Eol => {
                let ts1 = ts.skip(1);
                let limit = st.indent_length * st.lvl;
                let deeper = ts1.len() > 0 && (ts1[0] is Indent) && indent_count(ts1[0]) > limit;
                if deeper && st.data.content.len() > 0 && (st.data.tag.len() > 0
                    || st.data.attributes.len() > 0) {
                    Err(illegal_nesting_msg(st.line, st.data.tag))
                } else if deeper && st.data.content.len() > 0 && st.data.tag_type
                    != TagType::HamlComment && coll_is_plaintext(st.data) {
                    Err(illegal_plain_text_nesting_msg(st.line))
                } else {
                    let step = insert_step(st.tree, st.cursor, st.lvl, st.data, f);
                    let lvl1 = if ts1.len() > 0 && !(ts1[0] is Indent) && !(ts1[0] is Eol) && !(
                    ts1[0] is Eof) {
                        0
                    } else {
                        st.lvl
                    };
                    parse_toks(
                        ParseSt {
                            line: st.line + 1,
                            lvl: lvl1,
                            tree: step.0,
                            cursor: step.1,
                            data: empty_coll(),
                            ..st
                        },
                        f,
                        ts1,
                    )
                }
            },
            _ => parse_toks(st, f, ts.skip(1)),
        }
    }
}

/// The whole run: leading empty lines are dropped, a leading indentation is
/// refused, and the rest of the stream builds the tree.
pub open spec fn parse_start(
    f: HtmlFormat,
    ts: Seq<TokenView>,
    line: nat,
    tree: ItemView,
) -> Result<ItemView, Seq<char>>
    decreases ts.len(),
{
    if ts.len() == 0 {
        Ok(tree)
    } else if ts[0] is Eol {
        parse_start(f, ts.skip(1), line + 1, tree)
    } else if ts[0] is Indent {
        Err(illegal_indent_at_begin_msg(line))
    } else {
        parse_toks(
            ParseSt {
                line,
                indent_length: 0,
                indent_char: '\0',
                lvl: 0,
                tree,
                cursor: Seq::empty(),
                data: empty_coll(),
            },
            f,
            ts,
        )
    }
}

/// What a token stream means: the document tree it describes, or the first
/// diagnostic, line-numbered from one.
pub open spec fn parse(ts: Seq<TokenView>, f: HtmlFormat) -> Result<ItemView, Seq<char>> {
    parse_start(
        f,
        ts,
        1,
        leaf_view(
            Seq::empty(),
            Seq::<char>::empty(),
            Seq::<char>::empty(),
            crate::dom_tree::TagType::Root,
        ),
    )
}

/// The per-line scratch record: what the current line has established so far.
#[derive(Debug)]
pub struct DCollector {
    pub attributes: Attributes,
    pub tag: String,
    pub content: String,
    pub tag_type: TagType,
}

impl View for DCollector {
    type V = CollView;

    open spec fn view(&self) -> CollView {
        CollView {
            attributes: self.attributes@,
            tag: self.tag@,
            content: self.content@,
            tag_type: self.tag_type,
        }
    }
}

impl DCollector {
    pub fn new() -> (r: DCollector)
        ensures
            r@ == empty_coll(),
    {
        let r = DCollector {
            attributes: Attributes::new(),
            tag: String::new(),
            content: String::new(),
            tag_type: TagType::Unknown,
        };
        proof {
            assert(r@.attributes =~= empty_coll().attributes);
            assert(r@ == empty_coll());
        }
        r
    }

    pub fn is_empty(&self) -> (r: bool)
        ensures
            r == coll_is_empty(self@),
    {
        self.tag.as_str().is_empty() && self.attributes.is_empty() && self.content.as_str().is_empty()
    }

    pub fn is_inline(&self) -> (r: bool)
        ensures
            r == coll_is_inline(self@),
    {
        (!self.tag.as_str().is_empty() || !self.attributes.is_empty())
            && !self.content.as_str().is_empty()
    }

    pub fn is_block(&self) -> (r: bool)
        ensures
            r == coll_is_block(self@),
    {
        (!self.tag.as_str().is_empty() || !self.attributes.is_empty())
            && self.content.as_str().is_empty()
    }

    pub fn is_plaintext(&self) -> (r: bool)
        ensures
            r == coll_is_plaintext(self@),
    {
        self.tag.as_str().is_empty() && self.attributes.is_empty()
            && !self.content.as_str().is_empty()
    }
}


/// Dropping a non-`Eof` front token keeps the stream acceptable.
pub proof fn lemma_wf_tokens_shift(ts: Seq<TokenView>)
    requires
        wf_tokens(ts),
        ts.len() >= 1,
        !(ts[0] is Eof),
    ensures
        wf_tokens(ts.skip(1)),
        ts.len() >= 2,
    decreases ts.len(),
{
    let j = choose|j: int| 0 <= j < ts.len() && (#[trigger] ts[j]) is Eof;
    assert(j >= 1);
    assert(ts.skip(1)[j - 1] is Eof);
    assert forall|i: int| 0 <= i < ts.skip(1).len() implies indent_tok_wf(
        #[trigger] ts.skip(1)[i],
    ) by {
        assert(ts.skip(1)[i] == ts[i + 1]);
    }
}

/// An acceptable stream is never empty.
pub proof fn lemma_wf_tokens_nonempty(ts: Seq<TokenView>)
    requires
        wf_tokens(ts),
    ensures
        ts.len() >= 1,
{
    let j = choose|j: int| 0 <= j < ts.len() && (#[trigger] ts[j]) is Eof;
}

/// The indentation/well-formedness validator and tree builder.
pub struct Parser {
    pub html_fmt: HtmlFormat,
    pub tokens: Vec<Token>,
    pub dom_tree: DomTree,
    pub c_line: usize,
    pub indent_length: usize,
    pub indent_char: char,
    pub c_indent_lvl: usize,
}

impl Parser {
    /// The values of the tokens still to be consumed.
    pub open spec fn toks(&self) -> Seq<TokenView> {
        self.tokens@.map_values(|t: Token| t@)
    }

    /// The abstract state the parser is in, the collector supplied by the caller.
    pub open spec fn abs(&self, d: CollView) -> ParseSt {
        ParseSt {
            line: self.c_line as nat,
            indent_length: self.indent_length as nat,
            indent_char: self.indent_char,
            lvl: self.c_indent_lvl as nat,
            tree: self.dom_tree.root@,
            cursor: self.dom_tree.cursor(),
            data: d,
        }
    }

    /// What every step preserves: a valid cursor, a level that fits the unit,
    /// and room in the line counter.
    pub open spec fn inv(&self) -> bool {
        &&& self.dom_tree.wf()
        &&& (self.indent_length == 0 ==> self.c_indent_lvl == 0)
        &&& self.indent_length as nat * self.c_indent_lvl as nat <= usize::MAX as nat
        &&& self.c_line as nat + self.tokens@.len() <= usize::MAX as nat + 1
    }

    /// A parser that has not run yet.
    pub open spec fn fresh(&self) -> bool {
        &&& self.c_line == 1
        &&& self.indent_length == 0
        &&& self.indent_char == '\0'
        &&& self.c_indent_lvl == 0
        &&& self.tokens@.len() == 0
        &&& self.dom_tree.root@ == leaf_view(
            Seq::empty(),
            Seq::<char>::empty(),
            Seq::<char>::empty(),
            crate::dom_tree::TagType::Root,
        )
        &&& self.dom_tree.cursor() == Seq::<usize>::empty()
        &&& self.dom_tree.wf()
    }

    pub fn new(html_fmt: HtmlFormat) -> (r: Parser)
        ensures
            r.fresh(),
            r.html_fmt == html_fmt,
    {
        Parser {
            html_fmt,
            tokens: Vec::new(),
            dom_tree: DomTree::new(),
            c_line: 1,
            indent_length: 0,
            indent_char: '\0',
            c_indent_lvl: 0,
        }
    }

    /// Drop leading empty lines; an indentation on the first line that holds
    /// anything is refused.
    fn check_indent_on_first_line(&mut self) -> (r: Result<(), String>)
        requires
            old(self).inv(),
            wf_tokens(old(self).toks()),
            old(self).indent_length == 0,
            old(self).indent_char == '\0',
            old(self).c_indent_lvl == 0,
            old(self).dom_tree.cursor() == Seq::<usize>::empty(),
        ensures
            final(self).inv(),
            final(self).html_fmt == old(self).html_fmt,
            match r {
                Ok(_) => wf_tokens(final(self).toks()) && parse_start(
                    old(self).html_fmt,
                    old(self).toks(),
                    old(self).c_line as nat,
                    old(self).dom_tree.root@,
                ) == parse_toks(
                    final(self).abs(empty_coll()),
                    final(self).html_fmt,
                    final(self).toks(),
                ),
                Err(e) => parse_start(
                    old(self).html_fmt,
                    old(self).toks(),
                    old(self).c_line as nat,
                    old(self).dom_tree.root@,
                ) == Err::<ItemView, Seq<char>>(e@),
            },
    {
        loop
            invariant_except_break
                self.inv(),
                wf_tokens(self.toks()),
                self.html_fmt == old(self).html_fmt,
                self.indent_length == 0,
                self.indent_char == '\0',
                self.c_indent_lvl == 0,
                self.dom_tree == old(self).dom_tree,
                self.dom_tree.cursor() == Seq::<usize>::empty(),
                parse_start(
                    old(self).html_fmt,
                    old(self).toks(),
                    old(self).c_line as nat,
                    old(self).dom_tree.root@,
                ) == parse_start(
                    old(self).html_fmt,
                    self.toks(),
                    self.c_line as nat,
                    self.dom_tree.root@,
                ),
            ensures
                self.inv(),
                wf_tokens(self.toks()),
                self.html_fmt == old(self).html_fmt,
                self.indent_length == 0,
                self.indent_char == '\0',
                self.c_indent_lvl == 0,
                self.dom_tree == old(self).dom_tree,
                parse_start(
                    old(self).html_fmt,
                    old(self).toks(),
                    old(self).c_line as nat,
                    old(self).dom_tree.root@,
                ) == parse_toks(self.abs(empty_coll()), old(self).html_fmt, self.toks()),
            decreases self.tokens.len(),
        {
            proof {
                lemma_wf_tokens_nonempty(self.toks());
            }
            proof {
                assert(self.toks()[0] == self.tokens@[0]@);
            }
            let shift_line = match &self.tokens[0] {
                Token::Eol => true,
                Token::Indent(_, _) => {
                    proof {
                        assert(self.toks()[0] == self.tokens@[0]@);
                        assert(self.toks()[0] is Indent);
                    }
                    return Err(illegal_indent_at_begin(self.c_line));
                },
                _ => false,
            };
            if shift_line {
                let ghost pts = self.toks();
                proof {
                    lemma_wf_tokens_shift(pts);
                }
                self.c_line = self.c_line + 1;
                self.tokens.remove(0);
                proof {
                    assert(self.toks() =~= pts.skip(1));
                }
            } else {
                proof {
                    assert(self.toks()[0] == self.tokens@[0]@);
                    assert(!(self.toks()[0] is Eol) && !(self.toks()[0] is Indent));
                    assert(parse_start(
                        old(self).html_fmt,
                        self.toks(),
                        self.c_line as nat,
                        self.dom_tree.root@,
                    ) == parse_toks(self.abs(empty_coll()), old(self).html_fmt, self.toks()));
                }
                break ;
            }
        }
        Ok(())
    }

    /// The line may not mix two indentation runs.
    fn mix_space_tab_indent(&mut self) -> (r: Result<(), String>)
        requires
            old(self).tokens@.len() >= 2,
        ensures
            *final(self) == *old(self),
            ({
                if old(self).toks()[1] is Indent {
                    r is Err && r.unwrap_err()@ == indent_using_line_and_space_msg(
                        old(self).c_line as nat,
                    )
                } else {
                    r is Ok
                }
            }),
    {
        match &self.tokens[1] {
            Token::Indent(_, _) => Err(indent_using_line_and_space(self.c_line)),
            _ => Ok(()),
        }
    }

    /// The indentation must keep the document's character and unit size.
    fn inconsistent_indent(&mut self, c: char, length: usize) -> (r: Result<(), String>)
        requires
            old(self).indent_length >= 1,
        ensures
            *final(self) == *old(self),
            ({
                let line = old(self).c_line as nat;
                let il = old(self).indent_length as nat;
                if old(self).indent_char != c {
                    r is Err && r.unwrap_err()@ == inconsistent_indent_msg(
                        line,
                        c,
                        old(self).indent_char,
                        length as nat,
                        il,
                    )
                } else if length as nat % il != 0 {
                    r is Err && r.unwrap_err()@ == inconsistent_indent_msg(
                        line,
                        c,
                        c,
                        length as nat,
                        il,
                    )
                } else {
                    r is Ok
                }
            }),
    {
        if self.indent_char != c {
            Err(
                crate::error::inconsistent_indent(
                    self.c_line,
                    c,
                    self.indent_char,
                    length,
                    self.indent_length,
                ),
            )
        } else if length % self.indent_length != 0 {
            Err(crate::error::inconsistent_indent(self.c_line, c, c, length, self.indent_length))
        } else {
            Ok(())
        }
    }

    /// The line may stay, go one level deeper, or go any number of levels up.
    fn indent_level(&mut self, length: usize) -> (r: Result<(), String>)
        requires
            old(self).indent_length >= 1,
        ensures
            final(self).html_fmt == old(self).html_fmt,
            final(self).tokens == old(self).tokens,
            final(self).dom_tree == old(self).dom_tree,
            final(self).c_line == old(self).c_line,
            final(self).indent_length == old(self).indent_length,
            final(self).indent_char == old(self).indent_char,
            ({
                let new_lvl = length as nat / old(self).indent_length as nat;
                if new_lvl > old(self).c_indent_lvl as nat + 1 {
                    r is Err && r.unwrap_err()@ == indent_level_much_deeper_msg(
                        old(self).c_line as nat,
                        (new_lvl - old(self).c_indent_lvl as nat) as nat,
                    ) && final(self).c_indent_lvl == old(self).c_indent_lvl
                } else {
                    r is Ok && final(self).c_indent_lvl as nat == new_lvl
                }
            }),
            r is Ok ==> final(self).indent_length as nat * final(self).c_indent_lvl as nat
                <= length as nat,
    {
        let new_indent_lvl = length / self.indent_length;
        proof {
            let il = self.indent_length as nat;
            let ln = length as nat;
            assert(il * (ln / il) <= ln) by (nonlinear_arith)
                requires
                    il >= 1,
                    ln >= 0,
            ;
        }
        if new_indent_lvl <= self.c_indent_lvl {
            self.c_indent_lvl = new_indent_lvl;
            Ok(())
        } else if new_indent_lvl - self.c_indent_lvl == 1 {
            self.c_indent_lvl = new_indent_lvl;
            Ok(())
        } else {
            Err(
                crate::error::indent_level_much_deeper(
                    self.c_line,
                    new_indent_lvl - self.c_indent_lvl,
                ),
            )
        }
    }

    /// Handle one `Indent` token: discover or enforce the unit, adjust the
    /// level, and drop the token.
    fn check_indent(&mut self, data: &DCollector) -> (r: Result<(), String>)
        requires
            old(self).inv(),
            wf_tokens(old(self).toks()),
            old(self).toks().len() >= 1,
            old(self).toks()[0] is Indent,
        ensures
            final(self).inv(),
            final(self).html_fmt == old(self).html_fmt,
            match r {
                Ok(_) => final(self).tokens@.len() < old(self).tokens@.len() && wf_tokens(
                    final(self).toks(),
                ) && parse_toks(old(self).abs(data@), old(self).html_fmt, old(self).toks())
                    == parse_toks(final(self).abs(data@), final(self).html_fmt, final(self).toks()),
                Err(e) => parse_toks(old(self).abs(data@), old(self).html_fmt, old(self).toks())
                    == Err::<ItemView, Seq<char>>(e@),
            },
    {
        let ghost ts = self.toks();
        proof {
            lemma_wf_tokens_shift(ts);
        }
        let (c, l) = match &self.tokens[0] {
            Token::Indent(c0, l0) => (*c0, *l0),
            _ => {
                proof {
                    assert(false);
                }
                (' ', 0)
            },
        };
        proof {
            assert(ts[0] == TokenView::Indent(c, l as nat));
            assert(indent_tok_wf(ts[0]));
            assert(l >= 1);
        }
        if self.indent_length == 0 {
            self.indent_length = l;
            self.indent_char = c;
        }
        match self.mix_space_tab_indent() {
            Result::Err(e) => {
                return Err(e);
            },
            Result::Ok(_) => {},
        }
        match self.inconsistent_indent(c, l) {
            Result::Err(e) => {
                return Err(e);
            },
            Result::Ok(_) => {},
        }
        match self.indent_level(l) {
            Result::Err(e) => {
                return Err(e);
            },
            Result::Ok(_) => {},
        }
        let ghost pts = self.toks();
        self.tokens.remove(0);
        proof {
            assert(self.toks() =~= pts.skip(1));
            assert(pts.skip(1) =~= ts.skip(1));
        }
        Ok(())
    }

    /// Record a tag, id or class token into the collector; an empty name is refused.
    fn check_tag(&mut self, data: &mut DCollector) -> (r: Result<(), String>)
        requires
            old(self).tokens@.len() >= 1,
        ensures
            *final(self) == *old(self),
            ({
                let t0 = final(self).toks()[0];
                let line = final(self).c_line as nat;
                match t0 {
                    TokenView::Tag(name) => if name.len() != 0 {
                        r is Ok && final(data)@ == (CollView { tag: name, ..old(data)@ })
                    } else {
                        r is Err && r.unwrap_err()@ == invalid_tag_msg(line, "%"@) && final(data)@
                            == old(data)@
                    },
                    TokenView::Id(name) => if name.len() == 0 {
                        r is Err && r.unwrap_err()@ == illegal_element_class_id_msg(line) && final(data)@ == old(data)@
                    } else {
                        r is Ok && final(data)@ == (CollView {
                            attributes: attrs_set(old(data)@.attributes, "id"@, seq![name]),
                            ..old(data)@
                        })
                    },
                    TokenView::Class(name) => if name.len() == 0 {
                        r is Err && r.unwrap_err()@ == illegal_element_class_id_msg(line) && final(data)@ == old(data)@
                    } else {
                        r is Ok && final(data)@ == (CollView {
                            attributes: attrs_add(old(data)@.attributes, "class"@, name),
                            ..old(data)@
                        })
                    },
                    _ => r is Ok && final(data)@ == old(data)@,
                }
            }),
    {
        match &self.tokens[0] {
            Token::Tag(name) => {
                if !name.as_str().is_empty() {
                    data.tag = name.clone();
                    Ok(())
                } else {
                    Err(invalid_tag(self.c_line, "%"))
                }
            },
            Token::Id(name) => {
                if name.as_str().is_empty() {
                    Err(illegal_element_class_id(self.c_line))
                } else {
                    let mut vs: Vec<String> = Vec::new();
                    vs.push(name.clone());
                    proof {
                        assert(crate::dom_tree::strs_view(vs@) =~= seq![name@]);
                    }
                    data.attributes.set("id", vs);
                    Ok(())
                }
            },
            Token::Class(name) => {
                if name.as_str().is_empty() {
                    Err(illegal_element_class_id(self.c_line))
                } else {
                    data.attributes.add("class", name.clone());
                    Ok(())
                }
            },
            _ => Ok(()),
        }
    }

    /// A line with inline content may not be nested into by the next line.
    fn check_illegal_nesting(&self, data: &DCollector) -> (r: Result<(), String>)
        requires
            self.tokens@.len() >= 1,
            self.indent_length as nat * self.c_indent_lvl as nat <= usize::MAX as nat,
        ensures
            ({
                let t0 = self.toks()[0];
                let limit = self.indent_length as nat * self.c_indent_lvl as nat;
                let line = self.c_line as nat;
                let deeper = (t0 is Indent) && indent_count(t0) > limit;
                if deeper && data@.content.len() > 0 && (data@.tag.len() > 0
                    || data@.attributes.len() > 0) {
                    r is Err && r.unwrap_err()@ == illegal_nesting_msg(line, data@.tag)
                } else if deeper && data@.content.len() > 0 && data@.tag_type
                    != TagType::HamlComment && coll_is_plaintext(data@) {
                    r is Err && r.unwrap_err()@ == illegal_plain_text_nesting_msg(line)
                } else {
                    r is Ok
                }
            }),
    {
        match &self.tokens[0] {
            Token::Indent(_, l) => {
                if !data.content.as_str().is_empty() {
                    let limit = self.indent_length * self.c_indent_lvl;
                    if *l > limit && (!data.tag.as_str().is_empty() || !data.attributes.is_empty())
                        {
                        Err(illegal_nesting(self.c_line, data.tag.as_str()))
                    } else if *l > limit && !matches!(data.tag_type, TagType::HamlComment)
                        && data.is_plaintext() {
                        Err(illegal_plain_text_nesting(self.c_line))
                    } else {
                        Ok(())
                    }
                } else {
                    Ok(())
                }
            },
            _ => Ok(()),
        }
    }

    /// Mark the line a discarded comment (its content set so that nesting
    /// under it stays allowed), dropping the token.
    fn check_haml_comment(&mut self, data: &mut DCollector)
        requires
            old(self).tokens@.len() >= 1,
        ensures
            final(self).tokens@ == old(self).tokens@.skip(1),
            final(self).html_fmt == old(self).html_fmt,
            final(self).dom_tree == old(self).dom_tree,
            final(self).c_line == old(self).c_line,
            final(self).indent_length == old(self).indent_length,
            final(self).indent_char == old(self).indent_char,
            final(self).c_indent_lvl == old(self).c_indent_lvl,
            final(data)@ == (CollView {
                tag_type: TagType::HamlComment,
                content: "stuff"@,
                ..old(data)@
            }),
    {
        data.tag_type = TagType::HamlComment;
        data.content = "stuff".to_owned();
        self.tokens.remove(0);
    }

    /// Mark the line an HTML comment, dropping the token.
    fn check_html_comment(&mut self, data: &mut DCollector)
        requires
            old(self).tokens@.len() >= 1,
        ensures
            final(self).tokens@ == old(self).tokens@.skip(1),
            final(self).html_fmt == old(self).html_fmt,
            final(self).dom_tree == old(self).dom_tree,
            final(self).c_line == old(self).c_line,
            final(self).indent_length == old(self).indent_length,
            final(self).indent_char == old(self).indent_char,
            final(self).c_indent_lvl == old(self).c_indent_lvl,
            final(data)@ == (CollView { tag_type: TagType::HtmlComment, ..old(data)@ }),
    {
        data.tag_type = TagType::HtmlComment;
        self.tokens.remove(0);
    }

    /// Turn the finished line's collector into an item and insert it under
    /// the cursor, first closing every scope the line has exited.
    fn insert_in_tree(&mut self, data: DCollector)
        requires
            old(self).dom_tree.wf(),
        ensures
            final(self).dom_tree.wf(),
            final(self).tokens == old(self).tokens,
            final(self).html_fmt == old(self).html_fmt,
            final(self).c_line == old(self).c_line,
            final(self).indent_length == old(self).indent_length,
            final(self).indent_char == old(self).indent_char,
            final(self).c_indent_lvl == old(self).c_indent_lvl,
            ({
                let step = insert_step(
                    old(self).dom_tree.root@,
                    old(self).dom_tree.cursor(),
                    old(self).c_indent_lvl as nat,
                    data@,
                    old(self).html_fmt,
                );
                final(self).dom_tree.root@ == step.0 && final(self).dom_tree.cursor() == step.1
            }),
    {
        let is_empty = data.is_empty();
        let is_block = data.is_block();
        let ghost dv = data@;
        let item = match data.tag_type {
            TagType::Unknown => {
                if !is_empty {
                    Item::plain_text(data.content)
                } else {
                    proof {
                        assert(collector_item(dv, self.html_fmt) is None);
                    }
                    return ;
                }
            },
            TagType::Tag => {
                if is_block {
                    Item::block(data.tag, data.attributes)
                } else {
                    Item::inline(data.tag, data.attributes, data.content)
                }
            },
            TagType::HamlComment => Item::haml_comment(),
            TagType::HtmlComment => Item::html_comment(data.content),
            TagType::Header => Item::header(
                crate::format::get_specific_format(data.content.as_str(), self.html_fmt),
            ),
        };
        proof {
            assert(collector_item(dv, self.html_fmt) == Some(item@));
        }
        let ghost cur0 = self.dom_tree.cursor();
        while self.c_indent_lvl < self.dom_tree.get_current_lvl()
            invariant
                self.dom_tree.wf(),
                self.dom_tree.root == old(self).dom_tree.root,
                self.c_indent_lvl == old(self).c_indent_lvl,
                self.tokens == old(self).tokens,
                self.html_fmt == old(self).html_fmt,
                self.c_line == old(self).c_line,
                self.indent_length == old(self).indent_length,
                self.indent_char == old(self).indent_char,
                self.dom_tree.cursor().len() <= cur0.len(),
                self.dom_tree.cursor() == cur0.take(self.dom_tree.cursor().len() as int),
                self.dom_tree.cursor().len() < cur0.len() ==> self.c_indent_lvl as nat
                    <= self.dom_tree.cursor().len(),
            decreases self.dom_tree.cursor().len(),
        {
            proof {
                assert(self.dom_tree.cur_elt_id@.len() > 1);
            }
            let ghost pre = self.dom_tree.cursor();
            self.dom_tree.back();
            proof {
                assert(self.dom_tree.cursor() =~= pre.drop_last());
                assert(cur0.take(pre.len() as int).drop_last() =~= cur0.take(pre.len() - 1));
            }
        }
        proof {
            if cur0.len() <= self.c_indent_lvl as nat {
                assert(cur0.take(cur0.len() as int) =~= cur0);
                assert(self.dom_tree.cursor() == cur0);
            }
            assert(self.dom_tree.cursor() == back_path(cur0, old(self).c_indent_lvl as nat));
        }
        self.dom_tree.insert(item);
    }

    /// Close the line at its `Eol`: refuse illegal nesting, insert the
    /// collected item, and reset the level when the next line starts at the margin.
    fn finalize_item_on_new_line(&mut self, data: DCollector) -> (r: Result<(), String>)
        requires
            old(self).inv(),
            wf_tokens(old(self).toks()),
            old(self).toks().len() >= 1,
            old(self).toks()[0] is Eol,
        ensures
            final(self).inv(),
            final(self).html_fmt == old(self).html_fmt,
            match r {
                Ok(_) => final(self).tokens@.len() < old(self).tokens@.len() && wf_tokens(
                    final(self).toks(),
                ) && parse_toks(old(self).abs(data@), old(self).html_fmt, old(self).toks())
                    == parse_toks(
                    final(self).abs(empty_coll()),
                    final(self).html_fmt,
                    final(self).toks(),
                ),
                Err(e) => parse_toks(old(self).abs(data@), old(self).html_fmt, old(self).toks())
                    == Err::<ItemView, Seq<char>>(e@),
            },
    {
        let ghost ts = self.toks();
        let ghost st0 = old(self).abs(data@);
        proof {
            lemma_wf_tokens_shift(ts);
        }
        self.tokens.remove(0);
        proof {
            assert(self.toks() =~= ts.skip(1));
            lemma_wf_tokens_nonempty(self.toks());
        }
        match self.check_illegal_nesting(&data) {
            Result::Err(e) => {
                return Err(e);
            },
            Result::Ok(_) => {},
        }
        proof {
            let j = choose|j: int|
                0 <= j < self.toks().len() && (#[trigger] self.toks()[j]) is Eof;
        }
        self.c_line = self.c_line + 1;
        self.insert_in_tree(data);
        let reset = match &self.tokens[0] {
            Token::Indent(_, _) => false,
            Token::Eol => false,
            Token::Eof => false,
            _ => true,
        };
        if reset {
            self.c_indent_lvl = 0;
        }
        proof {
            let ts1 = ts.skip(1);
            assert(parse_toks(st0, self.html_fmt, ts) == parse_toks(
                final(self).abs(empty_coll()),
                final(self).html_fmt,
                ts1,
            ));
        }
        Ok(())
    }

    /// Run the parser over a token stream: the tree it describes, or the
    /// first diagnostic.
    pub fn execute(&mut self, tokens: Vec<Token>) -> (r: Result<DomTree, String>)
        requires
            old(self).fresh(),
            wf_tokens(tokens@.map_values(|t: Token| t@)),
        ensures
            match parse(tokens@.map_values(|t: Token| t@), old(self).html_fmt) {
                Ok(t) => r is Ok && r.unwrap().root@ == t,
                Err(e) => r is Err && r.unwrap_err()@ == e,
            },
    {
        self.tokens = tokens;
        let held = self.tokens.len();
        proof {
            assert(self.tokens@.len() == held);
        }
        let ghost f = self.html_fmt;
        let ghost goal = parse(self.toks(), f);
        proof {
            assert(self.toks() =~= tokens@.map_values(|t: Token| t@));
            assert(goal == parse(tokens@.map_values(|t: Token| t@), old(self).html_fmt));
            assert(goal == parse_start(f, self.toks(), 1, self.dom_tree.root@));
        }
        match self.check_indent_on_first_line() {
            Result::Err(e) => {
                return Err(e);
            },
            Result::Ok(_) => {},
        }
        let mut data = DCollector::new();
        loop
            invariant_except_break
                self.inv(),
                wf_tokens(self.toks()),
                self.html_fmt == f,
                f == old(self).html_fmt,
                goal == parse(tokens@.map_values(|t: Token| t@), old(self).html_fmt),
                parse_toks(self.abs(data@), f, self.toks()) == goal,
            ensures
                goal == parse(tokens@.map_values(|t: Token| t@), old(self).html_fmt),
                goal == Ok::<ItemView, Seq<char>>(self.dom_tree.root@),
            decreases self.tokens.len(),
        {
            proof {
                lemma_wf_tokens_nonempty(self.toks());
            }
            if matches!(&self.tokens[0], Token::Eof) {
                proof {
                    assert(parse_toks(self.abs(data@), f, self.toks()) == Ok::<
                        ItemView,
                        Seq<char>,
                    >(self.dom_tree.root@));
                }
                break ;
            }
            let ghost pre = self.abs(data@);
            let ghost pts = self.toks();
            if matches!(&self.tokens[0], Token::Indent(_, _)) {
                match self.check_indent(&data) {
                    Result::Err(e) => {
                        return Err(e);
                    },
                    Result::Ok(_) => {},
                }
            } else if matches!(&self.tokens[0], Token::Tag(_) | Token::Id(_) | Token::Class(_)) {
                match self.check_tag(&mut data) {
                    Result::Err(e) => {
                        return Err(e);
                    },
                    Result::Ok(_) => {},
                }
                proof {
                    lemma_wf_tokens_shift(pts);
                }
                self.tokens.remove(0);
                data.tag_type = TagType::Tag;
                proof {
                    assert(self.toks() =~= pts.skip(1));
                    assert(parse_toks(self.abs(data@), f, self.toks()) == goal);
                }
            } else if matches!(&self.tokens[0], Token::PlainText(_)) {
                proof {
                    lemma_wf_tokens_shift(pts);
                }
                let t = self.tokens.remove(0);
                match t {
                    Token::PlainText(sp) => {
                        data.content = sp;
                    },
                    _ => {
                        proof {
                            assert(false);
                        }
                    },
                }
                proof {
                    assert(self.toks() =~= pts.skip(1));
                    assert(parse_toks(self.abs(data@), f, self.toks()) == goal);
                }
            } else if matches!(&self.tokens[0], Token::Eol) {
                let d = data;
                match self.finalize_item_on_new_line(d) {
                    Result::Err(e) => {
                        return Err(e);
                    },
                    Result::Ok(_) => {},
                }
                data = DCollector::new();
            } else if matches!(&self.tokens[0], Token::HamlComment) {
                proof {
                    lemma_wf_tokens_shift(pts);
                }
                self.check_haml_comment(&mut data);
                proof {
                    assert(self.toks() =~= pts.skip(1));
                    assert(parse_toks(self.abs(data@), f, self.toks()) == goal);
                }
            } else if matches!(&self.tokens[0], Token::HtmlComment) {
                proof {
                    lemma_wf_tokens_shift(pts);
                }
                self.check_html_comment(&mut data);
                proof {
                    assert(self.toks() =~= pts.skip(1));
                    assert(parse_toks(self.abs(data@), f, self.toks()) == goal);
                }
            } else if matches!(&self.tokens[0], Token::Doctype) {
                proof {
                    lemma_wf_tokens_shift(pts);
                }
                self.tokens.remove(0);
                data.tag_type = TagType::Header;
                proof {
                    assert(self.toks() =~= pts.skip(1));
                    assert(parse_toks(self.abs(data@), f, self.toks()) == goal);
                }
            } else {
                proof {
                    lemma_wf_tokens_shift(pts);
                }
                self.tokens.remove(0);
                proof {
                    assert(self.toks() =~= pts.skip(1));
                    assert(parse_toks(self.abs(data@), f, self.toks()) == goal);
                }
            }
        }
        Ok(self.dom_tree.duplicate())
    }
}


/// The character an `Indent` token carries.
pub open spec fn indent_char_of(t: TokenView) -> char {
    match t {
        TokenView::Indent(c, _) => c,
        _ => '\0',
    }
}

/// Where the stream's first `Eof` sits (the length if there is none): the
/// parser reads nothing beyond it.
pub open spec fn eof_pos(ts: Seq<TokenView>) -> nat
    decreases ts.len(),
{
    if ts.len() == 0 || ts[0] is Eof {
        0
    } else {
        1 + eof_pos(ts.skip(1))
    }
}

proof fn lemma_eof_pos_le(ts: Seq<TokenView>)
    ensures
        eof_pos(ts) <= ts.len(),
    decreases ts.len(),
{
    if ts.len() > 0 && !(ts[0] is Eof) {
        lemma_eof_pos_le(ts.skip(1));
    }
}

proof fn lemma_toks_consistent(st: ParseSt, f: HtmlFormat, ts: Seq<TokenView>)
    requires
        parse_toks(st, f, ts) is Ok,
        forall|i: int| 0 <= i < ts.len() ==> indent_tok_wf(#[trigger] ts[i]),
    ensures
        forall|i: int, j: int|
            0 <= i < eof_pos(ts) && 0 <= j < eof_pos(ts) && (#[trigger] ts[i] is Indent) && (
            #[trigger] ts[j] is Indent) ==> indent_char_of(ts[i]) == indent_char_of(ts[j]),
        st.indent_length > 0 ==> forall|i: int|
            0 <= i < eof_pos(ts) && (#[trigger] ts[i] is Indent) ==> indent_char_of(ts[i])
                == st.indent_char,
    decreases ts.len(),
{
    lemma_eof_pos_le(ts);
    if ts.len() == 0 || ts[0] is Eof {
    } else {
        let ts1 = ts.skip(1);
        assert(eof_pos(ts) == 1 + eof_pos(ts1));
        lemma_eof_pos_le(ts1);
        assert(forall|i: int| 0 <= i < ts1.len() ==> indent_tok_wf(#[trigger] ts1[i])) by {
            assert(forall|i: int|
                0 <= i < ts1.len() ==> #[trigger] ts1[i] == ts[i + 1] && indent_tok_wf(ts[i + 1]));
        }
        match ts[0] {
            TokenView::Indent(c, n) => {
                let il = if st.indent_length == 0 {
                    n
                } else {
                    st.indent_length
                };
                let ic = if st.indent_length == 0 {
                    c
                } else {
                    st.indent_char
                };
                let st1 = ParseSt { indent_length: il, indent_char: ic, lvl: n / il, ..st };
                assert(parse_toks(st1, f, ts1) is Ok);
                assert(indent_tok_wf(ts[0]));
                assert(il > 0);
                lemma_toks_consistent(st1, f, ts1);
                assert(ic == c);
                assert forall|i: int, j: int|
                    0 <= i < eof_pos(ts) && 0 <= j < eof_pos(ts) && (#[trigger] ts[i] is Indent)
                        && (#[trigger] ts[j] is Indent) implies indent_char_of(ts[i])
                    == indent_char_of(ts[j]) by {
                    if i > 0 {
                        assert(ts[i] == ts1[i - 1]);
                        assert(indent_char_of(ts1[i - 1]) == st1.indent_char);
                    }
                    if j > 0 {
                        assert(ts[j] == ts1[j - 1]);
                        assert(indent_char_of(ts1[j - 1]) == st1.indent_char);
                    }
                }
                if st.indent_length > 0 {
                    assert forall|i: int|
                        0 <= i < eof_pos(ts) && (#[trigger] ts[i] is Indent) implies indent_char_of(
                        ts[i],
                    ) == st.indent_char by {
                        if i > 0 {
                            assert(ts[i] == ts1[i - 1]);
                        }
                    }
                }
            },
            TokenView::Eol => {
                let limit = st.indent_length * st.lvl;
                let deeper = ts1.len() > 0 && (ts1[0] is Indent) && indent_count(ts1[0]) > limit;
                let step = insert_step(st.tree, st.cursor, st.lvl, st.data, f);
                let lvl1 = if ts1.len() > 0 && !(ts1[0] is Indent) && !(ts1[0] is Eol) && !(
                ts1[0] is Eof) {
                    0
                } else {
                    st.lvl
                };
                let st1 = ParseSt {
                    line: st.line + 1,
                    lvl: lvl1,
                    tree: step.0,
                    cursor: step.1,
                    data: empty_coll(),
                    ..st
                };
                assert(parse_toks(st1, f, ts1) is Ok);
                lemma_toks_consistent(st1, f, ts1);
                lemma_consistent_shift(st, st1, ts, ts1);
            },
            _ => {
                step_witness(st, f, ts);
                let st1 = choose|st1: ParseSt|
                    st1.indent_char == st.indent_char && st1.indent_length == st.indent_length
                        && parse_toks(st1, f, ts1) == parse_toks(st, f, ts);
                lemma_toks_consistent(st1, f, ts1);
                lemma_consistent_shift(st, st1, ts, ts1);
            },
        }
    }
}

/// Name the successor state one ordinary token leads to: a token that is not
/// a terminator, an indentation or a newline keeps the indentation unit and
/// character.
proof fn step_witness(st: ParseSt, f: HtmlFormat, ts: Seq<TokenView>)
    requires
        ts.len() > 0,
        !(ts[0] is Eof),
        !(ts[0] is Eol),
        !(ts[0] is Indent),
        parse_toks(st, f, ts) is Ok,
    ensures
        exists|st1: ParseSt|
            st1.indent_char == st.indent_char && st1.indent_length == st.indent_length
                && parse_toks(st1, f, ts.skip(1)) == parse_toks(st, f, ts),
{
    match ts[0] {
        TokenView::Tag(name) => {
            assert(name.len() != 0);
            let w = ParseSt {
                data: CollView { tag: name, tag_type: TagType::Tag, ..st.data },
                ..st
            };
            assert(parse_toks(w, f, ts.skip(1)) == parse_toks(st, f, ts));
        },
        TokenView::Id(name) => {
            assert(name.len() != 0);
            let w = ParseSt {
                data: CollView {
                    attributes: attrs_set(st.data.attributes, "id"@, seq![name]),
                    tag_type: TagType::Tag,
                    ..st.data
                },
                ..st
            };
            assert(parse_toks(w, f, ts.skip(1)) == parse_toks(st, f, ts));
        },
        TokenView::Class(name) => {
            assert(name.len() != 0);
            let w = ParseSt {
                data: CollView {
                    attributes: attrs_add(st.data.attributes, "class"@, name),
                    tag_type: TagType::Tag,
                    ..st.data
                },
                ..st
            };
            assert(parse_toks(w, f, ts.skip(1)) == parse_toks(st, f, ts));
        },
        TokenView::PlainText(sp) => {
            let w = ParseSt { data: CollView { content: sp, ..st.data }, ..st };
            assert(parse_toks(w, f, ts.skip(1)) == parse_toks(st, f, ts));
        },
        TokenView::HamlComment => {
            let w = ParseSt {
                data: CollView { tag_type: TagType::HamlComment, content: "stuff"@, ..st.data },
                ..st
            };
            assert(parse_toks(w, f, ts.skip(1)) == parse_toks(st, f, ts));
        },
        TokenView::HtmlComment => {
            let w = ParseSt {
                data: CollView { tag_type: TagType::HtmlComment, ..st.data },
                ..st
            };
            assert(parse_toks(w, f, ts.skip(1)) == parse_toks(st, f, ts));
        },
        TokenView::Doctype => {
            let w = ParseSt {
                data: CollView { tag_type: TagType::Header, ..st.data },
                ..st
            };
            assert(parse_toks(w, f, ts.skip(1)) == parse_toks(st, f, ts));
        },
        _ => {
            assert(parse_toks(st, f, ts.skip(1)) == parse_toks(st, f, ts));
        },
    }
}

/// Carry pairwise consistency back across one consumed token that is not an
/// `Indent`.
proof fn lemma_consistent_shift(st: ParseSt, st1: ParseSt, ts: Seq<TokenView>, ts1: Seq<TokenView>)
    requires
        ts.len() > 0,
        !(ts[0] is Eof),
        !(ts[0] is Indent),
        ts1 == ts.skip(1),
        st1.indent_char == st.indent_char,
        st1.indent_length == st.indent_length,
        forall|i: int, j: int|
            0 <= i < eof_pos(ts1) && 0 <= j < eof_pos(ts1) && (#[trigger] ts1[i] is Indent) && (
            #[trigger] ts1[j] is Indent) ==> indent_char_of(ts1[i]) == indent_char_of(ts1[j]),
        st1.indent_length > 0 ==> forall|i: int|
            0 <= i < eof_pos(ts1) && (#[trigger] ts1[i] is Indent) ==> indent_char_of(ts1[i])
                == st1.indent_char,
    ensures
        forall|i: int, j: int|
            0 <= i < eof_pos(ts) && 0 <= j < eof_pos(ts) && (#[trigger] ts[i] is Indent) && (
            #[trigger] ts[j] is Indent) ==> indent_char_of(ts[i]) == indent_char_of(ts[j]),
        st.indent_length > 0 ==> forall|i: int|
            0 <= i < eof_pos(ts) && (#[trigger] ts[i] is Indent) ==> indent_char_of(ts[i])
                == st.indent_char,
{
    lemma_eof_pos_le(ts);
    lemma_eof_pos_le(ts1);
    assert(eof_pos(ts) == 1 + eof_pos(ts1));
    assert forall|i: int, j: int|
        0 <= i < eof_pos(ts) && 0 <= j < eof_pos(ts) && (#[trigger] ts[i] is Indent) && (
        #[trigger] ts[j] is Indent) implies indent_char_of(ts[i]) == indent_char_of(ts[j]) by {
        assert(i > 0 && j > 0);
        assert(ts[i] == ts1[i - 1] && ts[j] == ts1[j - 1]);
    }
    if st.indent_length > 0 {
        assert forall|i: int|
            0 <= i < eof_pos(ts) && (#[trigger] ts[i] is Indent) implies indent_char_of(ts[i])
            == st.indent_char by {
            assert(i > 0);
            assert(ts[i] == ts1[i - 1]);
        }
    }
}

/// A successful parse used one indentation character for the whole document:
/// any two `Indent` tokens before the stream's first `Eof` carry the same
/// character.
pub proof fn lemma_parse_consistent_indent(ts: Seq<TokenView>, f: HtmlFormat)
    requires
        parse(ts, f) is Ok,
        forall|i: int| 0 <= i < ts.len() ==> indent_tok_wf(#[trigger] ts[i]),
    ensures
        forall|i: int, j: int|
            0 <= i < eof_pos(ts) && 0 <= j < eof_pos(ts) && (#[trigger] ts[i] is Indent) && (
            #[trigger] ts[j] is Indent) ==> indent_char_of(ts[i]) == indent_char_of(ts[j]),
{
    lemma_start_consistent(
        f,
        ts,
        1,
        leaf_view(
            Seq::empty(),
            Seq::<char>::empty(),
            Seq::<char>::empty(),
            crate::dom_tree::TagType::Root,
        ),
    );
}

proof fn lemma_start_consistent(f: HtmlFormat, ts: Seq<TokenView>, line: nat, tree: ItemView)
    requires
        parse_start(f, ts, line, tree) is Ok,
        forall|i: int| 0 <= i < ts.len() ==> indent_tok_wf(#[trigger] ts[i]),
    ensures
        forall|i: int, j: int|
            0 <= i < eof_pos(ts) && 0 <= j < eof_pos(ts) && (#[trigger] ts[i] is Indent) && (
            #[trigger] ts[j] is Indent) ==> indent_char_of(ts[i]) == indent_char_of(ts[j]),
    decreases ts.len(),
{
    if ts.len() == 0 {
    } else if ts[0] is Eol {
        let ts1 = ts.skip(1);
        assert(forall|i: int| 0 <= i < ts1.len() ==> indent_tok_wf(#[trigger] ts1[i])) by {
            assert(forall|i: int|
                0 <= i < ts1.len() ==> #[trigger] ts1[i] == ts[i + 1] && indent_tok_wf(ts[i + 1]));
        }
        lemma_start_consistent(f, ts1, line + 1, tree);
        if !(ts[0] is Eof) {
            lemma_eof_pos_le(ts);
            lemma_eof_pos_le(ts1);
            assert(eof_pos(ts) == 1 + eof_pos(ts1));
            assert forall|i: int, j: int|
                0 <= i < eof_pos(ts) && 0 <= j < eof_pos(ts) && (#[trigger] ts[i] is Indent) && (
                #[trigger] ts[j] is Indent) implies indent_char_of(ts[i]) == indent_char_of(
                ts[j],
            ) by {
                assert(i > 0 && j > 0);
                assert(ts[i] == ts1[i - 1] && ts[j] == ts1[j - 1]);
            }
        }
    } else if ts[0] is Indent {
        assert(false);
    } else {
        let st = ParseSt {
            line,
            indent_length: 0,
            indent_char: '\0',
            lvl: 0,
            tree,
            cursor: Seq::empty(),
            data: empty_coll(),
        };
        lemma_toks_consistent(st, f, ts);
    }
}


/// A finished line's item comes to sit one level below its line's indent
/// level: the cursor it lands under is never deeper than the level, and when
/// the open scopes reach that far, the item's depth is exactly the level plus
/// one (the root standing above level zero).
pub proof fn lemma_insert_depth(
    tree: ItemView,
    cursor: Seq<usize>,
    lvl: nat,
    d: CollView,
    f: HtmlFormat,
)
    requires
        tree_valid(tree, cursor),
        collector_item(d, f) is Some,
        tree_at(tree, back_path(cursor, lvl)).children.len() <= usize::MAX,
    ensures
        ({
            let step = insert_step(tree, cursor, lvl, d, f);
            &&& step.1.len() <= lvl + 1
            &&& lvl <= cursor.len() ==> step.1.len() == lvl + 1
            &&& tree_valid(step.0, step.1)
            &&& tree_at(step.0, step.1) == collector_item(d, f).unwrap()
        }),
{
    let item = collector_item(d, f).unwrap();
    let p = back_path(cursor, lvl);
    if lvl < cursor.len() {
        lemma_back_path_valid(tree, cursor, lvl);
    }
    crate::dom_tree::lemma_tree_insert(
        tree,
        p,
        item,
        tree_at(tree, p).children.len() as usize,
    );
}

/// Truncating a valid path leaves a valid path.
proof fn lemma_back_path_valid(tree: ItemView, cursor: Seq<usize>, lvl: nat)
    requires
        tree_valid(tree, cursor),
        lvl <= cursor.len(),
    ensures
        tree_valid(tree, cursor.take(lvl as int)),
    decreases cursor.len() - lvl,
{
    if lvl < cursor.len() {
        lemma_back_path_valid(tree, cursor, lvl + 1);
        crate::dom_tree::lemma_tree_valid_prefix(tree, cursor.take(lvl as int + 1));
        assert(cursor.take(lvl as int + 1).drop_last() =~= cursor.take(lvl as int));
    } else {
        assert(cursor.take(cursor.len() as int) =~= cursor);
    }
}


/// The highest indentation level the stream's `Indent` tokens select before
/// its first `Eof`, starting from a unit already discovered (zero for none)
/// and a level already reached.
pub open spec fn peak_level(il: nat, cur: nat, ts: Seq<TokenView>) -> nat
    decreases ts.len(),
{
    if ts.len() == 0 || ts[0] is Eof {
        cur
    } else {
        match ts[0] {
            TokenView::Indent(_, n) => {
                let il2 = if il == 0 {
                    n
                } else {
                    il
                };
                peak_level(il2, crate::dom_tree::nat_max(cur, n / il2), ts.skip(1))
            },
            _ => peak_level(il, cur, ts.skip(1)),
        }
    }
}

proof fn lemma_peak_ge_cur(il: nat, cur: nat, ts: Seq<TokenView>)
    ensures
        peak_level(il, cur, ts) >= cur,
    decreases ts.len(),
{
    if ts.len() > 0 && !(ts[0] is Eof) {
        match ts[0] {
            TokenView::Indent(_, n) => {
                let il2 = if il == 0 {
                    n
                } else {
                    il
                };
                lemma_peak_ge_cur(il2, crate::dom_tree::nat_max(cur, n / il2), ts.skip(1));
            },
            _ => {
                lemma_peak_ge_cur(il, cur, ts.skip(1));
            },
        }
    }
}

proof fn lemma_peak_mono(il: nat, a: nat, b: nat, ts: Seq<TokenView>)
    requires
        a <= b,
    ensures
        peak_level(il, a, ts) <= peak_level(il, b, ts),
    decreases ts.len(),
{
    if ts.len() > 0 && !(ts[0] is Eof) {
        match ts[0] {
            TokenView::Indent(_, n) => {
                let il2 = if il == 0 {
                    n
                } else {
                    il
                };
                lemma_peak_mono(
                    il2,
                    crate::dom_tree::nat_max(a, n / il2),
                    crate::dom_tree::nat_max(b, n / il2),
                    ts.skip(1),
                );
            },
            _ => {
                lemma_peak_mono(il, a, b, ts.skip(1));
            },
        }
    }
}

/// From any mid-parse state, a successful parse ends in a tree that reaches
/// no deeper than the starting tree or one step past the highest level the
/// remaining lines select.
#[verifier::rlimit(100)]
proof fn lemma_parse_depth_bound(st: ParseSt, f: HtmlFormat, ts: Seq<TokenView>)
    requires
        parse_toks(st, f, ts) is Ok,
        forall|i: int| 0 <= i < ts.len() ==> indent_tok_wf(#[trigger] ts[i]),
        tree_valid(st.tree, st.cursor),
    ensures
        crate::dom_tree::tree_depth(parse_toks(st, f, ts)->Ok_0) <= crate::dom_tree::nat_max(
            crate::dom_tree::tree_depth(st.tree),
            1 + peak_level(st.indent_length, st.lvl, ts),
        ),
    decreases ts.len(),
{
    if ts.len() == 0 || ts[0] is Eof {
    } else {
        assert(forall|i: int|
            0 <= i < ts.skip(1).len() ==> indent_tok_wf(#[trigger] ts.skip(1)[i])) by {
            assert(forall|i: int|
                0 <= i < ts.skip(1).len() ==> #[trigger] ts.skip(1)[i] == ts[i + 1]
                    && indent_tok_wf(ts[i + 1]));
        }
        match ts[0] {
            TokenView::Indent(c, n) => {
                let il2 = if st.indent_length == 0 {
                    n
                } else {
                    st.indent_length
                };
                let ic = if st.indent_length == 0 {
                    c
                } else {
                    st.indent_char
                };
                let st1 = ParseSt { indent_length: il2, indent_char: ic, lvl: n / il2, ..st };
                assert(parse_toks(st, f, ts) == parse_toks(st1, f, ts.skip(1)));
                lemma_parse_depth_bound(st1, f, ts.skip(1));
                lemma_peak_mono(
                    il2,
                    n / il2,
                    crate::dom_tree::nat_max(st.lvl, n / il2),
                    ts.skip(1),
                );
            },
            TokenView::Eol => {
                let ts1 = ts.skip(1);
                let step = insert_step(st.tree, st.cursor, st.lvl, st.data, f);
                let lvl1 = if ts1.len() > 0 && !(ts1[0] is Indent) && !(ts1[0] is Eol) && !(
                ts1[0] is Eof) {
                    0
                } else {
                    st.lvl
                };
                let st1 = ParseSt {
                    line: st.line + 1,
                    lvl: lvl1,
                    tree: step.0,
                    cursor: step.1,
                    data: empty_coll(),
                    ..st
                };
                if collector_item(st.data, f) is Some {
                    let item = collector_item(st.data, f).unwrap();
                    let p = back_path(st.cursor, st.lvl);
                    if st.lvl < st.cursor.len() {
                        lemma_back_path_valid(st.tree, st.cursor, st.lvl);
                    }
                    crate::dom_tree::lemma_tree_insert_appends(st.tree, p, item);
                    crate::dom_tree::lemma_tree_insert_depth(st.tree, p, item);
                    let lc = tree_at(st.tree, p).children.len();
                    let idx = #[verifier::truncate] (lc as usize);
                    assert(idx as nat <= lc) by {
                        if lc <= usize::MAX as nat {
                        }
                    };
                    assert((idx as nat) < tree_at(step.0, p).children.len());
                    crate::dom_tree::lemma_valid_extend(step.0, p, idx);
                    assert(tree_valid(st1.tree, st1.cursor));
                    assert(crate::dom_tree::tree_depth(step.0) == crate::dom_tree::nat_max(
                        crate::dom_tree::tree_depth(st.tree),
                        p.len() + 1,
                    ));
                    assert(p.len() <= st.lvl || p.len() <= st.cursor.len());
                } else {
                    assert(step.0 == st.tree && step.1 == st.cursor);
                }
                lemma_parse_depth_bound(st1, f, ts1);
                lemma_peak_mono(st.indent_length, lvl1, st.lvl, ts1);
                lemma_peak_ge_cur(st.indent_length, st.lvl, ts1);
                if collector_item(st.data, f) is Some {
                    let p = back_path(st.cursor, st.lvl);
                    if st.lvl < st.cursor.len() {
                    } else {
                        crate::dom_tree::lemma_valid_path_depth(st.tree, st.cursor);
                    }
                    assert(p.len() + 1 <= 1 + peak_level(st.indent_length, st.lvl, ts)
                        || p.len() + 1 <= crate::dom_tree::tree_depth(st.tree) + 1);
                }
            },
            TokenView::Tag(name) => {
                let st1 = ParseSt {
                    data: CollView { tag: name, tag_type: TagType::Tag, ..st.data },
                    ..st
                };
                lemma_parse_depth_bound(st1, f, ts.skip(1));
            },
            TokenView::Id(name) => {
                let st1 = ParseSt {
                    data: CollView {
                        attributes: attrs_set(st.data.attributes, "id"@, seq![name]),
                        tag_type: TagType::Tag,
                        ..st.data
                    },
                    ..st
                };
                lemma_parse_depth_bound(st1, f, ts.skip(1));
            },
            TokenView::Class(name) => {
                let st1 = ParseSt {
                    data: CollView {
                        attributes: attrs_add(st.data.attributes, "class"@, name),
                        tag_type: TagType::Tag,
                        ..st.data
                    },
                    ..st
                };
                lemma_parse_depth_bound(st1, f, ts.skip(1));
            },
            TokenView::PlainText(sp) => {
                let st1 = ParseSt { data: CollView { content: sp, ..st.data }, ..st };
                lemma_parse_depth_bound(st1, f, ts.skip(1));
            },
            TokenView::HamlComment => {
                let st1 = ParseSt {
                    data: CollView {
                        tag_type: TagType::HamlComment,
                        content: "stuff"@,
                        ..st.data
                    },
                    ..st
                };
                lemma_parse_depth_bound(st1, f, ts.skip(1));
            },
            TokenView::HtmlComment => {
                let st1 = ParseSt {
                    data: CollView { tag_type: TagType::HtmlComment, ..st.data },
                    ..st
                };
                lemma_parse_depth_bound(st1, f, ts.skip(1));
            },
            TokenView::Doctype => {
                let st1 = ParseSt { data: CollView { tag_type: TagType::Header, ..st.data }, ..st };
                lemma_parse_depth_bound(st1, f, ts.skip(1));
            },
            _ => {
                lemma_parse_depth_bound(st, f, ts.skip(1));
            },
        }
    }
}

/// A successful parse builds a tree that reaches no deeper than the highest
/// indentation level its lines select, plus one step for the root's own
/// children.
pub proof fn lemma_parse_depth_le_peak(ts: Seq<TokenView>, f: HtmlFormat)
    requires
        parse(ts, f) is Ok,
        forall|i: int| 0 <= i < ts.len() ==> indent_tok_wf(#[trigger] ts[i]),
    ensures
        crate::dom_tree::tree_depth(parse(ts, f)->Ok_0) <= 1 + peak_level(0, 0, ts),
{
    lemma_start_depth(
        f,
        ts,
        1,
        leaf_view(
            Seq::empty(),
            Seq::<char>::empty(),
            Seq::<char>::empty(),
            crate::dom_tree::TagType::Root,
        ),
    );
}

proof fn lemma_start_depth(f: HtmlFormat, ts: Seq<TokenView>, line: nat, tree: ItemView)
    requires
        parse_start(f, ts, line, tree) is Ok,
        forall|i: int| 0 <= i < ts.len() ==> indent_tok_wf(#[trigger] ts[i]),
        tree.children.len() == 0,
    ensures
        crate::dom_tree::tree_depth(parse_start(f, ts, line, tree)->Ok_0) <= 1 + peak_level(
            0,
            0,
            ts,
        ),
    decreases ts.len(),
{
    if ts.len() == 0 {
    } else if ts[0] is Eol {
        assert(forall|i: int|
            0 <= i < ts.skip(1).len() ==> indent_tok_wf(#[trigger] ts.skip(1)[i])) by {
            assert(forall|i: int|
                0 <= i < ts.skip(1).len() ==> #[trigger] ts.skip(1)[i] == ts[i + 1]
                    && indent_tok_wf(ts[i + 1]));
        }
        lemma_start_depth(f, ts.skip(1), line + 1, tree);
    } else if ts[0] is Indent {
    } else {
        let st = ParseSt {
            line,
            indent_length: 0,
            indent_char: '\0',
            lvl: 0,
            tree,
            cursor: Seq::empty(),
            data: empty_coll(),
        };
        lemma_parse_depth_bound(st, f, ts);
    }
}


} // verus!
