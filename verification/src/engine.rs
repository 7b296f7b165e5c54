use vstd::prelude::*;

use crate::dom_tree::{render_tree, DomTree};
use crate::format::HtmlFormat;
use crate::input_reader::InputReader;
use crate::lexer::{lemma_lex_terminators, lex, Lexer};
use crate::parser::{parse, wf_tokens, Parser};
use crate::token::{Token, TokenView};

verus! {

/// The whole compilation pipeline: characters to tokens to tree to HTML.
pub struct Engine {
    pub lexer: Lexer,
    pub parser: Parser,
    pub dom_tree: DomTree,
}

impl Engine {
    /// An engine over the given source text, emitting for the given dialect.
    pub fn new(input: &str, html_fmt: HtmlFormat) -> (r: Engine)
        ensures
            r.lexer.wf(),
            r.lexer.stream() == input@,
            r.lexer.toks() == Seq::<TokenView>::empty(),
            r.parser.fresh(),
            r.parser.html_fmt == html_fmt,
    {
        Engine {
            lexer: Lexer::new(InputReader::new(input)),
            parser: Parser::new(html_fmt),
            dom_tree: DomTree::new(),
        }
    }

    /// Lex and parse the source. On success the tree is kept for `generate`;
    /// on a syntax error the diagnostic comes back.
    pub fn execute(&mut self) -> (r: Result<(), String>)
        requires
            old(self).lexer.wf(),
            old(self).lexer.toks().len() == 0,
            old(self).parser.fresh(),
        ensures
            match parse(lex(old(self).lexer.stream()), old(self).parser.html_fmt) {
                Ok(t) => r is Ok && final(self).dom_tree.root@ == t,
                Err(e) => r is Err && r.unwrap_err()@ == e,
            },
    {
        let ghost source = self.lexer.stream();
        let tokens = self.lexer.execute();
        proof {
            lemma_lex_terminators(source);
            assert(tokens@.map_values(|t: Token| t@) =~= lex(source));
            let ws = tokens@.map_values(|t: Token| t@);
            assert(ws[ws.len() - 1] is Eof);
            assert(wf_tokens(ws));
        }
        match self.parser.execute(tokens) {
            Result::Ok(dt) => {
                self.dom_tree = dt;
                Ok(())
            },
            Result::Err(e) => Err(e),
        }
    }

    /// The HTML text of the parsed document.
    pub fn generate(&self) -> (r: String)
        ensures
            r@ == render_tree(self.dom_tree.root@),
    {
        self.dom_tree.to_html()
    }
}

} // verus!
