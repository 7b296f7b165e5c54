use vstd::prelude::*;

use crate::input_reader::InputReader;
use crate::token::{Token, TokenView};

verus! {

// ---------------------------------------------------------------------------
// The meaning of lexing, as functions over the character sequence.
// ---------------------------------------------------------------------------

pub open spec fn is_space_or_tab(c: char) -> bool {
    c == ' ' || c == '\t'
}

/// What `char::is_alphanumeric` returns: a function of the character alone.
pub uninterp spec fn char_is_alphanumeric(c: char) -> bool;

/// Relies on `char::is_alphanumeric`: whether the character is a Unicode
/// letter or number, a function of the character alone.
pub assume_specification[ char::is_alphanumeric ](c: char) -> (r: bool)
    ensures
        r == char_is_alphanumeric(c),
;

/// A character an identifier may contain: letters, digits, `-`, `_`.
pub open spec fn is_ident_char(c: char) -> bool {
    char_is_alphanumeric(c) || c == '-' || c == '_'
}

/// The kinds of character scans the lexer performs.
pub enum ScanKind {
    /// A run of one single character.
    OneChar(char),
    /// A run of spaces and tabs.
    Whitespace,
    /// Everything up to, not including, the next newline.
    NotNewline,
    /// A run of identifier characters.
    Ident,
}

/// Whether the character belongs to a scan of the given kind.
pub open spec fn scan_hit(k: ScanKind, c: char) -> bool {
    match k {
        ScanKind::OneChar(c0) => c == c0,
        ScanKind::Whitespace => is_space_or_tab(c),
        ScanKind::NotNewline => c != '\n',
        ScanKind::Ident => is_ident_char(c),
    }
}

/// Length of the longest prefix of `s` whose characters belong to the scan `k`.
pub open spec fn scan_len(s: Seq<char>, k: ScanKind) -> nat
    decreases s.len(),
{
    if s.len() > 0 && scan_hit(k, s[0]) {
        1 + scan_len(s.skip(1), k)
    } else {
        0
    }
}

/// Length of the longest prefix made of the single character `c`.
pub open spec fn run_len(s: Seq<char>, c: char) -> nat {
    scan_len(s, ScanKind::OneChar(c))
}

/// Length of the longest prefix of spaces and tabs.
pub open spec fn ws_len(s: Seq<char>) -> nat {
    scan_len(s, ScanKind::Whitespace)
}

/// Index of the first newline, or the length if there is none.
pub open spec fn line_len(s: Seq<char>) -> nat {
    scan_len(s, ScanKind::NotNewline)
}

/// Length of the longest prefix of identifier characters.
pub open spec fn ident_len(s: Seq<char>) -> nat {
    scan_len(s, ScanKind::Ident)
}

/// The identifier at the front of `s`: its longest prefix of identifier characters.
pub open spec fn ident_of(s: Seq<char>) -> Seq<char> {
    s.take(ident_len(s) as int)
}

pub proof fn lemma_scan_len_le(s: Seq<char>, k: ScanKind)
    ensures
        scan_len(s, k) <= s.len(),
    decreases s.len(),
{
    if s.len() > 0 && scan_hit(k, s[0]) {
        lemma_scan_len_le(s.skip(1), k);
    }
}

/// Every character inside the scanned prefix belongs to the scan, and the
/// first character after it, if any, does not.
pub proof fn lemma_scan_len_chars(s: Seq<char>, k: ScanKind)
    ensures
        scan_len(s, k) <= s.len(),
        forall|i: int| 0 <= i < scan_len(s, k) ==> scan_hit(k, s[i]),
        scan_len(s, k) < s.len() ==> !scan_hit(k, s[scan_len(s, k) as int]),
    decreases s.len(),
{
    lemma_scan_len_le(s, k);
    if s.len() > 0 && scan_hit(k, s[0]) {
        lemma_scan_len_chars(s.skip(1), k);
        assert forall|i: int| 0 <= i < scan_len(s, k) implies scan_hit(k, s[i]) by {
            if i > 0 {
                assert(scan_hit(k, s.skip(1)[i - 1]));
            }
        }
    }
}

/// Splitting off a prefix of `n` characters that all belong to the scan splits its length.
pub proof fn lemma_scan_len_split(s: Seq<char>, k: ScanKind, n: nat)
    requires
        n <= s.len(),
        forall|i: int| 0 <= i < n ==> scan_hit(k, s[i]),
    ensures
        scan_len(s, k) == n + scan_len(s.skip(n as int), k),
    decreases n,
{
    if n == 0 {
        assert(s.skip(0) =~= s);
    }
    if n > 0 {
        assert(scan_hit(k, s[0]));
        lemma_scan_len_split(s.skip(1), k, (n - 1) as nat);
        assert(s.skip(1).skip(n - 1) =~= s.skip(n as int));
        assert forall|i: int| 0 <= i < n - 1 implies scan_hit(k, s.skip(1)[i]) by {
            assert(s.skip(1)[i] == s[i + 1]);
        }
        assert(scan_len(s.skip(1), k) == (n - 1) + scan_len(s.skip(n as int), k));
    }
}

/// The trailing run of spaces and tabs removed.
pub open spec fn strip_trailing_ws(s: Seq<char>) -> Seq<char>
    decreases s.len(),
{
    if s.len() > 0 && is_space_or_tab(s.last()) {
        strip_trailing_ws(s.drop_last())
    } else {
        s
    }
}

/// Leading and trailing runs of spaces and tabs removed.
pub open spec fn trim_ws(s: Seq<char>) -> Seq<char> {
    strip_trailing_ws(s.skip(ws_len(s) as int))
}

/// The tokens of a leading indentation: one `Indent` per run of a single
/// whitespace kind, alternating kinds until the prefix of spaces and tabs ends.
pub open spec fn indent_toks(s: Seq<char>) -> Seq<TokenView>
    decreases s.len(),
    via indent_toks_dec
{
    if s.len() > 0 && is_space_or_tab(s[0]) {
        let c = s[0];
        let n = run_len(s, c);
        seq![TokenView::Indent(c, n)] + indent_toks(s.skip(n as int))
    } else {
        Seq::empty()
    }
}

#[via_fn]
proof fn indent_toks_dec(s: Seq<char>) {
    if s.len() > 0 && is_space_or_tab(s[0]) {
        lemma_scan_len_le(s, ScanKind::OneChar(s[0]));
    }
}

/// The token of the plain text at the front of `s`: the rest of the line,
/// trimmed; nothing if the trimmed residue is empty.
pub open spec fn plain_toks(s: Seq<char>) -> Seq<TokenView> {
    let t = trim_ws(s.take(line_len(s) as int));
    if t.len() > 0 {
        seq![TokenView::PlainText(t)]
    } else {
        Seq::empty()
    }
}

/// Tokens and consumed length of the `#id`/`.class`/doctype chain after a tag
/// position. A `!` opens a doctype only when two more follow; otherwise the
/// chain ends and nothing is consumed.
pub open spec fn attr_toks(s: Seq<char>) -> (Seq<TokenView>, nat)
    decreases s.len(),
    via attr_toks_dec
{
    if s.len() > 0 && s[0] == '#' {
        let name = ident_of(s.skip(1));
        let rest = attr_toks(s.skip(1 + name.len() as int));
        (seq![TokenView::Id(name)] + rest.0, 1 + name.len() + rest.1)
    } else if s.len() > 0 && s[0] == '.' {
        let name = ident_of(s.skip(1));
        let rest = attr_toks(s.skip(1 + name.len() as int));
        (seq![TokenView::Class(name)] + rest.0, 1 + name.len() + rest.1)
    } else if s.len() >= 3 && s[0] == '!' && s[1] == '!' && s[2] == '!' {
        (seq![TokenView::Doctype], 3)
    } else {
        (Seq::empty(), 0)
    }
}

#[via_fn]
proof fn attr_toks_dec(s: Seq<char>) {
    if s.len() > 0 && (s[0] == '#' || s[0] == '.') {
        lemma_scan_len_le(s.skip(1), ScanKind::Ident);
    }
}

/// Tokens and consumed length of the `%tag` prefix and its attribute chain.
pub open spec fn tag_toks(s: Seq<char>) -> (Seq<TokenView>, nat) {
    if s.len() > 0 && s[0] == '%' {
        let name = ident_of(s.skip(1));
        let rest = attr_toks(s.skip(1 + name.len() as int));
        (seq![TokenView::Tag(name)] + rest.0, 1 + name.len() + rest.1)
    } else {
        attr_toks(s)
    }
}

/// Tokens and consumed length of the `/` (self-closing) and `=` (assign) flags.
pub open spec fn flag_toks(s: Seq<char>) -> (Seq<TokenView>, nat) {
    let closing = s.len() > 0 && s[0] == '/';
    let s1 = if closing { s.skip(1) } else { s };
    let assign = s1.len() > 0 && s1[0] == '=';
    let ctoks: Seq<TokenView> = if closing { seq![TokenView::ClosingEmpty] } else { Seq::empty() };
    let atoks: Seq<TokenView> = if assign { seq![TokenView::Assign] } else { Seq::empty() };
    (ctoks + atoks, (if closing { 1nat } else { 0nat }) + (if assign { 1nat } else { 0nat }))
}

/// Tokens and consumed length of one line body, indentation already consumed:
/// an escape, a comment, or a tag chain with flags and plain text.
pub open spec fn body_toks(s: Seq<char>) -> (Seq<TokenView>, nat) {
    if s.len() > 0 && s[0] == '\\' {
        (plain_toks(s.skip(1)), 1 + line_len(s.skip(1)))
    } else if s.len() > 0 && s[0] == '/' {
        (seq![TokenView::HtmlComment] + plain_toks(s.skip(1)), 1 + line_len(s.skip(1)))
    } else if s.len() >= 2 && s[0] == '-' && s[1] == '#' {
        (seq![TokenView::HamlComment] + plain_toks(s.skip(2)), 2 + line_len(s.skip(2)))
    } else {
        let t = tag_toks(s);
        let s1 = s.skip(t.1 as int);
        let f = flag_toks(s1);
        let s2 = s1.skip(f.1 as int);
        (t.0 + f.0 + plain_toks(s2), t.1 + f.1 + line_len(s2))
    }
}

/// Characters one full line consumes, its closing newline excluded.
pub open spec fn line_consumed(s: Seq<char>) -> nat {
    ws_len(s) + body_toks(s.skip(ws_len(s) as int)).1
}

/// Whether lexing this line runs into the end of the input instead of a newline.
pub open spec fn line_hits_end(s: Seq<char>) -> bool {
    line_consumed(s) == s.len()
}

/// The tokens one line contributes, terminator and blank-line normalisation
/// included: a line whose body produced nothing keeps only its `Eol`.
pub open spec fn line_toks(s: Seq<char>) -> Seq<TokenView> {
    let body = body_toks(s.skip(ws_len(s) as int)).0;
    if line_hits_end(s) {
        indent_toks(s) + body + seq![TokenView::Eof]
    } else if body.len() == 0 {
        seq![TokenView::Eol]
    } else {
        indent_toks(s) + body + seq![TokenView::Eol]
    }
}

pub proof fn lemma_attr_consumed(s: Seq<char>)
    ensures
        attr_toks(s).1 <= s.len(),
    decreases s.len(),
{
    if s.len() > 0 && (s[0] == '#' || s[0] == '.') {
        let name = ident_of(s.skip(1));
        lemma_scan_len_le(s.skip(1), ScanKind::Ident);
        lemma_attr_consumed(s.skip(1 + name.len() as int));
    }
}

pub proof fn lemma_tag_consumed(s: Seq<char>)
    ensures
        tag_toks(s).1 <= s.len(),
{
    lemma_attr_consumed(s);
    if s.len() > 0 && s[0] == '%' {
        lemma_scan_len_le(s.skip(1), ScanKind::Ident);
        lemma_attr_consumed(s.skip(1 + ident_of(s.skip(1)).len() as int));
    }
}

/// The body consumes at most the whole input, and stops exactly at a newline
/// when it does not consume everything.
pub proof fn lemma_body_consumed(s: Seq<char>)
    ensures
        body_toks(s).1 <= s.len(),
        body_toks(s).1 < s.len() ==> s[body_toks(s).1 as int] == '\n',
{
    let nl = ScanKind::NotNewline;
    if s.len() > 0 && s[0] == '\\' {
        lemma_scan_len_chars(s.skip(1), nl);
    } else if s.len() > 0 && s[0] == '/' {
        lemma_scan_len_chars(s.skip(1), nl);
    } else if s.len() >= 2 && s[0] == '-' && s[1] == '#' {
        lemma_scan_len_chars(s.skip(2), nl);
    } else {
        let t = tag_toks(s);
        lemma_tag_consumed(s);
        let s1 = s.skip(t.1 as int);
        let f = flag_toks(s1);
        let s2 = s1.skip(f.1 as int);
        lemma_scan_len_chars(s2, nl);
        assert(s2 =~= s.skip((t.1 + f.1) as int));
    }
}

/// One line consumes at most the whole input, and stops exactly at a newline
/// when it does not consume everything.
pub proof fn lemma_line_consumed(s: Seq<char>)
    ensures
        line_consumed(s) <= s.len(),
        line_consumed(s) < s.len() ==> s[line_consumed(s) as int] == '\n',
{
    lemma_scan_len_le(s, ScanKind::Whitespace);
    let rest = s.skip(ws_len(s) as int);
    lemma_body_consumed(rest);
}

/// The token stream of the whole input: the lines in order, each closed by
/// `Eol`, the last by `Eof`.
pub open spec fn lex(s: Seq<char>) -> Seq<TokenView>
    decreases s.len(),
    via lex_dec
{
    if line_hits_end(s) {
        line_toks(s)
    } else {
        line_toks(s) + lex(s.skip(line_consumed(s) as int + 1))
    }
}

#[via_fn]
proof fn lex_dec(s: Seq<char>) {
    lemma_line_consumed(s);
}

/// A token that can stand in a line body: neither an `Indent` nor a terminator.
pub open spec fn is_line_tok(t: TokenView) -> bool {
    !(t is Indent) && !(t is Eol) && !(t is Eof)
}

/// A well-formed `Indent` token: a space or tab repeated at least once.
/// Other tokens are unconstrained.
pub open spec fn indent_tok_wf(t: TokenView) -> bool {
    match t {
        TokenView::Indent(c, n) => n >= 1 && is_space_or_tab(c),
        _ => true,
    }
}

/// The tokens of an attribute chain are body tokens.
pub proof fn lemma_attr_no_indent(s: Seq<char>)
    ensures
        forall|i: int| 0 <= i < attr_toks(s).0.len() ==> is_line_tok(attr_toks(s).0[i]),
    decreases s.len(),
{
    if s.len() > 0 && (s[0] == '#' || s[0] == '.') {
        let name = ident_of(s.skip(1));
        lemma_scan_len_le(s.skip(1), ScanKind::Ident);
        let rest = attr_toks(s.skip(1 + name.len() as int));
        lemma_attr_no_indent(s.skip(1 + name.len() as int));
        assert forall|i: int| 0 <= i < attr_toks(s).0.len() implies is_line_tok(
            attr_toks(s).0[i],
        ) by {
            if i > 0 {
                assert(attr_toks(s).0[i] == rest.0[i - 1]);
            }
        }
    }
}

/// The tokens of one line body are neither `Indent` tokens nor terminators.
pub proof fn lemma_body_no_indent(s: Seq<char>)
    ensures
        forall|i: int| 0 <= i < body_toks(s).0.len() ==> is_line_tok(body_toks(s).0[i]),
{
    if s.len() > 0 && (s[0] == '\\' || s[0] == '/') {
    } else if s.len() >= 2 && s[0] == '-' && s[1] == '#' {
    } else {
        lemma_attr_no_indent(s);
        if s.len() > 0 && s[0] == '%' {
            lemma_attr_no_indent(s.skip(1 + ident_of(s.skip(1)).len() as int));
        }
    }
}

/// Every token of a leading indentation is a well-formed `Indent` token.
pub proof fn lemma_indent_all_indent(s: Seq<char>)
    ensures
        forall|i: int| 0 <= i < indent_toks(s).len() ==> indent_toks(s)[i] is Indent
            && indent_tok_wf(indent_toks(s)[i]),
    decreases s.len(),
{
    if s.len() > 0 && is_space_or_tab(s[0]) {
        let n = run_len(s, s[0]);
        lemma_scan_len_le(s, ScanKind::OneChar(s[0]));
        lemma_indent_all_indent(s.skip(n as int));
    }
}

/// The trailing run of `Indent` tokens removed: what blank-line normalisation
/// leaves of the token buffer.
pub open spec fn strip_trailing_indents(ts: Seq<TokenView>) -> Seq<TokenView>
    decreases ts.len(),
{
    if ts.len() > 0 && (ts.last() is Indent) {
        strip_trailing_indents(ts.drop_last())
    } else {
        ts
    }
}

/// Appending only `Indent` tokens does not change the normalised buffer.
pub proof fn lemma_strip_app_indents(ts: Seq<TokenView>, us: Seq<TokenView>)
    requires
        forall|i: int| 0 <= i < us.len() ==> us[i] is Indent,
    ensures
        strip_trailing_indents(ts + us) == strip_trailing_indents(ts),
    decreases us.len(),
{
    if us.len() == 0 {
        assert(ts + us =~= ts);
    } else {
        assert((ts + us).last() == us.last());
        assert((ts + us).drop_last() =~= ts + us.drop_last());
        lemma_strip_app_indents(ts, us.drop_last());
    }
}

// ---------------------------------------------------------------------------
// The lexer itself.
// ---------------------------------------------------------------------------

/// One-line-at-a-time tokeniser over a character stream.
pub struct Lexer {
    pub input: InputReader,
    pub tokens: Vec<Token>,
}

/// What lexing one line reports: another line follows, a diagnostic, or the
/// end of the input.
pub enum LexResult {
    Proceed,
    Fault(String),
    End,
}

impl Lexer {
    /// The token values produced so far.
    pub open spec fn toks(&self) -> Seq<TokenView> {
        self.tokens@.map_values(|t: Token| t@)
    }

    /// The characters still to be read.
    pub open spec fn stream(&self) -> Seq<char> {
        self.input.stream()
    }

    pub open spec fn wf(&self) -> bool {
        self.input.load() <= usize::MAX
    }

    pub fn new(input: InputReader) -> (r: Lexer)
        ensures
            r.input == input,
            r.toks() == Seq::<TokenView>::empty(),
    {
        let r = Lexer { input, tokens: Vec::new() };
        proof {
            assert(r.toks() =~= Seq::<TokenView>::empty());
        }
        r
    }

    /// Consume the next character if it is `c`; otherwise leave the stream as it was.
    fn next_is(&mut self, c: char) -> (r: bool)
        requires
            old(self).wf(),
        ensures
            final(self).wf(),
            final(self).input.load() <= old(self).input.load(),
            final(self).tokens == old(self).tokens,
            r == (old(self).stream().len() > 0 && old(self).stream()[0] == c),
            r ==> final(self).stream() == old(self).stream().skip(1) && final(self).input.load()
                < old(self).input.load(),
            !r ==> final(self).stream() == old(self).stream(),
    {
        match self.input.get() {
            Some(next_c) => {
                if next_c == c {
                    true
                } else {
                    self.input.unget(next_c);
                    proof {
                        assert(seq![next_c] + old(self).stream().skip(1) =~= old(self).stream());
                    }
                    false
                }
            },
            None => {
                self.input.unget_eof();
                false
            },
        }
    }

    /// Consume the maximal run of the character `c`; if it was non-empty, emit
    /// an `Indent` token carrying `c` and the run length.
    fn get_all(&mut self, c: char) -> (r: bool)
        requires
            old(self).wf(),
        ensures
            final(self).wf(),
            final(self).input.load() <= old(self).input.load(),
            ({
                let n = run_len(old(self).stream(), c);
                &&& final(self).stream() == old(self).stream().skip(n as int)
                &&& r == (n > 0)
                &&& final(self).toks() == if n > 0 {
                    old(self).toks().push(TokenView::Indent(c, n))
                } else {
                    old(self).toks()
                }
                &&& n == 0 ==> final(self).stream() == old(self).stream()
            }),
    {
        let ghost s0 = old(self).stream();
        proof {
            let ir = old(self).input;
            if ir.eof {
                assert(s0 == ir.pushback@);
            } else {
                assert(s0 == ir.pushback@ + ir.source@);
                assert(s0.len() == ir.pushback@.len() + ir.source@.len());
            }
            assert(s0.len() <= usize::MAX);
        }
        let mut len: usize = 0;
        loop
            invariant
                self.wf(),
                self.input.load() <= old(self).input.load(),
                self.tokens == old(self).tokens,
                s0.len() <= usize::MAX,
                len <= s0.len(),
                self.stream() == s0.skip(len as int),
                forall|i: int| 0 <= i < len ==> s0[i] == c,
            ensures
                self.wf(),
                self.input.load() <= old(self).input.load(),
                self.tokens == old(self).tokens,
                len <= s0.len(),
                self.stream() == s0.skip(len as int),
                forall|i: int| 0 <= i < len ==> s0[i] == c,
                self.stream().len() == 0 || self.stream()[0] != c,
            decreases s0.len() - len,
        {
            match self.input.get() {
                Some(next_c) => {
                    if next_c == c {
                        proof {
                            assert(s0.skip(len as int)[0] == s0[len as int]);
                            assert(s0.skip(len as int).skip(1) =~= s0.skip(len as int + 1));
                        }
                        len = len + 1;
                    } else {
                        self.input.unget(next_c);
                        proof {
                            assert(seq![next_c] + self.stream().skip(1) =~= s0.skip(len as int));
                        }
                        break ;
                    }
                },
                None => {
                    self.input.unget_eof();
                    break ;
                },
            }
        }
        proof {
            lemma_scan_len_split(s0, ScanKind::OneChar(c), len as nat);
            assert(s0.skip(0) =~= s0);
        }
        if len > 0 {
            self.tokens.push(Token::Indent(c, len));
            proof {
                assert(self.toks() =~= old(self).toks().push(TokenView::Indent(c, len as nat)));
            }
            true
        } else {
            false
        }
    }

    /// Consume the leading indentation, emitting one `Indent` token per run of
    /// a single whitespace kind.
    fn handle_indent(&mut self)
        requires
            old(self).wf(),
        ensures
            final(self).wf(),
            final(self).input.load() <= old(self).input.load(),
            final(self).stream() == old(self).stream().skip(ws_len(old(self).stream()) as int),
            final(self).toks() == old(self).toks() + indent_toks(old(self).stream()),
    {
        let ghost s0 = old(self).stream();
        
        let ghost mut done: int = 0;
        loop
            invariant
                self.wf(),
                self.input.load() <= old(self).input.load(),
                0 <= done <= s0.len(),
                self.stream() == s0.skip(done),
                ws_len(s0) == done + ws_len(self.stream()),
                old(self).toks() + indent_toks(s0) == self.toks() + indent_toks(self.stream()),
            ensures
                self.wf(),
                self.input.load() <= old(self).input.load(),
                0 <= done <= s0.len(),
                self.stream() == s0.skip(done),
                ws_len(s0) == done + ws_len(self.stream()),
                old(self).toks() + indent_toks(s0) == self.toks() + indent_toks(self.stream()),
                ws_len(self.stream()) == 0,
            decreases s0.len() - done,
        {
            let ghost cur = self.stream();
            let ghost prev_toks = self.toks();
            let got_space = self.get_all(' ');
            if got_space {
                proof {
                    let n = run_len(cur, ' ');
                    lemma_scan_len_chars(cur, ScanKind::OneChar(' '));
                    lemma_scan_len_split(cur, ScanKind::Whitespace, n);
                    assert(indent_toks(cur) == seq![TokenView::Indent(' ', n)] + indent_toks(
                        cur.skip(n as int),
                    ));
                    assert(prev_toks.push(TokenView::Indent(' ', n)) + indent_toks(self.stream())
                        =~= prev_toks + indent_toks(cur));
                    assert(s0.skip(done).skip(n as int) =~= s0.skip(done + n));
                    done = done + n;
                }
            } else {
                let got_tab = self.get_all('\t');
                if got_tab {
                    proof {
                        assert(cur.skip(0) =~= cur);
                        let n = run_len(cur, '\t');
                        lemma_scan_len_chars(cur, ScanKind::OneChar('\t'));
                        lemma_scan_len_split(cur, ScanKind::Whitespace, n);
                        assert(indent_toks(cur) == seq![TokenView::Indent('\t', n)] + indent_toks(
                            cur.skip(n as int),
                        ));
                        assert(prev_toks.push(TokenView::Indent('\t', n)) + indent_toks(
                            self.stream(),
                        ) =~= prev_toks + indent_toks(cur));
                        assert(s0.skip(done).skip(n as int) =~= s0.skip(done + n));
                        done = done + n;
                    }
                } else {
                    proof {
                        assert(ws_len(self.stream()) == 0);
                    }
                    break ;
                }
            }
        }
        proof {
            assert(indent_toks(self.stream()) =~= Seq::<TokenView>::empty());
            assert(final(self).toks() =~= old(self).toks() + indent_toks(s0));
        }
    }

    /// Read the identifier at the front of the stream: its maximal run of
    /// letters, digits, `-` and `_`. The empty identifier is permitted.
    fn handle_identifier(&mut self) -> (r: String)
        requires
            old(self).wf(),
        ensures
            final(self).wf(),
            final(self).input.load() <= old(self).input.load(),
            final(self).tokens == old(self).tokens,
            r@ == ident_of(old(self).stream()),
            final(self).stream() == old(self).stream().skip(
                ident_len(old(self).stream()) as int,
            ),
    {
        let ghost s0 = old(self).stream();
        let mut name = String::new();
        let ghost mut done: int = 0;
        loop
            invariant
                self.wf(),
                self.input.load() <= old(self).input.load(),
                self.tokens == old(self).tokens,
                0 <= done <= s0.len(),
                self.stream() == s0.skip(done),
                name@ == s0.take(done),
                forall|i: int| 0 <= i < done ==> is_ident_char(s0[i]),
            ensures
                self.wf(),
                self.input.load() <= old(self).input.load(),
                self.tokens == old(self).tokens,
                0 <= done <= s0.len(),
                self.stream() == s0.skip(done),
                name@ == s0.take(done),
                forall|i: int| 0 <= i < done ==> is_ident_char(s0[i]),
                self.stream().len() == 0 || !is_ident_char(self.stream()[0]),
            decreases s0.len() - done,
        {
            match self.input.get() {
                Some(c) => {
                    if c.is_alphanumeric() || c == '-' || c == '_' {
                        name.push(c);
                        proof {
                            assert(s0.skip(done)[0] == s0[done]);
                            assert(s0.skip(done).skip(1) =~= s0.skip(done + 1));
                            assert(s0.take(done).push(s0[done]) =~= s0.take(done + 1));
                            done = done + 1;
                        }
                    } else {
                        self.input.unget(c);
                        proof {
                            assert(seq![c] + self.stream().skip(1) =~= s0.skip(done));
                        }
                        break ;
                    }
                },
                None => {
                    self.input.unget_eof();
                    break ;
                },
            }
        }
        proof {
            lemma_scan_len_split(s0, ScanKind::Ident, done as nat);
        }
        name
    }

    /// Remove the `Indent` tokens at the tail of the buffer: indentation that
    /// sat on a whitespace-only line is erased retroactively.
    fn check_blankline(&mut self)
        ensures
            final(self).input == old(self).input,
            final(self).toks() == strip_trailing_indents(old(self).toks()),
    {
        loop
            invariant
                self.input == old(self).input,
                strip_trailing_indents(old(self).toks()) == strip_trailing_indents(self.toks()),
            ensures
                self.input == old(self).input,
                strip_trailing_indents(old(self).toks()) == strip_trailing_indents(self.toks()),
                self.toks().len() == 0 || !(self.toks().last() is Indent),
            decreases self.tokens.len(),
        {
            if self.tokens.len() == 0 {
                break ;
            }
            let is_indent = match &self.tokens[self.tokens.len() - 1] {
                Token::Indent(_, _) => true,
                _ => false,
            };
            if !is_indent {
                proof {
                    assert(self.toks().last() == self.tokens@.last()@);
                }
                break ;
            }
            let ghost prev = self.toks();
            self.tokens.pop();
            proof {
                assert(prev.last() is Indent);
                assert(self.toks() =~= prev.drop_last());
            }
        }
    }

    /// Consume the rest of the line, strip leading and trailing whitespace,
    /// and emit a `PlainText` token if anything remains.
    fn handle_plain_text(&mut self)
        requires
            old(self).wf(),
        ensures
            final(self).wf(),
            final(self).input.load() <= old(self).input.load(),
            final(self).stream() == old(self).stream().skip(line_len(old(self).stream()) as int),
            final(self).toks() == old(self).toks() + plain_toks(old(self).stream()),
    {
        let ghost s0 = old(self).stream();
        proof {
            crate::input_reader::lemma_stream_len_le_load(old(self).input);
        }
        let mut buf: Vec<char> = Vec::new();
        let ghost mut done: int = 0;
        loop
            invariant
                self.wf(),
                self.input.load() <= old(self).input.load(),
                self.tokens == old(self).tokens,
                s0.len() <= usize::MAX,
                0 <= done <= s0.len(),
                self.stream() == s0.skip(done),
                buf@ == s0.take(done),
                forall|i: int| 0 <= i < done ==> s0[i] != '\n',
            ensures
                self.wf(),
                self.input.load() <= old(self).input.load(),
                self.tokens == old(self).tokens,
                0 <= done <= s0.len(),
                self.stream() == s0.skip(done),
                buf@ == s0.take(done),
                forall|i: int| 0 <= i < done ==> s0[i] != '\n',
                self.stream().len() == 0 || self.stream()[0] == '\n',
            decreases s0.len() - done,
        {
            match self.input.get() {
                Some(c) => {
                    if c == '\n' {
                        self.input.unget(c);
                        proof {
                            assert(seq![c] + self.stream().skip(1) =~= s0.skip(done));
                        }
                        break ;
                    }
                    buf.push(c);
                    proof {
                        assert(s0.skip(done)[0] == s0[done]);
                        assert(s0.skip(done).skip(1) =~= s0.skip(done + 1));
                        assert(s0.take(done).push(s0[done]) =~= s0.take(done + 1));
                        done = done + 1;
                    }
                },
                None => {
                    self.input.unget_eof();
                    break ;
                },
            }
        }
        proof {
            lemma_scan_len_split(s0, ScanKind::NotNewline, done as nat);
            assert(line_len(s0) == done);
        }
        let mut start: usize = 0;
        while start < buf.len() && (buf[start] == ' ' || buf[start] == '\t')
            invariant
                0 <= start <= buf.len(),
                forall|i: int| 0 <= i < start ==> is_space_or_tab(buf@[i]),
            decreases buf.len() - start,
        {
            start = start + 1;
        }
        proof {
            lemma_scan_len_split(buf@, ScanKind::Whitespace, start as nat);
            assert(ws_len(buf@) == start);
        }
        let mut end: usize = buf.len();
        while end > start && (buf[end - 1] == ' ' || buf[end - 1] == '\t')
            invariant
                start <= end <= buf.len(),
                forall|i: int| end <= i < buf.len() ==> is_space_or_tab(buf@[i]),
            decreases end,
        {
            end = end - 1;
        }
        proof {
            lemma_strip_trailing_at(buf@.skip(start as int), end - start);
            assert(trim_ws(buf@) == buf@.skip(start as int).take(end - start));
        }
        let mut content = String::new();
        let mut i: usize = start;
        while i < end
            invariant
                start <= i <= end,
                end <= buf.len(),
                content@ == buf@.subrange(start as int, i as int),
            decreases end - i,
        {
            let c = buf[i];
            content.push(c);
            proof {
                assert(buf@.subrange(start as int, i as int).push(buf@[i as int]) =~= buf@.subrange(
                    start as int,
                    i + 1,
                ));
            }
            i = i + 1;
        }
        proof {
            assert(content@ =~= buf@.skip(start as int).take(end - start));
            assert(content@ == trim_ws(s0.take(line_len(s0) as int)));
        }
        if end > start {
            self.tokens.push(Token::PlainText(content));
            proof {
                assert(self.toks() =~= old(self).toks() + plain_toks(s0));
            }
        } else {
            proof {
                assert(trim_ws(s0.take(line_len(s0) as int)).len() == 0);
                assert(old(self).toks() + plain_toks(s0) =~= old(self).toks());
            }
        }
    }

    /// Recognise a `/` or `-#` comment prefix; on a hit, the rest of the line
    /// is the comment's plain text.
    fn handle_comments(&mut self) -> (r: bool)
        requires
            old(self).wf(),
        ensures
            final(self).wf(),
            final(self).input.load() <= old(self).input.load(),
            ({
                let s = old(self).stream();
                if s.len() > 0 && s[0] == '/' {
                    &&& r
                    &&& final(self).toks() == old(self).toks() + seq![TokenView::HtmlComment]
                        + plain_toks(s.skip(1))
                    &&& final(self).stream() == s.skip(1 + line_len(s.skip(1)) as int)
                } else if s.len() >= 2 && s[0] == '-' && s[1] == '#' {
                    &&& r
                    &&& final(self).toks() == old(self).toks() + seq![TokenView::HamlComment]
                        + plain_toks(s.skip(2))
                    &&& final(self).stream() == s.skip(2 + line_len(s.skip(2)) as int)
                } else {
                    &&& !r
                    &&& final(self).toks() == old(self).toks()
                    &&& final(self).stream() == s
                }
            }),
    {
        let ghost s0 = old(self).stream();
        match self.input.get() {
            Some('-') => {
                match self.input.get() {
                    Some('#') => {
                        self.tokens.push(Token::HamlComment);
                        proof {
                            assert(self.stream() =~= s0.skip(2));
                            assert(self.toks() =~= old(self).toks() + seq![
                                TokenView::HamlComment,
                            ]);
                        }
                        let ghost mid = self.toks();
                        self.handle_plain_text();
                        proof {
                            lemma_scan_len_le(s0.skip(2), ScanKind::NotNewline);
                            assert(s0.skip(2).skip(line_len(s0.skip(2)) as int) =~= s0.skip(
                                2 + line_len(s0.skip(2)) as int,
                            ));
                            assert(mid + plain_toks(s0.skip(2)) =~= old(self).toks() + seq![
                                TokenView::HamlComment,
                            ] + plain_toks(s0.skip(2)));
                        }
                        true
                    },
                    Some(c2) => {
                        self.input.unget(c2);
                        self.input.unget('-');
                        proof {
                            assert(seq![c2] + s0.skip(2) =~= s0.skip(1));
                            assert(seq!['-'] + s0.skip(1) =~= s0);
                        }
                        false
                    },
                    None => {
                        self.input.unget_eof();
                        proof {
                            crate::input_reader::lemma_empty_stream_pushback(self.input);
                        }
                        self.input.unget('-');
                        proof {
                            assert(seq!['-'] + Seq::<char>::empty() =~= s0);
                        }
                        false
                    },
                }
            },
            Some('/') => {
                self.tokens.push(Token::HtmlComment);
                proof {
                    assert(self.stream() =~= s0.skip(1));
                    assert(self.toks() =~= old(self).toks() + seq![TokenView::HtmlComment]);
                }
                let ghost mid = self.toks();
                self.handle_plain_text();
                proof {
                    lemma_scan_len_le(s0.skip(1), ScanKind::NotNewline);
                    assert(s0.skip(1).skip(line_len(s0.skip(1)) as int) =~= s0.skip(
                        1 + line_len(s0.skip(1)) as int,
                    ));
                    assert(mid + plain_toks(s0.skip(1)) =~= old(self).toks() + seq![
                        TokenView::HtmlComment,
                    ] + plain_toks(s0.skip(1)));
                }
                true
            },
            Some(c) => {
                self.input.unget(c);
                proof {
                    assert(seq![c] + s0.skip(1) =~= s0);
                }
                false
            },
            None => {
                self.input.unget_eof();
                proof {
                    crate::input_reader::lemma_empty_stream_pushback(self.input);
                    assert(self.stream() =~= s0);
                }
                false
            },
        }
    }

    /// After a first `!` was consumed, recognise `!!!` as a doctype; on
    /// failure, put every consumed `!` back.
    fn handle_doctype(&mut self)
        requires
            old(self).wf(),
            old(self).input.load() < usize::MAX,
        ensures
            final(self).wf(),
            final(self).input.load() <= old(self).input.load() + 1,
            ({
                let s = old(self).stream();
                if s.len() >= 2 && s[0] == '!' && s[1] == '!' {
                    &&& final(self).toks() == old(self).toks().push(TokenView::Doctype)
                    &&& final(self).stream() == s.skip(2)
                } else {
                    &&& final(self).toks() == old(self).toks()
                    &&& final(self).stream() == seq!['!'] + s
                }
            }),
    {
        let ghost s0 = old(self).stream();
        if self.next_is('!') {
            if self.next_is('!') {
                self.tokens.push(Token::Doctype);
                proof {
                    assert(self.stream() =~= s0.skip(2));
                    assert(self.toks() =~= old(self).toks().push(TokenView::Doctype));
                }
            } else {
                self.input.unget('!');
                self.input.unget('!');
                proof {
                    assert(seq!['!'] + (seq!['!'] + s0.skip(1)) =~= seq!['!'] + s0);
                }
            }
        } else {
            self.input.unget('!');
        }
    }

    /// `%tag` and its `#id`/`.class`/doctype chain.
    #[verifier::rlimit(100)]
    fn handle_tag(&mut self)
        requires
            old(self).wf(),
        ensures
            final(self).wf(),
            final(self).input.load() <= old(self).input.load(),
            final(self).toks() == old(self).toks() + tag_toks(old(self).stream()).0,
            final(self).stream() == old(self).stream().skip(tag_toks(old(self).stream()).1 as int),
    {
        let ghost s0 = old(self).stream();
        let ghost mut done: int = 0;
        if self.next_is('%') {
            let identifier = self.handle_identifier();
            self.tokens.push(Token::Tag(identifier));
            proof {
                lemma_scan_len_le(s0.skip(1), ScanKind::Ident);
                assert(s0.skip(1).skip(ident_len(s0.skip(1)) as int) =~= s0.skip(
                    1 + ident_len(s0.skip(1)) as int,
                ));
                assert(self.toks() =~= old(self).toks() + seq![
                    TokenView::Tag(ident_of(s0.skip(1))),
                ]);
                done = 1 + ident_len(s0.skip(1)) as int;
            }
        } else {
            proof {
                assert(s0.skip(0) =~= s0);
            }
        }
        proof {
            assert(self.stream() == s0.skip(done));
            if s0.len() > 0 && s0[0] == '%' {
                assert(old(self).toks() + tag_toks(s0).0 =~= self.toks() + attr_toks(
                    self.stream(),
                ).0);
            } else {
                assert(old(self).toks() + tag_toks(s0).0 =~= self.toks() + attr_toks(
                    self.stream(),
                ).0);
            }
        }
        loop
            invariant_except_break
                self.wf(),
                self.input.load() <= old(self).input.load(),
                0 <= done <= s0.len(),
                self.stream() == s0.skip(done),
                old(self).toks() + tag_toks(s0).0 == self.toks() + attr_toks(self.stream()).0,
                tag_toks(s0).1 == done + attr_toks(self.stream()).1,
            ensures
                self.wf(),
                self.input.load() <= old(self).input.load(),
                self.toks() == old(self).toks() + tag_toks(s0).0,
                self.stream() == s0.skip(tag_toks(s0).1 as int),
            decreases s0.len() - done,
        {
            let ghost cur = self.stream();
            let ghost pre_toks = self.toks();
            match self.input.get() {
                Some('!') => {
                    self.handle_doctype();
                    proof {
                        if cur.len() >= 3 && cur[1] == '!' && cur[2] == '!' {
                            assert(cur.skip(1)[0] == '!' && cur.skip(1)[1] == '!');
                            assert(cur.skip(1).skip(2) =~= s0.skip(done + 3));
                            assert(attr_toks(cur) == (seq![TokenView::Doctype], 3nat));
                            assert(pre_toks + seq![TokenView::Doctype] =~= pre_toks.push(
                                TokenView::Doctype,
                            ));
                            assert(self.toks() =~= old(self).toks() + tag_toks(s0).0);
                        } else {
                            assert(!(cur.skip(1).len() >= 2 && cur.skip(1)[0] == '!' && cur.skip(
                                1,
                            )[1] == '!'));
                            assert(seq!['!'] + cur.skip(1) =~= cur);
                            assert(attr_toks(cur) == (Seq::<TokenView>::empty(), 0nat));
                            assert(self.toks() =~= old(self).toks() + tag_toks(s0).0);
                        }
                    }
                    break ;
                },
                Some('#') => {
                    let name = self.handle_identifier();
                    self.tokens.push(Token::Id(name));
                    proof {
                        let rest = cur.skip(1);
                        lemma_scan_len_le(rest, ScanKind::Ident);
                        assert(rest.skip(ident_len(rest) as int) =~= cur.skip(
                            1 + ident_len(rest) as int,
                        ));
                        assert(self.stream() == cur.skip(1 + ident_len(rest) as int));
                        assert(cur.skip(1 + ident_len(rest) as int) =~= s0.skip(
                            done + 1 + ident_len(rest),
                        ));
                        assert(self.toks() =~= pre_toks.push(TokenView::Id(ident_of(rest))));
                        assert(attr_toks(cur).0 == seq![TokenView::Id(ident_of(rest))]
                            + attr_toks(cur.skip(1 + ident_len(rest) as int)).0);
                        assert(pre_toks.push(TokenView::Id(ident_of(rest))) + attr_toks(
                            self.stream(),
                        ).0 =~= pre_toks + attr_toks(cur).0);
                        done = done + 1 + ident_len(rest) as int;
                    }
                },
                Some('.') => {
                    let name = self.handle_identifier();
                    self.tokens.push(Token::Class(name));
                    proof {
                        let rest = cur.skip(1);
                        lemma_scan_len_le(rest, ScanKind::Ident);
                        assert(rest.skip(ident_len(rest) as int) =~= cur.skip(
                            1 + ident_len(rest) as int,
                        ));
                        assert(self.stream() == cur.skip(1 + ident_len(rest) as int));
                        assert(cur.skip(1 + ident_len(rest) as int) =~= s0.skip(
                            done + 1 + ident_len(rest),
                        ));
                        assert(self.toks() =~= pre_toks.push(TokenView::Class(ident_of(rest))));
                        assert(attr_toks(cur).0 == seq![TokenView::Class(ident_of(rest))]
                            + attr_toks(cur.skip(1 + ident_len(rest) as int)).0);
                        assert(pre_toks.push(TokenView::Class(ident_of(rest))) + attr_toks(
                            self.stream(),
                        ).0 =~= pre_toks + attr_toks(cur).0);
                        done = done + 1 + ident_len(rest) as int;
                    }
                },
                Some(c_next) => {
                    self.input.unget(c_next);
                    proof {
                        assert(seq![c_next] + cur.skip(1) =~= cur);
                        assert(attr_toks(cur) == (Seq::<TokenView>::empty(), 0nat));
                        assert(self.toks() =~= old(self).toks() + tag_toks(s0).0);
                    }
                    break ;
                },
                None => {
                    self.input.unget_eof();
                    proof {
                        crate::input_reader::lemma_empty_stream_pushback(self.input);
                        assert(self.stream() =~= cur);
                        assert(attr_toks(cur) == (Seq::<TokenView>::empty(), 0nat));
                        assert(self.toks() =~= old(self).toks() + tag_toks(s0).0);
                    }
                    break ;
                },
            }
        }
    }

    /// An escaped line: a leading backslash makes the rest plain text.
    fn handle_escape_line(&mut self)
        requires
            old(self).wf(),
        ensures
            final(self).wf(),
            final(self).input.load() <= old(self).input.load(),
            ({
                let s = old(self).stream();
                if s.len() > 0 && s[0] == '\\' {
                    &&& final(self).toks() == old(self).toks() + plain_toks(s.skip(1))
                    &&& final(self).stream() == s.skip(1 + line_len(s.skip(1)) as int)
                } else {
                    &&& final(self).toks() == old(self).toks()
                    &&& final(self).stream() == s
                }
            }),
    {
        let ghost s0 = old(self).stream();
        if self.next_is('\\') {
            self.handle_plain_text();
            proof {
                lemma_scan_len_le(s0.skip(1), ScanKind::NotNewline);
                assert(s0.skip(1).skip(line_len(s0.skip(1)) as int) =~= s0.skip(
                    1 + line_len(s0.skip(1)) as int,
                ));
            }
        }
    }

    /// An `=` at the current position becomes an `Assign` token.
    fn handle_assign(&mut self)
        requires
            old(self).wf(),
        ensures
            final(self).wf(),
            final(self).input.load() <= old(self).input.load(),
            ({
                let s = old(self).stream();
                if s.len() > 0 && s[0] == '=' {
                    &&& final(self).toks() == old(self).toks().push(TokenView::Assign)
                    &&& final(self).stream() == s.skip(1)
                } else {
                    &&& final(self).toks() == old(self).toks()
                    &&& final(self).stream() == s
                }
            }),
    {
        if self.next_is('=') {
            self.tokens.push(Token::Assign);
            proof {
                assert(self.toks() =~= old(self).toks().push(TokenView::Assign));
            }
        }
    }

    /// A `/` at the current position closes the element: a `ClosingEmpty` token.
    fn handle_empty_tag(&mut self)
        requires
            old(self).wf(),
        ensures
            final(self).wf(),
            final(self).input.load() <= old(self).input.load(),
            ({
                let s = old(self).stream();
                if s.len() > 0 && s[0] == '/' {
                    &&& final(self).toks() == old(self).toks().push(TokenView::ClosingEmpty)
                    &&& final(self).stream() == s.skip(1)
                } else {
                    &&& final(self).toks() == old(self).toks()
                    &&& final(self).stream() == s
                }
            }),
    {
        if self.next_is('/') {
            self.tokens.push(Token::ClosingEmpty);
            proof {
                assert(self.toks() =~= old(self).toks().push(TokenView::ClosingEmpty));
            }
        }
    }

    /// Lex one line body, the indentation already consumed: an escape, a
    /// comment, or a tag chain with flags and plain text.
    #[verifier::rlimit(100)]
    fn lex_body(&mut self)
        requires
            old(self).wf(),
        ensures
            final(self).wf(),
            final(self).input.load() <= old(self).input.load(),
            final(self).toks() == old(self).toks() + body_toks(old(self).stream()).0,
            final(self).stream() == old(self).stream().skip(
                body_toks(old(self).stream()).1 as int,
            ),
    {
        let ghost sb = old(self).stream();
        let ghost toks1 = old(self).toks();
        self.handle_escape_line();
        let ghost st_e = self.stream();
        let com = self.handle_comments();
        if !com {
            self.handle_tag();
            let ghost st_t = self.stream();
            self.handle_empty_tag();
            let ghost st_c1 = self.stream();
            self.handle_assign();
            let ghost st_c2 = self.stream();
            self.handle_plain_text();
            proof {
                if sb.len() > 0 && sb[0] == '\\' {
                    // the escape consumed the whole line; everything after was a no-op
                    lemma_scan_len_chars(sb.skip(1), ScanKind::NotNewline);
                    assert(st_e.len() == 0 || st_e[0] == '\n');
                    assert(st_t =~= st_e);
                    assert(st_e.take(0) =~= Seq::<char>::empty());
                    assert(Seq::<char>::empty().skip(0) =~= Seq::<char>::empty());
                    assert(plain_toks(st_e) == Seq::<TokenView>::empty());
                    assert(self.stream() =~= st_e);
                    assert(self.toks() =~= toks1 + body_toks(sb).0);
                    assert(self.stream() == sb.skip(body_toks(sb).1 as int));
                } else {
                    let t = tag_toks(sb);
                    let s1 = sb.skip(t.1 as int);
                    let f = flag_toks(s1);
                    let s2 = s1.skip(f.1 as int);
                    lemma_tag_consumed(sb);
                    assert(st_t == s1);
                    let closing = s1.len() > 0 && s1[0] == '/';
                    let s1a = if closing { s1.skip(1) } else { s1 };
                    assert(st_c1 == s1a);
                    let assign = s1a.len() > 0 && s1a[0] == '=';
                    if closing {
                        if assign {
                            assert(s1.skip(1).skip(1) =~= s1.skip(2));
                        }
                    } else {
                        assert(s1.skip(0) =~= s1);
                    }
                    assert(st_c2 == s1.skip(f.1 as int));
                    assert(self.stream() == s2.skip(line_len(s2) as int));
                    lemma_scan_len_le(s2, ScanKind::NotNewline);
                    assert(s2.skip(line_len(s2) as int) =~= sb.skip(
                        (t.1 + f.1 + line_len(s2)) as int,
                    ));
                    assert(self.toks() =~= toks1 + (t.0 + f.0 + plain_toks(s2)));
                    assert(self.toks() == toks1 + body_toks(sb).0);
                    assert(self.stream() == sb.skip(body_toks(sb).1 as int));
                }
            }
        } else {
            proof {
                if sb.len() > 0 && sb[0] == '\\' {
                    lemma_scan_len_chars(sb.skip(1), ScanKind::NotNewline);
                    assert(st_e.len() == 0 || st_e[0] == '\n');
                    assert(false);
                }
                assert(st_e == sb);
                if sb.len() > 0 && sb[0] == '/' {
                    assert(self.toks() =~= toks1 + body_toks(sb).0);
                    assert(self.stream() == sb.skip(body_toks(sb).1 as int));
                } else {
                    assert(sb.len() >= 2 && sb[0] == '-' && sb[1] == '#');
                    assert(self.toks() =~= toks1 + body_toks(sb).0);
                    assert(self.stream() == sb.skip(body_toks(sb).1 as int));
                }
            }
        }
    }

    /// Lex one line: indentation, body, and the line terminator, with
    /// blank-line normalisation before each `Eol`.
    #[verifier::rlimit(100)]
    fn lex_line(&mut self) -> (r: LexResult)
        requires
            old(self).wf(),
            old(self).toks().len() == 0 || !(old(self).toks().last() is Indent),
        ensures
            final(self).wf(),
            final(self).input.load() <= old(self).input.load(),
            final(self).toks() == old(self).toks() + line_toks(old(self).stream()),
            line_hits_end(old(self).stream()) ==> final(self).stream().len() == 0 && (r is End),
            !line_hits_end(old(self).stream()) ==> final(self).stream() == old(self).stream().skip(
                line_consumed(old(self).stream()) as int + 1,
            ) && (r is Proceed),
            final(self).toks().len() > 0,
            !(final(self).toks().last() is Indent),
    {
        let ghost s0 = old(self).stream();
        self.handle_indent();
        let ghost sb = s0.skip(ws_len(s0) as int);
        let ghost toks1 = self.toks();
        proof {
            lemma_scan_len_le(s0, ScanKind::Whitespace);
        }
        self.lex_body();
        let ghost bd = body_toks(sb);
        proof {
            lemma_body_consumed(sb);
            assert(self.stream() =~= s0.skip(line_consumed(s0) as int));
            lemma_line_consumed(s0);
        }
        match self.input.get() {
            Some(_) => {
                let ghost toks_b = self.toks();
                self.check_blankline();
                proof {
                    if bd.0.len() > 0 {
                        lemma_body_no_indent(sb);
                        assert(toks_b =~= toks1 + bd.0);
                        assert(toks_b.last() == bd.0.last());
                        assert(!(toks_b.last() is Indent));
                        assert(strip_trailing_indents(toks_b) == toks_b);
                    } else {
                        assert(toks_b =~= old(self).toks() + indent_toks(s0));
                        lemma_indent_all_indent(s0);
                        lemma_strip_app_indents(old(self).toks(), indent_toks(s0));
                        assert(strip_trailing_indents(old(self).toks()) == old(self).toks());
                        assert(self.toks() == old(self).toks());
                    }
                }
                self.tokens.push(Token::Eol);
                proof {
                    assert(!line_hits_end(s0));
                    if bd.0.len() > 0 {
                        assert(self.toks() =~= toks_b.push(TokenView::Eol));
                        assert(line_toks(s0) == indent_toks(s0) + bd.0 + seq![TokenView::Eol]);
                        assert(toks_b.push(TokenView::Eol) =~= old(self).toks() + (indent_toks(s0)
                            + bd.0 + seq![TokenView::Eol]));
                    } else {
                        assert(self.toks() =~= old(self).toks().push(TokenView::Eol));
                        assert(line_toks(s0) == seq![TokenView::Eol]);
                        assert(old(self).toks().push(TokenView::Eol) =~= old(self).toks() + seq![
                            TokenView::Eol,
                        ]);
                    }
                    assert(self.stream() =~= s0.skip(line_consumed(s0) as int + 1));
                    assert(self.toks().last() == TokenView::Eol);
                }
                LexResult::Proceed
            },
            None => {
                self.tokens.push(Token::Eof);
                proof {
                    assert(line_hits_end(s0));
                    assert(self.toks() =~= (toks1 + bd.0).push(TokenView::Eof));
                    assert(line_toks(s0) == indent_toks(s0) + bd.0 + seq![TokenView::Eof]);
                    assert((toks1 + bd.0).push(TokenView::Eof) =~= old(self).toks() + (indent_toks(
                        s0,
                    ) + bd.0 + seq![TokenView::Eof]));
                    assert(self.toks().last() == TokenView::Eof);
                }
                LexResult::End
            },
        }
    }

    /// Lex the whole input; the token stream produced is `lex` of the stream.
    pub fn execute(&mut self) -> (r: Vec<Token>)
        requires
            old(self).wf(),
            old(self).toks().len() == 0 || old(self).toks().last() is Eol,
        ensures
            final(self).toks() == old(self).toks() + lex(old(self).stream()),
            r@.map_values(|t: Token| t@) == final(self).toks(),
    {
        loop
            invariant_except_break
                self.wf(),
                self.toks().len() == 0 || !(self.toks().last() is Indent),
                old(self).toks() + lex(old(self).stream()) == self.toks() + lex(self.stream()),
            ensures
                self.toks() == old(self).toks() + lex(old(self).stream()),
            decreases self.stream().len(),
        {
            let ghost pre_toks = self.toks();
            let ghost pre_stream = self.stream();
            match self.lex_line() {
                LexResult::Proceed => {
                    proof {
                        lemma_line_consumed(pre_stream);
                        assert(lex(pre_stream) == line_toks(pre_stream) + lex(
                            pre_stream.skip(line_consumed(pre_stream) as int + 1),
                        ));
                        assert(pre_toks + (line_toks(pre_stream) + lex(self.stream())) =~= (
                        pre_toks + line_toks(pre_stream)) + lex(self.stream()));
                    }
                },
                LexResult::Fault(_) => {
                    proof {
                        assert(false);
                    }
                    break ;
                },
                LexResult::End => {
                    proof {
                        assert(lex(pre_stream) == line_toks(pre_stream));
                    }
                    break ;
                },
            }
        }
        let mut out: Vec<Token> = Vec::new();
        let mut i: usize = 0;
        while i < self.tokens.len()
            invariant
                i <= self.tokens.len(),
                out@.len() == i,
                forall|j: int| 0 <= j < i ==> out@[j]@ == self.tokens@[j]@,
            decreases self.tokens.len() - i,
        {
            let t = self.tokens[i].duplicate();
            out.push(t);
            i = i + 1;
        }
        proof {
            assert(out@.map_values(|t: Token| t@) =~= self.toks());
        }
        out
    }
}

/// Where a trailing-whitespace scan ended, the stripped sequence is the prefix
/// up to that point.
proof fn lemma_strip_trailing_at(y: Seq<char>, j: int)
    requires
        0 <= j <= y.len(),
        forall|i: int| j <= i < y.len() ==> is_space_or_tab(y[i]),
        j > 0 ==> !is_space_or_tab(y[j - 1]),
    ensures
        strip_trailing_ws(y) == y.take(j),
    decreases y.len(),
{
    if y.len() > 0 && is_space_or_tab(y.last()) {
        assert(j < y.len());
        assert(forall|i: int| j <= i < y.drop_last().len() ==> is_space_or_tab(
            y.drop_last()[i],
        ));
        lemma_strip_trailing_at(y.drop_last(), j);
        assert(y.drop_last().take(j) =~= y.take(j));
    } else {
        assert(j == y.len());
        assert(y.take(j) =~= y);
    }
}

/// The tokens one line contributes hold exactly one terminator, and it comes
/// last: an `Eof` when the line ran into the end of the input, an `Eol`
/// otherwise. Every other token of the line is an `Indent` or a body token,
/// and the `Indent` tokens are well formed.
pub proof fn lemma_line_toks_shape(s: Seq<char>)
    ensures
        line_toks(s).len() > 0,
        line_hits_end(s) ==> line_toks(s).last() is Eof,
        !line_hits_end(s) ==> line_toks(s).last() is Eol,
        forall|i: int| 0 <= i < line_toks(s).len() - 1 ==> !(line_toks(s)[i] is Eof) && !(
        line_toks(s)[i] is Eol) && indent_tok_wf(line_toks(s)[i]),
        forall|i: int|
            0 <= i < line_toks(s).len() - 1 && (#[trigger] line_toks(s)[i] is Indent)
                && !line_hits_end(s) ==> !(line_toks(s)[i + 1] is Eol),
{
    let sb = s.skip(ws_len(s) as int);
    let body = body_toks(sb).0;
    let ind = indent_toks(s);
    lemma_indent_all_indent(s);
    lemma_body_no_indent(sb);
    if line_hits_end(s) {
        assert(line_toks(s) == ind + body + seq![TokenView::Eof]);
        assert forall|i: int| 0 <= i < line_toks(s).len() - 1 implies !(line_toks(s)[i] is Eof)
            && !(line_toks(s)[i] is Eol) && indent_tok_wf(line_toks(s)[i]) by {
            if i < ind.len() {
                assert(line_toks(s)[i] == ind[i]);
            } else {
                assert(line_toks(s)[i] == body[i - ind.len()]);
            }
        }
    } else if body.len() == 0 {
        assert(line_toks(s) == seq![TokenView::Eol]);
    } else {
        assert(line_toks(s) == ind + body + seq![TokenView::Eol]);
        assert forall|i: int| 0 <= i < line_toks(s).len() - 1 implies !(line_toks(s)[i] is Eof)
            && !(line_toks(s)[i] is Eol) && indent_tok_wf(line_toks(s)[i]) by {
            if i < ind.len() {
                assert(line_toks(s)[i] == ind[i]);
            } else {
                assert(line_toks(s)[i] == body[i - ind.len()]);
            }
        }
        assert forall|i: int|
            0 <= i < line_toks(s).len() - 1 && (#[trigger] line_toks(s)[i] is Indent) implies !(
        line_toks(s)[i + 1] is Eol) by {
            if i < ind.len() {
                if i + 1 < ind.len() {
                    assert(line_toks(s)[i + 1] == ind[i + 1]);
                } else {
                    assert(line_toks(s)[i + 1] == body[0]);
                }
            } else {
                assert(line_toks(s)[i] == body[i - ind.len()]);
            }
        }
    }
}

/// The token stream ends with exactly one `Eof`: it is the last token and
/// occurs nowhere else; `Eol` terminates every earlier line; every `Indent`
/// token repeats a space or tab at least once.
pub proof fn lemma_lex_terminators(s: Seq<char>)
    ensures
        lex(s).len() > 0,
        lex(s).last() is Eof,
        forall|i: int| 0 <= i < lex(s).len() - 1 ==> !(lex(s)[i] is Eof),
        forall|i: int| 0 <= i < lex(s).len() ==> indent_tok_wf(lex(s)[i]),
    decreases s.len(),
{
    lemma_line_toks_shape(s);
    lemma_line_consumed(s);
    if !line_hits_end(s) {
        let rest = s.skip(line_consumed(s) as int + 1);
        lemma_lex_terminators(rest);
        let line = line_toks(s);
        assert(lex(s) == line + lex(rest));
        assert forall|i: int| 0 <= i < lex(s).len() - 1 implies !(lex(s)[i] is Eof) by {
            if i < line.len() {
                assert(lex(s)[i] == line[i]);
                if i == line.len() - 1 {
                    assert(line[i] is Eol);
                } else {
                    assert(!(line[i] is Eof));
                }
            } else {
                assert(lex(s)[i] == lex(rest)[i - line.len()]);
            }
        }
        assert forall|i: int| 0 <= i < lex(s).len() implies indent_tok_wf(lex(s)[i]) by {
            if i < line.len() {
                if i == line.len() - 1 {
                    assert(line[i] is Eol);
                } else {
                    assert(indent_tok_wf(line[i]));
                }
            } else {
                assert(lex(s)[i] == lex(rest)[i - line.len()]);
            }
        }
    }
}

/// A blank-only line leaves a bare `Eol`: no `Indent` token immediately
/// precedes an `Eol` anywhere in the token stream.
pub proof fn lemma_lex_no_indent_before_eol(s: Seq<char>)
    ensures
        forall|i: int|
            0 <= i < lex(s).len() - 1 && (#[trigger] lex(s)[i] is Indent) ==> !(lex(s)[i + 1]
                is Eol),
    decreases s.len(),
{
    lemma_line_toks_shape(s);
    lemma_line_consumed(s);
    if !line_hits_end(s) {
        let rest = s.skip(line_consumed(s) as int + 1);
        lemma_lex_no_indent_before_eol(rest);
        lemma_lex_terminators(rest);
        let line = line_toks(s);
        assert(lex(s) == line + lex(rest));
        assert forall|i: int|
            0 <= i < lex(s).len() - 1 && (#[trigger] lex(s)[i] is Indent) implies !(lex(s)[i + 1]
            is Eol) by {
            if i < line.len() {
                assert(lex(s)[i] == line[i]);
                if i == line.len() - 1 {
                    assert(line[i] is Eol);
                } else if i + 1 < line.len() {
                    assert(lex(s)[i + 1] == line[i + 1]);
                } else {
                    // the token after the line's closing Eol: not reachable,
                    // since line[line.len() - 1] is the Eol itself
                    assert(line[i] is Eol);
                }
            } else {
                assert(lex(s)[i] == lex(rest)[i - line.len()]);
                assert(lex(s)[i + 1] == lex(rest)[i + 1 - line.len()]);
            }
        }
    }
}

} // verus!
