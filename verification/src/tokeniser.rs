//! Character tokeniser for grammar source text.
//!
//! The input is scanned left to right; runs of whitespace and `#`-prefixed
//! line comments are skipped, single characters `( ) , | ;` become punctuation
//! tokens, and maximal runs of alphanumeric or underscore characters become
//! identifiers.  Alphanumeric means Unicode-alphanumeric: within ASCII that
//! is exactly the letters and digits, and beyond ASCII the standard library's
//! classification decides.  Any other character yields an `UnexpectedChar`
//! error token covering exactly that character; scanning continues after it.
//!
//! Every token carries a source span.  Line and column counters are exact up
//! to a deliberate ceiling (65535 lines, 255 columns or characters per token);
//! past the ceiling a span's fields saturate.

use vstd::prelude::*;

verus! {

/// A position in the source text: lines down and characters across, both
/// counted from zero, saturating at their ceilings.
#[derive(Clone, Copy, Debug, PartialEq, Eq, Structural)]
pub struct SourceLoc {
    pub line: u16,
    pub col: u8,
}

/// The source span of one token: the line it starts on, the column of its
/// first character, and its length in characters.  Fields saturate at the
/// ceilings of their widths.
#[derive(Clone, Copy, Debug, PartialEq, Eq, Structural)]
pub struct TokenSpan {
    pub line: u16,
    pub startchar: u8,
    pub length: u8,
}

/// One grammar token.
#[derive(Debug)]
pub enum GTokenKind {
    Ident { name: String },
    /// `(`
    LPar,
    /// `)`
    RPar,
    /// `,`
    Comma,
    /// `|`
    Bar,
    /// `;`, the rule terminator
    Colon,
}

/// Tokenisation error: a character that starts neither a punctuation token
/// nor an identifier.
#[derive(Debug, Clone, Copy, PartialEq, Eq, Structural)]
pub enum GTokenError {
    UnexpectedChar,
}

/// Mathematical image of a token: an identifier's name as a character
/// sequence.
pub enum TokenV {
    Ident { name: Seq<char> },
    LPar,
    RPar,
    Comma,
    Bar,
    Colon,
}

impl View for GTokenKind {
    type V = TokenV;

    open spec fn view(&self) -> TokenV {
        match self {
            GTokenKind::Ident { name } => TokenV::Ident { name: name@ },
            GTokenKind::LPar => TokenV::LPar,
            GTokenKind::RPar => TokenV::RPar,
            GTokenKind::Comma => TokenV::Comma,
            GTokenKind::Bar => TokenV::Bar,
            GTokenKind::Colon => TokenV::Colon,
        }
    }
}

/// Whitespace skipped between tokens.
pub open spec fn is_ws_char(c: char) -> bool {
    c == ' ' || c == '\t' || c == '\n'
}

/// Whether a character beyond ASCII is alphanumeric: the standard
/// library's Unicode classification, named here because its tables are not
/// restated.  Within ASCII `is_ident_char` spells the classification out.
pub uninterp spec fn is_alnum(c: char) -> bool;

/// Characters that may form an identifier: `_` and the alphanumerics —
/// within ASCII the letters and digits, beyond ASCII whatever the standard
/// library classifies as alphanumeric.
pub open spec fn is_ident_char(c: char) -> bool {
    c == '_' || (48 <= c as u32 && c as u32 <= 57) || (97 <= c as u32 && c as u32 <= 122) || (65
        <= c as u32 && c as u32 <= 90) || (c as u32 >= 128 && is_alnum(c))
}

/// Ghost cursor while scanning: index into the character sequence, and the
/// unsaturated line and column that index falls on.
pub struct LocV {
    pub pos: int,
    pub line: int,
    pub col: int,
}

/// The cursor at the start of the input.
pub open spec fn loc_start() -> LocV {
    LocV { pos: 0, line: 0, col: 0 }
}

/// The cursor one character further: a newline moves to the start of the
/// next line, any other character moves one column across.
pub open spec fn loc_step(s: Seq<char>, l: LocV) -> LocV {
    if 0 <= l.pos < s.len() && s[l.pos] == '\n' {
        LocV { pos: l.pos + 1, line: l.line + 1, col: 0 }
    } else {
        LocV { pos: l.pos + 1, line: l.line, col: l.col + 1 }
    }
}

/// The cursor after skipping whitespace and `#`-prefixed line comments;
/// `in_comment` tells whether the cursor currently stands inside a comment.
pub open spec fn spec_skip(s: Seq<char>, l: LocV, in_comment: bool) -> LocV
    decreases s.len() - l.pos,
{
    if l.pos < 0 || l.pos >= s.len() {
        l
    } else if in_comment {
        spec_skip(s, loc_step(s, l), s[l.pos] != '\n')
    } else if is_ws_char(s[l.pos]) {
        spec_skip(s, loc_step(s, l), false)
    } else if s[l.pos] == '#' {
        spec_skip(s, loc_step(s, l), true)
    } else {
        l
    }
}

/// The cursor after the maximal run of identifier characters.
pub open spec fn spec_scan_ident(s: Seq<char>, l: LocV) -> LocV
    decreases s.len() - l.pos,
{
    if 0 <= l.pos < s.len() && is_ident_char(s[l.pos]) {
        spec_scan_ident(s, loc_step(s, l))
    } else {
        l
    }
}

pub open spec fn sat_u16(x: int) -> u16 {
    if x > 65535 {
        65535u16
    } else if x < 0 {
        0u16
    } else {
        x as u16
    }
}

pub open spec fn sat_u8(x: int) -> u8 {
    if x > 255 {
        255u8
    } else if x < 0 {
        0u8
    } else {
        x as u8
    }
}

/// The span of a token of length `len` starting at line `line`, column `col`,
/// with each field saturated at the ceiling of its width.
pub open spec fn spec_span(line: int, col: int, len: int) -> TokenSpan {
    TokenSpan { line: sat_u16(line), startchar: sat_u8(col), length: sat_u8(len) }
}

/// The next token (or error, or end of input) from cursor `l0`, and the
/// cursor after it.
pub open spec fn spec_next_token(s: Seq<char>, l0: LocV) -> (Option<
    (Result<TokenV, GTokenError>, TokenSpan),
>, LocV) {
    let l = spec_skip(s, l0, false);
    if l.pos < 0 || l.pos >= s.len() {
        (None, l)
    } else {
        let c = s[l.pos];
        if c == ',' {
            (Some((Ok(TokenV::Comma), spec_span(l.line, l.col, 1))), loc_step(s, l))
        } else if c == '(' {
            (Some((Ok(TokenV::LPar), spec_span(l.line, l.col, 1))), loc_step(s, l))
        } else if c == ')' {
            (Some((Ok(TokenV::RPar), spec_span(l.line, l.col, 1))), loc_step(s, l))
        } else if c == '|' {
            (Some((Ok(TokenV::Bar), spec_span(l.line, l.col, 1))), loc_step(s, l))
        } else if c == ';' {
            (Some((Ok(TokenV::Colon), spec_span(l.line, l.col, 1))), loc_step(s, l))
        } else if is_ident_char(c) {
            let l2 = spec_scan_ident(s, l);
            (
                Some(
                    (
                        Ok(TokenV::Ident { name: s.subrange(l.pos, l2.pos) }),
                        spec_span(l.line, l.col, l2.pos - l.pos),
                    ),
                ),
                l2,
            )
        } else {
            (Some((Err(GTokenError::UnexpectedChar), spec_span(l.line, l.col, 1))), loc_step(s, l))
        }
    }
}

proof fn lemma_skip_bounds(s: Seq<char>, l: LocV, in_comment: bool)
    requires
        0 <= l.pos <= s.len(),
    ensures
        l.pos <= spec_skip(s, l, in_comment).pos <= s.len(),
    decreases s.len() - l.pos,
{
    if l.pos < s.len() {
        if in_comment {
            lemma_skip_bounds(s, loc_step(s, l), s[l.pos] != '\n');
        } else if is_ws_char(s[l.pos]) {
            lemma_skip_bounds(s, loc_step(s, l), false);
        } else if s[l.pos] == '#' {
            lemma_skip_bounds(s, loc_step(s, l), true);
        }
    }
}

proof fn lemma_scan_bounds(s: Seq<char>, l: LocV)
    requires
        0 <= l.pos <= s.len(),
    ensures
        l.pos <= spec_scan_ident(s, l).pos <= s.len(),
    decreases s.len() - l.pos,
{
    if l.pos < s.len() && is_ident_char(s[l.pos]) {
        lemma_scan_bounds(s, loc_step(s, l));
    }
}

/// After a produced token the cursor has strictly advanced; after end of
/// input it stands within bounds.
pub proof fn lemma_next_token_bounds(s: Seq<char>, l: LocV)
    requires
        0 <= l.pos <= s.len(),
    ensures
        spec_next_token(s, l).1.pos <= s.len(),
        spec_next_token(s, l).0 is Some ==> l.pos < spec_next_token(s, l).1.pos,
        spec_next_token(s, l).0 is None ==> l.pos <= spec_next_token(s, l).1.pos,
{
    lemma_skip_bounds(s, l, false);
    let l1 = spec_skip(s, l, false);
    if 0 <= l1.pos < s.len() && is_ident_char(s[l1.pos]) {
        lemma_scan_bounds(s, loc_step(s, l1));
    }
}

/// The sequence of tokens (and error tokens) with their spans from cursor
/// `l` to the end of the input.
pub open spec fn spec_tokens_from(s: Seq<char>, l: LocV) -> Seq<
    (Result<TokenV, GTokenError>, TokenSpan),
>
    decreases s.len() - l.pos,
    when 0 <= l.pos <= s.len()
    via spec_tokens_from_dec
{
    let (t, l2) = spec_next_token(s, l);
    match t {
        None => seq![],
        Some(tk) => seq![tk] + spec_tokens_from(s, l2),
    }
}

#[via_fn]
proof fn spec_tokens_from_dec(s: Seq<char>, l: LocV) {
    lemma_next_token_bounds(s, l);
}

/// The tokens of a whole input text.
pub open spec fn spec_tokens(s: Seq<char>) -> Seq<(Result<TokenV, GTokenError>, TokenSpan)> {
    spec_tokens_from(s, loc_start())
}

pub open spec fn res_view(r: Result<GTokenKind, GTokenError>) -> Result<TokenV, GTokenError> {
    match r {
        Ok(k) => Ok(k@),
        Err(e) => Err(e),
    }
}

pub open spec fn opt_tok_view(r: Option<(Result<GTokenKind, GTokenError>, TokenSpan)>) -> Option<
    (Result<TokenV, GTokenError>, TokenSpan),
> {
    match r {
        None => None,
        Some((t, sp)) => Some((res_view(t), sp)),
    }
}

pub open spec fn tokens_view(s: Seq<(Result<GTokenKind, GTokenError>, TokenSpan)>) -> Seq<
    (Result<TokenV, GTokenError>, TokenSpan),
> {
    s.map_values(|p: (Result<GTokenKind, GTokenError>, TokenSpan)| (res_view(p.0), p.1))
}

/// Relies on char::is_alphanumeric: whether a character is alphanumeric —
/// Unicode Alphabetic or a Number — depends on the character alone.
#[verifier::external_body]
fn alnum_char(c: char) -> (r: bool)
    ensures
        r == is_alnum(c),
{
    c.is_alphanumeric()
}

fn ident_char(c: char) -> (b: bool)
    ensures
        b == is_ident_char(c),
{
    let u = c as u32;
    if c == '_' || (48 <= u && u <= 57) || (97 <= u && u <= 122) || (65 <= u && u <= 90) {
        true
    } else if u >= 128 {
        alnum_char(c)
    } else {
        false
    }
}

fn mk_span(line: usize, col: usize, len: usize) -> (r: TokenSpan)
    ensures
        r == spec_span(line as int, col as int, len as int),
{
    TokenSpan {
        line: if line > 65535 {
            65535
        } else {
            line as u16
        },
        startchar: if col > 255 {
            255
        } else {
            col as u8
        },
        length: if len > 255 {
            255
        } else {
            len as u8
        },
    }
}

/// A cursor over grammar source text that hands out one token at a time.
pub struct TokenStream<'a> {
    src: &'a str,
    n: usize,
    pos: usize,
    line: usize,
    col: usize,
}

impl<'a> TokenStream<'a> {
    /// The text this stream scans.
    pub closed spec fn input(&self) -> Seq<char> {
        self.src@
    }

    /// The current cursor.
    pub closed spec fn loc(&self) -> LocV {
        LocV { pos: self.pos as int, line: self.line as int, col: self.col as int }
    }

    pub closed spec fn wf(&self) -> bool {
        self.n == self.src@.len() && self.pos <= self.n && self.col <= self.pos && self.line
            <= self.pos
    }

    pub fn new(src: &'a str) -> (r: Self)
        ensures
            r.wf(),
            r.input() == src@,
            r.loc() == loc_start(),
    {
        let n = src.unicode_len();
        TokenStream { src, n, pos: 0, line: 0, col: 0 }
    }

    /// The current position, saturated to its ceilings.
    pub fn cursor(&self) -> (r: SourceLoc)
        ensures
            r.line == sat_u16(self.loc().line),
            r.col == sat_u8(self.loc().col),
    {
        SourceLoc {
            line: if self.line > 65535 {
                65535
            } else {
                self.line as u16
            },
            col: if self.col > 255 {
                255
            } else {
                self.col as u8
            },
        }
    }

    fn advance(&mut self)
        requires
            old(self).wf(),
            old(self).pos < old(self).n,
        ensures
            final(self).wf(),
            final(self).src == old(self).src,
            final(self).loc() == loc_step(old(self).input(), old(self).loc()),
    {
        let c = self.src.get_char(self.pos);
        if c == '\n' {
            self.line = self.line + 1;
            self.col = 0;
        } else {
            self.col = self.col + 1;
        }
        self.pos = self.pos + 1;
    }

    fn skip_trivia(&mut self)
        requires
            old(self).wf(),
        ensures
            final(self).wf(),
            final(self).src == old(self).src,
            final(self).loc() == spec_skip(old(self).input(), old(self).loc(), false),
            old(self).pos <= final(self).pos,
    {
        let mut in_comment = false;
        loop
            invariant
                self.wf(),
                self.src == old(self).src,
                old(self).pos <= self.pos,
                spec_skip(self.input(), self.loc(), in_comment) == spec_skip(
                    old(self).input(),
                    old(self).loc(),
                    false,
                ),
            ensures
                self.wf(),
                self.src == old(self).src,
                old(self).pos <= self.pos,
                self.loc() == spec_skip(old(self).input(), old(self).loc(), false),
            decreases self.n - self.pos,
        {
            if self.pos >= self.n {
                break ;
            }
            let c = self.src.get_char(self.pos);
            if in_comment {
                self.advance();
                in_comment = c != '\n';
            } else if c == ' ' || c == '\t' || c == '\n' {
                self.advance();
            } else if c == '#' {
                self.advance();
                in_comment = true;
            } else {
                break ;
            }
        }
    }

    /// The next token with its span, an error token for an unexpected
    /// character, or `None` at the end of the input.
    pub fn next_token(&mut self) -> (r: Option<(Result<GTokenKind, GTokenError>, TokenSpan)>)
        requires
            old(self).wf(),
        ensures
            final(self).wf(),
            final(self).input() == old(self).input(),
            opt_tok_view(r) == spec_next_token(old(self).input(), old(self).loc()).0,
            final(self).loc() == spec_next_token(old(self).input(), old(self).loc()).1,
            r is Some ==> old(self).loc().pos < final(self).loc().pos,
    {
        proof {
            lemma_next_token_bounds(self.input(), self.loc());
        }
        self.skip_trivia();
        if self.pos >= self.n {
            return None;
        }
        let line0 = self.line;
        let col0 = self.col;
        let c = self.src.get_char(self.pos);
        if c == ',' {
            self.advance();
            Some((Ok(GTokenKind::Comma), mk_span(line0, col0, 1)))
        } else if c == '(' {
            self.advance();
            Some((Ok(GTokenKind::LPar), mk_span(line0, col0, 1)))
        } else if c == ')' {
            self.advance();
            Some((Ok(GTokenKind::RPar), mk_span(line0, col0, 1)))
        } else if c == '|' {
            self.advance();
            Some((Ok(GTokenKind::Bar), mk_span(line0, col0, 1)))
        } else if c == ';' {
            self.advance();
            Some((Ok(GTokenKind::Colon), mk_span(line0, col0, 1)))
        } else if ident_char(c) {
            let start = self.pos;
            let ghost l_start = self.loc();
            loop
                invariant
                    self.wf(),
                    self.src == old(self).src,
                    start <= self.pos,
                    spec_scan_ident(self.input(), self.loc()) == spec_scan_ident(
                        self.input(),
                        l_start,
                    ),
                ensures
                    self.wf(),
                    self.src == old(self).src,
                    start <= self.pos <= self.n,
                    self.loc() == spec_scan_ident(self.input(), l_start),
                decreases self.n - self.pos,
            {
                if self.pos >= self.n {
                    break ;
                }
                let c2 = self.src.get_char(self.pos);
                if ident_char(c2) {
                    self.advance();
                } else {
                    break ;
                }
            }
            let name_str = self.src.substring_char(start, self.pos);
            let name = name_str.to_owned();
            Some((Ok(GTokenKind::Ident { name }), mk_span(line0, col0, self.pos - start)))
        } else {
            self.advance();
            Some((Err(GTokenError::UnexpectedChar), mk_span(line0, col0, 1)))
        }
    }
}

/// The text of one token: an identifier's name, or the punctuation
/// character it stands for.
pub open spec fn token_text(t: TokenV) -> Seq<char> {
    match t {
        TokenV::Ident { name } => name,
        TokenV::LPar => "("@,
        TokenV::RPar => ")"@,
        TokenV::Comma => ","@,
        TokenV::Bar => "|"@,
        TokenV::Colon => ";"@,
    }
}

impl GTokenKind {
    /// The token's text.
    pub fn as_str(&self) -> (r: &str)
        ensures
            r@ == token_text(self@),
    {
        match self {
            GTokenKind::Ident { name } => name.as_str(),
            GTokenKind::LPar => "(",
            GTokenKind::RPar => ")",
            GTokenKind::Comma => ",",
            GTokenKind::Bar => "|",
            GTokenKind::Colon => ";",
        }
    }
}

/// All tokens of `src`, in order, errors included.
pub fn tokenise(src: &str) -> (r: Vec<(Result<GTokenKind, GTokenError>, TokenSpan)>)
    ensures
        tokens_view(r@) == spec_tokens(src@),
{
    let mut ts = TokenStream::new(src);
    let mut out: Vec<(Result<GTokenKind, GTokenError>, TokenSpan)> = Vec::new();
    loop
        invariant
            ts.wf(),
            ts.input() == src@,
            0 <= ts.loc().pos <= src@.len(),
            spec_tokens(src@) == tokens_view(out@) + spec_tokens_from(src@, ts.loc()),
        ensures
            spec_tokens(src@) == tokens_view(out@),
        decreases src@.len() - ts.loc().pos,
    {
        let ghost l_before = ts.loc();
        match ts.next_token() {
            None => {
                proof {
                    assert(spec_tokens_from(src@, l_before) =~= Seq::<
                        (Result<TokenV, GTokenError>, TokenSpan),
                    >::empty());
                    assert(tokens_view(out@) + spec_tokens_from(src@, l_before) =~= tokens_view(
                        out@,
                    ));
                    assert(spec_tokens_from(src@, ts.loc()) =~= Seq::<
                        (Result<TokenV, GTokenError>, TokenSpan),
                    >::empty());
                    assert(tokens_view(out@) + spec_tokens_from(src@, ts.loc()) =~= tokens_view(
                        out@,
                    ));
                }
                break ;
            },
            Some(t) => {
                proof {
                    lemma_next_token_bounds(src@, l_before);
                }
                out.push(t);
                proof {
                    let stf = spec_tokens_from(src@, l_before);
                    let (st, l2) = spec_next_token(src@, l_before);
                    assert(stf =~= seq![st->Some_0] + spec_tokens_from(src@, l2));
                    assert(tokens_view(out@) =~= tokens_view(out@.drop_last()) + seq![
                        (res_view(t.0), t.1),
                    ]);
                    assert(tokens_view(out@) + spec_tokens_from(src@, ts.loc())
                        =~= tokens_view(out@.drop_last()) + stf);
                }
            },
        }
    }
    out
}

} // verus!
