use vstd::prelude::*;

verus! {

use vstd::string::StrSliceExecFns;

// ---------------------------------------------------------------------------
// Tokens, locations, errors.
// ---------------------------------------------------------------------------

/// One token of the surface language. `Name` borrows its spelling from the
/// source text; interning happens later, while the tree is built.
#[derive(Debug, Eq, PartialEq, Clone)]
pub enum Token<'a> {
    Input,
    Output,
    Comma,
    Indent,
    Unindent,
    Return,
    Def,
    Colon,
    Name(&'a str),
    OpenParen,
    CloseParen,
    While,
    NotEqualZero,
    PlusEqualOne,
    MinusEqualOne,
    Equal,
}

/// The mathematical shape of a token: the spelling as a character sequence.
pub enum TokenModel {
    Input,
    Output,
    Comma,
    Indent,
    Unindent,
    Return,
    Def,
    Colon,
    Name(Seq<char>),
    OpenParen,
    CloseParen,
    While,
    NotEqualZero,
    PlusEqualOne,
    MinusEqualOne,
    Equal,
}

impl<'a> DeepView for Token<'a> {
    type V = TokenModel;

    open spec fn deep_view(&self) -> TokenModel {
        match self {
            Token::Input => TokenModel::Input,
            Token::Output => TokenModel::Output,
            Token::Comma => TokenModel::Comma,
            Token::Indent => TokenModel::Indent,
            Token::Unindent => TokenModel::Unindent,
            Token::Return => TokenModel::Return,
            Token::Def => TokenModel::Def,
            Token::Colon => TokenModel::Colon,
            Token::Name(s) => TokenModel::Name(s@),
            Token::OpenParen => TokenModel::OpenParen,
            Token::CloseParen => TokenModel::CloseParen,
            Token::While => TokenModel::While,
            Token::NotEqualZero => TokenModel::NotEqualZero,
            Token::PlusEqualOne => TokenModel::PlusEqualOne,
            Token::MinusEqualOne => TokenModel::MinusEqualOne,
            Token::Equal => TokenModel::Equal,
        }
    }
}

/// A source position: 1-based line and column, plus the offset from the
/// start of the input.
#[derive(Debug, Eq, PartialEq, Clone, Copy, Default, Structural)]
pub struct Location {
    pub line: usize,
    pub col: usize,
    pub pos: usize,
}

impl DeepView for Location {
    type V = Location;

    open spec fn deep_view(&self) -> Location {
        *self
    }
}

#[derive(Debug, Eq, PartialEq, Clone, Copy, Structural)]
pub enum LexerErrorKind {
    TabIndent,
    Unrecognized,
}

/// A fatal lexing fault at a position: a tab used for indentation, or a
/// character sequence no token starts with.
#[derive(Debug, Eq, PartialEq, Clone, Copy, Structural)]
pub struct LexerError {
    pub position: Location,
    pub kind: LexerErrorKind,
}

impl DeepView for LexerError {
    type V = LexerError;

    open spec fn deep_view(&self) -> LexerError {
        *self
    }
}

impl LexerError {
    fn new(position: Location, kind: LexerErrorKind) -> (r: Self)
        ensures
            r == (LexerError { position, kind }),
    {
        LexerError { kind, position }
    }
}

/// What one call of the lexer yields: a token with its half-open span, or
/// an error.
pub type Spanned<Tok, Loc, Error> = Result<(Loc, Tok, Loc), Error>;

pub type LexerResult<'input> = Spanned<Token<'input>, Location, LexerError>;

/// The mathematical shape of one yielded item.
pub type LexItem = Result<(Location, TokenModel, Location), LexerError>;

/// The model of one exec item.
pub open spec fn item_view(r: LexerResult<'_>) -> LexItem {
    match r {
        Ok((a, t, b)) => Ok((a, t.deep_view(), b)),
        Err(e) => Err(e),
    }
}

/// The models of a buffered item sequence.
pub open spec fn items_view(s: Seq<LexerResult<'_>>) -> Seq<LexItem> {
    Seq::new(s.len(), |k: int| item_view(s[k]))
}

// ---------------------------------------------------------------------------
// Character classes and keywords.
// ---------------------------------------------------------------------------

/// The characters that end an identifier.
pub open spec fn spec_is_separator(c: char) -> bool {
    c == ':' || c == ',' || c == ' ' || c == '\n' || c == '\t' || c == '\r' || c == '(' || c == ')'
        || c == '!' || c == '+' || c == '-' || c == '#' || c == '='
}

fn is_separator(c: char) -> (r: bool)
    ensures
        r == spec_is_separator(c),
{
    match c {
        ':' | ',' | ' ' | '\n' | '\t' | '\r' | '(' | ')' | '!' | '+' | '-' | '#' | '=' => true,
        _ => false,
    }
}

/// The token a single character maps to, if any.
pub open spec fn spec_single_char_token(c: char) -> Option<TokenModel> {
    if c == ':' {
        Some(TokenModel::Colon)
    } else if c == ',' {
        Some(TokenModel::Comma)
    } else if c == '(' {
        Some(TokenModel::OpenParen)
    } else if c == ')' {
        Some(TokenModel::CloseParen)
    } else if c == '=' {
        Some(TokenModel::Equal)
    } else {
        None
    }
}

fn single_char_token<'a>(c: char) -> (r: Option<Token<'a>>)
    ensures
        match r {
            Some(t) => spec_single_char_token(c) == Some(t.deep_view()),
            None => spec_single_char_token(c) is None,
        },
{
    match c {
        ':' => Some(Token::Colon),
        ',' => Some(Token::Comma),
        '(' => Some(Token::OpenParen),
        ')' => Some(Token::CloseParen),
        '=' => Some(Token::Equal),
        _ => None,
    }
}

/// Classifies a scanned word against the fixed keyword set; anything else
/// is a name.
pub open spec fn spec_from_lexeme(s: Seq<char>) -> TokenModel {
    if s == "while"@ {
        TokenModel::While
    } else if s == "input"@ {
        TokenModel::Input
    } else if s == "output"@ {
        TokenModel::Output
    } else if s == "def"@ {
        TokenModel::Def
    } else if s == "return"@ {
        TokenModel::Return
    } else {
        TokenModel::Name(s)
    }
}

/// Compares two string slices character by character.
fn str_eq_chars(a: &str, b: &str) -> (r: bool)
    ensures
        r == (a@ == b@),
{
    let alen = a.unicode_len();
    let blen = b.unicode_len();
    if alen != blen {
        return false;
    }
    let mut k: usize = 0;
    while k < alen
        invariant
            a@.len() == alen,
            b@.len() == blen,
            alen == blen,
            k <= alen,
            forall|j: int| 0 <= j < k ==> a@[j] == b@[j],
        decreases alen - k,
    {
        if a.get_char(k) != b.get_char(k) {
            return false;
        }
        k += 1;
    }
    proof {
        assert(a@ =~= b@);
    }
    true
}

impl<'a> Token<'a> {
    fn from_lexeme(lexeme: &'a str) -> (r: Token<'a>)
        ensures
            r.deep_view() == spec_from_lexeme(lexeme@),
    {
        if str_eq_chars(lexeme, "while") {
            Token::While
        } else if str_eq_chars(lexeme, "input") {
            Token::Input
        } else if str_eq_chars(lexeme, "output") {
            Token::Output
        } else if str_eq_chars(lexeme, "def") {
            Token::Def
        } else if str_eq_chars(lexeme, "return") {
            Token::Return
        } else {
            Token::Name(lexeme)
        }
    }
}

// ---------------------------------------------------------------------------
// The lexer's mathematical state and its step functions.
// ---------------------------------------------------------------------------

/// The full mathematical state of the lexer. `tind` and `tunind` count the
/// indentation tokens ever queued, so the net counter can be audited.
pub struct LexerModel {
    pub input: Seq<char>,
    pub i: int,
    pub line: int,
    pub col: int,
    pub pos: int,
    pub last_indent_level: int,
    pub indent_level: int,
    pub parse_indent: bool,
    pub indent_count: int,
    pub buffer: Seq<LexItem>,
    pub tind: int,
    pub tunind: int,
}

pub open spec fn cur_loc(m: LexerModel) -> Location {
    Location { line: m.line as usize, col: m.col as usize, pos: m.pos as usize }
}

/// Consume one ordinary character.
pub open spec fn step_pos(m: LexerModel) -> LexerModel {
    LexerModel { i: m.i + 1, pos: m.pos + 1, col: m.col + 1, ..m }
}

/// Consume a newline: the next line starts in indentation mode with the
/// finished line's measured indentation remembered.
pub open spec fn step_line(m: LexerModel) -> LexerModel {
    LexerModel {
        i: m.i + 1,
        pos: m.pos + 1,
        col: 1,
        line: m.line + 1,
        parse_indent: true,
        last_indent_level: m.indent_level,
        indent_level: 0,
        ..m
    }
}

/// Consume one character, line-aware.
pub open spec fn step_any(m: LexerModel) -> LexerModel {
    if 0 <= m.i < m.input.len() && m.input[m.i] == '\n' {
        step_line(m)
    } else {
        step_pos(m)
    }
}

/// Consume a space; it counts toward the indentation while the line's
/// leading whitespace is being measured.
pub open spec fn step_space(m: LexerModel) -> LexerModel {
    if m.parse_indent {
        LexerModel { indent_level: m.indent_level + 1, ..step_pos(m) }
    } else {
        step_pos(m)
    }
}

/// Consume `k` characters of which none is a newline.
pub open spec fn step_pos_n(m: LexerModel, k: int) -> LexerModel {
    LexerModel { i: m.i + k, pos: m.pos + k, col: m.col + k, ..m }
}

/// Discard characters through the end of the line, the newline included.
pub open spec fn comment_model(m: LexerModel) -> LexerModel
    decreases m.input.len() - m.i,
{
    if !(0 <= m.i < m.input.len()) {
        m
    } else if m.input[m.i] == '\n' {
        step_line(m)
    } else {
        comment_model(step_pos(m))
    }
}

/// A run of identical items.
pub open spec fn repeat_item(it: LexItem, cnt: nat) -> Seq<LexItem> {
    Seq::new(cnt, |j: int| it)
}

/// Queue the synthesized indentation tokens for the line just measured:
/// one token per whole 4-space level of difference, a remainder dropped.
pub open spec fn handle_indent_model(m: LexerModel) -> LexerModel {
    let diff = m.indent_level - m.last_indent_level;
    let loc = cur_loc(m);
    if diff > 0 {
        let tc = diff / 4;
        LexerModel {
            parse_indent: false,
            indent_count: m.indent_count + tc,
            tind: m.tind + tc,
            buffer: repeat_item(Ok((loc, TokenModel::Indent, loc)), tc as nat),
            ..m
        }
    } else if diff < 0 {
        let tc = (-diff) / 4;
        LexerModel {
            parse_indent: false,
            indent_count: m.indent_count - tc,
            tunind: m.tunind + tc,
            buffer: repeat_item(Ok((loc, TokenModel::Unindent, loc)), tc as nat),
            ..m
        }
    } else {
        LexerModel { parse_indent: false, ..m }
    }
}

/// Queue the trailing unindents for the levels still open at end of input.
pub open spec fn eoi_flush_model(m: LexerModel) -> LexerModel {
    let loc = cur_loc(m);
    LexerModel {
        indent_count: 0,
        tunind: m.tunind + m.indent_count,
        buffer: repeat_item(Ok((loc, TokenModel::Unindent, loc)), m.indent_count as nat),
        ..m
    }
}

/// The first position at or after `j` that does not hold a space.
pub open spec fn spaces_end(s: Seq<char>, j: int) -> int
    decreases s.len() - j,
{
    if !(0 <= j < s.len()) {
        j
    } else if s[j] == ' ' {
        spaces_end(s, j + 1)
    } else {
        j
    }
}

/// The first position at or after `j` that holds a separator.
pub open spec fn ident_end(s: Seq<char>, j: int) -> int
    decreases s.len() - j,
{
    if !(0 <= j < s.len()) {
        j
    } else if spec_is_separator(s[j]) {
        j
    } else {
        ident_end(s, j + 1)
    }
}

/// Scan a compound operator: after the operator character the next
/// non-space character must be `=`, and after it, spaces skipped again,
/// the expected digit. A mismatch at either step is an unrecognized
/// sequence at the operator's own position; input ending first ends the
/// stream.
pub open spec fn scan_op_model(m: LexerModel, digit: char, tok: TokenModel) -> (
    LexerModel,
    Option<LexItem>,
) {
    let start = cur_loc(m);
    let m1 = step_pos(m);
    let j1 = spaces_end(m1.input, m1.i);
    let m2 = step_pos_n(m1, j1 - m1.i);
    if !(m2.i < m2.input.len()) {
        (m2, None)
    } else if m2.input[m2.i] != '=' {
        (
            step_any(m2),
            Some(Err(LexerError { position: start, kind: LexerErrorKind::Unrecognized })),
        )
    } else {
        let m3 = step_pos(m2);
        let j2 = spaces_end(m3.input, m3.i);
        let m4 = step_pos_n(m3, j2 - m3.i);
        if !(m4.i < m4.input.len()) {
            (m4, None)
        } else if m4.input[m4.i] == digit {
            let m5 = step_any(m4);
            (m5, Some(Ok((start, tok, cur_loc(m5)))))
        } else {
            (
                step_any(m4),
                Some(Err(LexerError { position: start, kind: LexerErrorKind::Unrecognized })),
            )
        }
    }
}

/// Scan an identifier or keyword: characters up to the next separator.
pub open spec fn scan_word_model(m: LexerModel) -> (LexerModel, Option<LexItem>) {
    let start = cur_loc(m);
    let m1 = step_pos(m);
    let e = ident_end(m1.input, m1.i);
    let m2 = step_pos_n(m1, e - m1.i);
    let lexeme = m.input.subrange(m.i, e);
    (m2, Some(Ok((start, spec_from_lexeme(lexeme), cur_loc(m2)))))
}

/// One call of the lexer: drains the buffer, measures indentation at a
/// line start, skips blanks and comments, and scans exactly one token,
/// error, or the end of the stream.
pub open spec fn lex_next(m: LexerModel) -> (LexerModel, Option<LexItem>)
    decreases
            m.input.len() - m.i,
            (if m.parse_indent { 1int } else { 0int }),
            (if !(0 <= m.i < m.input.len()) && m.indent_count > 0 { 1int } else { 0int }),
            m.buffer.len(),
        via lex_next_decreases
{
    if m.buffer.len() > 0 {
        (LexerModel { buffer: m.buffer.drop_last(), ..m }, Some(m.buffer.last()))
    } else if m.parse_indent && 0 <= m.i < m.input.len() && m.input[m.i] != ' ' {
        lex_next(handle_indent_model(m))
    } else if !(0 <= m.i < m.input.len()) {
        if m.indent_count > 0 {
            lex_next(eoi_flush_model(m))
        } else {
            (m, None)
        }
    } else {
        let c = m.input[m.i];
        if c == ' ' {
            lex_next(step_space(m))
        } else if c == '\n' {
            lex_next(step_line(m))
        } else if c == '\t' {
            (
                step_pos(m),
                Some(Err(LexerError { position: cur_loc(m), kind: LexerErrorKind::TabIndent })),
            )
        } else if c == '\r' {
            lex_next(step_pos(m))
        } else if c == '#' {
            lex_next(comment_model(step_pos(m)))
        } else if c == '!' {
            scan_op_model(m, '0', TokenModel::NotEqualZero)
        } else if c == '+' {
            scan_op_model(m, '1', TokenModel::PlusEqualOne)
        } else if c == '-' {
            scan_op_model(m, '1', TokenModel::MinusEqualOne)
        } else if spec_single_char_token(c) is Some {
            (
                step_pos(m),
                Some(
                    Ok((cur_loc(m), spec_single_char_token(c).unwrap(), cur_loc(step_pos(m)))),
                ),
            )
        } else {
            scan_word_model(m)
        }
    }
}

/// Discarding a comment never rewinds and never leaves the input.
proof fn lemma_comment_bounds(m: LexerModel)
    requires
        0 <= m.i <= m.input.len(),
    ensures
        comment_model(m).input == m.input,
        m.i <= comment_model(m).i <= m.input.len(),
    decreases m.input.len() - m.i,
{
    if 0 <= m.i < m.input.len() && m.input[m.i] != '\n' {
        lemma_comment_bounds(step_pos(m));
    }
}

#[via_fn]
proof fn lex_next_decreases(m: LexerModel) {
    if m.buffer.len() == 0 && !(m.parse_indent && 0 <= m.i < m.input.len() && m.input[m.i] != ' ')
        && 0 <= m.i < m.input.len() {
        if m.input[m.i] == '#' {
            lemma_comment_bounds(step_pos(m));
        }
    }
}

// ---------------------------------------------------------------------------
// The lexer's invariant.
// ---------------------------------------------------------------------------

/// The lexer's invariant: the offset equals the number of consumed
/// characters, line, column and the indentation counters stay within the
/// consumed prefix, and every queued indentation token is backed by four
/// consumed spaces, which keeps the net counter in machine range.
pub open spec fn lexer_wf(m: LexerModel) -> bool {
    &&& m.input.len() < usize::MAX
    &&& 0 <= m.i <= m.input.len()
    &&& m.pos == m.i
    &&& 1 <= m.line <= m.i + 1
    &&& 1 <= m.col <= m.i + 1
    &&& 0 <= m.indent_level <= m.i
    &&& 0 <= m.last_indent_level <= m.i
    &&& m.tind >= 0
    &&& m.tunind >= 0
    &&& m.indent_count == m.tind - m.tunind
    &&& 4 * m.tind <= m.i - (if m.parse_indent {
        m.indent_level
    } else {
        0
    })
    &&& (4 * m.tunind + (if m.parse_indent {
        m.last_indent_level
    } else {
        0
    }) + m.indent_level <= m.i || (m.i == m.input.len() && m.indent_count <= 0))
}

// ---------------------------------------------------------------------------
// Indentation accounting.
// ---------------------------------------------------------------------------

/// The net indentation one item contributes: synthesized `Indent`s count
/// one level up, `Unindent`s one down, everything else nothing.
pub open spec fn item_ind_net(r: LexItem) -> int {
    match r {
        Ok((_, TokenModel::Indent, _)) => 1,
        Ok((_, TokenModel::Unindent, _)) => -1,
        _ => 0,
    }
}

pub open spec fn items_ind_net(s: Seq<LexItem>) -> int
    decreases s.len(),
{
    if s.len() == 0 {
        0
    } else {
        items_ind_net(s.drop_last()) + item_ind_net(s.last())
    }
}

/// The net indentation the stream has emitted so far: the running net
/// counter accounts for every queued token, so what has actually been
/// handed out is the counter less what still sits in the buffer.
pub open spec fn emitted_net(m: LexerModel) -> int {
    m.indent_count - items_ind_net(m.buffer)
}

/// The net indentation of a run of identical items.
proof fn lemma_ind_net_repeat(s: Seq<LexItem>, it: LexItem)
    requires
        forall|k: int| 0 <= k < s.len() ==> s[k] == it,
    ensures
        items_ind_net(s) == s.len() * item_ind_net(it),
    decreases s.len(),
{
    if s.len() > 0 {
        assert(forall|k: int| 0 <= k < s.drop_last().len() ==> s.drop_last()[k] == #[trigger] s[k]);
        lemma_ind_net_repeat(s.drop_last(), it);
        assert((s.len() - 1) * item_ind_net(it) + item_ind_net(it) == s.len() * item_ind_net(it))
            by (nonlinear_arith);
    }
}

/// Skipping a comment touches only the position bookkeeping and keeps the
/// invariant.
proof fn lemma_comment_wf(m: LexerModel)
    requires
        lexer_wf(m),
        !m.parse_indent,
    ensures
        ({
            let m2 = comment_model(m);
            &&& lexer_wf(m2)
            &&& m2.input == m.input
            &&& m.i <= m2.i <= m.input.len()
            &&& m2.buffer == m.buffer
            &&& m2.indent_count == m.indent_count
            &&& m2.tind == m.tind
            &&& m2.tunind == m.tunind
        }),
    decreases m.input.len() - m.i,
{
    if 0 <= m.i < m.input.len() && m.input[m.i] != '\n' {
        lemma_comment_wf(step_pos(m));
    }
}

/// Measuring a line's indentation keeps the invariant and leaves the owed
/// levels unchanged: what the counter gains is exactly what the buffer
/// takes on.
proof fn lemma_handle_indent_wf(m: LexerModel)
    requires
        lexer_wf(m),
        m.parse_indent,
        m.i < m.input.len(),
        m.buffer.len() == 0,
    ensures
        ({
            let m2 = handle_indent_model(m);
            &&& lexer_wf(m2)
            &&& emitted_net(m2) == emitted_net(m)
            &&& m2.input == m.input
            &&& m2.i == m.i
            &&& !m2.parse_indent
        }),
{
    let diff = m.indent_level - m.last_indent_level;
    let m2 = handle_indent_model(m);
    if diff > 0 {
        let tc = diff / 4;
        assert(0 <= tc && 4 * tc <= diff) by (nonlinear_arith)
            requires
                diff > 0,
                tc == diff / 4,
        ;
        lemma_ind_net_repeat(
            m2.buffer,
            Ok((cur_loc(m), TokenModel::Indent, cur_loc(m))),
        );
        assert(items_ind_net(m2.buffer) == tc) by (nonlinear_arith)
            requires
                items_ind_net(m2.buffer) == m2.buffer.len() * 1int,
                m2.buffer.len() == tc,
        ;
    } else if diff < 0 {
        let tc = (-diff) / 4;
        assert(0 <= tc && 4 * tc <= -diff) by (nonlinear_arith)
            requires
                diff < 0,
                tc == (-diff) / 4,
        ;
        lemma_ind_net_repeat(
            m2.buffer,
            Ok((cur_loc(m), TokenModel::Unindent, cur_loc(m))),
        );
        assert(items_ind_net(m2.buffer) == -tc) by (nonlinear_arith)
            requires
                items_ind_net(m2.buffer) == m2.buffer.len() * (-1int),
                m2.buffer.len() == tc,
        ;
    } else {
        assert(items_ind_net(m2.buffer) == 0);
    }
}

/// Flushing the open levels at end of input keeps the invariant and the
/// owed levels.
proof fn lemma_eoi_flush_wf(m: LexerModel)
    requires
        lexer_wf(m),
        m.i == m.input.len(),
        m.buffer.len() == 0,
        m.indent_count > 0,
    ensures
        ({
            let m2 = eoi_flush_model(m);
            &&& lexer_wf(m2)
            &&& emitted_net(m2) == emitted_net(m)
            &&& m2.input == m.input
            &&& m2.i == m.i
            &&& m2.indent_count == 0
        }),
{
    let m2 = eoi_flush_model(m);
    lemma_ind_net_repeat(
        m2.buffer,
        Ok((cur_loc(m), TokenModel::Unindent, cur_loc(m))),
    );
    assert(items_ind_net(m2.buffer) == -m.indent_count) by (nonlinear_arith)
        requires
            items_ind_net(m2.buffer) == m2.buffer.len() * (-1int),
            m2.buffer.len() == m.indent_count,
    ;
}

/// The scanned run of spaces stays inside the input.
proof fn lemma_spaces_end_bounds(s: Seq<char>, j: int)
    requires
        0 <= j <= s.len(),
    ensures
        j <= spaces_end(s, j) <= s.len(),
        forall|k: int| j <= k < spaces_end(s, j) ==> s[k] == ' ',
        spaces_end(s, j) < s.len() ==> s[spaces_end(s, j)] != ' ',
    decreases s.len() - j,
{
    if 0 <= j < s.len() && s[j] == ' ' {
        lemma_spaces_end_bounds(s, j + 1);
    }
}

/// The scanned word stays inside the input.
proof fn lemma_ident_end_bounds(s: Seq<char>, j: int)
    requires
        0 <= j <= s.len(),
    ensures
        j <= ident_end(s, j) <= s.len(),
        forall|k: int| j <= k < ident_end(s, j) ==> !spec_is_separator(s[k]),
        ident_end(s, j) < s.len() ==> spec_is_separator(s[ident_end(s, j)]),
    decreases s.len() - j,
{
    if 0 <= j < s.len() && !spec_is_separator(s[j]) {
        lemma_ident_end_bounds(s, j + 1);
    }
}

/// An operator scan ends in a well-formed state and yields no indentation
/// item.
proof fn lemma_scan_op_wf(m: LexerModel, digit: char, tok: TokenModel)
    requires
        lexer_wf(m),
        !m.parse_indent,
        m.buffer.len() == 0,
        0 <= m.i < m.input.len(),
        tok != TokenModel::Indent,
        tok != TokenModel::Unindent,
    ensures
        ({
            let (m2, r) = scan_op_model(m, digit, tok);
            &&& lexer_wf(m2)
            &&& m2.buffer.len() == 0
            &&& emitted_net(m2) == emitted_net(m)
            &&& (match r {
                Some(it) => item_ind_net(it) == 0,
                None => true,
            })
        }),
{
    let m1 = step_pos(m);
    lemma_spaces_end_bounds(m1.input, m1.i);
    let j1 = spaces_end(m1.input, m1.i);
    let m2 = step_pos_n(m1, j1 - m1.i);
    if m2.i < m2.input.len() && m2.input[m2.i] == '=' {
        let m3 = step_pos(m2);
        lemma_spaces_end_bounds(m3.input, m3.i);
    }
}

/// A word scan ends in a well-formed state and yields no indentation item.
proof fn lemma_scan_word_wf(m: LexerModel)
    requires
        lexer_wf(m),
        !m.parse_indent,
        m.buffer.len() == 0,
        0 <= m.i < m.input.len(),
    ensures
        ({
            let (m2, r) = scan_word_model(m);
            &&& lexer_wf(m2)
            &&& m2.buffer.len() == 0
            &&& emitted_net(m2) == emitted_net(m)
            &&& (match r {
                Some(it) => item_ind_net(it) == 0,
                None => true,
            })
        }),
{
    let m1 = step_pos(m);
    lemma_ident_end_bounds(m1.input, m1.i);
}

/// Indentation tokens are balanced bookkeeping: one call of the lexer
/// moves the emitted net by exactly the net indentation of the item it
/// yields, the invariant is kept, and the stream ends only with an empty
/// buffer. The counter itself moves only where a line's leading spaces are
/// measured, by their whole 4-space level difference, so the emitted
/// tokens always account for the indentation scanned so far.
pub proof fn lemma_indent_balance(m: LexerModel)
    requires
        lexer_wf(m),
    ensures
        ({
            let (m2, r) = lex_next(m);
            &&& lexer_wf(m2)
            &&& m2.input == m.input
            &&& emitted_net(m2) == emitted_net(m) + (match r {
                Some(it) => item_ind_net(it),
                None => 0,
            })
            &&& (r is None ==> m2.buffer.len() == 0)
        }),
    decreases
            m.input.len() - m.i,
            (if m.parse_indent { 1int } else { 0int }),
            (if !(0 <= m.i < m.input.len()) && m.indent_count > 0 { 1int } else { 0int }),
            m.buffer.len(),
{
    let (m2, r) = lex_next(m);
    let goal = emitted_net(m2) == emitted_net(m) + (match r {
        Some(it) => item_ind_net(it),
        None => 0,
    });
    if m.buffer.len() > 0 {
        assert(items_ind_net(m.buffer) == items_ind_net(m.buffer.drop_last()) + item_ind_net(
            m.buffer.last(),
        ));
        assert(goal);
    } else if m.parse_indent && 0 <= m.i < m.input.len() && m.input[m.i] != ' ' {
        lemma_handle_indent_wf(m);
        lemma_indent_balance(handle_indent_model(m));
        assert(goal);
    } else if !(0 <= m.i < m.input.len()) {
        if m.indent_count > 0 {
            lemma_eoi_flush_wf(m);
            lemma_indent_balance(eoi_flush_model(m));
            assert(goal);
        } else {
            assert(goal);
        }
    } else {
        let c = m.input[m.i];
        if c == ' ' {
            lemma_indent_balance(step_space(m));
            assert(goal);
        } else if c == '\n' {
            lemma_indent_balance(step_line(m));
            assert(goal);
        } else if c == '\t' {
            assert(goal);
        } else if c == '\r' {
            lemma_indent_balance(step_pos(m));
            assert(goal);
        } else if c == '#' {
            lemma_comment_wf(step_pos(m));
            lemma_indent_balance(comment_model(step_pos(m)));
            assert(goal);
        } else if c == '!' {
            lemma_scan_op_wf(m, '0', TokenModel::NotEqualZero);
            assert(goal);
        } else if c == '+' {
            lemma_scan_op_wf(m, '1', TokenModel::PlusEqualOne);
            assert(goal);
        } else if c == '-' {
            lemma_scan_op_wf(m, '1', TokenModel::MinusEqualOne);
            assert(goal);
        } else if spec_single_char_token(c) is Some {
            assert(goal);
        } else {
            lemma_scan_word_wf(m);
            assert(goal);
        }
    }
}

/// One call makes progress whatever the state: the same measure that
/// founds `lex_next` shrinks whenever an item is yielded.
proof fn lemma_lex_next_progress_total(m: LexerModel)
    ensures
        ({
            let (m2, r) = lex_next(m);
            &&& m2.input == m.input
            &&& (r is Some ==> {
                ||| (m.i < m2.i <= m.input.len() && 0 <= m.i)
                ||| (m2.i == m.i && m.parse_indent && !m2.parse_indent)
                ||| (m2.i == m.i && m.parse_indent == m2.parse_indent && !(!(0 <= m2.i
                    < m.input.len()) && m2.indent_count > 0) && (!(0 <= m.i < m.input.len())
                    && m.indent_count > 0))
                ||| (m2.i == m.i && m.parse_indent == m2.parse_indent && ((!(0 <= m.i
                    < m.input.len()) && m.indent_count > 0) <==> (!(0 <= m2.i < m.input.len())
                    && m2.indent_count > 0)) && m2.buffer.len() < m.buffer.len())
            })
        }),
    decreases
            m.input.len() - m.i,
            (if m.parse_indent { 1int } else { 0int }),
            (if !(0 <= m.i < m.input.len()) && m.indent_count > 0 { 1int } else { 0int }),
            m.buffer.len(),
{
    let (m2, r) = lex_next(m);
    if m.buffer.len() > 0 {
    } else if m.parse_indent && 0 <= m.i < m.input.len() && m.input[m.i] != ' ' {
        lemma_lex_next_progress_total(handle_indent_model(m));
    } else if !(0 <= m.i < m.input.len()) {
        if m.indent_count > 0 {
            lemma_lex_next_progress_total(eoi_flush_model(m));
        }
    } else {
        let c = m.input[m.i];
        if c == ' ' {
            lemma_lex_next_progress_total(step_space(m));
        } else if c == '\n' {
            lemma_lex_next_progress_total(step_line(m));
        } else if c == '\t' {
        } else if c == '\r' {
            lemma_lex_next_progress_total(step_pos(m));
        } else if c == '#' {
            lemma_comment_bounds(step_pos(m));
            lemma_lex_next_progress_total(comment_model(step_pos(m)));
        } else if c == '!' || c == '+' || c == '-' {
            lemma_spaces_end_bounds(m.input, m.i + 1);
            if spaces_end(m.input, m.i + 1) + 1 <= m.input.len() {
                lemma_spaces_end_bounds(m.input, spaces_end(m.input, m.i + 1) + 1);
            }
        } else if spec_single_char_token(c) is Some {
        } else {
            lemma_ident_end_bounds(m.input, m.i + 1);
        }
    }
}

/// The whole remaining stream: the final state and every item yielded
/// until the lexer reports the end.
pub open spec fn lex_run(m: LexerModel) -> (LexerModel, Seq<LexItem>)
    decreases
            m.input.len() - m.i,
            (if m.parse_indent { 1int } else { 0int }),
            (if !(0 <= m.i < m.input.len()) && m.indent_count > 0 { 1int } else { 0int }),
            m.buffer.len(),
        via lex_run_decreases
{
    let (m2, r) = lex_next(m);
    match r {
        None => (m2, Seq::empty()),
        Some(it) => {
            let (mf, rest) = lex_run(m2);
            (mf, seq![it] + rest)
        },
    }
}

#[via_fn]
proof fn lex_run_decreases(m: LexerModel) {
    lemma_lex_next_progress_total(m);
}

/// The net of an item in front of a run.
proof fn lemma_ind_net_prepend(it: LexItem, rest: Seq<LexItem>)
    ensures
        items_ind_net(seq![it] + rest) == item_ind_net(it) + items_ind_net(rest),
    decreases rest.len(),
{
    if rest.len() == 0 {
        assert(seq![it] + rest =~= seq![it]);
        assert(seq![it].drop_last() =~= Seq::<LexItem>::empty());
        assert(seq![it].last() == it);
        assert(items_ind_net(Seq::<LexItem>::empty()) == 0);
        assert(items_ind_net(seq![it]) == item_ind_net(it));
    } else {
        assert((seq![it] + rest).drop_last() =~= seq![it] + rest.drop_last());
        assert((seq![it] + rest).last() == rest.last());
        lemma_ind_net_prepend(it, rest.drop_last());
        assert(items_ind_net(rest) == items_ind_net(rest.drop_last()) + item_ind_net(rest.last()));
    }
}

/// The round trip over a whole stream: the net of all Indent and Unindent
/// items ever yielded equals what the final counter says, and the stream
/// ends with nothing left queued. Started from a fresh lexer the account
/// begins at zero, so every yielded Indent is matched against the counter
/// that the line measurements built, 4 spaces to the level.
pub proof fn lemma_stream_balance(m: LexerModel)
    requires
        lexer_wf(m),
    ensures
        ({
            let (mf, items) = lex_run(m);
            &&& lexer_wf(mf)
            &&& mf.buffer.len() == 0
            &&& items_ind_net(items) == emitted_net(mf) - emitted_net(m)
        }),
    decreases
            m.input.len() - m.i,
            (if m.parse_indent { 1int } else { 0int }),
            (if !(0 <= m.i < m.input.len()) && m.indent_count > 0 { 1int } else { 0int }),
            m.buffer.len(),
{
    let (m2, r) = lex_next(m);
    lemma_indent_balance(m);
    match r {
        None => {
        }
        Some(it) => {
            lemma_lex_next_progress_total(m);
            lemma_stream_balance(m2);
            let (mf, rest) = lex_run(m2);
            lemma_ind_net_prepend(it, rest);
        },
    }
}

/// The lexer's invariant implies the model invariant; callers outside this
/// module reason through it.
pub proof fn lemma_lexer_inv(l: &Lexer<'_>)
    ensures
        l.inv() ==> lexer_wf(l@),
{
}

// ---------------------------------------------------------------------------
// Laws of the token scanners.
// ---------------------------------------------------------------------------

/// Compound operators lex identically however many spaces stand around the
/// `=` — `k1` of them before it, `k2` after it: the token yielded is
/// decided by the operator and the digit alone, and only the span moves
/// with the space counts.
pub proof fn lemma_operator_spaces(m: LexerModel, k1: int, k2: int)
    requires
        lexer_wf(m),
        m.buffer.len() == 0,
        !m.parse_indent,
        k1 >= 0,
        k2 >= 0,
        m.i + 2 + k1 + k2 < m.input.len(),
        m.input[m.i] == '!' || m.input[m.i] == '+' || m.input[m.i] == '-',
        forall|j: int| m.i + 1 <= j < m.i + 1 + k1 ==> m.input[j] == ' ',
        m.input[m.i + 1 + k1] == '=',
        forall|j: int| m.i + 2 + k1 <= j < m.i + 2 + k1 + k2 ==> m.input[j] == ' ',
        m.input[m.i + 2 + k1 + k2] == (if m.input[m.i] == '!' {
            '0'
        } else {
            '1'
        }),
    ensures
        ({
            let (m2, r) = lex_next(m);
            let tok = if m.input[m.i] == '!' {
                TokenModel::NotEqualZero
            } else if m.input[m.i] == '+' {
                TokenModel::PlusEqualOne
            } else {
                TokenModel::MinusEqualOne
            };
            r == Some(Ok::<(Location, TokenModel, Location), LexerError>(
                (cur_loc(m), tok, cur_loc(m2)),
            ))
        }),
{
    lemma_spaces_end_from_run(m.input, m.i + 1, m.i + 1 + k1);
    lemma_spaces_end_from_run(m.input, m.i + 2 + k1, m.i + 2 + k1 + k2);
}

/// Whether at most `fuel` further calls yield a `TabIndent` error at the
/// given location, with nothing but synthesized indentation tokens before
/// it.
pub open spec fn yields_tab_error_within(m: LexerModel, fuel: nat, at: Location) -> bool
    decreases fuel,
{
    let (m2, r) = lex_next(m);
    match r {
        Some(item) => match item {
            Err(e) => e == LexerError { position: at, kind: LexerErrorKind::TabIndent },
            Ok((_, t, _)) => (t == TokenModel::Indent || t == TokenModel::Unindent) && fuel > 0
                && yields_tab_error_within(m2, (fuel - 1) as nat, at),
        },
        None => false,
    }
}

/// Draining a buffer of indentation tokens in front of a tab always ends
/// in the tab error, at the position the lexer stands on.
proof fn lemma_tab_drain(m: LexerModel, t: int)
    requires
        !m.parse_indent,
        m.i == t,
        0 <= t < m.input.len(),
        m.input[t] == '\t',
        forall|j: int|
            0 <= j < m.buffer.len() ==> match #[trigger] m.buffer[j] {
                Ok((_, tk, _)) => tk == TokenModel::Indent || tk == TokenModel::Unindent,
                Err(_) => false,
            },
    ensures
        yields_tab_error_within(m, m.buffer.len() as nat, cur_loc(m)),
    decreases m.buffer.len(),
{
    if m.buffer.len() > 0 {
        let m2 = LexerModel { buffer: m.buffer.drop_last(), ..m };
        assert(forall|j: int|
            0 <= j < m2.buffer.len() ==> m2.buffer[j] == #[trigger] m.buffer[j]);
        lemma_tab_drain(m2, t);
        assert(cur_loc(m2) == cur_loc(m));
    }
}

/// A tab before the first non-space character of a line always produces a
/// `TabIndent` error at the tab's own location, whatever follows it: from
/// a line start whose leading spaces end at a tab, the following calls
/// yield nothing but synthesized indentation tokens until the error comes,
/// positioned at the tab itself.
pub proof fn lemma_tab_rejected(m: LexerModel, t: int)
    requires
        lexer_wf(m),
        m.buffer.len() == 0,
        m.parse_indent,
        m.i <= t < m.input.len(),
        forall|j: int| m.i <= j < t ==> m.input[j] == ' ',
        m.input[t] == '\t',
    ensures
        exists|fuel: nat|
            #[trigger] yields_tab_error_within(
                m,
                fuel,
                Location {
                    line: m.line as usize,
                    col: (m.col + t - m.i) as usize,
                    pos: t as usize,
                },
            ),
    decreases t - m.i,
{
    let at = Location { line: m.line as usize, col: (m.col + t - m.i) as usize, pos: t as usize };
    if m.i < t {
        assert(m.input[m.i] == ' ');
        lemma_indent_balance(m);
        lemma_tab_rejected(step_space(m), t);
        let ms = step_space(m);
        assert(Location {
            line: ms.line as usize,
            col: (ms.col + t - ms.i) as usize,
            pos: t as usize,
        } == at);
        let fuel = choose|fuel: nat| yields_tab_error_within(step_space(m), fuel, at);
        assert(lex_next(m) == lex_next(step_space(m)));
        assert(yields_tab_error_within(m, fuel, at));
    } else {
        let hm = handle_indent_model(m);
        lemma_handle_indent_wf(m);
        assert(forall|j: int|
            0 <= j < hm.buffer.len() ==> match #[trigger] hm.buffer[j] {
                Ok((_, tk, _)) => tk == TokenModel::Indent || tk == TokenModel::Unindent,
                Err(_) => false,
            });
        lemma_tab_drain(hm, t);
        assert(cur_loc(hm) == at);
        assert(lex_next(m) == lex_next(hm));
        assert(yields_tab_error_within(m, hm.buffer.len() as nat, at));
    }
}

/// One call strictly shrinks the lexer's termination measure whenever it
/// yields an item: consumed input first, then leaving indentation mode,
/// then the end-of-input flush, then the buffer.
pub proof fn lemma_lex_next_progress(m: LexerModel)
    requires
        lexer_wf(m),
    ensures
        ({
            let (m2, r) = lex_next(m);
            &&& m2.input == m.input
            &&& m.i <= m2.i <= m.input.len()
            &&& (r is Some ==> {
                ||| m2.i > m.i
                ||| (m2.i == m.i && m.parse_indent && !m2.parse_indent)
                ||| (m2.i == m.i && m.parse_indent == m2.parse_indent && !(!(0 <= m2.i
                    < m.input.len()) && m2.indent_count > 0) && (!(0 <= m.i < m.input.len())
                    && m.indent_count > 0))
                ||| (m2.i == m.i && m.parse_indent == m2.parse_indent && ((!(0 <= m.i
                    < m.input.len()) && m.indent_count > 0) <==> (!(0 <= m2.i < m.input.len())
                    && m2.indent_count > 0)) && m2.buffer.len() < m.buffer.len())
            })
        }),
    decreases
            m.input.len() - m.i,
            (if m.parse_indent { 1int } else { 0int }),
            (if !(0 <= m.i < m.input.len()) && m.indent_count > 0 { 1int } else { 0int }),
            m.buffer.len(),
{
    let (m2, r) = lex_next(m);
    if m.buffer.len() > 0 {
    } else if m.parse_indent && 0 <= m.i < m.input.len() && m.input[m.i] != ' ' {
        lemma_handle_indent_wf(m);
        lemma_lex_next_progress(handle_indent_model(m));
    } else if !(0 <= m.i < m.input.len()) {
        if m.indent_count > 0 {
            lemma_eoi_flush_wf(m);
            lemma_lex_next_progress(eoi_flush_model(m));
        }
    } else {
        let c = m.input[m.i];
        if c == ' ' {
            lemma_indent_balance(m);
            lemma_lex_next_progress(step_space(m));
        } else if c == '\n' {
            lemma_indent_balance(m);
            lemma_lex_next_progress(step_line(m));
        } else if c == '\t' {
        } else if c == '\r' {
            lemma_indent_balance(m);
            lemma_lex_next_progress(step_pos(m));
        } else if c == '#' {
            lemma_comment_wf(step_pos(m));
            lemma_lex_next_progress(comment_model(step_pos(m)));
        } else if c == '!' {
            lemma_scan_op_wf(m, '0', TokenModel::NotEqualZero);
            lemma_spaces_end_bounds(m.input, m.i + 1);
            if spaces_end(m.input, m.i + 1) + 1 <= m.input.len() {
                lemma_spaces_end_bounds(m.input, spaces_end(m.input, m.i + 1) + 1);
            }
        } else if c == '+' {
            lemma_scan_op_wf(m, '1', TokenModel::PlusEqualOne);
            lemma_spaces_end_bounds(m.input, m.i + 1);
            if spaces_end(m.input, m.i + 1) + 1 <= m.input.len() {
                lemma_spaces_end_bounds(m.input, spaces_end(m.input, m.i + 1) + 1);
            }
        } else if c == '-' {
            lemma_scan_op_wf(m, '1', TokenModel::MinusEqualOne);
            lemma_spaces_end_bounds(m.input, m.i + 1);
            if spaces_end(m.input, m.i + 1) + 1 <= m.input.len() {
                lemma_spaces_end_bounds(m.input, spaces_end(m.input, m.i + 1) + 1);
            }
        } else if spec_single_char_token(c) is Some {
        } else {
            lemma_scan_word_wf(m);
            lemma_ident_end_bounds(m.input, m.i + 1);
        }
    }
}

// ---------------------------------------------------------------------------
// The lexer.
// ---------------------------------------------------------------------------

/// The state the lexer starts from.
pub open spec fn init_model(s: Seq<char>) -> LexerModel {
    LexerModel {
        input: s,
        i: 0,
        line: 1,
        col: 1,
        pos: 0,
        last_indent_level: 0,
        indent_level: 0,
        parse_indent: true,
        indent_count: 0,
        buffer: Seq::empty(),
        tind: 0,
        tunind: 0,
    }
}

/// A run of non-separator characters pins the scanned word's end.
proof fn lemma_ident_end_from_run(s: Seq<char>, j: int, e: int)
    requires
        0 <= j <= e <= s.len(),
        forall|k: int| j <= k < e ==> !spec_is_separator(s[k]),
        e < s.len() ==> spec_is_separator(s[e]),
    ensures
        ident_end(s, j) == e,
    decreases e - j,
{
    if j < e {
        lemma_ident_end_from_run(s, j + 1, e);
    }
}

/// A run of spaces pins the scan's end.
proof fn lemma_spaces_end_from_run(s: Seq<char>, j: int, e: int)
    requires
        0 <= j <= e <= s.len(),
        forall|k: int| j <= k < e ==> s[k] == ' ',
        e < s.len() ==> s[e] != ' ',
    ensures
        spaces_end(s, j) == e,
    decreases e - j,
{
    if j < e {
        lemma_spaces_end_from_run(s, j + 1, e);
    }
}

/// Pushing an item extends the buffered models pointwise.
proof fn lemma_items_view_push<'a>(s: Seq<LexerResult<'a>>, x: LexerResult<'a>)
    ensures
        items_view(s.push(x)) == items_view(s).push(item_view(x)),
{
    assert(items_view(s.push(x)) =~= items_view(s).push(item_view(x)));
}

/// The single forward pass over the input: yields positioned tokens,
/// synthesized indentation tokens and errors on demand; not restartable.
pub struct Lexer<'input> {
    input: &'input str,
    n: usize,
    i: usize,
    line: usize,
    col: usize,
    pos: usize,
    last_indent_level: usize,
    indent_level: usize,
    parse_indent: bool,
    indent_count: i64,
    buffer: Vec<LexerResult<'input>>,
    tind: Ghost<int>,
    tunind: Ghost<int>,
}

impl<'input> View for Lexer<'input> {
    type V = LexerModel;

    closed spec fn view(&self) -> LexerModel {
        LexerModel {
            input: self.input@,
            i: self.i as int,
            line: self.line as int,
            col: self.col as int,
            pos: self.pos as int,
            last_indent_level: self.last_indent_level as int,
            indent_level: self.indent_level as int,
            parse_indent: self.parse_indent,
            indent_count: self.indent_count as int,
            buffer: items_view(self.buffer@),
            tind: self.tind@,
            tunind: self.tunind@,
        }
    }
}

impl<'input> Lexer<'input> {
    /// The lexer's invariant, maintained by every call.
    pub closed spec fn inv(&self) -> bool {
        &&& lexer_wf(self@)
        &&& self.n == self.input@.len()
    }

    pub fn new(input: &'input str) -> (r: Self)
        requires
            input@.len() < usize::MAX,
        ensures
            r.inv(),
            r@ == init_model(input@),
    {
        let n = input.unicode_len();
        let r = Lexer {
            input,
            n,
            i: 0,
            line: 1,
            pos: 0,
            col: 1,
            last_indent_level: 0,
            indent_level: 0,
            parse_indent: true,
            indent_count: 0,
            buffer: Vec::new(),
            tind: Ghost(0),
            tunind: Ghost(0),
        };
        proof {
            assert(r@.buffer =~= Seq::<LexItem>::empty());
        }
        r
    }

    fn current_pos(&self) -> (r: Location)
        requires
            self.inv(),
        ensures
            r == cur_loc(self@),
    {
        Location { pos: self.pos, line: self.line, col: self.col }
    }

    fn incr_line(&mut self)
        requires
            old(self).inv(),
            old(self)@.i < old(self)@.input.len(),
            !old(self)@.parse_indent,
        ensures
            final(self).inv(),
            final(self)@ == step_line(old(self)@),
            final(self).n == old(self).n,
    {
        self.line = self.line + 1;
        self.col = 1;
        self.pos = self.pos + 1;
        self.i = self.i + 1;
        self.parse_indent = true;
        self.last_indent_level = self.indent_level;
        self.indent_level = 0;
    }

    fn incr_pos(&mut self)
        requires
            old(self).inv(),
            old(self)@.i < old(self)@.input.len(),
        ensures
            final(self).inv(),
            final(self)@ == step_pos(old(self)@),
            final(self).n == old(self).n,
    {
        self.col = self.col + 1;
        self.pos = self.pos + 1;
        self.i = self.i + 1;
    }

    fn comment(&mut self)
        requires
            old(self).inv(),
            !old(self)@.parse_indent,
        ensures
            final(self).inv(),
            final(self)@ == comment_model(old(self)@),
    {
        proof {
            lemma_comment_wf(old(self)@);
        }
        loop
            invariant
                self.inv(),
                !self@.parse_indent,
                comment_model(old(self)@) == comment_model(self@),
            decreases self@.input.len() - self@.i,
        {
            if self.i >= self.n {
                return ;
            }
            let c = self.input.get_char(self.i);
            if c == '\n' {
                self.incr_line();
                proof {
                    assert(lexer_wf(self@));
                }
                return ;
            }
            self.incr_pos();
            proof {
                assert(lexer_wf(self@));
            }
        }
    }

    fn handle_indent(&mut self)
        requires
            old(self).inv(),
            old(self)@.parse_indent,
            old(self)@.i < old(self)@.input.len(),
            old(self)@.buffer.len() == 0,
        ensures
            final(self).inv(),
            final(self)@ == handle_indent_model(old(self)@),
    {
        proof {
            lemma_handle_indent_wf(old(self)@);
        }
        self.parse_indent = false;
        let loc = self.current_pos();
        if self.indent_level > self.last_indent_level {
            let tc = (self.indent_level - self.last_indent_level) / 4;
            proof {
                let il = old(self)@.indent_level;
                let lil = old(self)@.last_indent_level;
                assert(0 <= (il - lil) / 4 && 4 * ((il - lil) / 4) <= il - lil) by (nonlinear_arith)
                    requires
                        il > lil >= 0,
                ;
                assert(tc as int == (il - lil) / 4);
            }
            self.indent_count = self.indent_count + (tc as i64);
            proof {
                self.tind = Ghost(self.tind@ + tc as int);
            }
            let mut buf: Vec<LexerResult<'input>> = Vec::new();
            let mut k: usize = 0;
            while k < tc
                invariant
                    k <= tc,
                    buf@.len() == k,
                    items_view(buf@) =~= repeat_item(
                        Ok((loc.deep_view(), TokenModel::Indent, loc.deep_view())),
                        k as nat,
                    ),
                decreases tc - k,
            {
                let ghost bprev = buf@;
                buf.push(Ok((loc, Token::Indent, loc)));
                k += 1;
                proof {
                    lemma_items_view_push(bprev, Ok((loc, Token::Indent, loc)));
                    assert(items_view(buf@) =~= repeat_item(
                        Ok((loc.deep_view(), TokenModel::Indent, loc.deep_view())),
                        k as nat,
                    ));
                }
            }
            self.buffer = buf;
        } else if self.indent_level < self.last_indent_level {
            let tc = (self.last_indent_level - self.indent_level) / 4;
            proof {
                let il = old(self)@.indent_level;
                let lil = old(self)@.last_indent_level;
                assert(0 <= (lil - il) / 4 && 4 * ((lil - il) / 4) <= lil - il) by (nonlinear_arith)
                    requires
                        lil > il >= 0,
                ;
                assert(tc as int == (lil - il) / 4);
            }
            self.indent_count = self.indent_count - (tc as i64);
            proof {
                self.tunind = Ghost(self.tunind@ + tc as int);
            }
            let mut buf: Vec<LexerResult<'input>> = Vec::new();
            let mut k: usize = 0;
            while k < tc
                invariant
                    k <= tc,
                    buf@.len() == k,
                    items_view(buf@) =~= repeat_item(
                        Ok((loc.deep_view(), TokenModel::Unindent, loc.deep_view())),
                        k as nat,
                    ),
                decreases tc - k,
            {
                let ghost bprev = buf@;
                buf.push(Ok((loc, Token::Unindent, loc)));
                k += 1;
                proof {
                    lemma_items_view_push(bprev, Ok((loc, Token::Unindent, loc)));
                    assert(items_view(buf@) =~= repeat_item(
                        Ok((loc.deep_view(), TokenModel::Unindent, loc.deep_view())),
                        k as nat,
                    ));
                }
            }
            self.buffer = buf;
        }
        proof {
            assert(final(self)@ =~~= handle_indent_model(old(self)@));
        }
    }

    /// Consumes the next character, line-aware.
    fn advance(&mut self)
        requires
            old(self).inv(),
            old(self)@.i < old(self)@.input.len(),
            !old(self)@.parse_indent,
        ensures
            final(self).inv(),
            final(self)@ == step_any(old(self)@),
            final(self).n == old(self).n,
    {
        let c = self.input.get_char(self.i);
        if c == '\n' {
            self.incr_line();
        } else {
            self.incr_pos();
        }
    }

    /// Scans a compound operator after its first character: requires the
    /// next non-space character to be `=`, skips intervening spaces, then
    /// requires the expected digit; anything else is an unrecognized
    /// sequence at the operator's start, and input ending first ends the
    /// stream.
    fn scan_compound(&mut self, digit: char, token: Token<'input>) -> (r: Option<
        LexerResult<'input>,
    >)
        requires
            old(self).inv(),
            !old(self)@.parse_indent,
            old(self)@.i < old(self)@.input.len(),
            old(self)@.buffer.len() == 0,
            token.deep_view() != TokenModel::Indent,
            token.deep_view() != TokenModel::Unindent,
        ensures
            final(self).inv(),
            ({
                let (m2, ritem) = scan_op_model(old(self)@, digit, token.deep_view());
                &&& final(self)@ == m2
                &&& (match r {
                    Some(it) => ritem == Some(item_view(it)),
                    None => ritem is None,
                })
            }),
    {
        proof {
            lemma_scan_op_wf(old(self)@, digit, token.deep_view());
        }
        let start = self.current_pos();
        self.incr_pos();
        let ghost m1 = self@;
        loop
            invariant
                self.inv(),
                self.n == self.input@.len(),
                !self@.parse_indent,
                m1.i <= self@.i <= self@.input.len(),
                self@ == step_pos_n(m1, self@.i - m1.i),
                forall|k: int| m1.i <= k < self@.i ==> self@.input[k] == ' ',
            ensures
                self.inv(),
                self.n == self.input@.len(),
                !self@.parse_indent,
                m1.i <= self@.i <= self@.input.len(),
                self@ == step_pos_n(m1, self@.i - m1.i),
                forall|k: int| m1.i <= k < self@.i ==> self@.input[k] == ' ',
                self@.i == self@.input.len() || self@.input[self@.i] != ' ',
            decreases self@.input.len() - self@.i,
        {
            if self.i >= self.n {
                break ;
            }
            let cn = self.input.get_char(self.i);
            if cn != ' ' {
                break ;
            }
            self.incr_pos();
            proof {
                assert(self@ =~~= step_pos_n(m1, self@.i - m1.i));
            }
        }
        proof {
            lemma_spaces_end_from_run(self@.input, m1.i, self@.i);
        }
        if self.i >= self.n {
            return None;
        }
        let c = self.input.get_char(self.i);
        if c != '=' {
            self.advance();
            return Some(Err(LexerError::new(start, LexerErrorKind::Unrecognized)));
        }
        self.incr_pos();
        let ghost m2 = self@;
        loop
            invariant
                self.inv(),
                self.n == self.input@.len(),
                !self@.parse_indent,
                m2.i <= self@.i <= self@.input.len(),
                self@ == step_pos_n(m2, self@.i - m2.i),
                forall|k: int| m2.i <= k < self@.i ==> self@.input[k] == ' ',
            ensures
                self.inv(),
                self.n == self.input@.len(),
                !self@.parse_indent,
                m2.i <= self@.i <= self@.input.len(),
                self@ == step_pos_n(m2, self@.i - m2.i),
                forall|k: int| m2.i <= k < self@.i ==> self@.input[k] == ' ',
                self@.i == self@.input.len() || self@.input[self@.i] != ' ',
            decreases self@.input.len() - self@.i,
        {
            if self.i >= self.n {
                break ;
            }
            let cn = self.input.get_char(self.i);
            if cn != ' ' {
                break ;
            }
            self.incr_pos();
            proof {
                assert(self@ =~~= step_pos_n(m2, self@.i - m2.i));
            }
        }
        proof {
            lemma_spaces_end_from_run(self@.input, m2.i, self@.i);
        }
        if self.i >= self.n {
            return None;
        }
        let c2 = self.input.get_char(self.i);
        self.advance();
        if c2 == digit {
            return Some(Ok((start, token, self.current_pos())));
        }
        Some(Err(LexerError::new(start, LexerErrorKind::Unrecognized)))
    }

    fn not_eq_zero(&mut self) -> (r: Option<LexerResult<'input>>)
        requires
            old(self).inv(),
            !old(self)@.parse_indent,
            old(self)@.i < old(self)@.input.len(),
            old(self)@.buffer.len() == 0,
        ensures
            final(self).inv(),
            ({
                let (m2, ritem) = scan_op_model(old(self)@, '0', TokenModel::NotEqualZero);
                &&& final(self)@ == m2
                &&& (match r {
                    Some(it) => ritem == Some(item_view(it)),
                    None => ritem is None,
                })
            }),
    {
        self.scan_compound('0', Token::NotEqualZero)
    }

    fn plus_eq_one(&mut self) -> (r: Option<LexerResult<'input>>)
        requires
            old(self).inv(),
            !old(self)@.parse_indent,
            old(self)@.i < old(self)@.input.len(),
            old(self)@.buffer.len() == 0,
        ensures
            final(self).inv(),
            ({
                let (m2, ritem) = scan_op_model(old(self)@, '1', TokenModel::PlusEqualOne);
                &&& final(self)@ == m2
                &&& (match r {
                    Some(it) => ritem == Some(item_view(it)),
                    None => ritem is None,
                })
            }),
    {
        self.scan_compound('1', Token::PlusEqualOne)
    }

    fn minus_eq_one(&mut self) -> (r: Option<LexerResult<'input>>)
        requires
            old(self).inv(),
            !old(self)@.parse_indent,
            old(self)@.i < old(self)@.input.len(),
            old(self)@.buffer.len() == 0,
        ensures
            final(self).inv(),
            ({
                let (m2, ritem) = scan_op_model(old(self)@, '1', TokenModel::MinusEqualOne);
                &&& final(self)@ == m2
                &&& (match r {
                    Some(it) => ritem == Some(item_view(it)),
                    None => ritem is None,
                })
            }),
    {
        self.scan_compound('1', Token::MinusEqualOne)
    }

    /// Yields the next item of the stream: a positioned token, a lexing
    /// error the caller may choose to stop on, or nothing once the input
    /// and the synthesized trailing unindents are exhausted.
    pub fn next(&mut self) -> (r: Option<LexerResult<'input>>)
        requires
            old(self).inv(),
        ensures
            final(self).inv(),
            ({
                let (m2, ritem) = lex_next(old(self)@);
                &&& final(self)@ == m2
                &&& (match r {
                    Some(it) => ritem == Some(item_view(it)),
                    None => ritem is None,
                })
            }),
    {
        proof {
            lemma_indent_balance(old(self)@);
        }
        loop
            invariant
                self.inv(),
                lex_next(old(self)@) == lex_next(self@),
            decreases
                    self@.input.len() - self@.i,
                    (if self@.parse_indent { 1int } else { 0int }),
                    (if !(0 <= self@.i < self@.input.len()) && self@.indent_count > 0 {
                        1int
                    } else {
                        0int
                    }),
                    self@.buffer.len(),
        {
            let ghost mp = self@;
            if self.buffer.len() > 0 {
                let it = match self.buffer.pop() {
                    Some(x) => x,
                    None => {
                        proof {
                            assert(false);
                        }
                        vstd::pervasive::unreached()
                    }
                };
                proof {
                    assert(items_view(self.buffer@) =~= mp.buffer.drop_last());
                    assert(item_view(it) == mp.buffer.last());
                }
                return Some(it);
            }
            if self.parse_indent && self.i < self.n {
                let c = self.input.get_char(self.i);
                if c != ' ' {
                    self.handle_indent();
                    continue ;
                }
            }
            if self.i >= self.n {
                if self.indent_count > 0 {
                    proof {
                        lemma_eoi_flush_wf(self@);
                    }
                    let loc = self.current_pos();
                    let tc = self.indent_count as usize;
                    proof {
                        self.tunind = Ghost(self.tunind@ + self.indent_count as int);
                    }
                    self.indent_count = 0;
                    let mut buf: Vec<LexerResult<'input>> = Vec::new();
                    let mut k: usize = 0;
                    while k < tc
                        invariant
                            k <= tc,
                            buf@.len() == k,
                            items_view(buf@) =~= repeat_item(
                                Ok((loc.deep_view(), TokenModel::Unindent, loc.deep_view())),
                                k as nat,
                            ),
                        decreases tc - k,
                    {
                        let ghost bprev = buf@;
                        buf.push(Ok((loc, Token::Unindent, loc)));
                        k += 1;
                        proof {
                            lemma_items_view_push(bprev, Ok((loc, Token::Unindent, loc)));
                            assert(items_view(buf@) =~= repeat_item(
                                Ok((loc.deep_view(), TokenModel::Unindent, loc.deep_view())),
                                k as nat,
                            ));
                        }
                    }
                    self.buffer = buf;
                    proof {
                        assert(self@ =~~= eoi_flush_model(mp));
                    }
                    continue ;
                }
                return None;
            }
            let c = self.input.get_char(self.i);
            if c == ' ' {
                self.incr_pos();
                if self.parse_indent {
                    self.indent_level = self.indent_level + 1;
                }
                proof {
                    assert(self@ =~~= step_space(mp));
                }
                continue ;
            }
            if c == '\n' {
                self.incr_line();
                continue ;
            }
            if c == '\t' {
                let p = self.current_pos();
                self.incr_pos();
                return Some(Err(LexerError::new(p, LexerErrorKind::TabIndent)));
            }
            if c == '\r' {
                self.incr_pos();
                continue ;
            }
            if c == '#' {
                self.incr_pos();
                proof {
                    lemma_comment_bounds(self@);
                }
                self.comment();
                continue ;
            }
            if c == '!' {
                return self.not_eq_zero();
            }
            if c == '+' {
                return self.plus_eq_one();
            }
            if c == '-' {
                return self.minus_eq_one();
            }
            let p = self.current_pos();
            match single_char_token(c) {
                Some(tk) => {
                    self.incr_pos();
                    return Some(Ok((p, tk, self.current_pos())));
                }
                None => {
                    let start_idx = self.i;
                    self.incr_pos();
                    let ghost m1 = self@;
                    loop
                        invariant
                            self.inv(),
                            self.n == self.input@.len(),
                            m1.i <= self@.i <= self@.input.len(),
                            self@ == step_pos_n(m1, self@.i - m1.i),
                            forall|k: int|
                                m1.i <= k < self@.i ==> !spec_is_separator(self@.input[k]),
                        ensures
                            self.inv(),
                            self.n == self.input@.len(),
                            m1.i <= self@.i <= self@.input.len(),
                            self@ == step_pos_n(m1, self@.i - m1.i),
                            forall|k: int|
                                m1.i <= k < self@.i ==> !spec_is_separator(self@.input[k]),
                            self@.i == self@.input.len() || spec_is_separator(
                                self@.input[self@.i],
                            ),
                        decreases self@.input.len() - self@.i,
                    {
                        if self.i >= self.n {
                            break ;
                        }
                        let cn = self.input.get_char(self.i);
                        if is_separator(cn) {
                            break ;
                        }
                        self.incr_pos();
                        proof {
                            assert(self@ =~~= step_pos_n(m1, self@.i - m1.i));
                        }
                    }
                    proof {
                        lemma_ident_end_from_run(self@.input, m1.i, self@.i);
                    }
                    let lexeme = self.input.substring_char(start_idx, self.i);
                    let token = Token::from_lexeme(lexeme);
                    return Some(Ok((p, token, self.current_pos())));
                }
            }
        }
    }
}

} // verus!
