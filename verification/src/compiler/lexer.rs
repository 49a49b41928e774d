//! Cursor-based lexer over raw source text.
//!
//! The lexer produces one token per call, advancing monotonically; the
//! mathematical model is `spec_next_token`, a declarative description of
//! the token found at a character position of the input.  Bracket strings
//! and bracket comments are level-checked: an opener `[`+N`=`+`[` is only
//! closed by `]`+N`=`+`]` with the same N, and an unterminated bracket
//! construct is reported as malformed input carrying the position where
//! the offending token starts.

use vstd::prelude::*;
use vstd::string::StrSliceExecFns;
use crate::text::push_char;
use crate::text::str_eq;

verus! {

/// A lexical token, carrying its literal text (content for strings and
/// comments, the single character for symbols).
#[derive(Debug, PartialEq)]
pub enum Token {
    Identifier(String),
    Number(String),
    StringLiteral(String),
    Symbol(char),
    Keyword(String),
    Comment(String),
    Whitespace,
    Eof,
}

/// Mathematical model of a token: the same variants over `Seq<char>`.
pub enum TokenView {
    Identifier(Seq<char>),
    Number(Seq<char>),
    StringLiteral(Seq<char>),
    Symbol(char),
    Keyword(Seq<char>),
    Comment(Seq<char>),
    Whitespace,
    Eof,
}

impl View for Token {
    type V = TokenView;

    open spec fn view(&self) -> TokenView {
        match self {
            Token::Identifier(s) => TokenView::Identifier(s@),
            Token::Number(s) => TokenView::Number(s@),
            Token::StringLiteral(s) => TokenView::StringLiteral(s@),
            Token::Symbol(c) => TokenView::Symbol(*c),
            Token::Keyword(s) => TokenView::Keyword(s@),
            Token::Comment(s) => TokenView::Comment(s@),
            Token::Whitespace => TokenView::Whitespace,
            Token::Eof => TokenView::Eof,
        }
    }
}

/// Fatal tokenizer condition: an unterminated bracket string or bracket
/// comment, carrying the cursor position of the token that began it.
#[derive(Debug, PartialEq, Clone, Copy)]
pub struct MalformedInput {
    pub position: usize,
}

// ---------------------------------------------------------------------
// Character classes
// ---------------------------------------------------------------------

/// The Unicode white-space characters (the set recognised by
/// `char::is_whitespace`).
pub open spec fn is_space_char(c: char) -> bool {
    ||| c == ' '
    ||| c == '\t'
    ||| c == '\n'
    ||| c == '\r'
    ||| c == '\u{b}'
    ||| c == '\u{c}'
    ||| c == '\u{85}'
    ||| c == '\u{a0}'
    ||| c == '\u{1680}'
    ||| ('\u{2000}' as u32 <= c as u32 && c as u32 <= '\u{200a}' as u32)
    ||| c == '\u{2028}'
    ||| c == '\u{2029}'
    ||| c == '\u{202f}'
    ||| c == '\u{205f}'
    ||| c == '\u{3000}'
}

pub open spec fn is_digit_char(c: char) -> bool {
    '0' as u32 <= c as u32 && c as u32 <= '9' as u32
}

/// First character of an identifier: an ASCII letter or an underscore.
pub open spec fn is_ident_start_char(c: char) -> bool {
    ||| ('a' as u32 <= c as u32 && c as u32 <= 'z' as u32)
    ||| ('A' as u32 <= c as u32 && c as u32 <= 'Z' as u32)
    ||| c == '_'
}

/// Continuation character of an identifier.
pub open spec fn is_ident_char(c: char) -> bool {
    is_ident_start_char(c) || is_digit_char(c)
}

/// Character of a number literal: digits and a dot (documented
/// limitation: no exponents, hex or signs).
pub open spec fn is_number_char(c: char) -> bool {
    is_digit_char(c) || c == '.'
}

/// The maximal-run character classes the lexer consumes.
#[derive(Clone, Copy, PartialEq, Eq, Structural, Debug)]
pub enum CharClass {
    /// Unicode white space.
    Space,
    /// Identifier continuation characters.
    Word,
    /// Digits and dots.
    Number,
    /// `=` signs inside a bracket opener or closer.
    Equals,
    /// Everything up to (not including) the next line break.
    NotNewline,
}

pub open spec fn class_pred(class: CharClass, c: char) -> bool {
    match class {
        CharClass::Space => is_space_char(c),
        CharClass::Word => is_ident_char(c),
        CharClass::Number => is_number_char(c),
        CharClass::Equals => c == '=',
        CharClass::NotNewline => c != '\n',
    }
}

/// End of the maximal run of `class` characters starting at `i`.
pub open spec fn run_end(s: Seq<char>, i: int, class: CharClass) -> int
    decreases s.len() - i when 0 <= i <= s.len()
{
    if i < s.len() && class_pred(class, s[i]) {
        run_end(s, i + 1, class)
    } else {
        i
    }
}

pub proof fn lemma_run_end(s: Seq<char>, i: int, class: CharClass)
    requires
        0 <= i <= s.len(),
    ensures
        i <= run_end(s, i, class) <= s.len(),
        forall|k: int| i <= k < run_end(s, i, class) ==> class_pred(class, s[k]),
        run_end(s, i, class) < s.len() ==> !class_pred(class, s[run_end(s, i, class)]),
    decreases s.len() - i,
{
    if i < s.len() && class_pred(class, s[i]) {
        lemma_run_end(s, i + 1, class);
    }
}

// ---------------------------------------------------------------------
// Bracket strings and bracket comments
// ---------------------------------------------------------------------

/// True when a level-`level` closer (`]` + level `=` + `]`) starts at `j`.
pub open spec fn is_closer_at(s: Seq<char>, j: int, level: int) -> bool {
    &&& 0 <= j
    &&& 0 <= level
    &&& j + level + 2 <= s.len()
    &&& s[j] == ']'
    &&& s[j + level + 1] == ']'
    &&& forall|k: int| j < k < j + level + 1 ==> s[k] == '='
}

/// Position of the first level-`level` closer at or after `i`, or -1.
pub open spec fn find_closer(s: Seq<char>, i: int, level: int) -> int
    decreases s.len() - i when 0 <= i <= s.len() && 0 <= level
{
    if i + level + 2 > s.len() {
        -1
    } else if is_closer_at(s, i, level) {
        i
    } else {
        find_closer(s, i + 1, level)
    }
}

pub proof fn lemma_find_closer(s: Seq<char>, i: int, level: int)
    requires
        0 <= i <= s.len(),
        0 <= level,
    ensures
        find_closer(s, i, level) == -1 || (i <= find_closer(s, i, level)
            && is_closer_at(s, find_closer(s, i, level), level)),
    decreases s.len() - i,
{
    if i + level + 2 > s.len() {
    } else if is_closer_at(s, i, level) {
    } else {
        lemma_find_closer(s, i + 1, level);
    }
}

/// Level of the bracket opener starting at `i` (`[` + N `=` + `[`),
/// or -1 when no opener starts there.
pub open spec fn bracket_level(s: Seq<char>, i: int) -> int {
    if 0 <= i < s.len() && s[i] == '[' {
        let e = run_end(s, i + 1, CharClass::Equals);
        if e < s.len() && s[e] == '[' {
            e - (i + 1)
        } else {
            -1
        }
    } else {
        -1
    }
}

pub proof fn lemma_bracket_level(s: Seq<char>, i: int)
    requires
        0 <= i <= s.len(),
        bracket_level(s, i) >= 0,
    ensures
        i + bracket_level(s, i) + 2 <= s.len(),
        s[i] == '[',
        s[i + bracket_level(s, i) + 1] == '[',
        forall|k: int| i < k < i + bracket_level(s, i) + 1 ==> s[k] == '=',
{
    lemma_run_end(s, i + 1, CharClass::Equals);
}

/// Result of scanning a bracket-delimited body.
pub enum BracketScan {
    /// The body's content and the position just past the closer.
    Done(Seq<char>, int),
    /// No matching same-level closer before the end of the input.
    Unterminated,
}

/// Scans the body of the bracket construct whose opener starts at `i`:
/// one newline immediately after the opener is discarded (host-language
/// convention), and the content runs to the first same-level closer.
pub open spec fn scan_bracket_body(s: Seq<char>, i: int) -> BracketScan {
    let n = bracket_level(s, i);
    let cs0 = i + n + 2;
    let cs = if cs0 < s.len() && s[cs0] == '\n' {
        cs0 + 1
    } else {
        cs0
    };
    let j = find_closer(s, cs, n);
    if j == -1 {
        BracketScan::Unterminated
    } else {
        BracketScan::Done(s.subrange(cs, j), j + n + 2)
    }
}

// ---------------------------------------------------------------------
// Quoted string literals
// ---------------------------------------------------------------------

/// Scans a quoted literal's content from `k` (just past the opening
/// quote `q`): a backslash escape consumes exactly the following
/// character verbatim; the scan ends at the closing quote or at the end
/// of the input.  Returns the content and the position after the scan.
pub open spec fn scan_quoted(s: Seq<char>, k: int, q: char) -> (Seq<char>, int)
    decreases s.len() - k when 0 <= k <= s.len()
{
    if k >= s.len() {
        (Seq::<char>::empty(), k)
    } else if s[k] == q {
        (Seq::<char>::empty(), k + 1)
    } else if s[k] == '\\' {
        if k + 1 < s.len() {
            let r = scan_quoted(s, k + 2, q);
            (seq![s[k + 1]] + r.0, r.1)
        } else {
            (Seq::<char>::empty(), s.len() as int)
        }
    } else {
        let r = scan_quoted(s, k + 1, q);
        (seq![s[k]] + r.0, r.1)
    }
}

pub proof fn lemma_scan_quoted(s: Seq<char>, k: int, q: char)
    requires
        0 <= k <= s.len(),
    ensures
        k <= scan_quoted(s, k, q).1 <= s.len(),
        k < s.len() ==> k < scan_quoted(s, k, q).1,
    decreases s.len() - k,
{
    if k >= s.len() {
    } else if s[k] == q {
    } else if s[k] == '\\' {
        if k + 1 < s.len() {
            lemma_scan_quoted(s, k + 2, q);
        }
    } else {
        lemma_scan_quoted(s, k + 1, q);
    }
}

// ---------------------------------------------------------------------
// Keywords
// ---------------------------------------------------------------------

/// The fixed reserved-word set.
pub open spec fn is_keyword(w: Seq<char>) -> bool {
    ||| w == "if"@
    ||| w == "then"@
    ||| w == "else"@
    ||| w == "elseif"@
    ||| w == "while"@
    ||| w == "for"@
    ||| w == "function"@
    ||| w == "local"@
    ||| w == "return"@
    ||| w == "do"@
    ||| w == "end"@
    ||| w == "break"@
    ||| w == "not"@
    ||| w == "and"@
    ||| w == "or"@
    ||| w == "in"@
}

// ---------------------------------------------------------------------
// The token at a position
// ---------------------------------------------------------------------

/// One step of the tokenizer.
pub enum ScanStep {
    /// The token found and the position just past it.
    Emit(TokenView, int),
    /// Malformed input: the position where the offending token starts.
    Bad(int),
}

/// The token at character position `i` of `s`, and where the next one
/// starts.  This is the lexer's complete functional specification.
pub open spec fn spec_next_token(s: Seq<char>, i: int) -> ScanStep {
    if i >= s.len() {
        ScanStep::Emit(TokenView::Eof, i)
    } else {
        let c = s[i];
        if is_space_char(c) {
            ScanStep::Emit(TokenView::Whitespace, run_end(s, i, CharClass::Space))
        } else if c == '[' {
            if bracket_level(s, i) >= 0 {
                match scan_bracket_body(s, i) {
                    BracketScan::Done(content, end) => ScanStep::Emit(
                        TokenView::StringLiteral(content),
                        end,
                    ),
                    BracketScan::Unterminated => ScanStep::Bad(i),
                }
            } else {
                ScanStep::Emit(TokenView::Symbol('['), i + 1)
            }
        } else if c == '-' {
            if i + 1 < s.len() && s[i + 1] == '-' {
                if bracket_level(s, i + 2) >= 0 {
                    match scan_bracket_body(s, i + 2) {
                        BracketScan::Done(content, end) => ScanStep::Emit(
                            TokenView::Comment(content),
                            end,
                        ),
                        BracketScan::Unterminated => ScanStep::Bad(i),
                    }
                } else {
                    let e = run_end(s, i + 2, CharClass::NotNewline);
                    ScanStep::Emit(TokenView::Comment(s.subrange(i + 2, e)), e)
                }
            } else {
                ScanStep::Emit(TokenView::Symbol('-'), i + 1)
            }
        } else if is_ident_start_char(c) {
            let e = run_end(s, i, CharClass::Word);
            let w = s.subrange(i, e);
            if is_keyword(w) {
                ScanStep::Emit(TokenView::Keyword(w), e)
            } else {
                ScanStep::Emit(TokenView::Identifier(w), e)
            }
        } else if is_digit_char(c) {
            let e = run_end(s, i, CharClass::Number);
            ScanStep::Emit(TokenView::Number(s.subrange(i, e)), e)
        } else if c == '"' || c == '\'' {
            let r = scan_quoted(s, i + 1, c);
            ScanStep::Emit(TokenView::StringLiteral(r.0), r.1)
        } else {
            ScanStep::Emit(TokenView::Symbol(c), i + 1)
        }
    }
}

/// Every emitted token other than end-of-input strictly advances the
/// cursor, and end-of-input is emitted exactly at the end of the buffer.
pub proof fn lemma_next_token_advances(s: Seq<char>, i: int)
    requires
        0 <= i <= s.len(),
    ensures
        match spec_next_token(s, i) {
            ScanStep::Emit(t, j) => {
                &&& i <= j <= s.len()
                &&& (t != TokenView::Eof ==> i < j)
                &&& (t == TokenView::Eof ==> j == i && i == s.len())
            },
            ScanStep::Bad(p) => p == i,
        },
{
    if i < s.len() {
        let c = s[i];
        if is_space_char(c) {
            lemma_run_end(s, i, CharClass::Space);
            assert(run_end(s, i, CharClass::Space) > i);
        } else if c == '[' {
            if bracket_level(s, i) >= 0 {
                lemma_scan_bracket_body(s, i);
            }
        } else if c == '-' {
            if i + 1 < s.len() && s[i + 1] == '-' {
                if bracket_level(s, i + 2) >= 0 {
                    lemma_scan_bracket_body(s, i + 2);
                } else {
                    lemma_run_end(s, i + 2, CharClass::NotNewline);
                }
            }
        } else if is_ident_start_char(c) {
            lemma_run_end(s, i, CharClass::Word);
        } else if is_digit_char(c) {
            lemma_run_end(s, i, CharClass::Number);
        } else if c == '"' || c == '\'' {
            lemma_scan_quoted(s, i + 1, c);
        }
    }
}

pub proof fn lemma_scan_bracket_body(s: Seq<char>, i: int)
    requires
        0 <= i <= s.len(),
        bracket_level(s, i) >= 0,
    ensures
        match scan_bracket_body(s, i) {
            BracketScan::Done(content, end) => i < end <= s.len(),
            BracketScan::Unterminated => true,
        },
{
    let n = bracket_level(s, i);
    lemma_bracket_level(s, i);
    let cs0 = i + n + 2;
    let cs = if cs0 < s.len() && s[cs0] == '\n' {
        cs0 + 1
    } else {
        cs0
    };
    lemma_find_closer(s, cs, n);
}

// ---------------------------------------------------------------------
// Exact-scan lemmas: where a scan ends when the text is known
// ---------------------------------------------------------------------

/// A run of `class` characters from `i` that stops exactly at `j`.
pub proof fn lemma_run_end_exact(s: Seq<char>, i: int, j: int, class: CharClass)
    requires
        0 <= i <= j <= s.len(),
        forall|k: int| i <= k < j ==> class_pred(class, s[k]),
        j == s.len() || !class_pred(class, s[j]),
    ensures
        run_end(s, i, class) == j,
    decreases j - i,
{
    if i < j {
        lemma_run_end_exact(s, i + 1, j, class);
    }
}

/// The first closer at or after `i` sits exactly at `j`.
pub proof fn lemma_find_closer_exact(s: Seq<char>, i: int, j: int, level: int)
    requires
        0 <= i <= j,
        0 <= level,
        forall|k: int| i <= k < j ==> !is_closer_at(s, k, level),
        is_closer_at(s, j, level),
    ensures
        find_closer(s, i, level) == j,
    decreases j - i,
{
    if i < j {
        lemma_find_closer_exact(s, i + 1, j, level);
    }
}

/// A quoted scan over plain content (no quote, no backslash) ends at
/// the closing quote.
pub proof fn lemma_scan_quoted_exact(s: Seq<char>, k: int, j: int, q: char)
    requires
        0 <= k <= j < s.len(),
        forall|m: int| k <= m < j ==> s[m] != q && s[m] != '\\',
        s[j] == q,
    ensures
        scan_quoted(s, k, q) == (s.subrange(k, j), j + 1),
    decreases j - k,
{
    if k == j {
        assert(s.subrange(k, j) =~= Seq::<char>::empty());
    } else {
        lemma_scan_quoted_exact(s, k + 1, j, q);
        assert(s.subrange(k, j) =~= seq![s[k]] + s.subrange(k + 1, j));
    }
}

// ---------------------------------------------------------------------
// Executable character classification
// ---------------------------------------------------------------------

pub fn is_space(c: char) -> (r: bool)
    ensures
        r == is_space_char(c),
{
    c == ' ' || c == '\t' || c == '\n' || c == '\r' || c == '\u{b}' || c == '\u{c}' || c
        == '\u{85}' || c == '\u{a0}' || c == '\u{1680}' || ('\u{2000}' as u32 <= c as u32 && c
        as u32 <= '\u{200a}' as u32) || c == '\u{2028}' || c == '\u{2029}' || c == '\u{202f}' || c
        == '\u{205f}' || c == '\u{3000}'
}

pub fn is_digit(c: char) -> (r: bool)
    ensures
        r == is_digit_char(c),
{
    '0' as u32 <= c as u32 && c as u32 <= '9' as u32
}

pub fn is_ident_start(c: char) -> (r: bool)
    ensures
        r == is_ident_start_char(c),
{
    ('a' as u32 <= c as u32 && c as u32 <= 'z' as u32) || ('A' as u32 <= c as u32 && c as u32 <= 'Z'
        as u32) || c == '_'
}

fn class_check(class: CharClass, c: char) -> (r: bool)
    ensures
        r == class_pred(class, c),
{
    match class {
        CharClass::Space => is_space(c),
        CharClass::Word => is_ident_start(c) || is_digit(c),
        CharClass::Number => is_digit(c) || c == '.',
        CharClass::Equals => c == '=',
        CharClass::NotNewline => c != '\n',
    }
}

fn is_keyword_exec(w: &String) -> (r: bool)
    ensures
        r == is_keyword(w@),
{
    let ws = w.as_str();
    str_eq(ws, "if") || str_eq(ws, "then") || str_eq(ws, "else") || str_eq(ws, "elseif") || str_eq(
        ws,
        "while",
    ) || str_eq(ws, "for") || str_eq(ws, "function") || str_eq(ws, "local") || str_eq(ws, "return")
        || str_eq(ws, "do") || str_eq(ws, "end") || str_eq(ws, "break") || str_eq(ws, "not")
        || str_eq(ws, "and") || str_eq(ws, "or") || str_eq(ws, "in")
}

// ---------------------------------------------------------------------
// The lexer
// ---------------------------------------------------------------------

/// A cursor over an immutable text buffer, producing one token per
/// `next_token` call.  The position counts characters, not bytes.
pub struct Lexer<'a> {
    input: &'a str,
    position: usize,
}

impl<'a> Lexer<'a> {
    /// The text being tokenized.
    pub closed spec fn src(&self) -> Seq<char> {
        self.input@
    }

    /// The cursor, as a character index into `src()`.
    pub closed spec fn pos(&self) -> int {
        self.position as int
    }

    /// The cursor never runs past the end of the buffer, and the
    /// buffer's character count is machine-representable.
    pub closed spec fn wf(&self) -> bool {
        self.position <= self.input@.len() && self.input@.len() <= usize::MAX
    }

    pub fn new(input: &'a str) -> (l: Lexer<'a>)
        ensures
            l.wf(),
            l.src() == input@,
            l.pos() == 0,
    {
        let _ = input.unicode_len();
        Lexer { input, position: 0 }
    }

    fn next_char(&self) -> (r: Option<char>)
        requires
            self.wf(),
        ensures
            match r {
                Some(c) => self.pos() < self.src().len() && c == self.src()[self.pos()],
                None => self.pos() == self.src().len(),
            },
    {
        if self.position < self.input.unicode_len() {
            Some(self.input.get_char(self.position))
        } else {
            None
        }
    }

    fn bump(&mut self) -> (r: Option<char>)
        requires
            old(self).wf(),
        ensures
            final(self).wf(),
            final(self).src() == old(self).src(),
            old(self).pos() < old(self).src().len() ==> final(self).pos() == old(self).pos() + 1
                && r == Some(old(self).src()[old(self).pos()]),
            old(self).pos() == old(self).src().len() ==> final(self).pos() == old(self).pos() && r
                is None,
    {
        match self.next_char() {
            Some(c) => {
                self.position = self.position + 1;
                Some(c)
            },
            None => None,
        }
    }

    fn peek(&self, offset: usize) -> (r: Option<char>)
        requires
            self.wf(),
        ensures
            match r {
                Some(c) => self.pos() + offset < self.src().len() && c == self.src()[self.pos()
                    + offset],
                None => self.pos() + offset >= self.src().len(),
            },
    {
        let len = self.input.unicode_len();
        let rem = len - self.position;
        if offset < rem {
            Some(self.input.get_char(self.position + offset))
        } else {
            None
        }
    }

    /// Consumes the maximal run of `class` characters and returns it.
    fn consume_while(&mut self, class: CharClass) -> (out: String)
        requires
            old(self).wf(),
        ensures
            final(self).wf(),
            final(self).src() == old(self).src(),
            final(self).pos() == run_end(old(self).src(), old(self).pos(), class),
            out@ == old(self).src().subrange(old(self).pos(), final(self).pos()),
    {
        let ghost s = self.input@;
        let start = self.position;
        loop
            invariant
                self.wf(),
                self.src() == s,
                start <= self.position,
                run_end(s, self.position as int, class) == run_end(s, start as int, class),
            ensures
                self.wf(),
                self.src() == s,
                start <= self.position,
                self.position as int == run_end(s, start as int, class),
            decreases s.len() - self.position,
        {
            let oc = self.next_char();
            match oc {
                Some(c) => {
                    if class_check(class, c) {
                        let _ = self.bump();
                    } else {
                        break ;
                    }
                },
                None => {
                    break ;
                },
            }
        }
        self.input.substring_char(start, self.position).to_owned()
    }

    /// Level of the bracket opener starting at character `at`, if any.
    fn opener_level_at(&self, at: usize) -> (r: Option<usize>)
        requires
            self.wf(),
            at as int <= self.src().len(),
        ensures
            match r {
                Some(n) => bracket_level(self.src(), at as int) == n as int && at + n + 2
                    <= self.src().len(),
                None => bracket_level(self.src(), at as int) == -1,
            },
    {
        let ghost s = self.input@;
        let len = self.input.unicode_len();
        if at >= len {
            return None;
        }
        if self.input.get_char(at) != '[' {
            return None;
        }
        let mut e = at + 1;
        loop
            invariant
                at + 1 <= e <= len,
                len == s.len(),
                self.wf(),
                self.src() == s,
                run_end(s, e as int, CharClass::Equals) == run_end(
                    s,
                    at + 1 as int,
                    CharClass::Equals,
                ),
            ensures
                at + 1 <= e <= len,
                e as int == run_end(s, at + 1 as int, CharClass::Equals),
            decreases len - e,
        {
            if e >= len {
                break ;
            }
            if self.input.get_char(e) != '=' {
                break ;
            }
            e = e + 1;
        }
        if e < len {
            if self.input.get_char(e) == '[' {
                return Some(e - (at + 1));
            }
        }
        None
    }

    /// Position of the first same-level closer at or after `from`.
    fn find_closer_from(&self, from: usize, level: usize) -> (r: Option<usize>)
        requires
            self.wf(),
            from as int <= self.src().len(),
            level as int + 2 <= self.src().len(),
        ensures
            match r {
                Some(j) => find_closer(self.src(), from as int, level as int) == j as int && j
                    + level + 2 <= self.src().len(),
                None => find_closer(self.src(), from as int, level as int) == -1,
            },
    {
        let ghost s = self.input@;
        let len = self.input.unicode_len();
        let mut j = from;
        loop
            invariant
                from <= j <= len,
                len == s.len(),
                level as int + 2 <= s.len(),
                self.wf(),
                self.src() == s,
                find_closer(s, j as int, level as int) == find_closer(
                    s,
                    from as int,
                    level as int,
                ),
            decreases len - j,
        {
            if len - j < level + 2 {
                return None;
            }
            if self.closer_at(j, level) {
                return Some(j);
            }
            j = j + 1;
        }
    }

    /// Checks for a level-`level` closer starting at `j`.
    fn closer_at(&self, j: usize, level: usize) -> (r: bool)
        requires
            self.wf(),
            j as int <= self.src().len(),
            level as int + 2 <= self.src().len(),
        ensures
            r == is_closer_at(self.src(), j as int, level as int),
    {
        let ghost s = self.input@;
        let len = self.input.unicode_len();
        if len - j < level + 2 {
            return false;
        }
        if self.input.get_char(j) != ']' {
            return false;
        }
        if self.input.get_char(j + level + 1) != ']' {
            return false;
        }
        let mut k = j + 1;
        loop
            invariant
                j + 1 <= k <= j + level + 1,
                j + level + 2 <= len == s.len(),
                self.wf(),
                self.src() == s,
                forall|m: int| j < m < k ==> s[m] == '=',
            ensures
                k == j + level + 1,
                forall|m: int| j < m < k ==> s[m] == '=',
            decreases j + level + 1 - k,
        {
            if k >= j + level + 1 {
                break ;
            }
            if self.input.get_char(k) != '=' {
                return false;
            }
            k = k + 1;
        }
        true
    }

    /// Consumes a bracket string whose opener starts at the cursor;
    /// returns its content, or `None` when no same-level closer exists
    /// before the end of the input.
    fn consume_long_bracket_string(&mut self) -> (r: Option<String>)
        requires
            old(self).wf(),
            bracket_level(old(self).src(), old(self).pos()) >= 0,
        ensures
            final(self).wf(),
            final(self).src() == old(self).src(),
            ({
                let scan = scan_bracket_body(old(self).src(), old(self).pos());
                match r {
                    Some(content) => scan matches BracketScan::Done(c, end) && content@ == c
                        && final(self).pos() == end,
                    None => scan is Unterminated,
                }
            }),
    {
        let ghost s = self.input@;
        let start = self.position;
        let level = self.opener_level_at(start).unwrap();
        let len = self.input.unicode_len();
        proof {
            lemma_bracket_level(s, start as int);
        }
        let cs0 = start + level + 2;
        let mut cs = cs0;
        if cs0 < len {
            if self.input.get_char(cs0) == '\n' {
                cs = cs0 + 1;
            }
        }
        match self.find_closer_from(cs, level) {
            None => {
                self.position = start;
                None
            },
            Some(j) => {
                proof {
                    lemma_find_closer(s, cs as int, level as int);
                }
                let content = self.input.substring_char(cs, j).to_owned();
                self.position = j + level + 2;
                Some(content)
            },
        }
    }

    /// Produces the next token of the input, or reports malformed input
    /// (an unterminated bracket construct) with the position at which
    /// the offending token starts; the cursor is then left where it
    /// was.  Once the buffer is exhausted, every call returns
    /// `Token::Eof`.
    pub fn next_token(&mut self) -> (r: Result<Token, MalformedInput>)
        requires
            old(self).wf(),
        ensures
            final(self).wf(),
            final(self).src() == old(self).src(),
            match r {
                Ok(t) => spec_next_token(old(self).src(), old(self).pos()) == ScanStep::Emit(
                    t@,
                    final(self).pos(),
                ),
                Err(e) => spec_next_token(old(self).src(), old(self).pos()) == ScanStep::Bad(
                    e.position as int,
                ) && final(self).pos() == old(self).pos(),
            },
    {
        let ghost s = self.input@;
        let start = self.position;
        let c = match self.next_char() {
            Some(c) => c,
            None => {
                return Ok(Token::Eof);
            },
        };
        if is_space(c) {
            let _ = self.consume_while(CharClass::Space);
            return Ok(Token::Whitespace);
        }
        if c == '[' {
            match self.opener_level_at(start) {
                Some(_) => {
                    match self.consume_long_bracket_string() {
                        Some(content) => {
                            return Ok(Token::StringLiteral(content));
                        },
                        None => {
                            self.position = start;
                            return Err(MalformedInput { position: start });
                        },
                    }
                },
                None => {
                    let _ = self.bump();
                    return Ok(Token::Symbol('['));
                },
            }
        }
        if c == '-' {
            let two = match self.peek(1) {
                Some(c1) => c1 == '-',
                None => false,
            };
            if two {
                match self.opener_level_at(start + 2) {
                    Some(_) => {
                        self.position = start + 2;
                        match self.consume_long_bracket_string() {
                            Some(content) => {
                                return Ok(Token::Comment(content));
                            },
                            None => {
                                self.position = start;
                                return Err(MalformedInput { position: start });
                            },
                        }
                    },
                    None => {
                        self.position = start + 2;
                        let content = self.consume_while(CharClass::NotNewline);
                        return Ok(Token::Comment(content));
                    },
                }
            } else {
                let _ = self.bump();
                return Ok(Token::Symbol('-'));
            }
        }
        if is_ident_start(c) {
            let w = self.consume_while(CharClass::Word);
            if is_keyword_exec(&w) {
                return Ok(Token::Keyword(w));
            } else {
                return Ok(Token::Identifier(w));
            }
        }
        if is_digit(c) {
            let num = self.consume_while(CharClass::Number);
            return Ok(Token::Number(num));
        }
        if c == '"' || c == '\'' {
            let _ = self.bump();
            let mut content = String::new();
            loop
                invariant_except_break
                    self.wf(),
                    self.src() == s,
                    start as int + 1 <= self.pos() <= s.len(),
                    scan_quoted(s, start as int + 1, c) == ({
                        let rest = scan_quoted(s, self.pos(), c);
                        (content@ + rest.0, rest.1)
                    }),
                ensures
                    self.wf(),
                    self.src() == s,
                    self.pos() <= s.len(),
                    scan_quoted(s, start as int + 1, c) == (content@, self.pos()),
                decreases s.len() - self.position,
            {
                let ghost p = self.pos();
                let ghost prev = content@;
                let ch = match self.bump() {
                    Some(ch) => ch,
                    None => {
                        proof {
                            assert(scan_quoted(s, p, c) == (Seq::<char>::empty(), p));
                            assert(prev + Seq::<char>::empty() =~= prev);
                        }
                        break ;
                    },
                };
                if ch == c {
                    proof {
                        assert(scan_quoted(s, p, c) == (Seq::<char>::empty(), p + 1));
                        assert(prev + Seq::<char>::empty() =~= prev);
                    }
                    break ;
                }
                if ch == '\\' {
                    match self.bump() {
                        Some(e2) => {
                            push_char(&mut content, e2);
                            proof {
                                let rest = scan_quoted(s, p + 2, c);
                                assert(scan_quoted(s, p, c) == (seq![s[p + 1]] + rest.0, rest.1));
                                assert(content@ =~= prev + seq![e2]);
                                assert(content@ + rest.0 =~= prev + scan_quoted(s, p, c).0);
                            }
                        },
                        None => {
                            proof {
                                assert(scan_quoted(s, p, c) == (Seq::<char>::empty(), s.len() as int));
                                assert(prev + Seq::<char>::empty() =~= prev);
                            }
                            break ;
                        },
                    }
                } else {
                    push_char(&mut content, ch);
                    proof {
                        let rest = scan_quoted(s, p + 1, c);
                        assert(scan_quoted(s, p, c) == (seq![s[p]] + rest.0, rest.1));
                        assert(content@ =~= prev + seq![ch]);
                        assert(content@ + rest.0 =~= prev + scan_quoted(s, p, c).0);
                    }
                }
            }
            return Ok(Token::StringLiteral(content));
        }
        let _ = self.bump();
        Ok(Token::Symbol(c))
    }
}

} // verus!
