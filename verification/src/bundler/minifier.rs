//! Minifier: drives the tokenizer over a bundle, drops comments and
//! white space, and re-renders the remaining tokens compactly.

use vstd::prelude::*;
use vstd::string::StrSliceExecFns;
use vstd::string::StringExecFns;
use crate::compiler::lexer::Lexer;
use crate::compiler::lexer::MalformedInput;
use crate::compiler::lexer::ScanStep;
use crate::compiler::lexer::Token;
use crate::compiler::lexer::TokenView;
use crate::compiler::lexer::BracketScan;
use crate::compiler::lexer::CharClass;
use crate::compiler::lexer::bracket_level;
use crate::compiler::lexer::class_pred;
use crate::compiler::lexer::is_closer_at;
use crate::compiler::lexer::is_digit_char;
use crate::compiler::lexer::lemma_find_closer_exact;
use crate::compiler::lexer::lemma_run_end_exact;
use crate::compiler::lexer::lemma_scan_quoted_exact;
use crate::compiler::lexer::scan_bracket_body;
use crate::compiler::lexer::is_ident_char;
use crate::compiler::lexer::is_ident_start_char;
use crate::compiler::lexer::is_keyword;
use crate::compiler::lexer::is_number_char;
use crate::compiler::lexer::is_space_char;
use crate::compiler::lexer::lemma_next_token_advances;
use crate::compiler::lexer::spec_next_token;
use crate::text::push_char;

verus! {

/// Outcome of tokenizing a whole buffer: the token sequence up to (not
/// including) end-of-input, or the position of a malformed token.
pub enum LexOutcome {
    Tokens(Seq<TokenView>),
    Malformed(int),
}

/// The token sequence of `s` from position `i` on.
pub open spec fn spec_lex_from(s: Seq<char>, i: int) -> LexOutcome
    decreases s.len() - i when 0 <= i <= s.len() via spec_lex_from_decreases
{
    match spec_next_token(s, i) {
        ScanStep::Emit(t, j) => {
            if t is Eof {
                LexOutcome::Tokens(Seq::empty())
            } else {
                match spec_lex_from(s, j) {
                    LexOutcome::Tokens(ts) => LexOutcome::Tokens(seq![t] + ts),
                    LexOutcome::Malformed(p) => LexOutcome::Malformed(p),
                }
            }
        },
        ScanStep::Bad(p) => LexOutcome::Malformed(p),
    }
}

#[via_fn]
proof fn spec_lex_from_decreases(s: Seq<char>, i: int) {
    lemma_next_token_advances(s, i);
}

/// The tokens the minifier keeps: everything but comments and white
/// space.
pub open spec fn is_significant(t: TokenView) -> bool {
    !(t is Whitespace || t is Comment)
}

/// A token drawn from {identifier, keyword, number, string literal}:
/// two consecutive ones need a separating space.
pub open spec fn is_wordlike(t: TokenView) -> bool {
    t is Identifier || t is Keyword || t is Number || t is StringLiteral
}

/// The significant subsequence of a token sequence, in order.
pub open spec fn spec_significant(ts: Seq<TokenView>) -> Seq<TokenView>
    decreases ts.len(),
{
    if ts.len() == 0 {
        Seq::empty()
    } else if is_significant(ts.last()) {
        spec_significant(ts.drop_last()).push(ts.last())
    } else {
        spec_significant(ts.drop_last())
    }
}

pub open spec fn spec_contains_char(s: Seq<char>, c: char) -> bool {
    exists|i: int| 0 <= i < s.len() && s[i] == c
}

/// Re-rendering of a string literal: content with an embedded newline
/// or quote is wrapped in bracket-string form, everything else in
/// double quotes.
pub open spec fn spec_render_literal(content: Seq<char>) -> Seq<char> {
    if spec_contains_char(content, '\n') || spec_contains_char(content, '"')
        || spec_contains_char(content, '\'') {
        "[["@ + content + "]]"@
    } else {
        "\""@ + content + "\""@
    }
}

pub open spec fn spec_render_token(t: TokenView) -> Seq<char> {
    match t {
        TokenView::Identifier(w) => w,
        TokenView::Keyword(w) => w,
        TokenView::Number(w) => w,
        TokenView::StringLiteral(content) => spec_render_literal(content),
        TokenView::Symbol(c) => seq![c],
        _ => Seq::empty(),
    }
}

/// Rendering of a significant token sequence: the tokens in order,
/// with exactly one space between two consecutive tokens when both are
/// word-like, and no other separators.
pub open spec fn spec_render(ts: Seq<TokenView>) -> Seq<char>
    decreases ts.len(),
{
    if ts.len() == 0 {
        Seq::empty()
    } else {
        spec_render(ts.drop_last()) + (if ts.len() >= 2 && is_wordlike(ts[ts.len() - 2])
            && is_wordlike(ts.last()) {
            " "@
        } else {
            Seq::<char>::empty()
        }) + spec_render_token(ts.last())
    }
}

fn str_contains_char(s: &str, c: char) -> (r: bool)
    ensures
        r == spec_contains_char(s@, c),
{
    let len = s.unicode_len();
    let mut i: usize = 0;
    loop
        invariant
            0 <= i <= len,
            len == s@.len(),
            forall|k: int| 0 <= k < i ==> s@[k] != c,
        ensures
            i <= len == s@.len(),
            forall|k: int| 0 <= k < i ==> s@[k] != c,
            i < len ==> s@[i as int] == c,
        decreases len - i,
    {
        if i >= len {
            break ;
        }
        if s.get_char(i) == c {
            break ;
        }
        i = i + 1;
    }
    i < len
}

fn is_wordlike_token(t: &Token) -> (r: bool)
    ensures
        r == is_wordlike(t@),
{
    match t {
        Token::Identifier(_) => true,
        Token::Keyword(_) => true,
        Token::Number(_) => true,
        Token::StringLiteral(_) => true,
        _ => false,
    }
}

/// Minifies a bundle: tokenizes it to end-of-input, drops comment and
/// white-space tokens, and re-serializes the rest under the minimal
/// separator rule.  Fails exactly when the tokenizer finds malformed
/// input, reporting that position; no partial output is returned.
pub fn minify(source_bundle: &String) -> (r: Result<String, MalformedInput>)
    ensures
        match r {
            Ok(out) => spec_lex_from(source_bundle@, 0) matches LexOutcome::Tokens(ts) && out@
                == spec_render(spec_significant(ts)),
            Err(e) => spec_lex_from(source_bundle@, 0) == LexOutcome::Malformed(e.position as int),
        },
{
    let ghost s = source_bundle@;
    let mut lexer = Lexer::new(source_bundle.as_str());
    let mut result = String::new();
    let mut last_token: Option<Token> = None;
    let ghost mut done: Seq<TokenView> = Seq::empty();
    loop
        invariant_except_break
            s == source_bundle@,
            lexer.wf(),
            lexer.src() == s,
            0 <= lexer.pos() <= s.len(),
            spec_lex_from(s, 0) == (match spec_lex_from(s, lexer.pos()) {
                LexOutcome::Tokens(ts) => LexOutcome::Tokens(done + ts),
                LexOutcome::Malformed(p) => LexOutcome::Malformed(p),
            }),
            result@ == spec_render(spec_significant(done)),
            (match last_token {
                Some(t) => is_significant(t@) && spec_significant(done).len() > 0
                    && spec_significant(done).last() == t@,
                None => spec_significant(done).len() == 0,
            }),
        ensures
            s == source_bundle@,
            spec_lex_from(s, 0) matches LexOutcome::Tokens(ts) && result@ == spec_render(
                spec_significant(ts),
            ),
        decreases s.len() - lexer.pos(),
    {
        let ghost p = lexer.pos();
        proof {
            lemma_next_token_advances(s, p);
        }
        let token = match lexer.next_token() {
            Ok(t) => t,
            Err(e) => {
                proof {
                    assert(spec_lex_from(s, p) == LexOutcome::Malformed(e.position as int));
                }
                return Err(e);
            },
        };
        let ghost tv = token@;
        let ghost j = lexer.pos();
        if let Token::Eof = token {
            proof {
                assert(spec_lex_from(s, p) == LexOutcome::Tokens(Seq::<TokenView>::empty()));
                assert(done + Seq::<TokenView>::empty() =~= done);
            }
            break ;
        }
        // The token stream from p is this token followed by the stream
        // from j; fold the token into `done`.
        proof {
            assert(spec_next_token(s, p) == ScanStep::Emit(tv, j));
            assert(!(tv is Eof));
            if spec_lex_from(s, j) is Tokens {
                let ts = spec_lex_from(s, j)->Tokens_0;
                assert(spec_lex_from(s, p) == LexOutcome::Tokens(seq![tv] + ts));
                assert(done.push(tv) + ts =~= done + (seq![tv] + ts));
            }
            assert(done.push(tv).drop_last() =~= done);
            assert(done.push(tv).last() == tv);
        }
        match &token {
            Token::Comment(_) | Token::Whitespace => {
                proof {
                    assert(spec_significant(done.push(tv)) =~= spec_significant(done));
                    done = done.push(tv);
                }
            },
            Token::Identifier(cur) | Token::Keyword(cur) | Token::Number(cur) => {
                let ghost sig_prev = spec_significant(done);
                let need_space = match &last_token {
                    Some(lt) => is_wordlike_token(lt),
                    None => false,
                };
                if need_space {
                    result.append(" ");
                }
                result.append(cur.as_str());
                proof {
                    assert(spec_significant(done.push(tv)) =~= sig_prev.push(tv));
                    lemma_render_push(sig_prev, tv);
                    assert(result@ =~= spec_render(sig_prev) + (if need_space {
                        " "@
                    } else {
                        Seq::<char>::empty()
                    }) + spec_render_token(tv));
                    done = done.push(tv);
                }
                last_token = Some(token);
            },
            Token::StringLiteral(content) => {
                let ghost sig_prev = spec_significant(done);
                let need_space = match &last_token {
                    Some(lt) => is_wordlike_token(lt),
                    None => false,
                };
                if need_space {
                    result.append(" ");
                }
                let bracketed = str_contains_char(content.as_str(), '\n') || str_contains_char(
                    content.as_str(),
                    '"',
                ) || str_contains_char(content.as_str(), '\'');
                if bracketed {
                    result.append("[[");
                    result.append(content.as_str());
                    result.append("]]");
                } else {
                    result.append("\"");
                    result.append(content.as_str());
                    result.append("\"");
                }
                proof {
                    assert(spec_significant(done.push(tv)) =~= sig_prev.push(tv));
                    lemma_render_push(sig_prev, tv);
                    assert(result@ =~= spec_render(sig_prev) + (if need_space {
                        " "@
                    } else {
                        Seq::<char>::empty()
                    }) + spec_render_token(tv));
                    done = done.push(tv);
                }
                last_token = Some(token);
            },
            Token::Symbol(ch) => {
                let ghost sig_prev = spec_significant(done);
                push_char(&mut result, *ch);
                proof {
                    assert(spec_significant(done.push(tv)) =~= sig_prev.push(tv));
                    lemma_render_push(sig_prev, tv);
                    assert(result@ =~= spec_render(sig_prev) + Seq::<char>::empty()
                        + spec_render_token(tv));
                    done = done.push(tv);
                }
                last_token = Some(token);
            },
            _ => {
                // Identifier-class and end-of-input arms are handled
                // above; nothing else remains.
                proof {
                    assert(false);
                }
            },
        }
    }
    Ok(result)
}

// ---------------------------------------------------------------------
// Laws of the minifier
//
// Minifying is re-rendering the significant tokens.  The laws below
// show that for streams of well-formed tokens that do not glue
// (`stream_safe`), tokenizing the rendered text gives back exactly
// the same significant tokens — hence minifying preserves the
// significant token sequence, and minifying twice gives the bytes of
// minifying once.  Streams outside `stream_safe` can genuinely break:
// two adjacent `-` symbols re-tokenize as a comment introducer.
// ---------------------------------------------------------------------

/// A literal that re-renders in bracket-string form.
pub open spec fn uses_bracket_form(c: Seq<char>) -> bool {
    spec_contains_char(c, '\n') || spec_contains_char(c, '"') || spec_contains_char(c, '\'')
}

/// A character that the lexer emits as a one-character symbol.
pub open spec fn symbol_char(c: char) -> bool {
    !is_space_char(c) && !is_ident_char(c) && c != '"' && c != '\''
}

/// Literal content that survives re-rendering and re-tokenizing
/// unchanged: bracket-form content must not touch the closer or lose
/// a leading newline, double-quoted content must not hold a backslash
/// (escapes are emitted verbatim, not re-escaped).
pub open spec fn literal_safe(c: Seq<char>) -> bool {
    if uses_bracket_form(c) {
        &&& (c.len() > 0 ==> c[0] != '\n')
        &&& (c.len() > 0 ==> c[c.len() - 1] != ']')
        &&& (forall|k: int| 0 <= k < c.len() - 1 ==> !((#[trigger] c[k]) == ']' && c[k + 1] == ']'))
    } else {
        forall|k: int| 0 <= k < c.len() ==> (#[trigger] c[k]) != '\\'
    }
}

/// A significant token exactly as the tokenizer itself produces it.
pub open spec fn token_wf(t: TokenView) -> bool {
    match t {
        TokenView::Identifier(w) => w.len() > 0 && is_ident_start_char(w[0]) && (forall|k: int|
            0 <= k < w.len() ==> is_ident_char(#[trigger] w[k])) && !is_keyword(w),
        TokenView::Keyword(w) => w.len() > 0 && is_ident_start_char(w[0]) && (forall|k: int|
            0 <= k < w.len() ==> is_ident_char(#[trigger] w[k])) && is_keyword(w),
        TokenView::Number(w) => w.len() > 0 && is_digit_char(w[0]) && (forall|k: int|
            0 <= k < w.len() ==> is_number_char(#[trigger] w[k])),
        TokenView::StringLiteral(c) => literal_safe(c),
        TokenView::Symbol(ch) => symbol_char(ch),
        _ => false,
    }
}

/// Adjacent rendered tokens that cannot glue into another token: no
/// `-` `-` pair (a comment introducer), nothing bracket-like directly
/// after a `[` symbol (a bracket-string opener), and no `.` symbol
/// directly after a number.
pub open spec fn pair_ok(a: TokenView, b: TokenView) -> bool {
    &&& !(a == TokenView::Symbol('-') && b == TokenView::Symbol('-'))
    &&& (a == TokenView::Symbol('[') ==> !(b == TokenView::Symbol('[') || b == TokenView::Symbol(
        '=',
    ) || (b matches TokenView::StringLiteral(c) && uses_bracket_form(c))))
    &&& !(a is Number && b == TokenView::Symbol('.'))
}

/// A significant token sequence that minification reproduces exactly.
pub open spec fn stream_safe(ts: Seq<TokenView>) -> bool {
    &&& forall|k: int| 0 <= k < ts.len() ==> token_wf(#[trigger] ts[k])
    &&& forall|k: int| 0 <= k < ts.len() - 1 ==> pair_ok(#[trigger] ts[k], ts[k + 1])
}

/// `spec_render`, written front-first: `pw` says whether the
/// previously rendered token was word-like.
pub open spec fn render_front(ts: Seq<TokenView>, pw: bool) -> Seq<char>
    decreases ts.len(),
{
    if ts.len() == 0 {
        Seq::empty()
    } else {
        (if pw && is_wordlike(ts[0]) {
            " "@
        } else {
            Seq::<char>::empty()
        }) + spec_render_token(ts[0]) + render_front(ts.drop_first(), is_wordlike(ts[0]))
    }
}

proof fn lemma_render_front_push(ts: Seq<TokenView>, pw: bool, t: TokenView)
    ensures
        render_front(ts.push(t), pw) == render_front(ts, pw) + (if (if ts.len() > 0 {
            is_wordlike(ts.last())
        } else {
            pw
        }) && is_wordlike(t) {
            " "@
        } else {
            Seq::<char>::empty()
        }) + spec_render_token(t),
    decreases ts.len(),
{
    let sep = (if (if ts.len() > 0 {
        is_wordlike(ts.last())
    } else {
        pw
    }) && is_wordlike(t) {
        " "@
    } else {
        Seq::<char>::empty()
    });
    if ts.len() == 0 {
        assert(ts.push(t).drop_first() =~= Seq::<TokenView>::empty());
        assert(ts.push(t)[0] == t);
        assert(render_front(Seq::<TokenView>::empty(), is_wordlike(t)) =~= Seq::<char>::empty());
        assert(render_front(ts, pw) =~= Seq::<char>::empty());
        assert(render_front(ts.push(t), pw) =~= sep + spec_render_token(t) + Seq::<char>::empty());
        assert(render_front(ts.push(t), pw) =~= render_front(ts, pw) + sep + spec_render_token(t));
    } else {
        assert(ts.push(t).drop_first() =~= ts.drop_first().push(t));
        assert(ts.push(t)[0] == ts[0]);
        lemma_render_front_push(ts.drop_first(), is_wordlike(ts[0]), t);
        if ts.len() > 1 {
            assert(ts.drop_first().last() == ts.last());
        }
        assert(render_front(ts.push(t), pw) =~= render_front(ts, pw) + sep + spec_render_token(t));
    }
}

/// The two renderings agree.
proof fn lemma_render_eq(ts: Seq<TokenView>)
    ensures
        spec_render(ts) == render_front(ts, false),
    decreases ts.len(),
{
    if ts.len() > 0 {
        let prev = ts.drop_last();
        let t = ts.last();
        lemma_render_eq(prev);
        lemma_render_push(prev, t);
        lemma_render_front_push(prev, false, t);
        assert(prev.push(t) =~= ts);
    }
}

/// The full token stream that tokenizing a rendering yields: each
/// token, preceded by a white-space token where a separating space
/// was emitted.
pub open spec fn relex_tokens(ts: Seq<TokenView>, pw: bool) -> Seq<TokenView>
    decreases ts.len(),
{
    if ts.len() == 0 {
        Seq::empty()
    } else if pw && is_wordlike(ts[0]) {
        seq![TokenView::Whitespace, ts[0]] + relex_tokens(ts.drop_first(), is_wordlike(ts[0]))
    } else {
        seq![ts[0]] + relex_tokens(ts.drop_first(), is_wordlike(ts[0]))
    }
}

/// Significance filtering, seen from the front.
proof fn lemma_sig_prepend(t: TokenView, rest: Seq<TokenView>)
    ensures
        spec_significant(seq![t] + rest) == (if is_significant(t) {
            seq![t]
        } else {
            Seq::<TokenView>::empty()
        }) + spec_significant(rest),
    decreases rest.len(),
{
    let head = (if is_significant(t) {
        seq![t]
    } else {
        Seq::<TokenView>::empty()
    });
    if rest.len() == 0 {
        assert(seq![t] + rest =~= seq![t]);
        assert(seq![t].drop_last() =~= Seq::<TokenView>::empty());
        assert(seq![t].last() == t);
        assert(spec_significant(Seq::<TokenView>::empty()) =~= Seq::<TokenView>::empty());
        if is_significant(t) {
            assert(spec_significant(seq![t]) =~= Seq::<TokenView>::empty().push(t));
            assert(Seq::<TokenView>::empty().push(t) =~= head + spec_significant(rest));
        } else {
            assert(spec_significant(seq![t]) =~= head + spec_significant(rest));
        }
    } else {
        let r0 = rest.drop_last();
        let x = rest.last();
        lemma_sig_prepend(t, r0);
        assert((seq![t] + rest).drop_last() =~= seq![t] + r0);
        assert((seq![t] + rest).last() == x);
        assert(rest =~= r0.push(x));
        assert(spec_significant(seq![t] + rest) =~= head + spec_significant(rest));
    }
}

/// Every token that the filter keeps is significant.
proof fn lemma_sig_elements(ts: Seq<TokenView>)
    ensures
        forall|k: int|
            0 <= k < spec_significant(ts).len() ==> is_significant(
                #[trigger] spec_significant(ts)[k],
            ),
    decreases ts.len(),
{
    if ts.len() > 0 {
        lemma_sig_elements(ts.drop_last());
        assert forall|k: int| 0 <= k < spec_significant(ts).len() implies is_significant(
            spec_significant(ts)[k],
        ) by {
            if is_significant(ts.last()) {
                if k < spec_significant(ts.drop_last()).len() {
                    assert(spec_significant(ts)[k] == spec_significant(ts.drop_last())[k]);
                } else {
                    assert(spec_significant(ts)[k] == ts.last());
                }
            } else {
                assert(spec_significant(ts)[k] == spec_significant(ts.drop_last())[k]);
            }
        }
    }
}

/// Dropping the interleaved white space gives back the tokens.
proof fn lemma_sig_relex(ts: Seq<TokenView>, pw: bool)
    requires
        forall|k: int| 0 <= k < ts.len() ==> is_significant(#[trigger] ts[k]),
    ensures
        spec_significant(relex_tokens(ts, pw)) == ts,
    decreases ts.len(),
{
    if ts.len() > 0 {
        let rest = ts.drop_first();
        lemma_sig_relex(rest, is_wordlike(ts[0]));
        if pw && is_wordlike(ts[0]) {
            lemma_sig_prepend(TokenView::Whitespace, seq![ts[0]] + relex_tokens(rest, is_wordlike(ts[0])));
            lemma_sig_prepend(ts[0], relex_tokens(rest, is_wordlike(ts[0])));
            assert(seq![TokenView::Whitespace, ts[0]] + relex_tokens(rest, is_wordlike(ts[0]))
                =~= seq![TokenView::Whitespace] + (seq![ts[0]] + relex_tokens(
                rest,
                is_wordlike(ts[0]),
            )));
            assert(seq![ts[0]] + rest =~= ts);
        } else {
            lemma_sig_prepend(ts[0], relex_tokens(rest, is_wordlike(ts[0])));
            assert(seq![ts[0]] + rest =~= ts);
        }
    }
}

/// A rendered token is non-empty and never starts with white space.
proof fn lemma_render_token_head(t: TokenView)
    requires
        token_wf(t),
    ensures
        spec_render_token(t).len() > 0,
        !is_space_char(spec_render_token(t)[0]),
{
    reveal_strlit("[[");
    reveal_strlit("]]");
    reveal_strlit("\"");
    match t {
        TokenView::StringLiteral(c) => {
            if uses_bracket_form(c) {
                assert(spec_render_token(t)[0] == '[');
            } else {
                assert(spec_render_token(t)[0] == '"');
            }
        },
        _ => {},
    }
}

/// The tokenizer, standing at the start of one safely rendered token
/// whose following character cannot extend it, emits exactly that
/// token.
proof fn lemma_relex_step(s: Seq<char>, i: int, t: TokenView)
    requires
        token_wf(t),
        0 <= i,
        i + spec_render_token(t).len() <= s.len(),
        s.subrange(i, i + spec_render_token(t).len() as int) == spec_render_token(t),
        ({
            let e = i + spec_render_token(t).len();
            &&& ((t is Identifier || t is Keyword) ==> (e == s.len() || !is_ident_char(s[e])))
            &&& (t is Number ==> (e == s.len() || !is_number_char(s[e])))
            &&& (t == TokenView::Symbol('[') ==> (e == s.len() || (s[e] != '[' && s[e] != '=')))
            &&& (t == TokenView::Symbol('-') ==> (e == s.len() || s[e] != '-'))
        }),
    ensures
        spec_next_token(s, i) == ScanStep::Emit(t, i + spec_render_token(t).len()),
{
    reveal_strlit("[[");
    reveal_strlit("]]");
    reveal_strlit("\"");
    let tok = spec_render_token(t);
    let e = i + tok.len();
    assert forall|k: int| 0 <= k < tok.len() implies #[trigger] tok[k] == s[i + k] by {
        assert(s.subrange(i, e as int)[k] == s[i + k]);
    }
    match t {
        TokenView::Identifier(w) => {
            assert(s[i] == w[0]) by {
                assert(tok[0] == s[i + 0]);
            }
            assert forall|k: int| i <= k < e implies class_pred(CharClass::Word, s[k]) by {
                assert(tok[k - i] == s[i + (k - i)]);
            }
            lemma_run_end_exact(s, i, e, CharClass::Word);
            assert(s.subrange(i, e) =~= w);
        },
        TokenView::Keyword(w) => {
            assert(s[i] == w[0]) by {
                assert(tok[0] == s[i + 0]);
            }
            assert forall|k: int| i <= k < e implies class_pred(CharClass::Word, s[k]) by {
                assert(tok[k - i] == s[i + (k - i)]);
            }
            lemma_run_end_exact(s, i, e, CharClass::Word);
            assert(s.subrange(i, e) =~= w);
        },
        TokenView::Number(w) => {
            assert(s[i] == w[0]) by {
                assert(tok[0] == s[i + 0]);
            }
            assert forall|k: int| i <= k < e implies class_pred(CharClass::Number, s[k]) by {
                assert(tok[k - i] == s[i + (k - i)]);
            }
            lemma_run_end_exact(s, i, e, CharClass::Number);
            assert(s.subrange(i, e) =~= w);
        },
        TokenView::Symbol(ch) => {
            assert(s[i] == ch) by {
                assert(tok[0] == s[i + 0]);
            }
            assert(tok.len() == 1);
            if ch == '[' {
                lemma_run_end_exact(s, i + 1, i + 1, CharClass::Equals);
                assert(bracket_level(s, i) == -1);
            }
        },
        TokenView::StringLiteral(c) => {
            if uses_bracket_form(c) {
                assert(tok =~= "[["@ + c + "]]"@);
                assert(tok.len() == c.len() + 4);
                assert(s[i] == '[') by {
                    assert(tok[0] == s[i + 0]);
                }
                assert(s[i + 1] == '[') by {
                    assert(tok[1] == s[i + 1]);
                }
                lemma_run_end_exact(s, i + 1, i + 1, CharClass::Equals);
                assert(bracket_level(s, i) == 0);
                let cs0 = i + 2;
                assert forall|k: int| 0 <= k < c.len() implies s[cs0 + k] == c[k] by {
                    assert(tok[2 + k] == s[i + (2 + k)]);
                }
                assert(s[cs0 + c.len()] == ']') by {
                    assert(tok[2 + c.len() as int] == s[i + (2 + c.len())]);
                }
                assert(s[cs0 + c.len() + 1] == ']') by {
                    assert(tok[3 + c.len() as int] == s[i + (3 + c.len())]);
                }
                if c.len() > 0 {
                    assert(s[cs0] == c[0]);
                    assert(s[cs0] != '\n');
                } else {
                    assert(s[cs0] == ']');
                }
                assert forall|k: int| cs0 <= k < cs0 + c.len() implies !is_closer_at(s, k, 0) by {
                    if k < cs0 + c.len() - 1 {
                        assert(s[k] == c[k - cs0]);
                        assert(s[k + 1] == c[k - cs0 + 1]);
                    } else {
                        assert(s[k] == c[c.len() - 1]);
                    }
                }
                assert(is_closer_at(s, cs0 + c.len(), 0));
                lemma_find_closer_exact(s, cs0, cs0 + c.len(), 0);
                assert(s.subrange(cs0, cs0 + c.len()) =~= c);
                assert(scan_bracket_body(s, i) == BracketScan::Done(c, e));
            } else {
                assert(tok =~= "\""@ + c + "\""@);
                assert(tok.len() == c.len() + 2);
                assert(s[i] == '"') by {
                    assert(tok[0] == s[i + 0]);
                }
                assert forall|k: int| 0 <= k < c.len() implies s[i + 1 + k] == c[k] by {
                    assert(tok[1 + k] == s[i + (1 + k)]);
                }
                assert(s[i + 1 + c.len()] == '"') by {
                    assert(tok[1 + c.len() as int] == s[i + (1 + c.len())]);
                }
                assert forall|m: int| i + 1 <= m < i + 1 + c.len() implies s[m] != '"' && s[m]
                    != '\\' by {
                    assert(s[m] == c[m - (i + 1)]);
                    assert(!spec_contains_char(c, '"'));
                }
                lemma_scan_quoted_exact(s, i + 1, i + 1 + c.len(), '"');
                assert(s.subrange(i + 1, i + 1 + c.len()) =~= c);
            }
        },
        _ => {},
    }
}

/// Tokenizing a safely rendered stream gives back exactly the stream,
/// interleaved with the separator white space.
proof fn lemma_relex(s: Seq<char>, i: int, ts: Seq<TokenView>, pw: bool)
    requires
        0 <= i <= s.len(),
        s.subrange(i, s.len() as int) == render_front(ts, pw),
        stream_safe(ts),
    ensures
        spec_lex_from(s, i) == LexOutcome::Tokens(relex_tokens(ts, pw)),
    decreases ts.len(),
{
    reveal_strlit(" ");
    reveal_strlit("[[");
    reveal_strlit("]]");
    reveal_strlit("\"");
    if ts.len() == 0 {
        assert(s.len() == i);
        assert(spec_lex_from(s, i) == LexOutcome::Tokens(Seq::<TokenView>::empty()));
    } else {
        let t = ts[0];
        let rest = ts.drop_first();
        let tok = spec_render_token(t);
        let sep: Seq<char> = if pw && is_wordlike(t) {
            " "@
        } else {
            Seq::<char>::empty()
        };
        let w0 = is_wordlike(t);
        let tail = render_front(rest, w0);
        let suffix = s.subrange(i, s.len() as int);
        assert(suffix == sep + tok + tail);
        assert(token_wf(t));
        assert(!(t is Eof));
        lemma_render_token_head(t);
        let i1 = i + sep.len();
        let e = i1 + tok.len();
        assert(suffix.len() == sep.len() + tok.len() + tail.len());
        assert(s.len() == i + suffix.len());
        assert forall|k: int| 0 <= k < suffix.len() implies #[trigger] suffix[k] == s[i + k] by {}
        assert forall|k: int| 0 <= k < tok.len() implies #[trigger] tok[k] == s[i1 + k] by {
            assert(suffix[sep.len() + k] == s[i + (sep.len() + k)]);
            assert((sep + tok + tail)[sep.len() + k] == tok[k]);
        }
        assert(s.subrange(i1, e) =~= tok);
        // the remaining stream is safe
        assert forall|k: int| 0 <= k < rest.len() implies token_wf(#[trigger] rest[k]) by {
            assert(rest[k] == ts[k + 1]);
        }
        assert forall|k: int| 0 <= k < rest.len() - 1 implies pair_ok(
            #[trigger] rest[k],
            rest[k + 1],
        ) by {
            assert(rest[k] == ts[k + 1]);
            assert(rest[k + 1] == ts[k + 2]);
        }
        // classify the character that follows the token
        if rest.len() == 0 {
            assert(tail.len() == 0);
            assert(e == s.len());
        } else {
            assert(rest[0] == ts[1]);
            assert(pair_ok(t, rest[0]));
            assert(token_wf(rest[0]));
            lemma_render_token_head(rest[0]);
            assert(tail.len() > 0);
            assert(s[e] == tail[0]) by {
                assert(suffix[sep.len() + tok.len() as int] == s[i + sep.len() + tok.len()]);
                assert((sep + tok + tail)[sep.len() + tok.len() as int] == tail[0]);
            }
            if w0 && is_wordlike(rest[0]) {
                assert(tail[0] == ' ');
            } else {
                assert(tail[0] == spec_render_token(rest[0])[0]);
            }
        }
        // gates of the step lemma, from the pair rules
        if t is Identifier || t is Keyword || t is Number {
            if rest.len() > 0 {
                if is_wordlike(rest[0]) {
                    assert(s[e] == ' ');
                    assert(!is_ident_char(' ') && !is_number_char(' '));
                } else {
                    match rest[0] {
                        TokenView::Symbol(ch2) => {
                            assert(s[e] == ch2);
                            assert(!is_ident_char(ch2));
                            if t is Number {
                                assert(ch2 != '.');
                                assert(!is_number_char(ch2));
                            }
                        },
                        _ => {
                            assert(false);
                        },
                    }
                }
            }
        }
        if t == TokenView::Symbol('[') || t == TokenView::Symbol('-') {
            if rest.len() > 0 {
                assert(!w0);
                match rest[0] {
                    TokenView::Identifier(w2) => {
                        assert(s[e] == w2[0]);
                    },
                    TokenView::Keyword(w2) => {
                        assert(s[e] == w2[0]);
                    },
                    TokenView::Number(w2) => {
                        assert(s[e] == w2[0]);
                    },
                    TokenView::StringLiteral(c2) => {
                        if uses_bracket_form(c2) {
                            assert(t != TokenView::Symbol('['));
                            assert(s[e] == '[');
                        } else {
                            assert(s[e] == '"');
                        }
                    },
                    TokenView::Symbol(ch2) => {
                        assert(s[e] == ch2);
                    },
                    _ => {
                        assert(false);
                    },
                }
            }
        }
        lemma_relex_step(s, i1, t);
        assert(spec_next_token(s, i1) == ScanStep::Emit(t, e));
        // recurse past this token
        assert(s.subrange(e, s.len() as int) =~= tail) by {
            assert forall|k: int| 0 <= k < tail.len() implies s.subrange(e, s.len() as int)[k]
                == tail[k] by {
                assert(suffix[sep.len() + tok.len() + k] == s[i + (sep.len() + tok.len() + k)]);
                assert((sep + tok + tail)[sep.len() + tok.len() + k] == tail[k]);
            }
        }
        lemma_relex(s, e, rest, w0);
        // assemble the stream
        if sep.len() > 0 {
            assert(s[i] == ' ') by {
                assert(suffix[0] == s[i + 0]);
                assert((sep + tok + tail)[0] == sep[0]);
            }
            assert(s[i1] == tok[0]) by {
                assert(tok[0] == s[i1 + 0]);
            }
            lemma_run_end_exact(s, i, i + 1, CharClass::Space);
            assert(spec_next_token(s, i) == ScanStep::Emit(TokenView::Whitespace, i + 1));
            assert(spec_lex_from(s, i1) == LexOutcome::Tokens(
                seq![t] + relex_tokens(rest, w0),
            ));
            assert(spec_lex_from(s, i) == LexOutcome::Tokens(
                seq![TokenView::Whitespace] + (seq![t] + relex_tokens(rest, w0)),
            ));
            assert(seq![TokenView::Whitespace] + (seq![t] + relex_tokens(rest, w0))
                =~= seq![TokenView::Whitespace, t] + relex_tokens(rest, w0));
        } else {
            assert(i1 == i);
            assert(spec_lex_from(s, i) == LexOutcome::Tokens(seq![t] + relex_tokens(rest, w0)));
        }
    }
}

/// Law of the minifier: tokenization is preserved.  For a
/// source whose significant tokens form a safe stream, tokenizing the
/// minified text and discarding white space and comments yields
/// exactly the significant token sequence of the original.
/// (`stream_safe` excludes the streams that genuinely re-glue, such
/// as two adjacent `-` symbols, which re-tokenize as a comment.)
pub proof fn lemma_minify_preserves_tokens(src: Seq<char>)
    requires
        spec_lex_from(src, 0) is Tokens,
        stream_safe(spec_significant(spec_lex_from(src, 0)->Tokens_0)),
    ensures
        ({
            let sig = spec_significant(spec_lex_from(src, 0)->Tokens_0);
            let out = spec_render(sig);
            &&& spec_lex_from(out, 0) is Tokens
            &&& spec_significant(spec_lex_from(out, 0)->Tokens_0) == sig
        }),
{
    let sig = spec_significant(spec_lex_from(src, 0)->Tokens_0);
    let out = spec_render(sig);
    lemma_render_eq(sig);
    lemma_sig_elements(spec_lex_from(src, 0)->Tokens_0);
    assert(out.subrange(0, out.len() as int) =~= out);
    lemma_relex(out, 0, sig, false);
    lemma_sig_relex(sig, false);
}

/// Law of the minifier: idempotence.  For a source whose
/// significant tokens form a safe stream, tokenizing the minified
/// text and re-rendering its significant tokens gives the minified
/// text again, byte for byte.
pub proof fn lemma_minify_idempotent(src: Seq<char>)
    requires
        spec_lex_from(src, 0) is Tokens,
        stream_safe(spec_significant(spec_lex_from(src, 0)->Tokens_0)),
    ensures
        ({
            let sig = spec_significant(spec_lex_from(src, 0)->Tokens_0);
            let out = spec_render(sig);
            &&& spec_lex_from(out, 0) is Tokens
            &&& spec_render(spec_significant(spec_lex_from(out, 0)->Tokens_0)) == out
        }),
{
    lemma_minify_preserves_tokens(src);
}

/// Unfolds one step of `spec_render` at the appended token.
proof fn lemma_render_push(ts: Seq<TokenView>, t: TokenView)
    ensures
        spec_render(ts.push(t)) == spec_render(ts) + (if ts.len() > 0 && is_wordlike(ts.last())
            && is_wordlike(t) {
            " "@
        } else {
            Seq::<char>::empty()
        }) + spec_render_token(t),
{
    assert(ts.push(t).drop_last() =~= ts);
    assert(ts.push(t).last() == t);
    assert(ts.push(t).len() == ts.len() + 1);
    if ts.len() > 0 {
        assert(ts.push(t)[ts.len() - 1 + 1 - 1] == ts.last());
    }
}

} // verus!
