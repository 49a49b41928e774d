//! Code source file: one module's raw text together with the ordered
//! list of module names it requires.
//!
//! The accepted import-call grammar, fully enumerated: the word
//! `require`, then a single `(` or space, then a single- or
//! double-quoted module name (non-empty, no newline, ended by the first
//! matching quote), then an optional closing `)`.  Matches are found by
//! a left-to-right scan; a found call is skipped whole, so text inside
//! a matched name is never matched again.

use vstd::prelude::*;
use vstd::string::StrSliceExecFns;
use crate::text::str_eq;

verus! {

/// First position at or after `k` holding the quote `q`, provided no
/// newline comes first; -1 otherwise.
pub open spec fn close_quote(s: Seq<char>, k: int, q: char) -> int
    decreases s.len() - k when 0 <= k <= s.len()
{
    if k >= s.len() {
        -1
    } else if s[k] == q {
        k
    } else if s[k] == '\n' {
        -1
    } else {
        close_quote(s, k + 1, q)
    }
}

pub proof fn lemma_close_quote(s: Seq<char>, k: int, q: char)
    requires
        0 <= k <= s.len(),
    ensures
        close_quote(s, k, q) == -1 || (k <= close_quote(s, k, q) < s.len() && s[close_quote(
            s,
            k,
            q,
        )] == q),
    decreases s.len() - k,
{
    if k < s.len() && s[k] != q && s[k] != '\n' {
        lemma_close_quote(s, k + 1, q);
    }
}

/// True when an import call starts at position `i` of `s`.
pub open spec fn spec_import_at(s: Seq<char>, i: int) -> bool {
    &&& 0 <= i
    &&& i + 9 <= s.len()
    &&& s.subrange(i, i + 7) == "require"@
    &&& (s[i + 7] == '(' || s[i + 7] == ' ')
    &&& (s[i + 8] == '"' || s[i + 8] == '\'')
    &&& close_quote(s, i + 9, s[i + 8]) > i + 9
}

/// The module name of the import call starting at `i`.
pub open spec fn spec_import_name(s: Seq<char>, i: int) -> Seq<char> {
    s.subrange(i + 9, close_quote(s, i + 9, s[i + 8]))
}

/// The position just past the import call starting at `i` (including a
/// directly following `)`, when present).
pub open spec fn spec_import_end(s: Seq<char>, i: int) -> int {
    let j = close_quote(s, i + 9, s[i + 8]);
    if j + 1 < s.len() && s[j + 1] == ')' {
        j + 2
    } else {
        j + 1
    }
}

pub proof fn lemma_import_end(s: Seq<char>, i: int)
    requires
        spec_import_at(s, i),
    ensures
        i + 10 < spec_import_end(s, i) <= s.len(),
{
    lemma_close_quote(s, i + 9, s[i + 8]);
}

/// The names of all import calls of `s` from position `i` on, in
/// order, duplicates kept.
pub open spec fn spec_requires_from(s: Seq<char>, i: int) -> Seq<Seq<char>>
    decreases s.len() - i when 0 <= i <= s.len() via spec_requires_from_decreases
{
    if i >= s.len() {
        Seq::empty()
    } else if spec_import_at(s, i) {
        seq![spec_import_name(s, i)] + spec_requires_from(s, spec_import_end(s, i))
    } else {
        spec_requires_from(s, i + 1)
    }
}

#[via_fn]
proof fn spec_requires_from_decreases(s: Seq<char>, i: int) {
    if i < s.len() && spec_import_at(s, i) {
        lemma_import_end(s, i);
    }
}

/// Finds the import call starting exactly at `i`, if any, returning
/// its module name and the position just past the call.
#[verifier::loop_isolation(false)]
pub fn import_at(src: &str, i: usize) -> (r: Option<(String, usize)>)
    requires
        i as int <= src@.len(),
    ensures
        match r {
            Some(pair) => spec_import_at(src@, i as int) && pair.0@ == spec_import_name(
                src@,
                i as int,
            ) && pair.1 as int == spec_import_end(src@, i as int),
            None => !spec_import_at(src@, i as int),
        },
{
    let ghost s = src@;
    let len = src.unicode_len();
    if len - i < 9 {
        return None;
    }
    if !str_eq(src.substring_char(i, i + 7), "require") {
        return None;
    }
    let open = src.get_char(i + 7);
    if !(open == '(' || open == ' ') {
        return None;
    }
    let q = src.get_char(i + 8);
    if !(q == '"' || q == '\'') {
        return None;
    }
    let mut k = i + 9;
    loop
        invariant
            i + 9 <= k <= len,
            close_quote(s, k as int, q) == close_quote(s, i + 9 as int, q),
        decreases len - k,
    {
        if k >= len {
            return None;
        }
        let c = src.get_char(k);
        if c == q {
            if k == i + 9 {
                return None;
            }
            let name = src.substring_char(i + 9, k).to_owned();
            let mut end = k + 1;
            if k + 1 < len {
                if src.get_char(k + 1) == ')' {
                    end = k + 2;
                }
            }
            return Some((name, end));
        }
        if c == '\n' {
            return None;
        }
        k = k + 1;
    }
}

/// Scans a whole text for import calls and collects their names.
pub fn scan_requires(src: &str) -> (out: Vec<String>)
    ensures
        out.deep_view() == spec_requires_from(src@, 0),
{
    let ghost s = src@;
    let len = src.unicode_len();
    let mut out: Vec<String> = Vec::new();
    let mut i: usize = 0;
    loop
        invariant
            0 <= i <= len,
            len == s.len(),
            s == src@,
            spec_requires_from(s, 0) == out.deep_view() + spec_requires_from(s, i as int),
        ensures
            s == src@,
            spec_requires_from(s, 0) == out.deep_view(),
        decreases len - i,
    {
        if i >= len {
            proof {
                assert(spec_requires_from(s, i as int) =~= Seq::<Seq<char>>::empty());
                assert(out.deep_view() + Seq::<Seq<char>>::empty() =~= out.deep_view());
            }
            break ;
        }
        let ghost prev = out.deep_view();
        match import_at(src, i) {
            Some(pair) => {
                let (name, end) = pair;
                proof {
                    lemma_import_end(s, i as int);
                    assert(spec_requires_from(s, i as int) == seq![spec_import_name(s, i as int)]
                        + spec_requires_from(s, spec_import_end(s, i as int)));
                }
                let ghost nv = name@;
                out.push(name);
                i = end;
                proof {
                    assert(out.deep_view() =~= prev.push(nv));
                    assert(prev.push(nv) + spec_requires_from(s, i as int) =~= prev + (seq![nv]
                        + spec_requires_from(s, i as int)));
                }
            },
            None => {
                i = i + 1;
            },
        }
    }
    out
}

/// One file's parsed text plus its extracted dependency names.  Built
/// once by discovery and never mutated afterwards.
#[derive(Debug, Clone)]
pub struct CodeSrcFile {
    pub path: String,
    pub source: String,
    pub requires: Vec<String>,
}

impl CodeSrcFile {
    pub fn new(path: String) -> (r: CodeSrcFile)
        ensures
            r.path == path,
            r.source@ == Seq::<char>::empty(),
            r.requires@.len() == 0,
    {
        CodeSrcFile { path, source: String::new(), requires: Vec::new() }
    }

    /// Captures the file's text and extracts its required names by the
    /// import-call grammar.
    pub fn parse(&mut self, content: String)
        ensures
            final(self).path == old(self).path,
            final(self).source == content,
            final(self).requires.deep_view() == spec_requires_from(content@, 0),
    {
        self.requires = scan_requires(content.as_str());
        self.source = content;
    }
}

} // verus!
