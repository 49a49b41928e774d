//! Validation of the package name handed to the add-package flow:
//! exactly one namespace separator, both parts trimmed.

use vstd::prelude::*;
use vstd::string::StrSliceExecFns;
use crate::compiler::lexer::CharClass;
use crate::compiler::lexer::is_space;
use crate::compiler::lexer::is_space_char;
use crate::compiler::lexer::lemma_run_end;
use crate::compiler::lexer::run_end;

verus! {

/// First position at or after `i` holding `c`, or -1.
pub open spec fn find_char(s: Seq<char>, i: int, c: char) -> int
    decreases s.len() - i when 0 <= i <= s.len()
{
    if i >= s.len() {
        -1
    } else if s[i] == c {
        i
    } else {
        find_char(s, i + 1, c)
    }
}

pub proof fn lemma_find_char(s: Seq<char>, i: int, c: char)
    requires
        0 <= i <= s.len(),
    ensures
        find_char(s, i, c) == -1 || (i <= find_char(s, i, c) < s.len() && s[find_char(s, i, c)]
            == c),
    decreases s.len() - i,
{
    if i < s.len() && s[i] != c {
        lemma_find_char(s, i + 1, c);
    }
}

/// Position one past the last non-space character; 0 when every
/// character is white space.
pub open spec fn trim_end_pos(s: Seq<char>) -> int
    decreases s.len(),
{
    if s.len() == 0 {
        0
    } else if is_space_char(s.last()) {
        trim_end_pos(s.drop_last())
    } else {
        s.len() as int
    }
}

proof fn lemma_trim_end_pos(s: Seq<char>)
    ensures
        0 <= trim_end_pos(s) <= s.len(),
        forall|k: int| trim_end_pos(s) <= k < s.len() ==> is_space_char(s[k]),
        trim_end_pos(s) > 0 ==> !is_space_char(s[trim_end_pos(s) - 1]),
    decreases s.len(),
{
    if s.len() > 0 && is_space_char(s.last()) {
        lemma_trim_end_pos(s.drop_last());
        assert forall|k: int| trim_end_pos(s) <= k < s.len() implies is_space_char(s[k]) by {
            if k < s.len() - 1 {
                assert(s.drop_last()[k] == s[k]);
            }
        }
    }
}

/// The string without leading and trailing white space.
pub open spec fn trim_of(s: Seq<char>) -> Seq<char> {
    let a = run_end(s, 0, CharClass::Space);
    let b = trim_end_pos(s);
    if a <= b {
        s.subrange(a, b)
    } else {
        Seq::empty()
    }
}

/// Strips leading and trailing white space.
fn trim_str(s: &str) -> (r: &str)
    ensures
        r@ == trim_of(s@),
{
    let len = s.unicode_len();
    let mut a: usize = 0;
    loop
        invariant
            0 <= a <= len == s@.len(),
            run_end(s@, a as int, CharClass::Space) == run_end(s@, 0, CharClass::Space),
        ensures
            0 <= a <= len == s@.len(),
            a as int == run_end(s@, 0, CharClass::Space),
        decreases len - a,
    {
        if a >= len {
            break ;
        }
        if !is_space(s.get_char(a)) {
            break ;
        }
        a = a + 1;
    }
    let mut b: usize = len;
    proof {
        assert(s@.take(len as int) =~= s@);
    }
    loop
        invariant
            0 <= b <= len == s@.len(),
            trim_end_pos(s@) == trim_end_pos(s@.take(b as int)),
        ensures
            0 <= b <= len == s@.len(),
            b as int == trim_end_pos(s@),
        decreases b,
    {
        if b == 0 {
            break ;
        }
        if !is_space(s.get_char(b - 1)) {
            proof {
                assert(s@.take(b as int).last() == s@[b - 1]);
            }
            break ;
        }
        proof {
            assert(s@.take(b as int).last() == s@[b - 1]);
            assert(s@.take(b as int).drop_last() =~= s@.take(b - 1));
        }
        b = b - 1;
    }
    if a <= b {
        s.substring_char(a, b)
    } else {
        proof {
            assert(s@.subrange(0, 0) =~= Seq::<char>::empty());
        }
        s.substring_char(0, 0)
    }
}

/// First position at or after `from` holding `/`, executable form.
fn find_slash(s: &str, from: usize) -> (r: Option<usize>)
    requires
        from as int <= s@.len(),
    ensures
        match r {
            Some(k) => find_char(s@, from as int, '/') == k as int,
            None => find_char(s@, from as int, '/') == -1,
        },
{
    let len = s.unicode_len();
    let mut k = from;
    loop
        invariant
            from <= k <= len == s@.len(),
            find_char(s@, k as int, '/') == find_char(s@, from as int, '/'),
        decreases len - k,
    {
        if k >= len {
            return None;
        }
        if s.get_char(k) == '/' {
            return Some(k);
        }
        k = k + 1;
    }
}

/// Splits a `NAMESPACE/PACKAGE` name at its single separator and
/// trims both parts; a name with no separator or with more than one
/// is rejected with the matching message.
pub fn validate_package_name(name: &str) -> (r: Result<(&str, &str), &str>)
    ensures
        ({
            let k = find_char(name@, 0, '/');
            match r {
                Ok(parts) => k >= 0 && find_char(name@, k + 1, '/') == -1 && parts.0@ == trim_of(
                    name@.subrange(0, k),
                ) && parts.1@ == trim_of(name@.subrange(k + 1, name@.len() as int)),
                Err(m) => {
                    if k == -1 {
                        m@
                            == "Non-namespaced packages are not yet supported, please add packages as NAMESPACE/PACKAGE"@
                    } else {
                        find_char(name@, k + 1, '/') >= 0 && m@
                            == "Unknown package format, please use as NAMESPACE/PACKAGE"@
                    }
                },
            }
        }),
{
    let len = name.unicode_len();
    let k = match find_slash(name, 0) {
        None => {
            return Err(
                "Non-namespaced packages are not yet supported, please add packages as NAMESPACE/PACKAGE",
            );
        },
        Some(k) => k,
    };
    proof {
        lemma_find_char(name@, 0, '/');
    }
    match find_slash(name, k + 1) {
        Some(_) => {
            return Err("Unknown package format, please use as NAMESPACE/PACKAGE");
        },
        None => {},
    }
    let p0 = trim_str(name.substring_char(0, k));
    let p1 = trim_str(name.substring_char(k + 1, len));
    Ok((p0, p1))
}

} // verus!
