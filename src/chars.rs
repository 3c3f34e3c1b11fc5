//! Character classes and comparisons used by the grammar and the matcher.

use vstd::prelude::*;

verus! {

/// The code of `c` with ASCII upper-case letters mapped to lower case.
pub open spec fn lower_code(c: char) -> u32 {
    if 'A' <= c && c <= 'Z' {
        (c as u32 + 32) as u32
    } else {
        c as u32
    }
}

/// ASCII-case-insensitive equality of two character sequences.
pub open spec fn ci_eq(a: Seq<char>, b: Seq<char>) -> bool {
    a.len() == b.len() && forall|i: int| 0 <= i < a.len() ==> lower_code(a[i]) == lower_code(b[i])
}

/// `a` equals `b` once the ASCII letters of `b` are lowered.
pub open spec fn eq_lowered(a: Seq<char>, b: Seq<char>) -> bool {
    ci_eq(a, b) && forall|i: int| 0 <= i < a.len() ==> !is_ascii_upper(#[trigger] a[i])
}

/// An ASCII upper-case letter.
pub open spec fn is_ascii_upper(c: char) -> bool {
    'A' <= c && c <= 'Z'
}

/// CSS whitespace.
pub open spec fn is_ws(c: char) -> bool {
    c == ' ' || c == '\t' || c == '\n' || c == '\r' || c == '\x0C'
}

/// A character that may start an identifier.
pub open spec fn is_name_start(c: char) -> bool {
    ('a' <= c && c <= 'z') || ('A' <= c && c <= 'Z') || c == '_' || c as u32 >= 0x80
}

/// A character that may continue an identifier.
pub open spec fn is_name_char(c: char) -> bool {
    is_name_start(c) || ('0' <= c && c <= '9') || c == '-'
}

pub fn lower_code_exec(c: char) -> (r: u32)
    ensures
        r == lower_code(c),
{
    if 'A' <= c && c <= 'Z' {
        c as u32 + 32
    } else {
        c as u32
    }
}

pub fn is_ws_exec(c: char) -> (r: bool)
    ensures
        r == is_ws(c),
{
    c == ' ' || c == '\t' || c == '\n' || c == '\r' || c == '\x0C'
}

pub fn is_name_start_exec(c: char) -> (r: bool)
    ensures
        r == is_name_start(c),
{
    ('a' <= c && c <= 'z') || ('A' <= c && c <= 'Z') || c == '_' || c as u32 >= 0x80
}

pub fn is_name_char_exec(c: char) -> (r: bool)
    ensures
        r == is_name_char(c),
{
    is_name_start_exec(c) || ('0' <= c && c <= '9') || c == '-'
}

/// Compares `input[start..end]` with `lit`, ignoring ASCII case.
pub fn ci_eq_range(input: &Vec<char>, start: usize, end: usize, lit: &Vec<char>) -> (r: bool)
    requires
        start <= end <= input@.len(),
    ensures
        r == ci_eq(input@.subrange(start as int, end as int), lit@),
{
    if end - start != lit.len() {
        return false;
    }
    let mut i: usize = 0;
    while i < lit.len()
        invariant
            end - start == lit@.len(),
            start <= end <= input@.len(),
            i <= lit@.len(),
            forall|j: int| 0 <= j < i ==> lower_code(input@[start + j]) == lower_code(lit@[j]),
        decreases lit@.len() - i,
    {
        if lower_code_exec(input[start + i]) != lower_code_exec(lit[i]) {
            return false;
        }
        i += 1;
    }
    true
}

/// Copies the characters of `s` into a vector.
pub fn to_chars(s: &str) -> (r: Vec<char>)
    ensures
        r@ == s@,
{
    let n = s.unicode_len();
    let mut r: Vec<char> = Vec::new();
    let mut i: usize = 0;
    while i < n
        invariant
            n == s@.len(),
            i <= n,
            r@ == s@.subrange(0, i as int),
        decreases n - i,
    {
        r.push(s.get_char(i));
        i += 1;
        assert(r@ =~= s@.subrange(0, i as int));
    }
    assert(r@ =~= s@);
    r
}

/// Which comparison identifiers and class names are held to.
#[derive(PartialEq, Eq, Structural, Clone, Copy, Debug)]
pub enum CaseSensitivity {
    CaseSensitive,
    AsciiCaseInsensitive,
}

/// Equality of two names under a case-sensitivity policy.
pub open spec fn case_eq(cs: CaseSensitivity, a: Seq<char>, b: Seq<char>) -> bool {
    match cs {
        CaseSensitivity::CaseSensitive => a == b,
        CaseSensitivity::AsciiCaseInsensitive => ci_eq(a, b),
    }
}

/// Exact equality of two character vectors.
pub fn chars_eq(a: &Vec<char>, b: &Vec<char>) -> (r: bool)
    ensures
        r == (a@ == b@),
{
    if a.len() != b.len() {
        return false;
    }
    let mut i: usize = 0;
    while i < a.len()
        invariant
            a@.len() == b@.len(),
            i <= a@.len(),
            forall|j: int| 0 <= j < i ==> a@[j] == b@[j],
        decreases a@.len() - i,
    {
        if a[i] != b[i] {
            return false;
        }
        i += 1;
    }
    assert(a@ =~= b@);
    true
}

/// Equality of two strings under a case-sensitivity policy.
pub fn str_case_eq(cs: CaseSensitivity, a: &str, b: &str) -> (r: bool)
    ensures
        r == case_eq(cs, a@, b@),
{
    let a = to_chars(a);
    let b = to_chars(b);
    match cs {
        CaseSensitivity::CaseSensitive => chars_eq(&a, &b),
        CaseSensitivity::AsciiCaseInsensitive => {
            let r = ci_eq_range(&a, 0, a.len(), &b);
            assert(a@.subrange(0, a@.len() as int) =~= a@);
            r
        },
    }
}

/// `a` equals `b` with the ASCII letters of `b` lowered.
pub fn str_eq_lowered(a: &str, b: &str) -> (r: bool)
    ensures
        r == eq_lowered(a@, b@),
{
    let x = to_chars(a);
    let y = to_chars(b);
    if x.len() != y.len() {
        return false;
    }
    let mut i: usize = 0;
    while i < x.len()
        invariant
            x@ == a@,
            y@ == b@,
            x@.len() == y@.len(),
            i <= x@.len(),
            forall|j: int| 0 <= j < i ==> lower_code(x@[j]) == lower_code(y@[j]),
            forall|j: int| 0 <= j < i ==> !is_ascii_upper(#[trigger] x@[j]),
        decreases x@.len() - i,
    {
        if lower_code_exec(x[i]) != lower_code_exec(y[i]) || ('A' <= x[i] && x[i] <= 'Z') {
            assert(lower_code(x@[i as int]) != lower_code(y@[i as int]) || is_ascii_upper(
                x@[i as int],
            ));
            assert(!eq_lowered(x@, y@));
            return false;
        }
        i += 1;
    }
    true
}

} // verus!
