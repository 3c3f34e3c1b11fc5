//! The selector grammar: selector text to a selector list.
//!
//! Supported: `*`, type selectors, `#id`, `.class`, `[attr]` and
//! `[attr op value]` with the operators `= ~= |= ^= $= *=`, the pseudo-classes
//! of the registry and `:root` / `:empty`, the combinators whitespace, `>`,
//! `+` and `~`, and comma-separated lists. Identifiers are written without
//! escapes; quoted values run to the matching quote.

use vstd::prelude::*;
use crate::chars::{
    ci_eq, ci_eq_range, is_name_char, is_name_char_exec, is_name_start, is_name_start_exec, is_ws,
    is_ws_exec, to_chars,
};
use crate::pseudo::PseudoClass;
use crate::selector::{
    compound_view, AttrOperator, Combinator, Selector, Selectors, SelectorView, SimpleSelector,
    SimpleView,
};

verus! {

/// Why a selector text was refused.
#[derive(Clone, Debug)]
pub enum ParseError {
    /// A pseudo-class outside the registry, or a pseudo-element; with its
    /// name and the character position where the name starts.
    UnsupportedPseudoClassOrElement { name: String, position: usize },
    /// Malformed text, with the character position where it was found.
    Syntax { position: usize },
}

/// The mathematical form of a parse error.
pub enum ParseErrorView {
    Unsupported(Seq<char>, int),
    Syntax(int),
}

impl View for ParseError {
    type V = ParseErrorView;

    open spec fn view(&self) -> ParseErrorView {
        match self {
            ParseError::UnsupportedPseudoClassOrElement { name, position } => ParseErrorView::Unsupported(
                name@,
                *position as int,
            ),
            ParseError::Syntax { position } => ParseErrorView::Syntax(*position as int),
        }
    }
}

/// The first position at or after `i` that does not hold whitespace.
pub open spec fn skip_ws(s: Seq<char>, i: int) -> int
    decreases s.len() - i,
{
    if 0 <= i < s.len() && is_ws(s[i]) {
        skip_ws(s, i + 1)
    } else {
        i
    }
}

/// The end of the run of name characters that starts at `i`.
pub open spec fn name_end(s: Seq<char>, i: int) -> int
    decreases s.len() - i,
{
    if 0 <= i < s.len() && is_name_char(s[i]) {
        name_end(s, i + 1)
    } else {
        i
    }
}

/// An identifier starts at `i`.
pub open spec fn ident_starts(s: Seq<char>, i: int) -> bool {
    0 <= i < s.len() && (is_name_start(s[i]) || (s[i] == '-' && i + 1 < s.len() && (
    is_name_start(s[i + 1]) || s[i + 1] == '-')))
}

/// The position of the first `q` at or after `i`, or the length of `s`.
pub open spec fn quote_end(s: Seq<char>, i: int, q: char) -> int
    decreases s.len() - i,
{
    if 0 <= i < s.len() && s[i] != q {
        quote_end(s, i + 1, q)
    } else {
        i
    }
}

/// The attribute value at `i`: an identifier or a quoted string.
pub open spec fn value_spec(s: Seq<char>, i: int) -> Result<(Seq<char>, int), ParseErrorView> {
    if 0 <= i < s.len() && (s[i] == '"' || s[i] == '\'') {
        let e = quote_end(s, i + 1, s[i]);
        if e >= s.len() {
            Err(ParseErrorView::Syntax(i))
        } else {
            Ok((s.subrange(i + 1, e), e + 1))
        }
    } else if ident_starts(s, i) {
        Ok((s.subrange(i, name_end(s, i)), name_end(s, i)))
    } else {
        Err(ParseErrorView::Syntax(i))
    }
}

/// The attribute operator at `b`, and where it ends.
pub open spec fn op_spec(s: Seq<char>, b: int) -> Option<(AttrOperator, int)> {
    if 0 <= b < s.len() && s[b] == '=' {
        Some((AttrOperator::Equal, b + 1))
    } else if 0 <= b && b + 1 < s.len() && s[b + 1] == '=' {
        if s[b] == '~' {
            Some((AttrOperator::Includes, b + 2))
        } else if s[b] == '|' {
            Some((AttrOperator::DashMatch, b + 2))
        } else if s[b] == '^' {
            Some((AttrOperator::Prefix, b + 2))
        } else if s[b] == '$' {
            Some((AttrOperator::Suffix, b + 2))
        } else if s[b] == '*' {
            Some((AttrOperator::Substring, b + 2))
        } else {
            None
        }
    } else {
        None
    }
}

/// The attribute selector whose `[` stands at `i`.
pub open spec fn attr_spec(s: Seq<char>, i: int) -> Result<(SimpleView, int), ParseErrorView> {
    let a = skip_ws(s, i + 1);
    if !ident_starts(s, a) {
        Err(ParseErrorView::Syntax(a))
    } else {
        let ne = name_end(s, a);
        let name = s.subrange(a, ne);
        let b = skip_ws(s, ne);
        if 0 <= b < s.len() && s[b] == ']' {
            Ok((SimpleView::AttrExists(name), b + 1))
        } else {
            match op_spec(s, b) {
                None => Err(ParseErrorView::Syntax(b)),
                Some((op, c)) => match value_spec(s, skip_ws(s, c)) {
                    Err(e) => Err(e),
                    Ok((v, d)) => {
                        let e = skip_ws(s, d);
                        if 0 <= e < s.len() && s[e] == ']' {
                            Ok((SimpleView::AttrMatch(name, op, v), e + 1))
                        } else {
                            Err(ParseErrorView::Syntax(e))
                        }
                    },
                },
            }
        }
    }
}

pub open spec fn root_name() -> Seq<char> {
    seq!['r', 'o', 'o', 't']
}

pub open spec fn empty_name() -> Seq<char> {
    seq!['e', 'm', 'p', 't', 'y']
}

/// The pseudo-class or pseudo-element whose first `:` stands at `i`.
pub open spec fn pseudo_spec(s: Seq<char>, i: int) -> Result<(SimpleView, int), ParseErrorView> {
    let len = s.len();
    if i + 1 < len && s[i + 1] == ':' {
        if ident_starts(s, i + 2) {
            Err(ParseErrorView::Unsupported(s.subrange(i + 2, name_end(s, i + 2)), i + 2))
        } else {
            Err(ParseErrorView::Syntax(i + 2))
        }
    } else if !ident_starts(s, i + 1) {
        Err(ParseErrorView::Syntax(i + 1))
    } else {
        let e = name_end(s, i + 1);
        let name = s.subrange(i + 1, e);
        if 0 <= e < s.len() && s[e] == '(' {
            Err(ParseErrorView::Unsupported(name, i + 1))
        } else {
            match PseudoClass::from_name_spec(name) {
                Some(p) => Ok((SimpleView::PseudoClass(p), e)),
                None => if ci_eq(name, root_name()) {
                    Ok((SimpleView::Root, e))
                } else if ci_eq(name, empty_name()) {
                    Ok((SimpleView::Empty, e))
                } else {
                    Err(ParseErrorView::Unsupported(name, i + 1))
                },
            }
        }
    }
}

/// A simple selector other than a type selector starts at `j`.
pub open spec fn subclass_starts(s: Seq<char>, j: int) -> bool {
    0 <= j < s.len() && (s[j] == '#' || s[j] == '.' || s[j] == '[' || s[j] == ':')
}

/// The simple selector that starts at `j` with `#`, `.`, `[` or `:`.
pub open spec fn subclass_spec(s: Seq<char>, j: int) -> Result<(SimpleView, int), ParseErrorView> {
    let len = s.len();
    if s[j] == '#' || s[j] == '.' {
        if ident_starts(s, j + 1) {
            let name = s.subrange(j + 1, name_end(s, j + 1));
            if s[j] == '#' {
                Ok((SimpleView::Id(name), name_end(s, j + 1)))
            } else {
                Ok((SimpleView::Class(name), name_end(s, j + 1)))
            }
        } else {
            Err(ParseErrorView::Syntax(j + 1))
        }
    } else if s[j] == '[' {
        attr_spec(s, j)
    } else {
        pseudo_spec(s, j)
    }
}

/// The rest of a compound from `j`, after the simple selectors `acc`.
pub open spec fn compound_tail(s: Seq<char>, j: int, acc: Seq<SimpleView>) -> Result<
    (Seq<SimpleView>, int),
    ParseErrorView,
>
    decreases s.len() - j,
{
    if subclass_starts(s, j) {
        match subclass_spec(s, j) {
            Err(e) => Err(e),
            Ok((x, k)) => if j < k <= s.len() {
                compound_tail(s, k, acc.push(x))
            } else {
                Err(ParseErrorView::Syntax(j))
            },
        }
    } else {
        Ok((acc, j))
    }
}

/// The compound selector that starts at `i`.
pub open spec fn compound_spec(s: Seq<char>, i: int) -> Result<
    (Seq<SimpleView>, int),
    ParseErrorView,
> {
    if 0 <= i < s.len() && s[i] == '*' {
        compound_tail(s, i + 1, Seq::empty())
    } else if ident_starts(s, i) {
        compound_tail(s, name_end(s, i), seq![SimpleView::LocalName(s.subrange(i, name_end(s, i)))])
    } else if subclass_starts(s, i) {
        compound_tail(s, i, Seq::empty())
    } else {
        Err(ParseErrorView::Syntax(i))
    }
}

/// The combinator found at `w` after a compound that ended at `j`, and where
/// the next compound starts.
pub open spec fn combinator_spec(s: Seq<char>, w: int) -> (Combinator, int) {
    if s[w] == '>' {
        (Combinator::Child, skip_ws(s, w + 1))
    } else if s[w] == '+' {
        (Combinator::NextSibling, skip_ws(s, w + 1))
    } else if s[w] == '~' {
        (Combinator::LaterSibling, skip_ws(s, w + 1))
    } else {
        (Combinator::Descendant, w)
    }
}

/// The rest of a selector from `j`, after the compounds and combinators read.
pub open spec fn selector_tail(
    s: Seq<char>,
    j: int,
    comps: Seq<Seq<SimpleView>>,
    combs: Seq<Combinator>,
) -> Result<(SelectorView, int), ParseErrorView>
    decreases s.len() - j,
{
    let w = skip_ws(s, j);
    if w < 0 || w >= s.len() || s[w] == ',' {
        Ok((SelectorView { compounds: comps, combinators: combs }, w))
    } else {
        let (comb, k) = combinator_spec(s, w);
        if comb == Combinator::Descendant && w == j {
            Err(ParseErrorView::Syntax(w))
        } else {
            match compound_spec(s, k) {
                Err(e) => Err(e),
                Ok((c, m)) => if j < m <= s.len() {
                    selector_tail(s, m, comps.push(c), combs.push(comb))
                } else {
                    Err(ParseErrorView::Syntax(k))
                },
            }
        }
    }
}

/// The selector that starts at `i`, and the position after it.
pub open spec fn selector_spec(s: Seq<char>, i: int) -> Result<(SelectorView, int), ParseErrorView> {
    match compound_spec(s, i) {
        Err(e) => Err(e),
        Ok((c, j)) => selector_tail(s, j, seq![c], Seq::empty()),
    }
}

/// The rest of a selector list from `i`, after the selectors `acc`.
pub open spec fn list_tail(s: Seq<char>, i: int, acc: Seq<SelectorView>) -> Result<
    Seq<SelectorView>,
    ParseErrorView,
>
    decreases s.len() - i,
{
    match selector_spec(s, i) {
        Err(e) => Err(e),
        Ok((sel, j)) => if j >= s.len() {
            Ok(acc.push(sel))
        } else if s[j] == ',' && i < skip_ws(s, j + 1) <= s.len() {
            list_tail(s, skip_ws(s, j + 1), acc.push(sel))
        } else {
            Err(ParseErrorView::Syntax(j))
        },
    }
}

/// What parsing the text `s` gives.
pub open spec fn parse_spec(s: Seq<char>) -> Result<Seq<SelectorView>, ParseErrorView> {
    list_tail(s, skip_ws(s, 0), Seq::empty())
}

fn skip_ws_exec(s: &Vec<char>, i: usize) -> (r: usize)
    requires
        i <= s@.len(),
    ensures
        r == skip_ws(s@, i as int),
        i <= r <= s@.len(),
{
    let mut j = i;
    while j < s.len() && is_ws_exec(s[j])
        invariant
            i <= j <= s@.len(),
            skip_ws(s@, j as int) == skip_ws(s@, i as int),
        decreases s@.len() - j,
    {
        j += 1;
    }
    j
}

fn name_end_exec(s: &Vec<char>, i: usize) -> (r: usize)
    requires
        i <= s@.len(),
    ensures
        r == name_end(s@, i as int),
        i <= r <= s@.len(),
{
    let mut j = i;
    while j < s.len() && is_name_char_exec(s[j])
        invariant
            i <= j <= s@.len(),
            name_end(s@, j as int) == name_end(s@, i as int),
        decreases s@.len() - j,
    {
        j += 1;
    }
    j
}

fn quote_end_exec(s: &Vec<char>, i: usize, q: char) -> (r: usize)
    requires
        i <= s@.len(),
    ensures
        r == quote_end(s@, i as int, q),
        i <= r <= s@.len(),
{
    let mut j = i;
    while j < s.len() && s[j] != q
        invariant
            i <= j <= s@.len(),
            quote_end(s@, j as int, q) == quote_end(s@, i as int, q),
        decreases s@.len() - j,
    {
        j += 1;
    }
    j
}

proof fn lemma_name_end_ge(s: Seq<char>, i: int)
    ensures
        name_end(s, i) >= i,
    decreases s.len() - i,
{
    if 0 <= i < s.len() && is_name_char(s[i]) {
        lemma_name_end_ge(s, i + 1);
    }
}

fn ident_starts_exec(s: &Vec<char>, i: usize) -> (r: bool)
    ensures
        r == ident_starts(s@, i as int),
        r ==> name_end(s@, i as int) > i,
{
    if i < s.len() {
        proof {
            lemma_name_end_ge(s@, i + 1);
        }
    }
    let r = i < s.len() && (is_name_start_exec(s[i]) || (s[i] == '-' && i + 1 < s.len() && (
    is_name_start_exec(s[i + 1]) || s[i + 1] == '-')));
    r
}

/// The characters `a..b` of `input` as a string.
fn slice_string(input: &str, a: usize, b: usize) -> (r: String)
    requires
        a <= b <= input@.len(),
    ensures
        r@ == input@.subrange(a as int, b as int),
{
    String::from_str(input.substring_char(a, b))
}

fn value_exec(input: &str, s: &Vec<char>, i: usize) -> (r: Result<(String, usize), ParseError>)
    requires
        s@ == input@,
        i <= s@.len(),
    ensures
        match r {
            Ok((v, j)) => value_spec(s@, i as int) == Ok::<(Seq<char>, int), ParseErrorView>(
                (v@, j as int),
            ) && i < j <= s@.len(),
            Err(e) => value_spec(s@, i as int) == Err::<(Seq<char>, int), ParseErrorView>(e@),
        },
{
    if i < s.len() && (s[i] == '"' || s[i] == '\'') {
        let e = quote_end_exec(s, i + 1, s[i]);
        if e >= s.len() {
            Err(ParseError::Syntax { position: i })
        } else {
            Ok((slice_string(input, i + 1, e), e + 1))
        }
    } else if ident_starts_exec(s, i) {
        let e = name_end_exec(s, i);
        Ok((slice_string(input, i, e), e))
    } else {
        Err(ParseError::Syntax { position: i })
    }
}

fn op_exec(s: &Vec<char>, b: usize) -> (r: Option<(AttrOperator, usize)>)
    requires
        b <= s@.len(),
    ensures
        match r {
            Some((op, c)) => op_spec(s@, b as int) == Some((op, c as int)) && b < c <= s@.len(),
            None => op_spec(s@, b as int) is None,
        },
{
    if b < s.len() && s[b] == '=' {
        Some((AttrOperator::Equal, b + 1))
    } else if b < s.len() && b + 1 < s.len() && s[b + 1] == '=' {
        if s[b] == '~' {
            Some((AttrOperator::Includes, b + 2))
        } else if s[b] == '|' {
            Some((AttrOperator::DashMatch, b + 2))
        } else if s[b] == '^' {
            Some((AttrOperator::Prefix, b + 2))
        } else if s[b] == '$' {
            Some((AttrOperator::Suffix, b + 2))
        } else if s[b] == '*' {
            Some((AttrOperator::Substring, b + 2))
        } else {
            None
        }
    } else {
        None
    }
}

/// The outcome of reading one simple selector.
pub open spec fn simple_result_ok(
    r: Result<(SimpleSelector, usize), ParseError>,
    spec: Result<(SimpleView, int), ParseErrorView>,
    i: int,
    len: int,
) -> bool {
    match r {
        Ok((x, j)) => spec == Ok::<(SimpleView, int), ParseErrorView>((x@, j as int)) && i < j
            <= len,
        Err(e) => spec == Err::<(SimpleView, int), ParseErrorView>(e@),
    }
}

fn attr_exec(input: &str, s: &Vec<char>, i: usize) -> (r: Result<(SimpleSelector, usize), ParseError>)
    requires
        s@ == input@,
        i < s@.len(),
    ensures
        simple_result_ok(r, attr_spec(s@, i as int), i as int, s@.len() as int),
{
    let len = s.len();
    let a = skip_ws_exec(s, i + 1);
    if !ident_starts_exec(s, a) {
        return Err(ParseError::Syntax { position: a });
    }
    let ne = name_end_exec(s, a);
    let name = slice_string(input, a, ne);
    let b = skip_ws_exec(s, ne);
    if b < s.len() && s[b] == ']' {
        return Ok((SimpleSelector::AttrExists(name), b + 1));
    }
    match op_exec(s, b) {
        None => Err(ParseError::Syntax { position: b }),
        Some((op, c)) => {
            let c2 = skip_ws_exec(s, c);
            match value_exec(input, s, c2) {
                Err(e) => Err(e),
                Ok((v, d)) => {
                    let e = skip_ws_exec(s, d);
                    if e < s.len() && s[e] == ']' {
                        Ok((SimpleSelector::AttrMatch(name, op, v), e + 1))
                    } else {
                        Err(ParseError::Syntax { position: e })
                    }
                },
            }
        },
    }
}

fn pseudo_exec(input: &str, s: &Vec<char>, i: usize) -> (r: Result<(SimpleSelector, usize), ParseError>)
    requires
        s@ == input@,
        i < s@.len(),
    ensures
        simple_result_ok(r, pseudo_spec(s@, i as int), i as int, s@.len() as int),
{
    let len = s.len();
    if i + 1 < len && s[i + 1] == ':' {
        if ident_starts_exec(s, i + 2) {
            let e = name_end_exec(s, i + 2);
            return Err(
                ParseError::UnsupportedPseudoClassOrElement {
                    name: slice_string(input, i + 2, e),
                    position: i + 2,
                },
            );
        } else {
            return Err(ParseError::Syntax { position: i + 2 });
        }
    }
    if !ident_starts_exec(s, i + 1) {
        return Err(ParseError::Syntax { position: i + 1 });
    }
    let e = name_end_exec(s, i + 1);
    if e < s.len() && s[e] == '(' {
        return Err(
            ParseError::UnsupportedPseudoClassOrElement {
                name: slice_string(input, i + 1, e),
                position: i + 1,
            },
        );
    }
    match PseudoClass::from_name(s, i + 1, e) {
        Some(p) => Ok((SimpleSelector::PseudoClass(p), e)),
        None => {
            let root = vec!['r', 'o', 'o', 't'];
            let empty = vec!['e', 'm', 'p', 't', 'y'];
            assert(root@ =~= root_name());
            assert(empty@ =~= empty_name());
            if ci_eq_range(s, i + 1, e, &root) {
                Ok((SimpleSelector::Root, e))
            } else if ci_eq_range(s, i + 1, e, &empty) {
                Ok((SimpleSelector::Empty, e))
            } else {
                Err(
                    ParseError::UnsupportedPseudoClassOrElement {
                        name: slice_string(input, i + 1, e),
                        position: i + 1,
                    },
                )
            }
        },
    }
}

fn subclass_exec(input: &str, s: &Vec<char>, j: usize) -> (r: Result<
    (SimpleSelector, usize),
    ParseError,
>)
    requires
        s@ == input@,
        subclass_starts(s@, j as int),
    ensures
        simple_result_ok(r, subclass_spec(s@, j as int), j as int, s@.len() as int),
{
    let len = s.len();
    if s[j] == '#' || s[j] == '.' {
        if ident_starts_exec(s, j + 1) {
            let e = name_end_exec(s, j + 1);
            let name = slice_string(input, j + 1, e);
            if s[j] == '#' {
                Ok((SimpleSelector::Id(name), e))
            } else {
                Ok((SimpleSelector::Class(name), e))
            }
        } else {
            Err(ParseError::Syntax { position: j + 1 })
        }
    } else if s[j] == '[' {
        attr_exec(input, s, j)
    } else {
        pseudo_exec(input, s, j)
    }
}

fn subclass_starts_exec(s: &Vec<char>, j: usize) -> (r: bool)
    ensures
        r == subclass_starts(s@, j as int),
{
    j < s.len() && (s[j] == '#' || s[j] == '.' || s[j] == '[' || s[j] == ':')
}

/// Reads the compound selector that starts at `i`.
fn compound_exec(input: &str, s: &Vec<char>, i: usize) -> (r: Result<
    (Vec<SimpleSelector>, usize),
    ParseError,
>)
    requires
        s@ == input@,
        i <= s@.len(),
    ensures
        match r {
            Ok((c, j)) => compound_spec(s@, i as int) == Ok::<
                (Seq<SimpleView>, int),
                ParseErrorView,
            >((compound_view(c), j as int)) && i < j <= s@.len(),
            Err(e) => compound_spec(s@, i as int) == Err::<(Seq<SimpleView>, int), ParseErrorView>(
                e@,
            ),
        },
{
    let mut acc: Vec<SimpleSelector> = Vec::new();
    let mut j: usize;
    if i < s.len() && s[i] == '*' {
        j = i + 1;
    } else if ident_starts_exec(s, i) {
        j = name_end_exec(s, i);
        acc.push(SimpleSelector::LocalName(slice_string(input, i, j)));
    } else if subclass_starts_exec(s, i) {
        j = i;
    } else {
        return Err(ParseError::Syntax { position: i });
    }
    assert(compound_view(acc) =~= if i < s@.len() && s@[i as int] == '*' {
        Seq::<SimpleView>::empty()
    } else if ident_starts(s@, i as int) {
        seq![SimpleView::LocalName(s@.subrange(i as int, name_end(s@, i as int)))]
    } else {
        Seq::<SimpleView>::empty()
    });
    let ghost target = compound_spec(s@, i as int);
    assert(target == compound_tail(s@, j as int, compound_view(acc)));
    while subclass_starts_exec(s, j)
        invariant
            s@ == input@,
            i <= j <= s@.len(),
            target == compound_spec(s@, i as int),
            target == compound_tail(s@, j as int, compound_view(acc)),
            j == i ==> subclass_starts(s@, j as int),
        decreases s@.len() - j,
    {
        match subclass_exec(input, s, j) {
            Err(e) => {
                return Err(e);
            },
            Ok((x, k)) => {
                let ghost old_acc = acc;
                acc.push(x);
                assert(compound_view(acc) =~= compound_view(old_acc).push(x@));
                j = k;
            },
        }
    }
    Ok((acc, j))
}

/// Reads the selector that starts at `i`.
fn selector_exec(input: &str, s: &Vec<char>, i: usize) -> (r: Result<(Selector, usize), ParseError>)
    requires
        s@ == input@,
        i <= s@.len(),
    ensures
        match r {
            Ok((sel, j)) => selector_spec(s@, i as int) == Ok::<(SelectorView, int), ParseErrorView>(
                (sel@, j as int),
            ) && i < j <= s@.len(),
            Err(e) => selector_spec(s@, i as int) == Err::<(SelectorView, int), ParseErrorView>(
                e@,
            ),
        },
{
    let (first, mut j) = match compound_exec(input, s, i) {
        Err(e) => {
            return Err(e);
        },
        Ok(x) => x,
    };
    let mut comps: Vec<Vec<SimpleSelector>> = Vec::new();
    comps.push(first);
    let mut combs: Vec<Combinator> = Vec::new();
    let ghost target = selector_spec(s@, i as int);
    assert(comps@.map_values(|c: Vec<SimpleSelector>| compound_view(c)) =~= seq![
        compound_view(first),
    ]);
    assert(combs@ =~= Seq::<Combinator>::empty());
    loop
        invariant
            s@ == input@,
            i < j <= s@.len(),
            target == selector_spec(s@, i as int),
            target == selector_tail(
                s@,
                j as int,
                comps@.map_values(|c: Vec<SimpleSelector>| compound_view(c)),
                combs@,
            ),
        decreases s@.len() - j,
    {
        let w = skip_ws_exec(s, j);
        if w >= s.len() || s[w] == ',' {
            let sel = Selector::from_parts(comps, combs);
            return Ok((sel, w));
        }
        let (comb, k) = if s[w] == '>' {
            (Combinator::Child, skip_ws_exec(s, w + 1))
        } else if s[w] == '+' {
            (Combinator::NextSibling, skip_ws_exec(s, w + 1))
        } else if s[w] == '~' {
            (Combinator::LaterSibling, skip_ws_exec(s, w + 1))
        } else {
            (Combinator::Descendant, w)
        };
        assert((comb, k as int) == combinator_spec(s@, w as int));
        if comb == Combinator::Descendant && w == j {
            return Err(ParseError::Syntax { position: w });
        }
        match compound_exec(input, s, k) {
            Err(e) => {
                return Err(e);
            },
            Ok((c, m)) => {
                let ghost old_comps = comps@;
                let ghost old_combs = combs@;
                let ghost cv = compound_view(c);
                comps.push(c);
                combs.push(comb);
                assert(comps@.map_values(|c: Vec<SimpleSelector>| compound_view(c)) =~= old_comps.map_values(
                    |c: Vec<SimpleSelector>| compound_view(c),
                ).push(cv));
                j = m;
            },
        }
    }
}

/// Compiles selector text into a selector list. Never fails but by returning
/// a parse error; the result is exactly what the grammar gives.
pub fn parse(input: &str) -> (r: Result<Selectors, ParseError>)
    ensures
        match r {
            Ok(l) => parse_spec(input@) == Ok::<Seq<SelectorView>, ParseErrorView>(l@),
            Err(e) => parse_spec(input@) == Err::<Seq<SelectorView>, ParseErrorView>(e@),
        },
{
    let s = to_chars(input);
    let mut i = skip_ws_exec(&s, 0);
    let mut acc: Vec<Selector> = Vec::new();
    let ghost target = parse_spec(input@);
    assert(acc@.map_values(|x: Selector| x@) =~= Seq::<SelectorView>::empty());
    loop
        invariant
            s@ == input@,
            i <= s@.len(),
            target == parse_spec(input@),
            target == list_tail(s@, i as int, acc@.map_values(|x: Selector| x@)),
        decreases s@.len() - i,
    {
        match selector_exec(input, &s, i) {
            Err(e) => {
                return Err(e);
            },
            Ok((sel, j)) => {
                let ghost old_acc = acc@;
                let ghost sv = sel@;
                acc.push(sel);
                assert(acc@.map_values(|x: Selector| x@) =~= old_acc.map_values(|x: Selector| x@).push(
                    sv,
                ));
                if j >= s.len() {
                    let l = Selectors(acc);
                    assert(l@ =~= acc@.map_values(|x: Selector| x@));
                    return Ok(l);
                }
                if s[j] != ',' {
                    return Err(ParseError::Syntax { position: j });
                }
                i = skip_ws_exec(&s, j + 1);
            },
        }
    }
}

impl Selectors {
    /// Compiles selector text into a selector list (see `parse`).
    pub fn new(selectors: &str) -> (r: Result<Selectors, ParseError>)
        ensures
            match r {
                Ok(l) => parse_spec(selectors@) == Ok::<Seq<SelectorView>, ParseErrorView>(l@),
                Err(e) => parse_spec(selectors@) == Err::<Seq<SelectorView>, ParseErrorView>(e@),
            },
    {
        parse(selectors)
    }
}

impl std::str::FromStr for Selectors {
    type Err = ParseError;

    fn from_str(selectors: &str) -> Result<Selectors, ParseError> {
        parse(selectors)
    }
}

} // verus!
