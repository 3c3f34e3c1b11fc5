//! Canonical text parses back: rendering a list that parsing can produce, and
//! parsing the result, gives the same list.

use vstd::prelude::*;
use crate::chars::{ci_eq, is_name_char, is_ws, lower_code};
use crate::laws::selector_wf;
use crate::parser::{
    attr_spec, combinator_spec, compound_spec, compound_tail, empty_name, ident_starts, list_tail,
    name_end, op_spec, parse_spec, quote_end, root_name, selector_spec, selector_tail, skip_ws,
    subclass_spec, subclass_starts, value_spec, ParseErrorView,
};
use crate::pseudo::PseudoClass;
use crate::selector::{
    combinator_text, op_text, quote_for, render_compound, render_compounds, render_list,
    render_selector, render_simple, render_simples, Combinator, SelectorView, SimpleView,
};

verus! {

/// A name that reads back as one identifier.
pub open spec fn ident_ok(n: Seq<char>) -> bool {
    ident_starts(n, 0) && forall|k: int| 0 <= k < n.len() ==> is_name_char(#[trigger] n[k])
}

/// A simple selector other than a type selector that renders to text which
/// reads back as itself.
pub open spec fn subclass_ok(x: SimpleView) -> bool {
    match x {
        SimpleView::LocalName(_) => false,
        SimpleView::Id(n) => ident_ok(n),
        SimpleView::Class(n) => ident_ok(n),
        SimpleView::AttrExists(n) => ident_ok(n),
        SimpleView::AttrMatch(n, _, v) => ident_ok(n) && !(v.contains('"') && v.contains('\'')),
        _ => true,
    }
}

/// Position `j` ends a simple selector: the text ends there, or a space, a
/// comma or the start of another simple selector follows.
pub open spec fn ends_simple(s: Seq<char>, j: int) -> bool {
    j >= s.len() || s[j] == ' ' || s[j] == ',' || s[j] == '#' || s[j] == '.' || s[j] == '['
        || s[j] == ':'
}

/// `t` stands in `s` at position `i`.
pub open spec fn stands_at(s: Seq<char>, i: int, t: Seq<char>) -> bool {
    0 <= i && i + t.len() <= s.len() && forall|k: int| 0 <= k < t.len() ==> s[i + k] == #[trigger] t[k]
}

proof fn lemma_name_end_at(s: Seq<char>, i: int, n: Seq<char>)
    requires
        stands_at(s, i, n),
        forall|k: int| 0 <= k < n.len() ==> is_name_char(#[trigger] n[k]),
        i + n.len() >= s.len() || !is_name_char(s[i + n.len()]),
    ensures
        name_end(s, i) == i + n.len(),
    decreases n.len(),
{
    if n.len() > 0 {
        let m = n.drop_first();
        assert(s[i] == n[0]);
        assert forall|k: int| 0 <= k < m.len() implies s[i + 1 + k] == #[trigger] m[k] by {
            assert(s[i + (k + 1)] == n[k + 1]);
        }
        assert forall|k: int| 0 <= k < m.len() implies is_name_char(#[trigger] m[k]) by {
            assert(m[k] == n[k + 1]);
        }
        lemma_name_end_at(s, i + 1, m);
    }
}

proof fn lemma_quote_end_at(s: Seq<char>, i: int, v: Seq<char>, q: char)
    requires
        stands_at(s, i, v),
        !v.contains(q),
        i + v.len() < s.len(),
        s[i + v.len()] == q,
    ensures
        quote_end(s, i, q) == i + v.len(),
    decreases v.len(),
{
    if v.len() > 0 {
        let m = v.drop_first();
        assert(s[i] == v[0]);
        assert(s[i] != q);
        assert forall|k: int| 0 <= k < m.len() implies s[i + 1 + k] == #[trigger] m[k] by {
            assert(s[i + (k + 1)] == v[k + 1]);
        }
        assert(!m.contains(q)) by {
            if m.contains(q) {
                let k = choose|k: int| 0 <= k < m.len() && m[k] == q;
                assert(v[k + 1] == q);
            }
        }
        lemma_quote_end_at(s, i + 1, m, q);
    }
}

/// An identifier that stands at `i` is read whole.
proof fn lemma_ident_at(s: Seq<char>, i: int, n: Seq<char>)
    requires
        stands_at(s, i, n),
        ident_ok(n),
        i + n.len() >= s.len() || !is_name_char(s[i + n.len()]),
    ensures
        ident_starts(s, i),
        name_end(s, i) == i + n.len(),
        s.subrange(i, i + n.len()) == n,
        !is_ws(s[i]),
{
    assert(s[i] == n[0]);
    if n.len() > 1 {
        assert(s[i + 1] == n[1]);
    }
    lemma_name_end_at(s, i, n);
    assert(s.subrange(i, i + n.len()) =~= n);
}

/// No pseudo-class is named `root` or `empty`.
proof fn lemma_structural_names(p: PseudoClass)
    ensures
        !ci_eq(root_name(), p.name()),
        !ci_eq(empty_name(), p.name()),
{
    if ci_eq(root_name(), p.name()) {
        assert(lower_code(root_name()[0]) == lower_code(p.name()[0]));
    }
    if ci_eq(empty_name(), p.name()) {
        assert(lower_code(empty_name()[0]) == lower_code(p.name()[0]));
    }
}

/// A name matches itself up to ASCII case.
proof fn lemma_ci_eq_refl(a: Seq<char>)
    ensures
        ci_eq(a, a),
{
}

/// Every pseudo-class name reads as one identifier.
proof fn lemma_pseudo_names_ident(p: PseudoClass)
    ensures
        ident_ok(p.name()),
        p.name().len() > 1,
        p.name()[0] != ':',
{
    let n = p.name();
    assert forall|k: int| 0 <= k < n.len() implies is_name_char(#[trigger] n[k]) by {
        match p {
            PseudoClass::Active => {},
            PseudoClass::AnyLink => {},
            PseudoClass::Checked => {},
            PseudoClass::Disabled => {},
            PseudoClass::Enabled => {},
            PseudoClass::Focus => {},
            PseudoClass::Hover => {},
            PseudoClass::Indeterminate => {},
            PseudoClass::Link => {},
            PseudoClass::Visited => {},
        }
    }
}

/// A rendered simple selector that stands at `i` reads back as itself.
proof fn lemma_subclass_at(s: Seq<char>, i: int, x: SimpleView)
    requires
        subclass_ok(x),
        stands_at(s, i, render_simple(x)),
        ends_simple(s, i + render_simple(x).len()),
    ensures
        subclass_starts(s, i),
        subclass_spec(s, i) == Ok::<(SimpleView, int), ParseErrorView>(
            (x, i + render_simple(x).len()),
        ),
{
    let r = render_simple(x);
    assert(s[i] == r[0]);
    let end = i + r.len();
    assert(end >= s.len() || !is_name_char(s[end]) && s[end] != '(');
    match x {
        SimpleView::Id(n) => {
            assert forall|k: int| 0 <= k < n.len() implies s[i + 1 + k] == #[trigger] n[k] by {
                assert(s[i + (k + 1)] == r[k + 1]);
            }
            lemma_ident_at(s, i + 1, n);
        },
        SimpleView::Class(n) => {
            assert forall|k: int| 0 <= k < n.len() implies s[i + 1 + k] == #[trigger] n[k] by {
                assert(s[i + (k + 1)] == r[k + 1]);
            }
            lemma_ident_at(s, i + 1, n);
        },
        SimpleView::AttrExists(n) => {
            assert forall|k: int| 0 <= k < n.len() implies s[i + 1 + k] == #[trigger] n[k] by {
                assert(s[i + (k + 1)] == r[k + 1]);
            }
            let ne = i + 1 + n.len();
            assert(s[ne] == r[1 + (n.len() as int)]);
            lemma_ident_at(s, i + 1, n);
            assert(skip_ws(s, i + 1) == i + 1);
            assert(skip_ws(s, ne) == ne);
        },
        SimpleView::AttrMatch(n, op, v) => {
            assert forall|k: int| 0 <= k < n.len() implies s[i + 1 + k] == #[trigger] n[k] by {
                assert(s[i + (k + 1)] == r[k + 1]);
            }
            let ne = i + 1 + n.len();
            let ot = op_text(op);
            let q = quote_for(v);
            assert(s[ne] == r[1 + (n.len() as int)]);
            assert(s[ne] == ot[0]);
            if ot.len() == 2 {
                assert(s[ne + 1] == r[1 + (n.len() as int) + 1]);
                assert(s[ne + 1] == ot[1]);
            }
            lemma_ident_at(s, i + 1, n);
            assert(skip_ws(s, i + 1) == i + 1);
            assert(skip_ws(s, ne) == ne);
            let c = ne + ot.len();
            assert(op_spec(s, ne) == Some((op, c)));
            assert(s[c] == r[1 + (n.len() as int) + (ot.len() as int)]);
            assert(s[c] == q);
            assert(skip_ws(s, c) == c);
            assert forall|k: int| 0 <= k < v.len() implies s[c + 1 + k] == #[trigger] v[k] by {
                assert(s[i + (1 + n.len() + ot.len() + 1 + k)] == r[1 + (n.len() as int) + (ot.len() as int) + 1 + k]);
            }
            let e = c + 1 + v.len();
            assert(s[e] == r[1 + (n.len() as int) + (ot.len() as int) + 1 + (v.len() as int)]);
            assert(s[e + 1] == r[1 + (n.len() as int) + (ot.len() as int) + 1 + (v.len() as int) + 1]);
            assert(!v.contains(q));
            lemma_quote_end_at(s, c + 1, v, q);
            assert(s.subrange(c + 1, e) =~= v);
            assert(value_spec(s, c) == Ok::<(Seq<char>, int), ParseErrorView>((v, e + 1)));
            assert(skip_ws(s, e + 1) == e + 1);
            assert(attr_spec(s, i) == Ok::<(SimpleView, int), ParseErrorView>((x, e + 2)));
        },
        SimpleView::PseudoClass(p) => {
            let n = p.name();
            lemma_pseudo_names_ident(p);
            assert forall|k: int| 0 <= k < n.len() implies s[i + 1 + k] == #[trigger] n[k] by {
                assert(s[i + (k + 1)] == r[k + 1]);
            }
            lemma_ident_at(s, i + 1, n);
            assert(s[i + 1] == n[0]);
            lemma_ci_eq_refl(n);
            PseudoClass::lemma_names_distinct(n, p);
        },
        SimpleView::Root => {
            let n = root_name();
            assert(ident_ok(n));
            assert forall|k: int| 0 <= k < n.len() implies s[i + 1 + k] == #[trigger] n[k] by {
                assert(s[i + (k + 1)] == r[k + 1]);
            }
            lemma_ident_at(s, i + 1, n);
            assert forall|p: PseudoClass| !ci_eq(n, #[trigger] p.name()) by {
                lemma_structural_names(p);
            }
            lemma_ci_eq_refl(n);
        },
        SimpleView::Empty => {
            let n = empty_name();
            assert(ident_ok(n));
            assert forall|k: int| 0 <= k < n.len() implies s[i + 1 + k] == #[trigger] n[k] by {
                assert(s[i + (k + 1)] == r[k + 1]);
            }
            lemma_ident_at(s, i + 1, n);
            assert forall|p: PseudoClass| !ci_eq(n, #[trigger] p.name()) by {
                lemma_structural_names(p);
            }
            lemma_ci_eq_refl(n);
            assert(!ci_eq(n, root_name()));
        },
        SimpleView::LocalName(_) => {},
    }
}

/// A simple selector that reads back as itself at place `first` (a type
/// selector only comes first).
pub open spec fn simple_ok(x: SimpleView, first: bool) -> bool {
    match x {
        SimpleView::LocalName(n) => first && ident_ok(n),
        _ => subclass_ok(x),
    }
}

/// A compound whose rendering reads back as itself.
pub open spec fn compound_ok(c: Seq<SimpleView>) -> bool {
    forall|k: int| 0 <= k < c.len() ==> simple_ok(#[trigger] c[k], k == 0)
}

/// Position `j` ends a compound: the text ends, or a space or a comma follows.
pub open spec fn ends_compound(s: Seq<char>, j: int) -> bool {
    j >= s.len() || s[j] == ' ' || s[j] == ','
}

/// The rendering of the first `k` simple selectors begins that of the first `m`.
proof fn lemma_simples_prefix(c: Seq<SimpleView>, k: int, m: int)
    requires
        0 <= k <= m <= c.len(),
    ensures
        render_simples(c, k).len() <= render_simples(c, m).len(),
        render_simples(c, m).subrange(0, render_simples(c, k).len() as int) == render_simples(c, k),
    decreases m - k,
{
    if k < m {
        lemma_simples_prefix(c, k, m - 1);
        let a = render_simples(c, m - 1);
        let b = render_simples(c, m);
        assert(b == a + render_simple(c[m - 1]));
        assert(b.subrange(0, a.len() as int) =~= a);
        assert(b.subrange(0, render_simples(c, k).len() as int) =~= a.subrange(
            0,
            render_simples(c, k).len() as int,
        ));
    } else {
        assert(render_simples(c, m).subrange(0, render_simples(c, k).len() as int)
            =~= render_simples(c, k));
    }
}

/// The first character of a rendered simple selector other than a type
/// selector starts a simple selector.
proof fn lemma_subclass_first_char(x: SimpleView)
    requires
        subclass_ok(x),
    ensures
        render_simple(x).len() > 0,
        render_simple(x)[0] == '#' || render_simple(x)[0] == '.' || render_simple(x)[0] == '['
            || render_simple(x)[0] == ':',
{
}

/// The simple selectors `k..` of a rendered compound read back as themselves.
proof fn lemma_compound_tail_at(s: Seq<char>, i: int, c: Seq<SimpleView>, k: int)
    requires
        compound_ok(c),
        c.len() > 0,
        stands_at(s, i, render_simples(c, c.len() as int)),
        ends_compound(s, i + render_simples(c, c.len() as int).len()),
        0 <= k <= c.len(),
        k > 0 || !(c[0] is LocalName),
    ensures
        compound_tail(s, i + render_simples(c, k).len(), c.subrange(0, k)) == Ok::<
            (Seq<SimpleView>, int),
            ParseErrorView,
        >((c, i + render_simples(c, c.len() as int).len())),
    decreases c.len() - k,
{
    let n = c.len() as int;
    let full = render_simples(c, n);
    let pk = i + render_simples(c, k).len();
    if k == n {
        assert(c.subrange(0, k) =~= c);
    } else {
        lemma_simples_prefix(c, k + 1, n);
        lemma_simples_prefix(c, k, k + 1);
        let rk = render_simples(c, k);
        let x = c[k];
        let rx = render_simple(x);
        assert(render_simples(c, k + 1) == rk + rx);
        assert(x is LocalName ==> k == 0);
        assert(subclass_ok(x));
        assert forall|j: int| 0 <= j < rx.len() implies s[pk + j] == #[trigger] rx[j] by {
            assert(full[rk.len() + j] == render_simples(c, k + 1)[rk.len() + j]);
            assert(s[i + (rk.len() + j)] == full[rk.len() + j]);
        }
        let pk1 = pk + rx.len();
        if k + 1 < n {
            lemma_simples_prefix(c, k + 2, n);
            let y = c[k + 1];
            assert(subclass_ok(y));
            lemma_subclass_first_char(y);
            let r1 = render_simples(c, k + 1);
            assert(render_simples(c, k + 2) == r1 + render_simple(y));
            assert(full[r1.len() as int] == render_simples(c, k + 2)[r1.len() as int]);
            assert(s[i + r1.len()] == full[r1.len() as int]);
        }
        lemma_subclass_at(s, pk, x);
        assert(c.subrange(0, k).push(x) =~= c.subrange(0, k + 1));
        lemma_compound_tail_at(s, i, c, k + 1);
    }
}

/// A rendered compound reads back as itself.
proof fn lemma_compound_at(s: Seq<char>, i: int, c: Seq<SimpleView>)
    requires
        compound_ok(c),
        stands_at(s, i, render_compound(c)),
        ends_compound(s, i + render_compound(c).len()),
    ensures
        compound_spec(s, i) == Ok::<(Seq<SimpleView>, int), ParseErrorView>(
            (c, i + render_compound(c).len()),
        ),
{
    if c.len() == 0 {
        assert(render_compound(c) == seq!['*']);
        assert(s[i + 0] == render_compound(c)[0]);
        assert(s[i] == '*');
        assert(c =~= Seq::<SimpleView>::empty());
    } else {
        let n = c.len() as int;
        let full = render_simples(c, n);
        lemma_simples_prefix(c, 1, n);
        lemma_simples_prefix(c, 0, 1);
        assert(render_simples(c, 1) == render_simples(c, 0) + render_simple(c[0]));
        assert(render_simples(c, 0) =~= Seq::<char>::empty());
        assert(render_simples(c, 1) =~= render_simple(c[0]));
        assert(s[i] == full[0]);
        assert(full[0] == render_simple(c[0])[0]) by {
            assert(full[0] == render_simples(c, 1)[0]);
        }
        match c[0] {
            SimpleView::LocalName(name) => {
                assert(simple_ok(c[0], true));
                assert forall|j: int| 0 <= j < name.len() implies s[i + j] == #[trigger] name[j] by {
                    assert(full[j] == render_simples(c, 1)[j]);
                }
                let p1 = i + name.len();
                if n > 1 {
                    lemma_simples_prefix(c, 2, n);
                    let y = c[1];
                    assert(subclass_ok(y));
                    lemma_subclass_first_char(y);
                    assert(render_simples(c, 2) == render_simples(c, 1) + render_simple(y));
                    assert(full[name.len() as int] == render_simples(c, 2)[name.len() as int]);
                }
                lemma_ident_at(s, i, name);
                assert(!(s[i] == '*')) by {
                    assert(is_name_char(name[0]));
                }
                assert(c.subrange(0, 1) =~= seq![SimpleView::LocalName(name)]);
                lemma_compound_tail_at(s, i, c, 1);
            },
            _ => {
                assert(subclass_ok(c[0]));
                lemma_subclass_first_char(c[0]);
                assert(!ident_starts(s, i));
                assert(c.subrange(0, 0) =~= Seq::<SimpleView>::empty());
                lemma_compound_tail_at(s, i, c, 0);
            },
        }
    }
}

/// A character that may begin a rendered compound.
pub open spec fn opens_compound(ch: char) -> bool {
    !is_ws(ch) && ch != '>' && ch != '+' && ch != '~' && ch != ','
}

/// A rendered compound is not empty and begins with a character that no
/// combinator or separator uses.
proof fn lemma_compound_first_char(c: Seq<SimpleView>)
    requires
        compound_ok(c),
    ensures
        render_compound(c).len() > 0,
        opens_compound(render_compound(c)[0]),
{
    if c.len() > 0 {
        let n = c.len() as int;
        lemma_simples_prefix(c, 1, n);
        lemma_simples_prefix(c, 0, 1);
        assert(render_simples(c, 1) == render_simples(c, 0) + render_simple(c[0]));
        assert(render_simples(c, 0) =~= Seq::<char>::empty());
        assert(render_simples(c, 1) =~= render_simple(c[0]));
        assert(render_compound(c)[0] == render_simples(c, 1)[0]);
        assert(simple_ok(c[0], true));
        match c[0] {
            SimpleView::LocalName(name) => {
                assert(ident_starts(name, 0));
            },
            _ => {
                lemma_subclass_first_char(c[0]);
            },
        }
    }
}

/// A selector whose rendering reads back as itself.
pub open spec fn selector_ok(sel: SelectorView) -> bool {
    selector_wf(sel) && forall|k: int|
        0 <= k < sel.compounds.len() ==> compound_ok(#[trigger] sel.compounds[k])
}

/// Position `j` ends a selector: the text ends, or a comma follows.
pub open spec fn ends_selector(s: Seq<char>, j: int) -> bool {
    j >= s.len() || s[j] == ','
}

/// The rendering of the first `k` compounds begins that of the first `m`.
proof fn lemma_compounds_prefix(sel: SelectorView, k: int, m: int)
    requires
        selector_wf(sel),
        1 <= k <= m <= sel.compounds.len(),
    ensures
        render_compounds(sel, k).len() <= render_compounds(sel, m).len(),
        render_compounds(sel, m).subrange(0, render_compounds(sel, k).len() as int)
            == render_compounds(sel, k),
    decreases m - k,
{
    if k < m {
        lemma_compounds_prefix(sel, k, m - 1);
        let a = render_compounds(sel, m - 1);
        let b = render_compounds(sel, m);
        assert(b == a + combinator_text(sel.combinators[m - 2]) + render_compound(
            sel.compounds[m - 1],
        ));
        assert(b.subrange(0, a.len() as int) =~= a);
        assert(b.subrange(0, render_compounds(sel, k).len() as int) =~= a.subrange(
            0,
            render_compounds(sel, k).len() as int,
        ));
    } else {
        assert(render_compounds(sel, m).subrange(0, render_compounds(sel, k).len() as int)
            =~= render_compounds(sel, k));
    }
}

/// A rendered combinator and the compound after it read back as themselves.
proof fn lemma_combinator_step(s: Seq<char>, q: int, comb: Combinator, c: Seq<SimpleView>)
    requires
        compound_ok(c),
        stands_at(s, q, combinator_text(comb) + render_compound(c)),
        ends_compound(s, q + combinator_text(comb).len() + render_compound(c).len()),
    ensures
        skip_ws(s, q) == q + 1,
        q + 1 < s.len(),
        s[q + 1] != ',',
        combinator_spec(s, q + 1) == (comb, q + combinator_text(comb).len()),
        compound_spec(s, q + combinator_text(comb).len()) == Ok::<
            (Seq<SimpleView>, int),
            ParseErrorView,
        >((c, q + combinator_text(comb).len() + render_compound(c).len())),
{
    let ct = combinator_text(comb);
    let rc = render_compound(c);
    let start = q + ct.len();
    lemma_compound_first_char(c);
    assert forall|j: int| 0 <= j < rc.len() implies s[start + j] == #[trigger] rc[j] by {
        assert(s[q + (ct.len() + j)] == (ct + rc)[ct.len() + j]);
    }
    assert(s[start] == rc[0]);
    lemma_compound_at(s, start, c);
    assert(s[q] == (ct + rc)[0]);
    assert(s[q + 1] == (ct + rc)[1]);
    match comb {
        Combinator::Descendant => {
            assert(skip_ws(s, q + 1) == q + 1);
        },
        _ => {
            assert(s[q + 2] == (ct + rc)[2]);
            assert(s[q + 3] == (ct + rc)[3]);
            assert(skip_ws(s, q + 3) == q + 3);
            assert(skip_ws(s, q + 2) == q + 3);
            assert(skip_ws(s, q + 1) == q + 1);
        },
    }
}

/// The compounds `k..` of a rendered selector read back as themselves.
proof fn lemma_selector_tail_at(s: Seq<char>, i: int, sel: SelectorView, k: int)
    requires
        selector_ok(sel),
        stands_at(s, i, render_selector(sel)),
        ends_selector(s, i + render_selector(sel).len()),
        1 <= k <= sel.compounds.len(),
    ensures
        selector_tail(
            s,
            i + render_compounds(sel, k).len(),
            sel.compounds.subrange(0, k),
            sel.combinators.subrange(0, k - 1),
        ) == Ok::<(SelectorView, int), ParseErrorView>((sel, i + render_selector(sel).len())),
    decreases sel.compounds.len() - k,
{
    let n = sel.compounds.len() as int;
    let full = render_selector(sel);
    let q = i + render_compounds(sel, k).len();
    if k == n {
        assert(sel.compounds.subrange(0, k) =~= sel.compounds);
        assert(sel.combinators.subrange(0, k - 1) =~= sel.combinators);
        assert(skip_ws(s, q) == q);
    } else {
        lemma_compounds_prefix(sel, k + 1, n);
        lemma_compounds_prefix(sel, k, k + 1);
        let rk = render_compounds(sel, k);
        let comb = sel.combinators[k - 1];
        let ct = combinator_text(comb);
        let c = sel.compounds[k];
        let rc = render_compound(c);
        assert(render_compounds(sel, k + 1) == rk + ct + rc);
        let start = q + ct.len();
        assert forall|j: int| 0 <= j < ct.len() + rc.len() implies s[q + j] == #[trigger] (ct
            + rc)[j] by {
            assert(full[rk.len() + j] == render_compounds(sel, k + 1)[rk.len() + j]);
            assert(s[i + (rk.len() + j)] == full[rk.len() + j]);
            assert(render_compounds(sel, k + 1)[rk.len() + j] == (ct + rc)[j]);
        }
        assert(compound_ok(c));
        let end = start + rc.len();
        if k + 1 < n {
            lemma_compounds_prefix(sel, k + 2, n);
            let r1 = render_compounds(sel, k + 1);
            assert(render_compounds(sel, k + 2) == r1 + combinator_text(sel.combinators[k])
                + render_compound(sel.compounds[k + 1]));
            assert(full[r1.len() as int] == render_compounds(sel, k + 2)[r1.len() as int]);
            assert(s[i + r1.len()] == full[r1.len() as int]);
            assert(s[end] == ' ');
        }
        lemma_combinator_step(s, q, comb, c);
        assert(sel.compounds.subrange(0, k).push(c) =~= sel.compounds.subrange(0, k + 1));
        assert(sel.combinators.subrange(0, k - 1).push(comb) =~= sel.combinators.subrange(0, k));
        lemma_selector_tail_at(s, i, sel, k + 1);
    }
}

/// A rendered selector reads back as itself.
proof fn lemma_selector_at(s: Seq<char>, i: int, sel: SelectorView)
    requires
        selector_ok(sel),
        stands_at(s, i, render_selector(sel)),
        ends_selector(s, i + render_selector(sel).len()),
    ensures
        selector_spec(s, i) == Ok::<(SelectorView, int), ParseErrorView>(
            (sel, i + render_selector(sel).len()),
        ),
{
    let n = sel.compounds.len() as int;
    let full = render_selector(sel);
    let c = sel.compounds[0];
    lemma_compounds_prefix(sel, 1, n);
    assert(render_compounds(sel, 1) == render_compound(c));
    let rc = render_compound(c);
    assert forall|j: int| 0 <= j < rc.len() implies s[i + j] == #[trigger] rc[j] by {
        assert(full[j] == render_compounds(sel, 1)[j]);
    }
    if n > 1 {
        lemma_compounds_prefix(sel, 2, n);
        assert(render_compounds(sel, 2) == rc + combinator_text(sel.combinators[0])
            + render_compound(sel.compounds[1]));
        assert(full[rc.len() as int] == render_compounds(sel, 2)[rc.len() as int]);
        assert(s[i + rc.len()] == ' ');
    }
    assert(compound_ok(c));
    lemma_compound_at(s, i, c);
    assert(sel.compounds.subrange(0, 1) =~= seq![c]);
    assert(sel.combinators.subrange(0, 0) =~= Seq::<Combinator>::empty());
    lemma_selector_tail_at(s, i, sel, 1);
}

/// A rendered selector is not empty and begins as its first compound does.
proof fn lemma_selector_first_char(sel: SelectorView)
    requires
        selector_ok(sel),
    ensures
        render_selector(sel).len() > 0,
        opens_compound(render_selector(sel)[0]),
{
    lemma_compounds_prefix(sel, 1, sel.compounds.len() as int);
    assert(compound_ok(sel.compounds[0]));
    lemma_compound_first_char(sel.compounds[0]);
    assert(render_selector(sel)[0] == render_compounds(sel, 1)[0]);
}

/// A list whose rendering reads back as itself.
pub open spec fn list_ok(l: Seq<SelectorView>) -> bool {
    l.len() >= 1 && forall|k: int| 0 <= k < l.len() ==> selector_ok(#[trigger] l[k])
}

/// The rendering of the first `k` selectors begins that of the first `m`.
proof fn lemma_list_prefix(l: Seq<SelectorView>, k: int, m: int)
    requires
        1 <= k <= m <= l.len(),
    ensures
        render_list(l, k).len() <= render_list(l, m).len(),
        render_list(l, m).subrange(0, render_list(l, k).len() as int) == render_list(l, k),
    decreases m - k,
{
    if k < m {
        lemma_list_prefix(l, k, m - 1);
        let a = render_list(l, m - 1);
        let b = render_list(l, m);
        assert(b == a + seq![',', ' '] + render_selector(l[m - 1]));
        assert(b.subrange(0, a.len() as int) =~= a);
        assert(b.subrange(0, render_list(l, k).len() as int) =~= a.subrange(
            0,
            render_list(l, k).len() as int,
        ));
    } else {
        assert(render_list(l, m).subrange(0, render_list(l, k).len() as int) =~= render_list(l, k));
    }
}

/// Where selector `k` of a rendered list starts.
pub open spec fn selector_start(l: Seq<SelectorView>, k: int) -> int {
    if k == 0 {
        0
    } else {
        render_list(l, k).len() + 2int
    }
}

/// Selector `k` of a rendered list stands where it should, and what follows
/// it ends a selector; a further selector follows after `, `.
proof fn lemma_selector_in_list(l: Seq<SelectorView>, k: int)
    requires
        list_ok(l),
        0 <= k < l.len(),
    ensures
        stands_at(render_list(l, l.len() as int), selector_start(l, k), render_selector(l[k])),
        selector_start(l, k) + render_selector(l[k]).len() == render_list(l, k + 1).len(),
        ends_selector(render_list(l, l.len() as int), render_list(l, k + 1).len() as int),
        k + 1 == l.len() ==> render_list(l, k + 1).len() == render_list(l, l.len() as int).len(),
        k + 1 < l.len() ==> skip_ws(
            render_list(l, l.len() as int),
            render_list(l, k + 1).len() + 1int,
        ) == selector_start(l, k + 1) && selector_start(l, k + 1) <= render_list(
            l,
            l.len() as int,
        ).len(),
{
    let n = l.len() as int;
    let s = render_list(l, n);
    let st = selector_start(l, k);
    let rs = render_selector(l[k]);
    lemma_list_prefix(l, k + 1, n);
    let e = render_list(l, k + 1).len() as int;
    if k == 0 {
        assert(render_list(l, 1) == rs);
    } else {
        lemma_list_prefix(l, k, k + 1);
        assert(render_list(l, k + 1) == render_list(l, k) + seq![',', ' '] + rs);
    }
    assert forall|j: int| 0 <= j < rs.len() implies s[st + j] == #[trigger] rs[j] by {
        assert(s[st + j] == render_list(l, k + 1)[st + j]);
    }
    if k + 1 < n {
        lemma_list_prefix(l, k + 2, n);
        let next = render_selector(l[k + 1]);
        assert(render_list(l, k + 2) == render_list(l, k + 1) + seq![',', ' '] + next);
        assert(s[e] == render_list(l, k + 2)[e]);
        assert(s[e + 1] == render_list(l, k + 2)[e + 1]);
        assert(s[e + 2] == render_list(l, k + 2)[e + 2]);
        lemma_selector_first_char(l[k + 1]);
        assert(s[e + 2] == next[0]);
        assert(skip_ws(s, e + 2) == e + 2);
        assert(skip_ws(s, e + 1) == e + 2);
    }
}

/// The selectors `k..` of a rendered list read back as themselves.
proof fn lemma_list_tail_at(l: Seq<SelectorView>, k: int)
    requires
        list_ok(l),
        0 <= k < l.len(),
    ensures
        list_tail(render_list(l, l.len() as int), selector_start(l, k), l.subrange(0, k)) == Ok::<
            Seq<SelectorView>,
            ParseErrorView,
        >(l),
    decreases l.len() - k,
{
    let n = l.len() as int;
    let s = render_list(l, n);
    let st = selector_start(l, k);
    lemma_selector_in_list(l, k);
    lemma_selector_at(s, st, l[k]);
    assert(l.subrange(0, k).push(l[k]) =~= l.subrange(0, k + 1));
    if k + 1 < n {
        lemma_list_tail_at(l, k + 1);
    } else {
        assert(l.subrange(0, k + 1) =~= l);
    }
}

/// Rendering is a faithful canonical text: for every list that parsing can
/// give (well-formed selectors over identifiers, attribute values without
/// both kinds of quote), parsing its canonical text gives the list back.
pub proof fn lemma_render_parses_back(l: Seq<SelectorView>)
    requires
        list_ok(l),
    ensures
        parse_spec(render_list(l, l.len() as int)) == Ok::<Seq<SelectorView>, ParseErrorView>(l),
{
    let s = render_list(l, l.len() as int);
    lemma_list_prefix(l, 1, l.len() as int);
    assert(render_list(l, 1) == render_selector(l[0]));
    lemma_selector_first_char(l[0]);
    assert(s[0] == render_list(l, 1)[0]);
    assert(skip_ws(s, 0) == 0);
    assert(l.subrange(0, 0) =~= Seq::<SelectorView>::empty());
    lemma_list_tail_at(l, 0);
}

/// The characters from `i` up to `name_end(s, i)` are name characters.
proof fn lemma_name_chars(s: Seq<char>, i: int)
    requires
        0 <= i,
    ensures
        i <= name_end(s, i),
        name_end(s, i) <= s.len() || name_end(s, i) == i,
        forall|k: int| i <= k < name_end(s, i) ==> is_name_char(#[trigger] s[k]),
    decreases s.len() - i,
{
    if 0 <= i < s.len() && is_name_char(s[i]) {
        lemma_name_chars(s, i + 1);
    }
}

/// The identifier that starts at `i` reads back as one identifier.
proof fn lemma_ident_ok_at(s: Seq<char>, i: int)
    requires
        ident_starts(s, i),
    ensures
        ident_ok(s.subrange(i, name_end(s, i))),
        name_end(s, i) <= s.len(),
{
    lemma_name_chars(s, i);
    let e = name_end(s, i);
    assert(is_name_char(s[i]));
    assert(e > i) by {
        assert(name_end(s, i) == name_end(s, i + 1));
        lemma_name_chars(s, i + 1);
    }
    let n = s.subrange(i, e);
    if s[i] == '-' {
        assert(is_name_char(s[i + 1]));
        assert(name_end(s, i + 1) == name_end(s, i + 2));
        lemma_name_chars(s, i + 2);
        assert(n[1] == s[i + 1]);
    }
    assert(n[0] == s[i]);
    assert forall|k: int| 0 <= k < n.len() implies is_name_char(#[trigger] n[k]) by {
        assert(n[k] == s[i + k]);
    }
}

/// No character from `i` up to `quote_end(s, i, q)` is `q`.
proof fn lemma_quote_chars(s: Seq<char>, i: int, q: char)
    requires
        0 <= i,
    ensures
        i <= quote_end(s, i, q),
        forall|k: int| i <= k < quote_end(s, i, q) ==> #[trigger] s[k] != q,
    decreases s.len() - i,
{
    if 0 <= i < s.len() && s[i] != q {
        lemma_quote_chars(s, i + 1, q);
    }
}

/// What the parser reads as a simple selector after the first place reads
/// back as itself.
proof fn lemma_subclass_read_ok(s: Seq<char>, j: int)
    requires
        subclass_starts(s, j),
    ensures
        subclass_spec(s, j) matches Ok((x, _)) ==> subclass_ok(x),
{
    if s[j] == '#' || s[j] == '.' {
        if ident_starts(s, j + 1) {
            lemma_ident_ok_at(s, j + 1);
        }
    } else if s[j] == '[' {
        let a = skip_ws(s, j + 1);
        if ident_starts(s, a) {
            lemma_ident_ok_at(s, a);
            let b = skip_ws(s, name_end(s, a));
            if let Some((op, c)) = op_spec(s, b) {
                let c2 = skip_ws(s, c);
                if 0 <= c2 < s.len() && (s[c2] == '"' || s[c2] == '\'') {
                    let q = s[c2];
                    lemma_quote_chars(s, c2 + 1, q);
                    let e = quote_end(s, c2 + 1, q);
                    if e < s.len() {
                        let v = s.subrange(c2 + 1, e);
                        assert(!v.contains(q)) by {
                            if v.contains(q) {
                                let k = choose|k: int| 0 <= k < v.len() && v[k] == q;
                                assert(s[c2 + 1 + k] == q);
                            }
                        }
                    }
                } else if ident_starts(s, c2) {
                    lemma_name_chars(s, c2);
                    let v = s.subrange(c2, name_end(s, c2));
                    assert(!v.contains('"')) by {
                        if v.contains('"') {
                            let k = choose|k: int| 0 <= k < v.len() && v[k] == '"';
                            assert(s[c2 + k] == '"');
                        }
                    }
                }
            }
        }
    }
}

proof fn lemma_compound_tail_read_ok(s: Seq<char>, j: int, acc: Seq<SimpleView>)
    requires
        compound_ok(acc),
    ensures
        compound_tail(s, j, acc) matches Ok((c, _)) ==> compound_ok(c),
    decreases s.len() - j,
{
    if subclass_starts(s, j) {
        lemma_subclass_read_ok(s, j);
        if let Ok((x, k)) = subclass_spec(s, j) {
            if j < k <= s.len() {
                let next = acc.push(x);
                assert forall|m: int| 0 <= m < next.len() implies simple_ok(
                    #[trigger] next[m],
                    m == 0,
                ) by {
                    if m < acc.len() {
                        assert(next[m] == acc[m]);
                    }
                }
                lemma_compound_tail_read_ok(s, k, next);
            }
        }
    }
}

/// What the parser reads as a compound reads back as itself.
proof fn lemma_compound_read_ok(s: Seq<char>, i: int)
    ensures
        compound_spec(s, i) matches Ok((c, _)) ==> compound_ok(c),
{
    if 0 <= i < s.len() && s[i] == '*' {
        lemma_compound_tail_read_ok(s, i + 1, Seq::empty());
    } else if ident_starts(s, i) {
        lemma_ident_ok_at(s, i);
        let first = seq![SimpleView::LocalName(s.subrange(i, name_end(s, i)))];
        assert(simple_ok(first[0], true));
        lemma_compound_tail_read_ok(s, name_end(s, i), first);
    } else if subclass_starts(s, i) {
        lemma_compound_tail_read_ok(s, i, Seq::empty());
    }
}

proof fn lemma_selector_tail_read_ok(
    s: Seq<char>,
    j: int,
    comps: Seq<Seq<SimpleView>>,
    combs: Seq<Combinator>,
)
    requires
        comps.len() == combs.len() + 1,
        forall|k: int| 0 <= k < comps.len() ==> compound_ok(#[trigger] comps[k]),
    ensures
        selector_tail(s, j, comps, combs) matches Ok((sel, _)) ==> selector_ok(sel),
    decreases s.len() - j,
{
    let w = skip_ws(s, j);
    if !(w < 0 || w >= s.len() || s[w] == ',') {
        let (comb, k) = combinator_spec(s, w);
        lemma_compound_read_ok(s, k);
        if let Ok((c, m)) = compound_spec(s, k) {
            if j < m <= s.len() {
                let next = comps.push(c);
                assert forall|x: int| 0 <= x < next.len() implies compound_ok(#[trigger] next[x]) by {
                    if x < comps.len() {
                        assert(next[x] == comps[x]);
                    }
                }
                lemma_selector_tail_read_ok(s, m, next, combs.push(comb));
            }
        }
    }
}

proof fn lemma_list_tail_read_ok(s: Seq<char>, i: int, acc: Seq<SelectorView>)
    requires
        forall|k: int| 0 <= k < acc.len() ==> selector_ok(#[trigger] acc[k]),
    ensures
        list_tail(s, i, acc) matches Ok(l) ==> list_ok(l),
    decreases s.len() - i,
{
    lemma_compound_read_ok(s, i);
    if let Ok((c, j)) = compound_spec(s, i) {
        lemma_selector_tail_read_ok(s, j, seq![c], Seq::empty());
    }
    if let Ok((sel, j)) = selector_spec(s, i) {
        let next = acc.push(sel);
        assert forall|k: int| 0 <= k < next.len() implies selector_ok(#[trigger] next[k]) by {
            if k < acc.len() {
                assert(next[k] == acc[k]);
            }
        }
        if j < s.len() && s[j] == ',' && i < skip_ws(s, j + 1) <= s.len() {
            lemma_list_tail_read_ok(s, skip_ws(s, j + 1), next);
        }
    }
}

/// Parsing, rendering the result and parsing again gives the same list: the
/// canonical text of a parsed list stands for exactly that list.
pub proof fn lemma_parse_render_parse(s: Seq<char>)
    ensures
        parse_spec(s) matches Ok(l) ==> parse_spec(render_list(l, l.len() as int)) == Ok::<
            Seq<SelectorView>,
            ParseErrorView,
        >(l),
{
    lemma_list_tail_read_ok(s, skip_ws(s, 0), Seq::empty());
    if let Ok(l) = parse_spec(s) {
        lemma_render_parses_back(l);
    }
}

} // verus!
