//! Properties that hold of the parser, the matcher and the filter together.

use vstd::prelude::*;
use crate::chars::{case_eq, is_name_char, CaseSensitivity};
use crate::parser::{
    combinator_spec, compound_spec, compound_tail, ident_starts, list_tail, name_end, parse_spec,
    selector_spec, selector_tail, skip_ws, subclass_spec, subclass_starts, ParseErrorView,
};
use crate::select::{filtered, lemma_filtered_push, node_matches};
use crate::selector::{
    compound_matches, list_matches, matches_at, selector_matches, simple_matches, Combinator,
    SelectorView, SimpleView,
};
use crate::tree::NodeData;

verus! {

/// A selector list split in two parts matches a node exactly when one of the
/// parts does: `A, B` matches where `A` matches or `B` matches.
pub proof fn lemma_list_or(
    t: Seq<NodeData>,
    a: Seq<SelectorView>,
    b: Seq<SelectorView>,
    n: int,
    cs: CaseSensitivity,
)
    ensures
        list_matches(t, a + b, n, cs) == (list_matches(t, a, n, cs) || list_matches(t, b, n, cs)),
{
    if list_matches(t, a + b, n, cs) {
        let i = choose|i: int| 0 <= i < (a + b).len() && selector_matches(t, #[trigger] (a + b)[i], n, cs);
        if i < a.len() {
            assert(a[i] == (a + b)[i]);
        } else {
            assert(b[i - a.len()] == (a + b)[i]);
        }
    }
    if list_matches(t, a, n, cs) {
        let i = choose|i: int| 0 <= i < a.len() && selector_matches(t, #[trigger] a[i], n, cs);
        assert((a + b)[i] == a[i]);
    }
    if list_matches(t, b, n, cs) {
        let i = choose|i: int| 0 <= i < b.len() && selector_matches(t, #[trigger] b[i], n, cs);
        assert((a + b)[a.len() + i] == b[i]);
    }
}

/// `f` maps each position of `a` to a position of `b` holding the same node,
/// and keeps their order.
pub open spec fn order_preserving_map(a: Seq<usize>, b: Seq<usize>, f: Seq<int>) -> bool {
    &&& f.len() == a.len()
    &&& forall|i: int, j: int| 0 <= i < j < f.len() ==> f[i] < f[j]
    &&& forall|i: int| 0 <= i < f.len() ==> 0 <= #[trigger] f[i] < b.len() && a[i] == b[f[i]]
}

/// `a` is a subsequence of `b`: its nodes occur in `b` in the same order.
pub open spec fn is_subsequence(a: Seq<usize>, b: Seq<usize>) -> bool {
    exists|f: Seq<int>| order_preserving_map(a, b, f)
}

/// The positions in `s` of the nodes that the filter keeps.
proof fn filtered_positions(t: Seq<NodeData>, l: Seq<SelectorView>, s: Seq<usize>) -> (f: Seq<int>)
    ensures
        order_preserving_map(filtered(t, l, s), s, f),
    decreases s.len(),
{
    if s.len() == 0 {
        Seq::empty()
    } else {
        let rest = s.drop_first();
        let g = filtered_positions(t, l, rest);
        let shifted = g.map_values(|x: int| x + 1);
        let fr = filtered(t, l, rest);
        if node_matches(t, l, s[0]) {
            let f = seq![0int] + shifted;
            assert forall|i: int| 0 <= i < f.len() implies 0 <= #[trigger] f[i] < s.len()
                && filtered(t, l, s)[i] == s[f[i]] by {
                if i > 0 {
                    assert(f[i] == g[i - 1] + 1);
                    assert(filtered(t, l, s)[i] == fr[i - 1]);
                }
            }
            assert forall|i: int, j: int| 0 <= i < j < f.len() implies f[i] < f[j] by {
                if i > 0 {
                    assert(f[i] == g[i - 1] + 1);
                }
                assert(f[j] == g[j - 1] + 1);
            }
            f
        } else {
            assert forall|i: int| 0 <= i < shifted.len() implies 0 <= #[trigger] shifted[i] < s.len()
                && filtered(t, l, s)[i] == s[shifted[i]] by {
                assert(shifted[i] == g[i] + 1);
            }
            assert forall|i: int, j: int| 0 <= i < j < shifted.len() implies shifted[i]
                < shifted[j] by {
                assert(shifted[i] == g[i] + 1);
                assert(shifted[j] == g[j] + 1);
            }
            shifted
        }
    }
}

/// Filtering keeps order: what the filter yields is a subsequence of its input.
pub proof fn lemma_filter_subsequence(t: Seq<NodeData>, l: Seq<SelectorView>, s: Seq<usize>)
    ensures
        is_subsequence(filtered(t, l, s), s),
{
    let f = filtered_positions(t, l, s);
    assert(order_preserving_map(filtered(t, l, s), s, f));
}

/// Filtering and reversal commute: filtering the reversed sequence gives the
/// filtered sequence reversed.
pub proof fn lemma_filter_reverse(t: Seq<NodeData>, l: Seq<SelectorView>, s: Seq<usize>)
    ensures
        filtered(t, l, s.reverse()) == filtered(t, l, s).reverse(),
    decreases s.len(),
{
    if s.len() == 0 {
        assert(s.reverse() =~= s);
        assert(filtered(t, l, s).reverse() =~= s);
    } else {
        let rest = s.drop_first();
        lemma_filter_reverse(t, l, rest);
        assert(s.reverse() =~= rest.reverse().push(s[0]));
        lemma_filtered_push(t, l, rest.reverse(), s[0]);
        if node_matches(t, l, s[0]) {
            assert((seq![s[0]] + filtered(t, l, rest)).reverse() =~= filtered(
                t,
                l,
                rest,
            ).reverse().push(s[0]));
        }
    }
}

/// Every node that the filter yields matches the list.
proof fn lemma_filtered_all_match(t: Seq<NodeData>, l: Seq<SelectorView>, s: Seq<usize>)
    ensures
        forall|i: int|
            0 <= i < filtered(t, l, s).len() ==> node_matches(t, l, #[trigger] filtered(t, l, s)[i]),
    decreases s.len(),
{
    if s.len() > 0 {
        lemma_filtered_all_match(t, l, s.drop_first());
        let fr = filtered(t, l, s.drop_first());
        assert forall|i: int| 0 <= i < filtered(t, l, s).len() implies node_matches(
            t,
            l,
            #[trigger] filtered(t, l, s)[i],
        ) by {
            if node_matches(t, l, s[0]) && i > 0 {
                assert(filtered(t, l, s)[i] == fr[i - 1]);
            }
        }
    }
}

/// A sequence of nodes that all match is left as it is by the filter.
proof fn lemma_filter_keeps_matching(t: Seq<NodeData>, l: Seq<SelectorView>, s: Seq<usize>)
    requires
        forall|i: int| 0 <= i < s.len() ==> node_matches(t, l, #[trigger] s[i]),
    ensures
        filtered(t, l, s) == s,
    decreases s.len(),
{
    if s.len() > 0 {
        let rest = s.drop_first();
        assert forall|i: int| 0 <= i < rest.len() implies node_matches(t, l, #[trigger] rest[i]) by {
            assert(rest[i] == s[i + 1]);
        }
        lemma_filter_keeps_matching(t, l, rest);
        assert(seq![s[0]] + rest =~= s);
    }
}

/// Filtering twice by the same list changes nothing more than filtering once.
pub proof fn lemma_filter_idempotent(t: Seq<NodeData>, l: Seq<SelectorView>, s: Seq<usize>)
    ensures
        filtered(t, l, filtered(t, l, s)) == filtered(t, l, s),
{
    lemma_filtered_all_match(t, l, s);
    lemma_filter_keeps_matching(t, l, filtered(t, l, s));
}

/// An id token: an identifier made of name characters only.
pub open spec fn is_id_token(id: Seq<char>) -> bool {
    ident_starts(id, 0) && forall|k: int| 0 <= k < id.len() ==> is_name_char(#[trigger] id[k])
}

/// The selector `#id`.
pub open spec fn id_selector(id: Seq<char>) -> SelectorView {
    SelectorView { compounds: seq![seq![SimpleView::Id(id)]], combinators: Seq::empty() }
}

proof fn lemma_name_end_to_end(s: Seq<char>, i: int)
    requires
        0 <= i <= s.len(),
        forall|k: int| i <= k < s.len() ==> is_name_char(#[trigger] s[k]),
    ensures
        name_end(s, i) == s.len(),
    decreases s.len() - i,
{
    if i < s.len() {
        lemma_name_end_to_end(s, i + 1);
    }
}

/// For every id token `id`, the text `#id` parses to the single selector that
/// holds `id`, and that selector matches exactly the nodes whose id equals
/// `id` under the case-sensitivity policy.
pub proof fn lemma_id_selector(t: Seq<NodeData>, id: Seq<char>, n: int, cs: CaseSensitivity)
    requires
        is_id_token(id),
    ensures
        parse_spec(seq!['#'] + id) == Ok::<Seq<SelectorView>, ParseErrorView>(
            seq![id_selector(id)],
        ),
        list_matches(t, seq![id_selector(id)], n, cs) == (0 <= n < t.len() && case_eq(
            cs,
            id,
            t[n].id@,
        )),
{
    let s = seq!['#'] + id;
    let len = s.len() as int;
    assert(s[0] == '#');
    assert forall|k: int| 1 <= k < len implies is_name_char(#[trigger] s[k]) by {
        assert(s[k] == id[k - 1]);
    }
    assert(s[1] == id[0]);
    if id.len() > 1 {
        assert(s[2] == id[1]);
    }
    assert(ident_starts(s, 1));
    lemma_name_end_to_end(s, 1);
    assert(s.subrange(1, len) =~= id);
    assert(skip_ws(s, 0) == 0);
    assert(subclass_starts(s, 0));
    assert(subclass_spec(s, 0) == Ok::<(SimpleView, int), ParseErrorView>(
        (SimpleView::Id(id), len),
    ));
    assert(Seq::<SimpleView>::empty().push(SimpleView::Id(id)) =~= seq![SimpleView::Id(id)]);
    assert(compound_tail(s, len, seq![SimpleView::Id(id)]) == Ok::<
        (Seq<SimpleView>, int),
        ParseErrorView,
    >((seq![SimpleView::Id(id)], len)));
    assert(compound_spec(s, 0) == Ok::<(Seq<SimpleView>, int), ParseErrorView>(
        (seq![SimpleView::Id(id)], len),
    ));
    assert(skip_ws(s, len) == len);
    assert(selector_tail(s, len, seq![seq![SimpleView::Id(id)]], Seq::empty()) == Ok::<
        (SelectorView, int),
        ParseErrorView,
    >((id_selector(id), len)));
    assert(selector_spec(s, 0) == Ok::<(SelectorView, int), ParseErrorView>(
        (id_selector(id), len),
    ));
    assert(Seq::<SelectorView>::empty().push(id_selector(id)) =~= seq![id_selector(id)]);
    assert(list_tail(s, 0, Seq::empty()) == Ok::<Seq<SelectorView>, ParseErrorView>(
        seq![id_selector(id)],
    ));

    let sel = id_selector(id);
    if list_matches(t, seq![sel], n, cs) {
        let i = choose|i: int| 0 <= i < 1 && selector_matches(t, #[trigger] seq![sel][i], n, cs);
        assert(seq![sel][i] == sel);
        assert(matches_at(t, sel, 0, n, cs));
        assert(simple_matches(t, n, sel.compounds[0][0], cs));
    }
    if 0 <= n < t.len() && case_eq(cs, id, t[n].id@) {
        assert(simple_matches(t, n, sel.compounds[0][0], cs));
        assert(compound_matches(t, n, sel.compounds[0], cs));
        assert(matches_at(t, sel, 0, n, cs));
        assert(selector_matches(t, seq![sel][0], n, cs));
    }
}

/// A selector is well formed: at least one compound, and one combinator
/// between each two neighbouring compounds.
pub open spec fn selector_wf(sel: SelectorView) -> bool {
    sel.compounds.len() == sel.combinators.len() + 1
}

proof fn lemma_selector_tail_wf(
    s: Seq<char>,
    j: int,
    comps: Seq<Seq<SimpleView>>,
    combs: Seq<Combinator>,
)
    requires
        comps.len() == combs.len() + 1,
    ensures
        selector_tail(s, j, comps, combs) matches Ok((sel, _)) ==> selector_wf(sel),
    decreases s.len() - j,
{
    let w = skip_ws(s, j);
    if !(w < 0 || w >= s.len() || s[w] == ',') {
        let (comb, k) = combinator_spec(s, w);
        if let Ok((c, m)) = compound_spec(s, k) {
            if j < m <= s.len() {
                lemma_selector_tail_wf(s, m, comps.push(c), combs.push(comb));
            }
        }
    }
}

proof fn lemma_list_tail_wf(s: Seq<char>, i: int, acc: Seq<SelectorView>)
    requires
        forall|k: int| 0 <= k < acc.len() ==> selector_wf(#[trigger] acc[k]),
    ensures
        list_tail(s, i, acc) matches Ok(l) ==> l.len() >= 1 && forall|k: int|
            0 <= k < l.len() ==> selector_wf(#[trigger] l[k]),
    decreases s.len() - i,
{
    if let Ok((c, j)) = compound_spec(s, i) {
        lemma_selector_tail_wf(s, j, seq![c], Seq::empty());
    }
    if let Ok((sel, j)) = selector_spec(s, i) {
        let next = acc.push(sel);
        assert forall|k: int| 0 <= k < next.len() implies selector_wf(#[trigger] next[k]) by {
            if k < acc.len() {
                assert(next[k] == acc[k]);
            }
        }
        if j < s.len() && s[j] == ',' && i < skip_ws(s, j + 1) <= s.len() {
            lemma_list_tail_wf(s, skip_ws(s, j + 1), next);
        }
    }
}

/// What parsing accepts is a non-empty list of well-formed selectors.
pub proof fn lemma_parse_wf(s: Seq<char>)
    ensures
        parse_spec(s) matches Ok(l) ==> l.len() >= 1 && forall|k: int|
            0 <= k < l.len() ==> selector_wf(#[trigger] l[k]),
{
    lemma_list_tail_wf(s, skip_ws(s, 0), Seq::empty());
}

} // verus!
