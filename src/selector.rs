//! Compiled selectors: simple selectors, compounds joined by combinators,
//! and selector lists; with what it means for each of them to match a node.

use vstd::prelude::*;
use crate::chars::{eq_lowered, is_ws, is_ws_exec, str_eq_lowered, to_chars, CaseSensitivity};
use crate::pseudo::PseudoClass;
use crate::tree::{
    attr_value, has_class, has_id, has_state, is_empty, is_link, is_root, parent_of,
    prev_sibling, prev_sibling_from, NodeData, Tree,
};

verus! {

/// The operator of an attribute selector with a value.
#[derive(PartialEq, Eq, Structural, Clone, Copy, Debug)]
pub enum AttrOperator {
    /// `[a=v]`
    Equal,
    /// `[a~=v]`: `v` is one of the whitespace-separated words of the value.
    Includes,
    /// `[a|=v]`: the value is `v` or starts with `v-`.
    DashMatch,
    /// `[a^=v]`
    Prefix,
    /// `[a*=v]`
    Substring,
    /// `[a$=v]`
    Suffix,
}

/// How two compounds relate in the tree.
#[derive(PartialEq, Eq, Structural, Clone, Copy, Debug)]
pub enum Combinator {
    /// Whitespace: the left compound matches some ancestor.
    Descendant,
    /// `>`: the left compound matches the parent.
    Child,
    /// `+`: the left compound matches the previous sibling element.
    NextSibling,
    /// `~`: the left compound matches some earlier sibling element.
    LaterSibling,
}

/// One condition on a single node.
#[derive(Clone, Debug)]
pub enum SimpleSelector {
    LocalName(String),
    Id(String),
    Class(String),
    AttrExists(String),
    AttrMatch(String, AttrOperator, String),
    PseudoClass(PseudoClass),
    Root,
    Empty,
}

/// The mathematical form of a simple selector.
pub enum SimpleView {
    LocalName(Seq<char>),
    Id(Seq<char>),
    Class(Seq<char>),
    AttrExists(Seq<char>),
    AttrMatch(Seq<char>, AttrOperator, Seq<char>),
    PseudoClass(PseudoClass),
    Root,
    Empty,
}

impl View for SimpleSelector {
    type V = SimpleView;

    open spec fn view(&self) -> SimpleView {
        match self {
            SimpleSelector::LocalName(s) => SimpleView::LocalName(s@),
            SimpleSelector::Id(s) => SimpleView::Id(s@),
            SimpleSelector::Class(s) => SimpleView::Class(s@),
            SimpleSelector::AttrExists(s) => SimpleView::AttrExists(s@),
            SimpleSelector::AttrMatch(a, op, v) => SimpleView::AttrMatch(a@, *op, v@),
            SimpleSelector::PseudoClass(p) => SimpleView::PseudoClass(*p),
            SimpleSelector::Root => SimpleView::Root,
            SimpleSelector::Empty => SimpleView::Empty,
        }
    }
}

/// A chain of compounds, left to right, and the combinators between them.
pub struct Selector {
    compounds: Vec<Vec<SimpleSelector>>,
    combinators: Vec<Combinator>,
}

/// The mathematical form of a selector.
pub struct SelectorView {
    pub compounds: Seq<Seq<SimpleView>>,
    pub combinators: Seq<Combinator>,
}

pub open spec fn compound_view(c: Vec<SimpleSelector>) -> Seq<SimpleView> {
    c@.map_values(|s: SimpleSelector| s@)
}

impl View for Selector {
    type V = SelectorView;

    closed spec fn view(&self) -> SelectorView {
        SelectorView {
            compounds: self.compounds@.map_values(|c: Vec<SimpleSelector>| compound_view(c)),
            combinators: self.combinators@,
        }
    }
}

/// A selector list: a node matches it when it matches one of its selectors.
pub struct Selectors(pub Vec<Selector>);

impl View for Selectors {
    type V = Seq<SelectorView>;

    open spec fn view(&self) -> Seq<SelectorView> {
        self.0@.map_values(|s: Selector| s@)
    }
}

/// `v` occurs in `a` at index `i`.
pub open spec fn occurs_at(a: Seq<char>, v: Seq<char>, i: int) -> bool {
    0 <= i && i + v.len() <= a.len() && a.subrange(i, i + v.len()) == v
}

/// `v` occurs in `a` at `i` as a whole whitespace-separated word.
pub open spec fn word_at(a: Seq<char>, v: Seq<char>, i: int) -> bool {
    occurs_at(a, v, i) && (i == 0 || is_ws(a[i - 1])) && (i + v.len() == a.len() || is_ws(
        a[i + v.len()],
    ))
}

/// The attribute value `a` satisfies operator `op` with the selector's value `v`.
pub open spec fn op_matches(op: AttrOperator, v: Seq<char>, a: Seq<char>) -> bool {
    match op {
        AttrOperator::Equal => a == v,
        AttrOperator::Includes => v.len() > 0 && (forall|i: int| 0 <= i < v.len() ==> !is_ws(
            #[trigger] v[i],
        )) && exists|i: int| word_at(a, v, i),
        AttrOperator::DashMatch => a == v || (occurs_at(a, v, 0) && a.len() > v.len() && a[v.len()
            as int] == '-'),
        AttrOperator::Prefix => v.len() > 0 && occurs_at(a, v, 0),
        AttrOperator::Substring => v.len() > 0 && exists|i: int| occurs_at(a, v, i),
        AttrOperator::Suffix => v.len() > 0 && a.len() >= v.len() && occurs_at(
            a,
            v,
            a.len() - v.len(),
        ),
    }
}

pub open spec fn href() -> Seq<char> {
    seq!['h', 'r', 'e', 'f']
}

/// Whether node `n` is in the state that pseudo-class `p` names.
pub open spec fn pseudo_matches(t: Seq<NodeData>, n: int, p: PseudoClass) -> bool {
    if p == PseudoClass::Link || p == PseudoClass::AnyLink {
        is_link(t, n) && attr_value(t[n].attributes@, href()) is Some
    } else {
        has_state(t, n, p)
    }
}

/// Whether node `n` satisfies the simple selector `s`.
pub open spec fn simple_matches(
    t: Seq<NodeData>,
    n: int,
    s: SimpleView,
    cs: CaseSensitivity,
) -> bool {
    match s {
        SimpleView::LocalName(name) => eq_lowered(t[n].local_name@, name),
        SimpleView::Id(id) => has_id(t, n, id, cs),
        SimpleView::Class(c) => has_class(t, n, c, cs),
        SimpleView::AttrExists(name) => attr_value(t[n].attributes@, name) is Some,
        SimpleView::AttrMatch(name, op, v) => match attr_value(t[n].attributes@, name) {
            Some(a) => op_matches(op, v, a),
            None => false,
        },
        SimpleView::PseudoClass(p) => pseudo_matches(t, n, p),
        SimpleView::Root => is_root(t, n),
        SimpleView::Empty => is_empty(t, n),
    }
}

/// Whether node `n` satisfies every simple selector of a compound.
pub open spec fn compound_matches(
    t: Seq<NodeData>,
    n: int,
    c: Seq<SimpleView>,
    cs: CaseSensitivity,
) -> bool {
    forall|i: int| 0 <= i < c.len() ==> simple_matches(t, n, #[trigger] c[i], cs)
}

/// Whether the compounds `0..=k` of `sel` match with compound `k` at node `n`.
pub open spec fn matches_at(
    t: Seq<NodeData>,
    sel: SelectorView,
    k: int,
    n: int,
    cs: CaseSensitivity,
) -> bool
    decreases k, n, 0int,
{
    if k < 0 || k >= sel.compounds.len() || n < 0 || n >= t.len() {
        false
    } else if !compound_matches(t, n, sel.compounds[k], cs) {
        false
    } else if k == 0 {
        true
    } else if k - 1 >= sel.combinators.len() {
        false
    } else {
        match sel.combinators[k - 1] {
            Combinator::Child => match parent_of(t, n) {
                Some(p) => matches_at(t, sel, k - 1, p, cs),
                None => false,
            },
            Combinator::Descendant => match parent_of(t, n) {
                Some(p) => ancestor_matches(t, sel, k - 1, p, cs),
                None => false,
            },
            Combinator::NextSibling => match prev_sibling(t, n) {
                Some(p) => matches_at(t, sel, k - 1, p, cs),
                None => false,
            },
            Combinator::LaterSibling => match prev_sibling(t, n) {
                Some(p) => earlier_matches(t, sel, k - 1, p, cs),
                None => false,
            },
        }
    }
}

/// Whether compounds `0..=k` match at node `a` or at one of its ancestors.
pub open spec fn ancestor_matches(
    t: Seq<NodeData>,
    sel: SelectorView,
    k: int,
    a: int,
    cs: CaseSensitivity,
) -> bool
    decreases k, a, 1int,
{
    if k < 0 || a < 0 {
        false
    } else if matches_at(t, sel, k, a, cs) {
        true
    } else {
        match parent_of(t, a) {
            Some(p) => if p < a {
                ancestor_matches(t, sel, k, p, cs)
            } else {
                false
            },
            None => false,
        }
    }
}

/// Whether compounds `0..=k` match at sibling `s` or at an earlier sibling.
pub open spec fn earlier_matches(
    t: Seq<NodeData>,
    sel: SelectorView,
    k: int,
    s: int,
    cs: CaseSensitivity,
) -> bool
    decreases k, s, 1int,
{
    if k < 0 || s < 0 {
        false
    } else if matches_at(t, sel, k, s, cs) {
        true
    } else {
        match prev_sibling(t, s) {
            Some(q) => if 0 <= q < s {
                earlier_matches(t, sel, k, q, cs)
            } else {
                false
            },
            None => false,
        }
    }
}

/// Whether node `n` matches the selector.
pub open spec fn selector_matches(
    t: Seq<NodeData>,
    sel: SelectorView,
    n: int,
    cs: CaseSensitivity,
) -> bool {
    matches_at(t, sel, sel.compounds.len() - 1, n, cs)
}

/// Whether node `n` matches one of the selectors of a list.
pub open spec fn list_matches(
    t: Seq<NodeData>,
    l: Seq<SelectorView>,
    n: int,
    cs: CaseSensitivity,
) -> bool {
    exists|i: int| 0 <= i < l.len() && selector_matches(t, #[trigger] l[i], n, cs)
}

/// Whether `v` occurs in `a` at index `i`.
fn occurs_at_exec(a: &Vec<char>, v: &Vec<char>, i: usize) -> (r: bool)
    ensures
        r == occurs_at(a@, v@, i as int),
{
    let alen = a.len();
    if i > alen || v.len() > alen - i {
        return false;
    }
    let mut j: usize = 0;
    while j < v.len()
        invariant
            alen == a@.len(),
            i + v@.len() <= a@.len(),
            j <= v@.len(),
            forall|m: int| 0 <= m < j ==> a@[i + m] == v@[m],
        decreases v@.len() - j,
    {
        if a[i + j] != v[j] {
            assert(a@.subrange(i as int, i + v@.len())[j as int] != v@[j as int]);
            return false;
        }
        j += 1;
    }
    assert(a@.subrange(i as int, i + v@.len()) =~= v@);
    true
}

/// Whether `v` occurs in `a` at `i` as a whole word.
fn word_at_exec(a: &Vec<char>, v: &Vec<char>, i: usize) -> (r: bool)
    ensures
        r == word_at(a@, v@, i as int),
{
    let alen = a.len();
    occurs_at_exec(a, v, i) && (i == 0 || is_ws_exec(a[i - 1])) && (i + v.len() == alen
        || is_ws_exec(a[i + v.len()]))
}

/// Whether `v` occurs somewhere in `a`; with `words`, as a whole word.
fn occurs_anywhere(a: &Vec<char>, v: &Vec<char>, words: bool) -> (r: bool)
    ensures
        words ==> r == exists|i: int| word_at(a@, v@, i),
        !words ==> r == exists|i: int| occurs_at(a@, v@, i),
{
    let alen = a.len();
    let mut i: usize = 0;
    loop
        invariant
            alen == a@.len(),
            i <= alen,
            !words ==> forall|m: int| 0 <= m < i ==> !occurs_at(a@, v@, m),
            words ==> forall|m: int| 0 <= m < i ==> !word_at(a@, v@, m),
        decreases alen - i,
    {
        if words {
            if word_at_exec(a, v, i) {
                return true;
            }
        } else if occurs_at_exec(a, v, i) {
            return true;
        }
        if i == alen {
            return false;
        }
        i += 1;
    }
}

/// Whether no character of `v` is whitespace.
fn no_ws(v: &Vec<char>) -> (r: bool)
    ensures
        r == forall|i: int| 0 <= i < v@.len() ==> !is_ws(#[trigger] v@[i]),
{
    let mut i: usize = 0;
    while i < v.len()
        invariant
            i <= v@.len(),
            forall|m: int| 0 <= m < i ==> !is_ws(#[trigger] v@[m]),
        decreases v@.len() - i,
    {
        if is_ws_exec(v[i]) {
            return false;
        }
        i += 1;
    }
    true
}

/// Whether the attribute value `a` satisfies `op` with the selector's value `v`.
pub fn op_matches_exec(op: AttrOperator, v: &str, a: &str) -> (r: bool)
    ensures
        r == op_matches(op, v@, a@),
{
    let v = to_chars(v);
    let a = to_chars(a);
    match op {
        AttrOperator::Equal => crate::chars::chars_eq(&a, &v),
        AttrOperator::Includes => v.len() > 0 && no_ws(&v) && occurs_anywhere(&a, &v, true),
        AttrOperator::DashMatch => crate::chars::chars_eq(&a, &v) || (occurs_at_exec(&a, &v, 0)
            && a.len() > v.len() && a[v.len()] == '-'),
        AttrOperator::Prefix => v.len() > 0 && occurs_at_exec(&a, &v, 0),
        AttrOperator::Substring => v.len() > 0 && occurs_anywhere(&a, &v, false),
        AttrOperator::Suffix => v.len() > 0 && a.len() >= v.len() && occurs_at_exec(
            &a,
            &v,
            a.len() - v.len(),
        ),
    }
}

impl SimpleSelector {
    /// Whether node `n` satisfies this simple selector.
    pub fn matches(&self, tree: &Tree, n: usize, cs: CaseSensitivity) -> (r: bool)
        requires
            n < tree@.len(),
        ensures
            r == simple_matches(tree@, n as int, self@, cs),
    {
        match self {
            SimpleSelector::LocalName(name) => str_eq_lowered(
                tree.node(n).local_name.as_str(),
                name.as_str(),
            ),
            SimpleSelector::Id(id) => tree.has_id(n, id.as_str(), cs),
            SimpleSelector::Class(c) => tree.has_class(n, c.as_str(), cs),
            SimpleSelector::AttrExists(name) => tree.attribute(n, name.as_str()).is_some(),
            SimpleSelector::AttrMatch(name, op, v) => match tree.attribute(n, name.as_str()) {
                Some(a) => op_matches_exec(*op, v.as_str(), a.as_str()),
                None => false,
            },
            SimpleSelector::PseudoClass(p) => {
                if *p == PseudoClass::Link || *p == PseudoClass::AnyLink {
                    proof {
                        reveal_strlit("href");
                        assert("href"@ =~= href());
                    }
                    tree.is_link(n) && tree.attribute(n, "href").is_some()
                } else {
                    tree.has_state(n, *p)
                }
            },
            SimpleSelector::Root => tree.is_root(n),
            SimpleSelector::Empty => tree.is_empty(n),
        }
    }
}

/// Whether node `n` satisfies every simple selector of compound `c`.
fn compound_matches_exec(c: &Vec<SimpleSelector>, tree: &Tree, n: usize, cs: CaseSensitivity) -> (r:
    bool)
    requires
        n < tree@.len(),
    ensures
        r == compound_matches(tree@, n as int, compound_view(*c), cs),
{
    let mut i: usize = 0;
    while i < c.len()
        invariant
            n < tree@.len(),
            i <= c@.len(),
            forall|m: int| 0 <= m < i ==> simple_matches(tree@, n as int, #[trigger] c@[m]@, cs),
        decreases c@.len() - i,
    {
        if !c[i].matches(tree, n, cs) {
            assert(compound_view(*c)[i as int] == c@[i as int]@);
            return false;
        }
        i += 1;
    }
    assert forall|m: int| 0 <= m < compound_view(*c).len() implies simple_matches(
        tree@,
        n as int,
        #[trigger] compound_view(*c)[m],
        cs,
    ) by {
        assert(compound_view(*c)[m] == c@[m]@);
    }
    true
}

/// A previous sibling stands before the node it was looked up from.
proof fn lemma_prev_sibling_from_before(t: Seq<NodeData>, n: int, j: int)
    ensures
        prev_sibling_from(t, n, j) matches Some(q) ==> 0 <= q <= j,
    decreases j + 1,
{
    if j >= 0 && j < t.len() && n >= 0 && n < t.len() && t[j].parent != t[n].parent {
        lemma_prev_sibling_from_before(t, n, j - 1);
    }
}

impl Selector {
    /// Builds a selector from its compounds and the combinators between them.
    pub(crate) fn from_parts(compounds: Vec<Vec<SimpleSelector>>, combinators: Vec<Combinator>) -> (r:
        Selector)
        ensures
            r@.compounds == compounds@.map_values(|c: Vec<SimpleSelector>| compound_view(c)),
            r@.combinators == combinators@,
    {
        Selector { compounds, combinators }
    }

    /// The number of compounds, left to right.
    pub fn len(&self) -> (r: usize)
        ensures
            r == self@.compounds.len(),
    {
        self.compounds.len()
    }

    /// The simple selectors of compound `k`.
    pub fn compound(&self, k: usize) -> (r: &Vec<SimpleSelector>)
        requires
            k < self@.compounds.len(),
        ensures
            compound_view(*r) == self@.compounds[k as int],
    {
        &self.compounds[k]
    }

    /// The combinator between compounds `k` and `k + 1`.
    pub fn combinator(&self, k: usize) -> (r: Combinator)
        requires
            k < self@.combinators.len(),
        ensures
            r == self@.combinators[k as int],
    {
        self.combinators[k]
    }

    /// Whether compounds `0..=k` match with compound `k` at node `n`.
    fn matches_at(&self, tree: &Tree, k: usize, n: usize, cs: CaseSensitivity) -> (r: bool)
        requires
            tree.wf(),
            n < tree@.len(),
            k < self@.compounds.len(),
        ensures
            r == matches_at(tree@, self@, k as int, n as int, cs),
        decreases k,
    {
        assert(self@.compounds[k as int] == compound_view(self.compounds@[k as int]));
        if !compound_matches_exec(&self.compounds[k], tree, n, cs) {
            return false;
        }
        if k == 0 {
            return true;
        }
        if k - 1 >= self.combinators.len() {
            return false;
        }
        match self.combinators[k - 1] {
            Combinator::Child => match tree.parent(n) {
                Some(p) => self.matches_at(tree, k - 1, p, cs),
                None => false,
            },
            Combinator::NextSibling => match tree.prev_sibling_element(n) {
                Some(p) => {
                    proof {
                        lemma_prev_sibling_from_before(tree@, n as int, n - 1);
                    }
                    self.matches_at(tree, k - 1, p, cs)
                },
                None => false,
            },
            Combinator::Descendant => {
                let mut cur = tree.parent(n);
                let ghost target = matches_at(tree@, self@, k as int, n as int, cs);
                assert(target == match cur {
                    Some(a) => ancestor_matches(tree@, self@, k - 1, a as int, cs),
                    None => false,
                });
                loop
                    invariant
                        tree.wf(),
                        n < tree@.len(),
                        1 <= k < self@.compounds.len(),
                        target == matches_at(tree@, self@, k as int, n as int, cs),
                        target == match cur {
                            Some(a) => ancestor_matches(tree@, self@, k - 1, a as int, cs),
                            None => false,
                        },
                        cur matches Some(a) ==> a < tree@.len(),
                    decreases match cur {
                        Some(a) => a + 1,
                        None => 0,
                    },
                {
                    match cur {
                        Some(a) => {
                            if self.matches_at(tree, k - 1, a, cs) {
                                return true;
                            }
                            cur = tree.parent(a);
                        },
                        None => {
                            return false;
                        },
                    }
                }
            },
            Combinator::LaterSibling => {
                let mut cur = tree.prev_sibling_element(n);
                let ghost target = matches_at(tree@, self@, k as int, n as int, cs);
                proof {
                    lemma_prev_sibling_from_before(tree@, n as int, n - 1);
                }
                loop
                    invariant
                        tree.wf(),
                        n < tree@.len(),
                        1 <= k < self@.compounds.len(),
                        target == matches_at(tree@, self@, k as int, n as int, cs),
                        target == match cur {
                            Some(s) => earlier_matches(tree@, self@, k - 1, s as int, cs),
                            None => false,
                        },
                        cur matches Some(s) ==> s < tree@.len(),
                    decreases match cur {
                        Some(s) => s + 1,
                        None => 0,
                    },
                {
                    match cur {
                        Some(s) => {
                            if self.matches_at(tree, k - 1, s, cs) {
                                return true;
                            }
                            proof {
                                lemma_prev_sibling_from_before(tree@, s as int, s - 1);
                            }
                            cur = tree.prev_sibling_element(s);
                        },
                        None => {
                            return false;
                        },
                    }
                }
            },
        }
    }

    /// Whether node `n` matches this selector under a case-sensitivity policy.
    pub fn matches_with(&self, tree: &Tree, n: usize, cs: CaseSensitivity) -> (r: bool)
        requires
            tree.wf(),
            n < tree@.len(),
        ensures
            r == selector_matches(tree@, self@, n as int, cs),
    {
        if self.compounds.len() == 0 {
            return false;
        }
        self.matches_at(tree, self.compounds.len() - 1, n, cs)
    }

    /// Whether node `n` matches this selector, names compared exactly.
    pub fn matches(&self, tree: &Tree, n: usize) -> (r: bool)
        requires
            tree.wf(),
            n < tree@.len(),
        ensures
            r == selector_matches(tree@, self@, n as int, CaseSensitivity::CaseSensitive),
    {
        self.matches_with(tree, n, CaseSensitivity::CaseSensitive)
    }
}

impl Selectors {
    /// Whether node `n` matches one of the selectors, under a policy.
    pub fn matches_with(&self, tree: &Tree, n: usize, cs: CaseSensitivity) -> (r: bool)
        requires
            tree.wf(),
            n < tree@.len(),
        ensures
            r == list_matches(tree@, self@, n as int, cs),
    {
        let mut i: usize = 0;
        while i < self.0.len()
            invariant
                tree.wf(),
                n < tree@.len(),
                i <= self@.len(),
                self@.len() == self.0@.len(),
                forall|m: int| 0 <= m < i ==> !selector_matches(tree@, #[trigger] self@[m], n as int, cs),
            decreases self.0@.len() - i,
        {
            if self.0[i].matches_with(tree, n, cs) {
                assert(self@[i as int] == self.0@[i as int]@);
                return true;
            }
            assert(self@[i as int] == self.0@[i as int]@);
            i += 1;
        }
        false
    }

    /// Whether node `n` matches one of the selectors, names compared exactly.
    pub fn matches(&self, tree: &Tree, n: usize) -> (r: bool)
        requires
            tree.wf(),
            n < tree@.len(),
        ensures
            r == list_matches(tree@, self@, n as int, CaseSensitivity::CaseSensitive),
    {
        self.matches_with(tree, n, CaseSensitivity::CaseSensitive)
    }
}

/// The text of an attribute operator.
pub open spec fn op_text(op: AttrOperator) -> Seq<char> {
    match op {
        AttrOperator::Equal => seq!['='],
        AttrOperator::Includes => seq!['~', '='],
        AttrOperator::DashMatch => seq!['|', '='],
        AttrOperator::Prefix => seq!['^', '='],
        AttrOperator::Substring => seq!['*', '='],
        AttrOperator::Suffix => seq!['$', '='],
    }
}

/// The quote that delimits a rendered attribute value: a double quote unless
/// the value holds one.
pub open spec fn quote_for(v: Seq<char>) -> char {
    if v.contains('"') {
        '\''
    } else {
        '"'
    }
}

/// The canonical text of a simple selector.
pub open spec fn render_simple(s: SimpleView) -> Seq<char> {
    match s {
        SimpleView::LocalName(n) => n,
        SimpleView::Id(n) => seq!['#'] + n,
        SimpleView::Class(n) => seq!['.'] + n,
        SimpleView::AttrExists(n) => seq!['['] + n + seq![']'],
        SimpleView::AttrMatch(n, op, v) => seq!['['] + n + op_text(op) + seq![quote_for(v)] + v
            + seq![quote_for(v), ']'],
        SimpleView::PseudoClass(p) => seq![':'] + p.name(),
        SimpleView::Root => seq![':', 'r', 'o', 'o', 't'],
        SimpleView::Empty => seq![':', 'e', 'm', 'p', 't', 'y'],
    }
}

/// The simple selectors `0..k` of a compound, rendered one after another.
pub open spec fn render_simples(c: Seq<SimpleView>, k: int) -> Seq<char>
    decreases k,
{
    if k <= 0 || k > c.len() {
        Seq::empty()
    } else {
        render_simples(c, k - 1) + render_simple(c[k - 1])
    }
}

/// The canonical text of a compound: `*` when it holds no simple selector.
pub open spec fn render_compound(c: Seq<SimpleView>) -> Seq<char> {
    if c.len() == 0 {
        seq!['*']
    } else {
        render_simples(c, c.len() as int)
    }
}

/// The text of a combinator, with the spaces around it.
pub open spec fn combinator_text(c: Combinator) -> Seq<char> {
    match c {
        Combinator::Descendant => seq![' '],
        Combinator::Child => seq![' ', '>', ' '],
        Combinator::NextSibling => seq![' ', '+', ' '],
        Combinator::LaterSibling => seq![' ', '~', ' '],
    }
}

/// The compounds `0..k` of a selector with the combinators between them.
pub open spec fn render_compounds(sel: SelectorView, k: int) -> Seq<char>
    decreases k,
{
    if k <= 0 || k > sel.compounds.len() {
        Seq::empty()
    } else if k == 1 {
        render_compound(sel.compounds[0])
    } else if k - 2 < sel.combinators.len() {
        render_compounds(sel, k - 1) + combinator_text(sel.combinators[k - 2]) + render_compound(
            sel.compounds[k - 1],
        )
    } else {
        render_compounds(sel, k - 1) + render_compound(sel.compounds[k - 1])
    }
}

/// The canonical text of a selector.
pub open spec fn render_selector(sel: SelectorView) -> Seq<char> {
    render_compounds(sel, sel.compounds.len() as int)
}

/// The selectors `0..k` of a list, separated by `, `.
pub open spec fn render_list(l: Seq<SelectorView>, k: int) -> Seq<char>
    decreases k,
{
    if k <= 0 || k > l.len() {
        Seq::empty()
    } else if k == 1 {
        render_selector(l[0])
    } else {
        render_list(l, k - 1) + seq![',', ' '] + render_selector(l[k - 1])
    }
}

/// Appends the characters of a string literal to `out`.
fn push_str(out: &mut String, lit: &str)
    ensures
        final(out)@ == old(out)@ + lit@,
{
    out.append(lit);
}

impl SimpleSelector {
    /// Appends the canonical text of this simple selector to `out`.
    pub fn write_css(&self, out: &mut String)
        ensures
            final(out)@ == old(out)@ + render_simple(self@),
    {
        proof {
            reveal_strlit("#");
            reveal_strlit(".");
            reveal_strlit("[");
            reveal_strlit("]");
            reveal_strlit("\"");
            reveal_strlit("'");
            reveal_strlit("=");
            reveal_strlit("~=");
            reveal_strlit("|=");
            reveal_strlit("^=");
            reveal_strlit("*=");
            reveal_strlit("$=");
            reveal_strlit(":root");
            reveal_strlit(":empty");
        }
        let ghost start = out@;
        match self {
            SimpleSelector::LocalName(n) => {
                out.append(n.as_str());
            },
            SimpleSelector::Id(n) => {
                push_str(out, "#");
                out.append(n.as_str());
                assert(out@ =~= start + (seq!['#'] + n@));
            },
            SimpleSelector::Class(n) => {
                push_str(out, ".");
                out.append(n.as_str());
                assert(out@ =~= start + (seq!['.'] + n@));
            },
            SimpleSelector::AttrExists(n) => {
                push_str(out, "[");
                out.append(n.as_str());
                push_str(out, "]");
                assert(out@ =~= start + (seq!['['] + n@ + seq![']']));
            },
            SimpleSelector::AttrMatch(n, op, v) => {
                push_str(out, "[");
                out.append(n.as_str());
                match op {
                    AttrOperator::Equal => push_str(out, "="),
                    AttrOperator::Includes => push_str(out, "~="),
                    AttrOperator::DashMatch => push_str(out, "|="),
                    AttrOperator::Prefix => push_str(out, "^="),
                    AttrOperator::Substring => push_str(out, "*="),
                    AttrOperator::Suffix => push_str(out, "$="),
                }
                let q = if contains_char(v.as_str(), '"') {
                    "'"
                } else {
                    "\""
                };
                assert(q@ == seq![quote_for(v@)]);
                push_str(out, q);
                out.append(v.as_str());
                push_str(out, q);
                push_str(out, "]");
                assert(out@ =~= start + render_simple(self@));
            },
            SimpleSelector::PseudoClass(p) => {
                let text = p.to_css();
                out.append(text.as_str());
            },
            SimpleSelector::Root => {
                push_str(out, ":root");
            },
            SimpleSelector::Empty => {
                push_str(out, ":empty");
            },
        }
    }
}

/// Whether `s` holds the character `c`.
fn contains_char(s: &str, c: char) -> (r: bool)
    ensures
        r == s@.contains(c),
{
    let v = to_chars(s);
    let mut i: usize = 0;
    while i < v.len()
        invariant
            v@ == s@,
            i <= v@.len(),
            forall|j: int| 0 <= j < i ==> v@[j] != c,
        decreases v@.len() - i,
    {
        if v[i] == c {
            assert(v@[i as int] == c);
            return true;
        }
        i += 1;
    }
    false
}

impl Selector {
    /// The canonical text of this selector.
    pub fn to_css(&self) -> (r: String)
        ensures
            r@ == render_selector(self@),
    {
        let mut out = String::new();
        let mut k: usize = 0;
        while k < self.compounds.len()
            invariant
                k <= self@.compounds.len(),
                self@.compounds.len() == self.compounds@.len(),
                self@.combinators == self.combinators@,
                out@ == render_compounds(self@, k as int),
            decreases self.compounds@.len() - k,
        {
            let ghost before = out@;
            if k > 0 {
                if k - 1 < self.combinators.len() {
                    proof {
                        reveal_strlit(" ");
                        reveal_strlit(" > ");
                        reveal_strlit(" + ");
                        reveal_strlit(" ~ ");
                    }
                    match self.combinators[k - 1] {
                        Combinator::Descendant => push_str(&mut out, " "),
                        Combinator::Child => push_str(&mut out, " > "),
                        Combinator::NextSibling => push_str(&mut out, " + "),
                        Combinator::LaterSibling => push_str(&mut out, " ~ "),
                    }
                    assert(out@ =~= before + combinator_text(self@.combinators[k - 1]));
                }
            }
            let ghost mid = out@;
            let c = &self.compounds[k];
            assert(self@.compounds[k as int] == compound_view(*c));
            if c.len() == 0 {
                proof {
                    reveal_strlit("*");
                }
                push_str(&mut out, "*");
            } else {
                let mut i: usize = 0;
                while i < c.len()
                    invariant
                        i <= c@.len(),
                        out@ == mid + render_simples(compound_view(*c), i as int),
                    decreases c@.len() - i,
                {
                    let ghost o = out@;
                    c[i].write_css(&mut out);
                    assert(compound_view(*c)[i as int] == c@[i as int]@);
                    assert(out@ =~= mid + render_simples(compound_view(*c), i + 1));
                    i += 1;
                }
            }
            assert(out@ =~= mid + render_compound(compound_view(*c)));
            k += 1;
            assert(out@ =~= render_compounds(self@, k as int));
        }
        out
    }
}

impl Selectors {
    /// The canonical text of this list: its selectors separated by `, `.
    pub fn to_css(&self) -> (r: String)
        ensures
            r@ == render_list(self@, self@.len() as int),
    {
        let mut out = String::new();
        let mut i: usize = 0;
        while i < self.0.len()
            invariant
                i <= self@.len(),
                self@.len() == self.0@.len(),
                out@ == render_list(self@, i as int),
            decreases self.0@.len() - i,
        {
            if i > 0 {
                proof {
                    reveal_strlit(", ");
                }
                push_str(&mut out, ", ");
            }
            let text = self.0[i].to_css();
            assert(self@[i as int] == self.0@[i as int]@);
            out.append(text.as_str());
            i += 1;
            assert(out@ =~= render_list(self@, i as int));
        }
        out
    }
}

} // verus!
