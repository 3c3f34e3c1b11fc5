//! An arena document tree: the node capabilities that selector matching reads.
//!
//! Nodes live in a vector and refer to their parent by index; a parent always
//! stands before its children, so every walk towards the root ends.

use vstd::prelude::*;
use crate::chars::{
    case_eq, eq_lowered, str_case_eq, str_eq_lowered, to_chars, chars_eq, CaseSensitivity,
};
use crate::pseudo::PseudoClass;

verus! {

/// An attribute of an element.
#[derive(Clone, Debug)]
pub struct Attribute {
    pub namespace: Option<String>,
    pub name: String,
    pub value: String,
}

/// One element of the document.
#[derive(Clone, Debug)]
pub struct NodeData {
    pub local_name: String,
    pub namespace: Option<String>,
    /// The `id` attribute, empty where the element has none.
    pub id: String,
    pub classes: Vec<String>,
    pub attributes: Vec<Attribute>,
    /// The user-interface states that the host reports for the element
    /// (`checked`, `hover`, ...).
    pub states: Vec<PseudoClass>,
    /// Whether the element has text content.
    pub has_text: bool,
    /// The index of the parent element; `None` where the parent is the
    /// document itself.
    pub parent: Option<usize>,
}

/// A document: its elements, each parent before its children.
pub struct Tree {
    nodes: Vec<NodeData>,
}

impl View for Tree {
    type V = Seq<NodeData>;

    closed spec fn view(&self) -> Seq<NodeData> {
        self.nodes@
    }
}

/// The node's parent, if any, stands before index `i`.
pub open spec fn parent_before(node: NodeData, i: int) -> bool {
    match node.parent {
        Some(p) => (p as int) < i,
        None => true,
    }
}

/// Every parent index points to an earlier node.
pub open spec fn tree_wf(t: Seq<NodeData>) -> bool {
    forall|i: int| 0 <= i < t.len() ==> parent_before(#[trigger] t[i], i)
}

/// The parent of node `n`.
pub open spec fn parent_of(t: Seq<NodeData>, n: int) -> Option<int> {
    if 0 <= n < t.len() {
        match t[n].parent {
            Some(p) => if (p as int) < n {
                Some(p as int)
            } else {
                None
            },
            None => None,
        }
    } else {
        None
    }
}

/// The last node before index `j + 1` that shares `n`'s parent.
pub open spec fn prev_sibling_from(t: Seq<NodeData>, n: int, j: int) -> Option<int>
    decreases j + 1,
{
    if j < 0 || j >= t.len() || n < 0 || n >= t.len() {
        None
    } else if t[j].parent == t[n].parent {
        Some(j)
    } else {
        prev_sibling_from(t, n, j - 1)
    }
}

/// The previous sibling element of node `n`.
pub open spec fn prev_sibling(t: Seq<NodeData>, n: int) -> Option<int> {
    prev_sibling_from(t, n, n - 1)
}

/// The first node from index `j` on that shares `n`'s parent.
pub open spec fn next_sibling_from(t: Seq<NodeData>, n: int, j: int) -> Option<int>
    decreases t.len() - j,
{
    if j < 0 || j >= t.len() || n < 0 || n >= t.len() {
        None
    } else if t[j].parent == t[n].parent {
        Some(j)
    } else {
        next_sibling_from(t, n, j + 1)
    }
}

/// The next sibling element of node `n`.
pub open spec fn next_sibling(t: Seq<NodeData>, n: int) -> Option<int> {
    next_sibling_from(t, n, n + 1)
}

/// Node `n` has an element child.
pub open spec fn has_child(t: Seq<NodeData>, n: int) -> bool {
    exists|j: int| 0 <= j < t.len() && (#[trigger] t[j]).parent == Some(n as usize)
}

/// The node's parent is the document.
pub open spec fn is_root(t: Seq<NodeData>, n: int) -> bool {
    t[n].parent is None
}

/// Emptiness as this engine defines it: not both an element child and text.
pub open spec fn is_empty(t: Seq<NodeData>, n: int) -> bool {
    !(has_child(t, n) && t[n].has_text)
}

/// Attribute `i` of the list is named `name` (ASCII letters of `name` lowered).
pub open spec fn attr_named(attrs: Seq<Attribute>, i: int, name: Seq<char>) -> bool {
    eq_lowered(attrs[i].name@, name)
}

/// The value of the first attribute named `name`.
pub open spec fn attr_value(attrs: Seq<Attribute>, name: Seq<char>) -> Option<Seq<char>> {
    if exists|i: int| 0 <= i < attrs.len() && #[trigger] attr_named(attrs, i, name) {
        let i = choose|i: int|
            0 <= i < attrs.len() && #[trigger] attr_named(attrs, i, name) && forall|j: int|
                0 <= j < i ==> !attr_named(attrs, j, name);
        Some(attrs[i].value@)
    } else {
        None
    }
}

/// The element's id equals `id` under the policy.
pub open spec fn has_id(t: Seq<NodeData>, n: int, id: Seq<char>, cs: CaseSensitivity) -> bool {
    case_eq(cs, id, t[n].id@)
}

/// One of the element's classes equals `name` under the policy.
pub open spec fn has_class(t: Seq<NodeData>, n: int, name: Seq<char>, cs: CaseSensitivity) -> bool {
    exists|j: int| 0 <= j < t[n].classes@.len() && case_eq(cs, name, #[trigger] t[n].classes@[j]@)
}

/// The host reports the state `p` for the element.
pub open spec fn has_state(t: Seq<NodeData>, n: int, p: PseudoClass) -> bool {
    t[n].states@.contains(p)
}

/// What `str::to_lowercase` returns for a text.
pub uninterp spec fn lower_of(s: Seq<char>) -> Seq<char>;

/// The element is a link element: `a`, `area` or `link` in any case.
pub open spec fn is_link(t: Seq<NodeData>, n: int) -> bool {
    let l = lower_of(t[n].local_name@);
    l == seq!['a'] || l == seq!['a', 'r', 'e', 'a'] || l == seq!['l', 'i', 'n', 'k']
}

/// Relies on str::to_lowercase: the lower-case form of a text, which depends
/// on its characters alone.
#[verifier::external_body]
fn to_lowercase(s: &str) -> (r: String)
    ensures
        r@ == lower_of(s@),
{
    s.to_lowercase()
}

impl Tree {
    /// An empty document.
    pub fn new() -> (r: Tree)
        ensures
            r@ == Seq::<NodeData>::empty(),
    {
        Tree { nodes: Vec::new() }
    }

    pub open spec fn wf(&self) -> bool {
        tree_wf(self@)
    }

    /// The number of elements.
    pub fn len(&self) -> (r: usize)
        ensures
            r == self@.len(),
    {
        self.nodes.len()
    }

    /// The element at index `n`.
    pub fn node(&self, n: usize) -> (r: &NodeData)
        requires
            n < self@.len(),
        ensures
            *r == self@[n as int],
    {
        &self.nodes[n]
    }

    /// Appends an element and returns its index. Fails, leaving the tree
    /// as it was, where the element's parent is not already in the tree.
    pub fn push(&mut self, node: NodeData) -> (r: Option<usize>)
        requires
            old(self).wf(),
        ensures
            final(self).wf(),
            parent_before(node, old(self)@.len() as int) ==> r == Some(old(self)@.len() as usize) && final(self)@ == old(self)@.push(node),
            !parent_before(node, old(self)@.len() as int) ==> r is None && final(self)@ == old(self)@,
    {
        let len = self.nodes.len();
        match node.parent {
            Some(p) => if p >= len {
                return None;
            },
            None => {},
        }
        self.nodes.push(node);
        assert(self@ == old(self)@.push(node));
        assert forall|i: int| 0 <= i < self@.len() implies parent_before(#[trigger] self@[i], i) by {
            if i < len {
                assert(self@[i] == old(self)@[i]);
            }
        }
        Some(len)
    }

    /// The parent element of `n`.
    pub fn parent(&self, n: usize) -> (r: Option<usize>)
        requires
            self.wf(),
            n < self@.len(),
        ensures
            r == self@[n as int].parent,
            match r {
                Some(p) => parent_of(self@, n as int) == Some(p as int),
                None => parent_of(self@, n as int) is None,
            },
    {
        self.nodes[n].parent
    }

    /// The previous sibling element of `n`.
    pub fn prev_sibling_element(&self, n: usize) -> (r: Option<usize>)
        requires
            n < self@.len(),
        ensures
            match r {
                Some(p) => prev_sibling(self@, n as int) == Some(p as int),
                None => prev_sibling(self@, n as int) is None,
            },
    {
        let mut j: usize = n;
        while j > 0
            invariant
                j <= n < self@.len(),
                prev_sibling(self@, n as int) == prev_sibling_from(self@, n as int, j - 1),
            decreases j,
        {
            if self.nodes[j - 1].parent == self.nodes[n].parent {
                return Some(j - 1);
            }
            j -= 1;
        }
        None
    }

    /// The next sibling element of `n`.
    pub fn next_sibling_element(&self, n: usize) -> (r: Option<usize>)
        requires
            n < self@.len(),
        ensures
            match r {
                Some(p) => next_sibling(self@, n as int) == Some(p as int),
                None => next_sibling(self@, n as int) is None,
            },
    {
        let len = self.nodes.len();
        let mut j: usize = n + 1;
        while j < len
            invariant
                n < j <= self@.len(),
                len == self@.len(),
                next_sibling(self@, n as int) == next_sibling_from(self@, n as int, j as int),
            decreases self@.len() - j,
        {
            if self.nodes[j].parent == self.nodes[n].parent {
                return Some(j);
            }
            j += 1;
        }
        None
    }

    /// Whether `n` has an element child.
    pub fn has_child_element(&self, n: usize) -> (r: bool)
        requires
            n < self@.len(),
        ensures
            r == has_child(self@, n as int),
    {
        let mut j: usize = 0;
        while j < self.nodes.len()
            invariant
                n < self@.len(),
                j <= self@.len(),
                forall|k: int| 0 <= k < j ==> (#[trigger] self@[k]).parent != Some(n),
            decreases self@.len() - j,
        {
            if self.nodes[j].parent == Some(n) {
                assert(self@[j as int].parent == Some(n));
                return true;
            }
            j += 1;
        }
        false
    }

    /// Whether the parent of `n` is the document.
    pub fn is_root(&self, n: usize) -> (r: bool)
        requires
            n < self@.len(),
        ensures
            r == is_root(self@, n as int),
    {
        self.nodes[n].parent.is_none()
    }

    /// Whether `n` lacks element children or text.
    pub fn is_empty(&self, n: usize) -> (r: bool)
        requires
            n < self@.len(),
        ensures
            r == is_empty(self@, n as int),
    {
        !(self.has_child_element(n) && self.nodes[n].has_text)
    }

    /// Whether `n` is a link element (`a`, `area` or `link`).
    pub fn is_link(&self, n: usize) -> (r: bool)
        requires
            n < self@.len(),
        ensures
            r == is_link(self@, n as int),
    {
        let lower = to_lowercase(self.nodes[n].local_name.as_str());
        let l = to_chars(lower.as_str());
        let a = vec!['a'];
        let area = vec!['a', 'r', 'e', 'a'];
        let link = vec!['l', 'i', 'n', 'k'];
        let r = chars_eq(&l, &a) || chars_eq(&l, &area) || chars_eq(&l, &link);
        assert(a@ =~= seq!['a']);
        assert(area@ =~= seq!['a', 'r', 'e', 'a']);
        assert(link@ =~= seq!['l', 'i', 'n', 'k']);
        r
    }

    /// The value of the first attribute of `n` named `name`.
    pub fn attribute(&self, n: usize, name: &str) -> (r: Option<&String>)
        requires
            n < self@.len(),
        ensures
            match r {
                Some(v) => attr_value(self@[n as int].attributes@, name@) == Some(v@),
                None => attr_value(self@[n as int].attributes@, name@) is None,
            },
    {
        let attrs = &self.nodes[n].attributes;
        let mut i: usize = 0;
        while i < attrs.len()
            invariant
                n < self@.len(),
                *attrs == self@[n as int].attributes,
                i <= attrs@.len(),
                forall|j: int| 0 <= j < i ==> !#[trigger] attr_named(attrs@, j, name@),
            decreases attrs@.len() - i,
        {
            if str_eq_lowered(attrs[i].name.as_str(), name) {
                proof {
                    let s = attrs@;
                    assert(attr_named(s, i as int, name@));
                    let k = choose|k: int|
                        0 <= k < s.len() && #[trigger] attr_named(s, k, name@) && forall|j: int|
                            0 <= j < k ==> !attr_named(s, j, name@);
                    if k < i {
                    } else if k > i {
                        assert(!attr_named(s, i as int, name@));
                    }
                    assert(k == i);
                }
                return Some(&attrs[i].value);
            }
            i += 1;
        }
        None
    }

    /// Whether the id of `n` equals `id` under the policy.
    pub fn has_id(&self, n: usize, id: &str, cs: CaseSensitivity) -> (r: bool)
        requires
            n < self@.len(),
        ensures
            r == has_id(self@, n as int, id@, cs),
    {
        str_case_eq(cs, id, self.nodes[n].id.as_str())
    }

    /// Whether one of the classes of `n` equals `name` under the policy.
    pub fn has_class(&self, n: usize, name: &str, cs: CaseSensitivity) -> (r: bool)
        requires
            n < self@.len(),
        ensures
            r == has_class(self@, n as int, name@, cs),
    {
        let classes = &self.nodes[n].classes;
        let mut j: usize = 0;
        while j < classes.len()
            invariant
                n < self@.len(),
                *classes == self@[n as int].classes,
                j <= classes@.len(),
                forall|k: int| 0 <= k < j ==> !case_eq(cs, name@, #[trigger] classes@[k]@),
            decreases classes@.len() - j,
        {
            if str_case_eq(cs, name, classes[j].as_str()) {
                return true;
            }
            j += 1;
        }
        false
    }

    /// Whether the host reports state `p` for `n`.
    pub fn has_state(&self, n: usize, p: PseudoClass) -> (r: bool)
        requires
            n < self@.len(),
        ensures
            r == has_state(self@, n as int, p),
    {
        let states = &self.nodes[n].states;
        let mut j: usize = 0;
        while j < states.len()
            invariant
                n < self@.len(),
                *states == self@[n as int].states,
                j <= states@.len(),
                forall|k: int| 0 <= k < j ==> states@[k] != p,
            decreases states@.len() - j,
        {
            if states[j] == p {
                assert(states@[j as int] == p);
                return true;
            }
            j += 1;
        }
        false
    }
}

} // verus!
