//! The closed registry of supported pseudo-classes, and the (empty) set of
//! pseudo-elements.

use vstd::prelude::*;
use crate::chars::{ci_eq, ci_eq_range, lower_code};

verus! {

/// The pseudo-classes that selectors may name.
#[derive(PartialEq, Eq, Structural, Clone, Copy, Debug, Hash)]
pub enum PseudoClass {
    Active,
    AnyLink,
    Checked,
    Disabled,
    Enabled,
    Focus,
    Hover,
    Indeterminate,
    Link,
    Visited,
}

/// A pseudo-element named in selector text (`::before`). None is supported:
/// such a name only ever appears in a parse error, and matches no node.
#[derive(Clone, Debug)]
pub struct PseudoElement {
    pub name: String,
}

impl PseudoElement {
    /// Pseudo-elements are never supported.
    pub fn is_supported(&self) -> (r: bool)
        ensures
            !r,
    {
        false
    }

    /// The canonical text: two colons and the name.
    pub fn to_css(&self) -> (r: String)
        ensures
            r@ == seq![':', ':'] + self.name@,
    {
        let mut r = String::from_str("::");
        r.append(self.name.as_str());
        proof {
            reveal_strlit("::");
        }
        assert(r@ =~= seq![':', ':'] + self.name@);
        r
    }
}

impl PseudoClass {
    /// The name of the pseudo-class, in lower case, without the colon.
    pub open spec fn name(self) -> Seq<char> {
        match self {
            PseudoClass::Active => seq!['a', 'c', 't', 'i', 'v', 'e'],
            PseudoClass::AnyLink => seq!['a', 'n', 'y', '-', 'l', 'i', 'n', 'k'],
            PseudoClass::Checked => seq!['c', 'h', 'e', 'c', 'k', 'e', 'd'],
            PseudoClass::Disabled => seq!['d', 'i', 's', 'a', 'b', 'l', 'e', 'd'],
            PseudoClass::Enabled => seq!['e', 'n', 'a', 'b', 'l', 'e', 'd'],
            PseudoClass::Focus => seq!['f', 'o', 'c', 'u', 's'],
            PseudoClass::Hover => seq!['h', 'o', 'v', 'e', 'r'],
            PseudoClass::Indeterminate => seq![
                'i', 'n', 'd', 'e', 't', 'e', 'r', 'm', 'i', 'n', 'a', 't', 'e'
            ],
            PseudoClass::Link => seq!['l', 'i', 'n', 'k'],
            PseudoClass::Visited => seq!['v', 'i', 's', 'i', 't', 'e', 'd'],
        }
    }

    /// The pseudo-class whose name equals `s` up to ASCII case, if any.
    pub open spec fn from_name_spec(s: Seq<char>) -> Option<PseudoClass> {
        if exists|p: PseudoClass| ci_eq(s, #[trigger] p.name()) {
            Some(choose|p: PseudoClass| ci_eq(s, #[trigger] p.name()))
        } else {
            None
        }
    }

    /// True only for `active` and `hover`.
    pub fn is_active_or_hover(&self) -> (r: bool)
        ensures
            r == (*self == PseudoClass::Active || *self == PseudoClass::Hover),
    {
        matches!(*self, PseudoClass::Active | PseudoClass::Hover)
    }

    /// True for `active`, `hover` and `focus`.
    pub fn is_user_action_state(&self) -> (r: bool)
        ensures
            r == (*self == PseudoClass::Active || *self == PseudoClass::Hover || *self
                == PseudoClass::Focus),
    {
        matches!(*self, PseudoClass::Active | PseudoClass::Hover | PseudoClass::Focus)
    }

    /// No pseudo-class is free of specificity.
    pub fn has_zero_specificity(&self) -> (r: bool)
        ensures
            !r,
    {
        false
    }

    /// The name of the pseudo-class as characters.
    pub fn name_chars(&self) -> (r: Vec<char>)
        ensures
            r@ == self.name(),
    {
        let r = match *self {
            PseudoClass::Active => vec!['a', 'c', 't', 'i', 'v', 'e'],
            PseudoClass::AnyLink => vec!['a', 'n', 'y', '-', 'l', 'i', 'n', 'k'],
            PseudoClass::Checked => vec!['c', 'h', 'e', 'c', 'k', 'e', 'd'],
            PseudoClass::Disabled => vec!['d', 'i', 's', 'a', 'b', 'l', 'e', 'd'],
            PseudoClass::Enabled => vec!['e', 'n', 'a', 'b', 'l', 'e', 'd'],
            PseudoClass::Focus => vec!['f', 'o', 'c', 'u', 's'],
            PseudoClass::Hover => vec!['h', 'o', 'v', 'e', 'r'],
            PseudoClass::Indeterminate => vec![
                'i', 'n', 'd', 'e', 't', 'e', 'r', 'm', 'i', 'n', 'a', 't', 'e'
            ],
            PseudoClass::Link => vec!['l', 'i', 'n', 'k'],
            PseudoClass::Visited => vec!['v', 'i', 's', 'i', 't', 'e', 'd'],
        };
        assert(r@ =~= self.name());
        r
    }

    /// Looks up `input[start..end]` in the registry, ignoring ASCII case.
    pub fn from_name(input: &Vec<char>, start: usize, end: usize) -> (r: Option<PseudoClass>)
        requires
            start <= end <= input@.len(),
        ensures
            r == PseudoClass::from_name_spec(input@.subrange(start as int, end as int)),
    {
        let all = [
            PseudoClass::Active,
            PseudoClass::AnyLink,
            PseudoClass::Checked,
            PseudoClass::Disabled,
            PseudoClass::Enabled,
            PseudoClass::Focus,
            PseudoClass::Hover,
            PseudoClass::Indeterminate,
            PseudoClass::Link,
            PseudoClass::Visited,
        ];
        let ghost s = input@.subrange(start as int, end as int);
        let mut i: usize = 0;
        while i < 10
            invariant
                i <= 10,
                s == input@.subrange(start as int, end as int),
                start <= end <= input@.len(),
                forall|j: int| 0 <= j < i ==> !ci_eq(s, (#[trigger] all@[j]).name()),
            decreases 10 - i,
        {
            let p = all[i];
            let lit = p.name_chars();
            if ci_eq_range(input, start, end, &lit) {
                proof {
                    PseudoClass::lemma_names_distinct(s, p);
                }
                return Some(p);
            }
            i += 1;
        }
        proof {
            assert forall|p: PseudoClass| !ci_eq(s, #[trigger] p.name()) by {
                match p {
                    PseudoClass::Active => assert(all@[0] == p),
                    PseudoClass::AnyLink => assert(all@[1] == p),
                    PseudoClass::Checked => assert(all@[2] == p),
                    PseudoClass::Disabled => assert(all@[3] == p),
                    PseudoClass::Enabled => assert(all@[4] == p),
                    PseudoClass::Focus => assert(all@[5] == p),
                    PseudoClass::Hover => assert(all@[6] == p),
                    PseudoClass::Indeterminate => assert(all@[7] == p),
                    PseudoClass::Link => assert(all@[8] == p),
                    PseudoClass::Visited => assert(all@[9] == p),
                }
            }
        }
        None
    }

    /// No text names two pseudo-classes.
    pub proof fn lemma_names_distinct(s: Seq<char>, p: PseudoClass)
        requires
            ci_eq(s, p.name()),
        ensures
            PseudoClass::from_name_spec(s) == Some(p),
    {
        let q = choose|q: PseudoClass| ci_eq(s, #[trigger] q.name());
        PseudoClass::lemma_name_pair(s, p, q);
    }

    /// Two pseudo-classes whose names match one text are the same.
    proof fn lemma_name_pair(s: Seq<char>, p: PseudoClass, q: PseudoClass)
        requires
            ci_eq(s, p.name()),
            ci_eq(s, q.name()),
        ensures
            p == q,
    {
        
        assert(p.name().len() == q.name().len());
        
        assert(s.len() > 0);
        assert(lower_code(s[0]) == lower_code(p.name()[0]));
        assert(lower_code(s[0]) == lower_code(q.name()[0]));
        assert(lower_code(s[1]) == lower_code(p.name()[1]));
        assert(lower_code(s[1]) == lower_code(q.name()[1]));
        assert(lower_code(s[2]) == lower_code(p.name()[2]));
        assert(lower_code(s[2]) == lower_code(q.name()[2]));
    }

    /// The canonical text of the pseudo-class: a colon and its name.
    pub fn to_css(&self) -> (r: String)
        ensures
            r@ == seq![':'] + self.name(),
    {
        let r = match *self {
            PseudoClass::Active => String::from_str(":active"),
            PseudoClass::AnyLink => String::from_str(":any-link"),
            PseudoClass::Checked => String::from_str(":checked"),
            PseudoClass::Disabled => String::from_str(":disabled"),
            PseudoClass::Enabled => String::from_str(":enabled"),
            PseudoClass::Focus => String::from_str(":focus"),
            PseudoClass::Hover => String::from_str(":hover"),
            PseudoClass::Indeterminate => String::from_str(":indeterminate"),
            PseudoClass::Link => String::from_str(":link"),
            PseudoClass::Visited => String::from_str(":visited"),
        };
        proof {
            reveal_strlit(":active");
            reveal_strlit(":any-link");
            reveal_strlit(":checked");
            reveal_strlit(":disabled");
            reveal_strlit(":enabled");
            reveal_strlit(":focus");
            reveal_strlit(":hover");
            reveal_strlit(":indeterminate");
            reveal_strlit(":link");
            reveal_strlit(":visited");
        }
        assert(r@ =~= seq![':'] + self.name());
        r
    }
}

} // verus!
