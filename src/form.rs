//! Name-value form data.

use vstd::prelude::*;

verus! {

/// One field of a form: its name and its value.
#[derive(Clone, Debug)]
pub struct FormValue {
    pub name: String,
    pub value: String,
}

/// The fields of a form, in order; a name may occur more than once.
#[derive(Clone, Debug)]
pub struct FormData(pub Vec<FormValue>);

impl FormValue {
    pub fn new(name: String, value: String) -> (r: FormValue)
        ensures
            r.name == name,
            r.value == value,
    {
        FormValue { name, value }
    }
}

impl FormData {
    /// Form data from name-value pairs, in their order.
    pub fn from_pairs(pairs: Vec<(String, String)>) -> (r: FormData)
        ensures
            r.0@.len() == pairs@.len(),
            forall|i: int|
                0 <= i < pairs@.len() ==> (#[trigger] r.0@[i]).name == pairs@[i].0 && r.0@[i].value
                    == pairs@[i].1,
    {
        let mut out: Vec<FormValue> = Vec::new();
        let mut i: usize = 0;
        while i < pairs.len()
            invariant
                i <= pairs@.len(),
                out@.len() == i,
                forall|j: int|
                    0 <= j < i ==> (#[trigger] out@[j]).name == pairs@[j].0 && out@[j].value
                        == pairs@[j].1,
            decreases pairs@.len() - i,
        {
            let name = pairs[i].0.clone();
            let value = pairs[i].1.clone();
            out.push(FormValue::new(name, value));
            i += 1;
        }
        FormData(out)
    }

    /// The number of fields.
    pub fn len(&self) -> (r: usize)
        ensures
            r == self.0@.len(),
    {
        self.0.len()
    }
}

} // verus!
