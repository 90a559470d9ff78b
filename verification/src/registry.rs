//! The fixed mapping from oracle labels to canonical output language
//! codes.  An oracle label absent from the registry causes its sentence
//! to be dropped.

use vstd::prelude::*;

verus! {

/// The code for `label` among `entries`: the value of the first entry
/// keyed by `label`, if any.
pub open spec fn spec_lookup(entries: Seq<(Seq<char>, Seq<char>)>, label: Seq<char>) -> Option<
    Seq<char>,
>
    decreases entries.len(),
{
    if entries.len() == 0 {
        None
    } else if entries[0].0 == label {
        Some(entries[0].1)
    } else {
        spec_lookup(entries.skip(1), label)
    }
}

/// A label-to-code registry, built once before a run and read-only
/// afterwards.
pub struct Registry {
    entries: Vec<(String, String)>,
}

impl View for Registry {
    type V = Seq<(Seq<char>, Seq<char>)>;

    closed spec fn view(&self) -> Seq<(Seq<char>, Seq<char>)> {
        self.entries.deep_view()
    }
}

impl Registry {
    /// An empty registry.
    pub fn new() -> (r: Registry)
        ensures
            r@ == Seq::<(Seq<char>, Seq<char>)>::empty(),
    {
        let r = Registry { entries: Vec::new() };
        proof {
            assert(r@ =~= Seq::<(Seq<char>, Seq<char>)>::empty());
        }
        r
    }

    /// Adds one label-to-code entry at the end.
    pub fn add(&mut self, label: String, code: String)
        ensures
            final(self)@ == old(self)@.push((label@, code@)),
    {
        let ghost entry = (label@, code@);
        self.entries.push((label, code));
        proof {
            assert(self@ =~= old(self)@.push(entry));
        }
    }

    /// The output code registered for an oracle label, if the label is
    /// known.
    pub fn get(&self, label: &String) -> (r: Option<&String>)
        ensures
            match spec_lookup(self@, label@) {
                Some(code) => r is Some && r.unwrap()@ == code,
                None => r is None,
            },
    {
        let mut i: usize = 0;
        proof {
            assert(self@.skip(0) =~= self@);
        }
        while i < self.entries.len()
            invariant
                i <= self.entries.len(),
                self@.len() == self.entries.len(),
                spec_lookup(self@, label@) == spec_lookup(self@.skip(i as int), label@),
            decreases self.entries.len() - i,
        {
            proof {
                assert(self@.skip(i as int)[0] == self@[i as int]);
                assert(self@.skip(i as int).skip(1) =~= self@.skip(i as int + 1));
            }
            if self.entries[i].0 == *label {
                return Some(&self.entries[i].1);
            }
            i = i + 1;
        }
        None
    }
}

} // verus!
