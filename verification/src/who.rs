//! A person who pays or takes part in a bill.
use vstd::prelude::*;

verus! {

/// A person, known by name. Two people are the same when their names are equal.
#[derive(Debug, Clone, PartialEq, Eq, PartialOrd, Ord, Hash)]
pub struct Who {
    name: String,
}

impl View for Who {
    type V = Seq<char>;

    /// A person is modelled by the characters of their name.
    closed spec fn view(&self) -> Seq<char> {
        self.name@
    }
}

impl Who {
    /// The person with the given name.
    pub fn new(name: &str) -> (w: Who)
        ensures
            w@ == name@,
    {
        Who { name: name.to_owned() }
    }

    /// The person's name.
    pub fn name(&self) -> (s: &String)
        ensures
            s@ == self@,
    {
        &self.name
    }

    /// The person's name as an owned string (what `Display` writes).
    pub fn to_string(&self) -> (s: String)
        ensures
            s@ == self@,
    {
        self.name.clone()
    }

    /// A copy of this person.
    pub fn duplicate(&self) -> (w: Who)
        ensures
            w@ == self@,
    {
        Who { name: self.name.clone() }
    }

    /// Whether two people are the same person.
    pub fn same(&self, other: &Who) -> (r: bool)
        ensures
            r == (self@ == other@),
    {
        self.name == other.name
    }

    /// Whether this person's name comes strictly before the other's.
    pub fn before(&self, other: &Who) -> (r: bool)
        ensures
            r == crate::text::seq_lt(self@, other@),
    {
        crate::text::str_lt(self.name.as_str(), other.name.as_str())
    }
}

impl From<String> for Who {
    fn from(s: String) -> (w: Who) {
        Who { name: s }
    }
}

impl vstd::std_specs::convert::FromSpecImpl<String> for Who {
    open spec fn obeys_from_spec() -> bool {
        true
    }

    closed spec fn from_spec(v: String) -> Who {
        Who { name: v }
    }
}

impl From<Who> for String {
    fn from(w: Who) -> (s: String) {
        w.name
    }
}

impl vstd::std_specs::convert::FromSpecImpl<Who> for String {
    open spec fn obeys_from_spec() -> bool {
        true
    }

    closed spec fn from_spec(v: Who) -> String {
        v.name
    }
}

/// What `From<String>` gives is the person with that name.
pub proof fn lemma_from_string(s: String)
    ensures
        <Who as vstd::std_specs::convert::FromSpec<String>>::from_spec(s)@ == s@,
{
}

} // verus!
