//! Who made a commit, and when.
use vstd::prelude::*;
use crate::object::{push_str, utf8};

verus! {

/// The author record of a commit: a name, an email and a timestamp string.
#[derive(Debug)]
pub struct Author {
    pub name: String,
    pub email: String,
    pub time: String,
}

/// `name email time`, as bytes.
pub open spec fn author_bytes(name: Seq<char>, email: Seq<char>, time: Seq<char>) -> Seq<u8> {
    utf8(name) + utf8(" "@) + utf8(email) + utf8(" "@) + utf8(time)
}

impl Author {
    pub fn new(name: String, email: String, time: String) -> (r: Author)
        ensures
            r.name@ == name@,
            r.email@ == email@,
            r.time@ == time@,
    {
        Author { name, email, time }
    }

    pub open spec fn spec_bytes(&self) -> Seq<u8> {
        author_bytes(self.name@, self.email@, self.time@)
    }

    /// The author line as it appears in a commit: `name email time`.
    pub fn to_bytes(&self) -> (r: Vec<u8>)
        ensures
            r@ == self.spec_bytes(),
    {
        let mut r: Vec<u8> = Vec::new();
        push_str(&mut r, self.name.as_str());
        push_str(&mut r, " ");
        push_str(&mut r, self.email.as_str());
        push_str(&mut r, " ");
        push_str(&mut r, self.time.as_str());
        assert(r@ =~= self.spec_bytes());
        r
    }
}

} // verus!
