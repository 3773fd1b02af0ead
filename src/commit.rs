//! A snapshot: a root tree, an optional parent, an author and a message.
use vstd::prelude::*;
use crate::author::Author;
use crate::object::{copy_bytes, Kind, Object, extend_bytes, push_str, record, record_bytes, utf8};
use crate::utils::{hex_of, u8_to_hex_str};

verus! {

/// A commit. `parent` is the display form of the parent commit's
/// identifier, or empty for a root commit.
#[derive(Debug)]
pub struct Commit {
    pub parent: String,
    pub author: Author,
    pub message: String,
    pub object_id: Vec<u8>,
    pub tree_object_id: Vec<u8>,
}

/// The payload of a commit record.
pub open spec fn commit_payload(
    tree_id: Seq<u8>,
    parent: Seq<char>,
    author: Seq<u8>,
    message: Seq<char>,
) -> Seq<u8> {
    utf8("tree "@) + utf8(hex_of(tree_id)) + utf8("\n"@) + (if parent.len() == 0 {
        Seq::empty()
    } else {
        utf8("parent "@) + utf8(parent) + utf8("\n"@)
    }) + utf8("author "@) + author + utf8("\n"@) + utf8("committer "@) + author + utf8("\n"@)
        + utf8(message)
}

impl Commit {
    pub fn new(parent: String, tree_object_id: Vec<u8>, author: Author, message: String) -> (r:
        Commit)
        ensures
            r.parent@ == parent@,
            r.tree_object_id@ == tree_object_id@,
            r.author == author,
            r.message@ == message@,
            r.object_id@ == Seq::<u8>::empty(),
    {
        Commit { parent, author, message, tree_object_id, object_id: Vec::new() }
    }

    pub open spec fn payload(&self) -> Seq<u8> {
        commit_payload(self.tree_object_id@, self.parent@, self.author.spec_bytes(), self.message@)
    }
}

impl Object for Commit {
    open spec fn canonical(&self) -> Seq<u8> {
        record_bytes(Kind::Commit, self.payload())
    }

    open spec fn id(&self) -> Seq<u8> {
        self.object_id@
    }

    fn to_bytes(&self) -> (r: Vec<u8>) {
        let author = self.author.to_bytes();
        let mut p: Vec<u8> = Vec::new();
        push_str(&mut p, "tree ");
        let hex = u8_to_hex_str(&self.tree_object_id);
        push_str(&mut p, hex.as_str());
        push_str(&mut p, "\n");
        if self.parent.unicode_len() > 0 {
            push_str(&mut p, "parent ");
            push_str(&mut p, self.parent.as_str());
            push_str(&mut p, "\n");
        }
        push_str(&mut p, "author ");
        extend_bytes(&mut p, author.as_slice());
        push_str(&mut p, "\n");
        push_str(&mut p, "committer ");
        extend_bytes(&mut p, author.as_slice());
        push_str(&mut p, "\n");
        push_str(&mut p, self.message.as_str());
        assert(p@ =~= self.payload());
        record(Kind::Commit, p.as_slice())
    }

    fn get_object_id(&self) -> (r: Vec<u8>) {
        copy_bytes(self.object_id.as_slice())
    }

    fn set_object_id(&mut self, object_id: Vec<u8>) {
        self.object_id = object_id;
    }
}

} // verus!
