//! The content-addressable object store: where each object goes, what is
//! written there, and how stored bytes are read back.
use vstd::prelude::*;
use crate::object::{
    copy_bytes, lemma_parse_record_bytes, parse_record, parse_result, record_bytes, DatabaseError, Kind,
    Object,
};
use crate::utils::{
    compress, hash_content, hash_to_path, hex_of, inflate, join_path, joined, lemma_hex_len,
    sha1_of, u8_to_hex_str, zlib_deflated, zlib_inflated,
};

verus! {

/// The object store, rooted at a directory.
#[derive(Debug)]
pub struct Database {
    pub path: String,
}

/// What storing one object amounts to: its identifier, the directory and
/// file it goes to, and the compressed bytes to write there.
#[derive(Debug)]
pub struct StoredObject {
    pub object_id: Vec<u8>,
    pub dir: String,
    pub file: String,
    pub data: Vec<u8>,
}

/// The directory of an object: the store root joined with the first two
/// characters of its display form.
pub open spec fn object_dir(root: Seq<char>, hex: Seq<char>) -> Seq<char> {
    joined(root, hex.subrange(0, 2))
}

/// The file of an object: its directory joined with the remaining characters.
pub open spec fn object_file(root: Seq<char>, hex: Seq<char>) -> Seq<char> {
    joined(object_dir(root, hex), hex.subrange(2, hex.len() as int))
}

/// Whether `s` is what storing an object with canonical bytes `c` under
/// `root` amounts to.
pub open spec fn is_store_of(s: StoredObject, root: Seq<char>, c: Seq<u8>) -> bool {
    &&& s.object_id@ == sha1_of(c)
    &&& s.dir@ == object_dir(root, hex_of(sha1_of(c)))
    &&& s.file@ == object_file(root, hex_of(sha1_of(c)))
    &&& s.data@ == zlib_deflated(c)
    &&& zlib_inflated(s.data@) == Some(c)
}

/// What loading gives for the bytes of an object file, or `None` where no
/// file exists.
pub open spec fn load_result(stored: Option<Seq<u8>>) -> Result<(Kind, Seq<u8>), DatabaseError> {
    match stored {
        None => Err(DatabaseError::ObjectNotFound),
        Some(b) => match zlib_inflated(b) {
            None => Err(DatabaseError::CorruptObject),
            Some(c) => parse_result(c),
        },
    }
}

/// The bytes of an object file, where one exists.
pub open spec fn stored_view(stored: Option<Vec<u8>>) -> Option<Seq<u8>> {
    match stored {
        Some(b) => Some(b@),
        None => None,
    }
}

/// Storing a blob is deterministic: two stores of the same content, under
/// the same root, give the same identifier, the same directory and file, and
/// the same bytes, whatever identifiers the blobs held before.
pub proof fn lemma_store_deterministic(
    root: Seq<char>,
    content: Seq<u8>,
    first: StoredObject,
    second: StoredObject,
)
    requires
        is_store_of(first, root, record_bytes(Kind::Blob, content)),
        is_store_of(second, root, record_bytes(Kind::Blob, content)),
    ensures
        first.object_id@ == second.object_id@,
        first.dir@ == second.dir@,
        first.file@ == second.file@,
        first.data@ == second.data@,
{
}

/// Loading the bytes that storing a blob wrote gives back the blob's content.
pub proof fn lemma_blob_round_trip(root: Seq<char>, content: Seq<u8>, stored: StoredObject)
    requires
        is_store_of(stored, root, record_bytes(Kind::Blob, content)),
    ensures
        load_result(Some(stored.data@)) == Ok::<(Kind, Seq<u8>), DatabaseError>((Kind::Blob, content)),
{
    lemma_parse_record_bytes(Kind::Blob, content);
}

impl Database {
    pub fn new(path: String) -> (r: Database)
        ensures
            r.path@ == path@,
    {
        Database { path }
    }

    /// The directory and file of the object with the given display form.
    pub fn object_location(&self, content_hash_hex: &str) -> (r: (String, String))
        requires
            content_hash_hex@.len() >= 2,
        ensures
            r.0@ == object_dir(self.path@, content_hash_hex@),
            r.1@ == object_file(self.path@, content_hash_hex@),
    {
        let (dir_name, file_name) = hash_to_path(content_hash_hex);
        let dir = join_path(self.path.as_str(), dir_name);
        let file = join_path(dir.as_str(), file_name);
        (dir, file)
    }

    /// Where an object with this display form goes, and the compressed bytes
    /// of its canonical content.
    pub fn write_object(&self, content_hash_hex: &str, content: &[u8]) -> (r: (
        String,
        String,
        Vec<u8>,
    ))
        requires
            content_hash_hex@.len() >= 2,
        ensures
            r.0@ == object_dir(self.path@, content_hash_hex@),
            r.1@ == object_file(self.path@, content_hash_hex@),
            r.2@ == zlib_deflated(content@),
            zlib_inflated(r.2@) == Some(content@),
    {
        let (dir, file) = self.object_location(content_hash_hex);
        (dir, file, compress(content))
    }

    /// Hashes canonical bytes and says where and what to write.
    pub fn store_bytes(&self, content: &[u8]) -> (r: StoredObject)
        ensures
            is_store_of(r, self.path@, content@),
    {
        let object_id = hash_content(content);
        let hex = u8_to_hex_str(&object_id);
        proof {
            lemma_hex_len(object_id@);
        }
        let (dir, file, data) = self.write_object(hex.as_str(), content);
        StoredObject { object_id, dir, file, data }
    }

    /// Hashes an object's canonical bytes, assigns the digest as its
    /// identifier, and says where and what to write.
    pub fn store<O: Object>(&self, object: &mut O) -> (r: StoredObject)
        ensures
            final(object).id() == sha1_of(old(object).canonical()),
            final(object).canonical() == old(object).canonical(),
            is_store_of(r, self.path@, old(object).canonical()),
    {
        let content = object.to_bytes();
        let r = self.store_bytes(content.as_slice());
        object.set_object_id(copy_bytes(r.object_id.as_slice()));
        r
    }

    /// What is left to write of a stored object: nothing where its file
    /// already exists, since an object file is never rewritten.
    pub fn pending_write(&self, stored: StoredObject, file_exists: bool) -> (r: Option<
        StoredObject,
    >)
        ensures
            file_exists ==> r is None,
            !file_exists ==> r == Some(stored),
    {
        if file_exists {
            None
        } else {
            Some(stored)
        }
    }

    /// The kind and payload held in the bytes of an object file; `stored` is
    /// `None` where no file exists for the identifier.
    pub fn load(&self, stored: Option<Vec<u8>>) -> (r: Result<(Kind, Vec<u8>), DatabaseError>)
        ensures
            match r {
                Ok((k, p)) => load_result(stored_view(stored)) == Ok::<
                    (Kind, Seq<u8>),
                    DatabaseError,
                >((k, p@)),
                Err(e) => load_result(stored_view(stored)) == Err::<
                    (Kind, Seq<u8>),
                    DatabaseError,
                >(e),
            },
    {
        match stored {
            None => Err(DatabaseError::ObjectNotFound),
            Some(b) => match inflate(b.as_slice()) {
                None => Err(DatabaseError::CorruptObject),
                Some(c) => parse_record(c.as_slice()),
            },
        }
    }
}

} // verus!
