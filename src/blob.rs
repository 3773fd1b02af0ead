//! File content as a stored object.
use vstd::prelude::*;
use crate::object::{copy_bytes, Kind, Object, record, record_bytes};

verus! {

/// Raw file content.
#[derive(Debug)]
pub struct Blob {
    pub data: Vec<u8>,
    pub object_id: Vec<u8>,
}

impl Blob {
    /// A blob of the given content, with no identifier assigned yet.
    pub fn new(data: &[u8]) -> (r: Blob)
        ensures
            r.data@ == data@,
            r.object_id@ == Seq::<u8>::empty(),
    {
        Blob { data: copy_bytes(data), object_id: Vec::new() }
    }
}

impl Object for Blob {
    open spec fn canonical(&self) -> Seq<u8> {
        record_bytes(Kind::Blob, self.data@)
    }

    open spec fn id(&self) -> Seq<u8> {
        self.object_id@
    }

    fn to_bytes(&self) -> (r: Vec<u8>) {
        record(Kind::Blob, self.data.as_slice())
    }

    fn get_object_id(&self) -> (r: Vec<u8>) {
        copy_bytes(self.object_id.as_slice())
    }

    fn set_object_id(&mut self, object_id: Vec<u8>) {
        self.object_id = object_id;
    }
}

} // verus!
