//! The canonical record shared by every object kind: `<kind> <len>\0<payload>`.
use vstd::prelude::*;
use vstd::string::*;
use vstd::utf8::encode_utf8;
use crate::utils::{decimal, lemma_decimal_digits, push_decimal};

verus! {

/// The kind of a stored object.
#[derive(Debug, Clone, Copy, PartialEq, Eq, Structural)]
pub enum Kind {
    Blob,
    Tree,
    Commit,
}

/// Failures of the object store.
#[derive(Debug, Clone, Copy, PartialEq, Eq, Structural)]
pub enum DatabaseError {
    /// No object file exists for the requested identifier.
    ObjectNotFound,
    /// The stored bytes do not decompress, or are not an object record.
    CorruptObject,
}

/// The lowercase ASCII tag of a kind.
pub open spec fn kind_tag(k: Kind) -> Seq<u8> {
    match k {
        Kind::Blob => seq![98u8, 108u8, 111u8, 98u8],
        Kind::Tree => seq![116u8, 114u8, 101u8, 101u8],
        Kind::Commit => seq![99u8, 111u8, 109u8, 109u8, 105u8, 116u8],
    }
}

/// The canonical bytes of an object of kind `k` with the given payload.
pub open spec fn record_bytes(k: Kind, payload: Seq<u8>) -> Seq<u8> {
    kind_tag(k) + seq![32u8] + decimal(payload.len()) + seq![0u8] + payload
}

/// An object that can be hashed and stored: canonical bytes and an identifier.
pub trait Object {
    /// The canonical bytes that the identifier is the digest of.
    spec fn canonical(&self) -> Seq<u8>;

    /// The raw identifier currently assigned.
    spec fn id(&self) -> Seq<u8>;

    fn to_bytes(&self) -> (r: Vec<u8>)
        ensures
            r@ == self.canonical(),
    ;

    fn get_object_id(&self) -> (r: Vec<u8>)
        ensures
            r@ == self.id(),
    ;

    fn set_object_id(&mut self, object_id: Vec<u8>)
        ensures
            final(self).id() == object_id@,
            final(self).canonical() == old(self).canonical(),
    ;
}

/// The UTF-8 encoding of a text.
pub open spec fn utf8(s: Seq<char>) -> Seq<u8> {
    encode_utf8(s)
}

/// Appends the UTF-8 bytes of `s` to `out`.
pub fn push_str(out: &mut Vec<u8>, s: &str)
    ensures
        final(out)@ == old(out)@ + utf8(s@),
{
    extend_bytes(out, s.as_bytes());
}

/// Appends every byte of `src` to `out`.
pub fn extend_bytes(out: &mut Vec<u8>, src: &[u8])
    ensures
        final(out)@ == old(out)@ + src@,
{
    let mut i: usize = 0;
    while i < src.len()
        invariant
            i <= src@.len(),
            out@ == old(out)@ + src@.subrange(0, i as int),
        decreases src@.len() - i,
    {
        out.push(src[i]);
        i = i + 1;
        assert(out@ =~= old(out)@ + src@.subrange(0, i as int));
    }
    assert(src@.subrange(0, i as int) =~= src@);
}

/// A fresh copy of a byte string.
pub fn copy_bytes(src: &[u8]) -> (r: Vec<u8>)
    ensures
        r@ == src@,
{
    let mut r: Vec<u8> = Vec::new();
    extend_bytes(&mut r, src);
    assert(r@ =~= src@);
    r
}

/// Whether two byte strings are equal.
pub fn bytes_eq(a: &[u8], b: &[u8]) -> (r: bool)
    ensures
        r == (a@ == b@),
{
    if a.len() != b.len() {
        return false;
    }
    let mut i: usize = 0;
    while i < a.len()
        invariant
            a@.len() == b@.len(),
            i <= a@.len(),
            forall|j: int| 0 <= j < i ==> a@[j] == b@[j],
        decreases a@.len() - i,
    {
        if a[i] != b[i] {
            return false;
        }
        i = i + 1;
    }
    assert(a@ =~= b@);
    true
}

/// Whether two texts are equal.
pub fn str_eq(a: &str, b: &str) -> (r: bool)
    ensures
        r == (a@ == b@),
{
    let n = a.unicode_len();
    if n != b.unicode_len() {
        return false;
    }
    let mut i: usize = 0;
    while i < n
        invariant
            n == a@.len(),
            a@.len() == b@.len(),
            i <= n,
            forall|j: int| 0 <= j < i ==> a@[j] == b@[j],
        decreases n - i,
    {
        if a.get_char(i) != b.get_char(i) {
            return false;
        }
        i = i + 1;
    }
    assert(a@ =~= b@);
    true
}

/// The tag of a kind as bytes.
pub fn kind_bytes(k: Kind) -> (r: Vec<u8>)
    ensures
        r@ == kind_tag(k),
{
    let r = match k {
        Kind::Blob => vec![98u8, 108u8, 111u8, 98u8],
        Kind::Tree => vec![116u8, 114u8, 101u8, 101u8],
        Kind::Commit => vec![99u8, 111u8, 109u8, 109u8, 105u8, 116u8],
    };
    assert(r@ =~= kind_tag(k));
    r
}

/// Wraps a payload in the canonical record of its kind.
pub fn record(kind: Kind, payload: &[u8]) -> (r: Vec<u8>)
    ensures
        r@ == record_bytes(kind, payload@),
{
    let mut r = kind_bytes(kind);
    r.push(32u8);
    push_decimal(&mut r, payload.len());
    r.push(0u8);
    extend_bytes(&mut r, payload);
    assert(r@ =~= record_bytes(kind, payload@));
    r
}

/// Where the fields of a record lie.
proof fn lemma_record_layout(k: Kind, p: Seq<u8>)
    ensures
        ({
            let s = record_bytes(k, p);
            let t = kind_tag(k).len() as int;
            let d = decimal(p.len()).len() as int;
            &&& s.len() == t + 1 + d + 1 + p.len()
            &&& s.subrange(0, t) == kind_tag(k)
            &&& s[t] == 32u8
            &&& forall|i: int| 0 <= i < t ==> s[i] != 32u8
            &&& s.subrange(t + 1, t + 1 + d) == decimal(p.len())
            &&& forall|i: int| t + 1 <= i < t + 1 + d ==> s[i] != 0u8
            &&& s[t + 1 + d] == 0u8
            &&& s.subrange(t + 2 + d, s.len() as int) == p
        }),
{
    let s = record_bytes(k, p);
    let t = kind_tag(k).len() as int;
    let d = decimal(p.len()).len() as int;
    lemma_decimal_digits(p.len());
    assert(s.subrange(0, t) =~= kind_tag(k));
    assert(s.subrange(t + 1, t + 1 + d) =~= decimal(p.len()));
    assert forall|i: int| t + 1 <= i < t + 1 + d implies s[i] != 0u8 by {
        assert(s[i] == decimal(p.len())[i - t - 1]);
    }
    assert(s.subrange(t + 2 + d, s.len() as int) =~= p);
}

/// A record determines its kind and payload.
pub proof fn lemma_record_injective(k1: Kind, p1: Seq<u8>, k2: Kind, p2: Seq<u8>)
    requires
        record_bytes(k1, p1) == record_bytes(k2, p2),
    ensures
        k1 == k2,
        p1 == p2,
{
    let data = record_bytes(k1, p1);
    lemma_record_layout(k1, p1);
    lemma_record_layout(k2, p2);
    let t = kind_tag(k1).len() as int;
    lemma_record_split(data, k2, p2, t);
    assert(kind_tag(k1) == kind_tag(k2));
    assert(kind_tag(k1)[0] == kind_tag(k2)[0]);
    assert(k1 == k2);
    let d1 = decimal(p1.len()).len() as int;
    let d2 = decimal(p2.len()).len() as int;
    if d1 < d2 {
        assert(data[t + 1 + d1] != 0u8);
    } else if d2 < d1 {
        assert(data[t + 1 + d2] != 0u8);
    }
}

/// What a canonical record holds, or `CorruptObject` where the bytes are none.
pub open spec fn parse_result(c: Seq<u8>) -> Result<(Kind, Seq<u8>), DatabaseError> {
    if exists|k: Kind, p: Seq<u8>| c == record_bytes(k, p) {
        let (k, p) = choose|k: Kind, p: Seq<u8>| c == record_bytes(k, p);
        Ok((k, p))
    } else {
        Err(DatabaseError::CorruptObject)
    }
}

pub proof fn lemma_parse_record_bytes(k: Kind, p: Seq<u8>)
    ensures
        parse_result(record_bytes(k, p)) == Ok::<(Kind, Seq<u8>), DatabaseError>((k, p)),
{
    let c = record_bytes(k, p);
    assert(c == record_bytes(k, p));
    let (k2, p2) = choose|k2: Kind, p2: Seq<u8>| c == record_bytes(k2, p2);
    lemma_record_injective(k, p, k2, p2);
}

/// In a record, the first space ends the tag and the first NUL after it ends the length.
proof fn lemma_record_split(data: Seq<u8>, k: Kind, p: Seq<u8>, sp: int)
    requires
        data == record_bytes(k, p),
        0 <= sp < data.len(),
        data[sp] == 32u8,
        forall|j: int| 0 <= j < sp ==> data[j] != 32u8,
    ensures
        sp == kind_tag(k).len(),
        data.subrange(0, sp) == kind_tag(k),
        data[sp + 1 + decimal(p.len()).len()] == 0u8,
        forall|j: int| sp + 1 <= j < sp + 1 + decimal(p.len()).len() ==> data[j] != 0u8,
        data.subrange(sp + 1, sp + 1 + decimal(p.len()).len()) == decimal(p.len()),
        p.len() == data.len() - (sp + 2 + decimal(p.len()).len()),
{
    lemma_record_layout(k, p);
}

proof fn lemma_not_record_no_space(data: Seq<u8>)
    requires
        forall|j: int| 0 <= j < data.len() ==> data[j] != 32u8,
    ensures
        forall|k: Kind, p: Seq<u8>| data != #[trigger] record_bytes(k, p),
{
    assert forall|k: Kind, p: Seq<u8>| data != #[trigger] record_bytes(k, p) by {
        if data == record_bytes(k, p) {
            lemma_record_layout(k, p);
            assert(data[kind_tag(k).len() as int] == 32u8);
        }
    }
}

proof fn lemma_not_record_tag(data: Seq<u8>, sp: int)
    requires
        0 <= sp < data.len(),
        data[sp] == 32u8,
        forall|j: int| 0 <= j < sp ==> data[j] != 32u8,
        data.subrange(0, sp) != kind_tag(Kind::Blob),
        data.subrange(0, sp) != kind_tag(Kind::Tree),
        data.subrange(0, sp) != kind_tag(Kind::Commit),
    ensures
        forall|k: Kind, p: Seq<u8>| data != #[trigger] record_bytes(k, p),
{
    assert forall|k: Kind, p: Seq<u8>| data != #[trigger] record_bytes(k, p) by {
        if data == record_bytes(k, p) {
            lemma_record_split(data, k, p, sp);
        }
    }
}

proof fn lemma_not_record_no_nul(data: Seq<u8>, sp: int)
    requires
        0 <= sp < data.len(),
        data[sp] == 32u8,
        forall|j: int| 0 <= j < sp ==> data[j] != 32u8,
        forall|j: int| sp + 1 <= j < data.len() ==> data[j] != 0u8,
    ensures
        forall|k: Kind, p: Seq<u8>| data != #[trigger] record_bytes(k, p),
{
    assert forall|k: Kind, p: Seq<u8>| data != #[trigger] record_bytes(k, p) by {
        if data == record_bytes(k, p) {
            lemma_record_split(data, k, p, sp);
            assert(data[sp + 1 + decimal(p.len()).len()] == 0u8);
        }
    }
}

proof fn lemma_not_record_len(data: Seq<u8>, sp: int, nul: int)
    requires
        0 <= sp < nul < data.len(),
        data[sp] == 32u8,
        forall|j: int| 0 <= j < sp ==> data[j] != 32u8,
        data[nul] == 0u8,
        forall|j: int| sp + 1 <= j < nul ==> data[j] != 0u8,
        data.subrange(sp + 1, nul) != decimal((data.len() - nul - 1) as nat),
    ensures
        forall|k: Kind, p: Seq<u8>| data != #[trigger] record_bytes(k, p),
{
    assert forall|k: Kind, p: Seq<u8>| data != #[trigger] record_bytes(k, p) by {
        if data == record_bytes(k, p) {
            lemma_record_split(data, k, p, sp);
            let d = decimal(p.len()).len() as int;
            if nul < sp + 1 + d {
                assert(data[nul] != 0u8);
            } else if nul > sp + 1 + d {
                assert(data[sp + 1 + d] != 0u8);
            }
        }
    }
}

/// The index of the first `b` in `data` at or after `from`, if any.
fn find_byte(data: &[u8], from: usize, b: u8) -> (r: Option<usize>)
    requires
        from <= data@.len(),
    ensures
        match r {
            Some(i) => from <= i < data@.len() && data@[i as int] == b && forall|j: int|
                from <= j < i ==> data@[j] != b,
            None => forall|j: int| from <= j < data@.len() ==> data@[j] != b,
        },
{
    let mut i = from;
    while i < data.len()
        invariant
            from <= i <= data@.len(),
            forall|j: int| from <= j < i ==> data@[j] != b,
        decreases data@.len() - i,
    {
        if data[i] == b {
            return Some(i);
        }
        i = i + 1;
    }
    None
}

/// Whether `data[from..to]` equals `expected`.
fn range_eq(data: &[u8], from: usize, to: usize, expected: &[u8]) -> (r: bool)
    requires
        from <= to <= data@.len(),
    ensures
        r == (data@.subrange(from as int, to as int) == expected@),
{
    if to - from != expected.len() {
        proof {
            assert(data@.subrange(from as int, to as int).len() != expected@.len());
        }
        return false;
    }
    let mut i: usize = 0;
    while i < expected.len()
        invariant
            to - from == expected@.len(),
            from <= to <= data@.len(),
            i <= expected@.len(),
            forall|j: int| 0 <= j < i ==> data@[from + j] == expected@[j],
        decreases expected@.len() - i,
    {
        if data[from + i] != expected[i] {
            proof {
                assert(data@.subrange(from as int, to as int)[i as int] != expected@[i as int]);
            }
            return false;
        }
        i = i + 1;
    }
    assert(data@.subrange(from as int, to as int) =~= expected@);
    true
}

/// Splits stored bytes back into a kind and a payload. Succeeds exactly on
/// the canonical record of some kind and payload.
pub fn parse_record(data: &[u8]) -> (r: Result<(Kind, Vec<u8>), DatabaseError>)
    ensures
        match r {
            Ok((k, p)) => data@ == record_bytes(k, p@),
            Err(e) => e == DatabaseError::CorruptObject && forall|k: Kind, p: Seq<u8>|
                data@ != #[trigger] record_bytes(k, p),
        },
        match r {
            Ok((k, p)) => parse_result(data@) == Ok::<(Kind, Seq<u8>), DatabaseError>((k, p@)),
            Err(e) => parse_result(data@) == Err::<(Kind, Seq<u8>), DatabaseError>(e),
        },
{
    let r = parse_record_fields(data);
    proof {
        if r is Ok {
            lemma_parse_record_bytes(r->Ok_0.0, r->Ok_0.1@);
        }
    }
    r
}

fn parse_record_fields(data: &[u8]) -> (r: Result<(Kind, Vec<u8>), DatabaseError>)
    ensures
        match r {
            Ok((k, p)) => data@ == record_bytes(k, p@),
            Err(e) => e == DatabaseError::CorruptObject && forall|k: Kind, p: Seq<u8>|
                data@ != #[trigger] record_bytes(k, p),
        },
{
    let len = data.len();
    let sp = match find_byte(data, 0, 32u8) {
        Some(i) => i,
        None => {
            proof {
                lemma_not_record_no_space(data@);
            }
            return Err(DatabaseError::CorruptObject);
        },
    };
    let kind = if range_eq(data, 0, sp, &kind_bytes(Kind::Blob)) {
        Kind::Blob
    } else if range_eq(data, 0, sp, &kind_bytes(Kind::Tree)) {
        Kind::Tree
    } else if range_eq(data, 0, sp, &kind_bytes(Kind::Commit)) {
        Kind::Commit
    } else {
        proof {
            lemma_not_record_tag(data@, sp as int);
        }
        return Err(DatabaseError::CorruptObject);
    };
    let nul = match find_byte(data, sp + 1, 0u8) {
        Some(j) => j,
        None => {
            proof {
                lemma_not_record_no_nul(data@, sp as int);
            }
            return Err(DatabaseError::CorruptObject);
        },
    };
    let payload_len = len - nul - 1;
    let mut digits: Vec<u8> = Vec::new();
    push_decimal(&mut digits, payload_len);
    assert(digits@ =~= decimal(payload_len as nat));
    if !range_eq(data, sp + 1, nul, digits.as_slice()) {
        proof {
            lemma_not_record_len(data@, sp as int, nul as int);
        }
        return Err(DatabaseError::CorruptObject);
    }
    let mut payload: Vec<u8> = Vec::new();
    extend_bytes(&mut payload, &data[nul + 1..len]);
    proof {
        let t = sp as int;
        assert(payload@ =~= data@.subrange(nul + 1, data@.len() as int));
        assert(data@ =~= data@.subrange(0, t) + seq![32u8] + data@.subrange(t + 1, nul as int)
            + seq![0u8] + payload@);
    }
    Ok((kind, payload))
}

} // verus!
