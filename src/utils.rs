//! Display forms of identifiers, decimal lengths, and path helpers.
use vstd::prelude::*;
use vstd::string::*;
use sha1::Digest;
use std::io::Read;

verus! {

/// The lowercase hexadecimal digit for a value below 16.
pub open spec fn hex_char(v: u8) -> char
    recommends
        v < 16,
{
    if v < 10 {
        (('0' as u8) + v) as char
    } else {
        (('a' as u8) + (v - 10)) as char
    }
}

/// The display form of a byte string: two lowercase hex digits per byte.
pub open spec fn hex_of(b: Seq<u8>) -> Seq<char>
    decreases b.len(),
{
    if b.len() == 0 {
        Seq::empty()
    } else {
        hex_of(b.drop_last()) + seq![hex_char(b.last() / 16), hex_char(b.last() % 16)]
    }
}

pub proof fn lemma_hex_len(b: Seq<u8>)
    ensures
        hex_of(b).len() == 2 * b.len(),
    decreases b.len(),
{
    if b.len() > 0 {
        lemma_hex_len(b.drop_last());
    }
}

fn hex_digit(v: u8) -> (r: &'static str)
    requires
        v < 16,
    ensures
        r@ == seq![hex_char(v)],
{
    let digits = "0123456789abcdef";
    proof {
        reveal_strlit("0123456789abcdef");
    }
    let r = digits.substring_char(v as usize, v as usize + 1);
    assert(r@ =~= seq![hex_char(v)]);
    r
}

/// Formats raw identifier bytes as their lowercase hexadecimal display form.
pub fn u8_to_hex_str(content_hash: &Vec<u8>) -> (r: String)
    ensures
        r@ == hex_of(content_hash@),
{
    let mut out = String::new();
    let mut i: usize = 0;
    while i < content_hash.len()
        invariant
            i <= content_hash@.len(),
            out@ == hex_of(content_hash@.subrange(0, i as int)),
        decreases content_hash@.len() - i,
    {
        let byte = content_hash[i];
        out.append(hex_digit(byte / 16));
        out.append(hex_digit(byte % 16));
        proof {
            let s = content_hash@.subrange(0, i as int + 1);
            assert(s.drop_last() =~= content_hash@.subrange(0, i as int));
        }
        i = i + 1;
    }
    assert(content_hash@.subrange(0, i as int) =~= content_hash@);
    out
}

/// The ASCII decimal digits of a natural number, without leading zeros.
pub open spec fn decimal(n: nat) -> Seq<u8>
    decreases n,
{
    if n < 10 {
        seq![(48 + n) as u8]
    } else {
        decimal(n / 10).push((48 + n % 10) as u8)
    }
}

pub open spec fn is_digit(b: u8) -> bool {
    48 <= b <= 57
}

pub proof fn lemma_decimal_digits(n: nat)
    ensures
        decimal(n).len() >= 1,
        forall|i: int| 0 <= i < decimal(n).len() ==> is_digit(#[trigger] decimal(n)[i]),
    decreases n,
{
    if n >= 10 {
        lemma_decimal_digits(n / 10);
    }
}

/// Appends the decimal digits of `n` to `out`.
pub fn push_decimal(out: &mut Vec<u8>, n: usize)
    ensures
        final(out)@ == old(out)@ + decimal(n as nat),
    decreases n,
{
    if n >= 10 {
        push_decimal(out, n / 10);
    }
    out.push((48 + n % 10) as u8);
    assert(final(out)@ =~= old(out)@ + decimal(n as nat));
}

/// Splits a display form into its two-character directory name and the rest.
pub fn hash_to_path(content_hash_hex: &str) -> (r: (&str, &str))
    requires
        content_hash_hex@.len() >= 2,
    ensures
        r.0@ == content_hash_hex@.subrange(0, 2),
        r.1@ == content_hash_hex@.subrange(2, content_hash_hex@.len() as int),
{
    let n = content_hash_hex.unicode_len();
    (content_hash_hex.substring_char(0, 2), content_hash_hex.substring_char(2, n))
}

/// `base/name`.
pub open spec fn joined(base: Seq<char>, name: Seq<char>) -> Seq<char> {
    base + seq!['/'] + name
}

/// Joins a directory and a name with a single separator.
pub fn join_path(base: &str, name: &str) -> (r: String)
    ensures
        r@ == joined(base@, name@),
{
    let slash = "/";
    proof {
        reveal_strlit("/");
    }
    let mut r = String::from_str(base);
    r.append(slash);
    r.append(name);
    r
}

/// The repository directory inside a working tree root.
pub fn get_git_path(root_path: &str) -> (r: String)
    ensures
        r@ == joined(root_path@, ".git"@),
{
    join_path(root_path, ".git")
}

/// The object store directory inside a working tree root.
pub fn get_db_path(root_path: &str) -> (r: String)
    ensures
        r@ == joined(joined(root_path@, ".git"@), "objects"@),
{
    let git = get_git_path(root_path);
    join_path(git.as_str(), "objects")
}

/// What SHA-1 gives for a byte string.
pub uninterp spec fn sha1_of(data: Seq<u8>) -> Seq<u8>;

/// What a zlib stream decodes to, or `None` where it is not a valid stream.
pub uninterp spec fn zlib_inflated(data: Seq<u8>) -> Option<Seq<u8>>;

/// What deflate's zlib encoder writes for a byte string at its fast level.
pub uninterp spec fn zlib_deflated(data: Seq<u8>) -> Seq<u8>;

/// Relies on sha1's `Sha1::digest`: the 20-byte SHA-1 digest of the input.
#[verifier::external_body]
pub fn hash_content(content: &[u8]) -> (r: Vec<u8>)
    ensures
        r@ == sha1_of(content@),
        r@.len() == 20,
{
    sha1::Sha1::digest(content).to_vec()
}

/// Relies on deflate's `deflate_bytes_zlib_conf` at `Compression::Fast`: it
/// writes a complete zlib stream (header, DEFLATE data, Adler-32 trailer) of
/// the input, which a zlib decoder reads back to the input.
#[verifier::external_body]
pub(crate) fn compress(content: &[u8]) -> (r: Vec<u8>)
    ensures
        r@ == zlib_deflated(content@),
        zlib_inflated(r@) == Some(content@),
{
    deflate::deflate_bytes_zlib_conf(content, deflate::Compression::Fast)
}

/// Relies on flate2's `read::ZlibDecoder`, read to its end: the decoded bytes,
/// or `None` where the input is not a valid zlib stream.
#[verifier::external_body]
pub fn inflate(data: &[u8]) -> (r: Option<Vec<u8>>)
    ensures
        match r {
            Some(v) => zlib_inflated(data@) == Some(v@),
            None => zlib_inflated(data@) is None,
        },
{
    let mut decoder = flate2::read::ZlibDecoder::new(data);
    let mut out = Vec::new();
    match decoder.read_to_end(&mut out) {
        Ok(_) => Some(out),
        Err(_) => None,
    }
}

} // verus!
