//! Content hashes: the lower-case hex MD5 digest that identifies a record's
//! content and names its cache file.
use vstd::prelude::*;
use crate::text::string_push;

verus! {

/// The MD5 digest (16 bytes) of `data`.
pub uninterp spec fn md5_digest(data: Seq<u8>) -> Seq<u8>;

/// Computes the MD5 digest of `data`.
///
/// Calls `md5::compute`. Claimed: the 16 bytes it returns are the named
/// result `md5_digest` of the data; nothing else is stated of the digest.
#[verifier::external_body]
pub(crate) fn md5_compute(data: &[u8]) -> (d: [u8; 16])
    ensures
        d@ == md5_digest(data@),
{
    md5::compute(data).0
}

/// Lower-case hex digit of `n` (below 16).
pub open spec fn hex_digit(n: int) -> char {
    if n == 0 { '0' } else if n == 1 { '1' } else if n == 2 { '2' } else if n == 3 { '3' }
    else if n == 4 { '4' } else if n == 5 { '5' } else if n == 6 { '6' } else if n == 7 { '7' }
    else if n == 8 { '8' } else if n == 9 { '9' } else if n == 10 { 'a' } else if n == 11 { 'b' }
    else if n == 12 { 'c' } else if n == 13 { 'd' } else if n == 14 { 'e' } else { 'f' }
}

/// Each byte as two lower-case hex digits, high nibble first.
pub open spec fn hex_lower(bytes: Seq<u8>) -> Seq<char>
    decreases bytes.len(),
{
    if bytes.len() == 0 {
        Seq::empty()
    } else {
        hex_lower(bytes.drop_last()) + seq![hex_digit((bytes.last() / 16) as int), hex_digit((bytes.last() % 16) as int)]
    }
}

/// The hex form of `n` bytes has `2 n` digits, each `0`-`9` or `a`-`f`.
pub proof fn law_hex_shape(bytes: Seq<u8>)
    ensures
        hex_lower(bytes).len() == 2 * bytes.len(),
        forall|i: int| 0 <= i < hex_lower(bytes).len() ==>
            ('0' <= #[trigger] hex_lower(bytes)[i] <= '9') || ('a' <= hex_lower(bytes)[i] <= 'f'),
    decreases bytes.len(),
{
    if bytes.len() > 0 {
        law_hex_shape(bytes.drop_last());
        let h = hex_lower(bytes);
        let p = hex_lower(bytes.drop_last());
        assert forall|i: int| 0 <= i < h.len() implies ('0' <= #[trigger] h[i] <= '9') || ('a' <= h[i] <= 'f') by {
            if i < p.len() {
                assert(h[i] == p[i]);
            }
        }
    }
}

/// The hash that identifies content: its MD5 digest in lower-case hex.
pub open spec fn content_hash_of(data: Seq<u8>) -> Seq<char> {
    hex_lower(md5_digest(data))
}

fn hex_char(n: u8) -> (c: char)
    requires
        n < 16,
    ensures
        c == hex_digit(n as int),
{
    match n {
        0 => '0', 1 => '1', 2 => '2', 3 => '3', 4 => '4', 5 => '5', 6 => '6', 7 => '7',
        8 => '8', 9 => '9', 10 => 'a', 11 => 'b', 12 => 'c', 13 => 'd', 14 => 'e', _ => 'f',
    }
}

/// Encodes bytes as lower-case hex.
pub fn to_hex_lower(bytes: &[u8]) -> (s: String)
    ensures
        s@ == hex_lower(bytes@),
{
    let mut s = String::new();
    let mut i: usize = 0;
    assert(bytes@.take(0) =~= Seq::<u8>::empty());
    while i < bytes.len()
        invariant
            i <= bytes@.len(),
            s@ == hex_lower(bytes@.take(i as int)),
        decreases bytes@.len() - i,
    {
        let b = bytes[i];
        string_push(&mut s, hex_char(b / 16));
        string_push(&mut s, hex_char(b % 16));
        assert(bytes@.take(i + 1).drop_last() =~= bytes@.take(i as int));
        assert(s@ =~= hex_lower(bytes@.take(i + 1)));
        i = i + 1;
    }
    assert(bytes@.take(bytes@.len() as int) =~= bytes@);
    s
}

/// The hash that identifies `data` (`format!("{:x}", md5::compute(data))`).
pub fn content_hash(data: &[u8]) -> (h: String)
    ensures
        h@ == content_hash_of(data@),
{
    let d = md5_compute(data);
    to_hex_lower(&d)
}

/// Name of the cache file that holds content with this hash.
pub fn cache_file_name(hash: &str) -> (name: String)
    ensures
        name@ == hash@ + ".cache"@,
{
    let mut name = String::new();
    crate::text::push_str(&mut name, hash);
    crate::text::push_str(&mut name, ".cache");
    name
}

} // verus!
