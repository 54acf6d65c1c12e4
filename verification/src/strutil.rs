//! Byte-sequence utilities shared by the header decoder, the search-query
//! builder and the record mapper: UTF-8 conversion at the crate's edges,
//! decimal rendering of UIDs, and concatenation helpers.

use vstd::prelude::*;

verus! {

use vstd::string::StringSliceAdditionalSpecFns;
use vstd::utf8::{valid_utf8, decode_utf8, encode_utf8, is_ascii_chars};
use vstd::utf8::{
    encode_utf8_valid_utf8,
    encode_utf8_decode_utf8,
    is_ascii_chars_encode_utf8,
};

/// The characters `String::from_utf8_lossy` produces for an arbitrary byte
/// sequence; pinned down exactly only where the bytes are valid UTF-8.
pub uninterp spec fn lossy_of(b: Seq<u8>) -> Seq<char>;

/// Relies on `String::from_utf8_lossy`: valid UTF-8 input decodes unchanged,
/// and the result is a function of the bytes alone.
#[verifier::external_body]
pub fn bytes_to_string_lossy(v: &[u8]) -> (r: String)
    ensures
        r@ == lossy_of(v@),
        valid_utf8(v@) ==> r@ == decode_utf8(v@),
{
    String::from_utf8_lossy(v).into_owned()
}

/// Relies on `core::str::from_utf8`: it returns `Ok` exactly on UTF-8 input.
#[verifier::external_body]
pub fn utf8_valid(v: &[u8]) -> (b: bool)
    ensures
        b == valid_utf8(v@),
{
    core::str::from_utf8(v).is_ok()
}

/// Append the bytes of `s[from..to]` to `out`.
pub fn push_range(out: &mut Vec<u8>, s: &[u8], from: usize, to: usize)
    requires
        from <= to <= s@.len(),
    ensures
        final(out)@ == old(out)@ + s@.subrange(from as int, to as int),
{
    let mut i: usize = from;
    while i < to
        invariant
            from <= i <= to <= s@.len(),
            out@ == old(out)@ + s@.subrange(from as int, i as int),
        decreases to - i,
    {
        out.push(s[i]);
        proof {
            assert(old(out)@ + s@.subrange(from as int, i as int) + seq![s@[i as int]]
                =~= old(out)@ + s@.subrange(from as int, i + 1 as int));
        }
        i = i + 1;
    }
}

/// Copy of `s[from..to]` as a fresh vector.
pub fn copy_range(s: &[u8], from: usize, to: usize) -> (r: Vec<u8>)
    requires
        from <= to <= s@.len(),
    ensures
        r@ == s@.subrange(from as int, to as int),
{
    let mut out: Vec<u8> = Vec::new();
    push_range(&mut out, s, from, to);
    proof {
        assert(out@ =~= s@.subrange(from as int, to as int));
    }
    out
}

/// Decimal digits of a non-negative integer, most significant first.
pub open spec fn dec_rep(n: int) -> Seq<u8>
    decreases n,
{
    if n < 10 {
        seq![(48 + if n >= 0 { n } else { 0 }) as u8]
    } else {
        dec_rep(n / 10) + seq![(48 + n % 10) as u8]
    }
}

/// Render an integer in decimal, appended to `out`.
pub fn push_u32_dec(out: &mut Vec<u8>, n: u32)
    ensures
        final(out)@ == old(out)@ + dec_rep(n as int),
    decreases n,
{
    if n < 10 {
        out.push(48 + (n as u8));
        proof {
            assert(out@ =~= old(out)@ + dec_rep(n as int));
        }
    } else {
        push_u32_dec(out, n / 10);
        out.push(48 + ((n % 10) as u8));
        proof {
            assert(old(out)@ + dec_rep((n / 10) as int) + seq![(48 + (n as int) % 10) as u8]
                =~= old(out)@ + dec_rep(n as int));
        }
    }
}

/// All-ASCII byte sequences are valid UTF-8 and decode byte-for-byte.
pub proof fn lemma_ascii_decode(b: Seq<u8>)
    requires
        forall|i: int| 0 <= i < b.len() ==> b[i] < 128,
    ensures
        valid_utf8(b),
        decode_utf8(b) == b.map(|_i: int, x: u8| x as char),
        decode_utf8(b).len() == b.len(),
{
    let chars = b.map(|_i: int, x: u8| x as char);
    assert forall|i: int| 0 <= i < chars.len() implies '\0' <= #[trigger] chars[i] <= '\u{7f}' by {
        assert(b[i] < 128);
        assert(chars[i] == b[i] as char);
        assert(chars[i] as u32 == b[i] as u32);
    }
    assert(is_ascii_chars(chars));
    is_ascii_chars_encode_utf8(chars);
    assert forall|i: int| 0 <= i < b.len() implies encode_utf8(chars)[i] == b[i] by {
        assert(chars[i] as u8 == encode_utf8(chars)[i]);
        assert((b[i] as char) as u8 == b[i]);
    }
    assert(encode_utf8(chars) =~= b);
    encode_utf8_valid_utf8(chars);
    encode_utf8_decode_utf8(chars);
}

/// UTF-8 encoding distributes over concatenation of character sequences.
pub proof fn lemma_encode_utf8_concat(a: Seq<char>, b: Seq<char>)
    ensures
        encode_utf8(a + b) == encode_utf8(a) + encode_utf8(b),
    decreases a.len(),
{
    if a.len() == 0 {
        assert(a + b =~= b);
        assert(encode_utf8(a) + encode_utf8(b) =~= encode_utf8(b));
    } else {
        assert((a + b).drop_first() =~= a.drop_first() + b);
        lemma_encode_utf8_concat(a.drop_first(), b);
        assert((a + b)[0] == a[0]);
        assert(encode_utf8(a + b)
            =~= encode_utf8(a) + encode_utf8(b));
    }
}

/// Concatenate two string slices into an owned string.
pub fn concat_strs(a: &str, b: &str) -> (r: String)
    ensures
        r@ == a@ + b@,
{
    let mut v: Vec<u8> = Vec::new();
    let ab = a.as_bytes();
    let bb = b.as_bytes();
    push_range(&mut v, ab, 0, ab.len());
    push_range(&mut v, bb, 0, bb.len());
    proof {
        assert(ab@.subrange(0, ab@.len() as int) =~= ab@);
        assert(bb@.subrange(0, bb@.len() as int) =~= bb@);
        assert(v@ =~= encode_utf8(a@) + encode_utf8(b@));
        lemma_encode_utf8_concat(a@, b@);
        assert(v@ == encode_utf8(a@ + b@));
        encode_utf8_valid_utf8(a@ + b@);
        encode_utf8_decode_utf8(a@ + b@);
    }
    let r = bytes_to_string_lossy(v.as_slice());
    r
}

} // verus!
