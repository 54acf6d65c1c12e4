//! RFC 2047 encoded-word decoding for internationalized mail headers.
//!
//! A header is scanned left to right for `=?charset?enc?text?=` tokens; the
//! payload of each well-formed token is decoded (`B` as base64, `Q` as
//! quoted-printable with the header convention `_` -> space) and spliced in
//! place of the token. Decoding is best effort: on the first malformed token
//! or failed payload the text accumulated so far plus the untouched remainder
//! is returned, never an error.

use vstd::prelude::*;

verus! {

use crate::strutil::{
    lossy_of, bytes_to_string_lossy, utf8_valid, push_range, copy_range,
};
use vstd::string::StringSliceAdditionalSpecFns;
use vstd::utf8::{valid_utf8, decode_utf8};
use vstd::utf8::{encode_utf8_valid_utf8, encode_utf8_decode_utf8};

/// Value of an ASCII hex digit, or `None` for any other byte.
pub open spec fn hex_digit_val(b: u8) -> Option<u8> {
    if 48 <= b && b <= 57 {
        Some((b - 48) as u8)
    } else if 65 <= b && b <= 70 {
        Some((b - 65 + 10) as u8)
    } else if 97 <= b && b <= 102 {
        Some((b - 97 + 10) as u8)
    } else {
        None
    }
}

/// Parse one ASCII hex digit (`0-9`, `A-F`, `a-f`).
pub fn parse_hex_digit(b: u8) -> (r: Option<u8>)
    ensures
        r == hex_digit_val(b),
        r matches Some(v) ==> v < 16,
{
    if 48 <= b && b <= 57 {
        Some(b - 48)
    } else if 65 <= b && b <= 70 {
        Some(b - 65 + 10)
    } else if 97 <= b && b <= 102 {
        Some(b - 97 + 10)
    } else {
        None
    }
}

/// `s` holds byte `a` immediately followed by byte `b` at position `i`.
pub open spec fn pair_at(s: Seq<u8>, i: int, a: u8, b: u8) -> bool {
    0 <= i && i + 1 < s.len() && s[i] == a && s[i + 1] == b
}

/// Some position of `s` holds the two-byte sequence `a b`.
pub open spec fn has_pair(s: Seq<u8>, a: u8, b: u8) -> bool {
    exists|i: int| pair_at(s, i, a, b)
}

/// Index of the first occurrence of the two-byte sequence `a b`, or -1.
pub open spec fn find_pair(s: Seq<u8>, a: u8, b: u8) -> int
    decreases s.len(),
{
    if s.len() < 2 {
        -1
    } else if s[0] == a && s[1] == b {
        0
    } else {
        let r = find_pair(s.skip(1), a, b);
        if r < 0 {
            -1
        } else {
            r + 1
        }
    }
}

/// Index of the first occurrence of byte `a`, or -1.
pub open spec fn find_byte(s: Seq<u8>, a: u8) -> int
    decreases s.len(),
{
    if s.len() == 0 {
        -1
    } else if s[0] == a {
        0
    } else {
        let r = find_byte(s.skip(1), a);
        if r < 0 {
            -1
        } else {
            r + 1
        }
    }
}

pub proof fn lemma_find_pair_at(s: Seq<u8>, a: u8, b: u8, i: int)
    requires
        pair_at(s, i, a, b),
        forall|k: int| 0 <= k < i ==> !pair_at(s, k, a, b),
    ensures
        find_pair(s, a, b) == i,
    decreases i,
{
    if i == 0 {
    } else {
        assert(!pair_at(s, 0, a, b));
        let t = s.skip(1);
        assert(pair_at(t, i - 1, a, b));
        assert forall|k: int| 0 <= k < i - 1 implies !pair_at(t, k, a, b) by {
            assert(!pair_at(s, k + 1, a, b));
        }
        lemma_find_pair_at(t, a, b, i - 1);
    }
}

pub proof fn lemma_find_pair_none(s: Seq<u8>, a: u8, b: u8)
    requires
        forall|k: int| !pair_at(s, k, a, b),
    ensures
        find_pair(s, a, b) == -1,
    decreases s.len(),
{
    if s.len() < 2 {
    } else {
        assert(!pair_at(s, 0, a, b));
        let t = s.skip(1);
        assert forall|k: int| !pair_at(t, k, a, b) by {
            if 0 <= k && k + 1 < t.len() {
                assert(!pair_at(s, k + 1, a, b));
            }
        }
        lemma_find_pair_none(t, a, b);
    }
}

pub proof fn lemma_find_byte_at(s: Seq<u8>, a: u8, i: int)
    requires
        0 <= i < s.len(),
        s[i] == a,
        forall|k: int| 0 <= k < i ==> s[k] != a,
    ensures
        find_byte(s, a) == i,
    decreases i,
{
    if i == 0 {
    } else {
        let t = s.skip(1);
        assert forall|k: int| 0 <= k < i - 1 implies t[k] != a by {
            assert(s[k + 1] != a);
        }
        lemma_find_byte_at(t, a, i - 1);
    }
}

pub proof fn lemma_find_byte_none(s: Seq<u8>, a: u8)
    requires
        forall|k: int| 0 <= k < s.len() ==> s[k] != a,
    ensures
        find_byte(s, a) == -1,
    decreases s.len(),
{
    if s.len() == 0 {
    } else {
        let t = s.skip(1);
        assert forall|k: int| 0 <= k < t.len() implies t[k] != a by {
            assert(s[k + 1] != a);
        }
        lemma_find_byte_none(t, a);
    }
}

/// First position at or after `from` where `a b` occurs in `s`.
fn find_pair_from(s: &[u8], from: usize, a: u8, b: u8) -> (r: Option<usize>)
    requires
        from <= s@.len(),
    ensures
        r matches Some(i) ==> from <= i && i + 1 < s@.len() && s@[i as int] == a && s@[i + 1 as int]
            == b && find_pair(s@.skip(from as int), a, b) == i - from,
        r is None ==> find_pair(s@.skip(from as int), a, b) == -1 && !has_pair(
            s@.skip(from as int),
            a,
            b,
        ),
{
    let n = s.len();
    let mut i: usize = from;
    loop
        invariant
            from <= i <= n,
            n == s@.len(),
            forall|k: int| from <= k < i ==> !pair_at(s@, k, a, b),
        decreases n - i,
    {
        if n - i <= 1 {
            proof {
                let suf = s@.skip(from as int);
                assert forall|k: int| !pair_at(suf, k, a, b) by {
                    if 0 <= k && k + 1 < suf.len() {
                        assert(suf[k] == s@[k + from]);
                        assert(suf[k + 1] == s@[k + from + 1]);
                        assert(!pair_at(s@, k + from, a, b));
                    }
                }
                lemma_find_pair_none(suf, a, b);
            }
            return None;
        }
        if s[i] == a && s[i + 1] == b {
            proof {
                let suf = s@.skip(from as int);
                assert(pair_at(suf, i - from, a, b));
                assert forall|k: int| 0 <= k < i - from implies !pair_at(suf, k, a, b) by {
                    assert(suf[k] == s@[k + from]);
                    assert(suf[k + 1] == s@[k + from + 1]);
                    assert(!pair_at(s@, k + from, a, b));
                }
                lemma_find_pair_at(suf, a, b, i - from);
            }
            return Some(i);
        }
        i = i + 1;
    }
}

/// First position at or after `from` where byte `a` occurs in `s`.
fn find_byte_from(s: &[u8], from: usize, a: u8) -> (r: Option<usize>)
    requires
        from <= s@.len(),
    ensures
        r matches Some(i) ==> from <= i && i < s@.len() && s@[i as int] == a && find_byte(
            s@.skip(from as int),
            a,
        ) == i - from,
        r is None ==> find_byte(s@.skip(from as int), a) == -1,
{
    let n = s.len();
    let mut i: usize = from;
    while i < n
        invariant
            from <= i <= n,
            n == s@.len(),
            forall|k: int| from <= k < i ==> s@[k] != a,
        decreases n - i,
    {
        if s[i] == a {
            proof {
                let suf = s@.skip(from as int);
                assert forall|k: int| 0 <= k < i - from implies suf[k] != a by {
                    assert(suf[k] == s@[k + from]);
                }
                lemma_find_byte_at(suf, a, i - from);
            }
            return Some(i);
        }
        i = i + 1;
    }
    proof {
        let suf = s@.skip(from as int);
        assert forall|k: int| 0 <= k < suf.len() implies suf[k] != a by {
            assert(suf[k] == s@[k + from]);
        }
        lemma_find_byte_none(suf, a);
    }
    None
}

/// Quoted-printable decoding with the header convention: `=XX` is the byte
/// with hex value XX, `_` is a space, anything else passes through.
pub open spec fn qp_decode(s: Seq<u8>) -> Seq<u8>
    decreases s.len(),
{
    if s.len() == 0 {
        seq![]
    } else if s[0] == 61 && s.len() >= 3 && hex_digit_val(s[1]) is Some && hex_digit_val(s[2])
        is Some {
        seq![(hex_digit_val(s[1]).unwrap() * 16 + hex_digit_val(s[2]).unwrap()) as u8]
            + qp_decode(s.skip(3))
    } else if s[0] == 95 {
        seq![32u8] + qp_decode(s.skip(1))
    } else {
        seq![s[0]] + qp_decode(s.skip(1))
    }
}

/// Decode the quoted-printable payload of an encoded-word header token.
pub fn decode_quoted_printable_header(input: &str) -> (r: Vec<u8>)
    ensures
        r@ == qp_decode(input.spec_bytes()),
{
    qp_decode_bytes(input.as_bytes())
}

/// Quoted-printable decoding over raw bytes.
pub fn qp_decode_bytes(bytes: &[u8]) -> (r: Vec<u8>)
    ensures
        r@ == qp_decode(bytes@),
{
    let n = bytes.len();
    let mut out: Vec<u8> = Vec::new();
    let mut i: usize = 0;
    proof {
        assert(bytes@.skip(0) =~= bytes@);
        assert(out@ + qp_decode(bytes@) =~= qp_decode(bytes@));
    }
    while i < n
        invariant
            i <= n,
            n == bytes@.len(),
            qp_decode(bytes@) == out@ + qp_decode(bytes@.skip(i as int)),
        decreases n - i,
    {
        let ghost suf = bytes@.skip(i as int);
        let b = bytes[i];
        if b == 61 && n - i >= 3 {
            let h1 = parse_hex_digit(bytes[i + 1]);
            let h2 = parse_hex_digit(bytes[i + 2]);
            match (h1, h2) {
                (Some(hi), Some(lo)) => {
                    out.push(hi * 16 + lo);
                    proof {
                        assert(suf.len() >= 3);
                        assert(suf[1] == bytes@[i + 1]);
                        assert(suf[2] == bytes@[i + 2]);
                        assert(suf.skip(3) =~= bytes@.skip(i + 3));
                        assert(out@ + qp_decode(bytes@.skip(i + 3)) =~= qp_decode(bytes@));
                    }
                    i = i + 3;
                }
                _ => {
                    out.push(b);
                    proof {
                        assert(suf[0] == b && b != 95);
                        assert(suf.skip(1) =~= bytes@.skip(i + 1));
                        assert(out@ + qp_decode(bytes@.skip(i + 1)) =~= qp_decode(bytes@));
                    }
                    i = i + 1;
                }
            }
        } else {
            if b == 95 {
                out.push(32);
            } else {
                out.push(b);
            }
            proof {
                assert(suf[0] == b);
                assert(suf.skip(1) =~= bytes@.skip(i + 1));
                assert(out@ + qp_decode(bytes@.skip(i + 1)) =~= qp_decode(bytes@));
            }
            i = i + 1;
        }
    }
    proof {
        assert(bytes@.skip(n as int) =~= Seq::<u8>::empty());
        assert(qp_decode(bytes@) =~= out@);
    }
    out
}

/// What `data_encoding::BASE64.decode` yields on the given input: the decoded
/// bytes for a canonical RFC 4648 base64 encoding, `None` otherwise.
pub uninterp spec fn b64_decode_of(s: Seq<u8>) -> Option<Seq<u8>>;

/// What `data_encoding::BASE64.encode` yields on the given input.
pub uninterp spec fn b64_encode_of(b: Seq<u8>) -> Seq<u8>;

/// A byte of the RFC 4648 base64 symbol alphabet (`=` padding excluded).
pub open spec fn is_b64_char(b: u8) -> bool {
    (65 <= b && b <= 90) || (97 <= b && b <= 122) || (48 <= b && b <= 57) || b == 43 || b == 47
}

/// Relies on `data_encoding::BASE64.decode`: the result depends on the input
/// bytes alone, and decoding fails exactly on non-canonical input.
#[verifier::external_body]
fn b64_decode(input: &[u8]) -> (r: Option<Vec<u8>>)
    ensures
        r is Some <==> b64_decode_of(input@) is Some,
        r matches Some(v) ==> b64_decode_of(input@) == Some(v@),
{
    match data_encoding::BASE64.decode(input) {
        Ok(v) => Some(v),
        Err(_) => None,
    }
}

/// Relies on `data_encoding::BASE64.encode`: it emits only base64 symbols and
/// trailing `=` padding, nothing for empty input, and `BASE64.decode` inverts
/// it exactly.
#[verifier::external_body]
fn b64_encode(input: &[u8]) -> (r: Vec<u8>)
    ensures
        r@ == b64_encode_of(input@),
        b64_decode_of(r@) == Some(input@),
        forall|k: int| 0 <= k < r@.len() ==> is_b64_char(r@[k]) || r@[k] == 61,
        input@.len() == 0 ==> r@.len() == 0,
        input@.len() > 0 ==> r@.len() > 0 && is_b64_char(r@[0]),
{
    data_encoding::BASE64.encode(input).into_bytes()
}

/// Decoding of the inside of one token (between `=?` and `?=`): split into
/// `charset?enc?text`, decode `text` per `enc`, require the result to be
/// UTF-8. `None` when the shape or the payload is bad.
pub open spec fn decode_word(w: Seq<u8>) -> Option<Seq<u8>> {
    let q1 = find_byte(w, 63);
    if q1 < 0 {
        None
    } else {
        let rest = w.skip(q1 + 1);
        let q2 = find_byte(rest, 63);
        if q2 < 0 {
            None
        } else {
            let enc = rest.take(q2);
            let text = rest.skip(q2 + 1);
            if enc.len() == 1 && (enc[0] == 66 || enc[0] == 98) {
                match b64_decode_of(text) {
                    Some(d) => if valid_utf8(d) {
                        Some(d)
                    } else {
                        None
                    },
                    None => None,
                }
            } else if enc.len() == 1 && (enc[0] == 81 || enc[0] == 113) {
                let d = qp_decode(text);
                if valid_utf8(d) {
                    Some(d)
                } else {
                    None
                }
            } else {
                None
            }
        }
    }
}

fn decode_word_exec(w: &[u8]) -> (r: Option<Vec<u8>>)
    ensures
        r matches Some(v) ==> decode_word(w@) == Some(v@),
        r is None ==> decode_word(w@) is None,
{
    let n = w.len();
    match find_byte_from(w, 0, 63) {
        None => {
            proof {
                assert(w@.skip(0) =~= w@);
            }
            None
        }
        Some(q1) => {
            proof {
                assert(w@.skip(0) =~= w@);
            }
            match find_byte_from(w, q1 + 1, 63) {
                None => {
                    proof {
                        assert(w@.skip(q1 + 1 as int) =~= w@.skip(q1 as int + 1));
                    }
                    None
                }
                Some(q2) => {
                    let ghost rest = w@.skip(q1 as int + 1);
                    let ghost q2r = q2 - (q1 + 1);
                    proof {
                        assert(w@.skip(q1 + 1 as int) =~= rest);
                        assert(find_byte(rest, 63) == q2r);
                        assert(rest.take(q2r as int).len() == q2r);
                        assert(rest[q2r as int] == w@[q2 as int]);
                    }
                    let enc_len = q2 - (q1 + 1);
                    if enc_len == 1 && (w[q1 + 1] == 66 || w[q1 + 1] == 98) {
                        proof {
                            assert(rest.take(1)[0] == rest[0] && rest[0] == w@[q1 as int + 1]);
                        }
                        let text = copy_range(w, q2 + 1, n);
                        proof {
                            assert(text@ =~= rest.skip(q2r + 1));
                        }
                        match b64_decode(text.as_slice()) {
                            Some(v) => {
                                if utf8_valid(v.as_slice()) {
                                    Some(v)
                                } else {
                                    None
                                }
                            }
                            None => None,
                        }
                    } else if enc_len == 1 && (w[q1 + 1] == 81 || w[q1 + 1] == 113) {
                        proof {
                            assert(rest.take(1)[0] == rest[0] && rest[0] == w@[q1 as int + 1]);
                        }
                        let text = copy_range(w, q2 + 1, n);
                        proof {
                            assert(text@ =~= rest.skip(q2r + 1));
                        }
                        let v = qp_decode_bytes(text.as_slice());
                        if utf8_valid(v.as_slice()) {
                            Some(v)
                        } else {
                            None
                        }
                    } else {
                        proof {
                            let enc = rest.take(q2r as int);
                            if enc.len() == 1 {
                                assert(enc[0] == rest[0] && rest[0] == w@[q1 as int + 1]);
                            }
                        }
                        None
                    }
                }
            }
        }
    }
}

/// The whole best-effort header decoding, over raw header bytes.
pub open spec fn mime_decode(s: Seq<u8>) -> Seq<u8>
    decreases s.len(),
{
    let i = find_pair(s, 61, 63);
    if i < 0 || i + 2 > s.len() {
        s
    } else {
        let after = s.skip(i + 2);
        let j = find_pair(after, 63, 61);
        if j < 0 || j + 2 > after.len() {
            s
        } else {
            match decode_word(after.take(j)) {
                Some(d) => s.take(i) + d + mime_decode(after.skip(j + 2)),
                None => s,
            }
        }
    }
}

/// Without the `=?` marker the decoding changes nothing.
pub proof fn lemma_mime_decode_identity(s: Seq<u8>)
    requires
        !has_pair(s, 61, 63),
    ensures
        mime_decode(s) == s,
{
    assert forall|k: int| !pair_at(s, k, 61, 63) by {
        if pair_at(s, k, 61, 63) {
            assert(has_pair(s, 61, 63));
        }
    }
    lemma_find_pair_none(s, 61, 63);
}

/// Decode a raw header field into display text: RFC 2047 tokens are decoded
/// and spliced in, and the result is read as UTF-8, lossily.
#[verifier::rlimit(100)]
pub fn decode_imap_utf8(raw: &[u8]) -> (r: String)
    ensures
        r@ == lossy_of(mime_decode(raw@)),
        valid_utf8(mime_decode(raw@)) ==> r@ == decode_utf8(mime_decode(raw@)),
{
    let n = raw.len();
    let mut out: Vec<u8> = Vec::new();
    let mut pos: usize = 0;
    proof {
        assert(raw@.skip(0) =~= raw@);
        assert(out@ + mime_decode(raw@) =~= mime_decode(raw@));
    }
    while pos < n
        invariant
            pos <= n,
            n == raw@.len(),
            mime_decode(raw@) == out@ + mime_decode(raw@.skip(pos as int)),
        decreases n - pos,
    {
        let ghost suf = raw@.skip(pos as int);
        match find_pair_from(raw, pos, 61, 63) {
            None => {
                proof {
                    assert(mime_decode(suf) == suf);
                }
                push_range(&mut out, raw, pos, n);
                proof {
                    assert(suf =~= raw@.subrange(pos as int, n as int));
                    assert(raw@.skip(n as int) =~= Seq::<u8>::empty());
                    assert(mime_decode(raw@) =~= out@ + mime_decode(raw@.skip(n as int)));
                }
                pos = n;
            }
            Some(ip) => {
                let ghost irel = ip - pos;
                let ghost after = suf.skip(irel + 2);
                proof {
                    assert(after =~= raw@.skip(ip + 2 as int));
                }
                match find_pair_from(raw, ip + 2, 63, 61) {
                    None => {
                        proof {
                            assert(find_pair(after, 63, 61) == -1);
                            assert(mime_decode(suf) == suf);
                        }
                        push_range(&mut out, raw, pos, n);
                        proof {
                            assert(suf =~= raw@.subrange(pos as int, n as int));
                            assert(raw@.skip(n as int) =~= Seq::<u8>::empty());
                            assert(mime_decode(raw@) =~= out@ + mime_decode(raw@.skip(n as int)));
                        }
                        pos = n;
                    }
                    Some(jp) => {
                        let ghost jrel = jp - (ip + 2);
                        proof {
                            assert(find_pair(after, 63, 61) == jrel);
                            assert(after.take(jrel) =~= raw@.subrange(ip + 2 as int, jp as int));
                        }
                        let word = copy_range(raw, ip + 2, jp);
                        match decode_word_exec(word.as_slice()) {
                            Some(d) => {
                                push_range(&mut out, raw, pos, ip);
                                let dn = d.len();
                                push_range(&mut out, d.as_slice(), 0, dn);
                                proof {
                                    assert(d@.subrange(0, dn as int) =~= d@);
                                    assert(suf.take(irel) =~= raw@.subrange(pos as int, ip as int));
                                    assert(after.skip(jrel + 2) =~= raw@.skip(jp + 2 as int));
                                    assert(mime_decode(suf) == suf.take(irel) + d@ + mime_decode(
                                        after.skip(jrel + 2),
                                    ));
                                    assert(mime_decode(raw@) =~= out@ + mime_decode(
                                        raw@.skip(jp + 2 as int),
                                    ));
                                }
                                pos = jp + 2;
                            }
                            None => {
                                proof {
                                    assert(mime_decode(suf) == suf);
                                }
                                push_range(&mut out, raw, pos, n);
                                proof {
                                    assert(suf =~= raw@.subrange(pos as int, n as int));
                                    assert(raw@.skip(n as int) =~= Seq::<u8>::empty());
                                    assert(mime_decode(raw@) =~= out@ + mime_decode(
                                        raw@.skip(n as int),
                                    ));
                                }
                                pos = n;
                            }
                        }
                    }
                }
            }
        }
    }
    proof {
        assert(raw@.skip(n as int) =~= Seq::<u8>::empty());
        assert(mime_decode(raw@) =~= out@);
    }
    bytes_to_string_lossy(out.as_slice())
}

/// The wire form `=?UTF-8?B?` + payload + `?=` of a base64 encoded word.
pub open spec fn encoded_word_wire(e: Seq<u8>) -> Seq<u8> {
    seq![61u8, 63, 85, 84, 70, 45, 56, 63, 66, 63] + e + seq![63u8, 61]
}

/// A lone base64 encoded word decodes back to its payload: the splice loop
/// finds exactly the one token and substitutes the decoded bytes.
pub proof fn lemma_encoded_word_decodes(e: Seq<u8>, d: Seq<u8>)
    requires
        b64_decode_of(e) == Some(d),
        valid_utf8(d),
        forall|k: int| 0 <= k < e.len() ==> e[k] != 63,
        e.len() > 0 ==> e[0] != 61,
    ensures
        mime_decode(encoded_word_wire(e)) == d,
{
    let w = encoded_word_wire(e);
    let el = e.len() as int;
    assert(w.len() == el + 12);
    assert(w[0] == 61 && w[1] == 63);
    assert(pair_at(w, 0, 61, 63));
    lemma_find_pair_at(w, 61, 63, 0);
    let after = w.skip(2);
    assert(after =~= seq![85u8, 84, 70, 45, 56, 63, 66, 63] + e + seq![63u8, 61]);
    assert forall|k: int| 0 <= k < el implies after[8 + k] == e[k] by {
        assert(after[8 + k] == w[10 + k]);
    }
    assert(after[8 + el] == 63 && after[9 + el] == 61);
    assert(pair_at(after, 8 + el, 63, 61));
    assert forall|k: int| 0 <= k < 8 + el implies !pair_at(after, k, 63, 61) by {
        if 8 <= k < 8 + el {
            assert(after[k] == e[k - 8]);
            assert(after[k] != 63);
        } else if k == 5 {
            assert(after[6] == 66);
        } else if k == 7 {
            if el > 0 {
                assert(after[8] == e[0]);
                assert(after[8] != 61);
            } else {
                assert(after[8] == 63);
            }
        }
    }
    lemma_find_pair_at(after, 63, 61, 8 + el);
    let word = after.take(8 + el);
    assert forall|k: int| 0 <= k < el implies word[8 + k] == e[k] by {
        assert(word[8 + k] == after[8 + k]);
    }
    assert(word[5] == 63);
    assert forall|k: int| 0 <= k < 5 implies word[k] != 63 by {
        assert(word[k] == after[k]);
    }
    lemma_find_byte_at(word, 63, 5);
    let rest = word.skip(6);
    assert(rest.len() == el + 2);
    assert(rest[0] == word[6] && word[6] == 66);
    assert(rest[1] == word[7] && word[7] == 63);
    lemma_find_byte_at(rest, 63, 1);
    let enc = rest.take(1);
    assert(enc.len() == 1 && enc[0] == rest[0]);
    let text = rest.skip(2);
    assert(text =~= e);
    assert(decode_word(word) == Some(d));
    assert(after.skip(8 + el + 2) =~= Seq::<u8>::empty());
    assert(mime_decode(Seq::<u8>::empty()) =~= Seq::<u8>::empty());
    assert(w.take(0) =~= Seq::<u8>::empty());
    assert(mime_decode(w) == w.take(0) + d + mime_decode(after.skip(8 + el + 2)));
    assert(w.take(0) + d + mime_decode(after.skip(8 + el + 2)) =~= d);
}

/// Encode text as one RFC 2047 base64 encoded word. Decoding the result with
/// this module's decoder returns exactly the original text.
pub fn encode_word_b64(text: &str) -> (r: Vec<u8>)
    ensures
        r@ == encoded_word_wire(b64_encode_of(text.spec_bytes())),
        mime_decode(r@) == text.spec_bytes(),
        valid_utf8(mime_decode(r@)),
        decode_utf8(mime_decode(r@)) == text@,
{
    let tb = text.as_bytes();
    let e = b64_encode(tb);
    let mut out: Vec<u8> = Vec::new();
    out.push(61);
    out.push(63);
    out.push(85);
    out.push(84);
    out.push(70);
    out.push(45);
    out.push(56);
    out.push(63);
    out.push(66);
    out.push(63);
    let en = e.len();
    push_range(&mut out, e.as_slice(), 0, en);
    out.push(63);
    out.push(61);
    proof {
        assert(e@.subrange(0, en as int) =~= e@);
        assert(out@ =~= encoded_word_wire(e@));
        encode_utf8_valid_utf8(text@);
        assert(valid_utf8(tb@));
        assert forall|k: int| 0 <= k < e@.len() implies e@[k] != 63 by {
            assert(is_b64_char(e@[k]) || e@[k] == 61);
        }
        if e@.len() > 0 {
            assert(tb@.len() > 0);
            assert(is_b64_char(e@[0]));
        }
        lemma_encoded_word_decodes(e@, tb@);
        encode_utf8_decode_utf8(text@);
    }
    out
}

} // verus!
