//! Translation of an optional ISO-8601 cutoff into an IMAP search predicate.
//!
//! A parseable RFC 3339 timestamp becomes `SINCE DD-Mon-YYYY`; an
//! unparseable one degrades to `ALL` (a broader search, so no mail is
//! missed); an absent cutoff defaults to the last seven days.

use vstd::prelude::*;

use chrono::Datelike;

verus! {

use crate::strutil::{bytes_to_string_lossy, lemma_ascii_decode};
use vstd::utf8::decode_utf8;

/// The calendar date `chrono::DateTime::parse_from_rfc3339` reads from the
/// given text, or `None` where the text is not an RFC 3339 date-time.
pub uninterp spec fn rfc3339_ymd_of(s: Seq<char>) -> Option<(i32, u32, u32)>;

/// Relies on `chrono::DateTime::parse_from_rfc3339` and `chrono::Datelike`:
/// the parse accepts exactly RFC 3339 date-times (whose year has four
/// digits), month and day are within their documented calendar ranges, and
/// the result depends on the input text alone.
#[verifier::external_body]
fn parse_rfc3339_ymd(s: &str) -> (r: Option<(i32, u32, u32)>)
    ensures
        r == rfc3339_ymd_of(s@),
        r matches Some(ymd) ==> 0 <= ymd.0 <= 9999 && 1 <= ymd.1 <= 12 && 1 <= ymd.2 <= 31,
{
    match chrono::DateTime::parse_from_rfc3339(s) {
        Ok(dt) => Some((dt.year(), dt.month(), dt.day())),
        Err(_) => None,
    }
}

/// Relies on `chrono::Utc::now` minus `chrono::Duration::days(7)`: the result
/// varies with the clock, so only `Datelike`'s documented month and day
/// ranges are assumed of it.
#[verifier::external_body]
fn seven_days_ago_ymd() -> (r: (i32, u32, u32))
    ensures
        1 <= r.1 <= 12 && 1 <= r.2 <= 31,
{
    let d = chrono::Utc::now() - chrono::Duration::days(7);
    (d.year(), d.month(), d.day())
}

/// Three-letter English month abbreviation, as bytes.
pub open spec fn month_abbrev(m: int) -> Seq<u8> {
    if m == 1 {
        seq![74u8, 97, 110]
    } else if m == 2 {
        seq![70u8, 101, 98]
    } else if m == 3 {
        seq![77u8, 97, 114]
    } else if m == 4 {
        seq![65u8, 112, 114]
    } else if m == 5 {
        seq![77u8, 97, 121]
    } else if m == 6 {
        seq![74u8, 117, 110]
    } else if m == 7 {
        seq![74u8, 117, 108]
    } else if m == 8 {
        seq![65u8, 117, 103]
    } else if m == 9 {
        seq![83u8, 101, 112]
    } else if m == 10 {
        seq![79u8, 99, 116]
    } else if m == 11 {
        seq![78u8, 111, 118]
    } else {
        seq![68u8, 101, 99]
    }
}

/// Two decimal digits, zero padded.
pub open spec fn two_digits(n: int) -> Seq<u8> {
    seq![(48 + n / 10) as u8, (48 + n % 10) as u8]
}

/// Four decimal digits, zero padded.
pub open spec fn four_digits(n: int) -> Seq<u8> {
    seq![
        (48 + n / 1000) as u8,
        (48 + (n / 100) % 10) as u8,
        (48 + (n / 10) % 10) as u8,
        (48 + n % 10) as u8,
    ]
}

/// The IMAP date grammar `DD-Mon-YYYY`.
pub open spec fn imap_date_bytes(y: int, m: int, d: int) -> Seq<u8> {
    two_digits(d) + seq![45u8] + month_abbrev(m) + seq![45u8] + four_digits(y)
}

/// `SINCE DD-Mon-YYYY`.
pub open spec fn since_query_bytes(y: int, m: int, d: int) -> Seq<u8> {
    seq![83u8, 73, 78, 67, 69, 32] + imap_date_bytes(y, m, d)
}

/// The unrestricted predicate `ALL`.
pub open spec fn all_query_bytes() -> Seq<u8> {
    seq![65u8, 76, 76]
}

/// The fallback for an absent cutoff: `SINCE` over the given date where it is
/// a representable calendar date, else `ALL`.
pub open spec fn fallback_query_bytes(y: int, m: int, d: int) -> Seq<u8> {
    if 0 <= y <= 9999 && 1 <= m <= 12 && 1 <= d <= 31 {
        since_query_bytes(y, m, d)
    } else {
        all_query_bytes()
    }
}

/// The search predicate for an optional cutoff text, given the fallback date
/// used when the cutoff is absent.
pub open spec fn search_query_bytes(since: Option<Seq<char>>, fy: int, fm: int, fd: int) -> Seq<
    u8,
> {
    match since {
        Some(s) => match rfc3339_ymd_of(s) {
            Some(ymd) => since_query_bytes(ymd.0 as int, ymd.1 as int, ymd.2 as int),
            None => all_query_bytes(),
        },
        None => fallback_query_bytes(fy, fm, fd),
    }
}

pub proof fn lemma_imap_date_ascii(y: int, m: int, d: int)
    requires
        0 <= y <= 9999,
        1 <= m <= 12,
        0 <= d <= 99,
    ensures
        forall|k: int| 0 <= k < imap_date_bytes(y, m, d).len() ==> imap_date_bytes(y, m, d)[k]
            < 128,
{
    let b = imap_date_bytes(y, m, d);
    assert forall|k: int| 0 <= k < b.len() implies b[k] < 128 by {
        assert(0 <= d / 10 <= 9 && 0 <= d % 10 <= 9);
        assert(0 <= y / 1000 <= 9 && 0 <= (y / 100) % 10 <= 9 && 0 <= (y / 10) % 10 <= 9 && 0 <= y
            % 10 <= 9);
    }
}

/// Render `DD-Mon-YYYY`.
fn format_imap_date(y: i32, m: u32, d: u32) -> (r: Vec<u8>)
    requires
        0 <= y <= 9999,
        1 <= m <= 12,
        d <= 99,
    ensures
        r@ == imap_date_bytes(y as int, m as int, d as int),
{
    let mut v: Vec<u8> = Vec::new();
    v.push(48 + (d / 10) as u8);
    v.push(48 + (d % 10) as u8);
    v.push(45);
    if m == 1 {
        v.push(74);
        v.push(97);
        v.push(110);
    } else if m == 2 {
        v.push(70);
        v.push(101);
        v.push(98);
    } else if m == 3 {
        v.push(77);
        v.push(97);
        v.push(114);
    } else if m == 4 {
        v.push(65);
        v.push(112);
        v.push(114);
    } else if m == 5 {
        v.push(77);
        v.push(97);
        v.push(121);
    } else if m == 6 {
        v.push(74);
        v.push(117);
        v.push(110);
    } else if m == 7 {
        v.push(74);
        v.push(117);
        v.push(108);
    } else if m == 8 {
        v.push(65);
        v.push(117);
        v.push(103);
    } else if m == 9 {
        v.push(83);
        v.push(101);
        v.push(112);
    } else if m == 10 {
        v.push(79);
        v.push(99);
        v.push(116);
    } else if m == 11 {
        v.push(78);
        v.push(111);
        v.push(118);
    } else {
        v.push(68);
        v.push(101);
        v.push(99);
    }
    v.push(45);
    v.push(48 + (y / 1000) as u8);
    v.push(48 + ((y / 100) % 10) as u8);
    v.push(48 + ((y / 10) % 10) as u8);
    v.push(48 + (y % 10) as u8);
    proof {
        assert(v@ =~= imap_date_bytes(y as int, m as int, d as int));
    }
    v
}

fn since_query_string(y: i32, m: u32, d: u32) -> (r: String)
    requires
        0 <= y <= 9999,
        1 <= m <= 12,
        d <= 99,
    ensures
        r@ == decode_utf8(since_query_bytes(y as int, m as int, d as int)),
{
    let mut v: Vec<u8> = Vec::new();
    v.push(83);
    v.push(73);
    v.push(78);
    v.push(67);
    v.push(69);
    v.push(32);
    let date = format_imap_date(y, m, d);
    let dl = date.len();
    crate::strutil::push_range(&mut v, date.as_slice(), 0, dl);
    proof {
        assert(date@.subrange(0, dl as int) =~= date@);
        assert(v@ =~= since_query_bytes(y as int, m as int, d as int));
        lemma_imap_date_ascii(y as int, m as int, d as int);
        lemma_ascii_decode(v@);
    }
    bytes_to_string_lossy(v.as_slice())
}

fn all_query_string() -> (r: String)
    ensures
        r@ == decode_utf8(all_query_bytes()),
{
    let mut v: Vec<u8> = Vec::new();
    v.push(65);
    v.push(76);
    v.push(76);
    proof {
        assert(v@ =~= all_query_bytes());
        lemma_ascii_decode(v@);
    }
    bytes_to_string_lossy(v.as_slice())
}

/// Convert an ISO-8601 timestamp to the IMAP `DD-Mon-YYYY` date grammar.
pub fn iso_to_imap_date(iso: &str) -> (r: Option<String>)
    ensures
        r is Some <==> rfc3339_ymd_of(iso@) is Some,
        r matches Some(t) ==> {
            let ymd = rfc3339_ymd_of(iso@).unwrap();
            t@ == decode_utf8(imap_date_bytes(ymd.0 as int, ymd.1 as int, ymd.2 as int))
        },
{
    match parse_rfc3339_ymd(iso) {
        None => None,
        Some((y, m, d)) => {
            let v = format_imap_date(y, m, d);
            proof {
                lemma_imap_date_ascii(y as int, m as int, d as int);
                lemma_ascii_decode(v@);
            }
            Some(bytes_to_string_lossy(v.as_slice()))
        }
    }
}

/// The search predicate for an optional cutoff, with the fallback date given
/// explicitly (callers that default to "seven days ago" pass that date).
pub fn build_search_query(since: Option<&str>, fy: i32, fm: u32, fd: u32) -> (r: String)
    ensures
        since matches Some(s) ==> r@ == decode_utf8(
            search_query_bytes(Some(s@), fy as int, fm as int, fd as int),
        ),
        since is None ==> r@ == decode_utf8(
            search_query_bytes(None, fy as int, fm as int, fd as int),
        ),
{
    match since {
        Some(s) => {
            match parse_rfc3339_ymd(s) {
                Some((y, m, d)) => since_query_string(y, m, d),
                None => all_query_string(),
            }
        }
        None => {
            if 0 <= fy && fy <= 9999 && 1 <= fm && fm <= 12 && 1 <= fd && fd <= 31 {
                since_query_string(fy, fm, fd)
            } else {
                all_query_string()
            }
        }
    }
}

/// The default entry point: an absent cutoff defaults to the last seven
/// days, computed from the clock.
pub fn search_query(since: Option<&str>) -> (r: String)
    ensures
        since matches Some(s) ==> r@ == decode_utf8(search_query_bytes(Some(s@), 0, 1, 1)),
        since is None ==> exists|y: int, m: int, d: int|
            1 <= m <= 12 && 1 <= d <= 31 && r@ == decode_utf8(search_query_bytes(None, y, m, d)),
{
    match since {
        Some(s) => build_search_query(Some(s), 0, 1, 1),
        None => {
            let (fy, fm, fd) = seven_days_ago_ymd();
            let r = build_search_query(None, fy, fm, fd);
            proof {
                assert(1 <= fm as int <= 12 && 1 <= fd as int <= 31 && r@ == decode_utf8(
                    search_query_bytes(None, fy as int, fm as int, fd as int),
                ));
            }
            r
        }
    }
}

} // verus!
