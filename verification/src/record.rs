//! The canonical mail metadata record and the fetch post-processing: UID
//! selection (the 50 most recent), envelope-to-record mapping, and the final
//! ordering by received time, newest first.

use vstd::prelude::*;

verus! {

use crate::mime::{mime_decode, decode_imap_utf8};
use crate::strutil::{
    lossy_of, bytes_to_string_lossy, dec_rep, push_u32_dec, lemma_ascii_decode,
};
use vstd::string::StringSliceAdditionalSpecFns;
use vstd::utf8::{decode_utf8, encode_utf8};
use vstd::seq_lib::group_to_multiset_ensures;

/// Canonical metadata for one mail, produced fresh by each fetch.
#[derive(Debug)]
pub struct MailMeta {
    pub mail_id: String,
    pub sender_name: String,
    pub sender_email: String,
    pub subject: String,
    pub received_at: String,
    pub message_id: String,
}

/// The abstract value of a record: its six fields as character sequences.
pub struct MailMetaView {
    pub mail_id: Seq<char>,
    pub sender_name: Seq<char>,
    pub sender_email: Seq<char>,
    pub subject: Seq<char>,
    pub received_at: Seq<char>,
    pub message_id: Seq<char>,
}

impl View for MailMeta {
    type V = MailMetaView;

    open spec fn view(&self) -> MailMetaView {
        MailMetaView {
            mail_id: self.mail_id@,
            sender_name: self.sender_name@,
            sender_email: self.sender_email@,
            subject: self.subject@,
            received_at: self.received_at@,
            message_id: self.message_id@,
        }
    }
}

/// Shown in place of a missing or empty subject.
pub open spec fn subject_placeholder() -> Seq<char> {
    "(제목 없음)"@
}

/// One address from a fetched envelope, as raw header bytes.
pub struct RawAddress {
    pub name: Option<Vec<u8>>,
    pub mailbox: Option<Vec<u8>>,
    pub host: Option<Vec<u8>>,
}

/// The plain data of one fetched message: UID, raw envelope header fields,
/// and the server's internal date already rendered as RFC 3339.
pub struct RawEnvelope {
    pub uid: u32,
    pub subject: Option<Vec<u8>>,
    pub from: Option<RawAddress>,
    pub internal_date: Option<String>,
    pub message_id: Option<Vec<u8>>,
}

/// The sender address bytes `mailbox@host`; just `mailbox` when either part
/// is absent.
pub open spec fn email_bytes(mb: Seq<u8>, h: Seq<u8>) -> Seq<u8> {
    if mb.len() > 0 && h.len() > 0 {
        mb + seq![64u8] + h
    } else {
        mb
    }
}

/// Bytes of an optional field, empty when absent.
pub open spec fn opt_bytes(o: Option<Vec<u8>>) -> Seq<u8> {
    match o {
        Some(v) => v@,
        None => Seq::empty(),
    }
}

pub proof fn lemma_dec_rep_ascii(n: int)
    requires
        n >= 0,
    ensures
        forall|k: int| 0 <= k < dec_rep(n).len() ==> 48 <= #[trigger] dec_rep(n)[k] <= 57,
    decreases n,
{
    if n >= 10 {
        lemma_dec_rep_ascii(n / 10);
        assert forall|k: int| 0 <= k < dec_rep(n).len() implies 48 <= #[trigger] dec_rep(n)[k] <= 57 by {
            if k < dec_rep(n / 10).len() {
                assert(dec_rep(n)[k] == dec_rep(n / 10)[k]);
            }
        }
    }
}

/// Decimal rendering of a UID as a string.
pub fn uid_string(uid: u32) -> (r: String)
    ensures
        r@ == decode_utf8(dec_rep(uid as int)),
{
    let mut v: Vec<u8> = Vec::new();
    push_u32_dec(&mut v, uid);
    proof {
        assert(v@ =~= dec_rep(uid as int));
        lemma_dec_rep_ascii(uid as int);
        lemma_ascii_decode(v@);
    }
    bytes_to_string_lossy(v.as_slice())
}

/// Map one fetched envelope to the canonical record. The subject passes
/// through the header decoder and is never empty: a missing subject, or one
/// that decodes to nothing, yields the placeholder.
pub fn envelope_to_mail(env: RawEnvelope) -> (r: MailMeta)
    ensures
        r@.mail_id == decode_utf8(dec_rep(env.uid as int)),
        (match env.subject {
            Some(s) => r@.subject == (if lossy_of(mime_decode(s@)).len() > 0 {
                lossy_of(mime_decode(s@))
            } else {
                subject_placeholder()
            }),
            None => r@.subject == subject_placeholder(),
        }),
        r@.subject.len() > 0,
        env.from matches Some(a) ==> {
            &&& (a.name matches Some(nb) ==> r@.sender_name == lossy_of(mime_decode(nb@)))
            &&& (a.name is None ==> r@.sender_name == Seq::<char>::empty())
            &&& r@.sender_email == lossy_of(email_bytes(opt_bytes(a.mailbox), opt_bytes(a.host)))
        },
        env.from is None ==> r@.sender_name == Seq::<char>::empty() && r@.sender_email
            == Seq::<char>::empty(),
        env.internal_date matches Some(d) ==> r@.received_at == d@,
        env.internal_date is None ==> r@.received_at == Seq::<char>::empty(),
        env.message_id matches Some(m) ==> r@.message_id == lossy_of(m@),
        env.message_id is None ==> r@.message_id == Seq::<char>::empty(),
{
    let mail_id = uid_string(env.uid);
    let subject = match env.subject {
        Some(s) => {
            let d = decode_imap_utf8(s.as_slice());
            if d.as_str().is_empty() {
                placeholder_subject()
            } else {
                d
            }
        }
        None => placeholder_subject(),
    };
    let (sender_name, sender_email) = match env.from {
        Some(a) => {
            let name = match a.name {
                Some(nb) => decode_imap_utf8(nb.as_slice()),
                None => String::new(),
            };
            let mut eb: Vec<u8> = Vec::new();
            let mb_empty: bool;
            match a.mailbox {
                Some(mb) => {
                    mb_empty = mb.len() == 0;
                    let ml = mb.len();
                    crate::strutil::push_range(&mut eb, mb.as_slice(), 0, ml);
                    proof {
                        assert(eb@ =~= opt_bytes(a.mailbox));
                    }
                }
                None => {
                    mb_empty = true;
                    proof {
                        assert(eb@ =~= opt_bytes(a.mailbox));
                    }
                }
            }
            match a.host {
                Some(h) => {
                    if !mb_empty && h.len() > 0 {
                        eb.push(64);
                        let hl = h.len();
                        crate::strutil::push_range(&mut eb, h.as_slice(), 0, hl);
                        proof {
                            assert(eb@ =~= email_bytes(opt_bytes(a.mailbox), opt_bytes(a.host)));
                        }
                    } else {
                        proof {
                            assert(eb@ =~= email_bytes(opt_bytes(a.mailbox), opt_bytes(a.host)));
                        }
                    }
                }
                None => {
                    proof {
                        assert(eb@ =~= email_bytes(opt_bytes(a.mailbox), opt_bytes(a.host)));
                    }
                }
            }
            let email = bytes_to_string_lossy(eb.as_slice());
            (name, email)
        }
        None => {
            let e1 = String::new();
            let e2 = String::new();
            (e1, e2)
        }
    };
    let received_at = match env.internal_date {
        Some(d) => d,
        None => String::new(),
    };
    let message_id = match env.message_id {
        Some(m) => bytes_to_string_lossy(m.as_slice()),
        None => String::new(),
    };
    MailMeta { mail_id, sender_name, sender_email, subject, received_at, message_id }
}

fn placeholder_subject() -> (r: String)
    ensures
        r@ == subject_placeholder(),
        r@.len() > 0,
{
    proof {
        reveal_strlit("(제목 없음)");
    }
    "(제목 없음)".to_owned()
}

/// Descending order on a UID sequence.
pub open spec fn sorted_desc_u32(s: Seq<u32>) -> bool {
    forall|i: int, j: int| 0 <= i < j < s.len() ==> s[i] >= s[j]
}

fn insert_desc_u32(v: &mut Vec<u32>, x: u32)
    requires
        sorted_desc_u32(old(v)@),
    ensures
        sorted_desc_u32(final(v)@),
        final(v)@.to_multiset() == old(v)@.to_multiset().insert(x),
        final(v)@.len() == old(v)@.len() + 1,
{
    broadcast use group_to_multiset_ensures;

    let mut k: usize = 0;
    while k < v.len() && x <= v[k]
        invariant
            k <= v@.len(),
            v@ == old(v)@,
            forall|t: int| 0 <= t < k ==> v@[t] >= x,
        decreases v@.len() - k,
    {
        k = k + 1;
    }
    proof {
        if k < v@.len() {
            assert(v@[k as int] < x);
        }
    }
    v.insert(k, x);
    proof {
        let nv = v@;
        let ov = old(v)@;
        assert forall|i: int, j: int| 0 <= i < j < nv.len() implies nv[i] >= nv[j] by {
            if j < k {
                assert(nv[i] == ov[i] && nv[j] == ov[j]);
            } else if i > k {
                assert(nv[i] == ov[i - 1] && nv[j] == ov[j - 1]);
            } else if i < k && j == k {
                assert(nv[i] == ov[i] && nv[j] == x);
            } else if i == k && j > k {
                assert(nv[i] == x && nv[j] == ov[j - 1]);
                if k < ov.len() {
                    assert(ov[k as int] <= ov[k as int]);
                }
            } else if i < k && j > k {
                assert(nv[i] == ov[i] && nv[j] == ov[j - 1]);
            }
        }
        assert(nv.remove(k as int) =~= ov);
        assert(nv.remove(k as int).to_multiset() =~= nv.to_multiset().remove(x));
        assert(nv.to_multiset().contains(x));
        assert(nv.to_multiset() =~= ov.to_multiset().insert(x));
    }
}

/// Select the UIDs to fetch: at most the 50 numerically highest, returned in
/// descending order. Every kept UID is at least as large as every UID left
/// out.
pub fn select_latest_uids(uids: &Vec<u32>) -> (r: Vec<u32>)
    ensures
        sorted_desc_u32(r@),
        uids@.len() <= 50 ==> r@.len() == uids@.len(),
        uids@.len() > 50 ==> r@.len() == 50,
        forall|x: u32| r@.to_multiset().count(x) <= uids@.to_multiset().count(x),
        forall|x: u32|
            uids@.to_multiset().count(x) > r@.to_multiset().count(x) ==> (forall|i: int|
                0 <= i < r@.len() ==> x <= r@[i]),
{
    broadcast use group_to_multiset_ensures;

    let n = uids.len();
    let mut sorted: Vec<u32> = Vec::new();
    let mut i: usize = 0;
    proof {
        assert(uids@.take(0) =~= Seq::<u32>::empty());
        assert(Seq::<u32>::empty().to_multiset() =~= sorted@.to_multiset());
    }
    while i < n
        invariant
            i <= n,
            n == uids@.len(),
            sorted_desc_u32(sorted@),
            sorted@.len() == i,
            sorted@.to_multiset() == uids@.take(i as int).to_multiset(),
        decreases n - i,
    {
        insert_desc_u32(&mut sorted, uids[i]);
        proof {
            assert(uids@.take(i + 1) =~= uids@.take(i as int).push(uids@[i as int]));
            uids@.take(i as int).to_multiset_ensures();
            assert(uids@.take(i as int).push(uids@[i as int]).to_multiset() =~= uids@.take(
                i as int,
            ).to_multiset().insert(uids@[i as int]));
        }
        i = i + 1;
    }
    proof {
        assert(uids@.take(n as int) =~= uids@);
    }
    let mut r: Vec<u32> = Vec::new();
    let keep = if n < 50 {
        n
    } else {
        50
    };
    let mut j: usize = 0;
    proof {
        assert(sorted@.take(0) =~= Seq::<u32>::empty());
        assert(r@.to_multiset() =~= sorted@.take(0).to_multiset());
    }
    while j < keep
        invariant
            j <= keep <= sorted@.len(),
            r@ == sorted@.take(j as int),
            r@.to_multiset() == sorted@.take(j as int).to_multiset(),
        decreases keep - j,
    {
        r.push(sorted[j]);
        proof {
            assert(sorted@.take(j + 1) =~= sorted@.take(j as int).push(sorted@[j as int]));
            sorted@.take(j as int).to_multiset_ensures();
            assert(sorted@.take(j as int).push(sorted@[j as int]).to_multiset() =~= sorted@.take(
                j as int,
            ).to_multiset().insert(sorted@[j as int]));
        }
        j = j + 1;
    }
    proof {
        let pre = sorted@.take(keep as int);
        let suf = sorted@.skip(keep as int);
        assert(sorted@ =~= pre + suf);
        vstd::seq_lib::lemma_multiset_commutative(pre, suf);
        assert forall|x: u32| r@.to_multiset().count(x) <= uids@.to_multiset().count(x) by {
            assert(sorted@.to_multiset().count(x) == pre.to_multiset().count(x)
                + suf.to_multiset().count(x));
        }
        assert forall|x: u32|
            uids@.to_multiset().count(x) > r@.to_multiset().count(x) implies (forall|i: int|
            0 <= i < r@.len() ==> x <= r@[i]) by {
            assert(sorted@.to_multiset().count(x) == pre.to_multiset().count(x)
                + suf.to_multiset().count(x));
            assert(suf.to_multiset().count(x) > 0);
            assert(suf.contains(x));
            let w = choose|w: int| 0 <= w < suf.len() && suf[w] == x;
            assert(sorted@[keep + w] == x);
            assert forall|i: int| 0 <= i < r@.len() implies x <= r@[i] by {
                assert(sorted@[i] >= sorted@[keep + w]);
            }
        }
    }
    r
}

/// Lexicographic order on byte sequences, the order `String` comparison uses.
pub open spec fn bytes_le(a: Seq<u8>, b: Seq<u8>) -> bool
    decreases a.len(),
{
    if a.len() == 0 {
        true
    } else if b.len() == 0 {
        false
    } else if a[0] < b[0] {
        true
    } else if a[0] > b[0] {
        false
    } else {
        bytes_le(a.skip(1), b.skip(1))
    }
}

pub proof fn lemma_bytes_le_refl(a: Seq<u8>)
    ensures
        bytes_le(a, a),
    decreases a.len(),
{
    if a.len() > 0 {
        lemma_bytes_le_refl(a.skip(1));
    }
}

pub proof fn lemma_bytes_le_total(a: Seq<u8>, b: Seq<u8>)
    ensures
        bytes_le(a, b) || bytes_le(b, a),
    decreases a.len(),
{
    if a.len() > 0 && b.len() > 0 && a[0] == b[0] {
        lemma_bytes_le_total(a.skip(1), b.skip(1));
    }
}

pub proof fn lemma_bytes_le_trans(a: Seq<u8>, b: Seq<u8>, c: Seq<u8>)
    requires
        bytes_le(a, b),
        bytes_le(b, c),
    ensures
        bytes_le(a, c),
    decreases a.len(),
{
    if a.len() > 0 {
        assert(b.len() > 0);
        assert(c.len() > 0);
        if a[0] == b[0] && b[0] == c[0] {
            lemma_bytes_le_trans(a.skip(1), b.skip(1), c.skip(1));
        }
    }
}

/// Decide `bytes_le` on two byte slices.
pub fn bytes_le_exec(a: &[u8], b: &[u8]) -> (r: bool)
    ensures
        r == bytes_le(a@, b@),
{
    let an = a.len();
    let bn = b.len();
    let mut i: usize = 0;
    proof {
        assert(a@.skip(0) =~= a@);
        assert(b@.skip(0) =~= b@);
    }
    while i < an && i < bn
        invariant
            i <= an,
            i <= bn,
            an == a@.len(),
            bn == b@.len(),
            bytes_le(a@, b@) == bytes_le(a@.skip(i as int), b@.skip(i as int)),
        decreases an - i,
    {
        if a[i] < b[i] {
            return true;
        }
        if a[i] > b[i] {
            return false;
        }
        proof {
            assert(a@.skip(i as int).skip(1) =~= a@.skip(i + 1));
            assert(b@.skip(i as int).skip(1) =~= b@.skip(i + 1));
        }
        i = i + 1;
    }
    i >= an
}

/// The sort key of a record: the bytes of its received time.
pub open spec fn mail_key(m: MailMeta) -> Seq<u8> {
    encode_utf8(m.received_at@)
}

/// Records in descending order of received time, newest first.
pub open spec fn sorted_by_received_desc(s: Seq<MailMeta>) -> bool {
    forall|i: int, j: int|
        0 <= i < j < s.len() ==> bytes_le(mail_key(#[trigger] s[j]), mail_key(#[trigger] s[i]))
}

/// Sort records by received time, descending, whatever the input order; the
/// result is a permutation of the input.
pub fn sort_mails_desc(mails: Vec<MailMeta>) -> (r: Vec<MailMeta>)
    ensures
        sorted_by_received_desc(r@),
        r@.to_multiset() == mails@.to_multiset(),
        r@.len() == mails@.len(),
{
    broadcast use group_to_multiset_ensures;

    let mut v = mails;
    let mut out: Vec<MailMeta> = Vec::new();
    proof {
        assert(out@.to_multiset().add(v@.to_multiset()) =~= mails@.to_multiset());
    }
    while v.len() > 0
        invariant
            sorted_by_received_desc(out@),
            forall|a: int, b: int|
                0 <= a < out@.len() && 0 <= b < v@.len() ==> bytes_le(
                    mail_key(#[trigger] v@[b]),
                    mail_key(#[trigger] out@[a]),
                ),
            out@.to_multiset().add(v@.to_multiset()) == mails@.to_multiset(),
            out@.len() + v@.len() == mails@.len(),
        decreases v@.len(),
    {
        let mut best: usize = 0;
        let mut j: usize = 1;
        proof {
            lemma_bytes_le_refl(mail_key(v@[0]));
        }
        while j < v.len()
            invariant
                1 <= j <= v@.len(),
                best < j,
                forall|t: int|
                    0 <= t < j ==> bytes_le(mail_key(#[trigger] v@[t]), mail_key(v@[best as int])),
            decreases v@.len() - j,
        {
            if bytes_le_exec(
                v[best].received_at.as_str().as_bytes(),
                v[j].received_at.as_str().as_bytes(),
            ) {
                proof {
                    assert forall|t: int|
                        0 <= t < j + 1 implies bytes_le(
                        mail_key(#[trigger] v@[t]),
                        mail_key(v@[j as int]),
                    ) by {
                        if t == j {
                            lemma_bytes_le_refl(mail_key(v@[j as int]));
                        } else {
                            lemma_bytes_le_trans(
                                mail_key(v@[t]),
                                mail_key(v@[best as int]),
                                mail_key(v@[j as int]),
                            );
                        }
                    }
                }
                best = j;
            } else {
                proof {
                    lemma_bytes_le_total(mail_key(v@[best as int]), mail_key(v@[j as int]));
                }
            }
            j = j + 1;
        }
        let ghost vold = v@;
        let ghost oold = out@;
        let m = v.remove(best);
        proof {
            assert(vold[best as int] == m);
            vold.to_multiset_ensures();
            assert(v@.to_multiset() =~= vold.to_multiset().remove(m));
            assert(vold.contains(m));
        }
        out.push(m);
        proof {
            oold.to_multiset_ensures();
            assert(out@.to_multiset() =~= oold.to_multiset().insert(m));
            assert(out@.to_multiset().add(v@.to_multiset()) =~= oold.to_multiset().add(
                vold.to_multiset(),
            ));
            assert forall|i: int, j2: int|
                0 <= i < j2 < out@.len() implies bytes_le(
                mail_key(#[trigger] out@[j2]),
                mail_key(#[trigger] out@[i]),
            ) by {
                if j2 == out@.len() - 1 {
                    assert(out@[j2] == m);
                    assert(out@[i] == oold[i]);
                } else {
                    assert(out@[i] == oold[i] && out@[j2] == oold[j2]);
                }
            }
            assert forall|a: int, b: int|
                0 <= a < out@.len() && 0 <= b < v@.len() implies bytes_le(
                mail_key(#[trigger] v@[b]),
                mail_key(#[trigger] out@[a]),
            ) by {
                let t = if b < best { b } else { b + 1 };
                assert(v@[b] == vold[t]);
                if a < oold.len() {
                    assert(out@[a] == oold[a]);
                    assert(bytes_le(mail_key(vold[t]), mail_key(oold[a])));
                } else {
                    assert(out@[a] == m);
                    assert(bytes_le(mail_key(vold[t]), mail_key(vold[best as int])));
                }
            }
        }
    }
    proof {
        assert(v@.to_multiset() =~= Seq::<MailMeta>::empty().to_multiset());
        assert(out@.to_multiset().add(v@.to_multiset()) =~= out@.to_multiset());
    }
    out
}

/// The comma-joined decimal UID set `u1,u2,...` sent to `UID FETCH`.
pub open spec fn uid_set_rep(s: Seq<u32>) -> Seq<u8>
    decreases s.len(),
{
    if s.len() == 0 {
        seq![]
    } else if s.len() == 1 {
        dec_rep(s[0] as int)
    } else {
        dec_rep(s[0] as int) + seq![44u8] + uid_set_rep(s.skip(1))
    }
}

pub proof fn lemma_uid_set_rep_ascii(s: Seq<u32>)
    ensures
        forall|k: int| 0 <= k < uid_set_rep(s).len() ==> #[trigger] uid_set_rep(s)[k] < 128,
    decreases s.len(),
{
    if s.len() == 0 {
    } else if s.len() == 1 {
        lemma_dec_rep_ascii(s[0] as int);
        assert forall|k: int| 0 <= k < uid_set_rep(s).len() implies #[trigger] uid_set_rep(s)[k]
            < 128 by {
            assert(48 <= dec_rep(s[0] as int)[k] <= 57);
        }
    } else {
        lemma_dec_rep_ascii(s[0] as int);
        lemma_uid_set_rep_ascii(s.skip(1));
        let d = dec_rep(s[0] as int);
        assert forall|k: int| 0 <= k < uid_set_rep(s).len() implies #[trigger] uid_set_rep(s)[k]
            < 128 by {
            if k < d.len() {
                assert(uid_set_rep(s)[k] == d[k]);
                assert(48 <= d[k] <= 57);
            } else if k > d.len() {
                assert(uid_set_rep(s)[k] == uid_set_rep(s.skip(1))[k - d.len() - 1]);
            }
        }
    }
}

/// Join UIDs with commas into the wire form of a UID set.
pub fn uid_set_string(uids: &Vec<u32>) -> (r: String)
    ensures
        r@ == decode_utf8(uid_set_rep(uids@)),
{
    let n = uids.len();
    let mut v: Vec<u8> = Vec::new();
    let mut i: usize = 0;
    proof {
        assert(uids@.skip(0) =~= uids@);
        assert(v@ + uid_set_rep(uids@) =~= uid_set_rep(uids@));
    }
    while i < n
        invariant
            i <= n,
            n == uids@.len(),
            uid_set_rep(uids@) == v@ + uid_set_rep(uids@.skip(i as int)),
        decreases n - i,
    {
        let ghost suf = uids@.skip(i as int);
        push_u32_dec(&mut v, uids[i]);
        if i + 1 < n {
            v.push(44);
            proof {
                assert(suf.len() >= 2);
                assert(suf[0] == uids@[i as int]);
                assert(suf.skip(1) =~= uids@.skip(i + 1));
                assert(v@ + uid_set_rep(uids@.skip(i + 1)) =~= uid_set_rep(uids@));
            }
        } else {
            proof {
                assert(suf.len() == 1);
                assert(suf[0] == uids@[i as int]);
                assert(uids@.skip(i + 1) =~= Seq::<u32>::empty());
                assert(v@ + uid_set_rep(uids@.skip(i + 1)) =~= uid_set_rep(uids@));
            }
        }
        i = i + 1;
    }
    proof {
        assert(uids@.skip(n as int) =~= Seq::<u32>::empty());
        assert(v@ =~= uid_set_rep(uids@));
        lemma_uid_set_rep_ascii(uids@);
        lemma_ascii_decode(v@);
    }
    bytes_to_string_lossy(v.as_slice())
}

} // verus!
