//! The REST mail backend's pure logic: status classification and the
//! permissive mapping of the response's `mails` array into canonical
//! records. An entry without a mail id is dropped silently; other absent
//! fields default to the empty string or the subject placeholder.

use vstd::prelude::*;

verus! {

use crate::error::FetchError;
use crate::record::{MailMeta, MailMetaView, subject_placeholder};

/// One entry of the REST response's `mails` array, after JSON reading, with
/// every field optional.
pub struct RestMailEntry {
    pub mail_id: Option<String>,
    pub sender_name: Option<String>,
    pub sender_email: Option<String>,
    pub subject: Option<String>,
    pub received_at: Option<String>,
}

/// The record an entry with a mail id maps to.
pub open spec fn rest_record_view(e: RestMailEntry) -> MailMetaView {
    MailMetaView {
        mail_id: e.mail_id.unwrap()@,
        sender_name: match e.sender_name {
            Some(s) => s@,
            None => Seq::empty(),
        },
        sender_email: match e.sender_email {
            Some(s) => s@,
            None => Seq::empty(),
        },
        subject: match e.subject {
            Some(s) => if s@.len() > 0 {
                s@
            } else {
                subject_placeholder()
            },
            None => subject_placeholder(),
        },
        received_at: match e.received_at {
            Some(s) => s@,
            None => Seq::empty(),
        },
        message_id: Seq::empty(),
    }
}

/// The records of a whole `mails` array: entries without a mail id are left
/// out, the rest are mapped in order.
pub open spec fn rest_records(s: Seq<RestMailEntry>) -> Seq<MailMetaView>
    decreases s.len(),
{
    if s.len() == 0 {
        Seq::empty()
    } else {
        let rest = rest_records(s.skip(1));
        match s[0].mail_id {
            Some(_) => seq![rest_record_view(s[0])] + rest,
            None => rest,
        }
    }
}

/// Map a REST `mails` array to canonical records.
pub fn map_rest_entries(entries: Vec<RestMailEntry>) -> (r: Vec<MailMeta>)
    ensures
        r@.map(|_i: int, m: MailMeta| m@) == rest_records(entries@),
        forall|i: int| 0 <= i < r@.len() ==> (#[trigger] r@[i])@.subject.len() > 0,
{
    let n = entries.len();
    let mut out: Vec<MailMeta> = Vec::new();
    let mut i: usize = 0;
    proof {
        reveal_strlit("(제목 없음)");
        assert(entries@.skip(0) =~= entries@);
        assert(out@.map(|_i: int, m: MailMeta| m@) + rest_records(entries@) =~= rest_records(
            entries@,
        ));
    }
    while i < n
        invariant
            i <= n,
            n == entries@.len(),
            rest_records(entries@) == out@.map(|_i: int, m: MailMeta| m@) + rest_records(
                entries@.skip(i as int),
            ),
            forall|k: int| 0 <= k < out@.len() ==> (#[trigger] out@[k])@.subject.len() > 0,
        decreases n - i,
    {
        let ghost suf = entries@.skip(i as int);
        proof {
            assert(suf[0] == entries@[i as int]);
            assert(suf.skip(1) =~= entries@.skip(i + 1));
        }
        match &entries[i].mail_id {
            Some(id) => {
                let mail_id = id.clone();
                let sender_name = match &entries[i].sender_name {
                    Some(s) => s.clone(),
                    None => String::new(),
                };
                let sender_email = match &entries[i].sender_email {
                    Some(s) => s.clone(),
                    None => String::new(),
                };
                let subject = match &entries[i].subject {
                    Some(s) => {
                        if s.as_str().is_empty() {
                            subject_placeholder_string()
                        } else {
                            s.clone()
                        }
                    }
                    None => subject_placeholder_string(),
                };
                let received_at = match &entries[i].received_at {
                    Some(s) => s.clone(),
                    None => String::new(),
                };
                let m = MailMeta {
                    mail_id,
                    sender_name,
                    sender_email,
                    subject,
                    received_at,
                    message_id: String::new(),
                };
                let ghost oldmap = out@.map(|_i: int, mm: MailMeta| mm@);
                out.push(m);
                proof {
                    reveal_strlit("(제목 없음)");
                    assert(out@.map(|_i: int, mm: MailMeta| mm@) =~= oldmap.push(m@));
                    assert(m@ == rest_record_view(entries@[i as int]));
                    assert(oldmap.push(m@) + rest_records(entries@.skip(i + 1)) =~= oldmap + (seq![
                        rest_record_view(entries@[i as int]),
                    ] + rest_records(entries@.skip(i + 1))));
                }
            }
            None => {
                proof {
                    assert(rest_records(suf) == rest_records(entries@.skip(i + 1)));
                }
            }
        }
        i = i + 1;
    }
    proof {
        assert(entries@.skip(n as int) =~= Seq::<RestMailEntry>::empty());
        assert(rest_records(entries@) =~= out@.map(|_i: int, m: MailMeta| m@));
    }
    out
}

fn subject_placeholder_string() -> (r: String)
    ensures
        r@ == subject_placeholder(),
        r@.len() > 0,
{
    proof {
        reveal_strlit("(제목 없음)");
    }
    "(제목 없음)".to_owned()
}

/// Classify one REST response: 401 is a credential rejection, other
/// non-success statuses are protocol errors carrying status and body, and a
/// success hands the body on for JSON reading.
pub fn classify_rest_status(status: u16, body: String) -> (r: Result<String, FetchError>)
    ensures
        200 <= status <= 299 ==> (r matches Ok(b) && b@ == body@),
        status == 401 ==> (r matches Err(FetchError::Authentication(m)) && m@ == body@),
        !(200 <= status <= 299) && status != 401 ==> (r matches Err(FetchError::Protocol {
            status: st,
            body: b,
        }) && st == status && b@ == body@),
{
    if status == 401 {
        Err(FetchError::Authentication(body))
    } else if 200 <= status && status <= 299 {
        Ok(body)
    } else {
        Err(FetchError::Protocol { status, body })
    }
}

} // verus!
