//! Selecting what a live inbox is sent.
use vstd::prelude::*;

use crate::models::{Email, EmailEvent};
use crate::text::{
    chars_of, chars_eq, is_ascii_text, lemma_trim_lower_idempotent, lower_text, string_of,
    to_lowercase, trim, trim_str,
};

verus! {

/// The query of a live-inbox request: the newest receipt time that the
/// client has already seen.
#[derive(Debug, Clone, Copy, PartialEq, Eq)]
pub struct SseQuery {
    pub last_event_id: Option<i64>,
}

/// An address as mailboxes are looked up: trimmed and lowercased.
pub fn normalize_address(addr: &str) -> (r: String)
    ensures
        r@ == lower_text(trim(addr@)),
{
    let t = trim_str(addr);
    let ts = string_of(t.as_slice());
    to_lowercase(ts.as_str())
}

/// Normalizing an ASCII address twice is normalizing it once.
pub proof fn law_normalize_address_idempotent(addr: Seq<char>)
    requires
        is_ascii_text(addr),
    ensures
        lower_text(trim(lower_text(trim(addr)))) == lower_text(trim(addr)),
{
    lemma_trim_lower_idempotent(addr);
}

/// `e` was received after the client's last event (all are, without one).
pub open spec fn is_newer(e: Email, last_event_id: Option<i64>) -> bool {
    match last_event_id {
        Some(id) => e.received_at > id,
        None => true,
    }
}

/// The messages of a mailbox that a client has not seen yet, in order.
pub open spec fn unseen(emails: Seq<Email>, last_event_id: Option<i64>) -> Seq<Email> {
    emails.filter(|e: Email| is_newer(e, last_event_id))
}

/// `ev` announces `e`.
pub open spec fn announces(ev: EmailEvent, e: Email) -> bool {
    &&& ev.to_address == e.to_address
    &&& ev.email_id == e.id
    &&& ev.subject == e.subject
    &&& ev.from_addr == e.from_addr
}

/// The announcements that a client joining a live inbox is sent first:
/// one for each message received after its last event, in order.
pub fn initial_events(emails: &Vec<Email>, last_event_id: Option<i64>) -> (r: Vec<EmailEvent>)
    ensures
        r@.len() == unseen(emails@, last_event_id).len(),
        forall|k: int|
            0 <= k < r@.len() ==> announces(#[trigger] r@[k], unseen(emails@, last_event_id)[k]),
{
    let mut out: Vec<EmailEvent> = Vec::new();
    let mut i: usize = 0;
    assert(emails@.take(0) =~= Seq::<Email>::empty());
    while i < emails.len()
        invariant
            i <= emails@.len(),
            out@.len() == unseen(emails@.take(i as int), last_event_id).len(),
            forall|k: int|
                0 <= k < out@.len() ==> announces(
                    #[trigger] out@[k],
                    unseen(emails@.take(i as int), last_event_id)[k],
                ),
        decreases emails.len() - i,
    {
        let e = &emails[i];
        proof {
            assert(emails@.take(i + 1) =~= emails@.take(i as int).push(*e));
            emails@.take(i as int).lemma_filter_push(*e, |e: Email| is_newer(e, last_event_id));
        }
        let newer = match last_event_id {
            Some(id) => e.received_at > id,
            None => true,
        };
        if newer {
            out.push(EmailEvent::from_email(e));
        }
        i += 1;
    }
    assert(emails@.take(emails@.len() as int) =~= emails@);
    out
}

impl EmailEvent {
    /// Whether the event belongs to the mailbox `address`.
    pub fn is_for(&self, address: &str) -> (r: bool)
        ensures
            r == (self.to_address@ == address@),
    {
        let a = chars_of(self.to_address.as_str());
        let b = chars_of(address);
        chars_eq(a.as_slice(), b.as_slice())
    }
}

} // verus!
