//! The records that the service stores and announces.
use vstd::prelude::*;

verus! {

/// Largest magnitude of a timestamp that `chrono` can produce: its dates lie
/// within years -262143..=262142, fewer than 2^43 seconds from the epoch.
pub const TIMESTAMP_BOUND: i64 = 8_796_093_022_208;

/// A lowercase hexadecimal digit.
pub open spec fn is_lower_hex(c: char) -> bool {
    ('0' <= c <= '9') || ('a' <= c <= 'f')
}

/// The text form of a random (version 4) UUID: 36 characters, hyphens at
/// positions 8, 13, 18 and 23, lowercase hexadecimal digits elsewhere, the
/// version digit `4` at position 14 and the variant digit (`8`, `9`, `a` or
/// `b`) at position 19.
pub open spec fn is_uuid_v4_text(s: Seq<char>) -> bool {
    &&& s.len() == 36
    &&& forall|i: int|
        0 <= i < 36 ==> if i == 8 || i == 13 || i == 18 || i == 23 {
            #[trigger] s[i] == '-'
        } else {
            is_lower_hex(s[i])
        }
    &&& s[14] == '4'
    &&& (s[19] == '8' || s[19] == '9' || s[19] == 'a' || s[19] == 'b')
}

/// `uuid::Uuid::new_v4`, in its hyphenated text form (`Display`, which
/// writes lowercase hex). The identifier is random; what holds of every
/// outcome is its form: `new_v4` sets the version bits to 4 and the variant
/// bits to `10`, and the text form is 8-4-4-4-12 lowercase hex digits.
#[verifier::external_body]
pub(crate) fn fresh_id() -> (id: String)
    ensures
        is_uuid_v4_text(id@),
{
    uuid::Uuid::new_v4().to_string()
}

/// `chrono::Utc::now`, as seconds since the Unix epoch. Only the range is
/// stated: the value depends on the clock. `Utc::now` reads the system time
/// as a duration since the epoch (it panics on a clock set before 1970), so
/// what it returns is never negative, and it lies within chrono's dates.
#[verifier::external_body]
pub(crate) fn now_timestamp() -> (t: i64)
    ensures
        0 <= t <= TIMESTAMP_BOUND,
{
    chrono::Utc::now().timestamp()
}

/// A temporary mailbox address and its lifetime.
#[derive(Debug, Clone, PartialEq)]
pub struct Address {
    pub id: String,
    pub address: String,
    pub domain: String,
    pub created_at: i64,
    pub expires_at: i64,
}

/// A received message.
#[derive(Debug, Clone, PartialEq)]
pub struct Email {
    pub id: String,
    pub to_address: String,
    pub from_addr: String,
    pub subject: String,
    pub body_text: Option<String>,
    pub body_html: Option<String>,
    pub raw: Option<String>,
    pub received_at: i64,
    pub is_read: bool,
}

/// The announcement of a new message to the subscribers of its mailbox.
#[derive(Debug, Clone, PartialEq)]
pub struct EmailEvent {
    pub to_address: String,
    pub email_id: String,
    pub subject: String,
    pub from_addr: String,
}

/// A binary part of a message (an image or an application file).
#[derive(Debug, Clone, PartialEq)]
pub struct Attachment {
    pub id: String,
    pub email_id: String,
    pub cid: Option<String>,
    pub content_type: String,
    pub filename: Option<String>,
    pub data: Vec<u8>,
    pub inline: bool,
}

/// The text of an optional string.
pub open spec fn opt_view(s: Option<String>) -> Option<Seq<char>> {
    match s {
        Some(t) => Some(t@),
        None => None,
    }
}

impl Email {
    /// A new, unread message with a fresh identifier, received now.
    pub fn new(
        to_address: String,
        from_addr: String,
        subject: String,
        body_text: Option<String>,
        body_html: Option<String>,
        raw: Option<String>,
    ) -> (e: Self)
        ensures
            e.to_address == to_address,
            e.from_addr == from_addr,
            e.subject == subject,
            e.body_text == body_text,
            e.body_html == body_html,
            e.raw == raw,
            !e.is_read,
            is_uuid_v4_text(e.id@),
            0 <= e.received_at <= TIMESTAMP_BOUND,
    {
        Email {
            id: fresh_id(),
            to_address,
            from_addr,
            subject,
            body_text,
            body_html,
            raw,
            received_at: now_timestamp(),
            is_read: false,
        }
    }
}

/// The expiry of an address created at `created_at` with a lifetime of
/// `ttl_minutes` minutes: `created_at + ttl_minutes * 60`, each step in
/// 64-bit two's complement arithmetic, wrapping on overflow as the service's
/// release build does.
pub open spec fn expiry(created_at: i64, ttl_minutes: i64) -> i64 {
    vstd::wrapping::i64_specs::wrapping_add(
        created_at,
        vstd::wrapping::i64_specs::wrapping_mul(ttl_minutes, 60),
    )
}

/// Where no step overflows, the expiry is the plain sum.
pub proof fn lemma_expiry_exact(created_at: i64, ttl_minutes: i64)
    requires
        i64::MIN <= ttl_minutes * 60 <= i64::MAX,
        i64::MIN <= created_at + ttl_minutes * 60 <= i64::MAX,
    ensures
        expiry(created_at, ttl_minutes) == created_at + ttl_minutes * 60,
{
    let x = ttl_minutes * 60;
    let r = 0x1_0000_0000_0000_0000int;
    if x >= 0 {
        assert(x % r == x);
    } else {
        assert((x + r) % r == x + r) by {
            vstd::arithmetic::div_mod::lemma_small_mod((x + r) as nat, r as nat);
        }
        vstd::arithmetic::div_mod::lemma_mod_add_multiples_vanish(x, r);
    }
    assert(vstd::wrapping::i64_specs::wrapping_mul(ttl_minutes, 60) == x);
}

impl Address {
    /// A new address with a fresh identifier, created now and expiring
    /// `ttl_minutes` minutes later (see `expiry`).
    pub fn new(address: String, domain: String, ttl_minutes: i64) -> (a: Self)
        ensures
            a.address == address,
            a.domain == domain,
            is_uuid_v4_text(a.id@),
            0 <= a.created_at <= TIMESTAMP_BOUND,
            a.expires_at == expiry(a.created_at, ttl_minutes),
            i64::MIN <= ttl_minutes * 60 <= i64::MAX && i64::MIN <= a.created_at + ttl_minutes * 60
                <= i64::MAX ==> a.expires_at == a.created_at + ttl_minutes * 60,
    {
        let now = now_timestamp();
        proof {
            if i64::MIN <= ttl_minutes * 60 <= i64::MAX && i64::MIN <= now + ttl_minutes * 60
                <= i64::MAX {
                lemma_expiry_exact(now, ttl_minutes);
            }
        }
        Address {
            id: fresh_id(),
            address,
            domain,
            created_at: now,
            expires_at: now.wrapping_add(ttl_minutes.wrapping_mul(60)),
        }
    }
}

impl EmailEvent {
    /// The announcement of `email`.
    pub fn from_email(email: &Email) -> (ev: Self)
        ensures
            ev.to_address == email.to_address,
            ev.email_id == email.id,
            ev.subject == email.subject,
            ev.from_addr == email.from_addr,
    {
        EmailEvent {
            to_address: email.to_address.clone(),
            email_id: email.id.clone(),
            subject: email.subject.clone(),
            from_addr: email.from_addr.clone(),
        }
    }
}

impl Attachment {
    /// A new attachment with a fresh identifier, not yet tied to a message.
    pub fn new(
        cid: Option<String>,
        content_type: String,
        filename: Option<String>,
        data: Vec<u8>,
        inline: bool,
    ) -> (a: Self)
        ensures
            a.email_id@ == Seq::<char>::empty(),
            is_uuid_v4_text(a.id@),
            a.cid == cid,
            a.content_type == content_type,
            a.filename == filename,
            a.data == data,
            a.inline == inline,
    {
        Attachment {
            id: fresh_id(),
            email_id: String::new(),
            cid,
            content_type,
            filename,
            data,
            inline,
        }
    }
}

} // verus!
