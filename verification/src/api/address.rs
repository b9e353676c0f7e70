//! Generating temporary addresses.
use vstd::prelude::*;

use rand::Rng;

use crate::models::{expiry, is_uuid_v4_text, Address, TIMESTAMP_BOUND};
use crate::smtp::{domain_allowed, rcpt_to_address, session_ok, step, Session};
use crate::text::{
    chars_of, chars_eq, concat_chars, is_white_space, lemma_rfind_in_range, rfind, string_of,
    is_ascii_text, trim, trim_start, upper_text,
};

verus! {

/// Number of letters in the local part of a generated address.
pub const LOCAL_PART_LENGTH: usize = 10;

/// The body of an address request: the domain wanted, if any.
#[derive(Debug, Clone, PartialEq)]
pub struct GenerateRequest {
    pub domain: Option<String>,
}

/// Why an address could not be generated.
#[derive(Debug, Clone, PartialEq)]
pub enum AddressError {
    /// The requested domain is not served here.
    DomainNotAllowed(String),
}

impl AddressError {
    /// The description of the error.
    pub fn message(&self) -> (m: String)
        ensures
            self matches AddressError::DomainNotAllowed(d) ==> m@ == "Domain '"@ + d@
                + "' not allowed"@,
    {
        match self {
            AddressError::DomainNotAllowed(d) => {
                let a = chars_of("Domain '");
                let b = chars_of(d.as_str());
                let c = chars_of("' not allowed");
                let ab = concat_chars(a.as_slice(), b.as_slice());
                let abc = concat_chars(ab.as_slice(), c.as_slice());
                string_of(abc.as_slice())
            },
        }
    }
}

/// `rand::Rng::gen_range(0..n)` on the thread's generator: some index below
/// `n` (the range must not be empty).
#[verifier::external_body]
fn random_index(n: usize) -> (r: usize)
    requires
        n > 0,
    ensures
        r < n,
{
    rand::thread_rng().gen_range(0..n)
}

/// `rand::Rng::gen_range(b'a'..=b'z')` on the thread's generator: some
/// lowercase ASCII letter.
#[verifier::external_body]
fn random_lowercase() -> (b: u8)
    ensures
        0x61 <= b <= 0x7A,
{
    rand::thread_rng().gen_range(b'a'..=b'z')
}

/// The texts of a list of strings.
pub open spec fn texts(v: Seq<String>) -> Seq<Seq<char>> {
    v.map_values(|s: String| s@)
}

/// `c` is a lowercase ASCII letter.
pub open spec fn is_lower_letter(c: char) -> bool {
    'a' <= c <= 'z'
}

/// The domain of a new address: the requested one when it is served here,
/// an error when it is not, and the `pick`-th served domain when none was
/// requested.
pub fn choose_domain(requested: Option<String>, allowed: &Vec<String>, pick: usize) -> (r: Result<
    String,
    AddressError,
>)
    requires
        requested is None ==> pick < allowed@.len(),
    ensures
        requested matches Some(d) ==> (r is Ok <==> texts(allowed@).contains(d@)),
        requested matches Some(d) ==> r matches Ok(x) ==> x@ == d@,
        requested matches Some(d) ==> r matches Err(AddressError::DomainNotAllowed(x)) ==> x@ == d@,
        requested is None ==> (r matches Ok(x) && x@ == allowed@[pick as int]@),
{
    match requested {
        Some(d) => {
            let dc = chars_of(d.as_str());
            let ghost ts = texts(allowed@);
            let mut i: usize = 0;
            while i < allowed.len()
                invariant
                    requested == Some(d),
                    ts == texts(allowed@),
                    dc@ == d@,
                    i <= allowed@.len(),
                    forall|k: int| 0 <= k < i ==> ts[k] != d@,
                decreases allowed.len() - i,
            {
                let ac = chars_of(allowed[i].as_str());
                if chars_eq(ac.as_slice(), dc.as_slice()) {
                    assert(ts[i as int] == d@);
                    assert(ts.contains(d@));
                    return Ok(d);
                }
                i += 1;
            }
            Err(AddressError::DomainNotAllowed(d))
        },
        None => Ok(allowed[pick].clone()),
    }
}

/// Ten random lowercase letters.
pub fn random_local_part() -> (r: String)
    ensures
        r@.len() == LOCAL_PART_LENGTH,
        forall|i: int| 0 <= i < r@.len() ==> is_lower_letter(#[trigger] r@[i]),
{
    let mut letters: Vec<char> = Vec::new();
    let mut i: usize = 0;
    while i < LOCAL_PART_LENGTH
        invariant
            i <= LOCAL_PART_LENGTH,
            letters@.len() == i,
            forall|k: int| 0 <= k < letters@.len() ==> is_lower_letter(#[trigger] letters@[k]),
        decreases LOCAL_PART_LENGTH - i,
    {
        let b = random_lowercase();
        let c = b as char;
        assert(is_lower_letter(c));
        letters.push(c);
        i += 1;
    }
    string_of(letters.as_slice())
}

/// A new address `local@domain` for the requested domain, or a random
/// served one, living `ttl_minutes` minutes. The local part is ten random
/// lowercase letters; a requested domain that is not served is an error.
pub fn generate_address(request: Option<GenerateRequest>, allowed: &Vec<String>, ttl_minutes: i64) -> (r:
    Result<Address, AddressError>)
    requires
        (request matches Some(q) ==> q.domain is None) ==> allowed@.len() > 0,
    ensures
        (request matches Some(q) ==> q.domain is None) ==> r is Ok,
        request matches Some(q) ==> q.domain matches Some(d) ==> (r is Ok <==> texts(
            allowed@,
        ).contains(d@)),
        request matches Some(q) ==> q.domain matches Some(d) ==> r matches Err(
            AddressError::DomainNotAllowed(x),
        ) ==> x@ == d@,
        r matches Ok(a) ==> {
            &&& texts(allowed@).contains(a.domain@)
            &&& (request matches Some(q) ==> q.domain matches Some(d) ==> a.domain@ == d@)
            &&& a.address@.len() == LOCAL_PART_LENGTH + 1 + a.domain@.len()
            &&& a.address@ == a.address@.take(LOCAL_PART_LENGTH as int) + "@"@ + a.domain@
            &&& forall|i: int|
                0 <= i < LOCAL_PART_LENGTH ==> is_lower_letter(#[trigger] a.address@[i])
            &&& is_uuid_v4_text(a.id@)
            &&& 0 <= a.created_at <= TIMESTAMP_BOUND
            &&& a.expires_at == expiry(a.created_at, ttl_minutes)
            &&& (i64::MIN <= ttl_minutes * 60 <= i64::MAX && i64::MIN <= a.created_at + ttl_minutes
                * 60 <= i64::MAX ==> a.expires_at == a.created_at + ttl_minutes * 60)
        },
{
    let requested = match request {
        Some(q) => q.domain,
        None => None,
    };
    let pick = if requested.is_none() {
        random_index(allowed.len())
    } else {
        0
    };
    let ghost wanted = requested;
    let domain = match choose_domain(requested, allowed, pick) {
        Ok(d) => d,
        Err(e) => {
            return Err(e);
        },
    };
    proof {
        if wanted is None {
            assert(texts(allowed@)[pick as int] == domain@);
        }
        reveal_strlit("@");
    }
    let local = random_local_part();
    let address = mailbox_address(local.as_str(), domain, ttl_minutes);
    assert(address.address@.take(LOCAL_PART_LENGTH as int) =~= local@);
    assert(forall|i: int| 0 <= i < LOCAL_PART_LENGTH ==> address.address@[i] == local@[i]);
    Ok(address)
}

/// The address `local@domain`, living `ttl_minutes` minutes from now.
pub fn mailbox_address(local: &str, domain: String, ttl_minutes: i64) -> (a: Address)
    ensures
        a.address@ == local@ + "@"@ + domain@,
        a.domain == domain,
        is_uuid_v4_text(a.id@),
        0 <= a.created_at <= TIMESTAMP_BOUND,
        a.expires_at == expiry(a.created_at, ttl_minutes),
        i64::MIN <= ttl_minutes * 60 <= i64::MAX && i64::MIN <= a.created_at + ttl_minutes * 60
            <= i64::MAX ==> a.expires_at == a.created_at + ttl_minutes * 60,
{
    let lc = chars_of(local);
    let at = chars_of("@");
    let dc = chars_of(domain.as_str());
    let la = concat_chars(lc.as_slice(), at.as_slice());
    let full = concat_chars(la.as_slice(), dc.as_slice());
    Address::new(string_of(full.as_slice()), domain, ttl_minutes)
}

/// An address made of a local part, `@` and a served domain (domain names
/// hold no `@`) is one that the SMTP receiver accepts: its domain counts as
/// served, and `RCPT TO:<address>` names exactly that address.
pub proof fn law_generated_address_is_deliverable(
    local: Seq<char>,
    domain: Seq<char>,
    allowed: Seq<Seq<char>>,
)
    requires
        forall|i: int| 0 <= i < local.len() ==> is_lower_letter(#[trigger] local[i]),
        !domain.contains('@'),
        allowed.contains(domain),
    ensures
        domain_allowed(allowed, local + "@"@ + domain),
        rcpt_to_address("RCPT TO:<"@ + (local + "@"@ + domain) + ">"@) == Some(
            local + "@"@ + domain,
        ),
{
    reveal_strlit("@");
    reveal_strlit("RCPT TO:<");
    reveal_strlit("RCPT TO:");
    reveal_strlit(">");
    reveal_strlit("<");
    let addr = local + "@"@ + domain;
    let at = local.len() as int;
    assert(addr[at] == '@');
    lemma_rfind_in_range(addr, '@');
    assert(addr.contains('@'));
    let i = rfind(addr, '@')->Some_0;
    if i > at {
        assert(domain[i - at - 1] == addr[i]);
    }
    if i < at {
        assert(addr[at] != '@');
    }
    assert(addr.skip(at + 1) =~= domain);
    let line = "RCPT TO:<"@ + addr + ">"@;
    let rest = line.skip(8);
    assert(line.subrange(0, 8) =~= "RCPT TO:"@);
    assert(rest =~= "<"@ + addr + ">"@);
    assert(!is_white_space(rest[0]));
    assert(trim_start(rest) == rest);
    assert(!is_white_space(rest.last()));
    assert(trim(rest) == rest);
    assert(rest.subrange(1, rest.len() - 1) =~= addr);
}

/// A session waiting for its recipient takes a generated address as that
/// recipient: after `RCPT TO:<address>` the address is the transaction's
/// only recipient, and the message data come next. (For a domain that is
/// not ASCII, the command must not read as `QUIT`, `RSET` or `NOOP` once
/// uppercased: nothing here states the Unicode uppercase mapping.)
pub proof fn law_generated_address_receives_mail(
    s: Session,
    local: Seq<char>,
    domain: Seq<char>,
)
    requires
        session_ok(s),
        s.phase is RcptTo,
        s.recipients.len() == 0,
        forall|i: int| 0 <= i < local.len() ==> is_lower_letter(#[trigger] local[i]),
        !domain.contains('@'),
        s.allowed_domains.contains(domain),
        is_ascii_text(domain) || ({
            let u = upper_text(trim("RCPT TO:<"@ + (local + "@"@ + domain) + ">"@));
            u != "QUIT"@ && u != "RSET"@ && u != "NOOP"@
        }),
    ensures
        ({
            let (t, _) = step(s, "RCPT TO:<"@ + (local + "@"@ + domain) + ">"@);
            &&& t.recipients == seq![local + "@"@ + domain]
            &&& t.phase is Data
            &&& t.sender == s.sender
        }),
{
    reveal_strlit("RCPT TO:<");
    reveal_strlit(">");
    let line = "RCPT TO:<"@ + (local + "@"@ + domain) + ">"@;
    law_generated_address_is_deliverable(local, domain, s.allowed_domains);
    assert(!is_white_space(line[0]));
    assert(trim_start(line) == line);
    assert(line.last() == '>');
    assert(trim(line) == line);
    if is_ascii_text(domain) {
        reveal_strlit("@");
        reveal_strlit("QUIT");
        reveal_strlit("RSET");
        reveal_strlit("NOOP");
        assert forall|i: int| 0 <= i < line.len() implies (#[trigger] line[i] as u32) < 0x80 by {
            let n = "RCPT TO:<"@.len() as int;
            if i < n {
                assert(line[i] == "RCPT TO:<"@[i]);
            } else if i < n + local.len() {
                assert(line[i] == local[i - n]);
            } else if i == n + local.len() {
                assert(line[i] == '@');
            } else if i < n + local.len() + 1 + domain.len() {
                assert(line[i] == domain[i - n - local.len() - 1]);
            } else {
                assert(line[i] == '>');
            }
        }
        assert(upper_text(line).len() == line.len());
    }
    assert(s.recipients.push(local + "@"@ + domain) =~= seq![local + "@"@ + domain]);
}

} // verus!
