//! The SMTP receiver: the dialogue with one client, line by line, and the
//! reading of the messages it delivers.
//!
//! A `ConnectionHandler` holds the state of one connection. Each line that
//! the client sends goes through `process_line`, which answers it or, at
//! the end of the message data, hands the message over for delivery; the
//! caller stores it and answers with `delivery_reply`.
pub mod parser;
pub mod transfer;

use vstd::prelude::*;

use crate::smtp::parser::ParseError;
use crate::text::{
    chars_of, concat_chars, has_prefix, rfind, rfind_char, str_eq, str_starts_with, string_of,
    sub_chars, trim, trim_chars, trim_str, to_uppercase, upper_text, contains_char, chars_eq,
    eq_ignore_ascii_case, is_ascii_text, lemma_trim_ascii, lemma_upper_text_of_word,
    is_white_space, lemma_trim_padded,
};

verus! {

/// The port on which the receiver listens unless configured otherwise.
pub const SMTP_PORT_DEFAULT: u16 = 2525;

/// The largest message, in bytes, that the receiver accepts.
pub const MAX_EMAIL_SIZE: usize = 1_048_576;

/// Where the dialogue with one client stands.
pub enum SmtpState {
    WaitingGreeting,
    WaitingMailFrom,
    WaitingRcptTo,
    WaitingData,
    ReceivingData { collected: Vec<u8> },
    MailTransactionComplete,
}

/// `SmtpState` with the message data as bytes.
pub enum Phase {
    Greeting,
    MailFrom,
    RcptTo,
    Data,
    Receiving(Seq<u8>),
    Complete,
}

impl View for SmtpState {
    type V = Phase;

    open spec fn view(&self) -> Phase {
        match self {
            SmtpState::WaitingGreeting => Phase::Greeting,
            SmtpState::WaitingMailFrom => Phase::MailFrom,
            SmtpState::WaitingRcptTo => Phase::RcptTo,
            SmtpState::WaitingData => Phase::Data,
            SmtpState::ReceivingData { collected } => Phase::Receiving(collected@),
            SmtpState::MailTransactionComplete => Phase::Complete,
        }
    }
}

/// What a `ConnectionHandler` holds, as plain values.
pub struct Session {
    pub phase: Phase,
    pub sender: Option<Seq<char>>,
    pub recipients: Seq<Seq<char>>,
    pub allowed_domains: Seq<Seq<char>>,
    pub hostname: Seq<char>,
}

/// The state of one SMTP connection.
pub struct ConnectionHandler {
    state: SmtpState,
    sender: Option<String>,
    recipients: Vec<String>,
    allowed_domains: Vec<String>,
    hostname: String,
}

impl View for ConnectionHandler {
    type V = Session;

    closed spec fn view(&self) -> Session {
        Session {
            phase: self.state@,
            sender: crate::models::opt_view(self.sender),
            recipients: self.recipients@.map_values(|r: String| r@),
            allowed_domains: self.allowed_domains@.map_values(|d: String| d@),
            hostname: self.hostname@,
        }
    }
}

/// What the receiver does with one line.
pub enum LineOutcome {
    /// Send this text back (nothing when it is empty).
    Reply(String),
    /// The message is complete: deliver these bytes, then answer with
    /// `delivery_reply`.
    Deliver(Vec<u8>),
}

/// `LineOutcome` as plain values.
pub enum Outcome {
    Reply(Seq<char>),
    Deliver(Seq<u8>),
}

impl View for LineOutcome {
    type V = Outcome;

    open spec fn view(&self) -> Outcome {
        match self {
            LineOutcome::Reply(s) => Outcome::Reply(s@),
            LineOutcome::Deliver(b) => Outcome::Deliver(b@),
        }
    }
}

/// Why a delivered message was not stored.
#[derive(Debug, Clone, Copy, PartialEq, Eq)]
pub enum DeliveryError {
    /// The message could not be read.
    Parse(ParseError),
    /// The message could not be stored.
    Store,
}

// ---------------------------------------------------------------------------
// The dialogue, as a transition function
// ---------------------------------------------------------------------------

/// The address after `prefix` in a command line: trimmed, without one
/// enclosing pair of angle brackets, and only if it holds an `@`.
pub open spec fn extract_address(line: Seq<char>, prefix: Seq<char>) -> Option<Seq<char>> {
    if has_prefix(line, prefix) {
        let after = trim(line.skip(prefix.len() as int));
        let addr = if after.len() > 0 && after[0] == '<' && after.last() == '>' {
            after.subrange(1, after.len() - 1)
        } else {
            after
        };
        if addr.contains('@') {
            Some(addr)
        } else {
            None
        }
    } else {
        None
    }
}

/// The address of a command does not depend on the white space around it:
/// after the command's prefix, white space, an address in angle brackets
/// and white space give that address; so does a bare address (one that
/// neither starts nor ends with white space and is not itself enclosed in
/// angle brackets). This holds of `RCPT TO:` and `MAIL FROM:` alike.
pub proof fn law_address_ignores_white_space(
    prefix: Seq<char>,
    w1: Seq<char>,
    a: Seq<char>,
    w2: Seq<char>,
)
    requires
        forall|i: int| 0 <= i < w1.len() ==> is_white_space(#[trigger] w1[i]),
        forall|i: int| 0 <= i < w2.len() ==> is_white_space(#[trigger] w2[i]),
        a.contains('@'),
    ensures
        extract_address(prefix + w1 + "<"@ + a + ">"@ + w2, prefix) == Some(a),
        rcpt_to_address("RCPT TO:"@ + w1 + "<"@ + a + ">"@ + w2) == Some(a),
        mail_from_address("MAIL FROM:"@ + w1 + "<"@ + a + ">"@ + w2) == Some(a),
        !is_white_space(a[0]) && !is_white_space(a.last()) && !(a[0] == '<' && a.last() == '>')
            ==> extract_address(prefix + w1 + a + w2, prefix) == Some(a),
{
    lemma_bracketed_address(prefix, w1, a, w2);
    lemma_bracketed_address("RCPT TO:"@, w1, a, w2);
    lemma_bracketed_address("MAIL FROM:"@, w1, a, w2);
    if !is_white_space(a[0]) && !is_white_space(a.last()) && !(a[0] == '<' && a.last() == '>') {
        lemma_trim_padded(w1, a, w2);
        let l2 = prefix + w1 + a + w2;
        assert(l2.subrange(0, prefix.len() as int) =~= prefix);
        assert(l2.skip(prefix.len() as int) =~= w1 + a + w2);
    }
}

/// After a prefix, white space, an address in angle brackets and white
/// space give the address.
proof fn lemma_bracketed_address(prefix: Seq<char>, w1: Seq<char>, a: Seq<char>, w2: Seq<char>)
    requires
        forall|i: int| 0 <= i < w1.len() ==> is_white_space(#[trigger] w1[i]),
        forall|i: int| 0 <= i < w2.len() ==> is_white_space(#[trigger] w2[i]),
        a.contains('@'),
    ensures
        extract_address(prefix + w1 + "<"@ + a + ">"@ + w2, prefix) == Some(a),
{
    reveal_strlit("<");
    reveal_strlit(">");
    let br = "<"@ + a + ">"@;
    lemma_trim_padded(w1, br, w2);
    let l1 = prefix + w1 + br + w2;
    assert(l1 =~= prefix + w1 + "<"@ + a + ">"@ + w2);
    assert(l1.subrange(0, prefix.len() as int) =~= prefix);
    assert(l1.skip(prefix.len() as int) =~= w1 + br + w2);
    assert(br.subrange(1, br.len() - 1) =~= a);
    assert(br.last() == '>');
}

/// The address of a `MAIL FROM:` command (that exact case, or all lowercase).
pub open spec fn mail_from_address(line: Seq<char>) -> Option<Seq<char>> {
    match extract_address(line, "MAIL FROM:"@) {
        Some(a) => Some(a),
        None => extract_address(line, "mail from:"@),
    }
}

/// The address of a `RCPT TO:` command (that exact case, or all lowercase).
pub open spec fn rcpt_to_address(line: Seq<char>) -> Option<Seq<char>> {
    match extract_address(line, "RCPT TO:"@) {
        Some(a) => Some(a),
        None => extract_address(line, "rcpt to:"@),
    }
}

/// The domain of `email` (what follows its last `@`) is one of `allowed`.
pub open spec fn domain_allowed(allowed: Seq<Seq<char>>, email: Seq<char>) -> bool {
    match rfind(email, '@') {
        Some(i) => allowed.contains(email.skip(i + 1)),
        None => false,
    }
}

/// `collected` with one more data line: a leading dot doubled by the client
/// is removed, and the line ends with CRLF.
pub open spec fn with_data_line(collected: Seq<u8>, line: Seq<char>) -> Seq<u8> {
    let payload = if has_prefix(line, ".."@) {
        line.drop_first()
    } else {
        line
    };
    collected + vstd::utf8::encode_utf8(payload) + seq![0x0Du8, 0x0Au8]
}

/// The session with the transaction abandoned: waiting for `MAIL FROM`,
/// no sender, no recipients.
pub open spec fn reset(s: Session) -> Session {
    Session { phase: Phase::MailFrom, sender: None, recipients: Seq::empty(), ..s }
}

/// The session in another phase.
pub open spec fn enter(s: Session, phase: Phase) -> Session {
    Session { phase, ..s }
}

/// How the receiver answers one line, and the session after it.
///
/// The line is trimmed first. `QUIT`, `RSET` and `NOOP` (in any case that
/// uppercases to them) are answered in every phase; any other line is read
/// according to the phase: a greeting (`EHLO`/`HELO`), the sender, one
/// recipient whose domain is served here, the `DATA` command, the message
/// lines up to a lone `.`, and nothing once the transaction is over.
pub open spec fn step(s: Session, raw_line: Seq<char>) -> (Session, Outcome) {
    respond(s, trim(raw_line), upper_text(trim(raw_line)))
}

/// How the receiver answers the trimmed line `line`, whose uppercase is
/// `upper`, and the session after it.
pub open spec fn respond(s: Session, line: Seq<char>, upper: Seq<char>) -> (Session, Outcome) {
    if upper == "QUIT"@ {
        (enter(s, Phase::Complete), Outcome::Reply("221 Bye\r\n"@))
    } else if upper == "RSET"@ {
        (reset(s), Outcome::Reply("250 OK\r\n"@))
    } else if upper == "NOOP"@ {
        (s, Outcome::Reply("250 OK\r\n"@))
    } else {
        match s.phase {
            Phase::Greeting => if has_prefix(upper, "EHLO"@) || has_prefix(upper, "HELO"@) {
                (
                    enter(s, Phase::MailFrom),
                    Outcome::Reply("250 "@ + s.hostname + " Hello\r\n"@),
                )
            } else {
                (s, Outcome::Reply("500 Expected EHLO/HELO\r\n"@))
            },
            Phase::MailFrom => match mail_from_address(line) {
                Some(a) => (
                    Session { phase: Phase::RcptTo, sender: Some(a), ..s },
                    Outcome::Reply("250 OK\r\n"@),
                ),
                None => (s, Outcome::Reply("501 Malformed MAIL FROM\r\n"@)),
            },
            Phase::RcptTo => match rcpt_to_address(line) {
                Some(a) => if domain_allowed(s.allowed_domains, a) {
                    (
                        Session { phase: Phase::Data, recipients: s.recipients.push(a), ..s },
                        Outcome::Reply("250 OK\r\n"@),
                    )
                } else {
                    (s, Outcome::Reply("550 Domain not allowed\r\n"@))
                },
                None => (s, Outcome::Reply("501 Malformed RCPT TO\r\n"@)),
            },
            Phase::Data => if s.sender is None {
                (s, Outcome::Reply("503 Need MAIL FROM\r\n"@))
            } else if s.recipients.len() == 0 {
                (s, Outcome::Reply("503 Need RCPT TO\r\n"@))
            } else {
                (
                    enter(s, Phase::Receiving(Seq::empty())),
                    Outcome::Reply("354 Start mail input; end with <CRLF>.<CRLF>\r\n"@),
                )
            },
            Phase::Receiving(collected) => if line == "."@ {
                (enter(s, Phase::Complete), Outcome::Deliver(collected))
            } else {
                let more = with_data_line(collected, line);
                if more.len() > MAX_EMAIL_SIZE {
                    (enter(s, Phase::Complete), Outcome::Reply("552 Message size exceeds limit\r\n"@))
                } else {
                    (enter(s, Phase::Receiving(more)), Outcome::Reply(Seq::empty()))
                }
            },
            Phase::Complete => (s, Outcome::Reply("500 Transaction ended\r\n"@)),
        }
    }
}

/// What always holds of a session: every recipient's domain is served here,
/// a transaction past `MAIL FROM` has a sender, one past `RCPT TO` has a
/// recipient, and the message data never exceed the size limit.
pub open spec fn session_ok(s: Session) -> bool {
    &&& forall|i: int|
        0 <= i < s.recipients.len() ==> domain_allowed(s.allowed_domains, #[trigger] s.recipients[i])
    &&& s.phase is RcptTo ==> s.sender is Some
    &&& s.phase is Data ==> s.sender is Some && s.recipients.len() > 0
    &&& s.phase matches Phase::Receiving(c) ==> s.sender is Some && s.recipients.len() > 0 && c.len()
        <= MAX_EMAIL_SIZE
}

// ---------------------------------------------------------------------------
// Executable dialogue
// ---------------------------------------------------------------------------

/// Appends the bytes of `s` to `v`.
fn append_bytes(v: &mut Vec<u8>, s: &[u8])
    ensures
        final(v)@ == old(v)@ + s@,
{
    let ghost start = v@;
    let mut i: usize = 0;
    while i < s.len()
        invariant
            i <= s@.len(),
            v@ == start + s@.take(i as int),
        decreases s.len() - i,
    {
        v.push(s[i]);
        i += 1;
        assert(v@ =~= start + s@.take(i as int));
    }
    assert(s@.take(s@.len() as int) =~= s@);
}

/// The first reply of the receiver on a new connection.
pub fn greeting(hostname: &str) -> (r: String)
    ensures
        r@ == "220 "@ + hostname@ + " ESMTP TempMail Ready\r\n"@,
{
    let a = chars_of("220 ");
    let b = chars_of(hostname);
    let c = chars_of(" ESMTP TempMail Ready\r\n");
    let ab = concat_chars(a.as_slice(), b.as_slice());
    let abc = concat_chars(ab.as_slice(), c.as_slice());
    string_of(abc.as_slice())
}

/// The reply to a delivered message.
pub fn delivery_reply(result: &Result<(), DeliveryError>) -> (r: String)
    ensures
        result is Ok ==> r@ == "250 OK: Message accepted\r\n"@,
        result matches Err(DeliveryError::Parse(_)) ==> r@ == "554 Transaction failed: "@
            + "Failed to parse MIME email"@ + "\r\n"@,
        result matches Err(DeliveryError::Store) ==> r@ == "554 Transaction failed: "@
            + "Failed to insert email"@ + "\r\n"@,
{
    match result {
        Ok(()) => "250 OK: Message accepted\r\n".to_owned(),
        Err(e) => {
            let why = match e {
                DeliveryError::Parse(p) => p.message(),
                DeliveryError::Store => "Failed to insert email".to_owned(),
            };
            let a = chars_of("554 Transaction failed: ");
            let b = chars_of(why.as_str());
            let c = chars_of("\r\n");
            let ab = concat_chars(a.as_slice(), b.as_slice());
            let abc = concat_chars(ab.as_slice(), c.as_slice());
            string_of(abc.as_slice())
        },
    }
}

/// Whether `line` is the `QUIT` command (trimmed, in any case).
pub fn is_quit(line: &str) -> (r: bool)
    ensures
        r == (upper_text(trim(line@)) == "QUIT"@),
{
    let t = trim_str(line);
    let ts = string_of(t.as_slice());
    let up = to_uppercase(ts.as_str());
    str_eq(up.as_str(), "QUIT")
}

/// The address after `prefix` in `line`, if the line is such a command.
fn extract_email(line: &[char], prefix: &str) -> (r: Option<String>)
    ensures
        crate::models::opt_view(r) == extract_address(line@, prefix@),
{
    let p = chars_of(prefix);
    if !crate::text::starts_with(line, p.as_slice()) {
        return None;
    }
    let rest = sub_chars(line, p.len(), line.len());
    assert(rest@ =~= line@.skip(p@.len() as int));
    let after = trim_chars(rest.as_slice());
    let n = after.len();
    let addr = if n > 0 && after[0] == '<' && after[n - 1] == '>' {
        sub_chars(after.as_slice(), 1, n - 1)
    } else {
        after
    };
    if contains_char(addr.as_slice(), '@') {
        Some(string_of(addr.as_slice()))
    } else {
        None
    }
}

impl ConnectionHandler {
    /// What always holds of a handler.
    pub open spec fn wf(&self) -> bool {
        session_ok(self@)
    }

    /// A handler for a new connection, waiting for the greeting.
    pub fn new(allowed_domains: Vec<String>, hostname: String) -> (h: Self)
        ensures
            h.wf(),
            h@.phase is Greeting,
            h@.sender is None,
            h@.recipients.len() == 0,
            h@.allowed_domains == allowed_domains@.map_values(|d: String| d@),
            h@.hostname == hostname@,
    {
        let h = ConnectionHandler {
            state: SmtpState::WaitingGreeting,
            sender: None,
            recipients: Vec::new(),
            allowed_domains,
            hostname,
        };
        assert(h@.recipients =~= Seq::<Seq<char>>::empty());
        h
    }

    /// The sender named by `MAIL FROM`, if any.
    pub fn sender(&self) -> (r: Option<String>)
        ensures
            crate::models::opt_view(r) == self@.sender,
    {
        match &self.sender {
            Some(s) => Some(s.clone()),
            None => None,
        }
    }

    /// The recipients accepted so far.
    pub fn recipients(&self) -> (r: &Vec<String>)
        ensures
            r@.map_values(|x: String| x@) == self@.recipients,
    {
        &self.recipients
    }

    /// Whether the domain of `email` (after its last `@`) is served here.
    fn is_domain_allowed(&self, email: &[char]) -> (r: bool)
        ensures
            r == domain_allowed(self@.allowed_domains, email@),
    {
        let at = match rfind_char(email, '@') {
            Some(i) => i,
            None => {
                return false;
            },
        };
        proof {
            crate::text::lemma_rfind_in_range(email@, '@');
        }
        let domain = sub_chars(email, at + 1, email.len());
        assert(domain@ =~= email@.skip(at + 1));
        let ghost allowed = self@.allowed_domains;
        let mut i: usize = 0;
        while i < self.allowed_domains.len()
            invariant
                allowed == self.allowed_domains@.map_values(|d: String| d@),
                allowed == self@.allowed_domains,
                domain@ == email@.skip(at + 1),
                rfind(email@, '@') == Some(at as int),
                i <= self.allowed_domains@.len(),
                forall|k: int| 0 <= k < i ==> allowed[k] != domain@,
            decreases self.allowed_domains.len() - i,
        {
            let d = chars_of(self.allowed_domains[i].as_str());
            if chars_eq(d.as_slice(), domain.as_slice()) {
                assert(allowed[i as int] == domain@);
                assert(allowed.contains(domain@));
                return true;
            }
            i += 1;
        }
        false
    }

    /// Abandons the transaction.
    fn reset_transaction(&mut self)
        ensures
            final(self)@ == reset(old(self)@),
    {
        self.state = SmtpState::WaitingMailFrom;
        self.sender = None;
        self.recipients.clear();
        assert(self@.recipients =~= Seq::<Seq<char>>::empty());
    }

    /// Reads the greeting.
    fn handle_ehlo(&mut self, upper: &str) -> (r: String)
        ensures
            (has_prefix(upper@, "EHLO"@) || has_prefix(upper@, "HELO"@)) ==> final(self)@ == enter(
                old(self)@,
                Phase::MailFrom,
            ) && r@ == "250 "@ + old(self)@.hostname + " Hello\r\n"@,
            !(has_prefix(upper@, "EHLO"@) || has_prefix(upper@, "HELO"@)) ==> final(self)@ == old(
                self,
            )@ && r@ == "500 Expected EHLO/HELO\r\n"@,
    {
        if str_starts_with(upper, "EHLO") || str_starts_with(upper, "HELO") {
            self.state = SmtpState::WaitingMailFrom;
            let a = chars_of("250 ");
            let b = chars_of(self.hostname.as_str());
            let c = chars_of(" Hello\r\n");
            let ab = concat_chars(a.as_slice(), b.as_slice());
            let abc = concat_chars(ab.as_slice(), c.as_slice());
            string_of(abc.as_slice())
        } else {
            "500 Expected EHLO/HELO\r\n".to_owned()
        }
    }

    /// Reads the sender.
    fn handle_mail_from(&mut self, line: &[char]) -> (r: String)
        ensures
            mail_from_address(line@) matches Some(a) ==> final(self)@ == (Session {
                phase: Phase::RcptTo,
                sender: Some(a),
                ..old(self)@
            }) && r@ == "250 OK\r\n"@,
            mail_from_address(line@) is None ==> final(self)@ == old(self)@ && r@
                == "501 Malformed MAIL FROM\r\n"@,
    {
        let found = match extract_email(line, "MAIL FROM:") {
            Some(a) => Some(a),
            None => extract_email(line, "mail from:"),
        };
        match found {
            Some(addr) => {
                self.sender = Some(addr);
                self.state = SmtpState::WaitingRcptTo;
                "250 OK\r\n".to_owned()
            },
            None => "501 Malformed MAIL FROM\r\n".to_owned(),
        }
    }

    /// Reads one recipient.
    fn handle_rcpt_to(&mut self, line: &[char]) -> (r: String)
        ensures
            rcpt_to_address(line@) matches Some(a) ==> if domain_allowed(
                old(self)@.allowed_domains,
                a,
            ) {
                final(self)@ == (Session {
                    phase: Phase::Data,
                    recipients: old(self)@.recipients.push(a),
                    ..old(self)@
                }) && r@ == "250 OK\r\n"@
            } else {
                final(self)@ == old(self)@ && r@ == "550 Domain not allowed\r\n"@
            },
            rcpt_to_address(line@) is None ==> final(self)@ == old(self)@ && r@
                == "501 Malformed RCPT TO\r\n"@,
    {
        let found = match extract_email(line, "RCPT TO:") {
            Some(a) => Some(a),
            None => extract_email(line, "rcpt to:"),
        };
        match found {
            Some(addr) => {
                let ac = chars_of(addr.as_str());
                if !self.is_domain_allowed(ac.as_slice()) {
                    return "550 Domain not allowed\r\n".to_owned();
                }
                self.recipients.push(addr);
                self.state = SmtpState::WaitingData;
                assert(self@.recipients =~= old(self)@.recipients.push(ac@));
                "250 OK\r\n".to_owned()
            },
            None => "501 Malformed RCPT TO\r\n".to_owned(),
        }
    }

    /// Reads the `DATA` command (any line does).
    fn handle_data_cmd(&mut self) -> (r: String)
        ensures
            old(self)@.sender is None ==> final(self)@ == old(self)@ && r@
                == "503 Need MAIL FROM\r\n"@,
            old(self)@.sender is Some && old(self)@.recipients.len() == 0 ==> final(self)@ == old(
                self,
            )@ && r@ == "503 Need RCPT TO\r\n"@,
            old(self)@.sender is Some && old(self)@.recipients.len() > 0 ==> final(self)@ == enter(
                old(self)@,
                Phase::Receiving(Seq::empty()),
            ) && r@ == "354 Start mail input; end with <CRLF>.<CRLF>\r\n"@,
    {
        if self.sender.is_none() {
            return "503 Need MAIL FROM\r\n".to_owned();
        }
        if self.recipients.len() == 0 {
            return "503 Need RCPT TO\r\n".to_owned();
        }
        self.state = SmtpState::ReceivingData { collected: Vec::with_capacity(4096) };
        "354 Start mail input; end with <CRLF>.<CRLF>\r\n".to_owned()
    }

    /// Reads one line of message data.
    fn handle_data_line(&mut self, line: &[char], collected: Vec<u8>) -> (r: LineOutcome)
        ensures
            ({
                let (s, o) = step_data(old(self)@, collected@, line@);
                final(self)@ == s && r@ == o
            }),
    {
        let mut collected = collected;
        let dot = chars_of(".");
        if chars_eq(line, dot.as_slice()) {
            self.state = SmtpState::MailTransactionComplete;
            return LineOutcome::Deliver(collected);
        }
        let dots = chars_of("..");
        proof {
            reveal_strlit("..");
        }
        let payload = if crate::text::starts_with(line, dots.as_slice()) {
            sub_chars(line, 1, line.len())
        } else {
            sub_chars(line, 0, line.len())
        };
        proof {
            assert(line@.subrange(1, line@.len() as int) =~= line@.drop_first());
            assert(line@.subrange(0, line@.len() as int) =~= line@);
        }
        let text = string_of(payload.as_slice());
        append_bytes(&mut collected, text.as_str().as_bytes());
        let crlf: [u8; 2] = [0x0D, 0x0A];
        append_bytes(&mut collected, &crlf);
        assert(crlf@ =~= seq![0x0Du8, 0x0Au8]);
        if collected.len() > MAX_EMAIL_SIZE {
            self.state = SmtpState::MailTransactionComplete;
            return LineOutcome::Reply("552 Message size exceeds limit\r\n".to_owned());
        }
        self.state = SmtpState::ReceivingData { collected };
        LineOutcome::Reply(String::new())
    }

    /// Answers one line from the client and moves the dialogue on.
    pub fn process_line(&mut self, line: &str) -> (out: LineOutcome)
        requires
            old(self).wf(),
        ensures
            final(self).wf(),
            (final(self)@, out@) == step(old(self)@, line@),
    {
        let t = trim_str(line);
        let ts = string_of(t.as_slice());
        let upper = to_uppercase(ts.as_str());
        self.answer(ts.as_str(), upper.as_str())
    }

    /// Answers the trimmed line `line`, whose uppercase is `upper`, and
    /// moves the dialogue on.
    pub fn answer(&mut self, line: &str, upper: &str) -> (out: LineOutcome)
        requires
            old(self).wf(),
        ensures
            final(self).wf(),
            (final(self)@, out@) == respond(old(self)@, line@, upper@),
    {
        proof {
            lemma_respond_keeps_session_ok(self@, line@, upper@);
        }
        let t = chars_of(line);
        if str_eq(upper, "QUIT") {
            self.state = SmtpState::MailTransactionComplete;
            return LineOutcome::Reply("221 Bye\r\n".to_owned());
        }
        if str_eq(upper, "RSET") {
            self.reset_transaction();
            return LineOutcome::Reply("250 OK\r\n".to_owned());
        }
        if str_eq(upper, "NOOP") {
            return LineOutcome::Reply("250 OK\r\n".to_owned());
        }
        let mut state = SmtpState::MailTransactionComplete;
        std::mem::swap(&mut state, &mut self.state);
        match state {
            SmtpState::WaitingGreeting => {
                self.state = SmtpState::WaitingGreeting;
                LineOutcome::Reply(self.handle_ehlo(upper))
            },
            SmtpState::WaitingMailFrom => {
                self.state = SmtpState::WaitingMailFrom;
                LineOutcome::Reply(self.handle_mail_from(t.as_slice()))
            },
            SmtpState::WaitingRcptTo => {
                self.state = SmtpState::WaitingRcptTo;
                LineOutcome::Reply(self.handle_rcpt_to(t.as_slice()))
            },
            SmtpState::WaitingData => {
                self.state = SmtpState::WaitingData;
                LineOutcome::Reply(self.handle_data_cmd())
            },
            SmtpState::ReceivingData { collected } => self.handle_data_line(t.as_slice(), collected),
            SmtpState::MailTransactionComplete => {
                LineOutcome::Reply("500 Transaction ended\r\n".to_owned())
            },
        }
    }
}

/// The data phase of `step`: the session and reply after the data line
/// `line` (already trimmed) when `collected` has been received.
pub open spec fn step_data(s: Session, collected: Seq<u8>, line: Seq<char>) -> (Session, Outcome) {
    if line == "."@ {
        (enter(s, Phase::Complete), Outcome::Deliver(collected))
    } else {
        let more = with_data_line(collected, line);
        if more.len() > MAX_EMAIL_SIZE {
            (enter(s, Phase::Complete), Outcome::Reply("552 Message size exceeds limit\r\n"@))
        } else {
            (enter(s, Phase::Receiving(more)), Outcome::Reply(Seq::empty()))
        }
    }
}

/// Every answer of the dialogue keeps a session sound: recipients are only
/// ever added with an allowed domain, the data phase is only entered with a
/// sender and a recipient, and the message data stay within the size limit.
pub proof fn lemma_respond_keeps_session_ok(s: Session, line: Seq<char>, upper: Seq<char>)
    requires
        session_ok(s),
    ensures
        session_ok(respond(s, line, upper).0),
{
    let (t, _) = respond(s, line, upper);
    assert forall|i: int| 0 <= i < t.recipients.len() implies domain_allowed(
        t.allowed_domains,
        #[trigger] t.recipients[i],
    ) by {
        if i < s.recipients.len() {
            assert(s.recipients.len() <= t.recipients.len());
        }
    }
}

/// Every step of the dialogue keeps a session sound.
pub proof fn lemma_step_keeps_session_ok(s: Session, line: Seq<char>)
    requires
        session_ok(s),
    ensures
        session_ok(step(s, line).0),
{
    lemma_respond_keeps_session_ok(s, trim(line), upper_text(trim(line)));
}

// ---------------------------------------------------------------------------
// Laws of the dialogue
// ---------------------------------------------------------------------------

/// `QUIT` ends the transaction from every phase and says goodbye.
pub proof fn law_quit_ends_session(s: Session, line: Seq<char>)
    requires
        upper_text(trim(line)) == "QUIT"@,
    ensures
        step(s, line).0 == enter(s, Phase::Complete),
        step(s, line).1 == Outcome::Reply("221 Bye\r\n"@),
{
}

/// `RSET` abandons the transaction from every phase: the sender and the
/// recipients are forgotten and the next command must be `MAIL FROM`.
pub proof fn law_reset_abandons_transaction(s: Session, line: Seq<char>)
    requires
        upper_text(trim(line)) == "RSET"@,
    ensures
        step(s, line).0.phase is MailFrom,
        step(s, line).0.sender is None,
        step(s, line).0.recipients.len() == 0,
        step(s, line).0.allowed_domains == s.allowed_domains,
        step(s, line).1 == Outcome::Reply("250 OK\r\n"@),
{
    reveal_strlit("QUIT");
    reveal_strlit("RSET");
    assert("RSET"@[0] != "QUIT"@[0]);
}

/// `NOOP` changes nothing.
pub proof fn law_noop_changes_nothing(s: Session, line: Seq<char>)
    requires
        upper_text(trim(line)) == "NOOP"@,
    ensures
        step(s, line).0 == s,
        step(s, line).1 == Outcome::Reply("250 OK\r\n"@),
{
    reveal_strlit("NOOP");
    reveal_strlit("QUIT");
    reveal_strlit("RSET");
    assert("NOOP"@[0] != "QUIT"@[0]);
    assert("NOOP"@[0] != "RSET"@[0]);
}

/// The commands are read in any ASCII case: a line that is `QUIT`, `RSET`
/// or `NOOP` up to ASCII case (and surrounding white space) is answered as
/// that command.
pub proof fn law_commands_in_any_case(s: Session, line: Seq<char>)
    requires
        is_ascii_text(line),
    ensures
        eq_ignore_ascii_case(trim(line), "QUIT"@) ==> step(s, line) == (
            enter(s, Phase::Complete),
            Outcome::Reply("221 Bye\r\n"@),
        ),
        eq_ignore_ascii_case(trim(line), "RSET"@) ==> step(s, line) == (
            reset(s),
            Outcome::Reply("250 OK\r\n"@),
        ),
        eq_ignore_ascii_case(trim(line), "NOOP"@) ==> step(s, line) == (
            s,
            Outcome::Reply("250 OK\r\n"@),
        ),
{
    reveal_strlit("QUIT");
    reveal_strlit("RSET");
    reveal_strlit("NOOP");
    lemma_trim_ascii(line);
    if eq_ignore_ascii_case(trim(line), "QUIT"@) {
        lemma_upper_text_of_word(trim(line), "QUIT"@);
    }
    if eq_ignore_ascii_case(trim(line), "RSET"@) {
        lemma_upper_text_of_word(trim(line), "RSET"@);
        law_reset_abandons_transaction(s, line);
    }
    if eq_ignore_ascii_case(trim(line), "NOOP"@) {
        lemma_upper_text_of_word(trim(line), "NOOP"@);
        law_noop_changes_nothing(s, line);
    }
}

/// Once the transaction is over, every line but `QUIT`, `RSET` and `NOOP`
/// is refused and changes nothing.
pub proof fn law_finished_session_refuses(s: Session, line: Seq<char>)
    requires
        s.phase is Complete,
        upper_text(trim(line)) != "QUIT"@,
        upper_text(trim(line)) != "RSET"@,
        upper_text(trim(line)) != "NOOP"@,
    ensures
        step(s, line).0 == s,
        step(s, line).1 == Outcome::Reply("500 Transaction ended\r\n"@),
{
}

/// A message is handed over for delivery only at the end of the data of a
/// transaction with a sender and at least one recipient; what is delivered
/// is exactly the data collected, never more than the size limit.
pub proof fn law_delivery_needs_transaction(s: Session, line: Seq<char>)
    requires
        session_ok(s),
        step(s, line).1 is Deliver,
    ensures
        s.phase == Phase::Receiving(step(s, line).1->Deliver_0),
        s.sender is Some,
        s.recipients.len() > 0,
        (step(s, line).1->Deliver_0).len() <= MAX_EMAIL_SIZE,
        step(s, line).0.phase is Complete,
        trim(line) == "."@,
{
}

/// Every recipient that the receiver accepts has a domain served here.
pub proof fn law_recipients_are_served(s: Session, line: Seq<char>)
    requires
        session_ok(s),
    ensures
        forall|i: int|
            0 <= i < step(s, line).0.recipients.len() ==> domain_allowed(
                s.allowed_domains,
                #[trigger] step(s, line).0.recipients[i],
            ),
        step(s, line).0.allowed_domains == s.allowed_domains,
{
    lemma_step_keeps_session_ok(s, line);
}

/// Dot transparency: a data line that the client sent with an extra
/// leading dot (because the line itself starts with a dot) is stored as the
/// line itself.
pub proof fn law_dot_stuffed_line_restored(collected: Seq<u8>, line: Seq<char>)
    requires
        has_prefix(line, "."@),
    ensures
        with_data_line(collected, "."@ + line) == collected + vstd::utf8::encode_utf8(line) + seq![
            0x0Du8,
            0x0Au8,
        ],
{
    reveal_strlit(".");
    reveal_strlit("..");
    let stuffed = "."@ + line;
    assert(line[0] == '.') by {
        assert(line.subrange(0, 1)[0] == line[0]);
    }
    assert(stuffed.subrange(0, 2) =~= ".."@);
    assert(stuffed.drop_first() =~= line);
}

} // verus!
