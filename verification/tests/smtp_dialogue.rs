use magic_mail::smtp::parser::ParseError;
use magic_mail::smtp::{
    delivery_reply, greeting, is_quit, ConnectionHandler, DeliveryError, LineOutcome,
    MAX_EMAIL_SIZE,
};

fn handler() -> ConnectionHandler {
    ConnectionHandler::new(vec!["tmpml.net".to_string(), "example.org".to_string()], "mx.tmpml.net".to_string())
}

fn reply(h: &mut ConnectionHandler, line: &str) -> String {
    match h.process_line(line) {
        LineOutcome::Reply(text) => text,
        LineOutcome::Deliver(_) => panic!("unexpected delivery"),
    }
}

fn open_transaction(h: &mut ConnectionHandler) {
    assert_eq!(reply(h, "EHLO client.example\r\n"), "250 mx.tmpml.net Hello\r\n");
    assert_eq!(reply(h, "MAIL FROM:<alice@example.com>\r\n"), "250 OK\r\n");
    assert_eq!(reply(h, "RCPT TO:<bob@tmpml.net>\r\n"), "250 OK\r\n");
    assert_eq!(reply(h, "DATA\r\n"), "354 Start mail input; end with <CRLF>.<CRLF>\r\n");
}

#[test]
fn greeting_names_the_host() {
    assert_eq!(greeting("mx.tmpml.net"), "220 mx.tmpml.net ESMTP TempMail Ready\r\n");
}

#[test]
fn full_transaction_delivers_the_data() {
    let mut h = handler();
    open_transaction(&mut h);
    assert_eq!(reply(&mut h, "Subject: hi\r\n"), "");
    assert_eq!(reply(&mut h, "\r\n"), "");
    assert_eq!(reply(&mut h, "Hello Bob\r\n"), "");
    match h.process_line(".\r\n") {
        LineOutcome::Deliver(data) => {
            assert_eq!(data, b"Subject: hi\r\n\r\nHello Bob\r\n".to_vec());
        }
        LineOutcome::Reply(r) => panic!("expected a delivery, got {:?}", r),
    }
    assert_eq!(h.sender(), Some("alice@example.com".to_string()));
    assert_eq!(h.recipients(), &vec!["bob@tmpml.net".to_string()]);
    assert_eq!(reply(&mut h, "MAIL FROM:<x@y.z>\r\n"), "500 Transaction ended\r\n");
}

#[test]
fn greeting_is_required_first() {
    let mut h = handler();
    assert_eq!(reply(&mut h, "MAIL FROM:<a@b.c>\r\n"), "500 Expected EHLO/HELO\r\n");
    assert_eq!(reply(&mut h, "helo there\r\n"), "250 mx.tmpml.net Hello\r\n");
}

#[test]
fn malformed_sender_is_refused() {
    let mut h = handler();
    reply(&mut h, "EHLO x\r\n");
    assert_eq!(reply(&mut h, "MAIL FROM:<nobody>\r\n"), "501 Malformed MAIL FROM\r\n");
    assert_eq!(reply(&mut h, "Mail From:<a@b.c>\r\n"), "501 Malformed MAIL FROM\r\n");
    assert_eq!(reply(&mut h, "mail from: a@b.c \r\n"), "250 OK\r\n");
    assert_eq!(h.sender(), Some("a@b.c".to_string()));
}

#[test]
fn recipient_domain_must_be_served() {
    let mut h = handler();
    reply(&mut h, "EHLO x\r\n");
    reply(&mut h, "MAIL FROM:<a@b.c>\r\n");
    assert_eq!(reply(&mut h, "RCPT TO:<bob@elsewhere.net>\r\n"), "550 Domain not allowed\r\n");
    assert_eq!(reply(&mut h, "RCPT TO:bob\r\n"), "501 Malformed RCPT TO\r\n");
    assert!(h.recipients().is_empty());
    assert_eq!(reply(&mut h, "rcpt to:<weird@name@example.org>\r\n"), "250 OK\r\n");
    assert_eq!(h.recipients(), &vec!["weird@name@example.org".to_string()]);
}

#[test]
fn quit_ends_the_session_in_any_phase() {
    let mut h = handler();
    assert_eq!(reply(&mut h, "  quit \r\n"), "221 Bye\r\n");
    assert_eq!(reply(&mut h, "EHLO x\r\n"), "500 Transaction ended\r\n");
    let mut h = handler();
    open_transaction(&mut h);
    assert_eq!(reply(&mut h, "QUIT\r\n"), "221 Bye\r\n");
    assert!(is_quit("Quit\r\n"));
    assert!(!is_quit("QUIT now\r\n"));
}

#[test]
fn reset_and_noop() {
    let mut h = handler();
    open_transaction(&mut h);
    assert_eq!(reply(&mut h, "NOOP\r\n"), "250 OK\r\n");
    assert_eq!(reply(&mut h, "some data\r\n"), "");
    assert_eq!(reply(&mut h, "rset\r\n"), "250 OK\r\n");
    assert_eq!(h.sender(), None);
    assert!(h.recipients().is_empty());
    assert_eq!(reply(&mut h, "MAIL FROM:<c@d.e>\r\n"), "250 OK\r\n");
}

#[test]
fn reset_after_completion_allows_a_new_transaction() {
    let mut h = handler();
    open_transaction(&mut h);
    assert!(matches!(h.process_line(".\r\n"), LineOutcome::Deliver(_)));
    assert_eq!(reply(&mut h, "RSET\r\n"), "250 OK\r\n");
    assert_eq!(reply(&mut h, "MAIL FROM:<c@d.e>\r\n"), "250 OK\r\n");
    assert_eq!(reply(&mut h, "RCPT TO:<bob@example.org>\r\n"), "250 OK\r\n");
    assert_eq!(reply(&mut h, "DATA\r\n"), "354 Start mail input; end with <CRLF>.<CRLF>\r\n");
}

#[test]
fn dot_stuffed_lines_are_restored() {
    let mut h = handler();
    open_transaction(&mut h);
    assert_eq!(reply(&mut h, "..hidden\r\n"), "");
    assert_eq!(reply(&mut h, ".visible\r\n"), "");
    match h.process_line(".") {
        LineOutcome::Deliver(data) => assert_eq!(data, b".hidden\r\n.visible\r\n".to_vec()),
        LineOutcome::Reply(r) => panic!("expected a delivery, got {:?}", r),
    }
}

#[test]
fn data_lines_are_trimmed_and_kept_as_utf8() {
    let mut h = handler();
    open_transaction(&mut h);
    assert_eq!(reply(&mut h, "   caf\u{e9}  \r\n"), "");
    match h.process_line(".\r\n") {
        LineOutcome::Deliver(data) => assert_eq!(data, "caf\u{e9}\r\n".as_bytes().to_vec()),
        LineOutcome::Reply(r) => panic!("expected a delivery, got {:?}", r),
    }
}

#[test]
fn oversized_message_is_refused() {
    let mut h = handler();
    open_transaction(&mut h);
    let line = "x".repeat(1000);
    let mut refused = false;
    let mut total = 0usize;
    for _ in 0..2000 {
        let r = reply(&mut h, &line);
        total += 1002;
        if r == "552 Message size exceeds limit\r\n" {
            refused = true;
            break;
        }
        assert_eq!(r, "");
    }
    assert!(refused);
    assert!(total > MAX_EMAIL_SIZE);
    assert!(total - 1002 <= MAX_EMAIL_SIZE);
    assert_eq!(reply(&mut h, ".\r\n"), "500 Transaction ended\r\n");
}

#[test]
fn delivery_replies() {
    assert_eq!(delivery_reply(&Ok(())), "250 OK: Message accepted\r\n");
    assert_eq!(
        delivery_reply(&Err(DeliveryError::Parse(ParseError::Mime))),
        "554 Transaction failed: Failed to parse MIME email\r\n"
    );
    assert_eq!(
        delivery_reply(&Err(DeliveryError::Store)),
        "554 Transaction failed: Failed to insert email\r\n"
    );
}
