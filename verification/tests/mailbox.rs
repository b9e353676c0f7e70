use magic_mail::api::address::{
    choose_domain, generate_address, random_local_part, AddressError, GenerateRequest,
    LOCAL_PART_LENGTH,
};
use magic_mail::api::emails::{ClearResponse, DeleteResponse};
use magic_mail::api::sse::{initial_events, normalize_address, SseQuery};
use magic_mail::api::HTTP_PORT_DEFAULT;
use magic_mail::models::{Address, Attachment, Email, EmailEvent};
use magic_mail::smtp::{ConnectionHandler, LineOutcome};
use magic_mail::tasks::cleanup::{CleanupTask, CLEANUP_BATCH_SIZE, CLEANUP_INTERVAL_SECS};

fn domains() -> Vec<String> {
    vec!["tmpml.net".to_string(), "od3n.online".to_string()]
}

#[test]
fn requested_served_domain_is_used() {
    let a = generate_address(Some(GenerateRequest { domain: Some("od3n.online".to_string()) }), &domains(), 10)
        .unwrap();
    assert_eq!(a.domain, "od3n.online");
    let (local, domain) = a.address.split_once('@').unwrap();
    assert_eq!(domain, "od3n.online");
    assert_eq!(local.len(), LOCAL_PART_LENGTH);
    assert!(local.chars().all(|c| c.is_ascii_lowercase()));
    assert_eq!(a.expires_at - a.created_at, 600);
    assert_eq!(a.id.len(), 36);
}

#[test]
fn requested_unknown_domain_is_refused() {
    let r = generate_address(Some(GenerateRequest { domain: Some("evil.com".to_string()) }), &domains(), 10);
    assert_eq!(r, Err(AddressError::DomainNotAllowed("evil.com".to_string())));
    assert_eq!(r.unwrap_err().message(), "Domain 'evil.com' not allowed");
}

#[test]
fn random_domain_is_a_served_one() {
    for request in [None, Some(GenerateRequest { domain: None })] {
        let a = generate_address(request, &domains(), 5).unwrap();
        assert!(domains().contains(&a.domain));
        assert!(a.address.ends_with(&format!("@{}", a.domain)));
        assert_eq!(a.expires_at - a.created_at, 300);
    }
}

#[test]
fn choose_domain_uses_the_pick() {
    assert_eq!(choose_domain(None, &domains(), 1), Ok("od3n.online".to_string()));
    assert_eq!(choose_domain(Some("tmpml.net".to_string()), &domains(), 0), Ok("tmpml.net".to_string()));
    assert_eq!(
        choose_domain(Some("TMPML.NET".to_string()), &domains(), 0),
        Err(AddressError::DomainNotAllowed("TMPML.NET".to_string()))
    );
}

#[test]
fn local_parts_are_lowercase_letters() {
    let l = random_local_part();
    assert_eq!(l.len(), 10);
    assert!(l.bytes().all(|b| (b'a'..=b'z').contains(&b)));
}

#[test]
fn generated_address_is_accepted_by_the_receiver() {
    let a = generate_address(None, &domains(), 10).unwrap();
    let mut h = ConnectionHandler::new(domains(), "mx".to_string());
    for line in ["EHLO x", "MAIL FROM:<s@e.com>"] {
        assert!(matches!(h.process_line(line), LineOutcome::Reply(_)));
    }
    match h.process_line(&format!("RCPT TO:<{}>", a.address)) {
        LineOutcome::Reply(r) => assert_eq!(r, "250 OK\r\n"),
        LineOutcome::Deliver(_) => panic!("unexpected delivery"),
    }
    assert_eq!(h.recipients(), &vec![a.address.clone()]);
}

#[test]
fn address_new_sets_lifetime() {
    let a = Address::new("x@tmpml.net".to_string(), "tmpml.net".to_string(), 10);
    assert_eq!(a.address, "x@tmpml.net");
    assert_eq!(a.domain, "tmpml.net");
    assert_eq!(a.expires_at, a.created_at + 600);
    let b = Address::new("y@tmpml.net".to_string(), "tmpml.net".to_string(), -1);
    assert_eq!(b.expires_at, b.created_at - 60);
    assert_ne!(a.id, b.id);
}

#[test]
fn address_new_wraps_an_overlong_lifetime() {
    let a = Address::new("x@tmpml.net".to_string(), "tmpml.net".to_string(), i64::MAX);
    assert!(a.created_at >= 0);
    assert_eq!(a.expires_at, a.created_at.wrapping_add(i64::MAX.wrapping_mul(60)));
}

#[test]
fn generate_address_without_request_always_succeeds() {
    for ttl in [0, 10, -5, i64::MAX, i64::MIN] {
        let a = generate_address(None, &domains(), ttl).unwrap();
        assert!(domains().contains(&a.domain));
        assert_eq!(a.address.len(), 11 + a.domain.len());
        assert_eq!(a.expires_at, a.created_at.wrapping_add(ttl.wrapping_mul(60)));
    }
}

fn email(id: &str, to: &str, received_at: i64) -> Email {
    let mut e = Email::new(
        to.to_string(),
        "s@e.com".to_string(),
        format!("subject {}", id),
        None,
        None,
        None,
    );
    e.id = id.to_string();
    e.received_at = received_at;
    e
}

#[test]
fn email_new_is_unread_with_given_fields() {
    let e = Email::new(
        "r@tmpml.net".to_string(),
        "s@e.com".to_string(),
        "hi".to_string(),
        Some("t".to_string()),
        Some("<p>h</p>".to_string()),
        Some("raw".to_string()),
    );
    assert_eq!(e.to_address, "r@tmpml.net");
    assert_eq!(e.from_addr, "s@e.com");
    assert_eq!(e.subject, "hi");
    assert_eq!(e.body_text.as_deref(), Some("t"));
    assert_eq!(e.body_html.as_deref(), Some("<p>h</p>"));
    assert_eq!(e.raw.as_deref(), Some("raw"));
    assert!(!e.is_read);
    assert!(e.received_at > 1_600_000_000);
}

#[test]
fn event_copies_the_email() {
    let e = email("e1", "r@tmpml.net", 5);
    let ev = EmailEvent::from_email(&e);
    assert_eq!(
        ev,
        EmailEvent {
            to_address: "r@tmpml.net".to_string(),
            email_id: "e1".to_string(),
            subject: "subject e1".to_string(),
            from_addr: "s@e.com".to_string(),
        }
    );
    assert!(ev.is_for("r@tmpml.net"));
    assert!(!ev.is_for("R@tmpml.net"));
}

#[test]
fn initial_events_skip_seen_messages() {
    let emails = vec![email("a", "r@x", 30), email("b", "r@x", 20), email("c", "r@x", 10)];
    let all = initial_events(&emails, None);
    assert_eq!(all.iter().map(|e| e.email_id.as_str()).collect::<Vec<_>>(), vec!["a", "b", "c"]);
    let newer = initial_events(&emails, Some(15));
    assert_eq!(newer.iter().map(|e| e.email_id.as_str()).collect::<Vec<_>>(), vec!["a", "b"]);
    let none = initial_events(&emails, Some(30));
    assert!(none.is_empty());
    let q = SseQuery { last_event_id: Some(3) };
    assert_eq!(q.last_event_id, Some(3));
}

#[test]
fn normalize_address_trims_and_lowercases() {
    assert_eq!(normalize_address("  Bob@TMPML.net \n"), "bob@tmpml.net");
    assert_eq!(normalize_address("\u{a0}ÄBC@x"), "äbc@x");
}

#[test]
fn attachment_new_is_unattached() {
    let a = Attachment::new(Some("c".to_string()), "image/gif".to_string(), Some("f.gif".to_string()), vec![9], false);
    assert_eq!(a.email_id, "");
    assert_eq!(a.cid.as_deref(), Some("c"));
    assert_eq!(a.content_type, "image/gif");
    assert_eq!(a.filename.as_deref(), Some("f.gif"));
    assert_eq!(a.data, vec![9]);
    assert!(!a.inline);
    assert_eq!(a.id.len(), 36);
}

#[test]
fn cleanup_task_defaults() {
    let t = CleanupTask::new("store");
    assert_eq!(*t.db(), "store");
    assert_eq!(t.interval_secs(), CLEANUP_INTERVAL_SECS);
    assert_eq!(t.interval_secs(), 60);
    assert_eq!(t.batch_size(), CLEANUP_BATCH_SIZE);
    assert_eq!(t.batch_size(), 100);
}

#[test]
fn response_records() {
    assert!(DeleteResponse { deleted: true }.deleted);
    assert_eq!(ClearResponse { deleted_count: 4 }.deleted_count, 4);
    assert_eq!(HTTP_PORT_DEFAULT, 3001);
}

#[test]
fn mailbox_address_joins_local_and_domain() {
    let a = magic_mail::api::address::mailbox_address("abc", "tmpml.net".to_string(), 2);
    assert_eq!(a.address, "abc@tmpml.net");
    assert_eq!(a.domain, "tmpml.net");
    assert_eq!(a.expires_at - a.created_at, 120);
}

fn is_uuid_v4_text(s: &str) -> bool {
    let b = s.as_bytes();
    b.len() == 36
        && b.iter().enumerate().all(|(i, c)| {
            if [8, 13, 18, 23].contains(&i) {
                *c == b'-'
            } else {
                c.is_ascii_digit() || (b'a'..=b'f').contains(c)
            }
        })
        && b[14] == b'4'
        && [b'8', b'9', b'a', b'b'].contains(&b[19])
}

#[test]
fn identifiers_are_uuid_v4_text() {
    let a = Address::new("x@tmpml.net".to_string(), "tmpml.net".to_string(), 10);
    let e = Email::new("x@tmpml.net".to_string(), "s@e.com".to_string(), "s".to_string(), None, None, None);
    let t = Attachment::new(None, "image/png".to_string(), None, vec![], false);
    let g = generate_address(None, &domains(), 10).unwrap();
    for id in [&a.id, &e.id, &t.id, &g.id] {
        assert!(is_uuid_v4_text(id), "{}", id);
    }
}

#[test]
fn normalize_address_is_idempotent_on_ascii() {
    for addr in ["  Bob@TMPML.net \n", "x@y", "", " \t ", "MiXeD.Case+tag@Example.ORG"] {
        let once = normalize_address(addr);
        assert_eq!(normalize_address(&once), once);
    }
}
