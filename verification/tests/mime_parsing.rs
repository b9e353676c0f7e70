use magic_mail::models::{Attachment, Email};
use magic_mail::smtp::parser::{parse_email, rewrite_cid_links, strip_angles};

fn recipients(list: &[&str]) -> Vec<String> {
    list.iter().map(|s| s.to_string()).collect()
}

#[test]
fn simple_message_headers_and_body() {
    let raw = b"Subject: Hello\r\nFrom: Alice <alice@example.com>\r\nTo: bob@tmpml.net\r\n\r\nJust text.\r\n";
    let parsed = parse_email(raw, "envelope@example.com", &recipients(&["bob@tmpml.net"])).unwrap();
    let e = &parsed.email;
    assert_eq!(e.subject, "Hello");
    assert_eq!(e.from_addr, "Alice <alice@example.com>");
    assert_eq!(e.to_address, "bob@tmpml.net");
    assert_eq!(e.body_text.as_deref(), Some("Just text.\r\n"));
    assert_eq!(e.body_html, None);
    assert_eq!(e.raw.as_deref(), Some(std::str::from_utf8(raw).unwrap()));
    assert!(!e.is_read);
    assert_eq!(e.id.len(), 36);
    assert!(parsed.attachments.is_empty());
}

#[test]
fn envelope_fills_missing_headers() {
    let raw = b"\r\nbody only\r\n";
    let parsed = parse_email(raw, "sender@example.com", &recipients(&[])).unwrap();
    assert_eq!(parsed.email.subject, "");
    assert_eq!(parsed.email.from_addr, "sender@example.com");
    assert_eq!(parsed.email.to_address, "");
    let raw = b"To: header@tmpml.net\r\n\r\nbody\r\n";
    let parsed = parse_email(raw, "s@e.com", &recipients(&[])).unwrap();
    assert_eq!(parsed.email.to_address, "header@tmpml.net");
}

#[test]
fn first_envelope_recipient_wins_over_to_header() {
    let raw = b"To: header@tmpml.net\r\n\r\nbody\r\n";
    let parsed = parse_email(raw, "s@e.com", &recipients(&["first@tmpml.net", "second@tmpml.net"])).unwrap();
    assert_eq!(parsed.email.to_address, "first@tmpml.net");
}

#[test]
fn header_names_ignore_case() {
    let raw = b"SUBJECT: loud\r\nfrom: quiet@example.com\r\n\r\nx\r\n";
    let parsed = parse_email(raw, "s@e.com", &recipients(&["r@tmpml.net"])).unwrap();
    assert_eq!(parsed.email.subject, "loud");
    assert_eq!(parsed.email.from_addr, "quiet@example.com");
}

#[test]
fn multipart_alternative_gives_both_bodies() {
    let raw = [
        "Subject: This is a test email\n",
        "Content-Type: multipart/alternative; boundary=foobar\n",
        "\n",
        "--foobar\n",
        "Content-Type: text/plain; charset=utf-8\n",
        "Content-Transfer-Encoding: quoted-printable\n",
        "\n",
        "This is the plaintext version, in utf-8. Proof by Euro: =E2=82=AC\n",
        "--foobar\n",
        "Content-Type: text/html\n",
        "Content-Transfer-Encoding: base64\n",
        "\n",
        "PGh0bWw+PGJvZHk+VGhpcyBpcyB0aGUgPGI+SFRNTDwvYj4gdmVyc2lvbiwgaW4g \n",
        "dXMtYXNjaWkuIFByb29mIGJ5IEV1cm86ICZldXJvOzwvYm9keT48L2h0bWw+Cg== \n",
        "--foobar--\n",
    ]
    .concat();
    let parsed = parse_email(raw.as_bytes(), "s@e.com", &recipients(&["r@tmpml.net"])).unwrap();
    assert_eq!(
        parsed.email.body_text.as_deref(),
        Some("This is the plaintext version, in utf-8. Proof by Euro: \u{20AC}\r\n")
    );
    assert!(parsed.email.body_html.as_deref().unwrap().starts_with("<html><body>This is the <b>HTML</b>"));
    assert_eq!(parsed.email.subject, "This is a test email");
}

#[test]
fn only_the_first_text_part_is_kept() {
    let raw = [
        "Content-Type: multipart/mixed; boundary=b\n",
        "\n",
        "--b\n",
        "Content-Type: text/plain\n",
        "\n",
        "first\n",
        "--b\n",
        "Content-Type: text/plain\n",
        "\n",
        "second\n",
        "--b--\n",
    ]
    .concat();
    let parsed = parse_email(raw.as_bytes(), "s@e.com", &recipients(&["r@tmpml.net"])).unwrap();
    assert_eq!(parsed.email.body_text.as_deref(), Some("first\n"));
}

#[test]
fn inline_image_becomes_attachment_and_link() {
    let raw = [
        "Content-Type: multipart/related; boundary=rel\n",
        "\n",
        "--rel\n",
        "Content-Type: text/html\n",
        "\n",
        "<img src=\"cid:logo@x\"><img src='cid:'logo@x''>\n",
        "--rel\n",
        "Content-Type: image/png; name=\"logo.png\"\n",
        "Content-ID: <logo@x>\n",
        "\n",
        "PNGDATA\n",
        "--rel\n",
        "Content-Type: application/pdf\n",
        "Content-Disposition: attachment; filename=doc.pdf\n",
        "\n",
        "PDF\n",
        "--rel--\n",
    ]
    .concat();
    let parsed = parse_email(raw.as_bytes(), "s@e.com", &recipients(&["r@tmpml.net"])).unwrap();
    assert_eq!(parsed.attachments.len(), 2);
    let img = &parsed.attachments[0];
    assert_eq!(img.cid.as_deref(), Some("logo@x"));
    assert_eq!(img.content_type, "image/png");
    assert_eq!(img.filename.as_deref(), Some("logo.png"));
    assert_eq!(img.data, b"PNGDATA\n".to_vec());
    assert!(img.inline);
    assert_eq!(img.email_id, "");
    let pdf = &parsed.attachments[1];
    assert_eq!(pdf.cid, None);
    assert!(!pdf.inline);
    assert_eq!(pdf.filename, None);
    let link = format!("/api/attachments/{}/logo@x", parsed.email.id);
    let html = parsed.email.body_html.clone().unwrap();
    assert_eq!(html, format!("<img src=\"{}\"><img src='{}'>\n", link, link));
}

#[test]
fn undecodable_text_body_is_absent() {
    let raw = b"Content-Type: text/plain\r\nContent-Transfer-Encoding: base64\r\n\r\n!!!notbase64\r\n";
    let parsed = parse_email(raw, "s@e.com", &recipients(&["r@tmpml.net"])).unwrap();
    assert_eq!(parsed.email.body_text, None);
}

#[test]
fn invalid_utf8_is_replaced_in_raw() {
    let raw = b"Subject: x\r\n\r\nbad \xff byte\r\n";
    let parsed = parse_email(raw, "s@e.com", &recipients(&["r@tmpml.net"])).unwrap();
    assert_eq!(parsed.email.raw.as_deref(), Some("Subject: x\r\n\r\nbad \u{FFFD} byte\r\n"));
}

#[test]
fn strip_angles_cases() {
    assert_eq!(strip_angles("  <abc@x>  "), "abc@x");
    assert_eq!(strip_angles("<>"), "");
    assert_eq!(strip_angles("<"), "<");
    assert_eq!(strip_angles("plain"), "plain");
    assert_eq!(strip_angles("<<nested>>"), "<nested>");
}

fn email_with_html(html: Option<&str>) -> Email {
    Email {
        id: "id-1".to_string(),
        to_address: "r@tmpml.net".to_string(),
        from_addr: "s@e.com".to_string(),
        subject: "sub".to_string(),
        body_text: Some("text".to_string()),
        body_html: html.map(|h| h.to_string()),
        raw: None,
        received_at: 7,
        is_read: false,
    }
}

fn attachment_with_cid(cid: Option<&str>) -> Attachment {
    Attachment::new(cid.map(|c| c.to_string()), "image/png".to_string(), None, vec![1, 2], true)
}

#[test]
fn rewrite_cid_links_replaces_all_three_quotings() {
    let mut e = email_with_html(Some("a cid:img1 b cid:'img1' c cid:\"img1\" d cid:other"));
    rewrite_cid_links(&mut e, &[attachment_with_cid(Some("img1")), attachment_with_cid(None)]);
    assert_eq!(
        e.body_html.as_deref(),
        Some("a /api/attachments/id-1/img1 b /api/attachments/id-1/img1 c /api/attachments/id-1/img1 d cid:other")
    );
    assert_eq!(e.body_text.as_deref(), Some("text"));
    assert_eq!(e.received_at, 7);
}

#[test]
fn rewrite_cid_links_without_html_changes_nothing() {
    let mut e = email_with_html(None);
    let before = e.clone();
    rewrite_cid_links(&mut e, &[attachment_with_cid(Some("img1"))]);
    assert_eq!(e, before);
}

#[test]
fn html_without_cid_references_is_unchanged() {
    let mut e = email_with_html(Some("<p>no references here</p>"));
    rewrite_cid_links(&mut e, &[attachment_with_cid(Some("img1")), attachment_with_cid(Some("x"))]);
    assert_eq!(e.body_html.as_deref(), Some("<p>no references here</p>"));
}
