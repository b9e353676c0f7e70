use magic_mail::smtp::parser::{
    assemble_email, attachment_from, build_attachment, decode_transfer, extract_bodies,
    extract_bodies_by_kind, get_header, transfer_decode_as, MimePart, ParseError,
};
use magic_mail::smtp::ConnectionHandler;
use magic_mail::smtp::LineOutcome;

fn pairs(list: &[(&str, &str)]) -> Vec<(String, String)> {
    list.iter().map(|(k, v)| (k.to_string(), v.to_string())).collect()
}

fn part(mimetype: &str, headers: &[(&str, &str)], body: Option<&str>, raw: Option<&[u8]>, subparts: usize) -> MimePart {
    MimePart {
        headers: pairs(headers),
        mimetype: mimetype.to_string(),
        params: Vec::new(),
        body: body.map(|b| b.to_string()),
        body_raw: raw.map(|r| r.to_vec()),
        subpart_count: subparts,
    }
}

#[test]
fn header_lookup_takes_the_first_match() {
    let p = part("text/plain", &[("X-A", "1"), ("subject", "first"), ("Subject", "second")], None, None, 0);
    assert_eq!(get_header(&p, "SUBJECT"), Some("first".to_string()));
    assert_eq!(get_header(&p, "x-a"), Some("1".to_string()));
    assert_eq!(get_header(&p, "X-B"), None);
}

#[test]
fn transfer_decoding_by_name() {
    assert_eq!(transfer_decode_as("base64", b"aGk=\r\n"), b"hi".to_vec());
    assert_eq!(transfer_decode_as("base64", b"not base64!"), b"not base64!".to_vec());
    assert_eq!(transfer_decode_as("quoted-printable", b"a=3Db=\r\nc"), b"a=bc".to_vec());
    assert_eq!(transfer_decode_as("7bit", b"a=3Db"), b"a=3Db".to_vec());
    assert_eq!(transfer_decode_as("BASE64", b"aGk="), b"aGk=".to_vec());
}

#[test]
fn transfer_decoding_reads_the_header() {
    let p = part("image/png", &[("Content-Transfer-Encoding", "  Base64 ")], None, None, 0);
    assert_eq!(decode_transfer(&p, b"aGk="), b"hi".to_vec());
    let q = part("image/png", &[], None, None, 0);
    assert_eq!(decode_transfer(&q, b"aGk="), b"aGk=".to_vec());
}

#[test]
fn attachments_from_parts() {
    let mut p = part("image/png", &[("Content-ID", " <img1> ")], None, Some(b"DATA"), 0);
    p.params = pairs(&[("name", "pic.png")]);
    let a = attachment_from(&p, "", None).unwrap();
    assert_eq!(a.cid.as_deref(), Some("img1"));
    assert_eq!(a.filename.as_deref(), Some("pic.png"));
    assert_eq!(a.data, b"DATA".to_vec());
    assert!(a.inline);

    let q = part("application/pdf", &[], None, Some(b"PDF"), 0);
    let b = attachment_from(&q, "", Some("inline; filename=x".to_string())).unwrap();
    assert!(b.inline);
    assert_eq!(b.cid, None);
    let c = attachment_from(&q, "", Some("attachment".to_string())).unwrap();
    assert!(!c.inline);

    let empty = part("application/pdf", &[], None, Some(b""), 0);
    assert!(attachment_from(&empty, "", None).is_none());
    let undecoded = part("application/pdf", &[], None, None, 0);
    assert!(attachment_from(&undecoded, "", None).is_none());

    let r = part("image/gif", &[("Content-Disposition", "INLINE")], None, Some(b"G"), 0);
    assert!(build_attachment(&r).unwrap().inline);
}

#[test]
fn walk_skips_below_leaves_and_stops_after_the_message() {
    let parts = vec![
        part("multipart/mixed", &[], None, None, 3),
        part("text/plain", &[], Some("hello"), None, 1),
        part("text/html", &[], Some("<b>hidden child</b>"), None, 0),
        part("multipart/alternative", &[], None, None, 1),
        part("text/html", &[], Some("<p>shown</p>"), None, 0),
        part("image/png", &[], None, Some(b"PNG"), 0),
        part("text/plain", &[], Some("after the message"), None, 0),
    ];
    let (text, html, atts) = extract_bodies(&parts);
    assert_eq!(text.as_deref(), Some("hello"));
    assert_eq!(html.as_deref(), Some("<p>shown</p>"));
    assert_eq!(atts.len(), 1);
    assert_eq!(atts[0].data, b"PNG".to_vec());
}

#[test]
fn walk_by_given_kinds() {
    let parts = vec![
        part("Multipart/Mixed", &[], None, None, 2),
        part("TEXT/PLAIN", &[], None, None, 0),
        part("Text/Plain", &[], Some("second"), None, 0),
    ];
    let kinds: Vec<String> = ["multipart/mixed", "text/plain", "text/plain"].iter().map(|s| s.to_string()).collect();
    let (text, html, atts) = extract_bodies_by_kind(&parts, &kinds);
    assert_eq!(text.as_deref(), Some("second"));
    assert_eq!(html, None);
    assert!(atts.is_empty());
    assert_eq!(extract_bodies(&parts).0.as_deref(), Some("second"));
}

#[test]
fn assemble_from_parts() {
    let parts = vec![part(
        "text/html",
        &[("Subject", "S"), ("To", "t@x")],
        Some("<img src=cid:a>"),
        None,
        0,
    )];
    let pe = assemble_email(&parts, "RAW".to_string(), "env@x", &[]);
    assert_eq!(pe.email.subject, "S");
    assert_eq!(pe.email.from_addr, "env@x");
    assert_eq!(pe.email.to_address, "t@x");
    assert_eq!(pe.email.body_html.as_deref(), Some("<img src=cid:a>"));
    assert_eq!(pe.email.raw.as_deref(), Some("RAW"));
    assert_eq!(ParseError::Mime.message(), "Failed to parse MIME email");
}

#[test]
fn answer_uses_the_given_uppercase() {
    let mut h = ConnectionHandler::new(vec!["x.org".to_string()], "mx".to_string());
    match h.answer("whatever", "QUIT") {
        LineOutcome::Reply(r) => assert_eq!(r, "221 Bye\r\n"),
        LineOutcome::Deliver(_) => panic!("unexpected delivery"),
    }
    let mut h = ConnectionHandler::new(vec!["x.org".to_string()], "mx".to_string());
    match h.answer("hello", "EHLO") {
        LineOutcome::Reply(r) => assert_eq!(r, "250 mx Hello\r\n"),
        LineOutcome::Deliver(_) => panic!("unexpected delivery"),
    }
}
