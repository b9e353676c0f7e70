//! Reading a delivered message: its MIME parts, headers, text and HTML
//! bodies, and attachments.
use vstd::prelude::*;

use crate::models::{is_uuid_v4_text, opt_view, Attachment, Email};
use crate::smtp::transfer::{b64_decode, base64_decode, copy_bytes, decode_quoted_printable, qp_decode};
use crate::text::{
    chars_of, concat_chars, contains_chars, eq_ignore_ascii_case, eq_ignore_case,
    from_utf8_lossy, has_infix, has_prefix, is_white_space, is_whitespace, lower_text,
    lemma_infix_extends, lemma_replace_absent, replace_all, replace_chars, str_eq, str_starts_with, string_of, sub_chars, to_lowercase, trim,
    trim_str, utf8_lossy, lemma_trim_idempotent, occurs_at,
};

verus! {

#[verifier::external_type_specification]
#[verifier::external_body]
pub struct ExMailParseError(mailparse::MailParseError);

/// One MIME part of a message, as the MIME parser reads it.
pub struct MimePart {
    /// Header names and values, in order.
    pub headers: Vec<(String, String)>,
    /// The content type, such as `text/plain`.
    pub mimetype: String,
    /// The parameters of the content type, by name.
    pub params: Vec<(String, String)>,
    /// The body with transfer and charset encodings undone, if it decodes.
    pub body: Option<String>,
    /// The body with the transfer encoding undone, if it decodes.
    pub body_raw: Option<Vec<u8>>,
    /// How many direct subparts the part has.
    pub subpart_count: usize,
}

/// What a `MimePart` holds, as plain values.
pub struct PartView {
    pub headers: Seq<(Seq<char>, Seq<char>)>,
    pub mimetype: Seq<char>,
    pub params: Seq<(Seq<char>, Seq<char>)>,
    pub body: Option<Seq<char>>,
    pub body_raw: Option<Seq<u8>>,
    pub subpart_count: usize,
}

/// The text of a list of name/value pairs.
pub open spec fn pairs_view(v: Seq<(String, String)>) -> Seq<(Seq<char>, Seq<char>)> {
    v.map_values(|h: (String, String)| (h.0@, h.1@))
}

/// The bytes of an optional byte vector.
pub open spec fn opt_bytes(b: Option<Vec<u8>>) -> Option<Seq<u8>> {
    match b {
        Some(v) => Some(v@),
        None => None,
    }
}

impl View for MimePart {
    type V = PartView;

    open spec fn view(&self) -> PartView {
        PartView {
            headers: pairs_view(self.headers@),
            mimetype: self.mimetype@,
            params: pairs_view(self.params@),
            body: opt_view(self.body),
            body_raw: opt_bytes(self.body_raw),
            subpart_count: self.subpart_count,
        }
    }
}

/// The views of a list of parts.
pub open spec fn parts_view(ps: Seq<MimePart>) -> Seq<PartView> {
    ps.map_values(|p: MimePart| p@)
}

/// A name for what `mailparse::parse_mail` reads from `raw`: the message's
/// parts, depth-first in pre-order, or `None` where it fails.
pub uninterp spec fn mail_parts(raw: Seq<u8>) -> Option<Seq<PartView>>;

/// `mailparse::parse_mail`, with the parts listed by `ParsedMail::parts`
/// (depth-first, pre-order, the message itself first), each turned into a
/// `MimePart` through `MailHeader::get_key`, `MailHeader::get_value`,
/// `ParsedMail::get_body` and `ParsedMail::get_body_raw`. The result is
/// named by `mail_parts`; the documentation of `parts` promises that the
/// message itself comes first, so a parsed message has at least one part.
#[verifier::external_body]
fn parse_mime(raw: &[u8]) -> (res: Result<Vec<MimePart>, mailparse::MailParseError>)
    ensures
        res is Ok <==> mail_parts(raw@) is Some,
        res matches Ok(ps) ==> parts_view(ps@) == mail_parts(raw@)->Some_0 && ps@.len() >= 1,
{
    mailparse::parse_mail(raw).map(
        |m| {
            m.parts().map(
                |p| MimePart {
                    headers: p.headers.iter().map(|h| (h.get_key(), h.get_value())).collect(),
                    mimetype: p.ctype.mimetype.clone(),
                    params: p.ctype.params.iter().map(|(k, v)| (k.clone(), v.clone())).collect(),
                    body: p.get_body().ok(),
                    body_raw: p.get_body_raw().ok(),
                    subpart_count: p.subparts.len(),
                },
            ).collect()
        },
    )
}

/// Why a message could not be read.
#[derive(Debug, Clone, Copy, PartialEq, Eq)]
pub enum ParseError {
    /// The MIME structure could not be parsed.
    Mime,
}

impl ParseError {
    /// The description of the error.
    pub fn message(&self) -> (m: String)
        ensures
            m@ == "Failed to parse MIME email"@,
    {
        "Failed to parse MIME email".to_owned()
    }
}

/// A message ready to be stored, with its attachments.
pub struct ParsedEmail {
    pub email: Email,
    pub attachments: Vec<Attachment>,
}

// ---------------------------------------------------------------------------
// Headers
// ---------------------------------------------------------------------------

/// The value of the first pair whose name matches `name`, ignoring ASCII case.
pub open spec fn first_value(pairs: Seq<(Seq<char>, Seq<char>)>, name: Seq<char>) -> Option<
    Seq<char>,
>
    decreases pairs.len(),
{
    if pairs.len() == 0 {
        None
    } else if eq_ignore_ascii_case(pairs[0].0, name) {
        Some(pairs[0].1)
    } else {
        first_value(pairs.drop_first(), name)
    }
}

/// The value of the first pair named `name` (ASCII case ignored).
fn lookup(pairs: &Vec<(String, String)>, name: &str) -> (r: Option<String>)
    ensures
        opt_view(r) == first_value(pairs_view(pairs@), name@),
{
    let ghost pv = pairs_view(pairs@);
    let nc = chars_of(name);
    let mut i: usize = 0;
    assert(pv.skip(0) =~= pv);
    while i < pairs.len()
        invariant
            pv == pairs_view(pairs@),
            nc@ == name@,
            i <= pairs@.len(),
            first_value(pv, name@) == first_value(pv.skip(i as int), name@),
        decreases pairs.len() - i,
    {
        assert(pv.skip(i as int).drop_first() =~= pv.skip(i + 1));
        let kc = chars_of(pairs[i].0.as_str());
        if eq_ignore_case(kc.as_slice(), nc.as_slice()) {
            return Some(pairs[i].1.clone());
        }
        i += 1;
    }
    None
}

/// The value of the first header of `part` named `name` (ASCII case ignored).
pub fn get_header(part: &MimePart, name: &str) -> (r: Option<String>)
    ensures
        opt_view(r) == first_value(part@.headers, name@),
{
    lookup(&part.headers, name)
}

// ---------------------------------------------------------------------------
// Transfer decoding and attachments
// ---------------------------------------------------------------------------

/// `s` without its white-space characters.
pub open spec fn without_spaces(s: Seq<char>) -> Seq<char> {
    s.filter(|c: char| !is_white_space(c))
}

/// The name of the part's transfer encoding, trimmed and lowercased (empty
/// when the header is absent).
pub open spec fn transfer_encoding(p: PartView) -> Seq<char> {
    match first_value(p.headers, "Content-Transfer-Encoding"@) {
        Some(v) => lower_text(trim(v)),
        None => Seq::<char>::empty(),
    }
}

/// `body` decoded once more by the transfer encoding named `te`: base64
/// (white space removed) when it decodes, else the body unchanged;
/// quoted-printable; any other name leaves the body as it is.
pub open spec fn transfer_decoded_as(te: Seq<char>, body: Seq<u8>) -> Seq<u8> {
    if te == "base64"@ {
        match b64_decode(vstd::utf8::encode_utf8(without_spaces(utf8_lossy(body)))) {
            Some(d) => d,
            None => body,
        }
    } else if te == "quoted-printable"@ {
        qp_decode(vstd::utf8::encode_utf8(utf8_lossy(body)))
    } else {
        body
    }
}

/// `body` decoded once more by the part's declared transfer encoding.
pub open spec fn transfer_decoded(p: PartView, body: Seq<u8>) -> Seq<u8> {
    transfer_decoded_as(transfer_encoding(p), body)
}

/// The characters of `s` other than white space.
fn strip_spaces(s: &str) -> (r: String)
    ensures
        r@ == without_spaces(s@),
{
    let cs = chars_of(s);
    let mut out: Vec<char> = Vec::new();
    let mut i: usize = 0;
    assert(cs@.take(0) =~= Seq::<char>::empty());
    while i < cs.len()
        invariant
            cs@ == s@,
            i <= cs@.len(),
            out@ == without_spaces(cs@.take(i as int)),
        decreases cs.len() - i,
    {
        let c = cs[i];
        proof {
            assert(cs@.take(i + 1) =~= cs@.take(i as int).push(c));
            cs@.take(i as int).lemma_filter_push(c, |c: char| !is_white_space(c));
        }
        if !is_whitespace(c) {
            out.push(c);
        }
        i += 1;
    }
    assert(cs@.take(cs@.len() as int) =~= cs@);
    string_of(out.as_slice())
}

/// The name of the part's transfer encoding, trimmed and lowercased.
fn transfer_encoding_of(part: &MimePart) -> (te: String)
    ensures
        te@ == transfer_encoding(part@),
{
    match get_header(part, "Content-Transfer-Encoding") {
        Some(v) => {
            let t = trim_str(v.as_str());
            let ts = string_of(t.as_slice());
            to_lowercase(ts.as_str())
        },
        None => String::new(),
    }
}

/// `body` decoded by the transfer encoding named `te` (already trimmed and
/// lowercased).
pub fn transfer_decode_as(te: &str, body: &[u8]) -> (out: Vec<u8>)
    ensures
        out@ == transfer_decoded_as(te@, body@),
{
    if str_eq(te, "base64") {
        let s = from_utf8_lossy(body);
        let cleaned = strip_spaces(s.as_str());
        match base64_decode(cleaned.as_str()) {
            Some(d) => d,
            None => copy_bytes(body),
        }
    } else if str_eq(te, "quoted-printable") {
        let s = from_utf8_lossy(body);
        decode_quoted_printable(s.as_str())
    } else {
        copy_bytes(body)
    }
}

/// `body` decoded by the part's declared transfer encoding.
pub fn decode_transfer(part: &MimePart, body: &[u8]) -> (out: Vec<u8>)
    ensures
        out@ == transfer_decoded(part@, body@),
{
    let te = transfer_encoding_of(part);
    transfer_decode_as(te.as_str(), body)
}

/// `s` trimmed, without one enclosing pair of angle brackets.
pub open spec fn angle_stripped(s: Seq<char>) -> Seq<char> {
    let t = trim(s);
    if t.len() > 1 && t[0] == '<' && t.last() == '>' {
        t.subrange(1, t.len() - 1)
    } else {
        t
    }
}

/// `s` trimmed, without one enclosing pair of angle brackets.
pub fn strip_angles(s: &str) -> (r: String)
    ensures
        r@ == angle_stripped(s@),
{
    let t = trim_str(s);
    let n = t.len();
    if n > 1 && t[0] == '<' && t[n - 1] == '>' {
        let inner = sub_chars(t.as_slice(), 1, n - 1);
        string_of(inner.as_slice())
    } else {
        string_of(t.as_slice())
    }
}

/// What an attachment holds, apart from its identifiers.
pub struct AttachmentContent {
    pub cid: Option<Seq<char>>,
    pub content_type: Seq<char>,
    pub filename: Option<Seq<char>>,
    pub data: Seq<u8>,
    pub inline: bool,
}

/// What `a` holds, apart from its identifiers.
pub open spec fn content_of(a: Attachment) -> AttachmentContent {
    AttachmentContent {
        cid: opt_view(a.cid),
        content_type: a.content_type@,
        filename: opt_view(a.filename),
        data: a.data@,
        inline: a.inline,
    }
}

/// The lowercased `Content-Disposition` of a part, if it has one.
pub open spec fn disposition_of(p: PartView) -> Option<Seq<char>> {
    match first_value(p.headers, "Content-Disposition"@) {
        Some(v) => Some(lower_text(v)),
        None => None,
    }
}

/// The attachment that a part makes, given the name `te` of its transfer
/// encoding and its lowercased disposition: its content id (angle brackets
/// removed), content type, file name (the `name` parameter), the body
/// decoded, and whether it is shown inline (it has a content id, or its
/// disposition mentions `inline`). A part whose body does not decode, or
/// decodes to nothing, makes none.
pub open spec fn attachment_content_as(p: PartView, te: Seq<char>, disposition: Option<Seq<char>>) -> Option<
    AttachmentContent,
> {
    let cid = match first_value(p.headers, "Content-ID"@) {
        Some(v) => Some(angle_stripped(trim(v))),
        None => None,
    };
    let inline = cid is Some || (disposition matches Some(d) && has_infix(d, "inline"@));
    match p.body_raw {
        None => None,
        Some(body) => {
            let data = transfer_decoded_as(te, body);
            if data.len() == 0 {
                None
            } else {
                Some(
                    AttachmentContent {
                        cid,
                        content_type: p.mimetype,
                        filename: first_value(p.params, "name"@),
                        data,
                        inline,
                    },
                )
            }
        },
    }
}

/// The attachment that a part makes.
pub open spec fn attachment_content(p: PartView) -> Option<AttachmentContent> {
    attachment_content_as(p, transfer_encoding(p), disposition_of(p))
}

/// The attachment that `part` makes, given the name of its transfer
/// encoding (trimmed, lowercased) and its lowercased disposition.
pub fn attachment_from(part: &MimePart, te: &str, disposition: Option<String>) -> (r: Option<Attachment>)
    ensures
        r is Some <==> attachment_content_as(part@, te@, opt_view(disposition)) is Some,
        r matches Some(a) ==> attachment_content_as(part@, te@, opt_view(disposition)) == Some(
            content_of(a),
        ) && a.email_id@ == Seq::<char>::empty(),
{
    let content_id = match get_header(part, "Content-ID") {
        Some(v) => {
            let t = trim_str(v.as_str());
            let ts = string_of(t.as_slice());
            Some(strip_angles(ts.as_str()))
        },
        None => None,
    };
    let content_type = part.mimetype.clone();
    let filename = lookup(&part.params, "name");
    let mentions_inline = match &disposition {
        Some(d) => {
            let dc = chars_of(d.as_str());
            let needle = chars_of("inline");
            contains_chars(dc.as_slice(), needle.as_slice())
        },
        None => false,
    };
    let is_inline = content_id.is_some() || mentions_inline;
    let body = match &part.body_raw {
        Some(b) => b,
        None => {
            return None;
        },
    };
    let bytes = transfer_decode_as(te, body.as_slice());
    if bytes.len() == 0 {
        return None;
    }
    Some(Attachment::new(content_id, content_type, filename, bytes, is_inline))
}

/// The attachment that `part` makes, if any.
pub fn build_attachment(part: &MimePart) -> (r: Option<Attachment>)
    ensures
        r is Some <==> attachment_content(part@) is Some,
        r matches Some(a) ==> attachment_content(part@) == Some(content_of(a)) && a.email_id@
            == Seq::<char>::empty(),
{
    let te = transfer_encoding_of(part);
    let disposition = match get_header(part, "Content-Disposition") {
        Some(v) => Some(to_lowercase(v.as_str())),
        None => None,
    };
    attachment_from(part, te.as_str(), disposition)
}

// ---------------------------------------------------------------------------
// Walking the parts
// ---------------------------------------------------------------------------

/// The lowercased content type of a part.
pub open spec fn kind_of(p: PartView) -> Seq<char> {
    lower_text(p.mimetype)
}

/// The lowercased content types of a list of parts.
pub open spec fn part_kinds(parts: Seq<PartView>) -> Seq<Seq<char>> {
    parts.map_values(|p: PartView| kind_of(p))
}

/// A content type whose parts become attachments.
pub open spec fn is_attachment_kind(k: Seq<char>) -> bool {
    has_prefix(k, "image/"@) || has_prefix(k, "application/"@)
}

/// A content type whose parts the walk does not descend into.
pub open spec fn is_leaf_kind(k: Seq<char>) -> bool {
    k == "text/plain"@ || k == "text/html"@ || is_attachment_kind(k)
}

/// Where the walk over a pre-order list of parts stands: for each open
/// ancestor, how many of its subparts are still to come and whether the
/// walk skips what lies below it; `done` once the first part's subtree is
/// over.
struct WalkState {
    stack: Seq<(usize, bool)>,
    done: bool,
}

/// `stack` without the ancestors that have no subparts left.
spec fn close_finished(stack: Seq<(usize, bool)>) -> Seq<(usize, bool)>
    decreases stack.len(),
{
    if stack.len() > 0 && stack.last().0 == 0 {
        close_finished(stack.drop_last())
    } else {
        stack
    }
}

/// The part at position `i` still belongs to the first part's subtree.
spec fn in_message(st: WalkState, i: int) -> bool {
    !st.done && (i == 0 || st.stack.len() > 0)
}

/// The parent of the next part is skipped or lies below a skipped part.
spec fn below_leaf(st: WalkState) -> bool {
    st.stack.len() > 0 && st.stack.last().1
}

/// The walk after the part at position `i`, of kind `kind` with `count`
/// direct subparts.
spec fn walk_step(st: WalkState, kind: Seq<char>, count: usize, i: int) -> WalkState {
    if !in_message(st, i) {
        WalkState { stack: st.stack, done: true }
    } else {
        let skip_below = below_leaf(st) || is_leaf_kind(kind);
        let counted = if st.stack.len() > 0 {
            st.stack.update(
                st.stack.len() - 1,
                ((st.stack.last().0 - 1) as usize, st.stack.last().1),
            )
        } else {
            st.stack
        };
        WalkState { stack: close_finished(counted.push((count, skip_below))), done: false }
    }
}

/// The walk after the first `n` parts, whose kinds are `kinds`.
spec fn walk(parts: Seq<PartView>, kinds: Seq<Seq<char>>, n: nat) -> WalkState
    decreases n,
{
    if n == 0 {
        WalkState { stack: Seq::empty(), done: false }
    } else {
        walk_step(
            walk(parts, kinds, (n - 1) as nat),
            kinds[n - 1],
            parts[n - 1].subpart_count,
            n - 1,
        )
    }
}

/// Part `i` is one that the walk over the stack examines: it lies in the
/// first part's subtree and its parent's entry is not skipped.
spec fn walk_visits(parts: Seq<PartView>, kinds: Seq<Seq<char>>, i: int) -> bool {
    let st = walk(parts, kinds, i as nat);
    in_message(st, i) && !below_leaf(st)
}

/// The body of the first visited part of kind `kind` (among the first `n`)
/// whose body decodes.
pub open spec fn first_body(parts: Seq<PartView>, kinds: Seq<Seq<char>>, n: nat, kind: Seq<char>) -> Option<
    Seq<char>,
>
    decreases n,
{
    if n == 0 {
        None
    } else {
        match first_body(parts, kinds, (n - 1) as nat, kind) {
            Some(b) => Some(b),
            None => if visited(parts, kinds, n - 1) && kinds[n - 1] == kind {
                parts[n - 1].body
            } else {
                None
            },
        }
    }
}

/// The attachments that the visited parts among the first `n` make, in order.
pub open spec fn attachments_in(parts: Seq<PartView>, kinds: Seq<Seq<char>>, n: nat) -> Seq<
    AttachmentContent,
>
    decreases n,
{
    if n == 0 {
        Seq::empty()
    } else {
        let prev = attachments_in(parts, kinds, (n - 1) as nat);
        let p = parts[n - 1];
        if visited(parts, kinds, n - 1) && is_attachment_kind(kinds[n - 1]) && attachment_content(p) is Some {
            prev.push(attachment_content(p)->Some_0)
        } else {
            prev
        }
    }
}

/// The plain-text body of a message.
pub open spec fn text_body(parts: Seq<PartView>) -> Option<Seq<char>> {
    first_body(parts, part_kinds(parts), parts.len(), "text/plain"@)
}

/// The HTML body of a message.
pub open spec fn html_body(parts: Seq<PartView>) -> Option<Seq<char>> {
    first_body(parts, part_kinds(parts), parts.len(), "text/html"@)
}

/// The attachments of a message.
pub open spec fn attachments_of(parts: Seq<PartView>) -> Seq<AttachmentContent> {
    attachments_in(parts, part_kinds(parts), parts.len())
}

/// What a list of attachments holds.
pub open spec fn contents(atts: Seq<Attachment>) -> Seq<AttachmentContent> {
    atts.map_values(|a: Attachment| content_of(a))
}

/// Text parts are never attachment parts.
proof fn lemma_text_kinds_not_binary()
    ensures
        !is_attachment_kind("text/plain"@),
        !is_attachment_kind("text/html"@),
        "text/plain"@ != "text/html"@,
{
    reveal_strlit("text/plain");
    reveal_strlit("text/html");
    reveal_strlit("image/");
    reveal_strlit("application/");
    assert("text/plain"@.subrange(0, 6)[0] != "image/"@[0]);
    assert("text/html"@.subrange(0, 6)[0] != "image/"@[0]);
}

/// An open ancestor never has zero subparts left.
proof fn lemma_close_finished(stack: Seq<(usize, bool)>)
    ensures
        close_finished(stack).len() > 0 ==> close_finished(stack).last().0 != 0,
    decreases stack.len(),
{
    if stack.len() > 0 && stack.last().0 == 0 {
        lemma_close_finished(stack.drop_last());
    }
}

/// The walk's stack never holds a finished ancestor on top.
proof fn lemma_walk_top(parts: Seq<PartView>, kinds: Seq<Seq<char>>, n: nat)
    ensures
        walk(parts, kinds, n).stack.len() > 0 ==> walk(parts, kinds, n).stack.last().0 != 0,
    decreases n,
{
    if n > 0 {
        lemma_walk_top(parts, kinds, (n - 1) as nat);
        let st = walk(parts, kinds, (n - 1) as nat);
        if in_message(st, n - 1) {
            let skip_below = below_leaf(st) || is_leaf_kind(kinds[n - 1]);
            let counted = if st.stack.len() > 0 {
                st.stack.update(
                    st.stack.len() - 1,
                    ((st.stack.last().0 - 1) as usize, st.stack.last().1),
                )
            } else {
                st.stack
            };
            lemma_close_finished(counted.push((parts[n - 1].subpart_count, skip_below)));
        }
    }
}

// ---------------------------------------------------------------------------
// The part tree
// ---------------------------------------------------------------------------

/// Number of list positions that the subtree of the part at `pos` takes in
/// the pre-order list: the part itself and the subtrees of its direct
/// subparts, which follow it one after another (cut short where the list
/// ends).
pub open spec fn span(parts: Seq<PartView>, pos: int) -> nat
    decreases parts.len() - pos, 0int,
{
    if pos < 0 || pos >= parts.len() {
        0
    } else {
        1 + children_span(parts, pos + 1, parts[pos].subpart_count as int)
    }
}

/// Number of list positions that `k` consecutive sibling subtrees take,
/// the first starting at `pos`.
pub open spec fn children_span(parts: Seq<PartView>, pos: int, k: int) -> nat
    decreases parts.len() - pos, 1int,
{
    if pos < 0 || pos >= parts.len() || k <= 0 {
        0
    } else {
        let first = span(parts, pos);
        if first == 0 || pos + first > parts.len() {
            0
        } else {
            first + children_span(parts, pos + first, k - 1)
        }
    }
}

/// The part at `a` is an ancestor of the part at `i`: `i` lies strictly
/// inside the subtree of `a`.
pub open spec fn is_ancestor(parts: Seq<PartView>, a: int, i: int) -> bool {
    0 <= a < i < a + span(parts, a)
}

/// No ancestor of part `i` at or after position `from` is a text or
/// attachment part.
pub open spec fn no_leaf_ancestor_from(
    parts: Seq<PartView>,
    kinds: Seq<Seq<char>>,
    from: int,
    i: int,
) -> bool {
    forall|a: int| from <= a && #[trigger] is_ancestor(parts, a, i) ==> !is_leaf_kind(kinds[a])
}

/// Part `i` is one that the walk over the message's tree examines: it lies
/// in the subtree of the first part, and none of its ancestors is a text or
/// attachment part.
pub open spec fn visited(parts: Seq<PartView>, kinds: Seq<Seq<char>>, i: int) -> bool {
    0 <= i < span(parts, 0) && no_leaf_ancestor_from(parts, kinds, 0, i)
}

/// Subtrees nest: a subtree stays within the list, and every subtree that
/// starts inside it ends inside it.
proof fn lemma_span_nest(parts: Seq<PartView>, p: int)
    requires
        0 <= p < parts.len(),
    ensures
        1 <= span(parts, p),
        p + span(parts, p) <= parts.len(),
        forall|a: int|
            p <= a < p + span(parts, p) ==> a + #[trigger] span(parts, a) <= p + span(parts, p),
    decreases parts.len() - p, 0int,
{
    lemma_children_nest(parts, p + 1, parts[p].subpart_count as int);
}

/// Consecutive sibling subtrees nest in the same way.
proof fn lemma_children_nest(parts: Seq<PartView>, pos: int, k: int)
    requires
        0 <= pos <= parts.len(),
    ensures
        pos + children_span(parts, pos, k) <= parts.len(),
        forall|a: int|
            pos <= a < pos + children_span(parts, pos, k) ==> a + #[trigger] span(parts, a) <= pos
                + children_span(parts, pos, k),
    decreases parts.len() - pos, 1int,
{
    if pos < parts.len() && k > 0 {
        lemma_span_nest(parts, pos);
        let first = span(parts, pos);
        lemma_children_nest(parts, pos + first, k - 1);
    }
}

/// Once the walk has left the first part's subtree it stays out of it.
proof fn lemma_walk_stays_done(parts: Seq<PartView>, kinds: Seq<Seq<char>>, m: int, n: int)
    requires
        0 < m <= n,
        walk(parts, kinds, m as nat).stack.len() == 0 || walk(parts, kinds, m as nat).done,
    ensures
        n > m ==> walk(parts, kinds, n as nat).done,
        !in_message(walk(parts, kinds, n as nat), n),
    decreases n - m,
{
    if n > m {
        lemma_walk_stays_done(parts, kinds, m, n - 1);
        assert(walk(parts, kinds, n as nat) == walk_step(
            walk(parts, kinds, (n - 1) as nat),
            kinds[n - 1],
            parts[n - 1].subpart_count,
            n - 1,
        ));
    }
}

/// The walk over the subtree of the part at `p`, entered with the walk's
/// stack `t` plus the parent's entry `(k, s)` (or, for the first part,
/// with an empty stack): it visits exactly the parts of the subtree that
/// have no text or attachment ancestor within it, provided the parent's
/// side is not skipped, and leaves with the parent's entry counted down.
proof fn lemma_walk_subtree(
    parts: Seq<PartView>,
    kinds: Seq<Seq<char>>,
    p: int,
    t: Seq<(usize, bool)>,
    k: usize,
    s: bool,
    root: bool,
)
    requires
        0 <= p < parts.len(),
        !walk(parts, kinds, p as nat).done,
        root ==> p == 0 && walk(parts, kinds, p as nat).stack.len() == 0,
        !root ==> k >= 1 && walk(parts, kinds, p as nat).stack == t.push((k, s)),
    ensures
        forall|i: int|
            p <= i < p + span(parts, p) ==> (walk_visits(parts, kinds, i) <==> (!(!root && s)
                && no_leaf_ancestor_from(parts, kinds, p, i))),
        p + span(parts, p) < parts.len() ==> {
            let w = walk(parts, kinds, (p + span(parts, p)) as nat);
            &&& !w.done
            &&& w.stack == if root {
                Seq::<(usize, bool)>::empty()
            } else {
                close_finished(t.push(((k - 1) as usize, s)))
            }
        },
    decreases parts.len() - p, 0int,
{
    let st = walk(parts, kinds, p as nat);
    let b = !root && s;
    let counted: Seq<(usize, bool)> = if root {
        Seq::empty()
    } else {
        t.push(((k - 1) as usize, s))
    };
    assert(in_message(st, p));
    assert(below_leaf(st) == b);
    if !root {
        assert(st.stack.update(st.stack.len() - 1, ((st.stack.last().0 - 1) as usize, st.stack.last().1))
            =~= counted);
    }
    assert(close_finished(Seq::<(usize, bool)>::empty()) == Seq::<(usize, bool)>::empty());
    let count = parts[p].subpart_count;
    let skip = b || is_leaf_kind(kinds[p]);
    let next = walk(parts, kinds, (p + 1) as nat);
    assert(next == walk_step(st, kinds[p], count, p));
    assert(next.stack == close_finished(counted.push((count, skip))));
    assert(!next.done);
    lemma_span_nest(parts, p);
    assert(walk_visits(parts, kinds, p) == !b);
    assert(no_leaf_ancestor_from(parts, kinds, p, p));
    if p + 1 < parts.len() && count >= 1 {
        assert(next.stack == counted.push((count, skip)));
        lemma_walk_children(parts, kinds, p + 1, count, counted, skip);
        assert(span(parts, p) == 1 + children_span(parts, p + 1, count as int));
        assert forall|i: int| p < i < p + span(parts, p) implies (walk_visits(parts, kinds, i) <==> (!b
            && no_leaf_ancestor_from(parts, kinds, p, i))) by {
            assert(is_ancestor(parts, p, i));
            if no_leaf_ancestor_from(parts, kinds, p, i) {
                assert(!is_leaf_kind(kinds[p]));
            }
            if !skip && no_leaf_ancestor_from(parts, kinds, p + 1, i) {
                assert forall|a: int| p <= a && #[trigger] is_ancestor(parts, a, i) implies !is_leaf_kind(
                    kinds[a],
                ) by {
                    if a > p {
                        assert(p + 1 <= a);
                    }
                }
            }
        }
        if p + span(parts, p) < parts.len() {
            assert(close_finished(counted.push((0usize, skip))) == close_finished(counted)) by {
                assert(counted.push((0usize, skip)).drop_last() =~= counted);
            }
        }
    } else {
        if count == 0 {
            assert(span(parts, p) == 1);
            assert(counted.push((count, skip)).drop_last() =~= counted);
            assert(close_finished(counted.push((count, skip))) == close_finished(counted));
        } else {
            assert(p + span(parts, p) == parts.len());
        }
    }
}

/// The walk over `k` consecutive sibling subtrees starting at `pos`,
/// entered with the stack `t` plus their parent's entry `(k, s)`: it visits
/// exactly the parts without a text or attachment ancestor from `pos` on,
/// provided the parent is not skipped, and leaves with the parent's entry
/// finished.
proof fn lemma_walk_children(
    parts: Seq<PartView>,
    kinds: Seq<Seq<char>>,
    pos: int,
    k: usize,
    t: Seq<(usize, bool)>,
    s: bool,
)
    requires
        0 <= pos <= parts.len(),
        k >= 1,
        pos < parts.len() ==> !walk(parts, kinds, pos as nat).done && walk(
            parts,
            kinds,
            pos as nat,
        ).stack == t.push((k, s)),
    ensures
        forall|i: int|
            pos <= i < pos + children_span(parts, pos, k as int) ==> (walk_visits(parts, kinds, i) <==> (
            !s && no_leaf_ancestor_from(parts, kinds, pos, i))),
        pos + children_span(parts, pos, k as int) < parts.len() ==> {
            let w = walk(parts, kinds, (pos + children_span(parts, pos, k as int)) as nat);
            &&& !w.done
            &&& w.stack == close_finished(t)
        },
    decreases parts.len() - pos, 1int,
{
    if pos < parts.len() {
        lemma_walk_subtree(parts, kinds, pos, t, k, s, false);
        lemma_span_nest(parts, pos);
        let first = span(parts, pos);
        let rest = children_span(parts, pos + first, k - 1);
        assert(children_span(parts, pos, k as int) == first + rest);
        let end = pos + first;
        if k == 1 {
            assert(rest == 0);
            if end < parts.len() {
                assert(t.push((0usize, s)).drop_last() =~= t);
            }
        } else if end < parts.len() {
            let w = walk(parts, kinds, end as nat);
            assert(close_finished(t.push(((k - 1) as usize, s))) == t.push(((k - 1) as usize, s)));
            lemma_walk_children(parts, kinds, end, (k - 1) as usize, t, s);
            assert forall|i: int| end <= i < pos + children_span(parts, pos, k as int) implies (
            no_leaf_ancestor_from(parts, kinds, pos, i) <==> no_leaf_ancestor_from(
                parts,
                kinds,
                end,
                i,
            )) by {
                assert forall|a: int| pos <= a < end implies !#[trigger] is_ancestor(parts, a, i) by {
                    assert(a + span(parts, a) <= end);
                }
            }
        }
    }
}

/// The walk over the stack is the walk over the message's tree: it
/// examines part `i` exactly when `visited` holds of it.
proof fn lemma_walk_visits_tree(parts: Seq<PartView>, kinds: Seq<Seq<char>>, i: int)
    requires
        0 <= i < parts.len(),
    ensures
        walk_visits(parts, kinds, i) <==> visited(parts, kinds, i),
{
    lemma_walk_subtree(parts, kinds, 0, Seq::empty(), 0, false, true);
    lemma_span_nest(parts, 0);
    let e = span(parts, 0) as int;
    if i >= e {
        lemma_walk_stays_done(parts, kinds, e, i);
    }
}

/// The text and HTML bodies and the attachments of a message, from its
/// parts in pre-order and their lowercased content types: the walk
/// descends from the first part into every part but text and attachment
/// parts; the first text/plain and first text/html parts whose bodies
/// decode give the bodies, and each visited image or application part
/// gives an attachment.
pub fn extract_bodies_by_kind(parts: &Vec<MimePart>, kinds: &Vec<String>) -> (r: (
    Option<String>,
    Option<String>,
    Vec<Attachment>,
))
    requires
        kinds@.len() == parts@.len(),
    ensures
        ({
            let pv = parts_view(parts@);
            let kv = kinds@.map_values(|k: String| k@);
            &&& opt_view(r.0) == first_body(pv, kv, pv.len(), "text/plain"@)
            &&& opt_view(r.1) == first_body(pv, kv, pv.len(), "text/html"@)
            &&& contents(r.2@) == attachments_in(pv, kv, pv.len())
        }),
        forall|k: int| 0 <= k < r.2@.len() ==> (#[trigger] r.2@[k]).email_id@ == Seq::<char>::empty(),
{
    let ghost pv = parts_view(parts@);
    let ghost kv = kinds@.map_values(|k: String| k@);
    let mut stack: Vec<(usize, bool)> = Vec::new();
    let mut done = false;
    let mut text: Option<String> = None;
    let mut html: Option<String> = None;
    let mut attachments: Vec<Attachment> = Vec::new();
    let mut i: usize = 0;
    while i < parts.len()
        invariant
            pv == parts_view(parts@),
            kv == kinds@.map_values(|k: String| k@),
            kinds@.len() == parts@.len(),
            i <= parts@.len(),
            stack@ == walk(pv, kv, i as nat).stack,
            done == walk(pv, kv, i as nat).done,
            opt_view(text) == first_body(pv, kv, i as nat, "text/plain"@),
            opt_view(html) == first_body(pv, kv, i as nat, "text/html"@),
            contents(attachments@) == attachments_in(pv, kv, i as nat),
            forall|k: int|
                0 <= k < attachments@.len() ==> (#[trigger] attachments@[k]).email_id@
                    == Seq::<char>::empty(),
        decreases parts.len() - i,
    {
        let ghost p = pv[i as int];
        proof {
            lemma_walk_top(pv, kv, i as nat);
            lemma_text_kinds_not_binary();
            lemma_walk_visits_tree(pv, kv, i as int);
        }
        assert(p == parts@[i as int]@);
        let reached = !done && (i == 0 || stack.len() > 0);
        if !reached {
            done = true;
        } else {
            let part = &parts[i];
            let kind = &kinds[i];
            let parent_skipped = stack.len() > 0 && stack[stack.len() - 1].1;
            let is_text = str_eq(kind.as_str(), "text/plain");
            let is_html = str_eq(kind.as_str(), "text/html");
            let is_binary = str_starts_with(kind.as_str(), "image/") || str_starts_with(
                kind.as_str(),
                "application/",
            );
            let ghost before = attachments@;
            assert(walk_visits(pv, kv, i as int) == !parent_skipped);
            assert(visited(pv, kv, i as int) == !parent_skipped);
            assert(kind@ == kv[i as int]);
            if !parent_skipped {
                if is_text {
                    if text.is_none() {
                        text = part.body.clone();
                    }
                } else if is_html {
                    if html.is_none() {
                        html = part.body.clone();
                    }
                } else if is_binary {
                    match build_attachment(part) {
                        Some(a) => {
                            attachments.push(a);
                            assert(contents(attachments@) =~= contents(before).push(content_of(a)));
                        },
                        None => {},
                    }
                }
            }
            assert(contents(attachments@) =~= attachments_in(pv, kv, (i + 1) as nat));
            if stack.len() > 0 {
                let last = stack.len() - 1;
                let (left, skip) = stack[last];
                stack.set(last, (left - 1, skip));
            }
            stack.push((part.subpart_count, parent_skipped || is_text || is_html || is_binary));
            let ghost pushed = stack@;
            while stack.len() > 0 && stack[stack.len() - 1].0 == 0
                invariant
                    close_finished(pushed) == close_finished(stack@),
                decreases stack.len(),
            {
                assert(stack@.drop_last() == stack@.subrange(0, stack@.len() - 1));
                stack.pop();
            }
        }
        i += 1;
    }
    (text, html, attachments)
}

/// The text and HTML bodies and the attachments of a message, from its
/// parts in pre-order.
pub fn extract_bodies(parts: &Vec<MimePart>) -> (r: (Option<String>, Option<String>, Vec<Attachment>))
    ensures
        opt_view(r.0) == text_body(parts_view(parts@)),
        opt_view(r.1) == html_body(parts_view(parts@)),
        contents(r.2@) == attachments_of(parts_view(parts@)),
        forall|k: int| 0 <= k < r.2@.len() ==> (#[trigger] r.2@[k]).email_id@ == Seq::<char>::empty(),
{
    let ghost pv = parts_view(parts@);
    let mut kinds: Vec<String> = Vec::new();
    let mut i: usize = 0;
    while i < parts.len()
        invariant
            pv == parts_view(parts@),
            i <= parts@.len(),
            kinds@.len() == i,
            forall|k: int| 0 <= k < i ==> (#[trigger] kinds@[k])@ == kind_of(pv[k]),
        decreases parts.len() - i,
    {
        kinds.push(to_lowercase(parts[i].mimetype.as_str()));
        i += 1;
    }
    assert(kinds@.map_values(|k: String| k@) =~= part_kinds(pv));
    extract_bodies_by_kind(parts, &kinds)
}

// ---------------------------------------------------------------------------
// Links to inline parts
// ---------------------------------------------------------------------------

/// Where the service serves the attachment with content id `cid` of the
/// message `id`.
pub open spec fn link_target(id: Seq<char>, cid: Seq<char>) -> Seq<char> {
    "/api/attachments/"@ + id + "/"@ + cid
}

/// `html` with the references `cid:C`, `cid:'C'` and `cid:"C"` to the
/// content id `C` replaced by its link.
pub open spec fn relink(html: Seq<char>, id: Seq<char>, cid: Seq<char>) -> Seq<char> {
    let t = link_target(id, cid);
    replace_all(
        replace_all(replace_all(html, "cid:"@ + cid, t), "cid:'"@ + cid + "'"@, t),
        "cid:\""@ + cid + "\""@,
        t,
    )
}

/// `html` with the references to each content id in `cids` replaced, in order.
pub open spec fn relink_all(html: Seq<char>, id: Seq<char>, cids: Seq<Option<Seq<char>>>) -> Seq<
    char,
>
    decreases cids.len(),
{
    if cids.len() == 0 {
        html
    } else {
        let prev = relink_all(html, id, cids.drop_last());
        match cids.last() {
            Some(c) => relink(prev, id, c),
            None => prev,
        }
    }
}

/// The content ids of a list of attachments.
pub open spec fn cids_of(atts: Seq<Attachment>) -> Seq<Option<Seq<char>>> {
    atts.map_values(|a: Attachment| opt_view(a.cid))
}

/// Points the `cid:` references of the message's HTML body at the
/// attachments' links; nothing else changes.
pub fn rewrite_cid_links(email: &mut Email, attachments: &[Attachment])
    ensures
        final(email).id == old(email).id,
        final(email).to_address == old(email).to_address,
        final(email).from_addr == old(email).from_addr,
        final(email).subject == old(email).subject,
        final(email).body_text == old(email).body_text,
        final(email).raw == old(email).raw,
        final(email).received_at == old(email).received_at,
        final(email).is_read == old(email).is_read,
        opt_view(final(email).body_html) == match opt_view(old(email).body_html) {
            Some(h) => Some(relink_all(h, old(email).id@, cids_of(attachments@))),
            None => None,
        },
{
    let html = match &email.body_html {
        Some(h) => chars_of(h.as_str()),
        None => {
            return;
        },
    };
    let ghost h0 = html@;
    let id = chars_of(email.id.as_str());
    let prefix = chars_of("/api/attachments/");
    let slash = chars_of("/");
    let cid_tag = chars_of("cid:");
    let quote = chars_of("'");
    let dquote = chars_of("\"");
    proof {
        reveal_strlit("cid:");
    }
    let mut html = html;
    let mut k: usize = 0;
    assert(attachments@.take(0) =~= Seq::<Attachment>::empty());
    while k < attachments.len()
        invariant
            k <= attachments@.len(),
            id@ == email.id@,
            prefix@ == "/api/attachments/"@,
            slash@ == "/"@,
            cid_tag@ == "cid:"@,
            cid_tag@.len() == 4,
            quote@ == "'"@,
            dquote@ == "\""@,
            html@ == relink_all(h0, email.id@, cids_of(attachments@.take(k as int))),
        decreases attachments.len() - k,
    {
        assert(cids_of(attachments@.take(k + 1)).drop_last() =~= cids_of(
            attachments@.take(k as int),
        ));
        if let Some(c) = &attachments[k].cid {
            let cid = chars_of(c.as_str());
            let t1 = concat_chars(prefix.as_slice(), id.as_slice());
            let t2 = concat_chars(t1.as_slice(), slash.as_slice());
            let target = concat_chars(t2.as_slice(), cid.as_slice());
            let p1 = concat_chars(cid_tag.as_slice(), cid.as_slice());
            let q1 = concat_chars(cid_tag.as_slice(), quote.as_slice());
            let q2 = concat_chars(q1.as_slice(), cid.as_slice());
            let p2 = concat_chars(q2.as_slice(), quote.as_slice());
            let d1 = concat_chars(cid_tag.as_slice(), dquote.as_slice());
            let d2 = concat_chars(d1.as_slice(), cid.as_slice());
            let p3 = concat_chars(d2.as_slice(), dquote.as_slice());
            assert(p2@ =~= "cid:'"@ + cid@ + "'"@) by {
                reveal_strlit("cid:");
                reveal_strlit("cid:'");
                reveal_strlit("'");
            }
            assert(p3@ =~= "cid:\""@ + cid@ + "\""@) by {
                reveal_strlit("cid:");
                reveal_strlit("cid:\"");
                reveal_strlit("\"");
            }
            let h1 = replace_chars(html.as_slice(), p1.as_slice(), target.as_slice());
            let h2 = replace_chars(h1.as_slice(), p2.as_slice(), target.as_slice());
            let h3 = replace_chars(h2.as_slice(), p3.as_slice(), target.as_slice());
            html = h3;
        }
        k += 1;
    }
    assert(attachments@.take(attachments@.len() as int) =~= attachments@);
    email.body_html = Some(string_of(html.as_slice()));
}

// ---------------------------------------------------------------------------
// The message
// ---------------------------------------------------------------------------

/// The value of the header `name` of part `p`, or `default`.
pub open spec fn header_or(p: PartView, name: Seq<char>, default: Seq<char>) -> Seq<char> {
    match first_value(p.headers, name) {
        Some(v) => v,
        None => default,
    }
}

/// The message that the parts `parts` (in pre-order, the message itself
/// first) make, with the raw text `raw_text`. The subject, sender and
/// recipient come from the message's own headers; the envelope sender
/// stands in for a missing `From`, and the first envelope recipient takes
/// the place of `To`. The bodies and attachments come from the walk over
/// the parts, and the HTML body's `cid:` references point at the
/// attachments' links.
pub fn assemble_email(
    parts: &Vec<MimePart>,
    raw_text: String,
    envelope_sender: &str,
    envelope_recipients: &[String],
) -> (pe: ParsedEmail)
    requires
        parts@.len() >= 1,
    ensures
        ({
            let pv = parts_view(parts@);
            &&& pe.email.subject@ == header_or(pv[0], "Subject"@, Seq::empty())
            &&& pe.email.from_addr@ == header_or(pv[0], "From"@, envelope_sender@)
            &&& pe.email.to_address@ == if envelope_recipients@.len() > 0 {
                envelope_recipients@[0]@
            } else {
                header_or(pv[0], "To"@, Seq::empty())
            }
            &&& opt_view(pe.email.body_text) == text_body(pv)
            &&& opt_view(pe.email.body_html) == match html_body(pv) {
                Some(h) => Some(relink_all(h, pe.email.id@, cids_of(pe.attachments@))),
                None => None,
            }
            &&& opt_view(pe.email.raw) == Some(raw_text@)
            &&& !pe.email.is_read
            &&& is_uuid_v4_text(pe.email.id@)
            &&& contents(pe.attachments@) == attachments_of(pv)
            &&& forall|k: int|
                0 <= k < pe.attachments@.len() ==> (#[trigger] pe.attachments@[k]).email_id@
                    == Seq::<char>::empty()
        }),
{
    let root = &parts[0];
    let subject = match get_header(root, "Subject") {
        Some(s) => s,
        None => String::new(),
    };
    let from_addr = match get_header(root, "From") {
        Some(s) => s,
        None => envelope_sender.to_owned(),
    };
    let to_address = if envelope_recipients.len() > 0 {
        envelope_recipients[0].clone()
    } else {
        match get_header(root, "To") {
            Some(s) => s,
            None => String::new(),
        }
    };
    let (body_text, body_html, attachments) = extract_bodies(parts);
    let mut email = Email::new(to_address, from_addr, subject, body_text, body_html, Some(raw_text));
    rewrite_cid_links(&mut email, attachments.as_slice());
    ParsedEmail { email, attachments }
}

/// Reads a delivered message: its MIME parts (see `assemble_email`), with
/// the raw bytes kept as text (invalid UTF-8 replaced). Fails exactly when
/// the MIME parser fails.
pub fn parse_email(raw_data: &[u8], envelope_sender: &str, envelope_recipients: &[String]) -> (r:
    Result<ParsedEmail, ParseError>)
    ensures
        r is Ok <==> mail_parts(raw_data@) is Some,
        r matches Ok(pe) ==> {
            let parts = mail_parts(raw_data@)->Some_0;
            &&& parts.len() >= 1
            &&& pe.email.subject@ == header_or(parts[0], "Subject"@, Seq::empty())
            &&& pe.email.from_addr@ == header_or(parts[0], "From"@, envelope_sender@)
            &&& pe.email.to_address@ == if envelope_recipients@.len() > 0 {
                envelope_recipients@[0]@
            } else {
                header_or(parts[0], "To"@, Seq::empty())
            }
            &&& opt_view(pe.email.body_text) == text_body(parts)
            &&& opt_view(pe.email.body_html) == match html_body(parts) {
                Some(h) => Some(relink_all(h, pe.email.id@, cids_of(pe.attachments@))),
                None => None,
            }
            &&& opt_view(pe.email.raw) == Some(utf8_lossy(raw_data@))
            &&& !pe.email.is_read
            &&& is_uuid_v4_text(pe.email.id@)
            &&& contents(pe.attachments@) == attachments_of(parts)
            &&& forall|k: int|
                0 <= k < pe.attachments@.len() ==> (#[trigger] pe.attachments@[k]).email_id@
                    == Seq::<char>::empty()
        },
{
    let parts = match parse_mime(raw_data) {
        Ok(p) => p,
        Err(_) => {
            return Err(ParseError::Mime);
        },
    };
    let raw_string = from_utf8_lossy(raw_data);
    Ok(assemble_email(&parts, raw_string, envelope_sender, envelope_recipients))
}

/// An HTML body that holds no `cid:` reference keeps its text: linking the
/// attachments changes nothing in it.
pub proof fn law_html_without_cid_unchanged(
    html: Seq<char>,
    id: Seq<char>,
    cids: Seq<Option<Seq<char>>>,
)
    requires
        !has_infix(html, "cid:"@),
    ensures
        relink_all(html, id, cids) == html,
    decreases cids.len(),
{
    reveal_strlit("cid:");
    reveal_strlit("cid:'");
    reveal_strlit("cid:\"");
    reveal_strlit("'");
    reveal_strlit("\"");
    if cids.len() > 0 {
        law_html_without_cid_unchanged(html, id, cids.drop_last());
        if let Some(c) = cids.last() {
            let t = link_target(id, c);
            lemma_infix_extends(html, "cid:"@, c);
            lemma_replace_absent(html, "cid:"@ + c, t);
            assert("cid:'"@ + c + "'"@ =~= "cid:"@ + ("'"@ + c + "'"@));
            lemma_infix_extends(html, "cid:"@, "'"@ + c + "'"@);
            lemma_replace_absent(html, "cid:'"@ + c + "'"@, t);
            assert("cid:\""@ + c + "\""@ =~= "cid:"@ + ("\""@ + c + "\""@));
            lemma_infix_extends(html, "cid:"@, "\""@ + c + "\""@);
            lemma_replace_absent(html, "cid:\""@ + c + "\""@, t);
        }
    }
}

// ---------------------------------------------------------------------------
// Laws of the reading of a message
// ---------------------------------------------------------------------------

/// `first_body` over the first `n` parts is the body of part `i` when that
/// is the first visited part of the kind with a body.
proof fn lemma_first_body_pick(
    parts: Seq<PartView>,
    kinds: Seq<Seq<char>>,
    kind: Seq<char>,
    i: int,
    n: nat,
)
    requires
        0 <= i < n <= parts.len(),
        visited(parts, kinds, i),
        kinds[i] == kind,
        parts[i].body is Some,
        forall|j: int|
            0 <= j < i && #[trigger] visited(parts, kinds, j) && kinds[j] == kind ==> parts[j].body
                is None,
    ensures
        first_body(parts, kinds, n, kind) == parts[i].body,
    decreases n,
{
    if n > i + 1 {
        lemma_first_body_pick(parts, kinds, kind, i, (n - 1) as nat);
    } else {
        lemma_first_body_none(parts, kinds, kind, i as nat);
    }
}

/// `first_body` over the first `n` parts is `None` when no visited part of
/// the kind among them has a body.
proof fn lemma_first_body_none(parts: Seq<PartView>, kinds: Seq<Seq<char>>, kind: Seq<char>, n: nat)
    requires
        n <= parts.len(),
        forall|j: int|
            0 <= j < n && #[trigger] visited(parts, kinds, j) && kinds[j] == kind ==> parts[j].body
                is None,
    ensures
        first_body(parts, kinds, n, kind) is None,
    decreases n,
{
    if n > 0 {
        lemma_first_body_none(parts, kinds, kind, (n - 1) as nat);
    }
}

/// The first HTML part wins: when the part at `i` is visited, is
/// `text/html` and has a body, and no visited `text/html` part before it
/// has one, the message's HTML body is that part's body; later HTML parts
/// do not change it. Without any visited HTML part with a body there is no
/// HTML body.
pub proof fn law_first_html_part_is_the_html_body(parts: Seq<PartView>, i: int)
    ensures
        0 <= i < parts.len() && visited(parts, part_kinds(parts), i) && kind_of(parts[i])
            == "text/html"@ && parts[i].body is Some && (forall|j: int|
            0 <= j < i && #[trigger] visited(parts, part_kinds(parts), j) && kind_of(parts[j])
                == "text/html"@ ==> parts[j].body is None) ==> html_body(parts) == parts[i].body,
        (forall|j: int|
            0 <= j < parts.len() && #[trigger] visited(parts, part_kinds(parts), j) && kind_of(
                parts[j],
            ) == "text/html"@ ==> parts[j].body is None) ==> html_body(parts) is None,
{
    let kinds = part_kinds(parts);
    if 0 <= i < parts.len() && visited(parts, kinds, i) && kind_of(parts[i]) == "text/html"@
        && parts[i].body is Some && (forall|j: int|
        0 <= j < i && #[trigger] visited(parts, kinds, j) && kind_of(parts[j]) == "text/html"@
            ==> parts[j].body is None) {
        lemma_first_body_pick(parts, kinds, "text/html"@, i, parts.len());
    }
    if forall|j: int|
        0 <= j < parts.len() && #[trigger] visited(parts, kinds, j) && kind_of(parts[j])
            == "text/html"@ ==> parts[j].body is None {
        lemma_first_body_none(parts, kinds, "text/html"@, parts.len());
    }
}

/// The first plain-text part wins, in the same way as the HTML body.
pub proof fn law_first_text_part_is_the_text_body(parts: Seq<PartView>, i: int)
    ensures
        0 <= i < parts.len() && visited(parts, part_kinds(parts), i) && kind_of(parts[i])
            == "text/plain"@ && parts[i].body is Some && (forall|j: int|
            0 <= j < i && #[trigger] visited(parts, part_kinds(parts), j) && kind_of(parts[j])
                == "text/plain"@ ==> parts[j].body is None) ==> text_body(parts) == parts[i].body,
        (forall|j: int|
            0 <= j < parts.len() && #[trigger] visited(parts, part_kinds(parts), j) && kind_of(
                parts[j],
            ) == "text/plain"@ ==> parts[j].body is None) ==> text_body(parts) is None,
{
    let kinds = part_kinds(parts);
    if 0 <= i < parts.len() && visited(parts, kinds, i) && kind_of(parts[i]) == "text/plain"@
        && parts[i].body is Some && (forall|j: int|
        0 <= j < i && #[trigger] visited(parts, kinds, j) && kind_of(parts[j]) == "text/plain"@
            ==> parts[j].body is None) {
        lemma_first_body_pick(parts, kinds, "text/plain"@, i, parts.len());
    }
    if forall|j: int|
        0 <= j < parts.len() && #[trigger] visited(parts, kinds, j) && kind_of(parts[j])
            == "text/plain"@ ==> parts[j].body is None {
        lemma_first_body_none(parts, kinds, "text/plain"@, parts.len());
    }
}

/// Linking the attachments is linking each in turn: linking a list that
/// is one list followed by another is linking the first, then the second
/// in the result; a single attachment with content id `c` is linked by
/// `relink`, one without a content id and the empty list change nothing.
pub proof fn law_relink_is_each_in_turn(
    html: Seq<char>,
    id: Seq<char>,
    a: Seq<Option<Seq<char>>>,
    b: Seq<Option<Seq<char>>>,
    c: Seq<char>,
)
    ensures
        relink_all(html, id, a + b) == relink_all(relink_all(html, id, a), id, b),
        relink_all(html, id, seq![Some(c)]) == relink(html, id, c),
        relink_all(html, id, seq![None]) == html,
        relink_all(html, id, Seq::empty()) == html,
    decreases b.len(),
{
    assert(relink_all(html, id, Seq::<Option<Seq<char>>>::empty()) == html);
    assert(seq![Some(c)].drop_last() =~= Seq::<Option<Seq<char>>>::empty());
    assert(seq![None::<Seq<char>>].drop_last() =~= Seq::<Option<Seq<char>>>::empty());
    if b.len() == 0 {
        assert(a + b =~= a);
    } else {
        law_relink_is_each_in_turn(html, id, a, b.drop_last(), c);
        assert((a + b).drop_last() =~= a + b.drop_last());
        assert((a + b).last() == b.last());
    }
}

/// Whether an attachment is shown inline: a part with a `Content-ID` is
/// always shown inline, whatever its disposition says; so is one whose
/// disposition mentions `inline`; any other is not. The content id is the
/// header's value, trimmed and without its angle brackets.
pub proof fn law_content_id_means_inline(p: PartView, te: Seq<char>, disposition: Option<Seq<char>>)
    ensures
        attachment_content_as(p, te, disposition) matches Some(a) ==> (a.inline <==> (first_value(
            p.headers,
            "Content-ID"@,
        ) is Some || (disposition matches Some(d) && has_infix(d, "inline"@)))),
        attachment_content_as(p, te, disposition) matches Some(a) ==> (first_value(
            p.headers,
            "Content-ID"@,
        ) matches Some(v) ==> a.cid == Some(angle_stripped(v)) && a.inline),
{
    if let Some(v) = first_value(p.headers, "Content-ID"@) {
        lemma_trim_idempotent(v);
    }
}

/// A text whose only `:` stands at `k` holds a pattern with `:` at index 3
/// nowhere but, possibly, at `k - 3`.
proof fn lemma_colon_pins_occurrence(x: Seq<char>, p: Seq<char>, k: int)
    requires
        forall|j: int| 0 <= j < x.len() && #[trigger] x[j] == ':' ==> j == k,
        p.len() > 3,
        p[3] == ':',
        !occurs_at(x, p, k - 3),
    ensures
        !has_infix(x, p),
{
    assert forall|i: int| !occurs_at(x, p, i) by {
        if occurs_at(x, p, i) {
            assert(x.subrange(i, i + p.len())[3] == x[i + 3]);
            assert(x[i + 3] == ':');
        }
    }
}

/// Replacing a pattern with `:` at index 3 leaves a leading text without
/// `:` as it is, when the rest does not open with a `:`.
proof fn lemma_replace_after_plain(pre: Seq<char>, z: Seq<char>, p: Seq<char>, r: Seq<char>)
    requires
        p.len() > 3,
        p[3] == ':',
        !pre.contains(':'),
        forall|k: int| 0 <= k < 3 && k < z.len() ==> #[trigger] z[k] != ':',
    ensures
        replace_all(pre + z, p, r) == pre + replace_all(z, p, r),
    decreases pre.len(),
{
    if pre.len() > 0 {
        let x = pre + z;
        if has_prefix(x, p) {
            assert(x.subrange(0, p.len() as int)[3] == x[3]);
            if pre.len() > 3 {
                assert(x[3] == pre[3]);
            } else {
                assert(x[3] == z[3 - pre.len()]);
            }
        }
        assert(x.skip(1) =~= pre.skip(1) + z);
        assert(!pre.skip(1).contains(':')) by {
            if pre.skip(1).contains(':') {
                let j = choose|j: int| 0 <= j < pre.skip(1).len() && pre.skip(1)[j] == ':';
                assert(pre[j + 1] == ':');
            }
        }
        lemma_replace_after_plain(pre.skip(1), z, p, r);
        assert(seq![pre[0]] + (pre.skip(1) + replace_all(z, p, r)) =~= pre + replace_all(z, p, r));
    } else {
        assert(pre + z =~= z);
    }
}

/// Replacing a pattern at the front of a text.
proof fn lemma_replace_at_front(p: Seq<char>, w: Seq<char>, r: Seq<char>)
    requires
        p.len() > 0,
    ensures
        replace_all(p + w, p, r) == r + replace_all(w, p, r),
{
    assert((p + w).subrange(0, p.len() as int) =~= p);
    assert((p + w).skip(p.len() as int) =~= w);
}

/// A text without `:` holds no pattern with `:` at index 3, so replacing
/// it changes nothing.
proof fn lemma_replace_in_plain(x: Seq<char>, p: Seq<char>, r: Seq<char>)
    requires
        !x.contains(':'),
        p.len() > 3,
        p[3] == ':',
    ensures
        replace_all(x, p, r) == x,
{
    lemma_colon_pins_occurrence(x, p, -1);
    lemma_replace_absent(x, p, r);
}

/// Linking an attachment rewrites its reference: in an HTML text whose
/// only `:` is that of one reference `cid:C`, `cid:'C'` or `cid:"C"` to the
/// attachment's content id `C`, the reference becomes the attachment's link
/// and nothing else changes (the id and `C` hold no `:` and no quote, and
/// `C` is not empty).
pub proof fn law_relink_links_a_reference(
    pre: Seq<char>,
    post: Seq<char>,
    id: Seq<char>,
    c: Seq<char>,
)
    requires
        !pre.contains(':'),
        !post.contains(':'),
        !id.contains(':'),
        !c.contains(':'),
        !c.contains('\''),
        !c.contains('"'),
        c.len() > 0,
    ensures
        relink(pre + "cid:"@ + c + post, id, c) == pre + link_target(id, c) + post,
        relink(pre + "cid:'"@ + c + "'"@ + post, id, c) == pre + link_target(id, c) + post,
        relink(pre + "cid:\""@ + c + "\""@ + post, id, c) == pre + link_target(id, c) + post,
{
    reveal_strlit("cid:");
    reveal_strlit("cid:'");
    reveal_strlit("cid:\"");
    reveal_strlit("'");
    reveal_strlit("\"");
    reveal_strlit("/api/attachments/");
    reveal_strlit("/");
    let t = link_target(id, c);
    let p1 = "cid:"@ + c;
    let p2 = "cid:'"@ + c + "'"@;
    let p3 = "cid:\""@ + c + "\""@;
    assert(p1[3] == ':' && p2[3] == ':' && p3[3] == ':');
    assert(p1[4] == c[0] && p2[4] == '\'' && p3[4] == '\"');
    assert(c[0] != '\'' && c[0] != '"');
    let u = pre + t + post;
    assert(!u.contains(':')) by {
        if u.contains(':') {
            let j = choose|j: int| 0 <= j < u.len() && u[j] == ':';
            let a = "/api/attachments/"@;
            if j < pre.len() {
                assert(u[j] == pre[j]);
            } else if j < pre.len() + a.len() {
                assert(u[j] == a[j - pre.len()]);
            } else if j < pre.len() + a.len() + id.len() {
                assert(u[j] == id[j - pre.len() - a.len()]);
            } else if j == pre.len() + a.len() + id.len() {
                assert(u[j] == '/');
            } else if j < pre.len() + t.len() {
                assert(u[j] == c[j - pre.len() - a.len() - id.len() - 1]);
            } else {
                assert(u[j] == post[j - pre.len() - t.len()]);
            }
        }
    }
    lemma_replace_in_plain(post, p1, t);
    lemma_replace_in_plain(post, p2, t);
    lemma_replace_in_plain(post, p3, t);
    lemma_replace_in_plain(u, p1, t);
    lemma_replace_in_plain(u, p2, t);
    lemma_replace_in_plain(u, p3, t);
    let k = pre.len() + 3int;
    // The unquoted reference.
    let h1 = pre + p1 + post;
    assert(h1 =~= pre + "cid:"@ + c + post);
    assert(h1 =~= pre + (p1 + post));
    lemma_replace_after_plain(pre, p1 + post, p1, t);
    lemma_replace_at_front(p1, post, t);
    assert(pre + (t + post) =~= u);
    // A reference quoted with `'`.
    let h2 = pre + p2 + post;
    assert(h2 =~= pre + "cid:'"@ + c + "'"@ + post);
    assert forall|j: int| 0 <= j < h2.len() && #[trigger] h2[j] == ':' implies j == k by {
        if j < pre.len() {
            assert(h2[j] == pre[j]);
        } else if j < pre.len() + 5 {
            assert(h2[j] == p2[j - pre.len()]);
        } else if j < pre.len() + 5 + c.len() {
            assert(h2[j] == c[j - pre.len() - 5]);
        } else if j == pre.len() + 5 + c.len() {
            assert(h2[j] == '\'');
        } else {
            assert(h2[j] == post[j - pre.len() - p2.len()]);
        }
    }
    assert(h2[k + 1] == '\'');
    lemma_colon_pins_occurrence(h2, p1, k);
    lemma_replace_absent(h2, p1, t);
    assert(h2 =~= pre + (p2 + post));
    lemma_replace_after_plain(pre, p2 + post, p2, t);
    lemma_replace_at_front(p2, post, t);
    // A reference quoted with `"`.
    let h3 = pre + p3 + post;
    assert(h3 =~= pre + "cid:\""@ + c + "\""@ + post);
    assert forall|j: int| 0 <= j < h3.len() && #[trigger] h3[j] == ':' implies j == k by {
        if j < pre.len() {
            assert(h3[j] == pre[j]);
        } else if j < pre.len() + 5 {
            assert(h3[j] == p3[j - pre.len()]);
        } else if j < pre.len() + 5 + c.len() {
            assert(h3[j] == c[j - pre.len() - 5]);
        } else if j == pre.len() + 5 + c.len() {
            assert(h3[j] == '"');
        } else {
            assert(h3[j] == post[j - pre.len() - p3.len()]);
        }
    }
    assert(h3[k + 1] == '"');
    lemma_colon_pins_occurrence(h3, p1, k);
    lemma_replace_absent(h3, p1, t);
    lemma_colon_pins_occurrence(h3, p2, k);
    lemma_replace_absent(h3, p2, t);
    assert(h3 =~= pre + (p3 + post));
    lemma_replace_after_plain(pre, p3 + post, p3, t);
    lemma_replace_at_front(p3, post, t);
}

} // verus!
