//! Content-Transfer-Encoding decoders: quoted-printable and base64.
use vstd::prelude::*;

verus! {

/// The value of an ASCII hexadecimal digit, upper or lower case.
pub open spec fn hex_digit_value(b: u8) -> Option<u8> {
    if 0x30 <= b <= 0x39 {
        Some((b - 0x30) as u8)
    } else if 0x61 <= b <= 0x66 {
        Some((b - 0x61 + 10) as u8)
    } else if 0x41 <= b <= 0x46 {
        Some((b - 0x41 + 10) as u8)
    } else {
        None
    }
}

/// Value of one hexadecimal digit (`0`-`9`, `a`-`f`, `A`-`F`), or `None`.
pub fn hex_val(b: u8) -> (r: Option<u8>)
    ensures
        r == hex_digit_value(b),
        r matches Some(v) ==> v < 16,
{
    if 0x30 <= b && b <= 0x39 {
        Some(b - 0x30)
    } else if 0x61 <= b && b <= 0x66 {
        Some(b - 0x61 + 10)
    } else if 0x41 <= b && b <= 0x46 {
        Some(b - 0x41 + 10)
    } else {
        None
    }
}

/// Quoted-printable decoding of `s` (RFC 2045, 6.7), as this service
/// reads it: `=` before a line break (LF or CRLF) is a soft break and
/// vanishes, `=` followed by two hex digits stands for that byte, any other
/// `=` is dropped, and every other byte stands for itself.
pub open spec fn qp_decode(s: Seq<u8>) -> Seq<u8>
    decreases s.len(),
{
    if s.len() == 0 {
        Seq::<u8>::empty()
    } else if s[0] == 0x3D {
        if s.len() >= 2 && s[1] == 0x0A {
            qp_decode(s.skip(2))
        } else if s.len() >= 3 && s[1] == 0x0D && s[2] == 0x0A {
            qp_decode(s.skip(3))
        } else if s.len() >= 3 && hex_digit_value(s[1]) is Some && hex_digit_value(s[2]) is Some {
            seq![(hex_digit_value(s[1])->Some_0 * 16 + hex_digit_value(s[2])->Some_0) as u8]
                + qp_decode(s.skip(3))
        } else {
            qp_decode(s.skip(1))
        }
    } else {
        seq![s[0]] + qp_decode(s.skip(1))
    }
}

/// Decodes quoted-printable bytes.
pub fn decode_quoted_printable_bytes(bytes: &[u8]) -> (out: Vec<u8>)
    ensures
        out@ == qp_decode(bytes@),
{
    let mut out: Vec<u8> = Vec::new();
    let n = bytes.len();
    let mut i: usize = 0;
    assert(bytes@.skip(0) =~= bytes@);
    while i < n
        invariant
            n == bytes@.len(),
            i <= n,
            out@ + qp_decode(bytes@.skip(i as int)) == qp_decode(bytes@),
        decreases n - i,
    {
        let ghost rest = bytes@.skip(i as int);
        let ghost before = out@;
        if bytes[i] == 0x3D {
            if n - i > 1 && bytes[i + 1] == 0x0A {
                assert(rest.skip(2) =~= bytes@.skip(i + 2));
                i += 2;
                continue;
            }
            if n - i > 2 && bytes[i + 1] == 0x0D && bytes[i + 2] == 0x0A {
                assert(rest.skip(3) =~= bytes@.skip(i + 3));
                i += 3;
                continue;
            }
            if n - i > 2 {
                let hi = hex_val(bytes[i + 1]);
                let lo = hex_val(bytes[i + 2]);
                if let (Some(h), Some(l)) = (hi, lo) {
                    let b = (h << 4) | l;
                    assert(b == h * 16 + l) by (bit_vector)
                        requires
                            h < 16,
                            l < 16,
                            b == (h << 4) | l,
                    ;
                    out.push(b);
                    assert(rest.skip(3) =~= bytes@.skip(i + 3));
                    assert(before + (seq![b] + qp_decode(bytes@.skip(i + 3))) =~= out@
                        + qp_decode(bytes@.skip(i + 3)));
                    i += 3;
                    continue;
                }
            }
            assert(rest.skip(1) =~= bytes@.skip(i + 1));
            i += 1;
        } else {
            out.push(bytes[i]);
            assert(rest.skip(1) =~= bytes@.skip(i + 1));
            assert(before + (seq![bytes@[i as int]] + qp_decode(bytes@.skip(i + 1))) =~= out@
                + qp_decode(bytes@.skip(i + 1)));
            i += 1;
        }
    }
    assert(out@ + qp_decode(bytes@.skip(i as int)) =~= out@);
    out
}

/// Decodes quoted-printable text, byte by byte of its UTF-8 encoding.
pub fn decode_quoted_printable(input: &str) -> (out: Vec<u8>)
    ensures
        out@ == qp_decode(vstd::utf8::encode_utf8(input@)),
{
    decode_quoted_printable_bytes(input.as_bytes())
}

/// The value of a base64 alphabet byte (`A`-`Z`, `a`-`z`, `0`-`9`, `+`, `/`).
pub open spec fn b64_value(b: u8) -> Option<u8> {
    if 0x41 <= b <= 0x5A {
        Some((b - 0x41) as u8)
    } else if 0x61 <= b <= 0x7A {
        Some((b - 0x61 + 26) as u8)
    } else if 0x30 <= b <= 0x39 {
        Some((b - 0x30 + 52) as u8)
    } else if b == 0x2B {
        Some(62)
    } else if b == 0x2F {
        Some(63)
    } else {
        None
    }
}

/// The six-bit value that a base64 byte stands for (0 off the alphabet).
pub open spec fn sextet(b: u8) -> int {
    match b64_value(b) {
        Some(v) => v as int,
        None => 0,
    }
}

/// ASCII white space as `u8::is_ascii_whitespace` has it: space, tab, LF,
/// form feed, CR.
pub open spec fn is_ascii_space(b: u8) -> bool {
    b == 0x20 || b == 0x09 || b == 0x0A || b == 0x0C || b == 0x0D
}

/// The bytes that base64 decoding reads: all but padding and white space.
pub open spec fn b64_kept(b: u8) -> bool {
    b != 0x3D && !is_ascii_space(b)
}

/// The bytes of `input` that base64 decoding reads, in order.
pub open spec fn b64_symbols_of(input: Seq<u8>) -> Seq<u8> {
    input.filter(|b: u8| b64_kept(b))
}

/// Number of bytes that `n` base64 symbols encode: three per full group of
/// four, one for a trailing pair, two for a trailing triple.
pub open spec fn b64_len(n: int) -> int {
    3 * (n / 4) + if n % 4 == 0 {
        0
    } else {
        n % 4 - 1
    }
}

/// Byte `j` of the data that the symbols `f` encode: bytes come in threes
/// from groups of four six-bit values, high bits first.
pub open spec fn b64_byte(f: Seq<u8>, j: int) -> u8 {
    let g = 4 * (j / 3);
    if j % 3 == 0 {
        (sextet(f[g]) * 4 + sextet(f[g + 1]) / 16) as u8
    } else if j % 3 == 1 {
        ((sextet(f[g + 1]) % 16) * 16 + sextet(f[g + 2]) / 4) as u8
    } else {
        ((sextet(f[g + 2]) % 4) * 64 + sextet(f[g + 3])) as u8
    }
}

/// Base64 decoding of `input` as this service reads it: padding and ASCII
/// white space are skipped, any other byte off the alphabet makes the
/// input invalid, and a trailing partial group yields the whole bytes it
/// holds.
pub open spec fn b64_decode(input: Seq<u8>) -> Option<Seq<u8>> {
    let f = b64_symbols_of(input);
    if forall|i: int| 0 <= i < f.len() ==> b64_value(#[trigger] f[i]) is Some {
        Some(Seq::new(b64_len(f.len() as int) as nat, |j: int| b64_byte(f, j)))
    } else {
        None
    }
}

/// The base64 value of one byte.
pub fn b64_lookup(b: u8) -> (r: Option<u8>)
    ensures
        r == b64_value(b),
        r matches Some(v) ==> v < 64,
{
    if 0x41 <= b && b <= 0x5A {
        Some(b - 0x41)
    } else if 0x61 <= b && b <= 0x7A {
        Some(b - 0x61 + 26)
    } else if 0x30 <= b && b <= 0x39 {
        Some(b - 0x30 + 52)
    } else if b == 0x2B {
        Some(62)
    } else if b == 0x2F {
        Some(63)
    } else {
        None
    }
}

/// The bytes of `input` that are neither `=` nor ASCII white space.
fn b64_symbols(input: &[u8]) -> (f: Vec<u8>)
    ensures
        f@ == b64_symbols_of(input@),
{
    let mut f: Vec<u8> = Vec::new();
    let mut i: usize = 0;
    assert(input@.take(0) =~= Seq::<u8>::empty());
    while i < input.len()
        invariant
            i <= input@.len(),
            f@ == input@.take(i as int).filter(|b: u8| b64_kept(b)),
        decreases input.len() - i,
    {
        let b = input[i];
        proof {
            assert(input@.take(i + 1) =~= input@.take(i as int).push(b));
            input@.take(i as int).lemma_filter_push(b, |b: u8| b64_kept(b));
        }
        if b != 0x3D && !(b == 0x20 || b == 0x09 || b == 0x0A || b == 0x0C || b == 0x0D) {
            f.push(b);
        }
        i += 1;
    }
    assert(input@.take(input@.len() as int) =~= input@);
    f
}

/// Decodes base64 text (its UTF-8 bytes); `None` when a byte other than
/// padding or white space lies off the alphabet.
pub fn base64_decode(input: &str) -> (r: Option<Vec<u8>>)
    ensures
        r is Some <==> b64_decode(vstd::utf8::encode_utf8(input@)) is Some,
        r matches Some(out) ==> out@ == b64_decode(vstd::utf8::encode_utf8(input@))->Some_0,
{
    let f = b64_symbols(input.as_bytes());
    let ghost fs = f@;
    let mut out: Vec<u8> = Vec::new();
    let mut buf: u32 = 0;
    let mut bits: u32 = 0;
    let mut n: usize = 0;
    while n < f.len()
        invariant
            fs == f@,
            fs == b64_symbols_of(vstd::utf8::encode_utf8(input@)),
            n <= fs.len(),
            forall|k: int| 0 <= k < n ==> b64_value(#[trigger] fs[k]) is Some,
            out@ =~= Seq::new(b64_len(n as int) as nat, |j: int| b64_byte(fs, j)),
            n % 4 == 0 ==> bits == 0,
            n % 4 == 1 ==> bits == 6 && (buf & 63) == sextet(fs[n - 1]),
            n % 4 == 2 ==> bits == 4 && (buf & 15) == sextet(fs[n - 1]) % 16,
            n % 4 == 3 ==> bits == 2 && (buf & 3) == sextet(fs[n - 1]) % 4,
        decreases f.len() - n,
    {
        let v8 = match b64_lookup(f[n]) {
            Some(v) => v,
            None => {
                assert(!(b64_value(fs[n as int]) is Some));
                return None;
            },
        };
        let v = v8 as u32;
        let ghost old_buf = buf;
        let ghost prev: u32 = if n > 0 { sextet(fs[n - 1]) as u32 } else { 0 };
        assert(v == sextet(fs[n as int]));
        buf = (buf << 6) | v;
        bits = bits + 6;
        if bits >= 8 {
            bits = bits - 8;
            let byte = (#[verifier::truncate] ((buf >> bits) as u8)) & 0xff;
            if n % 4 == 1 {
                assert(byte == prev * 4 + v / 16) by (bit_vector)
                    requires
                        v < 64,
                        old_buf & 63 == prev,
                        buf == (old_buf << 6) | v,
                        bits == 4,
                        byte == ((buf >> bits) as u8) & 0xff,
                ;
                assert(buf & 15 == v % 16) by (bit_vector)
                    requires
                        v < 64,
                        buf == (old_buf << 6) | v,
                ;
            } else if n % 4 == 2 {
                assert(byte == (prev % 16) * 16 + v / 4) by (bit_vector)
                    requires
                        v < 64,
                        old_buf & 15 == prev % 16,
                        buf == (old_buf << 6) | v,
                        bits == 2,
                        byte == ((buf >> bits) as u8) & 0xff,
                ;
                assert(buf & 3 == v % 4) by (bit_vector)
                    requires
                        v < 64,
                        buf == (old_buf << 6) | v,
                ;
            } else {
                assert(byte == (prev % 4) * 64 + v) by (bit_vector)
                    requires
                        v < 64,
                        old_buf & 3 == prev % 4,
                        buf == (old_buf << 6) | v,
                        bits == 0,
                        byte == ((buf >> bits) as u8) & 0xff,
                ;
            }
            out.push(byte);
        } else {
            assert(buf & 63 == v) by (bit_vector)
                requires
                    v < 64,
                    buf == (old_buf << 6) | v,
            ;
        }
        n += 1;
    }
    Some(out)
}

/// A vector holding the bytes of `s`.
pub fn copy_bytes(s: &[u8]) -> (v: Vec<u8>)
    ensures
        v@ == s@,
{
    let mut v: Vec<u8> = Vec::new();
    let mut i: usize = 0;
    while i < s.len()
        invariant
            i <= s@.len(),
            v@ == s@.take(i as int),
        decreases s.len() - i,
    {
        v.push(s[i]);
        i += 1;
        assert(v@ =~= s@.take(i as int));
    }
    assert(s@.take(s@.len() as int) =~= s@);
    v
}

/// Quoted-printable data without any `=` stand for themselves.
pub proof fn law_qp_plain_bytes_unchanged(s: Seq<u8>)
    requires
        !s.contains(0x3Du8),
    ensures
        qp_decode(s) == s,
    decreases s.len(),
{
    if s.len() > 0 {
        assert(s[0] != 0x3D);
        assert forall|k: int| 0 <= k < s.skip(1).len() implies s.skip(1)[k] != 0x3Du8 by {
            assert(s.skip(1)[k] == s[k + 1]);
        }
        law_qp_plain_bytes_unchanged(s.skip(1));
        assert(seq![s[0]] + s.skip(1) =~= s);
    }
}


/// The hexadecimal digit for `v` (below 16), in upper or lower case.
pub open spec fn hex_digit(v: u8, upper: bool) -> u8 {
    if v < 10 {
        (0x30 + v) as u8
    } else if upper {
        (0x41 + v - 10) as u8
    } else {
        (0x61 + v - 10) as u8
    }
}

/// Every byte of `bs` written as `=` and two hexadecimal digits, in upper
/// or lower case.
pub open spec fn qp_escape(bs: Seq<u8>, upper: bool) -> Seq<u8>
    decreases bs.len(),
{
    if bs.len() == 0 {
        Seq::<u8>::empty()
    } else {
        seq![0x3Du8, hex_digit(bs[0] / 16, upper), hex_digit(bs[0] % 16, upper)] + qp_escape(
            bs.skip(1),
            upper,
        )
    }
}

/// Escaped bytes decode back to themselves: `=XX` stands for the byte
/// `XX`, whatever the case of its digits.
pub proof fn law_qp_escape_round_trip(bs: Seq<u8>, upper: bool)
    ensures
        qp_decode(qp_escape(bs, upper)) == bs,
    decreases bs.len(),
{
    if bs.len() > 0 {
        let b = bs[0];
        let e = qp_escape(bs, upper);
        let hi = hex_digit(b / 16, upper);
        let lo = hex_digit(b % 16, upper);
        assert(hex_digit_value(hi) == Some((b / 16) as u8));
        assert(hex_digit_value(lo) == Some((b % 16) as u8));
        assert(e[0] == 0x3Du8 && e[1] == hi && e[2] == lo);
        assert(e.skip(3) =~= qp_escape(bs.skip(1), upper));
        law_qp_escape_round_trip(bs.skip(1), upper);
        assert(((b / 16) as u8 * 16 + (b % 16) as u8) as u8 == b);
        assert(seq![b] + bs.skip(1) =~= bs);
    }
}

/// Decoding splits before a `=`: what comes before it never reaches into
/// the bytes from the `=` on.
proof fn lemma_qp_split_before_equals(a: Seq<u8>, t: Seq<u8>)
    requires
        t.len() > 0,
        t[0] == 0x3Du8,
    ensures
        qp_decode(a + t) == qp_decode(a) + qp_decode(t),
    decreases a.len(),
{
    let s = a + t;
    if a.len() == 0 {
        assert(s =~= t);
    } else if a[0] == 0x3D {
        if a.len() >= 2 && a[1] == 0x0A {
            assert(s.skip(2) =~= a.skip(2) + t);
            lemma_qp_split_before_equals(a.skip(2), t);
        } else if a.len() >= 3 && a[1] == 0x0D && a[2] == 0x0A {
            assert(s.skip(3) =~= a.skip(3) + t);
            lemma_qp_split_before_equals(a.skip(3), t);
        } else if a.len() >= 3 && hex_digit_value(a[1]) is Some && hex_digit_value(a[2]) is Some {
            assert(s.skip(3) =~= a.skip(3) + t);
            lemma_qp_split_before_equals(a.skip(3), t);
            assert(seq![(hex_digit_value(a[1])->Some_0 * 16 + hex_digit_value(a[2])->Some_0) as u8]
                + (qp_decode(a.skip(3)) + qp_decode(t)) =~= seq![
                (hex_digit_value(a[1])->Some_0 * 16 + hex_digit_value(a[2])->Some_0) as u8,
            ] + qp_decode(a.skip(3)) + qp_decode(t));
        } else {
            if a.len() == 1 {
                assert(s[1] == t[0]);
            } else {
                assert(s[1] == a[1]);
            }
            if a.len() == 2 {
                assert(s[2] == t[0]);
            } else if a.len() >= 3 {
                assert(s[2] == a[2]);
            }
            assert(s.skip(1) =~= a.skip(1) + t);
            lemma_qp_split_before_equals(a.skip(1), t);
        }
    } else {
        assert(s.skip(1) =~= a.skip(1) + t);
        lemma_qp_split_before_equals(a.skip(1), t);
        assert(seq![a[0]] + (qp_decode(a.skip(1)) + qp_decode(t)) =~= seq![a[0]] + qp_decode(
            a.skip(1),
        ) + qp_decode(t));
    }
}

/// A soft line break (`=` before CRLF or LF) splits the decoding: the data
/// around it decode as if each stood alone, and the break itself vanishes.
pub proof fn law_qp_soft_break_splits(a: Seq<u8>, c: Seq<u8>)
    ensures
        qp_decode(a + seq![0x3Du8, 0x0Du8, 0x0Au8] + c) == qp_decode(a) + qp_decode(c),
        qp_decode(a + seq![0x3Du8, 0x0Au8] + c) == qp_decode(a) + qp_decode(c),
{
    let crlf = seq![0x3Du8, 0x0Du8, 0x0Au8] + c;
    let lf = seq![0x3Du8, 0x0Au8] + c;
    assert(a + seq![0x3Du8, 0x0Du8, 0x0Au8] + c =~= a + crlf);
    assert(a + seq![0x3Du8, 0x0Au8] + c =~= a + lf);
    lemma_qp_split_before_equals(a, crlf);
    lemma_qp_split_before_equals(a, lf);
    assert(crlf.skip(3) =~= c);
    assert(lf.skip(2) =~= c);
}

/// The UTF-8 encoding of a concatenation is the concatenation of the
/// encodings.
proof fn lemma_encode_utf8_concat(a: Seq<char>, b: Seq<char>)
    ensures
        vstd::utf8::encode_utf8(a + b) == vstd::utf8::encode_utf8(a) + vstd::utf8::encode_utf8(b),
    decreases a.len(),
{
    if a.len() > 0 {
        assert((a + b).drop_first() =~= a.drop_first() + b);
        lemma_encode_utf8_concat(a.drop_first(), b);
        assert(vstd::utf8::encode_scalar(a[0] as u32) + (vstd::utf8::encode_utf8(a.drop_first())
            + vstd::utf8::encode_utf8(b)) =~= vstd::utf8::encode_scalar(a[0] as u32)
            + vstd::utf8::encode_utf8(a.drop_first()) + vstd::utf8::encode_utf8(b));
    } else {
        assert(a + b =~= b);
    }
}

/// An ASCII character is encoded as its own byte.
proof fn lemma_ascii_scalar(v: u32)
    requires
        v <= 0x7F,
    ensures
        vstd::utf8::encode_scalar(v) == seq![v as u8],
{
    assert(v & 0x7F == v) by (bit_vector)
        requires
            v <= 0x7F,
    ;
}

/// The soft-break law on text, as `decode_quoted_printable` reads it: a
/// soft break between two texts splits the decoding of their UTF-8 bytes.
pub proof fn law_qp_text_soft_break_splits(a: Seq<char>, c: Seq<char>)
    ensures
        qp_decode(vstd::utf8::encode_utf8(a + "=\r\n"@ + c)) == qp_decode(
            vstd::utf8::encode_utf8(a),
        ) + qp_decode(vstd::utf8::encode_utf8(c)),
        qp_decode(vstd::utf8::encode_utf8(a + "=\n"@ + c)) == qp_decode(vstd::utf8::encode_utf8(a))
            + qp_decode(vstd::utf8::encode_utf8(c)),
{
    reveal_strlit("=\r\n");
    reveal_strlit("=\n");
    let crlf = "=\r\n"@;
    let lf = "=\n"@;
    reveal_with_fuel(vstd::utf8::encode_utf8, 4);
    assert(crlf[0] == '=' && crlf[1] == '\r' && crlf[2] == '\n' && lf[0] == '=' && lf[1] == '\n');
    lemma_ascii_scalar(0x3D);
    lemma_ascii_scalar(0x0D);
    lemma_ascii_scalar(0x0A);
    assert(crlf.drop_first().drop_first().drop_first() =~= Seq::<char>::empty());
    assert(lf.drop_first().drop_first() =~= Seq::<char>::empty());
    assert(vstd::utf8::encode_utf8(crlf) =~= seq![0x3Du8, 0x0Du8, 0x0Au8]);
    assert(vstd::utf8::encode_utf8(lf) =~= seq![0x3Du8, 0x0Au8]);
    lemma_encode_utf8_concat(a + crlf, c);
    lemma_encode_utf8_concat(a, crlf);
    lemma_encode_utf8_concat(a + lf, c);
    lemma_encode_utf8_concat(a, lf);
    law_qp_soft_break_splits(vstd::utf8::encode_utf8(a), vstd::utf8::encode_utf8(c));
}

/// The base64 alphabet byte for a six-bit value.
pub open spec fn b64_symbol(v: int) -> u8 {
    if v < 26 {
        (0x41 + v) as u8
    } else if v < 52 {
        (0x61 + v - 26) as u8
    } else if v < 62 {
        (0x30 + v - 52) as u8
    } else if v == 62 {
        0x2Bu8
    } else {
        0x2Fu8
    }
}

/// Byte `i` of `bs`, or 0 past its end.
pub open spec fn byte_or_zero(bs: Seq<u8>, i: int) -> int {
    if 0 <= i < bs.len() {
        bs[i] as int
    } else {
        0
    }
}

/// The six-bit value at position `k` of the base64 encoding of `bs`: each
/// group of three bytes gives four values, high bits first, a missing byte
/// counting as zero.
pub open spec fn b64_sextet_of(bs: Seq<u8>, k: int) -> int {
    let g = 3 * (k / 4);
    let b0 = byte_or_zero(bs, g);
    let b1 = byte_or_zero(bs, g + 1);
    let b2 = byte_or_zero(bs, g + 2);
    if k % 4 == 0 {
        b0 / 4
    } else if k % 4 == 1 {
        (b0 % 4) * 16 + b1 / 16
    } else if k % 4 == 2 {
        (b1 % 16) * 4 + b2 / 64
    } else {
        b2 % 64
    }
}

/// Number of symbols in the unpadded base64 encoding of `n` bytes.
pub open spec fn b64_encoded_len(n: int) -> int {
    4 * (n / 3) + if n % 3 == 0 {
        0
    } else {
        n % 3 + 1
    }
}

/// The standard base64 encoding of `bs` (RFC 4648, alphabet `A`-`Z`,
/// `a`-`z`, `0`-`9`, `+`, `/`), without padding.
pub open spec fn b64_encode(bs: Seq<u8>) -> Seq<u8> {
    Seq::new(b64_encoded_len(bs.len() as int) as nat, |k: int| b64_symbol(b64_sextet_of(bs, k)))
}

/// The standard base64 encoding of `bs`, padded with `=` to a multiple of
/// four symbols.
pub open spec fn b64_encode_padded(bs: Seq<u8>) -> Seq<u8> {
    let e = b64_encode(bs);
    e + Seq::new(((4 - e.len() % 4) % 4) as nat, |i: int| 0x3Du8)
}

/// Filtering keeps a sequence whose bytes are all read.
proof fn lemma_filter_all_kept(x: Seq<u8>)
    requires
        forall|i: int| 0 <= i < x.len() ==> b64_kept(#[trigger] x[i]),
    ensures
        b64_symbols_of(x) == x,
    decreases x.len(),
{
    reveal(Seq::filter);
    if x.len() > 0 {
        lemma_filter_all_kept(x.drop_last());
        assert(b64_kept(x[x.len() - 1]));
        assert(x.drop_last().push(x.last()) =~= x);
    }
}

/// Filtering empties a sequence of which no byte is read.
proof fn lemma_filter_none_kept(x: Seq<u8>)
    requires
        forall|i: int| 0 <= i < x.len() ==> !b64_kept(#[trigger] x[i]),
    ensures
        b64_symbols_of(x) == Seq::<u8>::empty(),
    decreases x.len(),
{
    reveal(Seq::filter);
    if x.len() > 0 {
        lemma_filter_none_kept(x.drop_last());
        assert(!b64_kept(x[x.len() - 1]));
    }
}

/// The alphabet byte of a six-bit value reads back as that value.
proof fn lemma_b64_symbol_value(v: int)
    requires
        0 <= v < 64,
    ensures
        b64_value(b64_symbol(v)) == Some(v as u8),
        b64_kept(b64_symbol(v)),
{
}

/// Every value of the encoding is six bits wide.
proof fn lemma_b64_sextet_range(bs: Seq<u8>, k: int)
    requires
        0 <= k,
    ensures
        0 <= b64_sextet_of(bs, k) < 64,
{
    let g = 3 * (k / 4);
    let b0 = byte_or_zero(bs, g);
    let b1 = byte_or_zero(bs, g + 1);
    let b2 = byte_or_zero(bs, g + 2);
    assert(0 <= b0 < 256 && 0 <= b1 < 256 && 0 <= b2 < 256);
    assert(0 <= b0 / 4 < 64) by (nonlinear_arith)
        requires
            0 <= b0 < 256,
    ;
    assert(0 <= (b0 % 4) * 16 + b1 / 16 < 64) by (nonlinear_arith)
        requires
            0 <= b0 < 256,
            0 <= b1 < 256,
    ;
    assert(0 <= (b1 % 16) * 4 + b2 / 64 < 64) by (nonlinear_arith)
        requires
            0 <= b1 < 256,
            0 <= b2 < 256,
    ;
    assert(0 <= b2 % 64 < 64) by (nonlinear_arith)
        requires
            0 <= b2 < 256,
    ;
}

/// Position `4q + m` of the encoding lies in group `q`, at place `m`.
proof fn lemma_group_place(q: int, m: int)
    requires
        0 <= q,
        0 <= m < 4,
    ensures
        (4 * q + m) / 4 == q,
        (4 * q + m) % 4 == m,
{
    assert((4 * q + m) / 4 == q && (4 * q + m) % 4 == m) by (nonlinear_arith)
        requires
            0 <= q,
            0 <= m < 4,
    ;
}

/// Byte `j` that the encoding of `bs` decodes to is `bs[j]`.
proof fn lemma_b64_byte_of_encoding(bs: Seq<u8>, j: int)
    requires
        0 <= j < bs.len(),
    ensures
        b64_byte(b64_encode(bs), j) == bs[j],
{
    let f = b64_encode(bs);
    let n = bs.len() as int;
    let q = j / 3;
    let r = j % 3;
    assert(j == 3 * q + r && 0 <= r < 3 && 0 <= q) by (nonlinear_arith)
        requires
            0 <= j,
            q == j / 3,
            r == j % 3,
    ;
    let nq = n / 3;
    let nr = n % 3;
    assert(n == 3 * nq + nr && 0 <= nr < 3 && 0 <= nq) by (nonlinear_arith)
        requires
            0 <= n,
            nq == n / 3,
            nr == n % 3,
    ;
    assert(q <= nq) by (nonlinear_arith)
        requires
            j == 3 * q + r,
            n == 3 * nq + nr,
            0 <= r < 3,
            0 <= nr < 3,
            j < n,
    ;
    assert(q < nq || r < nr) by (nonlinear_arith)
        requires
            j == 3 * q + r,
            n == 3 * nq + nr,
            0 <= r < 3,
            0 <= nr < 3,
            j < n,
            q <= nq,
    ;
    let g = 4 * q;
    assert(f.len() == b64_encoded_len(n));
    assert(g + r + 1 < f.len());
    assert(r == 2 ==> g + 3 < f.len());
    let b0 = byte_or_zero(bs, 3 * q);
    let b1 = byte_or_zero(bs, 3 * q + 1);
    let b2 = byte_or_zero(bs, 3 * q + 2);
    assert(0 <= b0 < 256 && 0 <= b1 < 256 && 0 <= b2 < 256);
    let top = if r == 2 { 4int } else { r + 2 };
    assert forall|m: int| 0 <= m < top implies sextet(#[trigger] f[g + m]) == b64_sextet_of(bs, g + m)
        && b64_sextet_of(bs, g + m) == (if m == 0 {
        b0 / 4
    } else if m == 1 {
        (b0 % 4) * 16 + b1 / 16
    } else if m == 2 {
        (b1 % 16) * 4 + b2 / 64
    } else {
        b2 % 64
    }) by {
        lemma_group_place(q, m);
        lemma_b64_sextet_range(bs, g + m);
        lemma_b64_symbol_value(b64_sextet_of(bs, g + m));
    }
    assert(j / 3 == q && j % 3 == r);
    if r == 0 {
        assert(sextet(f[g]) == b0 / 4);
        assert(sextet(f[g + 1]) == (b0 % 4) * 16 + b1 / 16);
        assert((b0 / 4) * 4 + ((b0 % 4) * 16 + b1 / 16) / 16 == b0) by (nonlinear_arith)
            requires
                0 <= b0 < 256,
                0 <= b1 < 256,
        ;
        assert(b0 == bs[j]);
    } else if r == 1 {
        assert(sextet(f[g + 1]) == (b0 % 4) * 16 + b1 / 16);
        assert(sextet(f[g + 2]) == (b1 % 16) * 4 + b2 / 64);
        assert((((b0 % 4) * 16 + b1 / 16) % 16) * 16 + ((b1 % 16) * 4 + b2 / 64) / 4 == b1)
            by (nonlinear_arith)
            requires
                0 <= b0 < 256,
                0 <= b1 < 256,
                0 <= b2 < 256,
        ;
        assert(b1 == bs[j]);
    } else {
        assert(sextet(f[g + 2]) == (b1 % 16) * 4 + b2 / 64);
        assert(sextet(f[g + 3]) == b2 % 64);
        assert((((b1 % 16) * 4 + b2 / 64) % 4) * 64 + b2 % 64 == b2) by (nonlinear_arith)
            requires
                0 <= b1 < 256,
                0 <= b2 < 256,
        ;
        assert(b2 == bs[j]);
    }
}

/// Base64 round trip: any input whose symbols (all but `=` and ASCII white
/// space) are the standard encoding of `bs` decodes to `bs`; padding and
/// line breaks anywhere change nothing.
pub proof fn law_b64_round_trip(bs: Seq<u8>, input: Seq<u8>)
    requires
        b64_symbols_of(input) == b64_encode(bs),
    ensures
        b64_decode(input) == Some(bs),
{
    let f = b64_encode(bs);
    let n = bs.len() as int;
    assert forall|i: int| 0 <= i < f.len() implies b64_value(#[trigger] f[i]) is Some by {
        lemma_b64_sextet_range(bs, i);
        lemma_b64_symbol_value(b64_sextet_of(bs, i));
    }
    let nq = n / 3;
    let nr = n % 3;
    assert(n == 3 * nq + nr && 0 <= nr < 3 && 0 <= nq) by (nonlinear_arith)
        requires
            0 <= n,
            nq == n / 3,
            nr == n % 3,
    ;
    let m = if nr == 0 { 0int } else { nr + 1 };
    lemma_group_place(nq, m);
    assert(b64_len(f.len() as int) == n);
    let d = Seq::new(b64_len(f.len() as int) as nat, |j: int| b64_byte(f, j));
    assert forall|j: int| 0 <= j < n implies d[j] == bs[j] by {
        lemma_b64_byte_of_encoding(bs, j);
    }
    assert(d =~= bs);
}

/// The padded standard encoding of `bs`, and the unpadded one, decode to
/// `bs`.
pub proof fn law_b64_encode_decodes(bs: Seq<u8>)
    ensures
        b64_decode(b64_encode_padded(bs)) == Some(bs),
        b64_decode(b64_encode(bs)) == Some(bs),
{
    let e = b64_encode(bs);
    let pad = Seq::new(((4 - e.len() % 4) % 4) as nat, |i: int| 0x3Du8);
    assert forall|i: int| 0 <= i < e.len() implies b64_kept(#[trigger] e[i]) by {
        lemma_b64_sextet_range(bs, i);
        lemma_b64_symbol_value(b64_sextet_of(bs, i));
    }
    lemma_filter_all_kept(e);
    lemma_filter_none_kept(pad);
    Seq::filter_distributes_over_add(e, pad, |b: u8| b64_kept(b));
    assert(e + Seq::<u8>::empty() =~= e);
    law_b64_round_trip(bs, e);
    law_b64_round_trip(bs, b64_encode_padded(bs));
}

/// Padding and ASCII white space are skipped wherever they stand: bytes of
/// them inserted anywhere leave the decoding unchanged, and decoding the
/// input equals decoding its symbols alone.
pub proof fn law_b64_skips_padding_and_space(a: Seq<u8>, w: Seq<u8>, c: Seq<u8>)
    requires
        forall|i: int| 0 <= i < w.len() ==> !b64_kept(#[trigger] w[i]),
    ensures
        b64_decode(a + w + c) == b64_decode(a + c),
        b64_decode(a) == b64_decode(b64_symbols_of(a)),
{
    let k = |b: u8| b64_kept(b);
    lemma_filter_none_kept(w);
    Seq::filter_distributes_over_add(a + w, c, k);
    Seq::filter_distributes_over_add(a, w, k);
    Seq::filter_distributes_over_add(a, c, k);
    assert(a.filter(k) + Seq::<u8>::empty() =~= a.filter(k));
    let f = b64_symbols_of(a);
    assert forall|i: int| 0 <= i < f.len() implies b64_kept(#[trigger] f[i]) by {
        a.lemma_filter_pred(k, i);
    }
    lemma_filter_all_kept(f);
}

/// A character that base64 decoding skips: `=` or ASCII white space
/// (`char::is_ascii_whitespace`: space, tab, LF, form feed, CR).
pub open spec fn b64_skipped_char(c: char) -> bool {
    c == '=' || c == ' ' || c == '\t' || c == '\n' || c == '\x0C' || c == '\r'
}

/// The UTF-8 encoding of one character.
proof fn lemma_encode_utf8_single(c: char)
    ensures
        vstd::utf8::encode_utf8(seq![c]) == vstd::utf8::encode_scalar(c as u32),
{
    reveal_with_fuel(vstd::utf8::encode_utf8, 2);
    assert(seq![c].drop_first() =~= Seq::<char>::empty());
    assert(vstd::utf8::encode_scalar(c as u32) + Seq::<u8>::empty() =~= vstd::utf8::encode_scalar(
        c as u32,
    ));
}

/// The symbols read from the UTF-8 bytes of a text do not change when the
/// skipped characters are taken out of the text first.
proof fn lemma_b64_symbols_of_text(s: Seq<char>)
    ensures
        b64_symbols_of(vstd::utf8::encode_utf8(s)) == b64_symbols_of(
            vstd::utf8::encode_utf8(s.filter(|c: char| !b64_skipped_char(c))),
        ),
    decreases s.len(),
{
    let kc = |c: char| !b64_skipped_char(c);
    let k = |b: u8| b64_kept(b);
    if s.len() > 0 {
        let init = s.drop_last();
        let c = s.last();
        lemma_b64_symbols_of_text(init);
        assert(init.push(c) =~= s);
        lemma_encode_utf8_concat(init, seq![c]);
        assert(init + seq![c] =~= s);
        lemma_encode_utf8_single(c);
        let e = vstd::utf8::encode_scalar(c as u32);
        Seq::filter_distributes_over_add(vstd::utf8::encode_utf8(init), e, k);
        let fi = init.filter(kc);
        assert(s.filter(kc) == if kc(c) {
            fi.push(c)
        } else {
            fi
        }) by {
            reveal(Seq::filter);
        }
        if kc(c) {
            assert(fi.push(c) =~= fi + seq![c]);
            lemma_encode_utf8_concat(fi, seq![c]);
            Seq::filter_distributes_over_add(vstd::utf8::encode_utf8(fi), e, k);
        } else {
            lemma_ascii_scalar(c as u32);
            assert(!b64_kept(e[0]));
            lemma_filter_none_kept(e);
            assert(b64_symbols_of(vstd::utf8::encode_utf8(init)) + Seq::<u8>::empty()
                =~= b64_symbols_of(vstd::utf8::encode_utf8(init)));
        }
    }
}

/// On text, as `base64_decode` reads it: taking `=` and ASCII white space
/// out of the text, wherever they stand, leaves the decoding unchanged.
pub proof fn law_b64_text_skips_padding_and_space(s: Seq<char>)
    ensures
        b64_decode(vstd::utf8::encode_utf8(s)) == b64_decode(
            vstd::utf8::encode_utf8(s.filter(|c: char| !b64_skipped_char(c))),
        ),
{
    lemma_b64_symbols_of_text(s);
}

} // verus!
