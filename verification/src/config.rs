//! Reading the service's configuration values: ports, lifetimes, the served
//! domains and the database location.
use vstd::prelude::*;

use crate::text::{
    chars_of, has_prefix, lemma_trim_idempotent, split_chars, split_on, starts_with, string_of,
    sub_chars, trim, trim_chars,
};

verus! {

/// `c` is an ASCII decimal digit.
pub open spec fn is_digit(c: char) -> bool {
    '0' <= c <= '9'
}

/// Every character of `s` is a decimal digit.
pub open spec fn all_digits(s: Seq<char>) -> bool {
    forall|i: int| 0 <= i < s.len() ==> is_digit(#[trigger] s[i])
}

/// The number that the decimal digits `s` write.
pub open spec fn digits_value(s: Seq<char>) -> int
    decreases s.len(),
{
    if s.len() == 0 {
        0
    } else {
        digits_value(s.drop_last()) * 10 + (s.last() as int - '0' as int)
    }
}

/// The number written by `s` (one or more digits) if it is at most `limit`.
pub open spec fn bounded_number(s: Seq<char>, limit: int) -> Option<int> {
    if s.len() > 0 && all_digits(s) && digits_value(s) <= limit {
        Some(digits_value(s))
    } else {
        None
    }
}

/// `s` without one leading `+`.
pub open spec fn unsigned_part(s: Seq<char>) -> Seq<char> {
    if s.len() > 0 && s[0] == '+' {
        s.drop_first()
    } else {
        s
    }
}

/// `s` read as a `u16` the way `str::parse` reads it: an optional `+` and
/// one or more digits, of a value that fits.
pub open spec fn parse_u16_text(s: Seq<char>) -> Option<u16> {
    match bounded_number(unsigned_part(s), 65535) {
        Some(v) => Some(v as u16),
        None => None,
    }
}

/// `s` read as an `i64` the way `str::parse` reads it: an optional sign and
/// one or more digits, of a value that fits.
pub open spec fn parse_i64_text(s: Seq<char>) -> Option<i64> {
    if s.len() > 0 && s[0] == '-' {
        match bounded_number(s.drop_first(), 9223372036854775808) {
            Some(v) => Some((-v) as i64),
            None => None,
        }
    } else {
        match bounded_number(unsigned_part(s), 9223372036854775807) {
            Some(v) => Some(v as i64),
            None => None,
        }
    }
}

/// A longer run of digits never writes a smaller number.
proof fn lemma_digits_grow(s: Seq<char>, i: int, j: int)
    requires
        0 <= i <= j <= s.len(),
        all_digits(s),
    ensures
        digits_value(s.take(i)) <= digits_value(s.take(j)),
    decreases j - i,
{
    if i < j {
        lemma_digits_grow(s, i, j - 1);
        assert(s.take(j).drop_last() =~= s.take(j - 1));
        assert(is_digit(s[j - 1]));
        lemma_digits_nonneg(s.take(j - 1));
    }
}

/// Decimal digits write a natural number.
proof fn lemma_digits_nonneg(s: Seq<char>)
    requires
        all_digits(s),
    ensures
        digits_value(s) >= 0,
    decreases s.len(),
{
    if s.len() > 0 {
        lemma_digits_nonneg(s.drop_last());
    }
}

/// The number that `d` writes, if `d` is one or more digits and the number
/// is at most `limit`.
fn read_number(d: &[char], limit: u64) -> (r: Option<u64>)
    ensures
        r matches Some(v) ==> bounded_number(d@, limit as int) == Some(v as int),
        r is None ==> bounded_number(d@, limit as int) is None,
{
    if d.len() == 0 {
        return None;
    }
    let mut acc: u128 = 0;
    let mut i: usize = 0;
    assert(d@.take(0) =~= Seq::<char>::empty());
    while i < d.len()
        invariant
            0 < d@.len(),
            i <= d@.len(),
            all_digits(d@.take(i as int)),
            acc == digits_value(d@.take(i as int)),
            acc <= limit,
        decreases d.len() - i,
    {
        let c = d[i];
        assert(d@.take(i + 1).drop_last() =~= d@.take(i as int));
        if !('0' <= c && c <= '9') {
            assert(!all_digits(d@)) by {
                assert(!is_digit(d@[i as int]));
            }
            return None;
        }
        let digit = (c as u32 - '0' as u32) as u128;
        acc = acc * 10 + digit;
        assert(all_digits(d@.take(i + 1))) by {
            assert forall|k: int| 0 <= k < i + 1 implies is_digit(#[trigger] d@.take(i + 1)[k]) by {
                if k < i {
                    assert(d@.take(i + 1)[k] == d@.take(i as int)[k]);
                }
            }
        }
        if acc > limit as u128 {
            proof {
                if all_digits(d@) {
                    lemma_digits_grow(d@, i + 1, d@.len() as int);
                    assert(d@.take(d@.len() as int) =~= d@);
                }
            }
            return None;
        }
        i += 1;
    }
    assert(d@.take(d@.len() as int) =~= d@);
    Some(acc as u64)
}

/// `text` read as a `u16`, or `default` when it is absent or is no such number.
pub fn parse_u16_or(text: Option<&str>, default: u16) -> (r: u16)
    ensures
        r == match text {
            Some(t) => match parse_u16_text(t@) {
                Some(v) => v,
                None => default,
            },
            None => default,
        },
{
    let t = match text {
        Some(t) => t,
        None => {
            return default;
        },
    };
    let cs = chars_of(t);
    let digits = if cs.len() > 0 && cs[0] == '+' {
        sub_chars(cs.as_slice(), 1, cs.len())
    } else {
        sub_chars(cs.as_slice(), 0, cs.len())
    };
    assert(cs@.len() > 0 ==> cs@.subrange(1, cs@.len() as int) =~= cs@.drop_first());
    assert(cs@.subrange(0, cs@.len() as int) =~= cs@);
    match read_number(digits.as_slice(), 65535) {
        Some(v) => v as u16,
        None => default,
    }
}

/// `text` read as an `i64`, or `default` when it is absent or is no such number.
pub fn parse_i64_or(text: Option<&str>, default: i64) -> (r: i64)
    ensures
        r == match text {
            Some(t) => match parse_i64_text(t@) {
                Some(v) => v,
                None => default,
            },
            None => default,
        },
{
    let t = match text {
        Some(t) => t,
        None => {
            return default;
        },
    };
    let cs = chars_of(t);
    assert(cs@.len() > 0 ==> cs@.subrange(1, cs@.len() as int) =~= cs@.drop_first());
    assert(cs@.subrange(0, cs@.len() as int) =~= cs@);
    if cs.len() > 0 && cs[0] == '-' {
        let digits = sub_chars(cs.as_slice(), 1, cs.len());
        match read_number(digits.as_slice(), 9223372036854775808) {
            Some(v) => {
                if v == 9223372036854775808 {
                    i64::MIN
                } else {
                    -(v as i64)
                }
            },
            None => default,
        }
    } else {
        let digits = if cs.len() > 0 && cs[0] == '+' {
            sub_chars(cs.as_slice(), 1, cs.len())
        } else {
            sub_chars(cs.as_slice(), 0, cs.len())
        };
        match read_number(digits.as_slice(), 9223372036854775807) {
            Some(v) => v as i64,
            None => default,
        }
    }
}

/// The served domains named in `text`: the comma-separated pieces, trimmed,
/// the empty ones left out, in order.
pub open spec fn domain_list(text: Seq<char>) -> Seq<Seq<char>> {
    split_on(text, ',').map_values(|p: Seq<char>| trim(p)).filter(|p: Seq<char>| p.len() > 0)
}

/// The served domains named in a comma-separated list.
pub fn parse_allowed_domains(text: &str) -> (r: Vec<String>)
    ensures
        r@.map_values(|d: String| d@) == domain_list(text@),
{
    let cs = chars_of(text);
    let pieces = split_chars(cs.as_slice(), ',');
    let ghost trimmed = split_on(text@, ',').map_values(|p: Seq<char>| trim(p));
    let mut out: Vec<String> = Vec::new();
    let mut i: usize = 0;
    assert(trimmed.take(0) =~= Seq::<Seq<char>>::empty());
    while i < pieces.len()
        invariant
            trimmed == split_on(text@, ',').map_values(|p: Seq<char>| trim(p)),
            pieces@.len() == split_on(text@, ',').len(),
            forall|k: int| 0 <= k < pieces@.len() ==> (#[trigger] pieces@[k])@ == split_on(text@, ',')[k],
            i <= pieces@.len(),
            out@.map_values(|d: String| d@) == trimmed.take(i as int).filter(
                |p: Seq<char>| p.len() > 0,
            ),
        decreases pieces.len() - i,
    {
        let t = trim_chars(pieces[i].as_slice());
        proof {
            assert(trimmed.take(i + 1) =~= trimmed.take(i as int).push(t@));
            trimmed.take(i as int).lemma_filter_push(t@, |p: Seq<char>| p.len() > 0);
        }
        let ghost before = out@;
        if t.len() > 0 {
            out.push(string_of(t.as_slice()));
            assert(out@.map_values(|d: String| d@) =~= before.map_values(|d: String| d@).push(t@));
        }
        i += 1;
    }
    assert(trimmed.take(trimmed.len() as int) =~= trimmed);
    out
}

/// The file that a SQLite database URL names: the URL without its
/// `sqlite:` scheme.
pub open spec fn database_path(url: Seq<char>) -> Seq<char> {
    if has_prefix(url, "sqlite:"@) {
        url.skip(7)
    } else {
        url
    }
}

/// The file that a SQLite database URL names (its parent directory must
/// exist before the database is opened). A `sqlite://` URL also begins
/// with `sqlite:`, so only that shorter scheme is ever removed.
pub fn db_file_path(url: &str) -> (r: String)
    ensures
        r@ == database_path(url@),
{
    proof {
        reveal_strlit("sqlite:");
        reveal_strlit("sqlite://");
    }
    let u = chars_of(url);
    let short = chars_of("sqlite:");
    let long = chars_of("sqlite://");
    if starts_with(u.as_slice(), short.as_slice()) {
        let rest = sub_chars(u.as_slice(), 7, u.len());
        assert(rest@ =~= url@.skip(7));
        string_of(rest.as_slice())
    } else if starts_with(u.as_slice(), long.as_slice()) {
        proof {
            assert forall|k: int| 0 <= k < 7 implies u@[k] == "sqlite:"@[k] by {
                assert(u@.subrange(0, 9)[k] == u@[k]);
            }
            assert(u@.subrange(0, 7) =~= "sqlite:"@);
        }
        let rest = sub_chars(u.as_slice(), 9, u.len());
        string_of(rest.as_slice())
    } else {
        string_of(u.as_slice())
    }
}

/// Every served domain read from the configuration is non-empty and has no
/// white space at either end.
pub proof fn law_domains_are_trimmed(text: Seq<char>)
    ensures
        forall|i: int|
            0 <= i < domain_list(text).len() ==> (#[trigger] domain_list(text)[i]).len() > 0 && trim(
                domain_list(text)[i],
            ) == domain_list(text)[i],
{
    let trimmed = split_on(text, ',').map_values(|p: Seq<char>| trim(p));
    let pred = |p: Seq<char>| p.len() > 0;
    assert forall|i: int| 0 <= i < domain_list(text).len() implies (#[trigger] domain_list(
        text,
    )[i]).len() > 0 && trim(domain_list(text)[i]) == domain_list(text)[i] by {
        let d = domain_list(text)[i];
        trimmed.lemma_filter_pred(pred, i);
        assert(trimmed.filter(pred).contains(d));
        trimmed.lemma_filter_contains_rev(pred, d);
        let j = choose|j: int| 0 <= j < trimmed.len() && trimmed[j] == d;
        lemma_trim_idempotent(split_on(text, ',')[j]);
    }
}

} // verus!
