//! Events as text and as parsed fields: ids in decimal, times in RFC 3339,
//! repository names as an owner and a suffix split at the first slash.
use crate::columnar::{str_bytes, ParsedEvent};
use crate::lines::{lemma_next_sep_at, lemma_next_sep_bounds, next_sep, string_of_bytes};
use chrono::TimeZone;
use std::fmt::Write;
use vstd::prelude::*;
use vstd::string::StringExecFns;
use vstd::utf8::{encode_utf8, valid_utf8};

verus! {

// ---------------------------------------------------------------------------
// Decimal integers
// ---------------------------------------------------------------------------
pub open spec fn is_digit(b: u8) -> bool {
    48 <= b <= 57
}

pub open spec fn all_digits(d: Seq<u8>) -> bool {
    forall|i: int| 0 <= i < d.len() ==> is_digit(#[trigger] d[i])
}

/// The number that a run of decimal digits spells.
pub open spec fn digits_value(d: Seq<u8>) -> int
    decreases d.len(),
{
    if d.len() == 0 {
        0
    } else {
        10 * digits_value(d.drop_last()) + (d.last() - 48)
    }
}

/// The signed 64-bit integer that text spells in decimal: an optional `+`
/// or `-`, then at least one digit; `None` where the text is not of that
/// form or the value does not fit.
pub open spec fn decimal_i64(b: Seq<u8>) -> Option<i64> {
    let signed = b.len() > 0 && (b[0] == 45 || b[0] == 43);
    let d = if signed {
        b.skip(1)
    } else {
        b
    };
    let v = if signed && b[0] == 45 {
        -digits_value(d)
    } else {
        digits_value(d)
    };
    if d.len() == 0 || !all_digits(d) || v < i64::MIN || v > i64::MAX {
        None
    } else {
        Some(v as i64)
    }
}

/// The decimal digits of a natural number, most significant first.
pub open spec fn digits_of(n: nat) -> Seq<u8>
    decreases n,
{
    if n < 10 {
        seq![(48 + n) as u8]
    } else {
        digits_of(n / 10).push((48 + n % 10) as u8)
    }
}

/// The decimal text of an integer, a `-` before a negative one.
pub open spec fn decimal_text(x: i64) -> Seq<u8> {
    if x < 0 {
        seq![45u8] + digits_of((-x) as nat)
    } else {
        digits_of(x as nat)
    }
}

/// Appending digits never lowers the value.
proof fn lemma_digits_prefix(d: Seq<u8>, k: int)
    requires
        0 <= k <= d.len(),
        all_digits(d),
    ensures
        0 <= digits_value(d.take(k)) <= digits_value(d),
    decreases d.len() - k,
{
    if k < d.len() {
        lemma_digits_prefix(d, k + 1);
        assert(d.take(k + 1).drop_last() =~= d.take(k));
        assert(is_digit(d[k]));
    } else {
        assert(d.take(k) =~= d);
    }
    lemma_digits_nonneg(d);
}

proof fn lemma_digits_nonneg(d: Seq<u8>)
    requires
        all_digits(d),
    ensures
        digits_value(d) >= 0,
    decreases d.len(),
{
    if d.len() > 0 {
        assert(all_digits(d.drop_last())) by {
            assert forall|i: int| 0 <= i < d.drop_last().len() implies is_digit(#[trigger] d.drop_last()[i]) by {
                assert(d.drop_last()[i] == d[i]);
            }
        }
        lemma_digits_nonneg(d.drop_last());
        assert(is_digit(d[d.len() - 1]));
    }
}

/// Reads a decimal integer; `None` where the text is not one or it does not
/// fit in 64 bits.
pub fn parse_decimal(b: &[u8]) -> (r: Option<i64>)
    ensures
        r == decimal_i64(b@),
{
    let n = b.len();
    if n == 0 {
        return None;
    }
    let neg = b[0] == 45;
    let start: usize = if b[0] == 45 || b[0] == 43 {
        1
    } else {
        0
    };
    let ghost d = if start == 1 {
        b@.skip(1)
    } else {
        b@
    };
    assert(d =~= b@.skip(start as int));
    if start == n {
        return None;
    }
    let mut acc: u64 = 0;
    let mut i: usize = start;
    while i < n
        invariant
            start <= i <= n,
            n == b@.len(),
            start < n,
            start == (if b@[0] == 45 || b@[0] == 43 { 1usize } else { 0usize }),
            neg == (b@[0] == 45),
            d == b@.skip(start as int),
            d == (if start == 1 { b@.skip(1) } else { b@ }),
            acc as int == digits_value(d.take(i - start)),
            all_digits(d.take(i - start)),
            acc <= 0x8000_0000_0000_0000,
        decreases n - i,
    {
        let c = b[i];
        let ghost k = i - start;
        assert(d[k] == c);
        if c < 48 || c > 57 {
            assert(!all_digits(d)) by {
                assert(!is_digit(d[k]));
            }
            return None;
        }
        assert(d.take(k + 1).drop_last() =~= d.take(k));
        assert(all_digits(d.take(k + 1))) by {
            assert forall|j: int| 0 <= j < k + 1 implies is_digit(#[trigger] d.take(k + 1)[j]) by {
                if j < k {
                    assert(d.take(k + 1)[j] == d.take(k)[j]);
                }
            }
        }
        assert(digits_value(d.take(k + 1)) == 10 * acc + (c - 48)) by {
            assert(d.take(k + 1).last() == c);
        }
        if acc > 922_337_203_685_477_580 {
            proof {
                if all_digits(d) {
                    lemma_digits_prefix(d, k + 1);
                }
            }
            return None;
        }
        let next = acc * 10 + (c - 48) as u64;
        if next > 0x8000_0000_0000_0000 {
            proof {
                if all_digits(d) {
                    lemma_digits_prefix(d, k + 1);
                }
            }
            return None;
        }
        acc = next;
        i += 1;
    }
    assert(d.take(n - start) =~= d);
    if neg {
        if acc == 0x8000_0000_0000_0000 {
            Some(i64::MIN)
        } else {
            Some(-(acc as i64))
        }
    } else {
        if acc > 0x7fff_ffff_ffff_ffff {
            None
        } else {
            Some(acc as i64)
        }
    }
}

/// Appends the decimal digits of `n`.
fn push_digits(n: u64, out: &mut Vec<u8>)
    ensures
        final(out)@ == old(out)@ + digits_of(n as nat),
    decreases n,
{
    if n >= 10 {
        push_digits(n / 10, out);
    }
    out.push(48 + (n % 10) as u8);
}

/// The decimal text of an integer.
pub fn decimal_string(x: i64) -> (s: String)
    ensures
        str_bytes(s) == decimal_text(x),
{
    let mut out: Vec<u8> = Vec::new();
    if x < 0 {
        out.push(45);
        let m: u64 = if x == i64::MIN {
            0x8000_0000_0000_0000
        } else {
            (-x) as u64
        };
        push_digits(m, &mut out);
    } else {
        push_digits(x as u64, &mut out);
    }
    assert(out@ == decimal_text(x));
    proof {
        lemma_digits_ascii(if x < 0 { (-x) as nat } else { x as nat });
        lemma_ascii_valid(out@);
    }
    string_of_bytes(out)
}

/// Digits are ASCII.
proof fn lemma_digits_ascii(n: nat)
    ensures
        forall|i: int| 0 <= i < digits_of(n).len() ==> #[trigger] digits_of(n)[i] < 128,
        all_digits(digits_of(n)),
        digits_of(n).len() > 0,
        digits_value(digits_of(n)) == n,
    decreases n,
{
    if n >= 10 {
        lemma_digits_ascii(n / 10);
        let d = digits_of(n);
        assert(d.drop_last() == digits_of(n / 10));
        assert forall|i: int| 0 <= i < d.len() implies is_digit(#[trigger] d[i]) by {
            if i < d.len() - 1 {
                assert(d[i] == digits_of(n / 10)[i]);
            }
        }
        assert(d.last() == (48 + n % 10) as u8);
        assert(d.last() - 48 == n % 10);
        assert(digits_value(d) == 10 * digits_value(d.drop_last()) + (d.last() - 48));
        assert(10 * (n / 10) + n % 10 == n);
    } else {
        let d = digits_of(n);
        assert(d.drop_last() =~= Seq::<u8>::empty());
        assert(d.last() - 48 == n);
        assert(digits_value(d) == 10 * digits_value(d.drop_last()) + (d.last() - 48));
    }
}

/// Bytes below 128 are UTF-8.
proof fn lemma_ascii_valid(b: Seq<u8>)
    requires
        forall|i: int| 0 <= i < b.len() ==> #[trigger] b[i] < 128,
    ensures
        valid_utf8(b),
    decreases b.len(),
{
    if b.len() > 0 {
        let rest = b.skip(1);
        assert(vstd::utf8::pop_first_scalar(b) =~= rest);
        assert forall|i: int| 0 <= i < rest.len() implies #[trigger] rest[i] < 128 by {
            assert(rest[i] == b[i + 1]);
        }
        lemma_ascii_valid(rest);
    }
}

/// Reading the decimal text of an integer gives it back.
pub proof fn law_decimal_roundtrip(x: i64)
    ensures
        decimal_i64(decimal_text(x)) == Some(x),
{
    let m = if x < 0 { (-x) as nat } else { x as nat };
    lemma_digits_ascii(m);
    if x < 0 {
        assert(decimal_text(x).skip(1) =~= digits_of(m));
    }
}

// ---------------------------------------------------------------------------
// Repository names
// ---------------------------------------------------------------------------
/// The byte of `/`.
pub const SLASH: u8 = 47;

/// The owner part of a name's bytes: before the first slash, or all of them.
pub open spec fn owner_part(b: Seq<u8>) -> Seq<u8> {
    let k = next_sep(b, SLASH, 0);
    if k < b.len() {
        b.take(k)
    } else {
        b
    }
}

/// The suffix part of a name's bytes: after the first slash, or none.
pub open spec fn suffix_part(b: Seq<u8>) -> Seq<u8> {
    let k = next_sep(b, SLASH, 0);
    if k < b.len() {
        b.skip(k + 1)
    } else {
        Seq::empty()
    }
}

/// The bytes of a name joined from an owner and a suffix: the owner alone
/// for no suffix.
pub open spec fn joined_name(owner: Seq<u8>, suffix: Seq<u8>) -> Seq<u8> {
    if suffix.len() == 0 {
        owner
    } else {
        owner + seq![SLASH] + suffix
    }
}

/// A single ASCII byte is UTF-8, and so is what follows it in UTF-8.
proof fn lemma_after_ascii(b: Seq<u8>)
    requires
        b.len() > 0,
        b[0] < 128,
        valid_utf8(b),
    ensures
        valid_utf8(b.skip(1)),
{
    assert(vstd::utf8::pop_first_scalar(b) =~= b.skip(1));
}

/// Splits a name at its first slash.
fn split_repo_name(name: &String) -> (r: (String, String))
    ensures
        str_bytes(r.0) == owner_part(str_bytes(*name)),
        str_bytes(r.1) == suffix_part(str_bytes(*name)),
{
    broadcast use vstd::utf8::encode_utf8_valid_utf8;

    let b = name.as_str().as_bytes();
    let ghost bs = b@;
    assert(bs == str_bytes(*name));
    let n = b.len();
    let mut k: usize = 0;
    proof {
        lemma_next_sep_bounds(bs, SLASH, 0);
    }
    while k < n && b[k] != SLASH
        invariant
            n == bs.len(),
            bs == b@,
            k <= next_sep(bs, SLASH, 0),
            next_sep(bs, SLASH, 0) <= n,
            forall|j: int| 0 <= j < k ==> bs[j] != SLASH,
        decreases n - k,
    {
        proof {
            lemma_next_sep_bounds(bs, SLASH, 0);
        }
        k += 1;
    }
    proof {
        lemma_next_sep_bounds(bs, SLASH, 0);
        lemma_next_sep_at(bs, SLASH, 0, k as int);
    }
    if k == n {
        let owner = string_of_bytes(vstd::slice::slice_to_vec(b));
        assert(suffix_part(bs) =~= Seq::<u8>::empty());
        return (owner, String::new());
    }
    proof {
        vstd::utf8::is_char_boundary_iff_not_is_continuation_byte(bs, k as int);
        vstd::utf8::valid_utf8_split(bs, k as int);
        let rest = bs.subrange(k as int, n as int);
        lemma_after_ascii(rest);
        assert(rest.skip(1) =~= bs.skip(k + 1));
        assert(bs.subrange(0, k as int) =~= bs.take(k as int));
    }
    let owner = string_of_bytes(vstd::slice::slice_to_vec(vstd::slice::slice_subrange(b, 0, k)));
    let suffix = string_of_bytes(vstd::slice::slice_to_vec(vstd::slice::slice_subrange(b, k + 1, n)));
    (owner, suffix)
}

/// Joins an owner and a suffix with a slash; the owner alone for no suffix.
fn join_repo_name(owner: &String, suffix: &String) -> (name: String)
    ensures
        str_bytes(name) == joined_name(str_bytes(*owner), str_bytes(*suffix)),
{
    broadcast use vstd::utf8::encode_utf8_valid_utf8, vstd::utf8::valid_utf8_concat;

    let ob = owner.as_str().as_bytes();
    let sb = suffix.as_str().as_bytes();
    let mut out = vstd::slice::slice_to_vec(ob);
    if sb.len() == 0 {
        return string_of_bytes(out);
    }
    out.push(SLASH);
    let mut tail = vstd::slice::slice_to_vec(sb);
    out.append(&mut tail);
    proof {
        lemma_ascii_valid(seq![SLASH]);
        assert(valid_utf8(ob@) && valid_utf8(sb@));
        vstd::utf8::valid_utf8_concat(ob@, seq![SLASH]);
        vstd::utf8::valid_utf8_concat(ob@ + seq![SLASH], sb@);
        assert(out@ =~= ob@ + seq![SLASH] + sb@);
    }
    string_of_bytes(out)
}

/// Joining the two parts of a name gives the name back, where its first
/// slash, if any, has something after it.
pub proof fn law_name_roundtrip(name: Seq<u8>)
    requires
        next_sep(name, SLASH, 0) < name.len() ==> next_sep(name, SLASH, 0) + 1 < name.len(),
    ensures
        joined_name(owner_part(name), suffix_part(name)) == name,
{
    let k = next_sep(name, SLASH, 0);
    lemma_next_sep_bounds(name, SLASH, 0);
    if k < name.len() {
        assert(name.take(k) + seq![SLASH] + name.skip(k + 1) =~= name);
    }
}

// ---------------------------------------------------------------------------
// Times
// ---------------------------------------------------------------------------
/// The seconds since the Unix epoch of the instant that an RFC 3339 text
/// names, as chrono reads it; `None` where chrono rejects the text.
pub uninterp spec fn rfc3339_seconds(text: Seq<char>) -> Option<i64>;

/// The text that chrono writes for the instant `secs` seconds after the
/// Unix epoch, in UTC, with the format string `format`; `None` where the
/// seconds are outside chrono's range or the format cannot be written.
pub uninterp spec fn utc_text(secs: i64, format: Seq<char>) -> Option<Seq<char>>;

/// Calls chrono's `DateTime::parse_from_rfc3339` on the text and takes the
/// instant's `timestamp()`. Claims that the result is
/// `rfc3339_seconds(text)`: chrono parses the same text the same way each
/// time, with no time zone or locale of the machine involved.
#[verifier::external_body]
fn parse_rfc3339_seconds(text: &str) -> (r: Option<i64>)
    ensures
        r == rfc3339_seconds(text@),
{
    match chrono::DateTime::parse_from_rfc3339(text) {
        Ok(t) => Some(t.timestamp()),
        Err(_) => None,
    }
}

/// Calls chrono's `Utc.timestamp_opt(secs, 0)` and writes the instant with
/// chrono's `format(format)`. Claims that the text is `utc_text(secs,
/// format)`, with `None` where chrono gives no single instant (seconds out
/// of its range) or reports an error while writing: chrono writes the same
/// instant with the same format the same way each time, in UTC, with no
/// time zone or locale of the machine involved.
#[verifier::external_body]
fn format_utc_seconds(secs: i64, format: &str) -> (r: Option<String>)
    ensures
        match r {
            Some(t) => utc_text(secs, format@) == Some(t@),
            None => utc_text(secs, format@) is None,
        },
{
    match chrono::Utc.timestamp_opt(secs, 0).single() {
        Some(t) => {
            let mut out = String::new();
            match write!(out, "{}", t.format(format)) {
                Ok(()) => Some(out),
                Err(_) => None,
            }
        },
        None => None,
    }
}

/// The format in which creation times are written.
pub open spec fn time_format() -> Seq<char> {
    "%Y-%m-%dT%H:%M:%SZ"@
}

// ---------------------------------------------------------------------------
// Events
// ---------------------------------------------------------------------------
/// What identifies an event: its id in decimal and its type, ordered by
/// the id's text, then the type.
#[derive(Debug, Clone, PartialEq, Eq, PartialOrd, Ord, Hash)]
pub struct EventKey {
    pub id: String,
    pub event_type: String,
}

/// A repository as an event names it.
#[derive(Debug, Clone, PartialEq, Eq)]
pub struct Repo {
    pub id: u64,
    pub name: String,
    pub url: String,
}

/// What an event says: its repository and when it was created.
#[derive(Debug, Clone, PartialEq, Eq)]
pub struct EventValue {
    pub repo: Repo,
    pub created_at: String,
}

/// The page of the repositories API that a repository name has.
pub open spec fn repo_url(name: Seq<char>) -> Seq<char> {
    "https://api.github.com/repos/"@ + name
}

/// Events turned into their parsed fields and back.
pub struct ParseBijection;

impl ParseBijection {
    /// The events whose id is a decimal integer and whose time chrono reads.
    pub open spec fn parses(source: (EventKey, EventValue)) -> bool {
        &&& decimal_i64(str_bytes(source.0.id)) is Some
        &&& rfc3339_seconds(source.1.created_at@) is Some
    }

    /// What parsing gives: the id's value, the type, the repository's id, its
    /// name split at the first slash, and the time in seconds.
    pub open spec fn parsed_as(source: (EventKey, EventValue), e: ParsedEvent) -> bool {
        &&& decimal_i64(str_bytes(source.0.id)) == Some(e.id)
        &&& e.event_type@ == source.0.event_type@
        &&& e.repo_id == source.1.repo.id
        &&& str_bytes(e.repo_owner) == owner_part(str_bytes(source.1.repo.name))
        &&& str_bytes(e.repo_suffix) == suffix_part(str_bytes(source.1.repo.name))
        &&& rfc3339_seconds(source.1.created_at@) == Some(e.created_at)
    }

    pub fn apply(&self, source: &(EventKey, EventValue)) -> (e: ParsedEvent)
        requires
            Self::parses(*source),
        ensures
            Self::parsed_as(*source, e),
    {
        let (key, val) = source;
        let id = match parse_decimal(key.id.as_str().as_bytes()) {
            Some(v) => v,
            None => 0,
        };
        let created_at = match parse_rfc3339_seconds(val.created_at.as_str()) {
            Some(t) => t,
            None => 0,
        };
        let (repo_owner, repo_suffix) = split_repo_name(&val.repo.name);
        ParsedEvent {
            id,
            event_type: key.event_type.clone(),
            repo_id: val.repo.id,
            repo_owner,
            repo_suffix,
            created_at,
        }
    }

    /// Parses an event; `None` where its id or its time cannot be read.
    pub fn try_apply(&self, source: &(EventKey, EventValue)) -> (r: Option<ParsedEvent>)
        ensures
            r is Some <==> Self::parses(*source),
            r matches Some(e) ==> Self::parsed_as(*source, e),
    {
        let ok_id = parse_decimal(source.0.id.as_str().as_bytes()).is_some();
        let ok_time = parse_rfc3339_seconds(source.1.created_at.as_str()).is_some();
        if ok_id && ok_time {
            Some(self.apply(source))
        } else {
            None
        }
    }

    /// What writing an event back gives: the id in decimal, the type, the
    /// repository's id, its name joined from owner and suffix with the page
    /// of that name, and the time as chrono writes it in UTC.
    pub open spec fn written_as(e: ParsedEvent, out: (EventKey, EventValue)) -> bool {
        &&& str_bytes(out.0.id) == decimal_text(e.id)
        &&& out.0.event_type@ == e.event_type@
        &&& out.1.repo.id == e.repo_id
        &&& str_bytes(out.1.repo.name) == joined_name(str_bytes(e.repo_owner), str_bytes(e.repo_suffix))
        &&& out.1.repo.url@ == repo_url(out.1.repo.name@)
        &&& utc_text(e.created_at, time_format()) == Some(out.1.created_at@)
    }

    pub fn revert(&self, source: &ParsedEvent) -> (out: (EventKey, EventValue))
        requires
            utc_text(source.created_at, time_format()) is Some,
        ensures
            Self::written_as(*source, out),
    {
        let key = EventKey { id: decimal_string(source.id), event_type: source.event_type.clone() };
        let created_at = match format_utc_seconds(source.created_at, "%Y-%m-%dT%H:%M:%SZ") {
            Some(t) => t,
            None => String::new(),
        };
        let name = join_repo_name(&source.repo_owner, &source.repo_suffix);
        let url = String::from_str("https://api.github.com/repos/").concat(name.as_str());
        let val = EventValue { repo: Repo { id: source.repo_id, name, url }, created_at };
        (key, val)
    }

    /// Writes an event back; `None` where its time is outside chrono's range.
    pub fn try_revert(&self, source: &ParsedEvent) -> (r: Option<(EventKey, EventValue)>)
        ensures
            r is Some <==> utc_text(source.created_at, time_format()) is Some,
            r matches Some(out) ==> Self::written_as(*source, out),
    {
        if format_utc_seconds(source.created_at, "%Y-%m-%dT%H:%M:%SZ").is_some() {
            Some(self.revert(source))
        } else {
            None
        }
    }
}

} // verus!
