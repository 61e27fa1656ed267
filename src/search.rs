use vstd::prelude::*;
use vstd::string::StringSliceAdditionalSpecFns;
use vstd::utf8::encode_utf8;
use crate::parse::{digit_run, digits_value};
use crate::photo_data::PhotoLayoutData;

verus! {

/// Seconds since the Unix epoch of the instant that `s` names, as chrono
/// reads a relaxed RFC 3339 date and time; `None` when it reads none.
pub uninterp spec fn rfc3339_seconds(s: Seq<char>) -> Option<i64>;

/// Relies on chrono's `FromStr for DateTime<FixedOffset>` (a relaxed RFC 3339
/// reader) and `DateTime::timestamp`: the result depends on the text alone.
#[verifier::external_body]
fn parse_timestamp(s: &str) -> (r: Option<i64>)
    ensures
        r == rfc3339_seconds(s@),
{
    match s.parse::<chrono::DateTime<chrono::FixedOffset>>() {
        Ok(t) => Some(t.timestamp()),
        Err(_) => None,
    }
}

/// A decimal number from 0 to 255, with an optional leading '+'.
pub open spec fn decimal_u8(b: Seq<u8>) -> Option<u8> {
    let digits = if b.len() > 0 && b[0] == 43 {
        b.drop_first()
    } else {
        b
    };
    if digits.len() > 0 && digit_run(digits) == digits.len() && digits_value(digits) <= 255 {
        Some(digits_value(digits) as u8)
    } else {
        None
    }
}

/// Reads a rating (see [`decimal_u8`]).
pub fn parse_rating(s: &str) -> (r: Option<u8>)
    ensures
        r == decimal_u8(s.spec_bytes()),
{
    let b = s.as_bytes();
    let start: usize = if b.len() > 0 && b[0] == 43 {
        1
    } else {
        0
    };
    let ghost digits = if b@.len() > 0 && b@[0] == 43 {
        b@.drop_first()
    } else {
        b@
    };
    proof {
        assert(digits == b@.subrange(start as int, b@.len() as int));
    }
    if start == b.len() {
        return None;
    }
    let mut v: u32 = 0;
    let mut i = start;
    while i < b.len()
        invariant
            b@ == s.spec_bytes(),
            digits == (if b@.len() > 0 && b@[0] == 43 {
                b@.drop_first()
            } else {
                b@
            }),
            start <= i <= b@.len(),
            digits == b@.subrange(start as int, b@.len() as int),
            digit_run(digits) == (i - start) + digit_run(b@.subrange(i as int, b@.len() as int)),
            v <= 255,
            v == digits_value(b@.subrange(start as int, i as int)),
        decreases b.len() - i,
    {
        proof {
            assert(b@.subrange(i as int, b@.len() as int).drop_first() == b@.subrange(
                i as int + 1,
                b@.len() as int,
            ));
            assert(b@.subrange(start as int, i as int + 1).drop_last() == b@.subrange(start as int, i as int));
            assert(b@.subrange(start as int, i as int + 1).last() == b@[i as int]);
        }
        if b[i] < 48 || b[i] > 57 {
            proof {
                assert(b@.subrange(i as int, b@.len() as int)[0] == b@[i as int]);
                assert(digit_run(b@.subrange(i as int, b@.len() as int)) == 0);
                assert(digit_run(digits) < digits.len());
            }
            return None;
        }
        let next = v * 10 + (b[i] - 48) as u32;
        if next > 255 {
            proof {
                lemma_digits_value_grows(digits, i - start + 1);
                assert(digits.take(i - start + 1) == b@.subrange(start as int, i as int + 1));
                assert(digits_value(b@.subrange(start as int, i as int + 1)) == v * 10 + (b@[i as int] - 48));
                assert(digits_value(digits) > 255);
            }
            return None;
        }
        v = next;
        i += 1;
    }
    proof {
        assert(b@.subrange(start as int, b@.len() as int) == digits);
    }
    Some(v as u8)
}

/// The value of the first `k` digits is at most that of all of them.
proof fn lemma_digits_value_grows(s: Seq<u8>, k: int)
    requires
        0 <= k <= s.len(),
    ensures
        digits_value(s.take(k)) <= digits_value(s),
    decreases s.len(),
{
    if k < s.len() {
        lemma_digits_value_grows(s.drop_last(), k);
        assert(s.drop_last().take(k) == s.take(k));
    } else {
        assert(s.take(k) == s);
    }
}

/// The value of the first entry of `metadata` under `key`.
pub open spec fn lookup(metadata: Seq<(String, String)>, key: Seq<char>) -> Option<String>
    decreases metadata.len(),
{
    if metadata.len() == 0 {
        None
    } else if metadata[0].0@ == key {
        Some(metadata[0].1)
    } else {
        lookup(metadata.drop_first(), key)
    }
}

/// No two metadata entries share a key, as in a map.
pub open spec fn keys_distinct(metadata: Seq<(String, String)>) -> bool {
    forall|i: int, j: int|
        0 <= i < metadata.len() && 0 <= j < metadata.len() && i != j ==> (#[trigger] metadata[i]).0@
            != (#[trigger] metadata[j]).0@
}

/// With distinct keys, looking up an entry's key gives that entry's value,
/// so the order of the entries does not matter.
pub proof fn lemma_lookup_entry(metadata: Seq<(String, String)>, i: int)
    requires
        keys_distinct(metadata),
        0 <= i < metadata.len(),
    ensures
        lookup(metadata, metadata[i].0@) == Some(metadata[i].1),
    decreases metadata.len(),
{
    if i > 0 {
        let rest = metadata.drop_first();
        assert(metadata[0].0@ != metadata[i].0@);
        assert(rest[i - 1] == metadata[i]);
        assert(keys_distinct(rest)) by {
            assert forall|a: int, b: int|
                0 <= a < rest.len() && 0 <= b < rest.len() && a != b implies (#[trigger] rest[a]).0@
                != (#[trigger] rest[b]).0@ by {
                assert(rest[a] == metadata[a + 1] && rest[b] == metadata[b + 1]);
            }
        }
        lemma_lookup_entry(rest, i - 1);
    }
}

fn find_entry<'a>(metadata: &'a Vec<(String, String)>, key: &String) -> (r: Option<&'a String>)
    ensures
        match lookup(metadata@, key@) {
            Some(v) => r matches Some(x) && *x == v,
            None => r is None,
        },
{
    let mut i: usize = 0;
    proof {
        assert(metadata@.subrange(0, metadata@.len() as int) == metadata@);
    }
    while i < metadata.len()
        invariant
            0 <= i <= metadata@.len(),
            lookup(metadata@, key@) == lookup(metadata@.subrange(i as int, metadata@.len() as int), key@),
        decreases metadata.len() - i,
    {
        proof {
            assert(metadata@.subrange(i as int, metadata@.len() as int).drop_first() == metadata@.subrange(
                i as int + 1,
                metadata@.len() as int,
            ));
        }
        if metadata[i].0 == *key {
            return Some(&metadata[i].1);
        }
        i += 1;
    }
    None
}

/// The photo's time in seconds since the epoch; the epoch itself when the
/// "timestamp" entry is missing or unreadable.
pub open spec fn photo_timestamp(p: PhotoLayoutData) -> i64 {
    match lookup(p.metadata@, "timestamp"@) {
        Some(v) => match rfc3339_seconds(v@) {
            Some(t) => t,
            None => 0,
        },
        None => 0,
    }
}

/// The photo's rating; zero when the "rating" entry is missing or unreadable.
pub open spec fn photo_rating(p: PhotoLayoutData) -> u8 {
    match lookup(p.metadata@, "rating"@) {
        Some(v) => match decimal_u8(encode_utf8(v@)) {
            Some(r) => r,
            None => 0,
        },
        None => 0,
    }
}

impl PhotoLayoutData {
    pub fn get_timestamp(&self) -> (r: i64)
        ensures
            r == photo_timestamp(*self),
    {
        let key = "timestamp".to_owned();
        match find_entry(&self.metadata, &key) {
            Some(v) => match parse_timestamp(v.as_str()) {
                Some(t) => t,
                None => 0,
            },
            None => 0,
        }
    }

    pub fn get_rating(&self) -> (r: u8)
        ensures
            r == photo_rating(*self),
    {
        let key = "rating".to_owned();
        match find_entry(&self.metadata, &key) {
            Some(v) => match parse_rating(v.as_str()) {
                Some(r) => r,
                None => 0,
            },
            None => 0,
        }
    }
}

/// Which photos to show: taken no later than `before`, no earlier than
/// `after` (seconds since the epoch), and rated at least `rating`.
#[derive(Debug, Clone, Copy, PartialEq, Eq, Default)]
pub struct SearchFilter {
    pub before: Option<u64>,
    pub after: Option<u64>,
    pub rating: Option<u8>,
}

/// Whether a photo taken at `timestamp` and rated `rating` passes the filter;
/// an unset bound passes everything.
pub open spec fn passes(f: SearchFilter, timestamp: int, rating: u8) -> bool {
    &&& (f.before matches Some(b) ==> timestamp <= b)
    &&& (f.after matches Some(a) ==> timestamp >= a)
    &&& (f.rating matches Some(r) ==> rating >= r)
}

impl SearchFilter {
    /// Whether a photo taken at `timestamp` and rated `rating` passes.
    pub fn matches_values(&self, timestamp: i64, rating: u8) -> (r: bool)
        ensures
            r == passes(*self, timestamp as int, rating),
    {
        let before_ok = match self.before {
            Some(b) => timestamp < 0 || (timestamp as u64) <= b,
            None => true,
        };
        let after_ok = match self.after {
            Some(a) => timestamp >= 0 && (timestamp as u64) >= a,
            None => true,
        };
        let rating_ok = match self.rating {
            Some(min) => rating >= min,
            None => true,
        };
        before_ok && after_ok && rating_ok
    }

    /// Whether the photo passes, by its metadata (see [`photo_timestamp`]
    /// and [`photo_rating`]).
    pub fn matches(&self, photo_data: &PhotoLayoutData) -> (r: bool)
        ensures
            r == passes(*self, photo_timestamp(*photo_data) as int, photo_rating(*photo_data)),
    {
        let timestamp = photo_data.get_timestamp();
        let rating = photo_data.get_rating();
        self.matches_values(timestamp, rating)
    }
}

} // verus!
