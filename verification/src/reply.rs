//! Reply codes of line-based protocols (FTP, SMTP) and the decimal number
//! parsing of `str::parse` that reads them.

use vstd::prelude::*;
use vstd::utf8::valid_utf8;
use crate::text::{decode_lossy, utf8_lossy};

verus! {

/// An ASCII decimal digit.
pub open spec fn is_digit(b: u8) -> bool {
    48 <= b <= 57
}

/// Every byte of `s` is a decimal digit.
pub open spec fn all_digits(s: Seq<u8>) -> bool {
    forall|i: int| 0 <= i < s.len() ==> is_digit(#[trigger] s[i])
}

/// The number the decimal digits `s` spell.
pub open spec fn digits_value(s: Seq<u8>) -> nat
    decreases s.len(),
{
    if s.len() == 0 {
        0
    } else {
        digits_value(s.drop_last()) * 10 + (s.last() - 48) as nat
    }
}

/// What `u16::from_str` gives for the text `s`: an optional `+`, then at
/// least one digit, and a value that fits.
pub open spec fn parse_u16(s: Seq<u8>) -> Option<u16> {
    let d = if s.len() > 0 && s[0] == 43 {
        s.drop_first()
    } else {
        s
    };
    if d.len() > 0 && all_digits(d) && digits_value(d) <= 65535 {
        Some(digits_value(d) as u16)
    } else {
        None
    }
}

/// What `i16::from_str` gives for the text `s`: an optional sign, then at
/// least one digit, and a value that fits.
pub open spec fn parse_i16(s: Seq<u8>) -> Option<i16> {
    if s.len() > 0 && s[0] == 45 {
        let d = s.drop_first();
        if d.len() > 0 && all_digits(d) && digits_value(d) <= 32768 {
            Some((0 - digits_value(d)) as i16)
        } else {
            None
        }
    } else {
        let d = if s.len() > 0 && s[0] == 43 {
            s.drop_first()
        } else {
            s
        };
        if d.len() > 0 && all_digits(d) && digits_value(d) <= 32767 {
            Some(digits_value(d) as i16)
        } else {
            None
        }
    }
}

/// A longer run of digits is worth at least as much as its prefix.
proof fn lemma_digits_value_prefix(s: Seq<u8>, k: int)
    requires
        0 <= k <= s.len(),
        all_digits(s),
    ensures
        digits_value(s.take(k)) <= digits_value(s),
    decreases s.len() - k,
{
    if k < s.len() {
        lemma_digits_value_prefix(s, k + 1);
        assert(s.take(k + 1).drop_last() =~= s.take(k));
        assert(digits_value(s.take(k + 1)) == digits_value(s.take(k)) * 10 + (s.take(k + 1).last() - 48) as nat);
    } else {
        assert(s.take(k) =~= s);
    }
}

/// The value of the digits `s[lo..hi]`, if they are all digits and the value
/// is at most `limit`.
fn digits_at_most(s: &[u8], lo: usize, hi: usize, limit: u32) -> (v: Option<u32>)
    requires
        lo <= hi <= s@.len(),
        limit <= 65535,
    ensures
        ({
            let d = s@.subrange(lo as int, hi as int);
            match v {
                Some(x) => all_digits(d) && x == digits_value(d) && x <= limit,
                None => !(all_digits(d) && digits_value(d) <= limit),
            }
        }),
{
    let ghost d = s@.subrange(lo as int, hi as int);
    let mut value: u32 = 0;
    let mut i = lo;
    while i < hi
        invariant
            lo <= i <= hi <= s@.len(),
            limit <= 65535,
            d == s@.subrange(lo as int, hi as int),
            all_digits(s@.subrange(lo as int, i as int)),
            value == digits_value(s@.subrange(lo as int, i as int)),
            value <= limit,
        decreases hi - i,
    {
        let b = s[i];
        assert(s@.subrange(lo as int, i + 1).drop_last() =~= s@.subrange(lo as int, i as int));
        assert(s@.subrange(lo as int, i + 1).last() == b);
        if b < 48 || b > 57 {
            assert(d[i - lo] == b);
            return None;
        }
        let next: u32 = value * 10 + (b - 48) as u32;
        if next > limit {
            proof {
                assert(s@.subrange(lo as int, i + 1) =~= d.take(i + 1 - lo));
                if all_digits(d) {
                    lemma_digits_value_prefix(d, i + 1 - lo);
                }
            }
            return None;
        }
        value = next;
        assert forall|j: int| 0 <= j < (i + 1 - lo) implies is_digit(
            #[trigger] s@.subrange(lo as int, i + 1)[j],
        ) by {
            if j < i - lo {
                assert(s@.subrange(lo as int, i + 1)[j] == s@.subrange(lo as int, i as int)[j]);
            }
        }
        i = i + 1;
    }
    Some(value)
}

/// `u16::from_str` on the text `s[lo..hi]`.
pub fn parse_u16_at(s: &[u8], lo: usize, hi: usize) -> (v: Option<u16>)
    requires
        lo <= hi <= s@.len(),
    ensures
        v == parse_u16(s@.subrange(lo as int, hi as int)),
{
    let ghost t = s@.subrange(lo as int, hi as int);
    let start = if lo < hi && s[lo] == 43 {
        lo + 1
    } else {
        lo
    };
    assert(start > lo ==> t.drop_first() =~= s@.subrange(start as int, hi as int));
    assert(start == lo ==> t =~= s@.subrange(start as int, hi as int));
    if start == hi {
        return None;
    }
    match digits_at_most(s, start, hi, 65535) {
        Some(x) => Some(x as u16),
        None => None,
    }
}

/// `i16::from_str` on the text `s[lo..hi]`.
pub fn parse_i16_at(s: &[u8], lo: usize, hi: usize) -> (v: Option<i16>)
    requires
        lo <= hi <= s@.len(),
    ensures
        v == parse_i16(s@.subrange(lo as int, hi as int)),
{
    let ghost t = s@.subrange(lo as int, hi as int);
    if lo < hi && s[lo] == 45 {
        assert(t.drop_first() =~= s@.subrange(lo + 1, hi as int));
        if lo + 1 == hi {
            return None;
        }
        match digits_at_most(s, lo + 1, hi, 32768) {
            Some(x) => {
                let neg: i32 = 0 - (x as i32);
                Some(neg as i16)
            },
            None => None,
        }
    } else {
        let start = if lo < hi && s[lo] == 43 {
            lo + 1
        } else {
            lo
        };
        assert(start > lo ==> t.drop_first() =~= s@.subrange(start as int, hi as int));
        assert(start == lo ==> t =~= s@.subrange(start as int, hi as int));
        if start == hi {
            return None;
        }
        match digits_at_most(s, start, hi, 32767) {
            Some(x) => Some(x as i16),
            None => None,
        }
    }
}

/// Whether `bytes` are valid UTF-8: `std::str::from_utf8(bytes).is_ok()`,
/// which the standard library documents as succeeding exactly on valid UTF-8.
#[verifier::external_body]
fn is_utf8(bytes: &[u8]) -> (valid: bool)
    ensures
        valid == valid_utf8(bytes@),
{
    std::str::from_utf8(bytes).is_ok()
}

/// Why a reply carries no usable code.
#[derive(Debug, Clone, Copy, PartialEq, Eq)]
pub enum ReplyError {
    /// Fewer than three bytes arrived.
    NoCode,
    /// The first three bytes are not UTF-8 text.
    NotText,
    /// The first three bytes are not a number.
    NotNumber,
}

/// The code a reply starts with: its first three bytes read as a number.
pub open spec fn reply_code(reply: Seq<u8>) -> Result<i16, ReplyError> {
    if reply.len() < 3 {
        Err(ReplyError::NoCode)
    } else if !valid_utf8(reply.take(3)) {
        Err(ReplyError::NotText)
    } else {
        match parse_i16(reply.take(3)) {
            Some(c) => Ok(c),
            None => Err(ReplyError::NotNumber),
        }
    }
}

/// Reads the code a server reply starts with.
pub fn parse_reply_code(reply: &[u8]) -> (code: Result<i16, ReplyError>)
    ensures
        code == reply_code(reply@),
{
    if reply.len() < 3 {
        return Err(ReplyError::NoCode);
    }
    let head = &reply[0..3];
    assert(head@ =~= reply@.take(3));
    if !is_utf8(head) {
        return Err(ReplyError::NotText);
    }
    assert(head@.subrange(0, 3) =~= head@);
    match parse_i16_at(head, 0, 3) {
        Some(c) => Ok(c),
        None => Err(ReplyError::NotNumber),
    }
}

/// Whether a reply read so far is complete: it ends with CR LF.
pub fn reply_complete(bytes: &[u8]) -> (done: bool)
    ensures
        done == (bytes@.len() >= 2 && bytes@[bytes@.len() - 2] == 13 && bytes@[bytes@.len() - 1] == 10),
{
    let n = bytes.len();
    n >= 2 && bytes[n - 2] == 13 && bytes[n - 1] == 10
}

/// Whether `code` lies in `lo..hi`.
pub fn code_in_range(code: i16, lo: i16, hi: i16) -> (inside: bool)
    ensures
        inside == (lo <= code < hi),
{
    lo <= code && code < hi
}

/// The text of a whole reply, invalid UTF-8 replaced; `None` where fewer
/// than three bytes arrived, so that no code can be read.
pub fn response_text(reply: &[u8]) -> (text: Option<String>)
    ensures
        match text {
            Some(t) => reply@.len() >= 3 && t@ == utf8_lossy(reply@),
            None => reply@.len() < 3,
        },
{
    if reply.len() < 3 {
        None
    } else {
        Some(decode_lossy(reply))
    }
}

/// Why a reply is not one of those a step of a dialogue waits for.
#[derive(Debug, Clone, Copy, PartialEq, Eq)]
pub enum ExpectError {
    /// No code can be read from the reply; the dialogue just stops.
    Unreadable(ReplyError),
    /// The reply carries another code; the client says goodbye first.
    Unexpected(i16),
}

/// The outcome of waiting for a code in `lo..hi`.
pub open spec fn expected_reply(reply: Seq<u8>, lo: i16, hi: i16) -> Result<i16, ExpectError> {
    match reply_code(reply) {
        Err(e) => Err(ExpectError::Unreadable(e)),
        Ok(c) => if lo <= c < hi {
            Ok(c)
        } else {
            Err(ExpectError::Unexpected(c))
        },
    }
}

/// Reads the code of a reply and checks that it lies in `lo..hi`.
pub fn expect_reply(reply: &[u8], lo: i16, hi: i16) -> (res: Result<i16, ExpectError>)
    ensures
        res == expected_reply(reply@, lo, hi),
{
    match parse_reply_code(reply) {
        Err(e) => Err(ExpectError::Unreadable(e)),
        Ok(c) => if code_in_range(c, lo, hi) {
            Ok(c)
        } else {
            Err(ExpectError::Unexpected(c))
        },
    }
}

} // verus!
