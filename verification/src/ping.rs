//! UDP ping and heartbeat logic: the messages sent, the timestamp read back
//! from a reply, the round-trip statistics and the echo server's answer.

use vstd::prelude::*;
use crate::text::{chars_of, decode_lossy, utf8_lossy, push_char};

verus! {

/// The decimal digit of `d`.
pub open spec fn digit_char(d: int) -> char {
    (('0' as int) + d) as char
}

/// The decimal digits of `n`, most significant first.
pub open spec fn digits(n: nat) -> Seq<char>
    decreases n,
{
    if n < 10 {
        seq![digit_char(n as int)]
    } else {
        digits(n / 10).push(digit_char((n % 10) as int))
    }
}

/// `n` as `Display` writes an integer: a minus sign where it is negative,
/// then its decimal digits.
pub open spec fn decimal(n: int) -> Seq<char> {
    if n < 0 {
        seq!['-'] + digits((-n) as nat)
    } else {
        digits(n as nat)
    }
}

/// The decimal digits of `v`.
pub fn format_u64(v: u64) -> (s: String)
    ensures
        s@ == digits(v as nat),
{
    let mut rev: Vec<char> = Vec::new();
    let mut n = v;
    let ghost mut done: Seq<char> = seq![];
    while n >= 10
        invariant
            digits(v as nat) == digits(n as nat) + done,
            rev@.len() == done.len(),
            forall|i: int| 0 <= i < done.len() ==> #[trigger] rev@[i] == done[done.len() - 1 - i],
        decreases n,
    {
        let d = (n % 10) as u32;
        let c = char_of_digit(d);
        let ghost before = rev@;
        rev.push(c);
        proof {
            assert(digits(n as nat) == digits((n / 10) as nat).push(c));
            done = seq![c] + done;
            assert forall|i: int| 0 <= i < done.len() implies #[trigger] rev@[i] == done[done.len() - 1 - i] by {
                if i < done.len() - 1 {
                    assert(rev@[i] == before[i]);
                }
            }
        }
        n = n / 10;
    }
    let c = char_of_digit(n as u32);
    let ghost before = rev@;
    rev.push(c);
    proof {
        done = seq![c] + done;
        assert forall|i: int| 0 <= i < done.len() implies #[trigger] rev@[i] == done[done.len() - 1 - i] by {
            if i < done.len() - 1 {
                assert(rev@[i] == before[i]);
            }
        }
    }
    let mut s = String::new();
    let mut i = rev.len();
    while i > 0
        invariant
            i <= rev@.len(),
            rev@.len() == done.len(),
            forall|j: int| 0 <= j < done.len() ==> #[trigger] rev@[j] == done[done.len() - 1 - j],
            s@ == done.take(done.len() - i),
        decreases i,
    {
        i = i - 1;
        push_char(&mut s, rev[i]);
        assert(done.take(done.len() - i) == done.take(done.len() - i - 1).push(done[done.len() - 1 - i]));
    }
    assert(done.take(done.len() as int) =~= done);
    s
}

/// The character of the digit `d`.
fn char_of_digit(d: u32) -> (c: char)
    requires
        d < 10,
    ensures
        c == digit_char(d as int),
{
    let b: u8 = 48 + (d as u8);
    b as char
}

/// `n` in decimal, with a minus sign where it is negative.
pub fn format_i64(n: i64) -> (s: String)
    ensures
        s@ == decimal(n as int),
{
    if n < 0 {
        let magnitude: u64 = ((-(n + 1)) as u64) + 1;
        let mut s = String::from_str("-");
        let digits_text = format_u64(magnitude);
        s.append(digits_text.as_str());
        proof {
            reveal_strlit("-");
        }
        assert(s@ =~= seq!['-'] + digits((-n) as nat));
        s
    } else {
        format_u64(n as u64)
    }
}

/// The message the ping client sends: `Ping`, the sequence number and the
/// timestamp, separated by spaces.
pub fn ping_message(seq: i8, timestamp: &str) -> (msg: String)
    ensures
        msg@ == "Ping "@ + decimal(seq as int) + " "@ + timestamp@,
{
    let mut msg = String::from_str("Ping ");
    let number = format_i64(seq as i64);
    msg.append(number.as_str());
    msg.append(" ");
    msg.append(timestamp);
    msg
}

/// The message the heartbeat client sends: `Heartbeat`, the sequence number
/// and the timestamp, separated by spaces.
pub fn heartbeat_message(seq: i32, timestamp: &str) -> (msg: String)
    ensures
        msg@ == "Heartbeat "@ + decimal(seq as int) + " "@ + timestamp@,
{
    let mut msg = String::from_str("Heartbeat ");
    let number = format_i64(seq as i64);
    msg.append(number.as_str());
    msg.append(" ");
    msg.append(timestamp);
    msg
}

/// ASCII white space: `char::is_ascii_whitespace`.
pub open spec fn is_ascii_space(c: char) -> bool {
    c == ' ' || c == '\t' || c == '\n' || c == '\x0C' || c == '\r'
}

/// The length of the run of non-space characters that starts `s`.
pub open spec fn run_len(s: Seq<char>) -> nat
    decreases s.len(),
{
    if s.len() == 0 || is_ascii_space(s[0]) {
        0
    } else {
        1 + run_len(s.drop_first())
    }
}

/// `str::split_ascii_whitespace`: the maximal runs of characters other
/// than ASCII white space.
pub open spec fn ascii_tokens(s: Seq<char>) -> Seq<Seq<char>>
    decreases s.len(),
{
    if s.len() == 0 {
        seq![]
    } else if is_ascii_space(s[0]) {
        ascii_tokens(s.drop_first())
    } else {
        let k = run_len(s);
        if 0 < k <= s.len() {
            seq![s.take(k as int)] + ascii_tokens(s.skip(k as int))
        } else {
            seq![]
        }
    }
}

/// A run is no longer than the text, and at least one character long where
/// the text starts with one that is not white space.
pub proof fn lemma_run_len(s: Seq<char>)
    ensures
        run_len(s) <= s.len(),
        s.len() > 0 && !is_ascii_space(s[0]) ==> run_len(s) > 0,
        forall|i: int| 0 <= i < run_len(s) ==> !is_ascii_space(#[trigger] s[i]),
        run_len(s) < s.len() ==> is_ascii_space(s[run_len(s) as int]),
    decreases s.len(),
{
    if s.len() > 0 && !is_ascii_space(s[0]) {
        lemma_run_len(s.drop_first());
        assert forall|i: int| 0 <= i < run_len(s) implies !is_ascii_space(#[trigger] s[i]) by {
            if i > 0 {
                assert(s[i] == s.drop_first()[i - 1]);
            }
        }
    }
}

/// Whether `c` is ASCII white space.
fn ascii_space(c: char) -> (w: bool)
    ensures
        w == is_ascii_space(c),
{
    c == ' ' || c == '\t' || c == '\n' || c == '\x0C' || c == '\r'
}

/// The `n`-th token of `s`, counting from zero, as an index range.
fn token_range(s: &[char], n: usize) -> (r: Option<(usize, usize)>)
    ensures
        match r {
            Some((a, b)) => n < ascii_tokens(s@).len() && a <= b <= s@.len() && s@.subrange(a as int, b as int)
                == ascii_tokens(s@)[n as int],
            None => n >= ascii_tokens(s@).len(),
        },
{
    let mut i: usize = 0;
    let mut left = n;
    assert(s@.skip(0) =~= s@);
    while i < s.len()
        invariant
            i <= s@.len(),
            left <= n,
            ascii_tokens(s@).len() == n - left + ascii_tokens(s@.skip(i as int)).len(),
            forall|j: int| 0 <= j < ascii_tokens(s@.skip(i as int)).len() ==>
                ascii_tokens(s@)[n - left + j] == #[trigger] ascii_tokens(s@.skip(i as int))[j],
        decreases s@.len() - i,
    {
        let ghost rest = s@.skip(i as int);
        if ascii_space(s[i]) {
            assert(rest.drop_first() =~= s@.skip(i + 1));
            i = i + 1;
        } else {
            proof {
                lemma_run_len(rest);
            }
            let start = i;
            while i < s.len() && !ascii_space(s[i])
                invariant
                    start <= i <= s@.len(),
                    i - start <= run_len(rest),
                    rest == s@.skip(start as int),
                    run_len(rest) <= rest.len(),
                    run_len(rest) < rest.len() ==> is_ascii_space(rest[run_len(rest) as int]),
                    forall|j: int| start <= j < i ==> !is_ascii_space(#[trigger] s@[j]),
                decreases s@.len() - i,
            {
                assert(rest[i - start] == s@[i as int]);
                i = i + 1;
            }
            proof {
                lemma_run_len(rest);
                if i - start < run_len(rest) {
                    assert(rest[i - start] == s@[i as int]);
                }
            }
            assert(i - start == run_len(rest));
            assert(ascii_tokens(rest) == seq![rest.take(i - start)] + ascii_tokens(rest.skip(i - start)));
            assert(rest.skip(i - start) =~= s@.skip(i as int));
            assert(rest.take(i - start) =~= s@.subrange(start as int, i as int));
            assert(ascii_tokens(rest)[0] == s@.subrange(start as int, i as int));
            if left == 0 {
                return Some((start, i));
            }
            proof {
                let later = ascii_tokens(s@.skip(i as int));
                assert forall|j: int| 0 <= j < later.len() implies ascii_tokens(s@)[n - (left - 1) + j] == #[trigger] later[j] by {
                    assert(ascii_tokens(rest)[j + 1] == later[j]);
                }
            }
            left = left - 1;
        }
    }
    assert(s@.skip(i as int).len() == 0);
    None
}

/// The third token of a message, where it has one: the timestamp.
pub fn timestamp_token(msg: &str) -> (t: Option<String>)
    ensures
        match t {
            Some(s) => ascii_tokens(msg@).len() > 2 && s@ == ascii_tokens(msg@)[2],
            None => ascii_tokens(msg@).len() <= 2,
        },
{
    let chars = chars_of(msg);
    match token_range(chars.as_slice(), 2) {
        Some((a, b)) => Some(crate::text::string_of(&chars, a, b)),
        None => None,
    }
}

/// The instant an RFC 3339 text names, in microseconds since the Unix
/// epoch, as chrono reads it; `None` where chrono refuses the text.
pub uninterp spec fn rfc3339_micros(text: Seq<char>) -> Option<i64>;

/// `chrono::DateTime::parse_from_rfc3339(text)`, read as
/// `timestamp_micros()`: the result is named `rfc3339_micros`. Nothing is
/// stated of which texts chrono accepts.
#[verifier::external_body]
fn parse_rfc3339_micros(text: &str) -> (micros: Option<i64>)
    ensures
        micros == rfc3339_micros(text@),
{
    match chrono::DateTime::parse_from_rfc3339(text) {
        Ok(t) => Some(t.timestamp_micros()),
        Err(_) => None,
    }
}

/// Why no send time can be read from a message.
#[derive(Debug, Clone, Copy, PartialEq, Eq)]
pub enum TimestampError {
    /// The message has fewer than three tokens.
    Malformed,
    /// The third token is not an RFC 3339 timestamp.
    InvalidTime,
}

/// The send time a message carries in its third token.
pub open spec fn message_time(text: Seq<char>) -> Result<i64, TimestampError> {
    let tokens = ascii_tokens(text);
    if tokens.len() <= 2 {
        Err(TimestampError::Malformed)
    } else {
        match rfc3339_micros(tokens[2]) {
            Some(m) => Ok(m),
            None => Err(TimestampError::InvalidTime),
        }
    }
}

/// The send time, in microseconds, of a received ping or heartbeat: the
/// third token of its text (invalid UTF-8 replaced), read as RFC 3339.
pub fn reply_timestamp(reply: &[u8]) -> (t: Result<i64, TimestampError>)
    ensures
        t == message_time(utf8_lossy(reply@)),
{
    let text = decode_lossy(reply);
    match timestamp_token(text.as_str()) {
        None => Err(TimestampError::Malformed),
        Some(token) => match parse_rfc3339_micros(token.as_str()) {
            Some(m) => Ok(m),
            None => Err(TimestampError::InvalidTime),
        },
    }
}

/// The time a message spent between two instants, in microseconds.
pub fn elapsed_micros(sent: i64, received: i64) -> (d: i64)
    requires
        i64::MIN <= received - sent <= i64::MAX,
    ensures
        d == received - sent,
{
    received - sent
}

/// A word free of white space, then a space, starts the tokens of a text.
proof fn lemma_tokens_after_word(a: Seq<char>, c: char, b: Seq<char>)
    requires
        a.len() > 0,
        forall|i: int| 0 <= i < a.len() ==> !is_ascii_space(#[trigger] a[i]),
        is_ascii_space(c),
    ensures
        ascii_tokens(a + seq![c] + b) == seq![a] + ascii_tokens(b),
{
    let s = a + seq![c] + b;
    lemma_run_len(s);
    let k = run_len(s) as int;
    if k < a.len() {
        assert(s[k] == a[k]);
    }
    if k > a.len() {
        assert(s[a.len() as int] == c);
    }
    assert(k == a.len());
    assert(s[0] == a[0]);
    assert(s.take(k) =~= a);
    let t = s.skip(k);
    assert(t =~= seq![c] + b);
    assert(t.drop_first() =~= b);
    assert(!is_ascii_space(s[0]));
    assert(ascii_tokens(s) == seq![s.take(k)] + ascii_tokens(t));
    assert(t[0] == c);
    assert(ascii_tokens(t) == ascii_tokens(t.drop_first()));
}

/// A non-empty word free of white space is its own single token.
proof fn lemma_single_token(a: Seq<char>)
    requires
        a.len() > 0,
        forall|i: int| 0 <= i < a.len() ==> !is_ascii_space(#[trigger] a[i]),
    ensures
        ascii_tokens(a) == seq![a],
{
    lemma_run_len(a);
    let k = run_len(a) as int;
    if k < a.len() {
        assert(is_ascii_space(a[k]));
    }
    assert(a.take(k) =~= a);
    assert(a.skip(k).len() == 0);
    assert(ascii_tokens(a.skip(k)) == Seq::<Seq<char>>::empty());
    assert(!is_ascii_space(a[0]));
    assert(ascii_tokens(a) == seq![a.take(k)] + ascii_tokens(a.skip(k)));
    assert(ascii_tokens(a) =~= seq![a]);
}

/// The digits of a number are digits.
proof fn lemma_digits(n: nat)
    ensures
        digits(n).len() > 0,
        forall|i: int| 0 <= i < digits(n).len() ==> '0' <= #[trigger] digits(n)[i] <= '9',
    decreases n,
{
    if n >= 10 {
        lemma_digits(n / 10);
        assert forall|i: int| 0 <= i < digits(n).len() implies '0' <= #[trigger] digits(n)[i] <= '9' by {
            if i < digits(n / 10).len() {
                assert(digits(n)[i] == digits(n / 10)[i]);
            }
        }
    }
}

/// A number written in decimal is a single word.
proof fn lemma_decimal_word(n: int)
    ensures
        decimal(n).len() > 0,
        forall|i: int| 0 <= i < decimal(n).len() ==> !is_ascii_space(#[trigger] decimal(n)[i]),
{
    if n < 0 {
        lemma_digits((-n) as nat);
        assert forall|i: int| 0 <= i < decimal(n).len() implies !is_ascii_space(#[trigger] decimal(n)[i]) by {
            if i > 0 {
                assert(decimal(n)[i] == digits((-n) as nat)[i - 1]);
            }
        }
    } else {
        lemma_digits(n as nat);
    }
}

/// The tokens of `word`, a space, a number, a space and a timestamp.
proof fn lemma_message_tokens(word: Seq<char>, n: int, timestamp: Seq<char>)
    requires
        word.len() > 0,
        forall|i: int| 0 <= i < word.len() ==> !is_ascii_space(#[trigger] word[i]),
        timestamp.len() > 0,
        forall|i: int| 0 <= i < timestamp.len() ==> !is_ascii_space(#[trigger] timestamp[i]),
    ensures
        ascii_tokens(word + seq![' '] + decimal(n) + seq![' '] + timestamp) == seq![word, decimal(n), timestamp],
{
    lemma_decimal_word(n);
    let rest = decimal(n) + seq![' '] + timestamp;
    assert(word + seq![' '] + decimal(n) + seq![' '] + timestamp =~= word + seq![' '] + rest);
    lemma_tokens_after_word(word, ' ', rest);
    lemma_tokens_after_word(decimal(n), ' ', timestamp);
    lemma_single_token(timestamp);
    assert(seq![word] + (seq![decimal(n)] + seq![timestamp]) =~= seq![word, decimal(n), timestamp]);
}

/// The timestamp a ping or heartbeat message was made with is the third
/// token the receiver reads back, where it is a non-empty word without
/// white space.
pub proof fn lemma_timestamp_read_back(seq: int, timestamp: Seq<char>)
    requires
        timestamp.len() > 0,
        forall|i: int| 0 <= i < timestamp.len() ==> !is_ascii_space(#[trigger] timestamp[i]),
    ensures
        ascii_tokens("Ping "@ + decimal(seq) + " "@ + timestamp)[2] == timestamp,
        ascii_tokens("Heartbeat "@ + decimal(seq) + " "@ + timestamp)[2] == timestamp,
        ascii_tokens("Ping "@ + decimal(seq) + " "@ + timestamp).len() == 3,
        ascii_tokens("Heartbeat "@ + decimal(seq) + " "@ + timestamp).len() == 3,
{
    reveal_strlit("Ping ");
    reveal_strlit("Heartbeat ");
    reveal_strlit(" ");
    let ping = seq!['P', 'i', 'n', 'g'];
    let heartbeat = seq!['H', 'e', 'a', 'r', 't', 'b', 'e', 'a', 't'];
    assert("Ping "@ =~= ping + seq![' ']);
    assert("Heartbeat "@ =~= heartbeat + seq![' ']);
    assert(" "@ =~= seq![' ']);
    lemma_message_tokens(ping, seq, timestamp);
    lemma_message_tokens(heartbeat, seq, timestamp);
    assert("Ping "@ + decimal(seq) + " "@ + timestamp =~= ping + seq![' '] + decimal(seq) + seq![' '] + timestamp);
    assert("Heartbeat "@ + decimal(seq) + " "@ + timestamp =~= heartbeat + seq![' '] + decimal(seq) + seq![' '] + timestamp);
}

/// The number of pings the client sends.
pub const PINGS: i8 = 10;

/// The sum of some round-trip times.
pub open spec fn rtt_sum(s: Seq<i64>) -> int
    decreases s.len(),
{
    if s.len() == 0 {
        0
    } else {
        rtt_sum(s.drop_last()) + s.last()
    }
}

/// The least of some round-trip times.
pub open spec fn rtt_min(s: Seq<i64>) -> int
    decreases s.len(),
{
    if s.len() <= 1 {
        s[0] as int
    } else if s.last() < rtt_min(s.drop_last()) {
        s.last() as int
    } else {
        rtt_min(s.drop_last())
    }
}

/// The greatest of some round-trip times.
pub open spec fn rtt_max(s: Seq<i64>) -> int
    decreases s.len(),
{
    if s.len() <= 1 {
        s[0] as int
    } else if s.last() > rtt_max(s.drop_last()) {
        s.last() as int
    } else {
        rtt_max(s.drop_last())
    }
}

/// Whether every running sum of the times fits in an `i64`.
pub open spec fn sums_fit(s: Seq<i64>) -> bool {
    forall|k: int| 0 <= k <= s.len() ==> i64::MIN <= #[trigger] rtt_sum(s.take(k)) <= i64::MAX
}

/// Floor division by a positive divisor, through truncating division of
/// non-negative numbers.
proof fn lemma_floor_div(s: int, n: int)
    requires
        n > 0,
        s < 0,
    ensures
        -((-s + n - 1) / n) == s / n,
{
    let q = s / n;
    let r = s % n;
    assert(s == q * n + r && 0 <= r < n) by (nonlinear_arith)
        requires
            n > 0,
            q == s / n,
            r == s % n,
    ;
    let m = -s + n - 1;
    assert(m == (-q) * n + (n - 1 - r)) by (nonlinear_arith)
        requires
            s == q * n + r,
            m == -s + n - 1,
    ;
    assert(m / n == -q) by (nonlinear_arith)
        requires
            n > 0,
            m == (-q) * n + (n - 1 - r),
            0 <= n - 1 - r < n,
    ;
}

/// A count of replies as an `i8` holds it: the count modulo 256, read in
/// two's complement.
pub open spec fn wrapped_count(n: nat) -> int {
    if n % 256 >= 128 {
        n % 256 - 256
    } else {
        (n % 256) as int
    }
}

/// Whether `PINGS` less the wrapped count of replies leaves the range of `i8`.
pub open spec fn lost_overflows(n: nat) -> bool {
    PINGS - wrapped_count(n) > i8::MAX
}

/// The least, greatest and mean round-trip time (the mean rounded down),
/// and the percentage of the `PINGS` pings that got no reply, the count of
/// replies taken as an `i8`; `None` where no reply came.
pub fn stats(rtts: Vec<i64>) -> (r: Option<(i64, i64, i64, i16)>)
    requires
        sums_fit(rtts@),
        !lost_overflows(rtts@.len()),
    ensures
        r is None <==> rtts@.len() == 0,
        r matches Some((min, max, avg, lost)) ==> {
            &&& min == rtt_min(rtts@)
            &&& max == rtt_max(rtts@)
            &&& avg == rtt_sum(rtts@) / (rtts@.len() as int)
            &&& lost == 10 * (PINGS - wrapped_count(rtts@.len()))
        },
{
    let n = rtts.len();
    if n == 0 {
        return None;
    }
    let mut sum: i64 = 0;
    let mut min: i64 = rtts[0];
    let mut max: i64 = rtts[0];
    let mut i: usize = 0;
    assert(rtts@.take(0) =~= Seq::<i64>::empty());
    while i < n
        invariant
            n == rtts@.len(),
            0 < n,
            i <= n,
            sums_fit(rtts@),
            sum == rtt_sum(rtts@.take(i as int)),
            i > 0 ==> min == rtt_min(rtts@.take(i as int)),
            i > 0 ==> max == rtt_max(rtts@.take(i as int)),
            i == 0 ==> min == rtts@[0] && max == rtts@[0],
        decreases n - i,
    {
        let x = rtts[i];
        let ghost next = rtts@.take(i + 1);
        assert(next.drop_last() =~= rtts@.take(i as int));
        assert(next.last() == x);
        assert(i64::MIN <= rtt_sum(next) <= i64::MAX);
        sum = sum + x;
        if i == 0 {
            min = x;
            max = x;
        } else {
            if x < min {
                min = x;
            }
            if x > max {
                max = x;
            }
        }
        i = i + 1;
    }
    assert(rtts@.take(n as int) =~= rtts@);
    let s = sum as i128;
    let d = n as i128;
    let avg: i128 = if s >= 0 {
        s / d
    } else {
        proof {
            lemma_floor_div(s as int, d as int);
        }
        -((-s + d - 1) / d)
    };
    assert(avg == rtt_sum(rtts@) / (n as int));
    assert(i64::MIN <= avg <= i64::MAX) by (nonlinear_arith)
        requires
            avg == (s as int) / (d as int),
            d >= 1,
            i64::MIN <= s <= i64::MAX,
    ;
    let m: usize = n % 256;
    let count: i16 = if m >= 128 {
        m as i16 - 256
    } else {
        m as i16
    };
    let lost: i16 = (10 - count) * 10;
    Some((min, max, avg as i64, lost))
}

/// `char::to_ascii_uppercase`.
pub open spec fn ascii_upper(c: char) -> char {
    if 'a' <= c <= 'z' {
        ((c as u32) - 32) as char
    } else {
        c
    }
}

/// The reply of the echo server: the text of the request (invalid UTF-8
/// replaced) with ASCII letters in upper case.
pub fn echo_reply(request: &[u8]) -> (reply: String)
    ensures
        reply@ == utf8_lossy(request@).map_values(|c: char| ascii_upper(c)),
{
    let text = decode_lossy(request);
    let chars = chars_of(text.as_str());
    let mut reply = String::new();
    let mut i: usize = 0;
    while i < chars.len()
        invariant
            i <= chars@.len(),
            chars@ == utf8_lossy(request@),
            reply@ == chars@.take(i as int).map_values(|c: char| ascii_upper(c)),
        decreases chars@.len() - i,
    {
        let c = chars[i];
        let u = if 'a' <= c && c <= 'z' {
            let b: u8 = c as u8;
            (b - 32) as char
        } else {
            c
        };
        push_char(&mut reply, u);
        assert(chars@.take(i + 1).map_values(|c: char| ascii_upper(c)) =~= chars@.take(i as int).map_values(
            |c: char| ascii_upper(c),
        ).push(ascii_upper(c)));
        i = i + 1;
    }
    assert(chars@.take(chars@.len() as int) =~= chars@);
    reply
}

} // verus!
