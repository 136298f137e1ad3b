//! FTP client logic: the commands it sends and the replies each accepts,
//! the address a PASV reply announces, and the entries of an MLSD listing.

use vstd::prelude::*;
use vstd::utf8::{encode_utf8_valid_utf8, is_char_boundary};
use vstd::string::StringSliceAdditionalSpecFns;
use crate::reply::{parse_i16, parse_u16, parse_i16_at, parse_u16_at};
use crate::text::{
    first_index,
    split_on,
    split_terminator,
    split_once,
    range_pieces,
    find_byte,
    split_bytes,
    split_chars,
    split_terminator_chars,
    find_char,
    chars_of,
    string_of,
    lemma_first_index,
};

verus! {

/// A command of the FTP client.
pub enum FtpCommand {
    /// `USER name`
    User(String),
    /// `PASS password`
    Pass(String),
    /// `TYPE I`: binary transfers.
    TypeImage,
    /// `PASV`: ask for a data connection address.
    Passive,
    /// `MLSD`: list the current directory.
    ListDirectory,
    /// `CWD dir`
    ChangeDirectory(String),
    /// `RETR name`
    Retrieve(String),
    /// `STOR name`
    Store(String),
    /// `QUIT`
    Quit,
}

/// The line sent for a command.
pub open spec fn command_line(cmd: FtpCommand) -> Seq<char> {
    match cmd {
        FtpCommand::User(name) => "USER "@ + name@ + "\r\n"@,
        FtpCommand::Pass(pword) => "PASS "@ + pword@ + "\r\n"@,
        FtpCommand::TypeImage => "TYPE I\r\n"@,
        FtpCommand::Passive => "PASV\r\n"@,
        FtpCommand::ListDirectory => "MLSD\r\n"@,
        FtpCommand::ChangeDirectory(dir) => "CWD "@ + dir@ + "\r\n"@,
        FtpCommand::Retrieve(name) => "RETR "@ + name@ + "\r\n"@,
        FtpCommand::Store(name) => "STOR "@ + name@ + "\r\n"@,
        FtpCommand::Quit => "QUIT\r\n"@,
    }
}

/// The reply codes a command accepts, as a half-open range; `None` for the
/// commands whose reply is read in full or not at all.
pub open spec fn accepted_codes(cmd: FtpCommand) -> Option<(i16, i16)> {
    match cmd {
        FtpCommand::User(_) => Some((300, 400)),
        FtpCommand::Pass(_) => Some((200, 300)),
        FtpCommand::TypeImage => Some((200, 300)),
        FtpCommand::Passive => None,
        FtpCommand::ListDirectory => Some((100, 200)),
        FtpCommand::ChangeDirectory(_) => Some((200, 300)),
        FtpCommand::Retrieve(_) => Some((100, 200)),
        FtpCommand::Store(_) => Some((100, 200)),
        FtpCommand::Quit => None,
    }
}

/// `prefix`, `arg` and CR LF, in that order.
fn line_with_argument(prefix: &str, arg: &String) -> (line: String)
    ensures
        line@ == prefix@ + arg@ + "\r\n"@,
{
    let mut line = String::from_str(prefix);
    line.append(arg.as_str());
    line.append("\r\n");
    line
}

impl FtpCommand {
    /// The line to send.
    pub fn text(&self) -> (line: String)
        ensures
            line@ == command_line(*self),
    {
        match self {
            FtpCommand::User(name) => line_with_argument("USER ", name),
            FtpCommand::Pass(pword) => line_with_argument("PASS ", pword),
            FtpCommand::TypeImage => String::from_str("TYPE I\r\n"),
            FtpCommand::Passive => String::from_str("PASV\r\n"),
            FtpCommand::ListDirectory => String::from_str("MLSD\r\n"),
            FtpCommand::ChangeDirectory(dir) => line_with_argument("CWD ", dir),
            FtpCommand::Retrieve(name) => line_with_argument("RETR ", name),
            FtpCommand::Store(name) => line_with_argument("STOR ", name),
            FtpCommand::Quit => String::from_str("QUIT\r\n"),
        }
    }

    /// The reply codes the command accepts.
    pub fn expected_codes(&self) -> (range: Option<(i16, i16)>)
        ensures
            range == accepted_codes(*self),
    {
        match self {
            FtpCommand::User(_) => Some((300, 400)),
            FtpCommand::Pass(_) => Some((200, 300)),
            FtpCommand::TypeImage => Some((200, 300)),
            FtpCommand::Passive => None,
            FtpCommand::ListDirectory => Some((100, 200)),
            FtpCommand::ChangeDirectory(_) => Some((200, 300)),
            FtpCommand::Retrieve(_) => Some((100, 200)),
            FtpCommand::Store(_) => Some((100, 200)),
            FtpCommand::Quit => None,
        }
    }
}

/// Why a PASV reply gives no address.
#[derive(Debug, Clone, Copy, PartialEq, Eq)]
pub enum PasvError {
    /// The first three bytes are not a number.
    BadCode,
    /// The code is not 227.
    NotPassive,
    /// No parenthesised list of six numbers.
    Malformed,
    /// An item of the list is not a 16-bit number.
    BadNumber,
}

/// The numbers `items[0..k]`, or the first problem: a missing item or one
/// that is no number.
pub open spec fn leading_numbers(items: Seq<Seq<u8>>, k: nat) -> Result<Seq<u16>, PasvError>
    decreases k,
{
    if k == 0 {
        Ok(seq![])
    } else {
        match leading_numbers(items, (k - 1) as nat) {
            Err(e) => Err(e),
            Ok(v) => if k - 1 >= items.len() {
                Err(PasvError::Malformed)
            } else {
                match parse_u16(items[k - 1]) {
                    None => Err(PasvError::BadNumber),
                    Some(x) => Ok(v.push(x)),
                }
            },
        }
    }
}

/// What a PASV reply (as bytes) announces: the six numbers between the first
/// `(` and the next `)`, separated by commas, after a code of 227.
pub open spec fn pasv_numbers(resp: Seq<u8>) -> Result<Seq<u16>, PasvError> {
    match parse_i16(resp.take(3)) {
        None => Err(PasvError::BadCode),
        Some(code) => if code != 227 {
            Err(PasvError::NotPassive)
        } else {
            match split_once(resp, 40u8) {
                None => Err(PasvError::Malformed),
                Some((_, after)) => match split_once(after, 41u8) {
                    None => Err(PasvError::Malformed),
                    Some((inner, _)) => leading_numbers(split_terminator(inner, 44u8), 6),
                },
            }
        },
    }
}

/// The data connection address of a PASV reply: four host numbers and the
/// two bytes of the port, as announced.
pub struct PasvAddress {
    pub host: [u16; 4],
    pub port_high: u16,
    pub port_low: u16,
}

impl PasvAddress {
    /// The port: `port_high * 256 + port_low`.
    pub fn port(&self) -> (port: u16)
        requires
            self.port_high * 256 + self.port_low <= 65535,
        ensures
            port == self.port_high * 256 + self.port_low,
    {
        self.port_high * 256 + self.port_low
    }
}

/// The pieces `split_terminator` leaves, as index ranges of `s`.
fn split_terminator_bytes(s: &[u8], lo: usize, hi: usize, x: u8) -> (ranges: Vec<(usize, usize)>)
    requires
        lo <= hi <= s@.len(),
    ensures
        forall|k: int| 0 <= k < ranges@.len() ==> #[trigger] ranges@[k].0 <= ranges@[k].1 <= s@.len(),
        range_pieces(s@, ranges@) == split_terminator(s@.subrange(lo as int, hi as int), x),
{
    let part = &s[lo..hi];
    let local = split_bytes(part, x);
    let mut ranges: Vec<(usize, usize)> = Vec::new();
    let mut k: usize = 0;
    let ghost pieces = split_on(part@, x);
    let keep = if local.len() > 0 && local[local.len() - 1].0 == local[local.len() - 1].1 {
        local.len() - 1
    } else {
        local.len()
    };
    while k < keep
        invariant
            keep <= local@.len(),
            local@.len() == pieces.len(),
            range_pieces(part@, local@) == pieces,
            part@ == s@.subrange(lo as int, hi as int),
            lo <= hi <= s@.len(),
            forall|j: int| 0 <= j < local@.len() ==> #[trigger] local@[j].0 <= local@[j].1 <= part@.len(),
            ranges@.len() == k,
            k <= keep,
            forall|j: int| 0 <= j < k ==> #[trigger] ranges@[j] == (
                (lo + local@[j].0) as usize,
                (lo + local@[j].1) as usize,
            ),
            forall|j: int| 0 <= j < k ==> #[trigger] ranges@[j].0 <= ranges@[j].1 <= s@.len(),
        decreases keep - k,
    {
        let (a, b) = local[k];
        assert(local@[k as int].0 <= local@[k as int].1 <= part@.len());
        ranges.push((lo + a, lo + b));
        k = k + 1;
    }
    proof {
        assert forall|j: int| 0 <= j < keep implies range_pieces(s@, ranges@)[j] == pieces[j] by {
            assert(pieces[j] == part@.subrange(local@[j].0 as int, local@[j].1 as int));
            assert(part@.subrange(local@[j].0 as int, local@[j].1 as int) =~= s@.subrange(
                lo + local@[j].0,
                lo + local@[j].1,
            ));
        }
        if local@.len() > 0 {
            assert(pieces.last() == part@.subrange(local@[local@.len() - 1].0 as int, local@[local@.len() - 1].1 as int));
        }
        if keep < local@.len() {
            assert(range_pieces(s@, ranges@) =~= pieces.drop_last());
        } else {
            assert(range_pieces(s@, ranges@) =~= pieces);
        }
    }
    ranges
}

/// The first six numbers of the pieces `items` of `bytes`, as
/// `leading_numbers` reads them.
fn six_numbers(bytes: &[u8], items: &Vec<(usize, usize)>, Ghost(pieces): Ghost<Seq<Seq<u8>>>) -> (res: Result<Vec<u16>, PasvError>)
    requires
        range_pieces(bytes@, items@) == pieces,
        forall|j: int| 0 <= j < items@.len() ==> #[trigger] items@[j].0 <= items@[j].1 <= bytes@.len(),
    ensures
        match leading_numbers(pieces, 6) {
            Ok(v) => res matches Ok(w) && w@ == v && v.len() == 6,
            Err(e) => res == Err::<Vec<u16>, PasvError>(e),
        },
{
    let mut numbers: Vec<u16> = Vec::new();
    let mut k: usize = 0;
    while k < 6
        invariant
            k <= 6,
            range_pieces(bytes@, items@) == pieces,
            forall|j: int| 0 <= j < items@.len() ==> #[trigger] items@[j].0 <= items@[j].1 <= bytes@.len(),
            leading_numbers(pieces, k as nat) == Ok::<Seq<u16>, PasvError>(numbers@),
            numbers@.len() == k,
        decreases 6 - k,
    {
        if k >= items.len() {
            assert(leading_numbers(pieces, (k + 1) as nat) == Err::<Seq<u16>, PasvError>(PasvError::Malformed));
            proof {
                lemma_leading_numbers_err_sticks(pieces, (k + 1) as nat, 6);
            }
            return Err(PasvError::Malformed);
        }
        let (a, b) = items[k];
        assert(items@[k as int].0 <= items@[k as int].1 <= bytes@.len());
        assert(pieces[k as int] == bytes@.subrange(a as int, b as int));
        match parse_u16_at(bytes, a, b) {
            None => {
                assert(leading_numbers(pieces, (k + 1) as nat) == Err::<Seq<u16>, PasvError>(PasvError::BadNumber));
                proof {
                    lemma_leading_numbers_err_sticks(pieces, (k + 1) as nat, 6);
                }
                return Err(PasvError::BadNumber);
            },
            Some(x) => {
                numbers.push(x);
            },
        }
        k = k + 1;
    }
    Ok(numbers)
}

/// Reads the data connection address from a PASV reply.
pub fn parse_pasv_reply(resp: &str) -> (addr: Result<PasvAddress, PasvError>)
    requires
        is_char_boundary(resp.spec_bytes(), 3),
    ensures
        match pasv_numbers(resp.spec_bytes()) {
            Ok(v) => addr matches Ok(a) && a.host@ == v.take(4) && a.port_high == v[4] && a.port_low
                == v[5],
            Err(e) => addr == Err::<PasvAddress, PasvError>(e),
        },
{
    let bytes = resp.as_bytes();
    let n = bytes.len();
    proof {
        encode_utf8_valid_utf8(resp@);
    }
    assert(bytes@.len() >= 3) by {
        if bytes@.len() < 3 {
            assert(!is_char_boundary(bytes@, 3));
        }
    }
    assert(bytes@.subrange(0, 3) =~= bytes@.take(3));
    let code = match parse_i16_at(bytes, 0, 3) {
        None => {
            return Err(PasvError::BadCode);
        },
        Some(c) => c,
    };
    if code != 227 {
        return Err(PasvError::NotPassive);
    }
    proof {
        lemma_first_index(bytes@, 40u8);
    }
    assert(bytes@.skip(0) =~= bytes@);
    let open = match find_byte(bytes, 0, 40) {
        None => {
            return Err(PasvError::Malformed);
        },
        Some(i) => i,
    };
    let ghost after = bytes@.skip(open + 1);
    let close = match find_byte(bytes, open + 1, 41) {
        None => {
            return Err(PasvError::Malformed);
        },
        Some(i) => i,
    };
    let ghost inner = after.take(close - (open + 1));
    assert(bytes@.subrange(open + 1, close as int) =~= inner);
    let items = split_terminator_bytes(bytes, open + 1, close, 44);
    let ghost pieces = split_terminator(inner, 44u8);
    assert(range_pieces(bytes@, items@) == pieces);
    assert(split_once(bytes@, 40u8) == Some((bytes@.take(open as int), after)));
    assert(after.skip(close - (open + 1) + 1) =~= bytes@.skip(close + 1));
    assert(split_once(after, 41u8) == Some((inner, bytes@.skip(close + 1))));
    assert(pasv_numbers(bytes@) == leading_numbers(pieces, 6));
    let numbers = match six_numbers(bytes, &items, Ghost(pieces)) {
        Ok(v) => v,
        Err(e) => {
            return Err(e);
        },
    };
    let host: [u16; 4] = [numbers[0], numbers[1], numbers[2], numbers[3]];
    assert(host@ =~= numbers@.take(4));
    Ok(PasvAddress { host, port_high: numbers[4], port_low: numbers[5] })
}

/// Once reading the numbers fails, reading more of them fails the same way.
proof fn lemma_leading_numbers_err_sticks(items: Seq<Seq<u8>>, k: nat, m: nat)
    requires
        k <= m,
        leading_numbers(items, k) is Err,
    ensures
        leading_numbers(items, m) == leading_numbers(items, k),
    decreases m - k,
{
    if k < m {
        lemma_leading_numbers_err_sticks(items, k, (m - 1) as nat);
    }
}


/// `char::is_whitespace`: the Unicode `White_Space` characters.
pub open spec fn is_whitespace(c: char) -> bool {
    let v = c as u32;
    (9 <= v <= 13) || v == 32 || v == 0x85 || v == 0xA0 || v == 0x1680 || (0x2000 <= v <= 0x200A)
        || v == 0x2028 || v == 0x2029 || v == 0x202F || v == 0x205F || v == 0x3000
}

/// `s` without leading whitespace.
pub open spec fn trim_start(s: Seq<char>) -> Seq<char>
    decreases s.len(),
{
    if s.len() > 0 && is_whitespace(s[0]) {
        trim_start(s.drop_first())
    } else {
        s
    }
}

/// `s` without trailing whitespace.
pub open spec fn trim_end(s: Seq<char>) -> Seq<char>
    decreases s.len(),
{
    if s.len() > 0 && is_whitespace(s.last()) {
        trim_end(s.drop_last())
    } else {
        s
    }
}

/// `str::trim`.
pub open spec fn trim(s: Seq<char>) -> Seq<char> {
    trim_end(trim_start(s))
}

/// `char::to_ascii_lowercase`.
pub open spec fn ascii_lower(c: char) -> char {
    if 'A' <= c <= 'Z' {
        ((c as u32) + 32) as char
    } else {
        c
    }
}

/// Whether a fact name is `type` in any ASCII case.
pub open spec fn is_type_key(k: Seq<char>) -> bool {
    Seq::new(k.len(), |i: int| ascii_lower(k[i])) == "type"@
}

/// The value of the first `type` fact among `facts`.
pub open spec fn type_value(facts: Seq<Seq<char>>) -> Option<Seq<char>>
    decreases facts.len(),
{
    if facts.len() == 0 {
        None
    } else {
        match split_once(facts[0], '=') {
            Some((k, v)) => if is_type_key(k) {
                Some(v)
            } else {
                type_value(facts.drop_first())
            },
            None => type_value(facts.drop_first()),
        }
    }
}

/// Whether fact `i` of `facts` is a `type` fact: a `key=value` fact whose
/// key is `type` in any ASCII case.
pub open spec fn is_type_fact(facts: Seq<Seq<char>>, i: int) -> bool {
    split_once(facts[i], '=') matches Some((k, v)) && is_type_key(k)
}

/// The type of an MLSD line is the value of its first `type` fact, wherever
/// that fact stands among the facts; the line has no type only when none of
/// its facts is a `type` fact.
pub proof fn lemma_first_type_fact(facts: Seq<Seq<char>>)
    ensures
        type_value(facts) is None <==> forall|i: int| 0 <= i < facts.len() ==> !is_type_fact(facts, i),
        forall|i: int|
            0 <= i < facts.len() && is_type_fact(facts, i) && (forall|j: int| 0 <= j < i ==> !is_type_fact(facts, j))
                ==> type_value(facts) == Some(split_once(facts[i], '=')->Some_0.1),
    decreases facts.len(),
{
    if facts.len() > 0 {
        let tail = facts.drop_first();
        lemma_first_type_fact(tail);
        assert forall|i: int| 1 <= i < facts.len() implies is_type_fact(facts, i) == is_type_fact(tail, i - 1) by {
            assert(facts[i] == tail[i - 1]);
        }
        if !is_type_fact(facts, 0) {
            assert(type_value(facts) == type_value(tail));
            assert forall|i: int|
                0 <= i < facts.len() && is_type_fact(facts, i) && (forall|j: int| 0 <= j < i ==> !is_type_fact(facts, j))
                implies type_value(facts) == Some(split_once(facts[i], '=')->Some_0.1) by {
                assert(i >= 1);
                assert(facts[i] == tail[i - 1]);
                assert forall|j: int| 0 <= j < i - 1 implies !is_type_fact(tail, j) by {
                    assert(!is_type_fact(facts, j + 1));
                }
            }
            if type_value(facts) is None {
                assert forall|i: int| 0 <= i < facts.len() implies !is_type_fact(facts, i) by {
                    if i >= 1 {
                        assert(!is_type_fact(tail, i - 1));
                    }
                }
            } else {
                let k = choose|k: int| 0 <= k < tail.len() && is_type_fact(tail, k);
                assert(is_type_fact(facts, k + 1));
            }
        }
    }
}

/// The entry an MLSD line describes: `(true, name)` for a directory,
/// `(false, name)` for a file; `None` for other lines.
pub open spec fn listing_entry(line: Seq<char>) -> Option<(bool, Seq<char>)> {
    match split_once(line, ' ') {
        None => None,
        Some((facts, name)) => match type_value(split_terminator(facts, ';')) {
            None => None,
            Some(v) => if v == "dir"@ {
                Some((true, trim(name)))
            } else if v == "file"@ {
                Some((false, trim(name)))
            } else {
                None
            },
        },
    }
}

/// An MLSD line is its facts, a space, and the name: the name is all that
/// follows the first space, trimmed. The line names a directory when its
/// first `type` fact has the value `dir`, a file when it has the value
/// `file`, and nothing when that value is another or no `type` fact is there.
pub proof fn lemma_listing_line(facts: Seq<char>, name: Seq<char>)
    requires
        !facts.contains(' '),
    ensures
        ({
            let fs = split_terminator(facts, ';');
            forall|i: int|
                0 <= i < fs.len() && #[trigger] is_type_fact(fs, i) && (forall|j: int| 0 <= j < i ==> !is_type_fact(fs, j))
                    ==> listing_entry(facts + seq![' '] + name) == {
                    let v = split_once(fs[i], '=')->Some_0.1;
                    if v == "dir"@ {
                        Some((true, trim(name)))
                    } else if v == "file"@ {
                        Some((false, trim(name)))
                    } else {
                        None::<(bool, Seq<char>)>
                    }
                }
        }),
        (forall|i: int| 0 <= i < split_terminator(facts, ';').len() ==> !is_type_fact(split_terminator(facts, ';'), i))
            ==> listing_entry(facts + seq![' '] + name) is None,
{
    let line = facts + seq![' '] + name;
    lemma_first_index(line, ' ');
    assert forall|j: int| 0 <= j < facts.len() implies line[j] != ' ' by {
        assert(line[j] == facts[j]);
        if facts[j] == ' ' {
            assert(facts.contains(facts[j]));
        }
    }
    assert(line[facts.len() as int] == ' ');
    if first_index(line, ' ') is Some {
        let k = first_index(line, ' ')->Some_0;
        assert(k == facts.len());
    }
    assert(first_index(line, ' ') == Some(facts.len() as int));
    assert(line.take(facts.len() as int) =~= facts);
    assert(line.skip(facts.len() as int + 1) =~= name);
    lemma_first_type_fact(split_terminator(facts, ';'));
}

/// The entries of the given lines, in order.
pub open spec fn listing_entries(lines: Seq<Seq<char>>) -> Seq<(bool, Seq<char>)>
    decreases lines.len(),
{
    if lines.len() == 0 {
        seq![]
    } else {
        match listing_entry(lines[0]) {
            Some(e) => seq![e] + listing_entries(lines.drop_first()),
            None => listing_entries(lines.drop_first()),
        }
    }
}

/// The entries of an MLSD listing: one per line that names a directory or a file.
pub open spec fn listing(data: Seq<char>) -> Seq<(bool, Seq<char>)> {
    listing_entries(split_terminator(data, '\n'))
}

/// An entry of a remote directory.
#[derive(Debug)]
pub enum RemoteFile {
    Dir(String),
    File(String),
}

/// `(is_dir, name)` of a remote entry.
pub open spec fn remote_view(f: RemoteFile) -> (bool, Seq<char>) {
    match f {
        RemoteFile::Dir(n) => (true, n@),
        RemoteFile::File(n) => (false, n@),
    }
}

/// Whether `c` is white space: `char::is_whitespace`.
fn whitespace(c: char) -> (w: bool)
    ensures
        w == is_whitespace(c),
{
    let v = c as u32;
    (9 <= v && v <= 13) || v == 32 || v == 0x85 || v == 0xA0 || v == 0x1680 || (0x2000 <= v && v
        <= 0x200A) || v == 0x2028 || v == 0x2029 || v == 0x202F || v == 0x205F || v == 0x3000
}

/// The bounds of `s[lo..hi]` with white space trimmed at both ends.
fn trim_bounds(s: &[char], lo: usize, hi: usize) -> (b: (usize, usize))
    requires
        lo <= hi <= s@.len(),
    ensures
        lo <= b.0 <= b.1 <= hi,
        s@.subrange(b.0 as int, b.1 as int) == trim(s@.subrange(lo as int, hi as int)),
{
    let mut a = lo;
    while a < hi && whitespace(s[a])
        invariant
            lo <= a <= hi <= s@.len(),
            trim_start(s@.subrange(lo as int, hi as int)) == trim_start(s@.subrange(a as int, hi as int)),
        decreases hi - a,
    {
        assert(s@.subrange(a as int, hi as int).drop_first() =~= s@.subrange(a + 1, hi as int));
        a = a + 1;
    }
    assert(trim_start(s@.subrange(a as int, hi as int)) == s@.subrange(a as int, hi as int));
    let mut b = hi;
    while b > a && whitespace(s[b - 1])
        invariant
            lo <= a <= b <= hi <= s@.len(),
            trim(s@.subrange(lo as int, hi as int)) == trim_end(s@.subrange(a as int, b as int)),
        decreases b - a,
    {
        assert(s@.subrange(a as int, b as int).drop_last() =~= s@.subrange(a as int, b - 1));
        b = b - 1;
    }
    (a, b)
}

/// Whether `s[lo..hi]` is `type` in any ASCII case.
fn type_key(s: &[char], lo: usize, hi: usize) -> (k: bool)
    requires
        lo <= hi <= s@.len(),
    ensures
        k == is_type_key(s@.subrange(lo as int, hi as int)),
{
    let ghost key = s@.subrange(lo as int, hi as int);
    let ghost lowered = Seq::new(key.len(), |i: int| ascii_lower(key[i]));
    proof {
        reveal_strlit("type");
    }
    if hi - lo != 4 {
        assert(lowered.len() != "type"@.len());
        return false;
    }
    let c0 = lower(s[lo]);
    let c1 = lower(s[lo + 1]);
    let c2 = lower(s[lo + 2]);
    let c3 = lower(s[lo + 3]);
    assert(lowered[0] == c0 && lowered[1] == c1 && lowered[2] == c2 && lowered[3] == c3);
    let k = c0 == 't' && c1 == 'y' && c2 == 'p' && c3 == 'e';
    if k {
        assert(lowered =~= "type"@);
    } else {
        assert(lowered != "type"@) by {
            if lowered == "type"@ {
                assert(lowered[0] == 't' && lowered[1] == 'y' && lowered[2] == 'p' && lowered[3] == 'e');
            }
        }
    }
    k
}

/// `char::to_ascii_lowercase`.
fn lower(c: char) -> (l: char)
    ensures
        l == ascii_lower(c),
{
    if 'A' <= c && c <= 'Z' {
        let b: u8 = c as u8;
        (b + 32) as char
    } else {
        c
    }
}

/// Whether `s[lo..hi]` equals the three characters `a`, `b`, `c`.
fn is_word3(s: &[char], lo: usize, hi: usize, a: char, b: char, c: char) -> (eq: bool)
    requires
        lo <= hi <= s@.len(),
    ensures
        eq == (s@.subrange(lo as int, hi as int) == seq![a, b, c]),
{
    if hi - lo != 3 {
        assert(s@.subrange(lo as int, hi as int).len() != 3);
        return false;
    }
    let eq = s[lo] == a && s[lo + 1] == b && s[lo + 2] == c;
    if eq {
        assert(s@.subrange(lo as int, hi as int) =~= seq![a, b, c]);
    } else {
        assert(s@.subrange(lo as int, hi as int) != seq![a, b, c]) by {
            if s@.subrange(lo as int, hi as int) == seq![a, b, c] {
                assert(s@.subrange(lo as int, hi as int)[0] == a);
                assert(s@.subrange(lo as int, hi as int)[1] == b);
                assert(s@.subrange(lo as int, hi as int)[2] == c);
            }
        }
    }
    eq
}

/// Whether `s` equals a four-character word; a helper for `seq!` literals.
proof fn lemma_words()
    ensures
        "dir"@ == seq!['d', 'i', 'r'],
        "file"@ == seq!['f', 'i', 'l', 'e'],
{
    reveal_strlit("dir");
    reveal_strlit("file");
    assert("dir"@ =~= seq!['d', 'i', 'r']);
    assert("file"@ =~= seq!['f', 'i', 'l', 'e']);
}

/// The value of the first `type` fact of the facts `line[lo..hi]`.
fn find_type_value(line: &[char]) -> (v: Option<(usize, usize)>)
    ensures
        match type_value(split_terminator(line@, ';')) {
            Some(t) => v matches Some(r) && r.0 <= r.1 <= line@.len() && line@.subrange(r.0 as int, r.1 as int) == t,
            None => v is None,
        },
{
    let facts = split_terminator_chars(line, ';');
    let ghost pieces = split_terminator(line@, ';');
    let mut k: usize = 0;
    assert(pieces.skip(0) =~= pieces);
    while k < facts.len()
        invariant
            k <= facts@.len(),
            pieces == split_terminator(line@, ';'),
            range_pieces(line@, facts@) == pieces,
            forall|j: int| 0 <= j < facts@.len() ==> #[trigger] facts@[j].0 <= facts@[j].1 <= line@.len(),
            type_value(pieces) == type_value(pieces.skip(k as int)),
        decreases facts@.len() - k,
    {
        let (a, b) = facts[k];
        assert(facts@[k as int].0 <= facts@[k as int].1 <= line@.len());
        let fact = &line[a..b];
        let ghost rest = pieces.skip(k as int);
        assert(rest[0] == fact@);
        assert(rest.drop_first() =~= pieces.skip(k + 1));
        proof {
            lemma_first_index(fact@, '=');
        }
        match find_char(fact, 0, '=') {
            Some(e) => {
                assert(fact@.skip(0) =~= fact@);
                assert(fact@.take(e as int) =~= line@.subrange(a as int, a + e));
                if type_key(line, a, a + e) {
                    assert(fact@.skip(e + 1) =~= line@.subrange(a + e + 1, b as int));
                    assert(first_index(fact@, '=') == Some(e as int));
                    assert(split_once(fact@, '=') == Some((fact@.take(e as int), fact@.skip(e + 1))));
                    assert(is_type_key(fact@.take(e as int)));
                    assert(type_value(rest) == Some(fact@.skip(e + 1)));
                    assert(type_value(pieces) == Some(line@.subrange(a + e + 1, b as int)));
                    assert(a + e + 1 <= b);
                    let found = (a + e + 1, b);
                    return Some(found);
                }
            },
            None => {
                assert(fact@.skip(0) =~= fact@);
            },
        }
        k = k + 1;
    }
    None
}

/// The entry one MLSD line describes, as `listing_entry` gives it.
fn parse_listing_line(line: &[char]) -> (e: Option<RemoteFile>)
    ensures
        match listing_entry(line@) {
            Some(t) => e matches Some(f) && remote_view(f) == t,
            None => e is None,
        },
{
    proof {
        lemma_first_index(line@, ' ');
        lemma_words();
    }
    let n = line.len();
    let space = match find_char(line, 0, ' ') {
        None => {
            assert(line@.skip(0) =~= line@);
            return None;
        },
        Some(i) => i,
    };
    assert(line@.skip(0) =~= line@);
    let facts = &line[0..space];
    assert(facts@ =~= line@.take(space as int));
    let value = match find_type_value(facts) {
        None => {
            return None;
        },
        Some(r) => r,
    };
    let (nlo, nhi) = trim_bounds(line, space + 1, line.len());
    assert(line@.subrange(space + 1, line@.len() as int) =~= line@.skip(space + 1));
    assert(facts@.subrange(value.0 as int, value.1 as int) =~= line@.subrange(value.0 as int, value.1 as int));
    let chars: Vec<char> = slice_to_vec(line);
    match entry_kind(line, value.0, value.1) {
        Some(true) => Some(RemoteFile::Dir(string_of(&chars, nlo, nhi))),
        Some(false) => Some(RemoteFile::File(string_of(&chars, nlo, nhi))),
        None => None,
    }
}

/// `Some(true)` where `s[lo..hi]` is `dir`, `Some(false)` where it is `file`.
fn entry_kind(s: &[char], lo: usize, hi: usize) -> (k: Option<bool>)
    requires
        lo <= hi <= s@.len(),
    ensures
        k == (if s@.subrange(lo as int, hi as int) == "dir"@ {
            Some(true)
        } else if s@.subrange(lo as int, hi as int) == "file"@ {
            Some(false)
        } else {
            None
        }),
{
    proof {
        lemma_words();
    }
    let w = Ghost(s@.subrange(lo as int, hi as int));
    if is_word3(s, lo, hi, 'd', 'i', 'r') {
        Some(true)
    } else if hi - lo == 4 && s[lo] == 'f' && s[lo + 1] == 'i' && s[lo + 2] == 'l' && s[lo + 3] == 'e' {
        assert(w@ =~= seq!['f', 'i', 'l', 'e']);
        Some(false)
    } else {
        assert(w@ != seq!['f', 'i', 'l', 'e']) by {
            if w@ == seq!['f', 'i', 'l', 'e'] {
                assert(w@.len() == 4);
                assert(hi - lo == 4);
                assert(w@[0] == s@[lo as int] && w@[1] == s@[lo + 1] && w@[2] == s@[lo + 2] && w@[3] == s@[lo + 3]);
                assert(w@[0] == 'f' && w@[1] == 'i' && w@[2] == 'l' && w@[3] == 'e');
            }
        }
        None
    }
}

/// A copy of a slice of characters.
fn slice_to_vec(s: &[char]) -> (v: Vec<char>)
    ensures
        v@ == s@,
{
    let mut v: Vec<char> = Vec::new();
    let mut i: usize = 0;
    while i < s.len()
        invariant
            i <= s@.len(),
            v@ == s@.take(i as int),
        decreases s@.len() - i,
    {
        v.push(s[i]);
        assert(s@.take(i + 1) == s@.take(i as int).push(s@[i as int]));
        i = i + 1;
    }
    assert(s@.take(s@.len() as int) == s@);
    v
}

/// Reads the directories and files of an MLSD listing: each line holds
/// `;`-separated facts, a space and the name; lines whose `type` fact
/// (name compared without ASCII case) is `dir` or `file` become entries
/// with the trimmed name, other lines are skipped.
pub fn parse_listing(data: &str) -> (files: Vec<RemoteFile>)
    ensures
        files@.len() == listing(data@).len(),
        forall|i: int| 0 <= i < files@.len() ==> remote_view(#[trigger] files@[i]) == listing(data@)[i],
{
    let chars = chars_of(data);
    let all = chars.as_slice();
    let lines = split_terminator_chars(all, '\n');
    let ghost pieces = split_terminator(data@, '\n');
    let mut files: Vec<RemoteFile> = Vec::new();
    let mut k: usize = 0;
    assert(pieces.skip(0) =~= pieces);
    assert(files@.map_values(|f: RemoteFile| remote_view(f)) =~= Seq::<(bool, Seq<char>)>::empty());

    while k < lines.len()
        invariant
            k <= lines@.len(),
            all@ == data@,
            range_pieces(all@, lines@) == pieces,
            forall|j: int| 0 <= j < lines@.len() ==> #[trigger] lines@[j].0 <= lines@[j].1 <= all@.len(),
            listing(data@) == files@.map_values(|f: RemoteFile| remote_view(f)) + listing_entries(pieces.skip(k as int)),
        decreases lines@.len() - k,
    {
        let (a, b) = lines[k];
        assert(lines@[k as int].0 <= lines@[k as int].1 <= all@.len());
        let line = &all[a..b];
        let ghost rest = pieces.skip(k as int);
        assert(rest[0] == line@);
        assert(rest.drop_first() =~= pieces.skip(k + 1));
        let ghost before = files@.map_values(|f: RemoteFile| remote_view(f));
        match parse_listing_line(line) {
            Some(f) => {
                files.push(f);
                assert(files@.map_values(|f: RemoteFile| remote_view(f)) =~= before.push(remote_view(f)));
            },
            None => {},
        }
        k = k + 1;
    }
    assert(pieces.skip(k as int).len() == 0);
    assert(listing(data@) =~= files@.map_values(|f: RemoteFile| remote_view(f)));
    files
}

/// The user name and password of a credentials text: the parts before and
/// after its first space; `None` where it holds no space.
pub fn credentials(text: &str) -> (creds: Option<(String, String)>)
    ensures
        match split_once(text@, ' ') {
            Some((user, pword)) => creds matches Some((u, p)) && u@ == user && p@ == pword,
            None => creds is None,
        },
{
    let chars = chars_of(text);
    proof {
        lemma_first_index(chars@, ' ');
    }
    assert(chars@.skip(0) =~= chars@);
    match find_char(chars.as_slice(), 0, ' ') {
        None => None,
        Some(i) => {
            assert(i < chars.len());
            let user = string_of(&chars, 0, i);
            let pword = string_of(&chars, i + 1, chars.len());
            assert(chars@.subrange(0, i as int) =~= chars@.take(i as int));
            assert(chars@.subrange(i + 1, chars@.len() as int) =~= chars@.skip(i + 1));
            Some((user, pword))
        },
    }
}

/// The words of a command line: the line trimmed of white space, cut at
/// each space, without an empty last piece.
pub fn command_words(line: &str) -> (words: Vec<String>)
    ensures
        words@.len() == split_terminator(trim(line@), ' ').len(),
        forall|k: int| 0 <= k < words@.len() ==> #[trigger] words@[k]@ == split_terminator(trim(line@), ' ')[k],
{
    let chars = chars_of(line);
    let (lo, hi) = trim_bounds(chars.as_slice(), 0, chars.len());
    assert(chars@.subrange(0, chars@.len() as int) =~= chars@);
    let trimmed = slice_to_vec(&chars.as_slice()[lo..hi]);
    assert(trimmed@ =~= trim(line@));
    let ranges = split_terminator_chars(trimmed.as_slice(), ' ');
    let mut words: Vec<String> = Vec::new();
    let mut k: usize = 0;
    while k < ranges.len()
        invariant
            k <= ranges@.len(),
            trimmed@ == trim(line@),
            forall|j: int| 0 <= j < ranges@.len() ==> #[trigger] ranges@[j].0 <= ranges@[j].1 <= trimmed@.len(),
            range_pieces(trimmed@, ranges@) == split_terminator(trim(line@), ' '),
            words@.len() == k,
            forall|j: int| 0 <= j < k ==> #[trigger] words@[j]@ == split_terminator(trim(line@), ' ')[j],
        decreases ranges@.len() - k,
    {
        let (a, b) = ranges[k];
        assert(ranges@[k as int].0 <= ranges@[k as int].1 <= trimmed@.len());
        let w = string_of(&trimmed, a, b);
        assert(range_pieces(trimmed@, ranges@)[k as int] == trimmed@.subrange(a as int, b as int));
        words.push(w);
        k = k + 1;
    }
    words
}

} // verus!
