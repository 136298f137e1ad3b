//! The remote control request: a command and its arguments, each ended by
//! CR LF, and an empty line after the last.

use vstd::prelude::*;
use vstd::utf8::{decode_utf8, encode_utf8, valid_utf8, encode_utf8_decode_utf8, encode_utf8_valid_utf8};
use vstd::string::{StringSliceAdditionalSpecFns, StrSliceExecFns};
use crate::text::{chars_of, string_of, decode_lossy, utf8_lossy};

verus! {

/// Whether a CR LF starts at `i`.
pub open spec fn crlf_at(s: Seq<char>, i: int) -> bool {
    0 <= i && i + 1 < s.len() && s[i] == '\r' && s[i + 1] == '\n'
}

/// The index of the first CR LF in `s`.
pub open spec fn first_crlf(s: Seq<char>) -> Option<int>
    decreases s.len(),
{
    if s.len() < 2 {
        None
    } else if s[0] == '\r' && s[1] == '\n' {
        Some(0)
    } else {
        match first_crlf(s.drop_first()) {
            Some(i) => Some(i + 1),
            None => None,
        }
    }
}

/// `str::split` at `"\r\n"`: the pieces between the CR LF pairs found from
/// the left.
pub open spec fn split_crlf(s: Seq<char>) -> Seq<Seq<char>>
    decreases s.len(),
{
    match first_crlf(s) {
        None => seq![s],
        Some(i) => if 0 <= i && i + 2 <= s.len() {
            seq![s.take(i)] + split_crlf(s.skip(i + 2))
        } else {
            seq![s]
        },
    }
}

/// The arguments, each followed by CR LF.
pub open spec fn commands_text(args: Seq<Seq<char>>) -> Seq<char>
    decreases args.len(),
{
    if args.len() == 0 {
        seq![]
    } else {
        args[0] + "\r\n"@ + commands_text(args.drop_first())
    }
}

/// The bytes of a request for `args`: each argument followed by CR LF,
/// then one more CR LF.
pub open spec fn commands_bytes(args: Seq<Seq<char>>) -> Seq<u8> {
    encode_utf8(commands_text(args) + "\r\n"@)
}

/// The commands a complete request holds, given the text of its bytes
/// without the final CR LF: the pieces between CR LF pairs, less the last.
pub open spec fn commands_of_text(text: Seq<char>) -> Seq<Seq<char>> {
    split_crlf(text).drop_last()
}

/// The views of some strings.
pub open spec fn string_views(v: Seq<String>) -> Seq<Seq<char>> {
    v.map_values(|s: String| s@)
}

/// The first CR LF is one, and none comes before it.
pub proof fn lemma_first_crlf(s: Seq<char>)
    ensures
        match first_crlf(s) {
            Some(k) => 0 <= k && k + 2 <= s.len() && crlf_at(s, k) && forall|j: int| 0 <= j < k ==> !crlf_at(s, j),
            None => forall|j: int| !crlf_at(s, j),
        },
    decreases s.len(),
{
    if s.len() >= 2 && !(s[0] == '\r' && s[1] == '\n') {
        lemma_first_crlf(s.drop_first());
        match first_crlf(s.drop_first()) {
            Some(k) => {
                assert forall|j: int| 0 <= j < k + 1 implies !crlf_at(s, j) by {
                    if j > 0 {
                        assert(!crlf_at(s.drop_first(), j - 1));
                    }
                }
            },
            None => {
                assert forall|j: int| !crlf_at(s, j) by {
                    if j > 0 {
                        assert(!crlf_at(s.drop_first(), j - 1));
                    }
                }
            },
        }
    }
}

/// Where the first CR LF at or after `from` starts.
fn find_crlf(s: &[char], from: usize) -> (i: Option<usize>)
    requires
        from <= s@.len(),
    ensures
        match first_crlf(s@.skip(from as int)) {
            Some(k) => i matches Some(j) && j == from + k,
            None => i is None,
        },
        i matches Some(j) ==> from <= j && j + 2 <= s@.len(),
{
    proof {
        lemma_first_crlf(s@.skip(from as int));
    }
    let mut i = from;
    while s.len() - i >= 2
        invariant
            from <= i <= s@.len(),
            first_crlf(s@.skip(from as int)) == match first_crlf(s@.skip(i as int)) {
                Some(k) => Some(k + (i - from)),
                None => None,
            },
        decreases s@.len() - i,
    {
        if s[i] == '\r' && s[i + 1] == '\n' {
            return Some(i);
        }
        assert(s@.skip(i as int).drop_first() =~= s@.skip(i + 1));
        i = i + 1;
    }
    None
}

/// The commands of a complete request: the text of all bytes but the last
/// two, cut at each CR LF, without the piece after the last CR LF.
pub fn decode_commands(bytes: &[u8]) -> (cmds: Vec<String>)
    requires
        bytes@.len() >= 2,
    ensures
        string_views(cmds@) == commands_of_text(utf8_lossy(bytes@.take(bytes@.len() - 2))),
        valid_utf8(bytes@.take(bytes@.len() - 2)) ==> string_views(cmds@) == commands_of_text(
            decode_utf8(bytes@.take(bytes@.len() - 2)),
        ),
{
    let body = &bytes[0..bytes.len() - 2];
    assert(body@ =~= bytes@.take(bytes@.len() - 2));
    let text = decode_lossy(body);
    let chars = chars_of(text.as_str());
    let ghost whole = chars@;
    let mut cmds: Vec<String> = Vec::new();
    let mut start: usize = 0;
    assert(whole.skip(0) =~= whole);
    loop
        invariant
            start <= chars@.len(),
            chars@ == whole,
            whole == utf8_lossy(bytes@.take(bytes@.len() - 2)),
            valid_utf8(bytes@.take(bytes@.len() - 2)) ==> whole == decode_utf8(bytes@.take(bytes@.len() - 2)),
            split_crlf(whole) == string_views(cmds@) + split_crlf(whole.skip(start as int)),
        decreases chars@.len() - start,
    {
        match find_crlf(chars.as_slice(), start) {
            Some(i) => {
                let ghost rest = whole.skip(start as int);
                proof {
                    lemma_first_crlf(rest);
                }
                assert(i + 2 <= chars.len());
                assert(rest.take(i - start) =~= whole.subrange(start as int, i as int));
                assert(rest.skip(i - start + 2) =~= whole.skip(i + 2));
                let piece = string_of(&chars, start, i);
                let ghost before = cmds@;
                cmds.push(piece);
                assert(string_views(cmds@) =~= string_views(before).push(piece@));
                assert(first_crlf(rest) == Some(i - start));
                assert(split_crlf(rest) == seq![rest.take(i - start)] + split_crlf(rest.skip(i - start + 2)));
                assert(string_views(before) + split_crlf(rest) =~= string_views(cmds@) + split_crlf(whole.skip(i + 2)));
                start = i + 2;
            },
            None => {
                let ghost rest = whole.skip(start as int);
                assert(split_crlf(rest) == seq![rest]);
                assert(split_crlf(whole).drop_last() =~= string_views(cmds@));
                return cmds;
            },
        }
    }
}

/// Whether the bytes read so far end a request: they end with two CR LF.
pub fn request_complete(bytes: &[u8]) -> (done: bool)
    ensures
        done == (bytes@.len() >= 4 && bytes@.skip(bytes@.len() - 4) == seq![13u8, 10u8, 13u8, 10u8]),
{
    let n = bytes.len();
    let done = n >= 4 && bytes[n - 4] == 13 && bytes[n - 3] == 10 && bytes[n - 2] == 13 && bytes[n - 1] == 10;
    if n >= 4 {
        let ghost tail = bytes@.skip(n - 4);
        if done {
            assert(tail =~= seq![13u8, 10u8, 13u8, 10u8]);
        } else {
            assert(tail != seq![13u8, 10u8, 13u8, 10u8]) by {
                if tail == seq![13u8, 10u8, 13u8, 10u8] {
                    assert(tail[0] == 13 && tail[1] == 10 && tail[2] == 13 && tail[3] == 10);
                }
            }
        }
    }
    done
}

/// Whether no CR LF occurs in `s`.
pub open spec fn free_of_crlf(s: Seq<char>) -> bool {
    forall|j: int| !crlf_at(s, j)
}

/// Appending one argument appends its line.
proof fn lemma_commands_text_push(args: Seq<Seq<char>>, x: Seq<char>)
    ensures
        commands_text(args.push(x)) == commands_text(args) + x + "\r\n"@,
    decreases args.len(),
{
    if args.len() == 0 {
        assert(args.push(x).drop_first() =~= Seq::<Seq<char>>::empty());
        assert(args.push(x)[0] == x);
        assert(commands_text(args.push(x).drop_first()) =~= Seq::<char>::empty());
        assert(commands_text(args) =~= Seq::<char>::empty());
        assert(commands_text(args.push(x)) =~= commands_text(args) + x + "\r\n"@);
    } else {
        assert(args.push(x).drop_first() =~= args.drop_first().push(x));
        lemma_commands_text_push(args.drop_first(), x);
        assert(args.push(x)[0] == args[0]);
        assert(commands_text(args.push(x)) == args[0] + "\r\n"@ + commands_text(args.drop_first().push(x)));
        assert(commands_text(args.push(x)) =~= commands_text(args) + x + "\r\n"@);
    }
}

/// The UTF-8 encoding of a concatenation is the concatenation of the encodings.
proof fn lemma_encode_concat(a: Seq<char>, b: Seq<char>)
    ensures
        encode_utf8(a + b) == encode_utf8(a) + encode_utf8(b),
    decreases a.len(),
{
    if a.len() == 0 {
        assert(a + b =~= b);
    } else {
        assert((a + b).drop_first() =~= a.drop_first() + b);
        lemma_encode_concat(a.drop_first(), b);
        assert((a + b)[0] == a[0]);
        assert(encode_utf8(a + b) =~= encode_utf8(a) + encode_utf8(b));
    }
}

/// CR LF is encoded as the bytes 13 and 10.
proof fn lemma_crlf_bytes()
    ensures
        "\r\n"@ == seq!['\r', '\n'],
        encode_utf8("\r\n"@) == seq![13u8, 10u8],
{
    reveal_strlit("\r\n");
    assert("\r\n"@ =~= seq!['\r', '\n']);
    let c = seq!['\r', '\n'];
    assert(c[0] as u32 == 13u32);
    assert(c[1] as u32 == 10u32);
    assert((13u32 & 0x7F) as u8 == 13u8) by (bit_vector);
    assert((10u32 & 0x7F) as u8 == 10u8) by (bit_vector);
    assert(c.drop_first() =~= seq!['\n']);
    assert(seq!['\n'].drop_first() =~= Seq::<char>::empty());
    reveal_with_fuel(encode_utf8, 3);
    assert(encode_utf8(c) =~= seq![13u8, 10u8]);
}

/// A piece free of CR LF, followed by CR LF, is the first piece `split_crlf` cuts.
proof fn lemma_split_after_piece(a: Seq<char>, r: Seq<char>)
    requires
        free_of_crlf(a),
    ensures
        split_crlf(a + "\r\n"@ + r) == seq![a] + split_crlf(r),
{
    lemma_crlf_bytes();
    let s = a + "\r\n"@ + r;
    let n = a.len() as int;
    assert(crlf_at(s, n));
    assert forall|j: int| 0 <= j < n implies !crlf_at(s, j) by {
        if j + 1 < n {
            assert(!crlf_at(a, j));
        }
    }
    lemma_first_crlf(s);
    assert(first_crlf(s) == Some(n));
    assert(s.take(n) =~= a);
    assert(s.skip(n + 2) =~= r);
}

/// Cutting the text of CR LF free arguments gives back the arguments and
/// the empty piece after the last CR LF.
proof fn lemma_split_commands_text(args: Seq<Seq<char>>)
    requires
        forall|i: int| 0 <= i < args.len() ==> free_of_crlf(#[trigger] args[i]),
    ensures
        split_crlf(commands_text(args)) == args.push(Seq::<char>::empty()),
    decreases args.len(),
{
    if args.len() == 0 {
        lemma_first_crlf(Seq::<char>::empty());
        assert(split_crlf(commands_text(args)) =~= args.push(Seq::<char>::empty()));
    } else {
        let rest = args.drop_first();
        assert forall|i: int| 0 <= i < rest.len() implies free_of_crlf(#[trigger] rest[i]) by {
            assert(rest[i] == args[i + 1]);
        }
        lemma_split_commands_text(rest);
        assert(free_of_crlf(args[0]));
        lemma_split_after_piece(args[0], commands_text(rest));
        assert(split_crlf(commands_text(args)) =~= args.push(Seq::<char>::empty()));
    }
}

/// The request for some arguments: each argument and CR LF, then CR LF.
pub fn encode_commands(args: &Vec<String>) -> (bytes: Vec<u8>)
    ensures
        bytes@ == commands_bytes(string_views(args@)),
{
    let mut text = String::new();
    let mut i: usize = 0;
    assert(string_views(args@.take(0)) =~= Seq::<Seq<char>>::empty());
    while i < args.len()
        invariant
            i <= args@.len(),
            text@ == commands_text(string_views(args@.take(i as int))),
        decreases args@.len() - i,
    {
        proof {
            assert(string_views(args@.take(i + 1)) =~= string_views(args@.take(i as int)).push(args@[i as int]@));
            lemma_commands_text_push(string_views(args@.take(i as int)), args@[i as int]@);
        }
        text.append(args[i].as_str());
        text.append("\r\n");
        i = i + 1;
    }
    assert(args@.take(args@.len() as int) =~= args@);
    text.append("\r\n");
    text.as_str().as_bytes_vec()
}

/// A request decodes to the arguments it was made of, where none of them
/// holds CR LF; it is complete once there is at least one argument.
pub proof fn lemma_request_round_trip(args: Seq<Seq<char>>)
    requires
        forall|i: int| 0 <= i < args.len() ==> free_of_crlf(#[trigger] args[i]),
    ensures
        commands_bytes(args).len() >= 2,
        valid_utf8(commands_bytes(args).take(commands_bytes(args).len() - 2)),
        commands_of_text(decode_utf8(commands_bytes(args).take(commands_bytes(args).len() - 2))) == args,
        args.len() > 0 ==> commands_bytes(args).skip(commands_bytes(args).len() - 4) == seq![13u8, 10u8, 13u8, 10u8],
{
    let text = commands_text(args);
    let bytes = commands_bytes(args);
    lemma_crlf_bytes();
    lemma_encode_concat(text, "\r\n"@);
    assert(bytes.take(bytes.len() - 2) =~= encode_utf8(text));
    encode_utf8_valid_utf8(text);
    encode_utf8_decode_utf8(text);
    lemma_split_commands_text(args);
    assert(commands_of_text(text) =~= args);
    if args.len() > 0 {
        let head = args[0] + "\r\n"@;
        assert(text == head + commands_text(args.drop_first()));
        if args.len() == 1 {
            assert(commands_text(args.drop_first()) =~= Seq::<char>::empty());
            assert(text =~= args[0] + "\r\n"@);
        }
        lemma_text_ends_with_crlf(args);
        let front = text.take(text.len() - 2);
        assert(text =~= front + "\r\n"@);
        lemma_encode_concat(front, "\r\n"@);
        lemma_encode_concat(text, "\r\n"@);
        assert(bytes =~= encode_utf8(front) + seq![13u8, 10u8] + seq![13u8, 10u8]);
        assert(bytes.skip(bytes.len() - 4) =~= seq![13u8, 10u8, 13u8, 10u8]);
    }
}

/// The text of at least one argument ends with CR LF.
proof fn lemma_text_ends_with_crlf(args: Seq<Seq<char>>)
    requires
        args.len() > 0,
    ensures
        commands_text(args).len() >= 2,
        commands_text(args).skip(commands_text(args).len() - 2) == "\r\n"@,
    decreases args.len(),
{
    lemma_crlf_bytes();
    let rest = args.drop_first();
    if rest.len() == 0 {
        assert(commands_text(rest) =~= Seq::<char>::empty());
        assert(commands_text(args).skip(commands_text(args).len() - 2) =~= "\r\n"@);
    } else {
        lemma_text_ends_with_crlf(rest);
        let t = commands_text(args);
        assert(t == args[0] + "\r\n"@ + commands_text(rest));
        assert(t.skip(t.len() - 2) =~= commands_text(rest).skip(commands_text(rest).len() - 2));
    }
}

} // verus!
