//! The file server and client over HTTP: the path a request names, the
//! answers the server writes, and what the client reads from an answer.

use vstd::prelude::*;
use crate::ping::{digits, format_u64};
use crate::text::{first_index, lemma_first_index};

verus! {

/// What httparse reads from a request: `None` where it refuses the bytes,
/// else whether the request is complete and the path, where it got that far.
pub uninterp spec fn http_request_target(bytes: Seq<u8>) -> Option<(bool, Option<Seq<char>>)>;

/// The outcome of parsing a request.
pub enum RequestParse {
    /// httparse refused the bytes.
    Invalid,
    /// The request is not complete; the path, where read.
    Partial(Option<String>),
    /// The request is complete; its path, where present.
    Complete(Option<String>),
}

/// The plain view of an outcome.
pub open spec fn parse_view(r: RequestParse) -> Option<(bool, Option<Seq<char>>)> {
    match r {
        RequestParse::Invalid => None,
        RequestParse::Partial(p) => Some((false, opt_view(p))),
        RequestParse::Complete(p) => Some((true, opt_view(p))),
    }
}

/// The view of an optional string.
pub open spec fn opt_view(p: Option<String>) -> Option<Seq<char>> {
    match p {
        Some(s) => Some(s@),
        None => None,
    }
}

/// `httparse::Request::parse` on `bytes`, with room for 16 headers: its
/// outcome and the request path, named `http_request_target`. httparse
/// reads a path only where it is at least one character long.
#[verifier::external_body]
fn parse_request(bytes: &[u8]) -> (r: RequestParse)
    ensures
        parse_view(r) == http_request_target(bytes@),
        parse_view(r) matches Some((_, Some(p))) ==> p.len() > 0,
{
    let mut headers = [httparse::EMPTY_HEADER; 16];
    let mut req = httparse::Request::new(&mut headers);
    match req.parse(bytes) {
        Ok(httparse::Status::Complete(_)) => RequestParse::Complete(req.path.map(|p| p.to_string())),
        Ok(httparse::Status::Partial) => RequestParse::Partial(req.path.map(|p| p.to_string())),
        Err(_) => RequestParse::Invalid,
    }
}

/// Whether the server can take a file name from this parse outcome: a path
/// that starts with an ASCII character was read, or the request is
/// complete without one, or httparse refused it.
pub open spec fn request_settled(outcome: Option<(bool, Option<Seq<char>>)>) -> bool {
    match outcome {
        None => true,
        Some((complete, None)) => complete,
        Some((_, Some(p))) => p.len() > 0 && (p[0] as u32) < 128,
    }
}

/// The file name a request asks for: its path without the first character.
pub open spec fn requested_file(outcome: Option<(bool, Option<Seq<char>>)>) -> Option<Seq<char>> {
    match outcome {
        Some((_, Some(p))) => Some(p.drop_first()),
        _ => None,
    }
}

/// The file a request asks for: the path without its leading `/`; `None`
/// where httparse refuses the request or it holds no path.
pub fn parse_req(req: &[u8]) -> (name: Option<String>)
    requires
        request_settled(http_request_target(req@)),
    ensures
        opt_view(name) == requested_file(http_request_target(req@)),
{
    match parse_request(req) {
        RequestParse::Invalid => None,
        RequestParse::Partial(Some(p)) => Some(without_first_char(&p)),
        RequestParse::Complete(Some(p)) => Some(without_first_char(&p)),
        RequestParse::Partial(None) => None,
        RequestParse::Complete(None) => None,
    }
}

/// `parse_req` where it answers: `Some` of its answer where the request has
/// settled, `None` where more bytes are needed first.
pub fn try_parse_req(req: &[u8]) -> (name: Option<Option<String>>)
    ensures
        match name {
            Some(n) => request_settled(http_request_target(req@)) && opt_view(n) == requested_file(
                http_request_target(req@),
            ),
            None => !request_settled(http_request_target(req@)),
        },
{
    let settled = match parse_request(req) {
        RequestParse::Invalid => true,
        RequestParse::Partial(None) => false,
        RequestParse::Complete(None) => true,
        RequestParse::Partial(Some(p)) => starts_ascii(&p),
        RequestParse::Complete(Some(p)) => starts_ascii(&p),
    };
    if settled {
        Some(parse_req(req))
    } else {
        None
    }
}

/// Whether `s` is non-empty and starts with an ASCII character.
fn starts_ascii(s: &String) -> (b: bool)
    ensures
        b == (s@.len() > 0 && (s@[0] as u32) < 128),
{
    let t = s.as_str();
    if t.unicode_len() == 0 {
        return false;
    }
    let c = t.get_char(0);
    (c as u32) < 128
}

/// `s` without its first character.
fn without_first_char(s: &String) -> (t: String)
    requires
        s@.len() > 0,
    ensures
        t@ == s@.drop_first(),
{
    let chars = crate::text::chars_of(s.as_str());
    crate::text::string_of(&chars, 1, chars.len())
}

/// The head of the server's answer with a file of `len` bytes.
pub fn ok_header(len: usize) -> (head: String)
    ensures
        head@ == "HTTP/1.0 200 OK\r\nContent-Type: text/html\r\nContent-Length: "@ + digits(len as nat) + "\r\n\r\n"@,
{
    let mut head = String::from_str("HTTP/1.0 200 OK\r\nContent-Type: text/html\r\nContent-Length: ");
    let n = format_u64(len as u64);
    head.append(n.as_str());
    head.append("\r\n\r\n");
    head
}

/// The server's answer where the file cannot be read.
pub fn not_found_response() -> (resp: String)
    ensures
        resp@ == "HTTP/1.0 404 NOT FOUND\r\n"@,
{
    String::from_str("HTTP/1.0 404 NOT FOUND\r\n")
}

/// The client's request for a file.
pub fn file_request(name: &str) -> (req: String)
    ensures
        req@ == "GET /"@ + name@ + " HTTP/1.1\r\n\r\n"@,
{
    let mut req = String::from_str("GET /");
    req.append(name);
    req.append(" HTTP/1.1\r\n\r\n");
    req
}

/// Whether an empty line (CR LF CR LF) starts at `i`.
pub open spec fn blank_line_at(b: Seq<u8>, i: int) -> bool {
    0 <= i && i + 4 <= b.len() && b[i] == 13 && b[i + 1] == 10 && b[i + 2] == 13 && b[i + 3] == 10
}

/// Where the first empty line starts.
pub open spec fn first_blank_line(b: Seq<u8>) -> Option<int>
    decreases b.len(),
{
    if b.len() < 4 {
        None
    } else if blank_line_at(b, 0) {
        Some(0)
    } else {
        match first_blank_line(b.drop_first()) {
            Some(i) => Some(i + 1),
            None => None,
        }
    }
}

/// The first empty line is one, and none starts before it.
pub proof fn lemma_first_blank_line(b: Seq<u8>)
    ensures
        match first_blank_line(b) {
            Some(k) => blank_line_at(b, k) && forall|j: int| 0 <= j < k ==> !blank_line_at(b, j),
            None => forall|j: int| !blank_line_at(b, j),
        },
    decreases b.len(),
{
    if b.len() >= 4 && !blank_line_at(b, 0) {
        lemma_first_blank_line(b.drop_first());
        assert forall|j: int| j > 0 && blank_line_at(b, j) implies blank_line_at(b.drop_first(), j - 1) by {}
    }
}

/// What the client reads from an answer.
#[derive(Debug, Clone, Copy, PartialEq, Eq)]
pub enum FileAnswer {
    /// The status code after the first space is 404.
    NoSuchFile,
    /// The content, from the empty line that ends the head (included) to
    /// the end.
    Content(usize),
    /// No empty line ends the head.
    Bad,
}

/// Whether the client looks at a status code: a space comes before any
/// empty line.
pub open spec fn reads_code(b: Seq<u8>) -> bool {
    match first_index(b, 32u8) {
        Some(p) => match first_blank_line(b) {
            Some(q) => p < q,
            None => true,
        },
        None => false,
    }
}

/// What the client makes of an answer: `404` right after the first space
/// (where that space comes before the end of the head) means no such
/// file; else the content starts at the first empty line.
pub open spec fn answer_of(b: Seq<u8>) -> FileAnswer {
    if reads_code(b) && b.subrange(first_index(b, 32u8)->0 + 1, first_index(b, 32u8)->0 + 4) == seq![52u8, 48u8, 52u8] {
        FileAnswer::NoSuchFile
    } else {
        match first_blank_line(b) {
            Some(q) => FileAnswer::Content(q as usize),
            None => FileAnswer::Bad,
        }
    }
}

/// Reads the server's answer: no such file, where the code after the first
/// space is `404`; else the content from the end of the head; else a bad
/// answer.
pub fn classify_answer(bytes: &[u8]) -> (a: FileAnswer)
    requires
        reads_code(bytes@) ==> first_index(bytes@, 32u8)->0 + 4 <= bytes@.len(),
    ensures
        a == answer_of(bytes@),
{
    proof {
        lemma_first_index(bytes@, 32u8);
        lemma_first_blank_line(bytes@);
    }
    let ghost p = first_index(bytes@, 32u8);
    let ghost q = first_blank_line(bytes@);
    let n = bytes.len();
    let mut start: usize = 0;
    let mut found_code = false;
    while start < n
        invariant
            n == bytes@.len(),
            start <= n,
            p == first_index(bytes@, 32u8),
            q == first_blank_line(bytes@),
            reads_code(bytes@) ==> p->0 + 4 <= n,
            match p {
                Some(i) => 0 <= i < n && bytes@[i] == 32u8 && forall|j: int| 0 <= j < i ==> bytes@[j] != 32u8,
                None => forall|j: int| 0 <= j < n ==> bytes@[j] != 32u8,
            },
            match q {
                Some(k) => blank_line_at(bytes@, k) && forall|j: int| 0 <= j < k ==> !blank_line_at(bytes@, j),
                None => forall|j: int| !blank_line_at(bytes@, j),
            },
            forall|j: int| 0 <= j < start ==> !blank_line_at(bytes@, j),
            found_code == (p matches Some(i) && i < start),
            found_code ==> bytes@.subrange(p->0 + 1, p->0 + 4) != seq![52u8, 48u8, 52u8],
        decreases n - start,
    {
        if bytes[start] == 32 {
            if !found_code {
                assert(p == Some(start as int));
                assert(reads_code(bytes@));
                let is_404 = bytes[start + 1] == 52 && bytes[start + 2] == 48 && bytes[start + 3] == 52;
                let ghost code = bytes@.subrange(start + 1, start + 4);
                if is_404 {
                    assert(code =~= seq![52u8, 48u8, 52u8]);
                    return FileAnswer::NoSuchFile;
                }
                assert(code != seq![52u8, 48u8, 52u8]) by {
                    if code == seq![52u8, 48u8, 52u8] {
                        assert(code[0] == 52 && code[1] == 48 && code[2] == 52);
                    }
                }
            }
            found_code = true;
        }
        if n - start >= 4 && bytes[start] == 13 && bytes[start + 1] == 10 && bytes[start + 2] == 13 && bytes[start + 3] == 10 {
            assert(blank_line_at(bytes@, start as int));
            assert(q == Some(start as int));
            return FileAnswer::Content(start);
        }
        start = start + 1;
    }
    FileAnswer::Bad
}

} // verus!
