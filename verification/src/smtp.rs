//! SMTP client logic: the login dialogue with the reply code each line
//! expects, and the MIME message with an optional base64 picture.

use vstd::prelude::*;
use vstd::string::StringSliceAdditionalSpecFns;
use base64::Engine;

verus! {

/// What the standard base64 alphabet with `=` padding makes of `bytes`.
pub uninterp spec fn base64_standard(bytes: Seq<u8>) -> Seq<char>;

/// The length of the padded base64 text of `n` bytes.
pub open spec fn base64_len(n: nat) -> nat {
    4 * ((n + 2) / 3)
}

/// `base64::engine::general_purpose::STANDARD.encode(bytes)`: the padded
/// base64 text of `bytes`, named `base64_standard`; its length is four
/// characters for every started group of three bytes. The crate panics
/// where that length does not fit in `usize`.
#[verifier::external_body]
fn encode_base64(bytes: &[u8]) -> (text: String)
    requires
        base64_len(bytes@.len()) <= usize::MAX,
    ensures
        text@ == base64_standard(bytes@),
        text@.len() == base64_len(bytes@.len()),
{
    base64::engine::general_purpose::STANDARD.encode(bytes)
}

/// A line of the dialogue and the reply code that must answer it.
pub struct SmtpStep {
    pub line: String,
    pub expected: i16,
}

/// The lines from the greeting to `DATA`, with the code each expects.
pub open spec fn login_steps(user: Seq<char>, user_b64: Seq<char>, pword_b64: Seq<char>, receiver: Seq<char>) -> Seq<(Seq<char>, i16)> {
    seq![
        ("HELO "@ + user + "\r\n"@, 250i16),
        ("AUTH LOGIN \r\n"@, 334i16),
        (user_b64 + "\r\n"@, 334i16),
        (pword_b64 + "\r\n"@, 235i16),
        ("MAIL FROM: <"@ + user + ">\r\n"@, 250i16),
        ("RCPT TO: <"@ + receiver + ">\r\n"@, 250i16),
        ("DATA\r\n"@, 354i16),
    ]
}

/// The view of a step.
pub open spec fn step_view(s: SmtpStep) -> (Seq<char>, i16) {
    (s.line@, s.expected)
}

/// `a`, `b` and `c`, in that order.
pub fn concat3(a: &str, b: &str, c: &str) -> (s: String)
    ensures
        s@ == a@ + b@ + c@,
{
    let mut s = String::from_str(a);
    s.append(b);
    s.append(c);
    s
}

/// The dialogue that logs `user` in with `password` and opens a message
/// to `receiver`: `HELO`, `AUTH LOGIN`, the base64 user name and password,
/// `MAIL FROM`, `RCPT TO` and `DATA`, each with the reply code it expects.
pub fn login_dialogue(user: &str, password: &str, receiver: &str) -> (steps: Vec<SmtpStep>)
    requires
        base64_len(user.spec_bytes().len()) <= usize::MAX,
        base64_len(password.spec_bytes().len()) <= usize::MAX,
    ensures
        steps@.map_values(|s: SmtpStep| step_view(s)) == login_steps(
            user@,
            base64_standard(user.spec_bytes()),
            base64_standard(password.spec_bytes()),
            receiver@,
        ),
{
    let user_b64 = encode_base64(user.as_bytes());
    let pword_b64 = encode_base64(password.as_bytes());
    let mut steps: Vec<SmtpStep> = Vec::new();
    let s0 = SmtpStep { line: concat3("HELO ", user, "\r\n"), expected: 250 };
    let s1 = SmtpStep { line: String::from_str("AUTH LOGIN \r\n"), expected: 334 };
    let s2 = SmtpStep { line: concat3("", user_b64.as_str(), "\r\n"), expected: 334 };
    let s3 = SmtpStep { line: concat3("", pword_b64.as_str(), "\r\n"), expected: 235 };
    let s4 = SmtpStep { line: concat3("MAIL FROM: <", user, ">\r\n"), expected: 250 };
    let s5 = SmtpStep { line: concat3("RCPT TO: <", receiver, ">\r\n"), expected: 250 };
    let s6 = SmtpStep { line: String::from_str("DATA\r\n"), expected: 354 };
    proof {
        reveal_strlit("");
    }
    steps.push(s0);
    steps.push(s1);
    steps.push(s2);
    steps.push(s3);
    steps.push(s4);
    steps.push(s5);
    steps.push(s6);
    assert(steps@.map_values(|s: SmtpStep| step_view(s)) =~= login_steps(
            user@,
            base64_standard(user.spec_bytes()),
            base64_standard(password.spec_bytes()),
            receiver@,
        ));
    steps
}

/// The reply code that accepts the message itself.
pub const MESSAGE_ACCEPTED: i16 = 250;

/// The line that ends the session.
pub fn quit_line() -> (line: String)
    ensures
        line@ == "QUIT\r\n"@,
{
    String::from_str("QUIT\r\n")
}

/// The lines of the text part, each ended by CR LF.
pub open spec fn lines_text(lines: Seq<Seq<char>>) -> Seq<char>
    decreases lines.len(),
{
    if lines.len() == 0 {
        seq![]
    } else {
        lines_text(lines.drop_last()) + lines.last() + "\r\n"@
    }
}

/// An address header: `name <addr>` after `field`, or nothing without a name.
pub open spec fn address_header(field: Seq<char>, name: Option<Seq<char>>, addr: Seq<char>) -> Seq<char> {
    match name {
        Some(n) => field + n + " <"@ + addr + ">\r\n"@,
        None => seq![],
    }
}

/// The picture part, from the base64 text of the picture.
pub open spec fn picture_part(picture_b64: Option<Seq<char>>) -> Seq<char> {
    match picture_b64 {
        Some(p) => "\r\n--frontier\r\nContent-Type: image/png\r\nContent-Transfer-Encoding: base64\r\n\r\n"@ + p + "\r\n"@,
        None => seq![],
    }
}

/// The whole message, from its headers to the final `.` line.
pub open spec fn message_text(
    sender_addr: Seq<char>,
    sender_name: Option<Seq<char>>,
    receiver_addr: Seq<char>,
    receiver_name: Option<Seq<char>>,
    subject: Seq<char>,
    lines: Seq<Seq<char>>,
    picture_b64: Option<Seq<char>>,
) -> Seq<char> {
    address_header("From: "@, sender_name, sender_addr)
        + address_header("To: "@, receiver_name, receiver_addr)
        + "Subject: "@ + subject + "\r\n"@
        + "MIME-Version: 1.0\r\nContent-Type: multipart/mixed; boundary=frontier\r\n\r\n"@
        + "--frontier\r\nContent-Type: text/plain\r\n\r\n"@
        + lines_text(lines)
        + picture_part(picture_b64)
        + "--frontier--\r\n"@
        + ".\r\n"@
}

/// A message opens with its headers: a `From` header exactly when a sender
/// name is given, a `To` header exactly when a receiver name is given,
/// whatever the other name is, then the `Subject` line; it closes with the
/// final boundary and the `.` line.
pub proof fn lemma_message_headers(
    sender_addr: Seq<char>,
    sender_name: Option<Seq<char>>,
    receiver_addr: Seq<char>,
    receiver_name: Option<Seq<char>>,
    subject: Seq<char>,
    lines: Seq<Seq<char>>,
    picture_b64: Option<Seq<char>>,
)
    ensures
        ({
            let from: Seq<char> = match sender_name {
                Some(s) => "From: "@ + s + " <"@ + sender_addr + ">\r\n"@,
                None => seq![],
            };
            let to: Seq<char> = match receiver_name {
                Some(r) => "To: "@ + r + " <"@ + receiver_addr + ">\r\n"@,
                None => seq![],
            };
            (from + to + "Subject: "@ + subject + "\r\n"@).is_prefix_of(
                message_text(sender_addr, sender_name, receiver_addr, receiver_name, subject, lines, picture_b64),
            )
        }),
        ("--frontier--\r\n.\r\n"@).is_suffix_of(
            message_text(sender_addr, sender_name, receiver_addr, receiver_name, subject, lines, picture_b64),
        ),
{
    let m = message_text(sender_addr, sender_name, receiver_addr, receiver_name, subject, lines, picture_b64);
    let head = address_header("From: "@, sender_name, sender_addr) + address_header("To: "@, receiver_name, receiver_addr)
        + "Subject: "@ + subject + "\r\n"@;
    let tail = "--frontier--\r\n"@ + ".\r\n"@;
    let body = "MIME-Version: 1.0\r\nContent-Type: multipart/mixed; boundary=frontier\r\n\r\n"@
        + "--frontier\r\nContent-Type: text/plain\r\n\r\n"@ + lines_text(lines) + picture_part(picture_b64);
    assert(m =~= head + (body + tail));
    assert(m =~= (head + body) + tail);
    assert(m.subrange(0, head.len() as int) =~= head);
    reveal_strlit("--frontier--\r\n");
    reveal_strlit(".\r\n");
    reveal_strlit("--frontier--\r\n.\r\n");
    assert(tail =~= "--frontier--\r\n.\r\n"@);
    assert(m.subrange(m.len() - tail.len(), m.len() as int) =~= tail);
}

/// A message ends with the text lines, each closed by CR LF, then, where a
/// picture is given, its base64 part, then the final boundary and the `.`
/// line; without a picture the last text line is followed directly by the
/// final boundary.
pub proof fn lemma_message_ending(
    sender_addr: Seq<char>,
    sender_name: Option<Seq<char>>,
    receiver_addr: Seq<char>,
    receiver_name: Option<Seq<char>>,
    subject: Seq<char>,
    lines: Seq<Seq<char>>,
    picture_b64: Option<Seq<char>>,
)
    ensures
        ({
            let end: Seq<char> = match picture_b64 {
                Some(p) => "\r\n--frontier\r\nContent-Type: image/png\r\nContent-Transfer-Encoding: base64\r\n\r\n"@ + p
                    + "\r\n"@,
                None => seq![],
            };
            ("--frontier\r\nContent-Type: text/plain\r\n\r\n"@ + lines_text(lines) + end + "--frontier--\r\n"@
                + ".\r\n"@).is_suffix_of(
                message_text(sender_addr, sender_name, receiver_addr, receiver_name, subject, lines, picture_b64),
            )
        }),
        lines.len() > 0 ==> (lines.last() + "\r\n"@).is_suffix_of(lines_text(lines)),
{
    let m = message_text(sender_addr, sender_name, receiver_addr, receiver_name, subject, lines, picture_b64);
    let front = address_header("From: "@, sender_name, sender_addr) + address_header("To: "@, receiver_name, receiver_addr)
        + "Subject: "@ + subject + "\r\n"@
        + "MIME-Version: 1.0\r\nContent-Type: multipart/mixed; boundary=frontier\r\n\r\n"@;
    let back = "--frontier\r\nContent-Type: text/plain\r\n\r\n"@ + lines_text(lines) + picture_part(picture_b64)
        + "--frontier--\r\n"@ + ".\r\n"@;
    assert(m =~= front + back);
    assert(m.subrange(m.len() - back.len(), m.len() as int) =~= back);
    if lines.len() > 0 {
        let t = lines_text(lines);
        let l = lines.last() + "\r\n"@;
        assert(t =~= lines_text(lines.drop_last()) + l);
        assert(t.subrange(t.len() - l.len(), t.len() as int) =~= l);
    }
}

/// The view of an optional name.
pub open spec fn opt_view(s: Option<&str>) -> Option<Seq<char>> {
    match s {
        Some(t) => Some(t@),
        None => None,
    }
}

/// The views of some strings.
pub open spec fn string_views(v: Seq<String>) -> Seq<Seq<char>> {
    v.map_values(|s: String| s@)
}

/// Appends the header of an address.
fn append_address(msg: &mut String, field: &str, name: Option<&str>, addr: &str)
    ensures
        final(msg)@ == old(msg)@ + address_header(field@, opt_view(name), addr@),
{
    match name {
        Some(n) => {
            msg.append(field);
            msg.append(n);
            msg.append(" <");
            msg.append(addr);
            msg.append(">\r\n");
        },
        None => {},
    }
}

/// Appends each line followed by CR LF.
fn append_lines(msg: &mut String, lines: &Vec<String>)
    ensures
        final(msg)@ == old(msg)@ + lines_text(string_views(lines@)),
{
    let mut i: usize = 0;
    while i < lines.len()
        invariant
            i <= lines@.len(),
            msg@ == old(msg)@ + lines_text(string_views(lines@.take(i as int))),
        decreases lines@.len() - i,
    {
        assert(string_views(lines@.take(i + 1)).drop_last() =~= string_views(lines@.take(i as int)));
        msg.append(lines[i].as_str());
        msg.append("\r\n");
        i = i + 1;
    }
    assert(lines@.take(lines@.len() as int) =~= lines@);
}

/// The message with its headers, the text `lines` and, where given, the
/// picture as a base64 part, ended by the closing boundary and the `.` line.
pub fn compose_message(
    sender_addr: &str,
    sender_name: Option<&str>,
    receiver_addr: &str,
    receiver_name: Option<&str>,
    subject: &str,
    lines: &Vec<String>,
    picture: Option<&[u8]>,
) -> (msg: String)
    requires
        picture matches Some(p) ==> base64_len(p@.len()) <= usize::MAX,
    ensures
        msg@ == message_text(
            sender_addr@,
            opt_view(sender_name),
            receiver_addr@,
            opt_view(receiver_name),
            subject@,
            string_views(lines@),
            match picture {
                Some(p) => Some(base64_standard(p@)),
                None => None,
            },
        ),
{
    let mut msg = String::new();
    append_address(&mut msg, "From: ", sender_name, sender_addr);
    append_address(&mut msg, "To: ", receiver_name, receiver_addr);
    msg.append("Subject: ");
    msg.append(subject);
    msg.append("\r\n");
    msg.append("MIME-Version: 1.0\r\nContent-Type: multipart/mixed; boundary=frontier\r\n\r\n");
    msg.append("--frontier\r\nContent-Type: text/plain\r\n\r\n");
    append_lines(&mut msg, lines);
    match picture {
        Some(p) => {
            msg.append("\r\n--frontier\r\nContent-Type: image/png\r\nContent-Transfer-Encoding: base64\r\n\r\n");
            let data = encode_base64(p);
            msg.append(data.as_str());
            msg.append("\r\n");
        },
        None => {},
    }
    msg.append("--frontier--\r\n");
    msg.append(".\r\n");
    msg
}

} // verus!
