//! The text of the few HTTP/1.1 exchanges with a local runtime.
//!
//! `Connection: close` has the server end the stream when the body is done, so
//! a response is everything up to the end.

use vstd::prelude::*;
use crate::chars::{chars_of, concat3, copy, dec, decimal, find, find_chars, parse_unsigned, string_of, texts, unsigned, words, words_of};
use crate::probe::storage::byte_len;
use crate::report::opt_str;

verus! {

pub struct Response {
    pub status: u16,
    pub body: String,
}

/// What goes to the server, behind the request line.
pub open spec fn request_text(head: Seq<char>, host: Seq<char>, port: nat, body: Option<Seq<char>>) -> Seq<char> {
    head + "Host: "@ + host + ":"@ + dec(port) + "\r\nConnection: close\r\n"@ + (match body {
        Some(b) => "Content-Type: application/json\r\nContent-Length: "@ + dec(byte_len(b) as nat) + "\r\n"@,
        None => ""@,
    }) + "\r\n"@ + (match body {
        Some(b) => b,
        None => ""@,
    })
}

fn request(head: &str, host: &str, port: u16, body: Option<&str>) -> (o: String)
    ensures
        o@ == request_text(head@, host@, port as nat, opt_str(body)),
{
    let fields = match body {
        Some(b) => concat3(
            "Content-Type: application/json\r\nContent-Length: ",
            decimal(b.len() as u128).as_str(),
            "\r\n",
        ),
        None => copy(""),
    };
    let mut o = copy(head);
    o.append("Host: ");
    o.append(host);
    o.append(":");
    o.append(decimal(port as u128).as_str());
    o.append("\r\nConnection: close\r\n");
    o.append(fields.as_str());
    o.append("\r\n");
    o.append(
        match body {
            Some(b) => b,
            None => "",
        },
    );
    o
}

/// The text of a GET.
pub fn get(host: &str, port: u16, path: &str) -> (o: String)
    ensures
        o@ == request_text("GET "@ + path@ + " HTTP/1.1\r\n"@, host@, port as nat, None),
{
    let head = concat3("GET ", path, " HTTP/1.1\r\n");
    request(head.as_str(), host, port, None)
}

/// The text of a POST of a JSON body.
pub fn post_json(host: &str, port: u16, path: &str, body: &str) -> (o: String)
    ensures
        o@ == request_text("POST "@ + path@ + " HTTP/1.1\r\n"@, host@, port as nat, Some(body@)),
{
    let head = concat3("POST ", path, " HTTP/1.1\r\n");
    request(head.as_str(), host, port, Some(body))
}

/// The status of a response: its second word, or nothing that is one.
pub open spec fn status_in(text: Seq<char>) -> nat {
    let w = words(text);
    if w.len() < 2 {
        0
    } else {
        match unsigned(w[1], u16::MAX as nat) {
            Some(n) => n,
            None => 0,
        }
    }
}

/// The body of a response: what follows the first blank line.
pub open spec fn body_in(text: Seq<char>) -> Seq<char> {
    match find(text, "\r\n\r\n"@, 0) {
        Some(i) => text.subrange(i + 4, text.len() as int),
        None => Seq::empty(),
    }
}

/// Read a response.
pub fn parse_response(text: &str) -> (r: Response)
    ensures
        r.status as nat == status_in(text@),
        r.body@ == body_in(text@),
{
    let w = words_of(text);
    assert(texts(w@).len() == w@.len());
    let status: u16 = if w.len() < 2 {
        0
    } else {
        assert(texts(w@)[1] == w@[1]@);
        match parse_unsigned(w[1].as_str(), u16::MAX as u64) {
            Some(n) => {
                proof {
                    crate::probe::cpu::lemma_unsigned_bound(w@[1]@, u16::MAX as nat);
                }
                n as u16
            },
            None => 0,
        }
    };
    let v = chars_of(text);
    let blank = chars_of("\r\n\r\n");
    proof {
        reveal_strlit("\r\n\r\n");
        crate::chars::lemma_find(v@, blank@, 0);
    }
    let n: usize = v.len();
    let body = match find_chars(&v, &blank, 0) {
        Some(i) => {
            assert(i + 4 <= n);
            string_of(&v, i + 4, n)
        },
        None => String::new(),
    };
    Response { status, body }
}

/// A response that says it worked and carries `body` is read as just that,
/// whatever its headers are, as long as none of them ends in a blank line.
pub proof fn a_body_is_read_back(headers: Seq<char>, body: Seq<char>)
    requires
        forall|k: int| 0 <= k < headers.len() ==> !crate::chars::occurs_at(
            headers + "\r\n\r\n"@ + body,
            "\r\n\r\n"@,
            k,
        ),
    ensures
        body_in(headers + "\r\n\r\n"@ + body) == body,
{
    let text = headers + "\r\n\r\n"@ + body;
    let h = headers.len() as int;
    reveal_strlit("\r\n\r\n");
    crate::chars::lemma_find(text, "\r\n\r\n"@, 0);
    assert(text.subrange(h, h + 4) =~= "\r\n\r\n"@);
    assert(crate::chars::occurs_at(text, "\r\n\r\n"@, h));
    assert(text.subrange(h + 4, text.len() as int) =~= body);
}

} // verus!
