//! A minimal server: requests without query parameters, two pages and a
//! not-found answer.
use vstd::prelude::*;

use crate::http::request::{field_map, header_pairs, texts};
use crate::strmap::{assoc, StrMap};
use crate::text::{chars_of, eq_chars, parse_usize, parse_usize_chars, seqs, string_of, words, words_of};

pub mod mroutes;

verus! {

/// A request of the minimal server.
pub struct Request {
    pub method: String,
    pub path: String,
    pub version: String,
    pub headers: StrMap,
    pub body: Vec<u8>,
}

/// What the lines before the blank line say.
pub struct RequestHead {
    pub method: String,
    pub path: String,
    pub version: String,
    pub headers: StrMap,
    pub content_length: usize,
}

/// Whether the lines make a head: a request line with at least three words.
pub open spec fn head_ok(lines: Seq<Seq<char>>) -> bool {
    lines.len() > 0 && words(lines[0]).len() >= 3
}

/// The body length that a `Content-Length` field (name in exactly that
/// case) announces, 0 where it is missing or not a number.
pub open spec fn announced_length(h: Map<Seq<char>, Seq<char>>) -> nat {
    if h.contains_key("Content-Length"@) {
        match parse_usize(h["Content-Length"@]) {
            Some(n) => n,
            None => 0,
        }
    } else {
        0
    }
}

/// Parses the lines before the blank line: method, path and version are
/// the first three words of the request line; header names keep their case.
pub fn parse_request(lines: &Vec<String>) -> (r: Option<RequestHead>)
    ensures
        r is Some <==> head_ok(texts(lines@)),
        r matches Some(h) ==> {
            let w = words(texts(lines@)[0]);
            &&& h.method@ == w[0]
            &&& h.path@ == w[1]
            &&& h.version@ == w[2]
            &&& h.headers.wf()
            &&& h.headers@ == assoc(header_pairs(texts(lines@)))
            &&& h.content_length == announced_length(h.headers@)
        },
{
    if lines.len() == 0 {
        return None;
    }
    let first = chars_of(lines[0].as_str());
    assert(first@ == texts(lines@)[0]);
    let w = words_of(first.as_slice());
    if w.len() < 3 {
        return None;
    }
    assert(seqs(w@)[0] == w@[0]@ && seqs(w@)[1] == w@[1]@ && seqs(w@)[2] == w@[2]@);
    let method = string_of(w[0].as_slice());
    let path = string_of(w[1].as_slice());
    let version = string_of(w[2].as_slice());
    let headers = field_map(lines, false);
    let content_length = match headers.get("Content-Length") {
        Some(v) => {
            let cs = chars_of(v.as_str());
            match parse_usize_chars(cs.as_slice()) {
                Some(n) => n,
                None => 0,
            }
        },
        None => 0,
    };
    Some(RequestHead { method, path, version, headers, content_length })
}

impl Request {
    /// A request with the given head and body.
    pub fn from_head(head: RequestHead, body: Vec<u8>) -> (r: Request)
        ensures
            r.method == head.method,
            r.path == head.path,
            r.version == head.version,
            r.headers == head.headers,
            r.body == body,
    {
        Request {
            method: head.method,
            path: head.path,
            version: head.version,
            headers: head.headers,
            body,
        }
    }
}

/// The pages of the minimal server.
#[derive(Debug, Clone, Copy, PartialEq, Eq)]
pub enum Page {
    Index,
    Echo,
    NotFound,
}

/// The page for a method and a path.
pub open spec fn page_for(method: Seq<char>, path: Seq<char>) -> Page {
    if method == "GET"@ && path == "/"@ {
        Page::Index
    } else if method == "POST"@ && path == "/echo"@ {
        Page::Echo
    } else {
        Page::NotFound
    }
}

/// Whether `s` holds exactly the text `t`.
pub fn str_is(s: &str, t: &str) -> (r: bool)
    ensures
        r == (s@ == t@),
{
    let a = chars_of(s);
    let b = chars_of(t);
    eq_chars(a.as_slice(), b.as_slice())
}

/// Which page answers a request.
pub fn handle_request(request: &Request) -> (r: Page)
    ensures
        r == page_for(request.method@, request.path@),
{
    let m = request.method.as_str();
    let p = request.path.as_str();
    if str_is(m, "GET") && str_is(p, "/") {
        Page::Index
    } else if str_is(m, "POST") && str_is(p, "/echo") {
        Page::Echo
    } else {
        Page::NotFound
    }
}

} // verus!
