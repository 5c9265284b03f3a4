//! Parsing the head of an HTTP/1.1 request.
use vstd::prelude::*;
use vstd::utf8::encode_utf8;

use crate::http::extensions::{extension_count, Extensions};
use crate::http::response::{error_body, error_json, plain_head, response_bytes, Headers};
use crate::strmap::{assoc, Pair, StrMap};
use crate::text::{
    ascii_lower, chars_of, lemma_split_by_first, parse_usize, parse_usize_chars, seqs,
    split_by, split_chars, split_once, split_once_chars, string_of, to_ascii_lower, trim,
    trim_chars, words, words_of,
};

verus! {

/// Why a request head was refused.
#[derive(Debug, Clone, Copy, PartialEq, Eq)]
pub enum RequestError {
    /// No line came before the blank line.
    Empty,
    MissingMethod,
    MissingPath,
    MissingVersion,
}

/// The message of each refusal.
pub open spec fn request_error_text(e: RequestError) -> Seq<char> {
    match e {
        RequestError::Empty => "Empty or malformed HTTP request"@,
        RequestError::MissingMethod => "Missing HTTP method"@,
        RequestError::MissingPath => "Missing request path"@,
        RequestError::MissingVersion => "Missing HTTP version"@,
    }
}

impl RequestError {
    /// The message that goes with the error.
    pub fn message(&self) -> (r: &'static str)
        ensures
            r@ == request_error_text(*self),
    {
        match self {
            RequestError::Empty => "Empty or malformed HTTP request",
            RequestError::MissingMethod => "Missing HTTP method",
            RequestError::MissingPath => "Missing request path",
            RequestError::MissingVersion => "Missing HTTP version",
        }
    }
}

pub open spec fn texts(v: Seq<String>) -> Seq<Seq<char>> {
    v.map_values(|s: String| s@)
}

/// The error that a head made of `lines` gets, if any.
pub open spec fn head_error(lines: Seq<Seq<char>>) -> Option<RequestError> {
    if lines.len() == 0 {
        Some(RequestError::Empty)
    } else {
        let w = words(lines[0]);
        if w.len() == 0 {
            Some(RequestError::MissingMethod)
        } else if w.len() == 1 {
            Some(RequestError::MissingPath)
        } else if w.len() == 2 {
            Some(RequestError::MissingVersion)
        } else {
            None
        }
    }
}

/// The path of a request target: what comes before the first `?`.
pub open spec fn target_path(t: Seq<char>) -> Seq<char> {
    split_by(t, '?')[0]
}

/// The query of a request target: what lies between the first `?` and the next.
pub open spec fn target_query(t: Seq<char>) -> Seq<char> {
    let p = split_by(t, '?');
    if p.len() > 1 {
        p[1]
    } else {
        Seq::<char>::empty()
    }
}

/// The trimmed key and value of each piece that holds `d`, in order.
pub open spec fn kv_pairs(pieces: Seq<Seq<char>>, d: char) -> Seq<Pair>
    decreases pieces.len(),
{
    if pieces.len() == 0 {
        Seq::<Pair>::empty()
    } else {
        let rest = kv_pairs(pieces.drop_last(), d);
        match split_once(pieces.last(), d) {
            Some((k, v)) => rest.push((trim(k), trim(v))),
            None => rest,
        }
    }
}

/// The query parameters of a request target, in order.
pub open spec fn query_pairs(t: Seq<char>) -> Seq<Pair> {
    kv_pairs(split_by(target_query(t), '&'), '=')
}

/// The header fields of a request head: the lines after the first.
pub open spec fn header_pairs(lines: Seq<Seq<char>>) -> Seq<Pair> {
    kv_pairs(lines.drop_first(), ':')
}

/// The pairs with their keys in lower case.
pub open spec fn lowered(ps: Seq<Pair>) -> Seq<Pair> {
    ps.map_values(|p: Pair| (ascii_lower(p.0), p.1))
}

/// The body length that the `Content-Length` header announces, 0 where it
/// is missing or not a number.
pub open spec fn announced_length(h: Headers) -> nat {
    match h.lookup("Content-Length"@) {
        Some(v) => match parse_usize(v) {
            Some(n) => n,
            None => 0,
        },
        None => 0,
    }
}

/// What the lines before the blank line say.
pub struct RequestHead {
    pub method: String,
    pub path: String,
    pub query_params: StrMap,
    pub version: String,
    pub headers: Headers,
    pub content_length: usize,
}

/// Whether `h` is the head that `lines` describe.
pub open spec fn head_of(lines: Seq<Seq<char>>, h: RequestHead) -> bool {
    let w = words(lines[0]);
    &&& h.method@ == w[0]
    &&& h.path@ == target_path(w[1])
    &&& h.version@ == w[2]
    &&& h.query_params.wf()
    &&& h.query_params@ == assoc(query_pairs(w[1]))
    &&& h.headers.wf()
    &&& h.headers.map@ == assoc(lowered(header_pairs(lines)))
    &&& h.content_length == announced_length(h.headers)
}

/// An HTTP request.
pub struct Request {
    pub method: String,
    pub path: String,
    pub query_params: StrMap,
    pub version: String,
    pub headers: Headers,
    pub body: Vec<u8>,
    pub extensions: Extensions,
}

proof fn lemma_kv_pairs_step(pieces: Seq<Seq<char>>, i: int, d: char)
    requires
        0 <= i < pieces.len(),
    ensures
        kv_pairs(pieces.take(i + 1), d) == match split_once(pieces[i], d) {
            Some((k, v)) => kv_pairs(pieces.take(i), d).push((trim(k), trim(v))),
            None => kv_pairs(pieces.take(i), d),
        },
{
    assert(pieces.take(i + 1).drop_last() =~= pieces.take(i));
    assert(pieces.take(i + 1).last() == pieces[i]);
}

/// Trims the key and value of a piece split at `d`.
fn trimmed_pair(piece: &Vec<char>, d: char) -> (r: Option<(Vec<char>, Vec<char>)>)
    ensures
        match split_once(piece@, d) {
            Some((k, v)) => r matches Some((a, b)) && a@ == trim(k) && b@ == trim(v),
            None => r is None,
        },
{
    match split_once_chars(piece.as_slice(), d) {
        Some((k, v)) => Some((trim_chars(k.as_slice()), trim_chars(v.as_slice()))),
        None => None,
    }
}

/// The query parameters of a request target.
fn parse_query(target: &Vec<char>) -> (r: StrMap)
    ensures
        r.wf(),
        r@ == assoc(query_pairs(target@)),
{
    let parts = split_chars(target.as_slice(), '?');
    proof {
        lemma_split_by_first(target@, '?');
    }
    let mut map = StrMap::new();
    if parts.len() < 2 {
        assert(target_query(target@) =~= Seq::<char>::empty());
        assert(split_by(Seq::<char>::empty(), '&') =~= seq![Seq::<char>::empty()]);
        assert(split_once(Seq::<char>::empty(), '=') is None) by {
            assert(split_by(Seq::<char>::empty(), '=') =~= seq![Seq::<char>::empty()]);
        }
        let ghost q = seq![Seq::<char>::empty()];
        assert(q.drop_last() =~= Seq::<Seq<char>>::empty());
        assert(q.last() == Seq::<char>::empty());
        assert(kv_pairs(q, '=') == kv_pairs(q.drop_last(), '='));
        assert(kv_pairs(q, '=') =~= Seq::<Pair>::empty());
        assert(query_pairs(target@) == kv_pairs(q, '='));
        assert(map@ =~= assoc(Seq::<Pair>::empty()));
        return map;
    }
    assert(parts@[1]@ == target_query(target@));
    let pieces = split_chars(parts[1].as_slice(), '&');
    let ghost ps = seqs(pieces@);
    let mut i: usize = 0;
    assert(ps.take(0) =~= Seq::<Seq<char>>::empty());
    while i < pieces.len()
        invariant
            0 <= i <= pieces.len(),
            ps == seqs(pieces@),
            ps == split_by(target_query(target@), '&'),
            map.wf(),
            map@ == assoc(kv_pairs(ps.take(i as int), '=')),
        decreases pieces.len() - i,
    {
        proof {
            lemma_kv_pairs_step(ps, i as int, '=');
        }
        assert(pieces@[i as int]@ == ps[i as int]);
        match trimmed_pair(&pieces[i], '=') {
            Some((k, v)) => {
                let ghost before = kv_pairs(ps.take(i as int), '=');
                map.insert(string_of(k.as_slice()), string_of(v.as_slice()));
                assert(before.push((k@, v@)).drop_last() =~= before);
            },
            None => {},
        }
        i += 1;
    }
    assert(ps.take(pieces.len() as int) =~= ps);
    map
}

/// The header fields of the lines after the first; with `lower`, keyed by
/// lower-case name.
pub(crate) fn field_map(lines: &Vec<String>, lower: bool) -> (r: StrMap)
    requires
        lines.len() > 0,
    ensures
        r.wf(),
        r@ == assoc(
            if lower {
                lowered(header_pairs(texts(lines@)))
            } else {
                header_pairs(texts(lines@))
            },
        ),
{
    let ghost ls = texts(lines@).drop_first();
    let mut map = StrMap::new();
    let mut i: usize = 1;
    assert(ls.take(0) =~= Seq::<Seq<char>>::empty());
    assert(lowered(Seq::<Pair>::empty()) =~= Seq::<Pair>::empty());
    while i < lines.len()
        invariant
            1 <= i <= lines.len(),
            ls == texts(lines@).drop_first(),
            map.wf(),
            map@ == assoc(
                if lower {
                    lowered(kv_pairs(ls.take(i - 1), ':'))
                } else {
                    kv_pairs(ls.take(i - 1), ':')
                },
            ),
        decreases lines.len() - i,
    {
        proof {
            lemma_kv_pairs_step(ls, i - 1, ':');
        }
        let line = chars_of(lines[i].as_str());
        assert(line@ == ls[i - 1]);
        match trimmed_pair(&line, ':') {
            Some((k, v)) => {
                let ghost before = kv_pairs(ls.take(i - 1), ':');
                if lower {
                    let kl = to_ascii_lower(k.as_slice());
                    map.insert(string_of(kl.as_slice()), string_of(v.as_slice()));
                    assert(lowered(before.push((k@, v@))) =~= lowered(before).push((kl@, v@)));
                    assert(lowered(before).push((kl@, v@)).drop_last() =~= lowered(before));
                } else {
                    map.insert(string_of(k.as_slice()), string_of(v.as_slice()));
                    assert(before.push((k@, v@)).drop_last() =~= before);
                }
            },
            None => {},
        }
        i += 1;
    }
    assert(ls.take(lines.len() - 1) =~= ls);
    map
}

/// The body length that the `Content-Length` header announces.
fn content_length(headers: &Headers) -> (r: usize)
    requires
        headers.wf(),
    ensures
        r == announced_length(*headers),
{
    match headers.get("Content-Length") {
        Some(v) => {
            let cs = chars_of(v.as_str());
            match parse_usize_chars(cs.as_slice()) {
                Some(n) => n,
                None => 0,
            }
        },
        None => 0,
    }
}

/// Parses the lines that come before the blank line of a request: the
/// request line (method, target, version, separated by whitespace) and
/// the header fields. The target's path is what comes before the first
/// `?`; its query is split at `&` into `key=value` pairs. Header names are
/// kept in lower case, keys and values trimmed; a later field with the
/// same name wins, and lines without `:` are skipped.
pub fn parse_head(lines: &Vec<String>) -> (r: Result<RequestHead, RequestError>)
    ensures
        match r {
            Err(e) => head_error(texts(lines@)) == Some(e),
            Ok(h) => head_error(texts(lines@)) is None && head_of(texts(lines@), h),
        },
{
    if lines.len() == 0 {
        return Err(RequestError::Empty);
    }
    let first = chars_of(lines[0].as_str());
    assert(first@ == texts(lines@)[0]);
    let w = words_of(first.as_slice());
    if w.len() == 0 {
        return Err(RequestError::MissingMethod);
    }
    let method = string_of(w[0].as_slice());
    if w.len() == 1 {
        return Err(RequestError::MissingPath);
    }
    let target = &w[1];
    let parts = split_chars(target.as_slice(), '?');
    proof {
        lemma_split_by_first(target@, '?');
    }
    let path = string_of(parts[0].as_slice());
    let query_params = parse_query(target);
    if w.len() == 2 {
        return Err(RequestError::MissingVersion);
    }
    let version = string_of(w[2].as_slice());
    let headers = Headers { map: field_map(lines, true) };
    let content_length = content_length(&headers);
    assert(seqs(w@)[0] == w@[0]@ && seqs(w@)[1] == w@[1]@ && seqs(w@)[2] == w@[2]@);
    Ok(RequestHead { method, path, query_params, version, headers, content_length })
}

/// The answer to a body that is not valid JSON.
pub fn invalid_json_response() -> (r: Vec<u8>)
    ensures
        r@ == encode_utf8(
            plain_head(
                "400 Bad Request"@,
                "application/json"@,
                encode_utf8(error_json("Invalid JSON payload"@)).len(),
            ),
        ) + encode_utf8(error_json("Invalid JSON payload"@)),
{
    let body = error_body("Invalid JSON payload");
    response_bytes("400 Bad Request", "application/json", body.as_str().as_bytes())
}

impl Request {
    /// A request with the given head and body.
    pub fn from_head(head: RequestHead, body: Vec<u8>) -> (r: Request)
        ensures
            r.method == head.method,
            r.path == head.path,
            r.query_params == head.query_params,
            r.version == head.version,
            r.headers == head.headers,
            r.body == body,
            extension_count(r.extensions) == 0,
    {
        Request {
            method: head.method,
            path: head.path,
            query_params: head.query_params,
            version: head.version,
            headers: head.headers,
            body,
            extensions: Extensions::new(),
        }
    }
}

/// The path of a request never holds a `?`: the query is cut off at the first one.
pub proof fn law_path_has_no_question_mark(target: Seq<char>)
    ensures
        !target_path(target).contains('?'),
{
    lemma_split_by_first(target, '?');
}

} // verus!
