//! Status codes, response headers and the bytes of an HTTP/1.1 response.
use vstd::prelude::*;
use vstd::utf8::encode_utf8;

use crate::strmap::{assoc, has_key, insert_pairs, key_index, lemma_insert_pairs_assoc, Pair, StrMap};
use crate::text::{
    all_ascii, ascii_lower, ascii_lower_char, ascii_upper_char, eq_ignore_ascii_case, is_digit,
    is_ws, law_decimal_parses_back, lemma_decimal_digits, parse_usize, trim_end, trim_start, chars_of, decimal, decimal_string, eq_chars,
    is_ascii_char, push_char, push_str, seqs, split_by, split_chars, string_of, to_ascii_lower,
    trim, trim_chars,
};

verus! {

/// An HTTP status code.
#[derive(Debug, Clone, Copy, PartialEq, Eq, Hash)]
pub struct StatusCode(pub u16);

/// The reason phrase that goes with a status code, where one is known.
pub open spec fn reason_of(code: u16) -> Option<Seq<char>> {
    if code == 200 {
        Some("OK"@)
    } else if code == 201 {
        Some("Created"@)
    } else if code == 400 {
        Some("Bad Request"@)
    } else if code == 401 {
        Some("Unauthorized"@)
    } else if code == 404 {
        Some("Not Found"@)
    } else if code == 500 {
        Some("Internal Server Error"@)
    } else {
        None
    }
}

/// The code in decimal, followed by a space and the reason phrase where one is known.
pub open spec fn status_text(code: u16) -> Seq<char> {
    match reason_of(code) {
        Some(r) => decimal(code as nat).push(' ') + r,
        None => decimal(code as nat),
    }
}

impl StatusCode {
    #[allow(non_snake_case)]
    pub fn OK() -> (r: StatusCode)
        ensures
            r.0 == 200,
    {
        StatusCode(200)
    }

    #[allow(non_snake_case)]
    pub fn CREATED() -> (r: StatusCode)
        ensures
            r.0 == 201,
    {
        StatusCode(201)
    }

    #[allow(non_snake_case)]
    pub fn BAD_REQUEST() -> (r: StatusCode)
        ensures
            r.0 == 400,
    {
        StatusCode(400)
    }

    #[allow(non_snake_case)]
    pub fn UNAUTHORIZED() -> (r: StatusCode)
        ensures
            r.0 == 401,
    {
        StatusCode(401)
    }

    #[allow(non_snake_case)]
    pub fn NOT_FOUND() -> (r: StatusCode)
        ensures
            r.0 == 404,
    {
        StatusCode(404)
    }

    #[allow(non_snake_case)]
    pub fn INTERNAL_SERVER_ERROR() -> (r: StatusCode)
        ensures
            r.0 == 500,
    {
        StatusCode(500)
    }

    pub fn as_u16(&self) -> (r: u16)
        ensures
            r == self.0,
    {
        self.0
    }

    pub fn canonical_reason(&self) -> (r: Option<&'static str>)
        ensures
            match reason_of(self.0) {
                Some(t) => r matches Some(s) && s@ == t,
                None => r is None,
            },
    {
        match self.0 {
            200 => Some("OK"),
            201 => Some("Created"),
            400 => Some("Bad Request"),
            401 => Some("Unauthorized"),
            404 => Some("Not Found"),
            500 => Some("Internal Server Error"),
            _ => None,
        }
    }

    pub fn as_str(&self) -> (r: String)
        ensures
            r@ == status_text(self.0),
    {
        let mut s = decimal_string(self.0 as u64);
        match self.canonical_reason() {
            Some(reason) => {
                push_char(&mut s, ' ');
                push_str(&mut s, reason);
            },
            None => {},
        }
        s
    }
}

/// `char::to_uppercase`, as a sequence of characters.
pub uninterp spec fn char_uppercase(c: char) -> Seq<char>;

/// `str::to_lowercase`.
pub uninterp spec fn str_lowercase(s: Seq<char>) -> Seq<char>;

/// Calls `char::to_uppercase` and collects the characters. The contract
/// names the result and states what the documentation says of ASCII
/// characters; of other characters it states nothing more.
#[verifier::external_body]
fn char_to_uppercase(c: char) -> (r: String)
    ensures
        r@ == char_uppercase(c),
        is_ascii_char(c) ==> r@ == seq![ascii_upper_char(c)],
{
    c.to_uppercase().collect()
}

/// Calls `str::to_lowercase`. The contract names the result and states
/// what the documentation says of ASCII text; of other text it states
/// nothing more.
#[verifier::external_body]
fn str_to_lowercase(s: &str) -> (r: String)
    ensures
        r@ == str_lowercase(s@),
        all_ascii(s@) ==> r@ == ascii_lower(s@),
{
    s.to_lowercase()
}

/// What `char::to_uppercase` gives: the ASCII upper case of an ASCII
/// character, and the named result for any other.
pub open spec fn char_upper(c: char) -> Seq<char> {
    if is_ascii_char(c) {
        seq![ascii_upper_char(c)]
    } else {
        char_uppercase(c)
    }
}

/// What `str::to_lowercase` gives: the ASCII lower case of ASCII text, and
/// the named result for any other.
pub open spec fn text_lower(s: Seq<char>) -> Seq<char> {
    if all_ascii(s) {
        ascii_lower(s)
    } else {
        str_lowercase(s)
    }
}

/// One dash-separated word of a header name, as responses write it.
pub open spec fn capitalize_word(w: Seq<char>) -> Seq<char> {
    if ascii_lower(w) == "websocket"@ {
        "WebSocket"@
    } else if w.len() == 0 {
        Seq::<char>::empty()
    } else {
        char_upper(w[0]) + text_lower(w.drop_first())
    }
}

/// The words joined by `sep` (`[String]::join`).
pub open spec fn join(ws: Seq<Seq<char>>, sep: char) -> Seq<char>
    decreases ws.len(),
{
    if ws.len() == 0 {
        Seq::<char>::empty()
    } else if ws.len() == 1 {
        ws[0]
    } else {
        join(ws.drop_last(), sep).push(sep) + ws.last()
    }
}

/// A header name as responses write it: each dash-separated word capitalized.
pub open spec fn capitalize(key: Seq<char>) -> Seq<char> {
    join(split_by(key, '-').map_values(|w: Seq<char>| capitalize_word(w)), '-')
}

proof fn lemma_lower_upper_char(c: char)
    ensures
        ascii_lower_char(ascii_upper_char(c)) == ascii_lower_char(c),
        ascii_lower_char(ascii_lower_char(c)) == ascii_lower_char(c),
{
}

proof fn lemma_lower_idem(s: Seq<char>)
    ensures
        ascii_lower(ascii_lower(s)) == ascii_lower(s),
{
    assert forall|i: int| 0 <= i < s.len() implies ascii_lower(ascii_lower(s))[i] == ascii_lower(
        s,
    )[i] by {
        lemma_lower_upper_char(s[i]);
    }
    assert(ascii_lower(ascii_lower(s)) =~= ascii_lower(s));
}

proof fn lemma_lower_concat(a: Seq<char>, b: Seq<char>)
    ensures
        ascii_lower(a + b) == ascii_lower(a) + ascii_lower(b),
{
    assert(ascii_lower(a + b) =~= ascii_lower(a) + ascii_lower(b));
}

fn capitalize_word_exec(w: &Vec<char>) -> (r: String)
    ensures
        r@ == capitalize_word(w@),
        all_ascii(w@) ==> ascii_lower(r@) == ascii_lower(w@),
{
    let lower = to_ascii_lower(w.as_slice());
    let target = chars_of("websocket");
    if eq_chars(lower.as_slice(), target.as_slice()) {
        let mut out = String::new();
        push_str(&mut out, "WebSocket");
        proof {
            reveal_strlit("WebSocket");
            reveal_strlit("websocket");
            assert(ascii_lower(out@) =~= "websocket"@);
        }
        return out;
    }
    if w.len() == 0 {
        let e = String::new();
        assert(ascii_lower(e@) =~= ascii_lower(w@));
        return e;
    }
    let mut rest: Vec<char> = Vec::new();
    let mut i: usize = 1;
    while i < w.len()
        invariant
            1 <= i <= w.len(),
            rest@ =~= w@.subrange(1, i as int),
        decreases w.len() - i,
    {
        rest.push(w[i]);
        i += 1;
    }
    assert(rest@ =~= w@.drop_first());
    let rest_text = string_of(rest.as_slice());
    let mut out = char_to_uppercase(w[0]);
    let lowered = str_to_lowercase(rest_text.as_str());
    let ghost up = out@;
    assert(up == char_upper(w@[0]));
    assert(lowered@ == text_lower(w@.drop_first()));
    push_str(&mut out, lowered.as_str());
    proof {
        if all_ascii(w@) {
            assert(is_ascii_char(w@[0]));
            assert(all_ascii(rest_text@)) by {
                assert forall|i: int| 0 <= i < rest_text@.len() implies is_ascii_char(
                    #[trigger] rest_text@[i],
                ) by {
                    assert(rest_text@[i] == w@[i + 1]);
                }
            }
            lemma_lower_concat(up, lowered@);
            lemma_lower_idem(w@.drop_first());
            lemma_lower_upper_char(w@[0]);
            assert(ascii_lower(up) =~= seq![ascii_lower_char(w@[0])]);
            assert(w@ =~= seq![w@[0]] + w@.drop_first());
            lemma_lower_concat(seq![w@[0]], w@.drop_first());
            assert(ascii_lower(seq![w@[0]]) =~= seq![ascii_lower_char(w@[0])]);
        }
    }
    out
}

proof fn lemma_join_split(s: Seq<char>, d: char)
    ensures
        join(split_by(s, d), d) == s,
    decreases s.len(),
{
    crate::text::lemma_split_by_first(s, d);
    if s.len() > 0 {
        let t = s.drop_last();
        lemma_join_split(t, d);
        crate::text::lemma_split_by_first(t, d);
        let p = split_by(t, d);
        if s.last() == d {
            let q = p.push(Seq::<char>::empty());
            assert(q.drop_last() =~= p);
            assert(q.len() >= 2);
            assert(join(q, d) == join(p, d).push(d) + q.last());
            assert(q.last() =~= Seq::<char>::empty());
            assert(t.push(d) =~= s);
            assert(join(q, d) =~= s);
        } else {
            let q = p.update(p.len() - 1, p.last().push(s.last()));
            if p.len() == 1 {
                assert(join(q, d) == q[0]);
                assert(q[0] =~= s);
            } else {
                assert(q.drop_last() =~= p.drop_last());
                let a = join(p.drop_last(), d).push(d);
                assert(join(p, d) == a + p.last());
                assert(join(q, d) == a + p.last().push(s.last()));
                assert(a + p.last().push(s.last()) =~= (a + p.last()).push(s.last()));
                assert(t.push(s.last()) =~= s);
                assert(join(q, d) =~= s);
            }
        }
    } else {
        assert(split_by(s, d) =~= seq![Seq::<char>::empty()]);
    }
}

proof fn lemma_split_ascii(s: Seq<char>, d: char)
    requires
        all_ascii(s),
    ensures
        forall|i: int| 0 <= i < split_by(s, d).len() ==> all_ascii(#[trigger] split_by(s, d)[i]),
    decreases s.len(),
{
    if s.len() > 0 {
        let t = s.drop_last();
        assert(all_ascii(t)) by {
            assert forall|k: int| 0 <= k < t.len() implies is_ascii_char(#[trigger] t[k]) by {
                assert(t[k] == s[k]);
            }
        }
        lemma_split_ascii(t, d);
        crate::text::lemma_split_by_first(t, d);
        let p = split_by(t, d);
        let q = split_by(s, d);
        assert(is_ascii_char(s[s.len() - 1]));
        assert forall|i: int| 0 <= i < q.len() implies all_ascii(#[trigger] q[i]) by {
            if i < p.len() && !(s.last() != d && i == p.len() - 1) {
                assert(q[i] == p[i]);
            } else if s.last() != d && i == p.len() - 1 {
                assert(all_ascii(p[i]));
                assert forall|k: int| 0 <= k < q[i].len() implies is_ascii_char(#[trigger] q[i][k]) by {
                    if k < p[i].len() {
                        assert(q[i][k] == p[i][k]);
                    }
                }
            } else {
                assert(q[i] =~= Seq::<char>::empty());
            }
        }
    }
}

proof fn lemma_split_append(a: Seq<char>, b: Seq<char>, d: char)
    requires
        forall|j: int| 0 <= j < b.len() ==> b[j] != d,
    ensures
        split_by(a + b, d) == split_by(a, d).update(
            split_by(a, d).len() - 1,
            split_by(a, d).last() + b,
        ),
    decreases b.len(),
{
    crate::text::lemma_split_by_first(a, d);
    let p = split_by(a, d);
    if b.len() == 0 {
        assert(a + b =~= a);
        assert(p.last() + b =~= p.last());
        assert(p.update(p.len() - 1, p.last() + b) =~= p);
    } else {
        let bl = b.drop_last();
        lemma_split_append(a, bl, d);
        assert((a + b).drop_last() =~= a + bl);
        assert((a + b).last() == b.last());
        assert(b.last() == b[b.len() - 1]);
        let q = p.update(p.len() - 1, p.last() + bl);
        assert(split_by(a + b, d) == q.update(q.len() - 1, q.last().push(b.last())));
        assert((p.last() + bl).push(b.last()) =~= p.last() + b);
        assert(q.update(q.len() - 1, q.last().push(b.last())) =~= p.update(
            p.len() - 1,
            p.last() + b,
        ));
    }
}

proof fn lemma_split_join(ws: Seq<Seq<char>>, d: char)
    requires
        ws.len() > 0,
        forall|i: int, j: int| 0 <= i < ws.len() && 0 <= j < ws[i].len() ==> ws[i][j] != d,
    ensures
        split_by(join(ws, d), d) == ws,
    decreases ws.len(),
{
    let e = Seq::<char>::empty();
    assert(split_by(e, d) =~= seq![e]);
    if ws.len() == 1 {
        assert(forall|j: int| 0 <= j < ws[0].len() ==> ws[0][j] != d);
        lemma_split_append(e, ws[0], d);
        assert(e + ws[0] =~= ws[0]);
        assert(seq![e].update(0, e + ws[0]) =~= ws);
    } else {
        let t = ws.drop_last();
        assert forall|i: int, j: int| 0 <= i < t.len() && 0 <= j < t[i].len() implies t[i][j]
            != d by {
            assert(t[i] == ws[i]);
        }
        lemma_split_join(t, d);
        let jt = join(t, d);
        assert(jt.push(d).drop_last() =~= jt);
        assert(split_by(jt.push(d), d) == t.push(e));
        let l = ws.last();
        assert(forall|j: int| 0 <= j < l.len() ==> l[j] != d) by {
            assert(l == ws[ws.len() - 1]);
        }
        lemma_split_append(jt.push(d), l, d);
        assert(join(ws, d) == jt.push(d) + l);
        assert(t.push(e).update(t.len() as int, e + l) =~= ws);
    }
}

proof fn lemma_upper_char(c: char)
    requires
        is_ascii_char(c),
    ensures
        is_ascii_char(ascii_upper_char(c)),
        is_ascii_char(ascii_lower_char(c)),
        ascii_upper_char(ascii_upper_char(c)) == ascii_upper_char(c),
        ascii_lower_char(ascii_upper_char(c)) == ascii_lower_char(c),
        ascii_upper_char(c) == '-' ==> c == '-',
        ascii_lower_char(c) == '-' ==> c == '-',
{
}

proof fn lemma_lower_ascii(s: Seq<char>)
    requires
        all_ascii(s),
    ensures
        all_ascii(ascii_lower(s)),
        forall|j: int| 0 <= j < s.len() && #[trigger] ascii_lower(s)[j] == '-' ==> s[j] == '-',
{
    assert forall|j: int| 0 <= j < ascii_lower(s).len() implies is_ascii_char(
        #[trigger] ascii_lower(s)[j],
    ) by {
        lemma_upper_char(s[j]);
    }
    assert forall|j: int| 0 <= j < s.len() && #[trigger] ascii_lower(s)[j] == '-' implies s[j]
        == '-' by {
        lemma_upper_char(s[j]);
    }
}

proof fn lemma_capitalize_word_ascii(w: Seq<char>)
    requires
        all_ascii(w),
    ensures
        all_ascii(capitalize_word(w)),
        (forall|j: int| 0 <= j < w.len() ==> w[j] != '-') ==> (forall|j: int|
            0 <= j < capitalize_word(w).len() ==> capitalize_word(w)[j] != '-'),
        capitalize_word(capitalize_word(w)) == capitalize_word(w),
{
    reveal_strlit("websocket");
    reveal_strlit("WebSocket");
    let ws = "WebSocket"@;
    assert(ascii_lower(ws) =~= "websocket"@);
    if ascii_lower(w) == "websocket"@ {
        assert(all_ascii(ws));
    } else if w.len() == 0 {
    } else {
        let rest = w.drop_first();
        assert(all_ascii(rest));
        lemma_upper_char(w[0]);
        lemma_lower_ascii(rest);
        let c = seq![ascii_upper_char(w[0])] + ascii_lower(rest);
        assert(capitalize_word(w) == c);
        assert(all_ascii(c));
        lemma_lower_idem(rest);
        lemma_lower_concat(seq![ascii_upper_char(w[0])], ascii_lower(rest));
        lemma_lower_concat(seq![w[0]], rest);
        assert(w =~= seq![w[0]] + rest);
        assert(ascii_lower(seq![ascii_upper_char(w[0])]) =~= ascii_lower(seq![w[0]]));
        assert(ascii_lower(c) == ascii_lower(w));
        assert(c.drop_first() =~= ascii_lower(rest));
        assert(c[0] == ascii_upper_char(w[0]));
        assert(capitalize_word(c) =~= c);
        if forall|j: int| 0 <= j < w.len() ==> w[j] != '-' {
            assert forall|j: int| 0 <= j < c.len() implies c[j] != '-' by {
                if j > 0 {
                    assert(c[j] == ascii_lower(rest)[j - 1]);
                    assert(rest[j - 1] == w[j]);
                }
            }
        }
    }
}

/// Writing a header name as responses do is idempotent on ASCII names:
/// a name written once comes out unchanged when written again.
pub proof fn law_capitalize_idempotent(key: Seq<char>)
    requires
        all_ascii(key),
    ensures
        capitalize(capitalize(key)) == capitalize(key),
{
    let p = split_by(key, '-');
    crate::text::lemma_split_by_first(key, '-');
    crate::text::lemma_split_by_pieces(key, '-');
    lemma_split_ascii(key, '-');
    let w = p.map_values(|x: Seq<char>| capitalize_word(x));
    assert forall|i: int| 0 <= i < w.len() implies all_ascii(#[trigger] w[i]) && (forall|j: int|
        0 <= j < w[i].len() ==> w[i][j] != '-') && capitalize_word(w[i]) == w[i] by {
        assert(all_ascii(p[i]));
        assert(forall|j: int| 0 <= j < p[i].len() ==> p[i][j] != '-');
        lemma_capitalize_word_ascii(p[i]);
    }
    lemma_split_join(w, '-');
    assert(capitalize(key) == join(w, '-'));
    assert(split_by(capitalize(key), '-').map_values(|x: Seq<char>| capitalize_word(x)) =~= w);
}

/// Writes a header name as responses do: `content-type` becomes
/// `Content-Type`, and a `websocket` word becomes `WebSocket`. An ASCII
/// name comes out equal to the given one up to ASCII case.
pub fn capitalize_header_key(key: &str) -> (r: String)
    ensures
        r@ == capitalize(key@),
        all_ascii(key@) ==> eq_ignore_ascii_case(r@, key@),
{
    let cs = chars_of(key);
    let pieces = split_chars(cs.as_slice(), '-');
    let ghost ws = split_by(key@, '-').map_values(|w: Seq<char>| capitalize_word(w));
    let ghost ps = split_by(key@, '-');
    proof {
        crate::text::lemma_split_by_first(key@, '-');
        if all_ascii(key@) {
            lemma_split_ascii(key@, '-');
        }
    }
    assert(pieces@[0]@ == seqs(pieces@)[0]);
    let mut out = capitalize_word_exec(&pieces[0]);
    assert(ws.take(1) =~= seq![ws[0]]);
    assert(ps.take(1) =~= seq![ps[0]]);
    let mut i: usize = 1;
    while i < pieces.len()
        invariant
            1 <= i <= pieces.len(),
            seqs(pieces@) == split_by(key@, '-'),
            ps == split_by(key@, '-'),
            ws == split_by(key@, '-').map_values(|w: Seq<char>| capitalize_word(w)),
            out@ == join(ws.take(i as int), '-'),
            all_ascii(key@) ==> forall|k: int| 0 <= k < ps.len() ==> all_ascii(#[trigger] ps[k]),
            all_ascii(key@) ==> ascii_lower(out@) == ascii_lower(join(ps.take(i as int), '-')),
        decreases pieces.len() - i,
    {
        assert(pieces@[i as int]@ == seqs(pieces@)[i as int]);
        let word = capitalize_word_exec(&pieces[i]);
        let ghost before = out@;
        push_char(&mut out, '-');
        push_str(&mut out, word.as_str());
        assert(ws.take(i + 1).drop_last() =~= ws.take(i as int));
        assert(ps.take(i + 1).drop_last() =~= ps.take(i as int));
        proof {
            if all_ascii(key@) {
                let jp = join(ps.take(i as int), '-');
                assert(join(ps.take(i + 1), '-') == jp.push('-') + ps[i as int]);
                assert(all_ascii(ps[i as int]));
                lemma_lower_concat(before.push('-'), word@);
                lemma_lower_concat(jp.push('-'), ps[i as int]);
                assert(ascii_lower(before.push('-')) =~= ascii_lower(before).push('-'));
                assert(ascii_lower(jp.push('-')) =~= ascii_lower(jp).push('-'));
            }
        }
        i += 1;
    }
    assert(ws.take(pieces.len() as int) =~= ws);
    assert(ps.take(pieces.len() as int) =~= ps);
    proof {
        lemma_join_split(key@, '-');
    }
    out
}

/// Response headers, keyed by lower-case name.
#[derive(Clone)]
pub struct Headers {
    pub map: StrMap,
}

impl Headers {
    pub open spec fn wf(&self) -> bool {
        self.map.wf()
    }

    /// The value that `get` gives for `key`.
    pub open spec fn lookup(&self, key: Seq<char>) -> Option<Seq<char>> {
        let k = ascii_lower(key);
        if self.map@.contains_key(k) {
            Some(self.map@[k])
        } else {
            None
        }
    }

    pub fn new() -> (r: Self)
        ensures
            r.wf(),
            r.map.pairs() == Seq::<Pair>::empty(),
    {
        Headers { map: StrMap::new() }
    }

    /// Sets a header: the name is trimmed and lower-cased, the value trimmed.
    pub fn set(&mut self, key: &str, value: &str)
        requires
            old(self).wf(),
        ensures
            final(self).wf(),
            final(self).map.pairs() == insert_pairs(
                old(self).map.pairs(),
                ascii_lower(trim(key@)),
                trim(value@),
            ),
            final(self).map@ == old(self).map@.insert(ascii_lower(trim(key@)), trim(value@)),
    {
        let kc = chars_of(key);
        let kt = trim_chars(kc.as_slice());
        let kl = to_ascii_lower(kt.as_slice());
        let vc = chars_of(value);
        let vt = trim_chars(vc.as_slice());
        self.map.insert(string_of(kl.as_slice()), string_of(vt.as_slice()));
    }

    /// The value of a header, whatever the ASCII case of `key`.
    pub fn get(&self, key: &str) -> (r: Option<&String>)
        requires
            self.wf(),
        ensures
            match self.lookup(key@) {
                Some(v) => r matches Some(s) && s@ == v,
                None => r is None,
            },
    {
        let kc = chars_of(key);
        let kl = to_ascii_lower(kc.as_slice());
        let k = string_of(kl.as_slice());
        self.map.get(k.as_str())
    }
}

/// Whether a text has no whitespace at either end.
pub open spec fn untrimmed_ends(s: Seq<char>) -> bool {
    s.len() == 0 || (!is_ws(s[0]) && !is_ws(s.last()))
}

proof fn lemma_trim_start_shape(s: Seq<char>)
    ensures
        trim_start(s).len() == 0 || !is_ws(trim_start(s)[0]),
    decreases s.len(),
{
    if s.len() > 0 && is_ws(s[0]) {
        lemma_trim_start_shape(s.drop_first());
    }
}

proof fn lemma_trim_end_shape(s: Seq<char>)
    ensures
        trim_end(s).len() <= s.len(),
        trim_end(s) =~= s.take(trim_end(s).len() as int),
        trim_end(s).len() == 0 || !is_ws(trim_end(s).last()),
    decreases s.len(),
{
    if s.len() > 0 && is_ws(s.last()) {
        lemma_trim_end_shape(s.drop_last());
    }
}

proof fn lemma_trim_shape(s: Seq<char>)
    ensures
        untrimmed_ends(trim(s)),
{
    lemma_trim_start_shape(s);
    let u = trim_start(s);
    lemma_trim_end_shape(u);
    let v = trim_end(u);
    if v.len() > 0 {
        assert(v[0] == u[0]);
    }
}

proof fn lemma_trim_fixed(s: Seq<char>)
    requires
        untrimmed_ends(s),
    ensures
        trim(s) == s,
{
    assert(trim_start(s) == s);
    assert(trim_end(s) == s);
}

proof fn lemma_lower_ends(s: Seq<char>)
    requires
        untrimmed_ends(s),
    ensures
        untrimmed_ends(ascii_lower(s)),
{
    if s.len() > 0 {
        assert(ascii_lower(s)[0] == ascii_lower_char(s[0]));
        assert(ascii_lower(s).last() == ascii_lower_char(s.last()));
    }
}

/// Header entries in the form that `Headers::set` writes them: names
/// trimmed and in ASCII lower case, values trimmed.
pub open spec fn normal_pairs(ps: Seq<Pair>) -> bool {
    forall|i: int|
        0 <= i < ps.len() ==> trim(#[trigger] ps[i].0) == ps[i].0 && ascii_lower(ps[i].0)
            == ps[i].0 && trim(ps[i].1) == ps[i].1
}

/// Setting a header keeps every name trimmed and in lower case and every
/// value trimmed; a name set again, in any case, keeps one entry.
pub proof fn law_set_keeps_headers_normal(ps: Seq<Pair>, key: Seq<char>, value: Seq<char>)
    requires
        normal_pairs(ps),
    ensures
        normal_pairs(insert_pairs(ps, ascii_lower(trim(key)), trim(value))),
        has_key(ps, ascii_lower(trim(key))) ==> insert_pairs(
            ps,
            ascii_lower(trim(key)),
            trim(value),
        ).len() == ps.len(),
{
    let k = ascii_lower(trim(key));
    let v = trim(value);
    lemma_trim_shape(key);
    lemma_lower_ends(trim(key));
    lemma_trim_fixed(k);
    lemma_lower_idem(trim(key));
    lemma_trim_shape(value);
    lemma_trim_fixed(v);
    let q = insert_pairs(ps, k, v);
    assert forall|i: int| 0 <= i < q.len() implies trim(#[trigger] q[i].0) == q[i].0
        && ascii_lower(q[i].0) == q[i].0 && trim(q[i].1) == q[i].1 by {
        if i < ps.len() && !(has_key(ps, k) && i == key_index(ps, k)) {
            assert(q[i] == ps[i]);
        }
    }
}

/// The header lines of a response, in the order of the entries.
pub open spec fn header_block(ps: Seq<Pair>) -> Seq<char>
    decreases ps.len(),
{
    if ps.len() == 0 {
        Seq::<char>::empty()
    } else {
        header_block(ps.drop_last()) + capitalize(ps.last().0) + ": "@ + ps.last().1 + "\r\n"@
    }
}

/// The text of a response before its body.
pub open spec fn response_head(code: u16, ps: Seq<Pair>) -> Seq<char> {
    "HTTP/1.1 "@ + status_text(code) + "\r\n"@ + header_block(ps) + "\r\n"@
}

/// The entries after a missing `content-length` header is set to `n`.
pub open spec fn length_filled(ps: Seq<Pair>, n: nat) -> Seq<Pair> {
    if assoc(ps).contains_key(ascii_lower("content-length"@)) {
        ps
    } else {
        insert_pairs(ps, ascii_lower(trim("content-length"@)), trim(decimal(n)))
    }
}

/// The entries after the content type is set to `ct`.
pub open spec fn insert_pairs_ct(ps: Seq<Pair>, ct: Seq<char>) -> Seq<Pair> {
    insert_pairs(ps, ascii_lower(trim("Content-Type"@)), trim(ct))
}

/// The status and headers of a response on its way out.
pub struct Response {
    pub status_code: StatusCode,
    pub headers: Headers,
}

/// The bytes of `s` in UTF-8 followed by `body`.
pub fn text_then_bytes(s: &String, body: &[u8]) -> (r: Vec<u8>)
    ensures
        r@ == encode_utf8(s@) + body@,
{
    let b = s.as_str().as_bytes();
    let mut out: Vec<u8> = Vec::new();
    let mut i: usize = 0;
    while i < b.len()
        invariant
            0 <= i <= b.len(),
            out@ =~= b@.take(i as int),
        decreases b.len() - i,
    {
        out.push(b[i]);
        i += 1;
    }
    let mut j: usize = 0;
    while j < body.len()
        invariant
            0 <= j <= body.len(),
            out@ =~= b@ + body@.take(j as int),
        decreases body.len() - j,
    {
        out.push(body[j]);
        j += 1;
    }
    assert(body@.take(body.len() as int) =~= body@);
    out
}

impl Response {
    pub open spec fn wf(&self) -> bool {
        self.headers.wf()
    }

    /// A `200` response that names the server.
    pub fn new() -> (r: Self)
        ensures
            r.wf(),
            r.status_code == StatusCode(200),
            r.headers.map.pairs() == seq![(ascii_lower(trim("Server"@)), trim("RustWebServer/0.1"@))],
    {
        let mut headers = Headers::new();
        headers.set("Server", "RustWebServer/0.1");
        proof {
            let k = ascii_lower(trim("Server"@));
            assert(!has_key(Seq::<Pair>::empty(), k));
            assert(Seq::<Pair>::empty().push((k, trim("RustWebServer/0.1"@))) =~= seq![(k, trim("RustWebServer/0.1"@))]);
        }
        Response { status_code: StatusCode::OK(), headers }
    }

    /// Sets the status.
    pub fn status(&mut self, status: StatusCode) -> (r: &mut Self)
        ensures
            r.status_code == status,
            r.headers == old(self).headers,
            *final(self) == *final(r),
    {
        self.status_code = status;
        self
    }

    /// The bytes that go on the wire for this response with `body`: the
    /// status line, each header, a blank line and the body. A missing
    /// `content-length` header is set to the body's length first.
    pub fn encode(&mut self, body: &[u8]) -> (r: Vec<u8>)
        requires
            old(self).wf(),
        ensures
            final(self).wf(),
            final(self).status_code == old(self).status_code,
            final(self).headers.map.pairs() == length_filled(old(self).headers.map.pairs(), body@.len()),
            r@ == encode_utf8(response_head(final(self).status_code.0, final(self).headers.map.pairs()))
                + body@,
    {
        if self.headers.get("content-length").is_none() {
            let n = decimal_string(body.len() as u64);
            self.headers.set("content-length", n.as_str());
        }
        let mut text = String::new();
        push_str(&mut text, "HTTP/1.1 ");
        let status = self.status_code.as_str();
        push_str(&mut text, status.as_str());
        push_str(&mut text, "\r\n");
        let ghost prefix = text@;
        let ghost ps = self.headers.map.pairs();
        let mut i: usize = 0;
        assert(ps.take(0) =~= Seq::<Pair>::empty());
        while i < self.headers.map.len()
            invariant
                0 <= i <= ps.len(),
                ps == self.headers.map.pairs(),
                text@ == prefix + header_block(ps.take(i as int)),
            decreases ps.len() - i,
        {
            let (k, v) = self.headers.map.entry(i);
            let key = capitalize_header_key(k.as_str());
            push_str(&mut text, key.as_str());
            push_str(&mut text, ": ");
            push_str(&mut text, v.as_str());
            push_str(&mut text, "\r\n");
            assert(ps.take(i + 1).drop_last() =~= ps.take(i as int));
            i += 1;
        }
        push_str(&mut text, "\r\n");
        assert(ps.take(ps.len() as int) =~= ps);
        assert(text@ =~= response_head(self.status_code.0, ps));
        text_then_bytes(&text, body)
    }

    /// Sets the status and the content type, then gives the bytes of the
    /// response with `body`.
    pub fn reply(&mut self, status: StatusCode, content_type: &str, body: &[u8]) -> (r: Vec<u8>)
        requires
            old(self).wf(),
        ensures
            final(self).wf(),
            final(self).status_code == status,
            final(self).headers.map.pairs() == length_filled(
                insert_pairs_ct(old(self).headers.map.pairs(), content_type@),
                body@.len(),
            ),
            r@ == encode_utf8(response_head(status.0, final(self).headers.map.pairs())) + body@,
    {
        self.status(status);
        self.headers.set("Content-Type", content_type);
        self.encode(body)
    }
}

/// Reading a header after setting it gives the trimmed value, for the
/// trimmed name in any ASCII case; other names keep their values.
pub proof fn law_header_set_then_get(
    before: Headers,
    after: Headers,
    key: Seq<char>,
    value: Seq<char>,
    query: Seq<char>,
)
    requires
        after.map@ == before.map@.insert(ascii_lower(trim(key)), trim(value)),
    ensures
        after.lookup(query) == (if eq_ignore_ascii_case(query, trim(key)) {
            Some(trim(value))
        } else {
            before.lookup(query)
        }),
{
}

/// A header lookup does not depend on the ASCII case of the name.
pub proof fn law_lookup_ignores_case(h: Headers, a: Seq<char>, b: Seq<char>)
    requires
        eq_ignore_ascii_case(a, b),
    ensures
        h.lookup(a) == h.lookup(b),
{
}

proof fn lemma_content_length_key()
    ensures
        trim("content-length"@) == "content-length"@,
        ascii_lower(trim("content-length"@)) == ascii_lower("Content-Length"@),
{
    reveal_strlit("content-length");
    reveal_strlit("Content-Length");
    let s = "content-length"@;
    assert(!is_ws(s[0]));
    assert(trim_start(s) == s);
    assert(!is_ws(s.last()));
    assert(trim_end(s) == s);
    assert(ascii_lower(s) =~= ascii_lower("Content-Length"@));
}

proof fn lemma_trim_decimal(n: nat)
    ensures
        trim(decimal(n)) == decimal(n),
{
    lemma_decimal_digits(n);
    let s = decimal(n);
    assert(is_digit(s[0]));
    assert(trim_start(s) == s);
    assert(is_digit(s[s.len() - 1]));
    assert(trim_end(s) == s);
}

/// A response without a length header announces its body's length once
/// encoded, in a form that a request head's parser reads back.
pub proof fn law_encode_announces_length(before: Response, after: Response, n: nat)
    requires
        before.wf(),
        before.headers.lookup("Content-Length"@) is None,
        n <= usize::MAX,
        after.headers.map.pairs() == length_filled(before.headers.map.pairs(), n),
    ensures
        after.headers.lookup("Content-Length"@) == Some(decimal(n)),
        parse_usize(decimal(n)) == Some(n),
{
    lemma_content_length_key();
    lemma_trim_decimal(n);
    law_decimal_parses_back(n);
    let ps = before.headers.map.pairs();
    let k = ascii_lower(trim("content-length"@));
    assert(!assoc(ps).contains_key(ascii_lower("content-length"@)));
    assert(after.headers.map.pairs() == insert_pairs(ps, k, decimal(n)));
    lemma_insert_pairs_assoc(ps, k, decimal(n));
    assert(after.headers.map@ == assoc(ps).insert(k, decimal(n)));
}

/// The JSON body of an error answer: `{"error": "<message>"}`.
pub open spec fn error_json(message: Seq<char>) -> Seq<char> {
    "{\"error\": \""@ + message + "\"}"@
}

/// The JSON body of an error answer.
pub fn error_body(message: &str) -> (r: String)
    ensures
        r@ == error_json(message@),
{
    let mut s = String::new();
    push_str(&mut s, "{\"error\": \"");
    push_str(&mut s, message);
    push_str(&mut s, "\"}");
    s
}

/// The text of a plain response before its body: the status line, the
/// content type, the body's length and a blank line.
pub open spec fn plain_head(status: Seq<char>, content_type: Seq<char>, len: nat) -> Seq<char> {
    "HTTP/1.1 "@ + status + "\r\nContent-Type: "@ + content_type + "\r\nContent-Length: "@
        + decimal(len) + "\r\n\r\n"@
}

/// The bytes of a response with the given status line, content type and body.
pub fn response_bytes(status: &str, content_type: &str, body: &[u8]) -> (r: Vec<u8>)
    ensures
        r@ == encode_utf8(plain_head(status@, content_type@, body@.len())) + body@,
{
    let mut text = String::new();
    push_str(&mut text, "HTTP/1.1 ");
    push_str(&mut text, status);
    push_str(&mut text, "\r\nContent-Type: ");
    push_str(&mut text, content_type);
    push_str(&mut text, "\r\nContent-Length: ");
    let n = decimal_string(body.len() as u64);
    push_str(&mut text, n.as_str());
    push_str(&mut text, "\r\n\r\n");
    text_then_bytes(&text, body)
}

} // verus!
