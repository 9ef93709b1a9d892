//! HTTP/1.1 message types: verbs, statuses, headers, requests and responses,
//! together with the specification-level image of each type and the byte
//! rendering of headers.
use vstd::prelude::*;

verus! {

use crate::text::{ascii_seq, upper_bytes, dec_digits, lemma_dec_digits};
use vstd::utf8::{encode_utf8, is_ascii_chars, valid_utf8, decode_utf8};
use vstd::utf8::is_ascii_chars_encode_utf8;

/// Why a buffer failed to parse as an HTTP message.
#[derive(Clone, Copy, PartialEq, Eq, Structural, Debug)]
pub enum ParseError {
    /// No blank line terminates the header section within the buffer.
    HeaderTooLarge,
    /// The declared body does not fit in the read buffer.
    BodyTooLarge,
    /// The first line does not have the expected shape.
    MalformedStatusLine,
    /// The method token is not a known HTTP verb.
    UnknownVerb,
    /// The status code is not one this server speaks.
    UnknownStatus,
}

/// The nine HTTP/1.1 request methods.
#[derive(Clone, Copy, PartialEq, Eq, Structural, Debug)]
pub enum HttpVerb {
    GET,
    HEAD,
    POST,
    PUT,
    DELETE,
    CONNECT,
    OPTIONS,
    TRACE,
    PATCH,
}

/// The response statuses this server speaks.
#[derive(Clone, Copy, PartialEq, Eq, Structural, Debug)]
pub enum HttpStatus {
    SwitchingProtocols,
    Okay,
    BadRequest,
    Unauthorized,
    NotFound,
    MethodNotAllowed,
    InternalError,
}

/// Canonical byte spelling of a verb.
pub open spec fn verb_bytes(v: HttpVerb) -> Seq<u8> {
    match v {
        HttpVerb::GET => seq![71u8, 69u8, 84u8],
        HttpVerb::HEAD => seq![72u8, 69u8, 65u8, 68u8],
        HttpVerb::POST => seq![80u8, 79u8, 83u8, 84u8],
        HttpVerb::PUT => seq![80u8, 85u8, 84u8],
        HttpVerb::DELETE => seq![68u8, 69u8, 76u8, 69u8, 84u8, 69u8],
        HttpVerb::CONNECT => seq![67u8, 79u8, 78u8, 78u8, 69u8, 67u8, 84u8],
        HttpVerb::OPTIONS => seq![79u8, 80u8, 84u8, 73u8, 79u8, 78u8, 83u8],
        HttpVerb::TRACE => seq![84u8, 82u8, 65u8, 67u8, 69u8],
        HttpVerb::PATCH => seq![80u8, 65u8, 84u8, 67u8, 72u8],
    }
}

/// The verb a token denotes, compared ASCII-case-insensitively; `None` for an
/// unknown token.
pub open spec fn verb_from_token(t: Seq<u8>) -> Option<HttpVerb> {
    let u = upper_bytes(t);
    if u == verb_bytes(HttpVerb::GET) {
        Some(HttpVerb::GET)
    } else if u == verb_bytes(HttpVerb::HEAD) {
        Some(HttpVerb::HEAD)
    } else if u == verb_bytes(HttpVerb::POST) {
        Some(HttpVerb::POST)
    } else if u == verb_bytes(HttpVerb::PUT) {
        Some(HttpVerb::PUT)
    } else if u == verb_bytes(HttpVerb::DELETE) {
        Some(HttpVerb::DELETE)
    } else if u == verb_bytes(HttpVerb::CONNECT) {
        Some(HttpVerb::CONNECT)
    } else if u == verb_bytes(HttpVerb::OPTIONS) {
        Some(HttpVerb::OPTIONS)
    } else if u == verb_bytes(HttpVerb::TRACE) {
        Some(HttpVerb::TRACE)
    } else if u == verb_bytes(HttpVerb::PATCH) {
        Some(HttpVerb::PATCH)
    } else {
        None
    }
}

/// Numeric code of a status.
pub open spec fn status_code(s: HttpStatus) -> int {
    match s {
        HttpStatus::SwitchingProtocols => 101,
        HttpStatus::Okay => 200,
        HttpStatus::BadRequest => 400,
        HttpStatus::Unauthorized => 401,
        HttpStatus::NotFound => 404,
        HttpStatus::MethodNotAllowed => 405,
        HttpStatus::InternalError => 500,
    }
}

/// The status a numeric code denotes; `None` for a code this server does not
/// speak.
pub open spec fn status_from_code(c: int) -> Option<HttpStatus> {
    if c == 101 {
        Some(HttpStatus::SwitchingProtocols)
    } else if c == 200 {
        Some(HttpStatus::Okay)
    } else if c == 400 {
        Some(HttpStatus::BadRequest)
    } else if c == 401 {
        Some(HttpStatus::Unauthorized)
    } else if c == 404 {
        Some(HttpStatus::NotFound)
    } else if c == 405 {
        Some(HttpStatus::MethodNotAllowed)
    } else if c == 500 {
        Some(HttpStatus::InternalError)
    } else {
        None
    }
}

/// Reason phrase of a status.
pub open spec fn status_reason_chars(s: HttpStatus) -> Seq<char> {
    match s {
        HttpStatus::SwitchingProtocols => "Switching Protocols"@,
        HttpStatus::Okay => "OK"@,
        HttpStatus::BadRequest => "Bad Request"@,
        HttpStatus::Unauthorized => "Unauthorized"@,
        HttpStatus::NotFound => "Not Found"@,
        HttpStatus::MethodNotAllowed => "Method Not Allowed"@,
        HttpStatus::InternalError => "Internal Error"@,
    }
}

/// Reason phrase of a status, as bytes on the wire.
pub open spec fn status_reason_bytes(s: HttpStatus) -> Seq<u8> {
    encode_utf8(status_reason_chars(s))
}

impl HttpVerb {
    /// Resolve a method token, ASCII-case-insensitively.
    pub fn from_str(data: &str) -> (r: Result<HttpVerb, ParseError>)
        ensures
            match r {
                Ok(v) => verb_from_token(encode_utf8(data@)) == Some(v),
                Err(e) => verb_from_token(encode_utf8(data@)) is None && e
                    == ParseError::UnknownVerb,
            },
    {
        let b: &[u8] = data.as_bytes();
        let r = crate::http::verb_of_bytes(b);
        match r {
            Some(v) => Ok(v),
            None => Err(ParseError::UnknownVerb),
        }
    }

    /// Canonical spelling of the verb.
    pub fn get_str(&self) -> (r: &'static str)
        ensures
            encode_utf8(r@) == verb_bytes(*self),
            is_ascii_chars(r@),
    {
        match self {
            HttpVerb::GET => {
                let s = "GET";
                proof {
                    reveal_strlit("GET");
                    lemma_literal_bytes(s@, verb_bytes(HttpVerb::GET));
                }
                s
            },
            HttpVerb::HEAD => {
                let s = "HEAD";
                proof {
                    reveal_strlit("HEAD");
                    lemma_literal_bytes(s@, verb_bytes(HttpVerb::HEAD));
                }
                s
            },
            HttpVerb::POST => {
                let s = "POST";
                proof {
                    reveal_strlit("POST");
                    lemma_literal_bytes(s@, verb_bytes(HttpVerb::POST));
                }
                s
            },
            HttpVerb::PUT => {
                let s = "PUT";
                proof {
                    reveal_strlit("PUT");
                    lemma_literal_bytes(s@, verb_bytes(HttpVerb::PUT));
                }
                s
            },
            HttpVerb::DELETE => {
                let s = "DELETE";
                proof {
                    reveal_strlit("DELETE");
                    lemma_literal_bytes(s@, verb_bytes(HttpVerb::DELETE));
                }
                s
            },
            HttpVerb::CONNECT => {
                let s = "CONNECT";
                proof {
                    reveal_strlit("CONNECT");
                    lemma_literal_bytes(s@, verb_bytes(HttpVerb::CONNECT));
                }
                s
            },
            HttpVerb::OPTIONS => {
                let s = "OPTIONS";
                proof {
                    reveal_strlit("OPTIONS");
                    lemma_literal_bytes(s@, verb_bytes(HttpVerb::OPTIONS));
                }
                s
            },
            HttpVerb::TRACE => {
                let s = "TRACE";
                proof {
                    reveal_strlit("TRACE");
                    lemma_literal_bytes(s@, verb_bytes(HttpVerb::TRACE));
                }
                s
            },
            HttpVerb::PATCH => {
                let s = "PATCH";
                proof {
                    reveal_strlit("PATCH");
                    lemma_literal_bytes(s@, verb_bytes(HttpVerb::PATCH));
                }
                s
            },
        }
    }
}

/// A revealed ASCII literal whose characters match the given bytes encodes to
/// exactly those bytes.
proof fn lemma_literal_bytes(chars: Seq<char>, bytes: Seq<u8>)
    requires
        chars.len() == bytes.len(),
        forall|i: int| 0 <= i < chars.len() ==> (chars[i] as int) < 128 && chars[i] as int
            == bytes[i] as int,
    ensures
        encode_utf8(chars) == bytes,
        is_ascii_chars(chars),
{
    assert(is_ascii_chars(chars));
    is_ascii_chars_encode_utf8(chars);
    assert(encode_utf8(chars) =~= bytes);
}

/// Resolve a method token given as bytes, ASCII-case-insensitively.
pub fn verb_of_bytes(b: &[u8]) -> (r: Option<HttpVerb>)
    ensures
        r == verb_from_token(b@),
{
    let up = crate::text::to_upper(b);
    let n = up.len();
    let ghost u = upper_bytes(b@);
    if n == 3 && up[0] == 71 && up[1] == 69 && up[2] == 84 {
        assert(u =~= verb_bytes(HttpVerb::GET));
        Some(HttpVerb::GET)
    } else if n == 4 && up[0] == 72 && up[1] == 69 && up[2] == 65 && up[3] == 68 {
        assert(u =~= verb_bytes(HttpVerb::HEAD));
        Some(HttpVerb::HEAD)
    } else if n == 4 && up[0] == 80 && up[1] == 79 && up[2] == 83 && up[3] == 84 {
        assert(u =~= verb_bytes(HttpVerb::POST));
        Some(HttpVerb::POST)
    } else if n == 3 && up[0] == 80 && up[1] == 85 && up[2] == 84 {
        assert(u =~= verb_bytes(HttpVerb::PUT));
        Some(HttpVerb::PUT)
    } else if n == 6 && up[0] == 68 && up[1] == 69 && up[2] == 76 && up[3] == 69 && up[4] == 84
        && up[5] == 69 {
        assert(u =~= verb_bytes(HttpVerb::DELETE));
        Some(HttpVerb::DELETE)
    } else if n == 7 && up[0] == 67 && up[1] == 79 && up[2] == 78 && up[3] == 78 && up[4] == 69
        && up[5] == 67 && up[6] == 84 {
        assert(u =~= verb_bytes(HttpVerb::CONNECT));
        Some(HttpVerb::CONNECT)
    } else if n == 7 && up[0] == 79 && up[1] == 80 && up[2] == 84 && up[3] == 73 && up[4] == 79
        && up[5] == 78 && up[6] == 83 {
        assert(u =~= verb_bytes(HttpVerb::OPTIONS));
        Some(HttpVerb::OPTIONS)
    } else if n == 5 && up[0] == 84 && up[1] == 82 && up[2] == 65 && up[3] == 67 && up[4] == 69 {
        assert(u =~= verb_bytes(HttpVerb::TRACE));
        Some(HttpVerb::TRACE)
    } else if n == 5 && up[0] == 80 && up[1] == 65 && up[2] == 84 && up[3] == 67 && up[4] == 72 {
        assert(u =~= verb_bytes(HttpVerb::PATCH));
        Some(HttpVerb::PATCH)
    } else {
        proof {
            if u == verb_bytes(HttpVerb::GET) {
                assert(up@[0] == 71 && up@[1] == 69 && up@[2] == 84);
            }
            if u == verb_bytes(HttpVerb::HEAD) {
                assert(up@[0] == 72 && up@[1] == 69 && up@[2] == 65 && up@[3] == 68);
            }
            if u == verb_bytes(HttpVerb::POST) {
                assert(up@[0] == 80 && up@[1] == 79 && up@[2] == 83 && up@[3] == 84);
            }
            if u == verb_bytes(HttpVerb::PUT) {
                assert(up@[0] == 80 && up@[1] == 85 && up@[2] == 84);
            }
            if u == verb_bytes(HttpVerb::DELETE) {
                assert(up@[0] == 68 && up@[1] == 69 && up@[2] == 76 && up@[3] == 69 && up@[4]
                    == 84 && up@[5] == 69);
            }
            if u == verb_bytes(HttpVerb::CONNECT) {
                assert(up@[0] == 67 && up@[1] == 79 && up@[2] == 78 && up@[3] == 78 && up@[4]
                    == 69 && up@[5] == 67 && up@[6] == 84);
            }
            if u == verb_bytes(HttpVerb::OPTIONS) {
                assert(up@[0] == 79 && up@[1] == 80 && up@[2] == 84 && up@[3] == 73 && up@[4]
                    == 79 && up@[5] == 78 && up@[6] == 83);
            }
            if u == verb_bytes(HttpVerb::TRACE) {
                assert(up@[0] == 84 && up@[1] == 82 && up@[2] == 65 && up@[3] == 67 && up@[4]
                    == 69);
            }
            if u == verb_bytes(HttpVerb::PATCH) {
                assert(up@[0] == 80 && up@[1] == 65 && up@[2] == 84 && up@[3] == 67 && up@[4]
                    == 72);
            }
        }
        None
    }
}

impl HttpStatus {
    /// Resolve a numeric status code.
    pub fn from_code(code: i16) -> (r: Result<HttpStatus, ParseError>)
        ensures
            match r {
                Ok(s) => status_from_code(code as int) == Some(s),
                Err(e) => status_from_code(code as int) is None && e == ParseError::UnknownStatus,
            },
    {
        if code == 101 {
            Ok(HttpStatus::SwitchingProtocols)
        } else if code == 200 {
            Ok(HttpStatus::Okay)
        } else if code == 400 {
            Ok(HttpStatus::BadRequest)
        } else if code == 401 {
            Ok(HttpStatus::Unauthorized)
        } else if code == 404 {
            Ok(HttpStatus::NotFound)
        } else if code == 405 {
            Ok(HttpStatus::MethodNotAllowed)
        } else if code == 500 {
            Ok(HttpStatus::InternalError)
        } else {
            Err(ParseError::UnknownStatus)
        }
    }

    /// Numeric code of the status.
    pub fn get_code(&self) -> (r: i16)
        ensures
            r as int == status_code(*self),
    {
        match self {
            HttpStatus::SwitchingProtocols => 101,
            HttpStatus::Okay => 200,
            HttpStatus::BadRequest => 400,
            HttpStatus::Unauthorized => 401,
            HttpStatus::NotFound => 404,
            HttpStatus::MethodNotAllowed => 405,
            HttpStatus::InternalError => 500,
        }
    }

    /// Reason phrase of the status.
    pub fn get_str(&self) -> (r: &'static str)
        ensures
            r@ == status_reason_chars(*self),
    {
        match self {
            HttpStatus::SwitchingProtocols => "Switching Protocols",
            HttpStatus::Okay => "OK",
            HttpStatus::BadRequest => "Bad Request",
            HttpStatus::Unauthorized => "Unauthorized",
            HttpStatus::NotFound => "Not Found",
            HttpStatus::MethodNotAllowed => "Method Not Allowed",
            HttpStatus::InternalError => "Internal Error",
        }
    }
}


/// First index at which `k` occurs as a key in `m`, or -1 when absent.
pub open spec fn key_index(m: Seq<(Seq<u8>, Seq<u8>)>, k: Seq<u8>) -> int
    decreases m.len(),
{
    if m.len() == 0 {
        -1
    } else if m[0].0 == k {
        0
    } else {
        let r = key_index(m.drop_first(), k);
        if r < 0 {
            -1
        } else {
            r + 1
        }
    }
}

/// `key_index` finds exactly the first entry with the given key.
pub proof fn lemma_key_index_char(m: Seq<(Seq<u8>, Seq<u8>)>, k: Seq<u8>)
    ensures
        key_index(m, k) >= 0 ==> key_index(m, k) < m.len() && m[key_index(m, k)].0 == k && (
        forall|j: int| 0 <= j < key_index(m, k) ==> m[j].0 != k),
        key_index(m, k) < 0 ==> (forall|j: int| 0 <= j < m.len() ==> m[j].0 != k),
        key_index(m, k) < 0 ==> key_index(m, k) == -1,
    decreases m.len(),
{
    if m.len() == 0 {
    } else if m[0].0 == k {
    } else {
        lemma_key_index_char(m.drop_first(), k);
        assert(forall|j: int| 1 <= j < m.len() ==> m[j] == m.drop_first()[j - 1]);
    }
}

/// Insert with replacement: an existing entry for `k` is overwritten in
/// place, otherwise the pair is appended.
pub open spec fn map_insert(
    m: Seq<(Seq<u8>, Seq<u8>)>,
    k: Seq<u8>,
    v: Seq<u8>,
) -> Seq<(Seq<u8>, Seq<u8>)> {
    let i = key_index(m, k);
    if i < 0 {
        m.push((k, v))
    } else {
        m.update(i, (k, v))
    }
}

/// Value stored under `k`, if any.
pub open spec fn map_lookup(m: Seq<(Seq<u8>, Seq<u8>)>, k: Seq<u8>) -> Option<Seq<u8>> {
    let i = key_index(m, k);
    if i < 0 {
        None
    } else {
        Some(m[i].1)
    }
}

/// No two entries share a key.
pub open spec fn keys_distinct(m: Seq<(Seq<u8>, Seq<u8>)>) -> bool {
    forall|i: int, j: int| 0 <= i < j < m.len() ==> m[i].0 != m[j].0
}

/// Insertion keeps keys distinct.
pub proof fn lemma_map_insert_distinct(m: Seq<(Seq<u8>, Seq<u8>)>, k: Seq<u8>, v: Seq<u8>)
    requires
        keys_distinct(m),
    ensures
        keys_distinct(map_insert(m, k, v)),
{
    lemma_key_index_char(m, k);
    let i = key_index(m, k);
    if i < 0 {
        let m2 = m.push((k, v));
        assert forall|a: int, b: int| 0 <= a < b < m2.len() implies m2[a].0 != m2[b].0 by {
            if b == m.len() {
                assert(m2[a].0 == m[a].0);
            }
        }
    } else {
        let m2 = m.update(i, (k, v));
        assert forall|a: int, b: int| 0 <= a < b < m2.len() implies m2[a].0 != m2[b].0 by {
            if a == i {
                assert(m[b].0 != k);
            } else if b == i {
                assert(m[a].0 != k);
            }
        }
    }
}

/// An ordered header mapping with unique keys, stored in insertion order.
/// Its specification image is the sequence of `(key, value)` pairs as
/// UTF-8 bytes.
pub struct HeaderMap {
    entries: Vec<(String, String)>,
}

impl View for HeaderMap {
    type V = Seq<(Seq<u8>, Seq<u8>)>;

    closed spec fn view(&self) -> Seq<(Seq<u8>, Seq<u8>)> {
        Seq::new(
            self.entries@.len(),
            |i: int| (encode_utf8(self.entries@[i].0@), encode_utf8(self.entries@[i].1@)),
        )
    }
}

impl HeaderMap {
    /// The keys of the mapping are pairwise distinct.
    pub open spec fn wf(&self) -> bool {
        keys_distinct(self@)
    }

    /// An empty mapping.
    pub fn new() -> (r: HeaderMap)
        ensures
            r@ == Seq::<(Seq<u8>, Seq<u8>)>::empty(),
            r.wf(),
    {
        let r = HeaderMap { entries: Vec::new() };
        proof {
            assert(r@ =~= Seq::<(Seq<u8>, Seq<u8>)>::empty());
        }
        r
    }

    /// Number of entries.
    pub fn len(&self) -> (r: usize)
        ensures
            r == self@.len(),
    {
        self.entries.len()
    }

    /// Key of the entry at `i`.
    pub fn key_at(&self, i: usize) -> (r: &String)
        requires
            i < self@.len(),
        ensures
            encode_utf8(r@) == self@[i as int].0,
    {
        &self.entries[i].0
    }

    /// Value of the entry at `i`.
    pub fn value_at(&self, i: usize) -> (r: &String)
        requires
            i < self@.len(),
        ensures
            encode_utf8(r@) == self@[i as int].1,
    {
        &self.entries[i].1
    }

    /// Index of the entry whose key has the bytes of `key`, if any.
    fn index_of(&self, key: &[u8]) -> (r: Option<usize>)
        ensures
            match r {
                Some(i) => key_index(self@, key@) == i as int,
                None => key_index(self@, key@) < 0,
            },
    {
        proof {
            lemma_key_index_char(self@, key@);
        }
        let mut i: usize = 0;
        while i < self.entries.len()
            invariant
                i <= self@.len(),
                self@.len() == self.entries@.len(),
                forall|j: int| 0 <= j < i ==> self@[j].0 != key@,
            decreases self@.len() - i,
        {
            if crate::text::bytes_eq(self.entries[i].0.as_str().as_bytes(), key) {
                proof {
                    lemma_key_index_char(self@, key@);
                    let f = key_index(self@, key@);
                    if f < 0 {
                        assert(self@[i as int].0 == key@);
                    } else if f < i as int {
                        assert(self@[f].0 != key@);
                    } else if f > i as int {
                        assert(self@[i as int].0 != key@);
                    }
                }
                return Some(i);
            }
            i = i + 1;
        }
        proof {
            lemma_key_index_char(self@, key@);
            if key_index(self@, key@) >= 0 {
                assert(self@[key_index(self@, key@)].0 != key@);
            }
        }
        None
    }

    /// Insert a pair, overwriting an entry with the same key in place.
    pub fn insert(&mut self, key: String, value: String)
        ensures
            final(self)@ == map_insert(old(self)@, encode_utf8(key@), encode_utf8(value@)),
            old(self).wf() ==> final(self).wf(),
    {
        proof {
            if old(self).wf() {
                lemma_map_insert_distinct(old(self)@, encode_utf8(key@), encode_utf8(value@));
            }
        }
        let found = self.index_of(key.as_str().as_bytes());
        match found {
            Some(i) => {
                proof {
                    lemma_key_index_char(self@, encode_utf8(key@));
                    assert(i < self@.len());
                }
                let ghost prev = self.entries@;
                self.entries.remove(i);
                self.entries.insert(i, (key, value));
                proof {
                    assert(self.entries@ =~= prev.update(i as int, self.entries@[i as int]));
                    assert(self@ =~= map_insert(
                        old(self)@,
                        encode_utf8(key@),
                        encode_utf8(value@),
                    ));
                }
            },
            None => {
                self.entries.push((key, value));
                proof {
                    assert(self@ =~= map_insert(
                        old(self)@,
                        encode_utf8(key@),
                        encode_utf8(value@),
                    ));
                }
            },
        }
    }

    /// Value stored under a key, compared by bytes.
    pub fn get(&self, key: &str) -> (r: Option<&String>)
        ensures
            match r {
                Some(v) => map_lookup(self@, encode_utf8(key@)) == Some(encode_utf8(v@)),
                None => map_lookup(self@, encode_utf8(key@)) is None,
            },
    {
        match self.index_of(key.as_bytes()) {
            Some(i) => {
                proof {
                    lemma_key_index_char(self@, encode_utf8(key@));
                    assert(i < self@.len());
                    assert(self@[i as int].1 == encode_utf8(self.entries@[i as int].1@));
                }
                Some(&self.entries[i].1)
            },
            None => None,
        }
    }
}


/// Specification image of a request header.
pub struct ReqHead {
    pub verb: HttpVerb,
    pub route: Seq<u8>,
    pub version: Seq<u8>,
    pub content_length: int,
    pub fields: Seq<(Seq<u8>, Seq<u8>)>,
}

/// Specification image of a response header.
pub struct RespHead {
    pub status: HttpStatus,
    pub version: Seq<u8>,
    pub content_length: int,
    pub fields: Seq<(Seq<u8>, Seq<u8>)>,
}

/// An HTTP request header: status line fields plus the header mapping.
pub struct HttpRequestHeader {
    pub route: String,
    pub verb: HttpVerb,
    pub content_length: usize,
    pub headers: HeaderMap,
    pub http_version: String,
}

/// A request header together with an optional body.
pub struct HttpRequest {
    pub header: HttpRequestHeader,
    pub body: Option<Vec<u8>>,
}

/// An HTTP response header: status line fields plus the header mapping.
pub struct HttpResponseHeader {
    pub http_version: String,
    pub status: HttpStatus,
    pub content_length: usize,
    pub headers: HeaderMap,
}

/// A response header together with an optional body.
pub struct HttpResponse {
    pub header: HttpResponseHeader,
    pub body: Option<Vec<u8>>,
}

impl View for HttpRequestHeader {
    type V = ReqHead;

    open spec fn view(&self) -> ReqHead {
        ReqHead {
            verb: self.verb,
            route: encode_utf8(self.route@),
            version: encode_utf8(self.http_version@),
            content_length: self.content_length as int,
            fields: self.headers@,
        }
    }
}

impl View for HttpResponseHeader {
    type V = RespHead;

    open spec fn view(&self) -> RespHead {
        RespHead {
            status: self.status,
            version: encode_utf8(self.http_version@),
            content_length: self.content_length as int,
            fields: self.headers@,
        }
    }
}

/// Specification image of a message body.
pub open spec fn body_view(b: Option<Vec<u8>>) -> Option<Seq<u8>> {
    match b {
        Some(v) => Some(v@),
        None => None,
    }
}

/// The body is consistent with the declared content length: present exactly
/// when the length is positive, and of exactly that length.
pub open spec fn body_consistent(body: Option<Vec<u8>>, content_length: int) -> bool {
    match body {
        Some(b) => b@.len() == content_length && content_length > 0,
        None => content_length == 0,
    }
}

impl HttpRequest {
    /// The body agrees with the header's content length.
    pub open spec fn wf(&self) -> bool {
        body_consistent(self.body, self.header.content_length as int)
    }
}

impl HttpResponse {
    /// The body agrees with the header's content length.
    pub open spec fn wf(&self) -> bool {
        body_consistent(self.body, self.header.content_length as int)
    }
}

/// One rendered `Key: Value` line per field, each terminated by CRLF.
pub open spec fn render_fields(fs: Seq<(Seq<u8>, Seq<u8>)>) -> Seq<u8>
    decreases fs.len(),
{
    if fs.len() == 0 {
        Seq::empty()
    } else {
        fs[0].0 + seq![58u8, 32u8] + fs[0].1 + seq![13u8, 10u8] + render_fields(fs.drop_first())
    }
}

/// Appending a field appends its rendered line.
pub proof fn lemma_render_fields_snoc(fs: Seq<(Seq<u8>, Seq<u8>)>, p: (Seq<u8>, Seq<u8>))
    ensures
        render_fields(fs.push(p)) == render_fields(fs) + (p.0 + seq![58u8, 32u8] + p.1 + seq![
            13u8,
            10u8,
        ]),
    decreases fs.len(),
{
    let line = p.0 + seq![58u8, 32u8] + p.1 + seq![13u8, 10u8];
    if fs.len() == 0 {
        let g = fs.push(p);
        assert(g.len() == 1);
        assert(g[0] == p);
        assert(g.drop_first() =~= Seq::<(Seq<u8>, Seq<u8>)>::empty());
        assert(render_fields(g.drop_first()) =~= Seq::<u8>::empty());
        assert(render_fields(g) == g[0].0 + seq![58u8, 32u8] + g[0].1 + seq![13u8, 10u8]
            + render_fields(g.drop_first()));
        assert(render_fields(g) =~= render_fields(fs) + line);
    } else {
        lemma_render_fields_snoc(fs.drop_first(), p);
        assert(fs.push(p).drop_first() =~= fs.drop_first().push(p));
        let head = fs[0].0 + seq![58u8, 32u8] + fs[0].1 + seq![13u8, 10u8];
        assert(render_fields(fs.push(p)) == head + (render_fields(fs.drop_first()) + line));
        assert(head + (render_fields(fs.drop_first()) + line) =~= (head + render_fields(
            fs.drop_first(),
        )) + line);
    }
}

/// The full rendering of a request header, final blank line included.
pub open spec fn render_req_head(m: ReqHead) -> Seq<u8> {
    verb_bytes(m.verb) + seq![32u8] + m.route + seq![32u8] + m.version + seq![13u8, 10u8]
        + render_fields(m.fields) + seq![13u8, 10u8]
}

/// The full rendering of a response header, final blank line included.
pub open spec fn render_resp_head(m: RespHead) -> Seq<u8> {
    m.version + seq![32u8] + dec_digits(status_code(m.status)) + seq![32u8]
        + status_reason_bytes(m.status) + seq![13u8, 10u8] + render_fields(m.fields) + seq![
        13u8,
        10u8,
    ]
}

/// The rendering of a full message: header bytes, then the body verbatim.
pub open spec fn render_message(head: Seq<u8>, body: Option<Seq<u8>>) -> Seq<u8> {
    match body {
        Some(b) => head + b,
        None => head + Seq::<u8>::empty(),
    }
}

/// The four headers every constructed message carries, in order.
pub open spec fn base_fields(content_type: Seq<u8>, cl: int) -> Seq<(Seq<u8>, Seq<u8>)> {
    seq![
        (encode_utf8("Server"@), encode_utf8("Psionic 0.0.1"@)),
        (encode_utf8("Content-Length"@), dec_digits(cl)),
        (encode_utf8("Connection"@), encode_utf8("Closed"@)),
        (encode_utf8("Content-Type"@), content_type),
    ]
}

/// Fold of insert-with-replacement over a sequence of additions.
pub open spec fn insert_all(
    m: Seq<(Seq<u8>, Seq<u8>)>,
    additions: Seq<(Seq<u8>, Seq<u8>)>,
) -> Seq<(Seq<u8>, Seq<u8>)>
    decreases additions.len(),
{
    if additions.len() == 0 {
        m
    } else {
        insert_all(map_insert(m, additions[0].0, additions[0].1), additions.drop_first())
    }
}

/// The header mapping a constructed message carries: the standard four, then
/// the caller's additions, each overriding by key.
pub open spec fn built_fields(
    content_type: Seq<u8>,
    cl: int,
    additions: Seq<(Seq<u8>, Seq<u8>)>,
) -> Seq<(Seq<u8>, Seq<u8>)> {
    insert_all(base_fields(content_type, cl), additions)
}

/// ASCII literals encode to one byte per character.
pub proof fn lemma_strlit_ascii(chars: Seq<char>)
    requires
        is_ascii_chars(chars),
    ensures
        encode_utf8(chars) == Seq::new(chars.len(), |i: int| chars[i] as u8),
        encode_utf8(chars).len() == chars.len(),
        ascii_seq(encode_utf8(chars)),
{
    is_ascii_chars_encode_utf8(chars);
    assert(encode_utf8(chars) =~= Seq::new(chars.len(), |i: int| chars[i] as u8));
}

/// Build the standard header mapping.
fn build_headers(content_type: String, addition_headers: HeaderMap, content_length: usize) -> (r:
    HeaderMap)
    ensures
        r@ == built_fields(encode_utf8(content_type@), content_length as int, addition_headers@),
        r.wf(),
{
    proof {
        reveal_strlit("Server");
        reveal_strlit("Psionic 0.0.1");
        reveal_strlit("Content-Length");
        reveal_strlit("Connection");
        reveal_strlit("Content-Type");
        assert(is_ascii_chars("Server"@));
        assert(is_ascii_chars("Content-Length"@));
        assert(is_ascii_chars("Connection"@));
        assert(is_ascii_chars("Content-Type"@));
        lemma_strlit_ascii("Server"@);
        lemma_strlit_ascii("Content-Length"@);
        lemma_strlit_ascii("Connection"@);
        lemma_strlit_ascii("Content-Type"@);
    }
    let ghost ks = encode_utf8("Server"@);
    let ghost kl = encode_utf8("Content-Length"@);
    let ghost kc = encode_utf8("Connection"@);
    let ghost kt = encode_utf8("Content-Type"@);
    assert(ks.len() == 6 && kl.len() == 14 && kc.len() == 10 && kt.len() == 12);
    let mut hm = HeaderMap::new();
    hm.insert("Server".to_owned(), "Psionic 0.0.1".to_owned());
    let ghost m1 = hm@;
    proof {
        assert(m1 =~= seq![(ks, encode_utf8("Psionic 0.0.1"@))]);
    }
    let cl_digits = crate::text::format_usize(content_length);
    proof {
        lemma_dec_digits(content_length as int);
        assert(ascii_seq(cl_digits@)) by {
            assert(forall|i: int| 0 <= i < cl_digits@.len() ==> crate::text::is_digit(
                #[trigger] cl_digits@[i],
            ));
        }
        crate::text::lemma_ascii_decode(cl_digits@);
    }
    let cl_string = crate::text::lossy_string(cl_digits.as_slice());
    assert(encode_utf8(cl_string@) == cl_digits@);
    hm.insert("Content-Length".to_owned(), cl_string);
    let ghost m2 = hm@;
    proof {
        lemma_key_index_char(m1, kl);
        if key_index(m1, kl) >= 0 {
            assert(m1[key_index(m1, kl)].0 == kl);
        }
        assert(m2 =~= m1.push((kl, dec_digits(content_length as int))));
    }
    hm.insert("Connection".to_owned(), "Closed".to_owned());
    let ghost m3 = hm@;
    proof {
        lemma_key_index_char(m2, kc);
        if key_index(m2, kc) >= 0 {
            assert(m2[key_index(m2, kc)].0 == kc);
        }
        assert(m3 =~= m2.push((kc, encode_utf8("Closed"@))));
    }
    hm.insert("Content-Type".to_owned(), content_type);
    let ghost ct = encode_utf8(content_type@);
    let ghost m4 = hm@;
    proof {
        lemma_key_index_char(m3, kt);
        if key_index(m3, kt) >= 0 {
            assert(m3[key_index(m3, kt)].0 == kt);
        }
        assert(m4 =~= m3.push((kt, ct)));
        assert(m4 =~= base_fields(ct, content_length as int));
    }
    let ghost base = hm@;
    proof {
        assert(addition_headers@.subrange(0, addition_headers@.len() as int) =~= addition_headers@);
    }
    let mut i: usize = 0;
    while i < addition_headers.len()
        invariant
            i <= addition_headers@.len(),
            hm.wf(),
            insert_all(hm@, addition_headers@.subrange(i as int, addition_headers@.len() as int))
                == insert_all(base, addition_headers@),
        decreases addition_headers@.len() - i,
    {
        let ghost rest = addition_headers@.subrange(i as int, addition_headers@.len() as int);
        let k = addition_headers.key_at(i).clone();
        let v = addition_headers.value_at(i).clone();
        hm.insert(k, v);
        proof {
            assert(rest[0] == addition_headers@[i as int]);
            assert(rest.drop_first() =~= addition_headers@.subrange(
                i + 1,
                addition_headers@.len() as int,
            ));
        }
        i = i + 1;
    }
    proof {
        assert(addition_headers@.subrange(
            addition_headers@.len() as int,
            addition_headers@.len() as int,
        ) =~= Seq::<(Seq<u8>, Seq<u8>)>::empty());
    }
    hm
}


/// Facts about canonical verb spellings: uppercase ASCII letters only, and
/// resolving the canonical spelling yields the verb back.
pub proof fn lemma_verb_bytes_facts(v: HttpVerb)
    ensures
        ascii_seq(verb_bytes(v)),
        verb_bytes(v).len() >= 3,
        forall|i: int| 0 <= i < verb_bytes(v).len() ==> 65 <= #[trigger] verb_bytes(v)[i] <= 90,
        upper_bytes(verb_bytes(v)) == verb_bytes(v),
        verb_from_token(verb_bytes(v)) == Some(v),
{
    let b = verb_bytes(v);
    match v {
        HttpVerb::GET => {
            assert(upper_bytes(b) =~= b);
        },
        HttpVerb::HEAD => {
            assert(upper_bytes(b) =~= b);
        },
        HttpVerb::POST => {
            assert(upper_bytes(b) =~= b);
        },
        HttpVerb::PUT => {
            assert(upper_bytes(b) =~= b);
        },
        HttpVerb::DELETE => {
            assert(upper_bytes(b) =~= b);
        },
        HttpVerb::CONNECT => {
            assert(upper_bytes(b) =~= b);
        },
        HttpVerb::OPTIONS => {
            assert(upper_bytes(b) =~= b);
        },
        HttpVerb::TRACE => {
            assert(upper_bytes(b) =~= b);
        },
        HttpVerb::PATCH => {
            assert(upper_bytes(b) =~= b);
        },
    }
}

impl HeaderMap {
    /// Every key and value of the mapping is valid UTF-8, being the bytes of
    /// a string.
    pub proof fn lemma_entries_utf8(&self)
        ensures
            forall|k: int| 0 <= k < self@.len() ==> valid_utf8(#[trigger] self@[k].0) && valid_utf8(
                self@[k].1,
            ),
    {
        broadcast use vstd::utf8::encode_utf8_valid_utf8;

        assert forall|k: int| 0 <= k < self@.len() implies valid_utf8(#[trigger] self@[k].0)
            && valid_utf8(self@[k].1) by {
            assert(self@[k].0 == encode_utf8(self.entries@[k].0@));
            assert(self@[k].1 == encode_utf8(self.entries@[k].1@));
        }
    }
}

/// Rendered header lines are valid UTF-8 when every key and value is.
pub proof fn lemma_render_fields_valid(fs: Seq<(Seq<u8>, Seq<u8>)>)
    requires
        forall|k: int| 0 <= k < fs.len() ==> valid_utf8(#[trigger] fs[k].0) && valid_utf8(
            fs[k].1,
        ),
    ensures
        valid_utf8(render_fields(fs)),
    decreases fs.len(),
{
    broadcast use vstd::utf8::valid_utf8_concat;

    if fs.len() == 0 {
        assert(valid_utf8(Seq::<u8>::empty()));
    } else {
        crate::text::lemma_ascii_decode(seq![58u8, 32u8]);
        crate::text::lemma_ascii_decode(seq![13u8, 10u8]);
        assert(valid_utf8(fs[0].0) && valid_utf8(fs[0].1));
        let rest = fs.drop_first();
        assert forall|k: int| 0 <= k < rest.len() implies valid_utf8(#[trigger] rest[k].0)
            && valid_utf8(rest[k].1) by {
            assert(rest[k] == fs[k + 1]);
            assert(valid_utf8(fs[k + 1].0) && valid_utf8(fs[k + 1].1));
        }
        lemma_render_fields_valid(rest);
        let s1 = seq![58u8, 32u8];
        let s2 = seq![13u8, 10u8];
        assert(valid_utf8(fs[0].0 + s1));
        assert(valid_utf8((fs[0].0 + s1) + fs[0].1));
        assert(valid_utf8(((fs[0].0 + s1) + fs[0].1) + s2));
        assert(valid_utf8((((fs[0].0 + s1) + fs[0].1) + s2) + render_fields(rest)));
        assert(render_fields(fs) == (((fs[0].0 + s1) + fs[0].1) + s2) + render_fields(rest));
    }
}

impl HttpRequestHeader {
    /// Construct a header carrying the standard fields, the caller's
    /// additions, and the given content length.
    pub fn create(
        route: String,
        verb: HttpVerb,
        content_type: String,
        addition_headers: HeaderMap,
        content_length: usize,
    ) -> (r: HttpRequestHeader)
        ensures
            r@ == (ReqHead {
                verb,
                route: encode_utf8(route@),
                version: encode_utf8("HTTP/1.1"@),
                content_length: content_length as int,
                fields: built_fields(
                    encode_utf8(content_type@),
                    content_length as int,
                    addition_headers@,
                ),
            }),
            r.headers.wf(),
    {
        let headers = build_headers(content_type, addition_headers, content_length);
        HttpRequestHeader {
            route,
            verb,
            content_length,
            headers,
            http_version: "HTTP/1.1".to_owned(),
        }
    }

    /// The rendering of a request header is valid UTF-8.
    pub proof fn lemma_render_valid(&self)
        ensures
            valid_utf8(render_req_head(self@)),
    {
        broadcast use vstd::utf8::valid_utf8_concat, vstd::utf8::encode_utf8_valid_utf8;

        lemma_verb_bytes_facts(self.verb);
        crate::text::lemma_ascii_decode(verb_bytes(self.verb));
        crate::text::lemma_ascii_decode(seq![32u8]);
        crate::text::lemma_ascii_decode(seq![13u8, 10u8]);
        self.headers.lemma_entries_utf8();
        lemma_render_fields_valid(self.headers@);
        let m = self@;
        let sp = seq![32u8];
        let nl = seq![13u8, 10u8];
        assert(valid_utf8(m.route));
        assert(valid_utf8(m.version));
        assert(valid_utf8(verb_bytes(m.verb) + sp));
        assert(valid_utf8((verb_bytes(m.verb) + sp) + m.route));
        assert(valid_utf8(((verb_bytes(m.verb) + sp) + m.route) + sp));
        assert(valid_utf8((((verb_bytes(m.verb) + sp) + m.route) + sp) + m.version));
        assert(valid_utf8(((((verb_bytes(m.verb) + sp) + m.route) + sp) + m.version) + nl));
        assert(valid_utf8((((((verb_bytes(m.verb) + sp) + m.route) + sp) + m.version) + nl)
            + render_fields(m.fields)));
        assert(valid_utf8(((((((verb_bytes(m.verb) + sp) + m.route) + sp) + m.version) + nl)
            + render_fields(m.fields)) + nl));
        assert(render_req_head(m) == ((((((verb_bytes(m.verb) + sp) + m.route) + sp) + m.version)
            + nl) + render_fields(m.fields)) + nl);
    }

    /// Wire bytes of the header: status line, one line per header field, and
    /// a final blank line.
    pub fn to_bytes(&self) -> (r: Vec<u8>)
        ensures
            r@ == render_req_head(self@),
    {
        let mut out: Vec<u8> = Vec::new();
        crate::text::push_bytes(&mut out, self.verb.get_str().as_bytes());
        out.push(32);
        crate::text::push_bytes(&mut out, self.route.as_str().as_bytes());
        out.push(32);
        crate::text::push_bytes(&mut out, self.http_version.as_str().as_bytes());
        out.push(13);
        out.push(10);
        let ghost start_part = out@;
        proof {
            assert(self@.fields.subrange(0, 0) =~= Seq::<(Seq<u8>, Seq<u8>)>::empty());
            assert(out@ =~= start_part + render_fields(self@.fields.subrange(0, 0)));
        }
        let n = self.headers.len();
        let mut i: usize = 0;
        while i < n
            invariant
                i <= n,
                n == self@.fields.len(),
                self@.fields == self.headers@,
                out@ == start_part + render_fields(self@.fields.subrange(0, i as int)),
            decreases n - i,
        {
            crate::text::push_bytes(&mut out, self.headers.key_at(i).as_str().as_bytes());
            out.push(58);
            out.push(32);
            crate::text::push_bytes(&mut out, self.headers.value_at(i).as_str().as_bytes());
            out.push(13);
            out.push(10);
            proof {
                let pre = self@.fields.subrange(0, i as int);
                let p = self@.fields[i as int];
                lemma_render_fields_snoc(pre, p);
                assert(pre.push(p) =~= self@.fields.subrange(0, i + 1));
                assert(out@ =~= start_part + render_fields(self@.fields.subrange(0, i + 1)));
            }
            i = i + 1;
        }
        out.push(13);
        out.push(10);
        proof {
            assert(self@.fields.subrange(0, n as int) =~= self@.fields);
            assert(out@ =~= render_req_head(self@));
        }
        out
    }

    /// The header as text: the decoding of its wire bytes.
    pub fn get_string(&self) -> (r: String)
        ensures
            r@ == decode_utf8(render_req_head(self@)),
    {
        let bytes = self.to_bytes();
        proof {
            self.lemma_render_valid();
        }
        crate::text::lossy_string(bytes.as_slice())
    }
}

/// Content length carried by an optional body.
pub open spec fn opt_len(b: Option<Vec<u8>>) -> int {
    match b {
        Some(v) => v@.len() as int,
        None => 0,
    }
}

impl HttpRequest {
    /// Construct a request; the content length is the body's length, and a
    /// zero-length body is treated as absent.
    pub fn create(
        route: String,
        verb: HttpVerb,
        content_type: String,
        addition_headers: HeaderMap,
        body: Option<Vec<u8>>,
    ) -> (r: HttpRequest)
        ensures
            r.header@ == (ReqHead {
                verb,
                route: encode_utf8(route@),
                version: encode_utf8("HTTP/1.1"@),
                content_length: opt_len(body),
                fields: built_fields(
                    encode_utf8(content_type@),
                    opt_len(body),
                    addition_headers@,
                ),
            }),
            body_view(r.body) == (if opt_len(body) == 0 {
                Option::<Seq<u8>>::None
            } else {
                body_view(body)
            }),
            r.wf(),
    {
        let len: usize = match &body {
            Option::None => 0,
            Option::Some(b) => b.len(),
        };
        let header = HttpRequestHeader::create(route, verb, content_type, addition_headers, len);
        let body_norm: Option<Vec<u8>> = if len == 0 {
            Option::None
        } else {
            body
        };
        HttpRequest { header, body: body_norm }
    }

    /// Wire bytes of the request: header bytes, then the body verbatim.
    pub fn to_bytes(&mut self) -> (r: Vec<u8>)
        ensures
            *final(self) == *old(self),
            r@ == render_message(render_req_head(old(self).header@), body_view(old(self).body)),
    {
        let mut out = self.header.to_bytes();
        match &self.body {
            Option::Some(b) => {
                crate::text::push_bytes(&mut out, b.as_slice());
            },
            Option::None => {
                proof {
                    assert(out@ =~= out@ + Seq::<u8>::empty());
                }
            },
        }
        out
    }
}


impl HttpResponseHeader {
    /// Construct a response header carrying the standard fields, the
    /// caller's additions, and the given content length.
    pub fn create(
        status: HttpStatus,
        content_type: String,
        addition_headers: HeaderMap,
        content_length: usize,
    ) -> (r: HttpResponseHeader)
        ensures
            r@ == (RespHead {
                status,
                version: encode_utf8("HTTP/1.1"@),
                content_length: content_length as int,
                fields: built_fields(
                    encode_utf8(content_type@),
                    content_length as int,
                    addition_headers@,
                ),
            }),
            r.headers.wf(),
    {
        let headers = build_headers(content_type, addition_headers, content_length);
        HttpResponseHeader {
            http_version: "HTTP/1.1".to_owned(),
            status,
            content_length,
            headers,
        }
    }

    /// The rendering of a response header is valid UTF-8.
    pub proof fn lemma_render_valid(&self)
        ensures
            valid_utf8(render_resp_head(self@)),
    {
        broadcast use vstd::utf8::valid_utf8_concat, vstd::utf8::encode_utf8_valid_utf8;

        let m = self@;
        let code = dec_digits(status_code(m.status));
        lemma_dec_digits(status_code(m.status));
        assert(ascii_seq(code)) by {
            assert(forall|i: int| 0 <= i < code.len() ==> crate::text::is_digit(
                #[trigger] code[i],
            ));
        }
        crate::text::lemma_ascii_decode(code);
        crate::text::lemma_ascii_decode(seq![32u8]);
        crate::text::lemma_ascii_decode(seq![13u8, 10u8]);
        self.headers.lemma_entries_utf8();
        lemma_render_fields_valid(self.headers@);
        let sp = seq![32u8];
        let nl = seq![13u8, 10u8];
        let reason = status_reason_bytes(m.status);
        assert(valid_utf8(m.version));
        assert(valid_utf8(reason));
        assert(valid_utf8(m.version + sp));
        assert(valid_utf8((m.version + sp) + code));
        assert(valid_utf8(((m.version + sp) + code) + sp));
        assert(valid_utf8((((m.version + sp) + code) + sp) + reason));
        assert(valid_utf8(((((m.version + sp) + code) + sp) + reason) + nl));
        assert(valid_utf8((((((m.version + sp) + code) + sp) + reason) + nl) + render_fields(
            m.fields,
        )));
        assert(valid_utf8(((((((m.version + sp) + code) + sp) + reason) + nl) + render_fields(
            m.fields,
        )) + nl));
        assert(render_resp_head(m) == ((((((m.version + sp) + code) + sp) + reason) + nl)
            + render_fields(m.fields)) + nl);
    }

    /// Wire bytes of the header: status line, one line per header field, and
    /// a final blank line.
    pub fn to_bytes(&self) -> (r: Vec<u8>)
        ensures
            r@ == render_resp_head(self@),
    {
        let mut out: Vec<u8> = Vec::new();
        crate::text::push_bytes(&mut out, self.http_version.as_str().as_bytes());
        out.push(32);
        let code = self.status.get_code();
        assert(code >= 0) by {
            assert(status_code(self.status) >= 0);
        }
        let code_digits = crate::text::format_usize(code as usize);
        crate::text::push_bytes(&mut out, code_digits.as_slice());
        out.push(32);
        crate::text::push_bytes(&mut out, self.status.get_str().as_bytes());
        out.push(13);
        out.push(10);
        let ghost start_part = out@;
        proof {
            assert(self@.fields.subrange(0, 0) =~= Seq::<(Seq<u8>, Seq<u8>)>::empty());
            assert(out@ =~= start_part + render_fields(self@.fields.subrange(0, 0)));
        }
        let n = self.headers.len();
        let mut i: usize = 0;
        while i < n
            invariant
                i <= n,
                n == self@.fields.len(),
                self@.fields == self.headers@,
                out@ == start_part + render_fields(self@.fields.subrange(0, i as int)),
            decreases n - i,
        {
            crate::text::push_bytes(&mut out, self.headers.key_at(i).as_str().as_bytes());
            out.push(58);
            out.push(32);
            crate::text::push_bytes(&mut out, self.headers.value_at(i).as_str().as_bytes());
            out.push(13);
            out.push(10);
            proof {
                let pre = self@.fields.subrange(0, i as int);
                let p = self@.fields[i as int];
                lemma_render_fields_snoc(pre, p);
                assert(pre.push(p) =~= self@.fields.subrange(0, i + 1));
                assert(out@ =~= start_part + render_fields(self@.fields.subrange(0, i + 1)));
            }
            i = i + 1;
        }
        out.push(13);
        out.push(10);
        proof {
            assert(self@.fields.subrange(0, n as int) =~= self@.fields);
            assert(out@ =~= render_resp_head(self@));
        }
        out
    }

    /// The header as text: the decoding of its wire bytes.
    pub fn get_string(&self) -> (r: String)
        ensures
            r@ == decode_utf8(render_resp_head(self@)),
    {
        let bytes = self.to_bytes();
        proof {
            self.lemma_render_valid();
        }
        crate::text::lossy_string(bytes.as_slice())
    }
}

impl HttpResponse {
    /// Construct a response; the content length is the body's length, and a
    /// zero-length body is treated as absent.
    pub fn create(
        status: HttpStatus,
        content_type: String,
        addition_headers: HeaderMap,
        body: Option<Vec<u8>>,
    ) -> (r: HttpResponse)
        ensures
            r.header@ == (RespHead {
                status,
                version: encode_utf8("HTTP/1.1"@),
                content_length: opt_len(body),
                fields: built_fields(
                    encode_utf8(content_type@),
                    opt_len(body),
                    addition_headers@,
                ),
            }),
            body_view(r.body) == (if opt_len(body) == 0 {
                Option::<Seq<u8>>::None
            } else {
                body_view(body)
            }),
            r.wf(),
    {
        let len: usize = match &body {
            Option::None => 0,
            Option::Some(b) => b.len(),
        };
        let header = HttpResponseHeader::create(status, content_type, addition_headers, len);
        let body_norm: Option<Vec<u8>> = if len == 0 {
            Option::None
        } else {
            body
        };
        HttpResponse { header, body: body_norm }
    }

    /// Wire bytes of the response: header bytes, then the body verbatim.
    pub fn to_bytes(&mut self) -> (r: Vec<u8>)
        ensures
            *final(self) == *old(self),
            r@ == render_message(render_resp_head(old(self).header@), body_view(old(self).body)),
    {
        let mut out = self.header.to_bytes();
        match &self.body {
            Option::Some(b) => {
                crate::text::push_bytes(&mut out, b.as_slice());
            },
            Option::None => {
                proof {
                    assert(out@ =~= out@ + Seq::<u8>::empty());
                }
            },
        }
        out
    }
}

} // verus!
