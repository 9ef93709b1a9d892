//! Parsing of HTTP messages from raw buffers: the specification of the
//! parse, the executable parsers, and the round-trip laws tying parsing to
//! serialization.
use vstd::prelude::*;

verus! {

use crate::text::{
    occurs_at, find_sub, split_by, join_by, free_of, ascii_seq, upper_bytes, usize_token,
    i16_token, lemma_find_sub_char, lemma_split_join, lemma_split_by_ascii, lemma_upper_ascii,
    lemma_ascii_decode, split_slice, views_of, to_upper, parse_usize, parse_i16, bytes_eq,
    subrange_vec, lossy_string,
};
use crate::http::{
    HttpVerb, HttpStatus, ParseError, HttpRequestHeader, HttpRequest, HttpResponseHeader,
    HttpResponse, HeaderMap, ReqHead, RespHead, verb_bytes, verb_from_token, status_from_code,
    map_insert, key_index, keys_distinct, lemma_key_index_char, body_view, render_req_head,
    render_resp_head, render_fields,
};
use vstd::utf8::{encode_utf8, decode_utf8, valid_utf8};

/// The CRLF line terminator.
pub open spec fn crlf() -> Seq<u8> {
    seq![13u8, 10u8]
}

/// The `": "` separator between a header key and its value.
pub open spec fn colon_sp() -> Seq<u8> {
    seq![58u8, 32u8]
}

/// A single space.
pub open spec fn sp() -> Seq<u8> {
    seq![32u8]
}

/// The blank line that ends a header section.
pub open spec fn crlfcrlf() -> Seq<u8> {
    seq![13u8, 10u8, 13u8, 10u8]
}

/// The normalized `CONTENT-LENGTH` key.
pub open spec fn content_length_key() -> Seq<u8> {
    seq![67u8, 79u8, 78u8, 84u8, 69u8, 78u8, 84u8, 45u8, 76u8, 69u8, 78u8, 71u8, 84u8, 72u8]
}

/// Fold one header line after another into the mapping: lines without the
/// key separator are ignored, keys are upper-cased, and a parsable
/// `CONTENT-LENGTH` value becomes the content length.
pub open spec fn fold_header_lines(
    lines: Seq<Seq<u8>>,
    acc: Seq<(Seq<u8>, Seq<u8>)>,
    cl: int,
) -> (Seq<(Seq<u8>, Seq<u8>)>, int)
    decreases lines.len(),
{
    if lines.len() == 0 {
        (acc, cl)
    } else {
        let pieces = split_by(lines[0], colon_sp());
        if pieces.len() > 1 {
            let k = upper_bytes(pieces[0]);
            let v = pieces[1];
            let cl2 = if k == content_length_key() && usize_token(v) is Some {
                usize_token(v)->0
            } else {
                cl
            };
            fold_header_lines(lines.drop_first(), map_insert(acc, k, v), cl2)
        } else {
            fold_header_lines(lines.drop_first(), acc, cl)
        }
    }
}

/// Parse the header section of a request (everything before the final LF of
/// the blank line) into its specification image.
pub open spec fn parse_req_head_text(text: Seq<u8>) -> Result<ReqHead, ParseError> {
    let lines = split_by(text, crlf());
    let toks = split_by(lines[0], sp());
    match verb_from_token(toks[0]) {
        Option::None => Err(ParseError::UnknownVerb),
        Option::Some(v) => if toks.len() < 3 {
            Err(ParseError::MalformedStatusLine)
        } else {
            let folded = fold_header_lines(lines.drop_first(), Seq::empty(), 0);
            Ok(
                ReqHead {
                    verb: v,
                    route: toks[1],
                    version: toks[2],
                    content_length: folded.1,
                    fields: folded.0,
                },
            )
        },
    }
}

/// Parse the header section of a response. The reason phrase after the code
/// is not examined.
pub open spec fn parse_resp_head_text(text: Seq<u8>) -> Result<RespHead, ParseError> {
    let lines = split_by(text, crlf());
    let toks = split_by(lines[0], sp());
    if toks.len() < 2 {
        Err(ParseError::MalformedStatusLine)
    } else {
        match i16_token(toks[1]) {
            Option::None => Err(ParseError::MalformedStatusLine),
            Option::Some(c) => match status_from_code(c) {
                Option::None => Err(ParseError::UnknownStatus),
                Option::Some(st) => {
                    let folded = fold_header_lines(lines.drop_first(), Seq::empty(), 0);
                    Ok(
                        RespHead {
                            status: st,
                            version: toks[0],
                            content_length: folded.1,
                            fields: folded.0,
                        },
                    )
                },
            },
        }
    }
}

/// Index of the first header-terminating blank line the scan accepts: the
/// start of the first CRLFCRLF at or after index 1, or -1 when none occurs.
pub open spec fn header_split(buf: Seq<u8>) -> int {
    if buf.len() < 1 {
        -1
    } else {
        let q = find_sub(buf.skip(1), crlfcrlf());
        if q < 0 {
            -1
        } else {
            q + 1
        }
    }
}

/// Parse a request header out of a read buffer: the header region is
/// everything up to the blank line, and the body starts right after it.
pub open spec fn parse_req_head(buf: Seq<u8>) -> Result<(ReqHead, int), ParseError> {
    let p = header_split(buf);
    if p < 0 {
        Err(ParseError::HeaderTooLarge)
    } else {
        match parse_req_head_text(buf.subrange(0, p + 3)) {
            Ok(m) => Ok((m, p + 4)),
            Err(e) => Err(e),
        }
    }
}

/// Parse a response header out of a read buffer.
pub open spec fn parse_resp_head(buf: Seq<u8>) -> Result<(RespHead, int), ParseError> {
    let p = header_split(buf);
    if p < 0 {
        Err(ParseError::HeaderTooLarge)
    } else {
        match parse_resp_head_text(buf.subrange(0, p + 3)) {
            Ok(m) => Ok((m, p + 4)),
            Err(e) => Err(e),
        }
    }
}

/// Parse a full request out of a read buffer: a declared body must lie
/// entirely within the buffer, else the parse fails rather than dropping it.
pub open spec fn parse_req_message(buf: Seq<u8>) -> Result<
    (ReqHead, Option<Seq<u8>>),
    ParseError,
> {
    match parse_req_head(buf) {
        Err(e) => Err(e),
        Ok((m, bs)) => if m.content_length == 0 {
            Ok((m, Option::None))
        } else if bs + m.content_length > buf.len() {
            Err(ParseError::BodyTooLarge)
        } else {
            Ok((m, Option::Some(buf.subrange(bs, bs + m.content_length))))
        },
    }
}

/// Find the header-terminating blank line in a buffer.
fn find_header_end(buf: &[u8]) -> (r: Option<usize>)
    ensures
        match r {
            Some(p) => header_split(buf@) == p as int && 1 <= p && p + 4 <= buf@.len(),
            None => header_split(buf@) == -1,
        },
{
    if buf.len() < 1 {
        return None;
    }
    let mut pat: Vec<u8> = Vec::new();
    pat.push(13);
    pat.push(10);
    pat.push(13);
    pat.push(10);
    assert(pat@ =~= crlfcrlf());
    let ghost tail = buf@.skip(1);
    proof {
        lemma_find_sub_char(tail, crlfcrlf());
    }
    let r = crate::text::find_pattern_from(buf, pat.as_slice(), 1);
    match r {
        Some(p) => {
            proof {
                assert(occurs_at(tail, crlfcrlf(), p - 1)) by {
                    assert(tail.subrange(p - 1, p - 1 + 4) =~= buf@.subrange(p as int, p + 4));
                }
                assert forall|j: int| 0 <= j < p - 1 implies !occurs_at(tail, crlfcrlf(), j) by {
                    if occurs_at(tail, crlfcrlf(), j) {
                        assert(buf@.subrange(j + 1, j + 1 + 4) =~= tail.subrange(j, j + 4));
                        assert(occurs_at(buf@, crlfcrlf(), j + 1));
                    }
                }
                let f = find_sub(tail, crlfcrlf());
                if f < 0 {
                    assert(occurs_at(tail, crlfcrlf(), p - 1));
                } else if f < p - 1 {
                    assert(!occurs_at(tail, crlfcrlf(), f));
                } else if f > p - 1 {
                    assert(!occurs_at(tail, crlfcrlf(), p - 1));
                }
            }
            Some(p)
        },
        None => {
            proof {
                assert forall|j: int| 0 <= j implies !occurs_at(tail, crlfcrlf(), j) by {
                    if occurs_at(tail, crlfcrlf(), j) {
                        assert(buf@.subrange(j + 1, j + 1 + 4) =~= tail.subrange(j, j + 4));
                        assert(occurs_at(buf@, crlfcrlf(), j + 1));
                    }
                }
            }
            None
        },
    }
}


/// The `CONTENT-LENGTH` key as a vector.
fn content_length_key_vec() -> (r: Vec<u8>)
    ensures
        r@ == content_length_key(),
{
    let mut v: Vec<u8> = Vec::new();
    v.push(67);
    v.push(79);
    v.push(78);
    v.push(84);
    v.push(69);
    v.push(78);
    v.push(84);
    v.push(45);
    v.push(76);
    v.push(69);
    v.push(78);
    v.push(71);
    v.push(84);
    v.push(72);
    assert(v@ =~= content_length_key());
    v
}

/// Parse the bytes of a request header section. The outcome and the numeric
/// fields follow the parse specification exactly; the string fields do so
/// whenever the region is ASCII.
fn parse_req_text(region: &[u8]) -> (r: Result<HttpRequestHeader, ParseError>)
    ensures
        match r {
            Ok(h) => parse_req_head_text(region@) matches Ok(m) && h@.verb == m.verb
                && h@.content_length == m.content_length && h.headers.wf() && (ascii_seq(region@)
                ==> h@ == m),
            Err(e) => parse_req_head_text(region@) == Err::<ReqHead, ParseError>(e),
        },
{
    let mut crlf_pat: Vec<u8> = Vec::new();
    crlf_pat.push(13);
    crlf_pat.push(10);
    assert(crlf_pat@ =~= crlf());
    let mut sp_pat: Vec<u8> = Vec::new();
    sp_pat.push(32);
    assert(sp_pat@ =~= sp());
    let mut colon_pat: Vec<u8> = Vec::new();
    colon_pat.push(58);
    colon_pat.push(32);
    assert(colon_pat@ =~= colon_sp());

    let lines = split_slice(region, crlf_pat.as_slice());
    let ghost lv = split_by(region@, crlf());
    assert(views_of(lines@) == lv);
    assert(lines@[0]@ == lv[0]);
    let toks = split_slice(lines[0].as_slice(), sp_pat.as_slice());
    let ghost tv = split_by(lv[0], sp());
    assert(views_of(toks@) == tv);
    assert(toks@[0]@ == tv[0]);
    let verb = match crate::http::verb_of_bytes(toks[0].as_slice()) {
        Option::Some(v) => v,
        Option::None => {
            return Err(ParseError::UnknownVerb);
        },
    };
    if toks.len() < 3 {
        return Err(ParseError::MalformedStatusLine);
    }
    assert(toks@[1]@ == tv[1] && toks@[2]@ == tv[2]);
    let route = lossy_string(toks[1].as_slice());
    let version = lossy_string(toks[2].as_slice());
    proof {
        if ascii_seq(region@) {
            lemma_split_by_ascii(region@, crlf());
            lemma_split_by_ascii(lv[0], sp());
            lemma_ascii_decode(tv[1]);
            lemma_ascii_decode(tv[2]);
        }
    }

    let cl_key = content_length_key_vec();
    let mut headers = HeaderMap::new();
    let mut cl: usize = 0;
    let ghost folded = fold_header_lines(lv.drop_first(), Seq::empty(), 0);
    let ghost mut acc = Seq::<(Seq<u8>, Seq<u8>)>::empty();
    let ghost mut gcl = 0int;
    proof {
        assert(lv.drop_first() =~= lv.subrange(1, lv.len() as int));
    }
    let mut i: usize = 1;
    while i < lines.len()
        invariant
            1 <= i <= lines@.len(),
            lines@.len() == lv.len(),
            views_of(lines@) == lv,
            cl_key@ == content_length_key(),
            colon_pat@ == colon_sp(),
            fold_header_lines(lv.subrange(i as int, lv.len() as int), acc, gcl) == folded,
            cl as int == gcl,
            headers.wf(),
            ascii_seq(region@) ==> headers@ == acc,
            ascii_seq(region@) ==> (forall|k: int| 0 <= k < lv.len() ==> ascii_seq(
                #[trigger] lv[k],
            )),
        decreases lines@.len() - i,
    {
        let ghost rest = lv.subrange(i as int, lv.len() as int);
        let ghost line = lv[i as int];
        assert(rest[0] == line);
        assert(lines@[i as int]@ == line);
        let ghost pieces = split_by(line, colon_sp());
        let piece_list = split_slice(lines[i].as_slice(), colon_pat.as_slice());
        assert(views_of(piece_list@) == pieces);
        if piece_list.len() > 1 {
            assert(piece_list@[0]@ == pieces[0] && piece_list@[1]@ == pieces[1]);
            let ku = to_upper(piece_list[0].as_slice());
            assert(ku@ == upper_bytes(pieces[0]));
            if bytes_eq(ku.as_slice(), cl_key.as_slice()) {
                match parse_usize(piece_list[1].as_slice()) {
                    Option::Some(n) => {
                        cl = n;
                    },
                    Option::None => {},
                }
            }
            let key_s = lossy_string(ku.as_slice());
            let val_s = lossy_string(piece_list[1].as_slice());
            proof {
                if ascii_seq(region@) {
                    lemma_split_by_ascii(line, colon_sp());
                    lemma_upper_ascii(pieces[0]);
                    lemma_ascii_decode(ku@);
                    lemma_ascii_decode(pieces[1]);
                }
            }
            headers.insert(key_s, val_s);
            proof {
                let k = upper_bytes(pieces[0]);
                let v = pieces[1];
                gcl = if k == content_length_key() && usize_token(v) is Some {
                    usize_token(v)->0
                } else {
                    gcl
                };
                acc = map_insert(acc, k, v);
            }
        }
        proof {
            assert(rest.drop_first() =~= lv.subrange(i + 1, lv.len() as int));
        }
        i = i + 1;
    }
    proof {
        assert(lv.subrange(lv.len() as int, lv.len() as int) =~= Seq::<Seq<u8>>::empty());
        assert(fold_header_lines(Seq::empty(), acc, gcl) == folded);
    }
    let h = HttpRequestHeader {
        route,
        verb,
        content_length: cl,
        headers,
        http_version: version,
    };
    Ok(h)
}

impl HttpRequestHeader {
    /// Parse a request header out of a full read buffer, returning it with
    /// the index at which the body starts.
    pub fn create_from_buffer(buffer: &[u8]) -> (r: Result<
        (HttpRequestHeader, usize),
        ParseError,
    >)
        requires
            buffer@.len() == 4096,
        ensures
            match r {
                Ok((h, bs)) => parse_req_head(buffer@) matches Ok((m, sbs)) && bs as int == sbs
                    && 5 <= bs <= buffer@.len() && h@.verb == m.verb && h@.content_length
                    == m.content_length && h.headers.wf() && (ascii_seq(
                    buffer@.subrange(0, bs - 1),
                ) ==> h@ == m),
                Err(e) => parse_req_head(buffer@) == Err::<(ReqHead, int), ParseError>(e),
            },
    {
        match find_header_end(buffer) {
            Option::None => Err(ParseError::HeaderTooLarge),
            Option::Some(p) => {
                let region = subrange_vec(buffer, 0, p + 3);
                match parse_req_text(region.as_slice()) {
                    Ok(h) => Ok((h, p + 4)),
                    Err(e) => Err(e),
                }
            },
        }
    }

    /// Parse a request header from its text. The text is examined through
    /// its UTF-8 bytes.
    pub fn parse_from_string(data: String) -> (r: Result<HttpRequestHeader, ParseError>)
        ensures
            match r {
                Ok(h) => parse_req_head_text(encode_utf8(data@)) matches Ok(m) && h@.verb
                    == m.verb && h@.content_length == m.content_length && h.headers.wf() && (
                ascii_seq(encode_utf8(data@)) ==> h@ == m),
                Err(e) => parse_req_head_text(encode_utf8(data@)) == Err::<ReqHead, ParseError>(e),
            },
    {
        parse_req_text(data.as_str().as_bytes())
    }
}

impl HttpRequest {
    /// Parse a full request out of a read buffer. A body that would extend
    /// past the buffer is an error rather than silently dropped.
    pub fn from_buffer(buffer: &[u8]) -> (r: Result<HttpRequest, ParseError>)
        requires
            buffer@.len() == 4096,
        ensures
            match r {
                Ok(rq) => parse_req_message(buffer@) matches Ok((m, b)) && rq.header@.verb
                    == m.verb && rq.header@.content_length == m.content_length
                    && body_view(rq.body) == b && rq.wf() && rq.header.headers.wf(),
                Err(e) => parse_req_message(buffer@) == Err::<(ReqHead, Option<Seq<u8>>), ParseError>(e),
            },
    {
        let (header, body_start) = match HttpRequestHeader::create_from_buffer(buffer) {
            Ok(hb) => hb,
            Err(e) => {
                return Err(e);
            },
        };
        if header.content_length == 0 {
            return Ok(HttpRequest { header, body: Option::None });
        }
        if header.content_length > 4096 - body_start {
            return Err(ParseError::BodyTooLarge);
        }
        let body = subrange_vec(buffer, body_start, body_start + header.content_length);
        Ok(HttpRequest { header, body: Option::Some(body) })
    }
}


/// Parse the bytes of a response header section. The outcome and the
/// numeric fields follow the parse specification exactly; the string fields
/// do so whenever the region is ASCII.
fn parse_resp_text(region: &[u8]) -> (r: Result<HttpResponseHeader, ParseError>)
    ensures
        match r {
            Ok(h) => parse_resp_head_text(region@) matches Ok(m) && h@.status == m.status
                && h@.content_length == m.content_length && h.headers.wf() && (ascii_seq(region@)
                ==> h@ == m),
            Err(e) => parse_resp_head_text(region@) == Err::<RespHead, ParseError>(e),
        },
{
    let mut crlf_pat: Vec<u8> = Vec::new();
    crlf_pat.push(13);
    crlf_pat.push(10);
    assert(crlf_pat@ =~= crlf());
    let mut sp_pat: Vec<u8> = Vec::new();
    sp_pat.push(32);
    assert(sp_pat@ =~= sp());
    let mut colon_pat: Vec<u8> = Vec::new();
    colon_pat.push(58);
    colon_pat.push(32);
    assert(colon_pat@ =~= colon_sp());

    let lines = split_slice(region, crlf_pat.as_slice());
    let ghost lv = split_by(region@, crlf());
    assert(views_of(lines@) == lv);
    assert(lines@[0]@ == lv[0]);
    let toks = split_slice(lines[0].as_slice(), sp_pat.as_slice());
    let ghost tv = split_by(lv[0], sp());
    assert(views_of(toks@) == tv);
    if toks.len() < 2 {
        return Err(ParseError::MalformedStatusLine);
    }
    assert(toks@[0]@ == tv[0] && toks@[1]@ == tv[1]);
    let code = match parse_i16(toks[1].as_slice()) {
        Option::Some(c) => c,
        Option::None => {
            return Err(ParseError::MalformedStatusLine);
        },
    };
    let status = match HttpStatus::from_code(code) {
        Ok(st) => st,
        Err(e) => {
            return Err(e);
        },
    };
    let version = lossy_string(toks[0].as_slice());
    proof {
        if ascii_seq(region@) {
            lemma_split_by_ascii(region@, crlf());
            lemma_split_by_ascii(lv[0], sp());
            lemma_ascii_decode(tv[0]);
        }
    }

    let cl_key = content_length_key_vec();
    let mut headers = HeaderMap::new();
    let mut cl: usize = 0;
    let ghost folded = fold_header_lines(lv.drop_first(), Seq::empty(), 0);
    let ghost mut acc = Seq::<(Seq<u8>, Seq<u8>)>::empty();
    let ghost mut gcl = 0int;
    proof {
        assert(lv.drop_first() =~= lv.subrange(1, lv.len() as int));
    }
    let mut i: usize = 1;
    while i < lines.len()
        invariant
            1 <= i <= lines@.len(),
            lines@.len() == lv.len(),
            views_of(lines@) == lv,
            cl_key@ == content_length_key(),
            colon_pat@ == colon_sp(),
            fold_header_lines(lv.subrange(i as int, lv.len() as int), acc, gcl) == folded,
            cl as int == gcl,
            headers.wf(),
            ascii_seq(region@) ==> headers@ == acc,
            ascii_seq(region@) ==> (forall|k: int| 0 <= k < lv.len() ==> ascii_seq(
                #[trigger] lv[k],
            )),
        decreases lines@.len() - i,
    {
        let ghost rest = lv.subrange(i as int, lv.len() as int);
        let ghost line = lv[i as int];
        assert(rest[0] == line);
        assert(lines@[i as int]@ == line);
        let ghost pieces = split_by(line, colon_sp());
        let piece_list = split_slice(lines[i].as_slice(), colon_pat.as_slice());
        assert(views_of(piece_list@) == pieces);
        if piece_list.len() > 1 {
            assert(piece_list@[0]@ == pieces[0] && piece_list@[1]@ == pieces[1]);
            let ku = to_upper(piece_list[0].as_slice());
            assert(ku@ == upper_bytes(pieces[0]));
            if bytes_eq(ku.as_slice(), cl_key.as_slice()) {
                match parse_usize(piece_list[1].as_slice()) {
                    Option::Some(n) => {
                        cl = n;
                    },
                    Option::None => {},
                }
            }
            let key_s = lossy_string(ku.as_slice());
            let val_s = lossy_string(piece_list[1].as_slice());
            proof {
                if ascii_seq(region@) {
                    lemma_split_by_ascii(line, colon_sp());
                    lemma_upper_ascii(pieces[0]);
                    lemma_ascii_decode(ku@);
                    lemma_ascii_decode(pieces[1]);
                }
            }
            headers.insert(key_s, val_s);
            proof {
                let k = upper_bytes(pieces[0]);
                let v = pieces[1];
                gcl = if k == content_length_key() && usize_token(v) is Some {
                    usize_token(v)->0
                } else {
                    gcl
                };
                acc = map_insert(acc, k, v);
            }
        }
        proof {
            assert(rest.drop_first() =~= lv.subrange(i + 1, lv.len() as int));
        }
        i = i + 1;
    }
    proof {
        assert(lv.subrange(lv.len() as int, lv.len() as int) =~= Seq::<Seq<u8>>::empty());
        assert(fold_header_lines(Seq::empty(), acc, gcl) == folded);
    }
    let h = HttpResponseHeader {
        http_version: version,
        status,
        content_length: cl,
        headers,
    };
    Ok(h)
}

impl HttpResponseHeader {
    /// Parse a response header out of a full read buffer, returning it with
    /// the index at which the body starts.
    pub fn create_from_buffer(buffer: &[u8]) -> (r: Result<
        (HttpResponseHeader, usize),
        ParseError,
    >)
        requires
            buffer@.len() == 4096,
        ensures
            match r {
                Ok((h, bs)) => parse_resp_head(buffer@) matches Ok((m, sbs)) && bs as int == sbs
                    && 5 <= bs <= buffer@.len() && h@.status == m.status && h@.content_length
                    == m.content_length && h.headers.wf() && (ascii_seq(
                    buffer@.subrange(0, bs - 1),
                ) ==> h@ == m),
                Err(e) => parse_resp_head(buffer@) == Err::<(RespHead, int), ParseError>(e),
            },
    {
        match find_header_end(buffer) {
            Option::None => Err(ParseError::HeaderTooLarge),
            Option::Some(p) => {
                let region = subrange_vec(buffer, 0, p + 3);
                match parse_resp_text(region.as_slice()) {
                    Ok(h) => Ok((h, p + 4)),
                    Err(e) => Err(e),
                }
            },
        }
    }

    /// Parse a response header from its text. The text is examined through
    /// its UTF-8 bytes.
    pub fn parse_from_string(data: String) -> (r: Result<HttpResponseHeader, ParseError>)
        ensures
            match r {
                Ok(h) => parse_resp_head_text(encode_utf8(data@)) matches Ok(m) && h@.status
                    == m.status && h@.content_length == m.content_length && h.headers.wf() && (
                ascii_seq(encode_utf8(data@)) ==> h@ == m),
                Err(e) => parse_resp_head_text(encode_utf8(data@)) == Err::<
                    RespHead,
                    ParseError,
                >(e),
            },
    {
        parse_resp_text(data.as_str().as_bytes())
    }
}

/// Outcome of parsing a response from one read: either the message is
/// complete, or only the header section arrived and the body must be read
/// separately.
pub enum ResponseRead {
    Complete(HttpResponse),
    NeedsBody(HttpResponseHeader),
}

impl HttpResponse {
    /// Parse a response out of a read buffer into which `read` bytes were
    /// read. When the read ended exactly at the header boundary, the body is
    /// still in flight and must be attached from a second read.
    pub fn from_buffer(buffer: &[u8], read: usize) -> (r: Result<ResponseRead, ParseError>)
        requires
            buffer@.len() == 4096,
            read <= 4096,
        ensures
            match r {
                Ok(rr) => parse_resp_head(buffer@) matches Ok((m, bs)) && (match rr {
                    ResponseRead::Complete(resp) => resp.header@.status == m.status
                        && resp.header@.content_length == m.content_length && resp.wf() && (
                    if m.content_length == 0 {
                        body_view(resp.body) == Option::<Seq<u8>>::None
                    } else {
                        read != bs && body_view(resp.body) == Option::Some(
                            buffer@.subrange(bs, bs + m.content_length),
                        )
                    }),
                    ResponseRead::NeedsBody(h) => h@.status == m.status && h@.content_length
                        == m.content_length && m.content_length > 0 && read == bs,
                }),
                Err(e) => parse_resp_head(buffer@) matches Err(pe) && pe == e || (
                parse_resp_head(buffer@) matches Ok((m, bs)) && e == ParseError::BodyTooLarge
                    && bs + m.content_length > buffer@.len() && m.content_length > 0),
            },
    {
        let (header, body_start) = match HttpResponseHeader::create_from_buffer(buffer) {
            Ok(hb) => hb,
            Err(e) => {
                return Err(e);
            },
        };
        if header.content_length == 0 {
            return Ok(ResponseRead::Complete(HttpResponse { header, body: Option::None }));
        }
        if header.content_length > 4096 - body_start {
            return Err(ParseError::BodyTooLarge);
        }
        if read == body_start {
            return Ok(ResponseRead::NeedsBody(header));
        }
        let body = subrange_vec(buffer, body_start, body_start + header.content_length);
        Ok(ResponseRead::Complete(HttpResponse { header, body: Option::Some(body) }))
    }

    /// Attach a body read separately to a header whose first read ended at
    /// the header boundary: the body is the first `content_length` bytes of
    /// the second buffer.
    pub fn with_body(header: HttpResponseHeader, buffer: &[u8]) -> (r: HttpResponse)
        requires
            0 < header.content_length <= buffer@.len(),
        ensures
            r.header == header,
            body_view(r.body) == Option::Some(
                buffer@.subrange(0, header.content_length as int),
            ),
            r.wf(),
    {
        let body = subrange_vec(buffer, 0, header.content_length);
        HttpResponse { header, body: Option::Some(body) }
    }
}


/// The sequence holds no carriage return and no line feed.
pub open spec fn crlf_free(s: Seq<u8>) -> bool {
    forall|i: int| 0 <= i < s.len() ==> s[i] != 13 && s[i] != 10
}

/// A token that may stand in a status line: no CR, LF or space.
pub open spec fn status_token(s: Seq<u8>) -> bool {
    forall|i: int| 0 <= i < s.len() ==> s[i] != 13 && s[i] != 10 && s[i] != 32
}

/// A sequence without CR holds no occurrence of a pattern starting with CR.
proof fn lemma_crlf_free_no_occurrence(s: Seq<u8>, pat: Seq<u8>)
    requires
        crlf_free(s),
        pat.len() >= 1,
        pat[0] == 13,
    ensures
        free_of(s, pat),
{
    assert forall|j: int| !occurs_at(s, pat, j) by {
        if occurs_at(s, pat, j) {
            assert(s.subrange(j, j + pat.len() as int)[0] == s[j]);
            assert(s[j] == 13);
        }
    }
}

/// A status-line token holds no space, CR or LF, hence no separator.
proof fn lemma_status_token_free(s: Seq<u8>)
    requires
        status_token(s),
    ensures
        free_of(s, sp()),
        crlf_free(s),
{
    assert forall|j: int| !occurs_at(s, sp(), j) by {
        if occurs_at(s, sp(), j) {
            assert(s.subrange(j, j + 1)[0] == s[j]);
            assert(s[j] == 32);
        }
    }
}

/// Joining one more piece on the right.
proof fn lemma_join_snoc(pieces: Seq<Seq<u8>>, x: Seq<u8>, pat: Seq<u8>)
    requires
        pieces.len() >= 1,
    ensures
        join_by(pieces.push(x), pat) == join_by(pieces, pat) + pat + x,
    decreases pieces.len(),
{
    if pieces.len() == 1 {
        assert(pieces.push(x).drop_first() =~= seq![x]);
        assert(join_by(pieces.push(x), pat) == pieces[0] + pat + join_by(seq![x], pat));
        assert(join_by(seq![x], pat) == x);
    } else {
        lemma_join_snoc(pieces.drop_first(), x, pat);
        assert(pieces.push(x).drop_first() =~= pieces.drop_first().push(x));
        assert(join_by(pieces.push(x), pat) == pieces[0] + pat + (join_by(pieces.drop_first(), pat)
            + pat + x));
        assert(pieces[0] + pat + ((join_by(pieces.drop_first(), pat) + pat) + x) =~= ((pieces[0]
            + pat + join_by(pieces.drop_first(), pat)) + pat) + x);
    }
}

/// In the rendering of non-empty CRLF-free pieces joined by CRLF and closed
/// by a blank line, the first CRLFCRLF is exactly at the end.
proof fn lemma_first_blank(pieces: Seq<Seq<u8>>)
    requires
        pieces.len() >= 1,
        forall|k: int| 0 <= k < pieces.len() ==> (#[trigger] pieces[k]).len() > 0 && crlf_free(
            pieces[k],
        ),
    ensures
        ({
            let s = join_by(pieces, crlf()) + crlfcrlf();
            &&& s.len() >= 5
            &&& occurs_at(s, crlfcrlf(), s.len() - 4)
            &&& forall|j: int| 0 <= j < s.len() - 4 ==> !occurs_at(s, crlfcrlf(), j)
        }),
    decreases pieces.len(),
{
    let s = join_by(pieces, crlf()) + crlfcrlf();
    if pieces.len() == 1 {
        let p0 = pieces[0];
        assert(crlf_free(p0));
        assert(join_by(pieces, crlf()) == p0);
        let n = p0.len() as int;
        assert(s.len() == n + 4);
        assert(occurs_at(s, crlfcrlf(), n)) by {
            assert(s.subrange(n, n + 4) =~= crlfcrlf());
        }
        assert forall|j: int| 0 <= j < n implies !occurs_at(s, crlfcrlf(), j) by {
            if occurs_at(s, crlfcrlf(), j) {
                assert(s.subrange(j, j + 4)[0] == s[j]);
                assert(s[j] == p0[j]);
                assert(s[j] == 13);
            }
        }
    } else {
        let p0 = pieces[0];
        let rest = pieces.drop_first();
        lemma_first_blank(rest);
        let s2 = join_by(rest, crlf()) + crlfcrlf();
        let a = p0.len() as int;
        assert(join_by(pieces, crlf()) == p0 + crlf() + join_by(rest, crlf()));
        assert(s =~= (p0 + crlf()) + s2) by {
            assert(((p0 + crlf()) + join_by(rest, crlf())) + crlfcrlf() =~= (p0 + crlf()) + (
            join_by(rest, crlf()) + crlfcrlf()));
        }
        assert(s.len() == a + 2 + s2.len());
        assert(rest[0].len() > 0 && crlf_free(rest[0]));
        assert(s2[0] == rest[0][0]) by {
            if rest.len() == 1 {
                assert(join_by(rest, crlf()) == rest[0]);
            } else {
                assert(join_by(rest, crlf()) == rest[0] + crlf() + join_by(
                    rest.drop_first(),
                    crlf(),
                ));
            }
        }
        assert(s2[0] != 13);
        let t = s2.len() - 4;
        assert(occurs_at(s2, crlfcrlf(), t));
        assert(occurs_at(s, crlfcrlf(), a + 2 + t)) by {
            assert(s.subrange(a + 2 + t, a + 2 + t + 4) =~= s2.subrange(t, t + 4));
        }
        assert forall|j: int| 0 <= j < s.len() - 4 implies !occurs_at(s, crlfcrlf(), j) by {
            if occurs_at(s, crlfcrlf(), j) {
                if j < a {
                    assert(s.subrange(j, j + 4)[0] == s[j]);
                    assert(s[j] == p0[j]);
                    assert(s[j] == 13);
                } else if j == a {
                    assert(s.subrange(j, j + 4)[2] == s[j + 2]);
                    assert(s[a + 2] == s2[0]);
                    assert(s[j + 2] == 13);
                } else if j == a + 1 {
                    assert(s.subrange(j, j + 4)[0] == s[j]);
                    assert(s[a + 1] == 10);
                    assert(s[j] == 13);
                } else {
                    assert(occurs_at(s2, crlfcrlf(), j - a - 2)) by {
                        assert(s2.subrange(j - a - 2, j - a - 2 + 4) =~= s.subrange(j, j + 4));
                    }
                    assert(j - a - 2 < s2.len() - 4);
                    assert(!occurs_at(s2, crlfcrlf(), j - a - 2));
                }
            }
        }
    }
}


/// The rendered `Key: Value` line of one field.
pub open spec fn line_of(p: (Seq<u8>, Seq<u8>)) -> Seq<u8> {
    p.0 + colon_sp() + p.1
}

/// The rendered lines of a field sequence.
pub open spec fn lines_of(fs: Seq<(Seq<u8>, Seq<u8>)>) -> Seq<Seq<u8>> {
    Seq::new(fs.len(), |i: int| line_of(fs[i]))
}

/// The rendering of a header equals its lines joined by CRLF and closed by
/// the blank line.
proof fn lemma_render_join(x: Seq<u8>, fs: Seq<(Seq<u8>, Seq<u8>)>)
    ensures
        join_by(seq![x] + lines_of(fs), crlf()) + crlfcrlf() == ((x + crlf())
            + render_fields(fs)) + crlf(),
    decreases fs.len(),
{
    if fs.len() == 0 {
        assert(lines_of(fs) =~= Seq::<Seq<u8>>::empty());
        assert(seq![x] + lines_of(fs) =~= seq![x]);
        assert(join_by(seq![x], crlf()) == x);
        assert(x + crlfcrlf() =~= ((x + crlf()) + render_fields(fs)) + crlf());
    } else {
        let l0 = line_of(fs[0]);
        let rest = fs.drop_first();
        let pieces = seq![x] + lines_of(fs);
        assert(pieces.len() >= 2);
        assert(pieces[0] == x);
        assert(pieces.drop_first() =~= seq![l0] + lines_of(rest)) by {
            assert forall|i: int| 0 <= i < pieces.drop_first().len() implies pieces.drop_first()[i]
                == (seq![l0] + lines_of(rest))[i] by {
                if i > 0 {
                    assert(pieces.drop_first()[i] == line_of(fs[i]));
                    assert((seq![l0] + lines_of(rest))[i] == line_of(rest[i - 1]));
                    assert(rest[i - 1] == fs[i]);
                }
            }
        }
        assert(join_by(pieces, crlf()) == x + crlf() + join_by(seq![l0] + lines_of(rest), crlf()));
        lemma_render_join(l0, rest);
        let jr = join_by(seq![l0] + lines_of(rest), crlf());
        assert(join_by(pieces, crlf()) + crlfcrlf() =~= (x + crlf()) + (jr + crlfcrlf())) by {
            assert(((x + crlf()) + jr) + crlfcrlf() =~= (x + crlf()) + (jr + crlfcrlf()));
        }
        assert(jr + crlfcrlf() == ((l0 + crlf()) + render_fields(rest)) + crlf());
        assert(render_fields(fs) == fs[0].0 + colon_sp() + fs[0].1 + crlf()
            + render_fields(rest));
        assert((x + crlf()) + (((l0 + crlf()) + render_fields(rest)) + crlf()) =~= ((x
            + crlf()) + render_fields(fs)) + crlf());
    }
}

/// The content length that folding a field sequence leaves behind, starting
/// from `cl`: the value of the last parsable `CONTENT-LENGTH` entry.
pub open spec fn fields_content_length(fs: Seq<(Seq<u8>, Seq<u8>)>, cl: int) -> int
    decreases fs.len(),
{
    if fs.len() == 0 {
        cl
    } else {
        let cl2 = if fs[0].0 == content_length_key() && usize_token(fs[0].1) is Some {
            usize_token(fs[0].1)->0
        } else {
            cl
        };
        fields_content_length(fs.drop_first(), cl2)
    }
}

/// A header field that the codec reproduces exactly: CRLF-free, free of the
/// key separator, and with an already-normalized key.
pub open spec fn field_round_trippable(p: (Seq<u8>, Seq<u8>)) -> bool {
    &&& crlf_free(p.0)
    &&& crlf_free(p.1)
    &&& free_of(p.0, colon_sp())
    &&& free_of(p.1, colon_sp())
    &&& upper_bytes(p.0) == p.0
}

/// Folding the rendered lines of round-trippable fields (closed by the
/// stray CR left from the blank line) reproduces the fields and their
/// content length.
proof fn lemma_fold_render(fs: Seq<(Seq<u8>, Seq<u8>)>, acc: Seq<(Seq<u8>, Seq<u8>)>, cl: int)
    requires
        forall|k: int| 0 <= k < fs.len() ==> field_round_trippable(#[trigger] fs[k]),
        keys_distinct(fs),
        forall|k: int| 0 <= k < fs.len() ==> key_index(acc, #[trigger] fs[k].0) < 0,
    ensures
        fold_header_lines(lines_of(fs).push(seq![13u8]), acc, cl) == (acc + fs,
        fields_content_length(fs, cl)),
    decreases fs.len(),
{
    if fs.len() == 0 {
        let lines = lines_of(fs).push(seq![13u8]);
        assert(lines =~= seq![seq![13u8]]);
        assert(lines[0] == seq![13u8]);
        assert(find_sub(seq![13u8], colon_sp()) == -1);
        assert(split_by(seq![13u8], colon_sp()) == seq![seq![13u8]]);
        assert(lines.drop_first() =~= Seq::<Seq<u8>>::empty());
        assert(fold_header_lines(Seq::<Seq<u8>>::empty(), acc, cl) == (acc, cl));
        assert(fold_header_lines(lines, acc, cl) == (acc, cl));
        assert(acc + fs =~= acc);
    } else {
        let p = fs[0];
        let l0 = line_of(p);
        let rest = fs.drop_first();
        let lines = lines_of(fs).push(seq![13u8]);
        assert(lines[0] == l0);
        crate::text::lemma_split_step(p.0, p.1, colon_sp());
        assert(split_by(p.1, colon_sp()) == seq![p.1]) by {
            crate::text::lemma_find_sub_char(p.1, colon_sp());
            assert(find_sub(p.1, colon_sp()) == -1);
        }
        assert(l0 =~= p.0 + colon_sp() + p.1);
        assert(split_by(l0, colon_sp()) == seq![p.0] + seq![p.1]);
        let pieces = split_by(l0, colon_sp());
        assert(pieces.len() == 2);
        assert(pieces[0] == p.0 && pieces[1] == p.1);
        assert(upper_bytes(pieces[0]) == p.0);
        let cl2 = if p.0 == content_length_key() && usize_token(p.1) is Some {
            usize_token(p.1)->0
        } else {
            cl
        };
        let acc2 = map_insert(acc, p.0, p.1);
        assert(acc2 == acc.push(p)) by {
            lemma_key_index_char(acc, p.0);
            assert(key_index(acc, p.0) < 0);
            assert((p.0, p.1) == p);
        }
        assert(lines.drop_first() =~= lines_of(rest).push(seq![13u8])) by {
            assert forall|i: int| 0 <= i < lines.drop_first().len() implies lines.drop_first()[i]
                == lines_of(rest).push(seq![13u8])[i] by {
                if i < rest.len() {
                    assert(lines.drop_first()[i] == line_of(fs[i + 1]));
                    assert(rest[i] == fs[i + 1]);
                }
            }
        }
        assert forall|k: int| 0 <= k < rest.len() implies field_round_trippable(
            #[trigger] rest[k],
        ) && key_index(acc2, rest[k].0) < 0 by {
            assert(rest[k] == fs[k + 1]);
            assert(field_round_trippable(fs[k + 1]));
            lemma_key_index_char(acc2, rest[k].0);
            if key_index(acc2, rest[k].0) >= 0 {
                let ix = key_index(acc2, rest[k].0);
                assert(acc2[ix].0 == rest[k].0);
                if ix < acc.len() {
                    lemma_key_index_char(acc, fs[k + 1].0);
                    assert(acc[ix].0 == fs[k + 1].0);
                } else {
                    assert(acc2[ix] == p);
                    assert(fs[0].0 != fs[k + 1].0);
                }
            }
        }
        assert(keys_distinct(rest)) by {
            assert forall|a: int, b: int| 0 <= a < b < rest.len() implies rest[a].0 != rest[b].0
                by {
                assert(rest[a] == fs[a + 1] && rest[b] == fs[b + 1]);
            }
        }
        lemma_fold_render(rest, acc2, cl2);
        assert(fold_header_lines(lines, acc, cl) == fold_header_lines(
            lines_of(rest).push(seq![13u8]),
            acc2,
            cl2,
        ));
        assert(acc2 + rest =~= acc + fs);
        assert(fields_content_length(fs, cl) == fields_content_length(rest, cl2));
    }
}


/// The status line of a request, as rendered.
pub open spec fn req_status_line(m: ReqHead) -> Seq<u8> {
    verb_bytes(m.verb) + sp() + m.route + sp() + m.version
}

/// A request header that the codec reproduces exactly: clean status-line
/// tokens, round-trippable fields with distinct keys, and a content length
/// that agrees with the `CONTENT-LENGTH` entry.
pub open spec fn head_round_trippable(m: ReqHead) -> bool {
    &&& status_token(m.route)
    &&& status_token(m.version)
    &&& (forall|k: int| 0 <= k < m.fields.len() ==> field_round_trippable(#[trigger] m.fields[k]))
    &&& keys_distinct(m.fields)
    &&& m.content_length == fields_content_length(m.fields, 0)
}

/// In a buffer that begins with the rendering of clean pieces, the header
/// scan stops exactly at the rendering's blank line.
proof fn lemma_header_split_render(pieces: Seq<Seq<u8>>, rest: Seq<u8>)
    requires
        pieces.len() >= 1,
        pieces[0].len() > 0,
        pieces[0][0] != 13,
        forall|k: int| 0 <= k < pieces.len() ==> (#[trigger] pieces[k]).len() > 0 && crlf_free(
            pieces[k],
        ),
    ensures
        ({
            let hdr = join_by(pieces, crlf()) + crlfcrlf();
            header_split(hdr + rest) == hdr.len() - 4
        }),
{
    let hdr = join_by(pieces, crlf()) + crlfcrlf();
    let buf = hdr + rest;
    let p = hdr.len() - 4;
    lemma_first_blank(pieces);
    assert(occurs_at(buf, crlfcrlf(), p)) by {
        assert(buf.subrange(p, p + 4) =~= hdr.subrange(p, p + 4));
    }
    assert forall|j: int| 0 <= j < p implies !occurs_at(buf, crlfcrlf(), j) by {
        if occurs_at(buf, crlfcrlf(), j) {
            assert(hdr.subrange(j, j + 4) =~= buf.subrange(j, j + 4));
            assert(occurs_at(hdr, crlfcrlf(), j));
        }
    }
    assert(p >= 1) by {
        assert(hdr[0] == pieces[0][0]) by {
            if pieces.len() == 1 {
                assert(join_by(pieces, crlf()) == pieces[0]);
            } else {
                assert(join_by(pieces, crlf()) == pieces[0] + crlf() + join_by(
                    pieces.drop_first(),
                    crlf(),
                ));
            }
        }
        if p == 0 {
            assert(buf.subrange(0, 4)[0] == buf[0]);
            assert(buf[0] == 13);
        }
    }
    let tail = buf.skip(1);
    crate::text::lemma_find_sub_char(tail, crlfcrlf());
    assert(occurs_at(tail, crlfcrlf(), p - 1)) by {
        assert(tail.subrange(p - 1, p - 1 + 4) =~= buf.subrange(p, p + 4));
    }
    assert forall|j: int| 0 <= j < p - 1 implies !occurs_at(tail, crlfcrlf(), j) by {
        if occurs_at(tail, crlfcrlf(), j) {
            assert(buf.subrange(j + 1, j + 1 + 4) =~= tail.subrange(j, j + 4));
            assert(occurs_at(buf, crlfcrlf(), j + 1));
        }
    }
    assert(find_sub(tail, crlfcrlf()) == p - 1) by {
        let f = find_sub(tail, crlfcrlf());
        if f < 0 {
            assert(occurs_at(tail, crlfcrlf(), p - 1));
        } else if f < p - 1 {
            assert(!occurs_at(tail, crlfcrlf(), f));
        } else if f > p - 1 {
            assert(!occurs_at(tail, crlfcrlf(), p - 1));
        }
    }
}

/// Header round trip: parsing a buffer that begins with the rendering of a
/// round-trippable request header yields exactly that header, with the body
/// starting right after the rendering, whatever follows it.
pub proof fn lemma_request_head_round_trip(m: ReqHead, rest: Seq<u8>)
    requires
        head_round_trippable(m),
    ensures
        parse_req_head(render_req_head(m) + rest) == Ok::<(ReqHead, int), ParseError>(
            (m, render_req_head(m).len() as int),
        ),
{
    let hdr = render_req_head(m);
    let buf = hdr + rest;
    let sl = req_status_line(m);
    let pieces = seq![sl] + lines_of(m.fields);
    crate::http::lemma_verb_bytes_facts(m.verb);

    // The rendering is the joined lines closed by the blank line.
    lemma_render_join(sl, m.fields);
    assert(hdr =~= join_by(pieces, crlf()) + crlfcrlf()) by {
        assert(((sl + crlf()) + render_fields(m.fields)) + crlf() =~= render_req_head(
            m,
        ));
    }

    // Every piece is non-empty and CRLF-free.
    assert forall|k: int| 0 <= k < pieces.len() implies (#[trigger] pieces[k]).len() > 0
        && crlf_free(pieces[k]) by {
        if k == 0 {
            assert(pieces[0] == sl);
            assert(sl.len() >= 3);
            assert forall|i: int| 0 <= i < sl.len() implies sl[i] != 13 && sl[i] != 10 by {
                let a = verb_bytes(m.verb);
                if i < a.len() {
                    assert(sl[i] == a[i]);
                } else if i == a.len() {
                    assert(sl[i] == 32);
                } else if i < a.len() + 1 + m.route.len() {
                    assert(sl[i] == m.route[i - a.len() - 1]);
                } else if i == a.len() + 1 + m.route.len() {
                    assert(sl[i] == 32);
                } else {
                    assert(sl[i] == m.version[i - a.len() - 2 - m.route.len()]);
                }
            }
        } else {
            let p = m.fields[k - 1];
            assert(field_round_trippable(p));
            assert(pieces[k] == line_of(p));
            assert(line_of(p).len() >= 2);
            assert forall|i: int| 0 <= i < line_of(p).len() implies line_of(p)[i] != 13 && line_of(
                p,
            )[i] != 10 by {
                if i < p.0.len() {
                    assert(line_of(p)[i] == p.0[i]);
                } else if i == p.0.len() {
                    assert(line_of(p)[i] == 58);
                } else if i == p.0.len() + 1 {
                    assert(line_of(p)[i] == 32);
                } else {
                    assert(line_of(p)[i] == p.1[i - p.0.len() - 2]);
                }
            }
        }
    }

    // The scan stops at the blank line.
    assert(sl[0] == verb_bytes(m.verb)[0]);
    lemma_header_split_render(pieces, rest);
    let p = hdr.len() - 4;
    assert(header_split(buf) == p);

    // The region handed to the text parser is the joined lines plus the
    // stray CR of the blank line.
    lemma_join_snoc(pieces, seq![13u8], crlf());
    let region = buf.subrange(0, p + 3);
    assert(region =~= join_by(pieces.push(seq![13u8]), crlf()));

    // Splitting the region on CRLF recovers the lines.
    assert forall|k: int| 0 <= k < pieces.push(seq![13u8]).len() implies free_of(
        #[trigger] pieces.push(seq![13u8])[k],
        crlf(),
    ) by {
        if k < pieces.len() {
            lemma_crlf_free_no_occurrence(pieces[k], crlf());
        } else {
            assert forall|j: int| !occurs_at(seq![13u8], crlf(), j) by {}
        }
    }
    lemma_split_join(pieces.push(seq![13u8]), crlf());
    let lines = split_by(region, crlf());
    assert(lines == pieces.push(seq![13u8]));
    assert(lines[0] == sl);

    // Splitting the status line on spaces recovers the three tokens.
    assert(free_of(verb_bytes(m.verb), sp())) by {
        assert forall|j: int| !occurs_at(verb_bytes(m.verb), sp(), j) by {
            if occurs_at(verb_bytes(m.verb), sp(), j) {
                assert(verb_bytes(m.verb).subrange(j, j + 1)[0] == verb_bytes(m.verb)[j]);
                assert(verb_bytes(m.verb)[j] == 32);
            }
        }
    }
    lemma_status_token_free(m.route);
    lemma_status_token_free(m.version);
    assert(split_by(m.version, sp()) == seq![m.version]) by {
        crate::text::lemma_find_sub_char(m.version, sp());
        assert(find_sub(m.version, sp()) == -1);
    }
    crate::text::lemma_split_step(m.route, m.version, sp());
    crate::text::lemma_split_step(verb_bytes(m.verb), m.route + sp() + m.version, sp());
    let toks = split_by(sl, sp());
    assert(toks == seq![verb_bytes(m.verb)] + (seq![m.route] + seq![m.version])) by {
        assert(sl =~= verb_bytes(m.verb) + sp() + (m.route + sp() + m.version));
    }
    assert(toks.len() == 3);
    assert(toks[0] == verb_bytes(m.verb) && toks[1] == m.route && toks[2] == m.version);
    assert(verb_from_token(toks[0]) == Some(m.verb));

    // Folding the remaining lines reproduces the fields.
    assert(lines.drop_first() =~= lines_of(m.fields).push(seq![13u8]));
    assert forall|k: int| 0 <= k < m.fields.len() implies key_index(
        Seq::<(Seq<u8>, Seq<u8>)>::empty(),
        #[trigger] m.fields[k].0,
    ) < 0 by {}
    lemma_fold_render(m.fields, Seq::empty(), 0);
    assert(Seq::<(Seq<u8>, Seq<u8>)>::empty() + m.fields =~= m.fields);
    assert(parse_req_head_text(region) matches Ok(m2) && m2 == m);
    assert(p + 4 == hdr.len());
}

/// Full round trip: serializing a round-trippable request header with a
/// body of the declared length and parsing the result reproduces header and
/// body exactly, whatever trails in the buffer.
pub proof fn lemma_request_round_trip(m: ReqHead, body: Seq<u8>, rest: Seq<u8>)
    requires
        head_round_trippable(m),
        m.content_length == body.len(),
    ensures
        parse_req_message(render_req_head(m) + body + rest) == Ok::<
            (ReqHead, Option<Seq<u8>>),
            ParseError,
        >((m, if body.len() == 0 {
            Option::None
        } else {
            Option::Some(body)
        })),
{
    let hdr = render_req_head(m);
    let buf = (hdr + body) + rest;
    assert(buf =~= hdr + (body + rest));
    lemma_request_head_round_trip(m, body + rest);
    assert(parse_req_head(buf) == Ok::<(ReqHead, int), ParseError>((m, hdr.len() as int)));
    if body.len() > 0 {
        assert(buf.subrange(hdr.len() as int, hdr.len() + body.len() as int) =~= body);
    }
}


/// The status line of a response, as rendered.
pub open spec fn resp_status_line(m: RespHead) -> Seq<u8> {
    m.version + sp() + crate::text::dec_digits(crate::http::status_code(m.status)) + sp()
        + crate::http::status_reason_bytes(m.status)
}

/// A response header that the codec reproduces exactly.
pub open spec fn resp_round_trippable(m: RespHead) -> bool {
    &&& status_token(m.version)
    &&& (forall|k: int| 0 <= k < m.fields.len() ==> field_round_trippable(#[trigger] m.fields[k]))
    &&& keys_distinct(m.fields)
    &&& m.content_length == fields_content_length(m.fields, 0)
}

/// The reason phrase of every status is printable: it holds no CR and no LF.
proof fn lemma_status_reason_clean(st: HttpStatus)
    ensures
        crlf_free(crate::http::status_reason_bytes(st)),
{
    let chars = crate::http::status_reason_chars(st);
    let bytes = crate::http::status_reason_bytes(st);
    match st {
        HttpStatus::SwitchingProtocols => {
            reveal_strlit("Switching Protocols");
            assert(vstd::utf8::is_ascii_chars(chars));
        },
        HttpStatus::Okay => {
            reveal_strlit("OK");
            assert(vstd::utf8::is_ascii_chars(chars));
        },
        HttpStatus::BadRequest => {
            reveal_strlit("Bad Request");
            assert(vstd::utf8::is_ascii_chars(chars));
        },
        HttpStatus::Unauthorized => {
            reveal_strlit("Unauthorized");
            assert(vstd::utf8::is_ascii_chars(chars));
        },
        HttpStatus::NotFound => {
            reveal_strlit("Not Found");
            assert(vstd::utf8::is_ascii_chars(chars));
        },
        HttpStatus::MethodNotAllowed => {
            reveal_strlit("Method Not Allowed");
            assert(vstd::utf8::is_ascii_chars(chars));
        },
        HttpStatus::InternalError => {
            reveal_strlit("Internal Error");
            assert(vstd::utf8::is_ascii_chars(chars));
        },
    }
    crate::http::lemma_strlit_ascii(chars);
    assert forall|i: int| 0 <= i < bytes.len() implies bytes[i] != 13 && bytes[i] != 10 by {
        assert(bytes[i] == chars[i] as u8);
        assert(chars[i] != 13 as char && chars[i] != 10 as char);
    }
}

/// Header round trip for responses: parsing a buffer that begins with the
/// rendering of a round-trippable response header yields exactly that
/// header, with the body starting right after the rendering.
pub proof fn lemma_response_head_round_trip(m: RespHead, rest: Seq<u8>)
    requires
        resp_round_trippable(m),
    ensures
        parse_resp_head(render_resp_head(m) + rest) == Ok::<(RespHead, int), ParseError>(
            (m, render_resp_head(m).len() as int),
        ),
{
    let hdr = render_resp_head(m);
    let buf = hdr + rest;
    let sl = resp_status_line(m);
    let code = crate::http::status_code(m.status);
    let digits = crate::text::dec_digits(code);
    let reason = crate::http::status_reason_bytes(m.status);
    let pieces = seq![sl] + lines_of(m.fields);
    assert(0 <= code <= 500);
    crate::text::lemma_dec_digits(code);
    lemma_status_reason_clean(m.status);
    lemma_status_token_free(m.version);
    assert(free_of(digits, sp())) by {
        assert forall|j: int| !occurs_at(digits, sp(), j) by {
            if occurs_at(digits, sp(), j) {
                assert(digits.subrange(j, j + 1)[0] == digits[j]);
                assert(crate::text::is_digit(digits[j]));
            }
        }
    }

    lemma_render_join(sl, m.fields);
    assert(hdr =~= join_by(pieces, crlf()) + crlfcrlf()) by {
        assert(((sl + crlf()) + render_fields(m.fields)) + crlf() =~= render_resp_head(m));
    }

    assert forall|k: int| 0 <= k < pieces.len() implies (#[trigger] pieces[k]).len() > 0
        && crlf_free(pieces[k]) by {
        if k == 0 {
            assert(pieces[0] == sl);
            assert(sl.len() >= 3);
            assert forall|i: int| 0 <= i < sl.len() implies sl[i] != 13 && sl[i] != 10 by {
                let a = m.version.len() as int;
                let d = digits.len() as int;
                if i < a {
                    assert(sl[i] == m.version[i]);
                } else if i == a {
                    assert(sl[i] == 32);
                } else if i < a + 1 + d {
                    assert(sl[i] == digits[i - a - 1]);
                    assert(crate::text::is_digit(digits[i - a - 1]));
                } else if i == a + 1 + d {
                    assert(sl[i] == 32);
                } else {
                    assert(sl[i] == reason[i - a - 2 - d]);
                }
            }
        } else {
            let p = m.fields[k - 1];
            assert(field_round_trippable(p));
            assert(pieces[k] == line_of(p));
            assert(line_of(p).len() >= 2);
            assert forall|i: int| 0 <= i < line_of(p).len() implies line_of(p)[i] != 13 && line_of(
                p,
            )[i] != 10 by {
                if i < p.0.len() {
                    assert(line_of(p)[i] == p.0[i]);
                } else if i == p.0.len() {
                    assert(line_of(p)[i] == 58);
                } else if i == p.0.len() + 1 {
                    assert(line_of(p)[i] == 32);
                } else {
                    assert(line_of(p)[i] == p.1[i - p.0.len() - 2]);
                }
            }
        }
    }

    assert(sl[0] != 13) by {
        if m.version.len() > 0 {
            assert(sl[0] == m.version[0]);
        } else {
            assert(sl[0] == 32);
        }
    }
    lemma_header_split_render(pieces, rest);
    let p = hdr.len() - 4;
    assert(header_split(buf) == p);

    lemma_join_snoc(pieces, seq![13u8], crlf());
    let region = buf.subrange(0, p + 3);
    assert(region =~= join_by(pieces.push(seq![13u8]), crlf()));

    assert forall|k: int| 0 <= k < pieces.push(seq![13u8]).len() implies free_of(
        #[trigger] pieces.push(seq![13u8])[k],
        crlf(),
    ) by {
        if k < pieces.len() {
            lemma_crlf_free_no_occurrence(pieces[k], crlf());
        } else {
            assert forall|j: int| !occurs_at(seq![13u8], crlf(), j) by {}
        }
    }
    lemma_split_join(pieces.push(seq![13u8]), crlf());
    let lines = split_by(region, crlf());
    assert(lines == pieces.push(seq![13u8]));
    assert(lines[0] == sl);

    crate::text::lemma_split_step(digits, reason, sp());
    crate::text::lemma_split_step(m.version, digits + sp() + reason, sp());
    let toks = split_by(sl, sp());
    assert(toks == seq![m.version] + (seq![digits] + split_by(reason, sp()))) by {
        assert(sl =~= m.version + sp() + (digits + sp() + reason));
    }
    assert(toks.len() >= 2);
    assert(toks[0] == m.version && toks[1] == digits);

    assert(i16_token(digits) == Some(code)) by {
        assert(crate::text::is_digit(digits[0]));
        assert(digits[0] != 43 && digits[0] != 45);
    }
    assert(status_from_code(code) == Some(m.status));

    assert(lines.drop_first() =~= lines_of(m.fields).push(seq![13u8]));
    assert forall|k: int| 0 <= k < m.fields.len() implies key_index(
        Seq::<(Seq<u8>, Seq<u8>)>::empty(),
        #[trigger] m.fields[k].0,
    ) < 0 by {}
    lemma_fold_render(m.fields, Seq::empty(), 0);
    assert(Seq::<(Seq<u8>, Seq<u8>)>::empty() + m.fields =~= m.fields);
    assert(parse_resp_head_text(region) matches Ok(m2) && m2 == m);
    assert(p + 4 == hdr.len());
}

} // verus!
