//! Connection-handling decisions: route resolution, content types, the
//! reload-script injection into the index document, and the responses the
//! server sends. The surrounding I/O hands values in and carries the
//! results to the socket.
use vstd::prelude::*;

verus! {

use crate::http::{
    HttpStatus, HttpResponse, HttpResponseHeader, HeaderMap, RespHead, built_fields, body_view,
    opt_len, map_insert, key_index, lemma_key_index_char, lemma_strlit_ascii,
};
use crate::messaging::{Notification, message_bytes, notification_message};
use crate::text::{
    find_sub, occurs_at, ascii_seq, bytes_eq, push_bytes, subrange_vec, lossy_string,
    lemma_find_sub_char, lemma_ascii_decode,
};
use crate::ws::{accept_key_of, frame_bytes, handle_handshake, handle_write};
use vstd::utf8::{encode_utf8, is_ascii_chars};

/// What the dispatcher does with a parsed request's route.
#[derive(Clone, Copy, PartialEq, Eq, Structural, Debug)]
pub enum RoutePlan {
    /// Upgrade the connection to a WebSocket push channel.
    WsNotify,
    /// Serve the index document with the reload script injected.
    Index,
    /// Serve a file under the configured base path.
    StaticFile,
}

/// The plan a route resolves to.
pub open spec fn plan_of(route: Seq<u8>) -> RoutePlan {
    if route == encode_utf8("/ws/notify"@) {
        RoutePlan::WsNotify
    } else if route == encode_utf8("/"@) || route == encode_utf8("/index"@) || route
        == encode_utf8("/index.html"@) {
        RoutePlan::Index
    } else {
        RoutePlan::StaticFile
    }
}

/// Resolve a route to its plan.
pub fn route_decision(route: &str) -> (r: RoutePlan)
    ensures
        r == plan_of(encode_utf8(route@)),
{
    let b = route.as_bytes();
    if bytes_eq(b, "/ws/notify".as_bytes()) {
        RoutePlan::WsNotify
    } else if bytes_eq(b, "/".as_bytes()) || bytes_eq(b, "/index".as_bytes()) || bytes_eq(
        b,
        "/index.html".as_bytes(),
    ) {
        RoutePlan::Index
    } else {
        RoutePlan::StaticFile
    }
}

/// The file path a route maps to, once the base path has been prepended.
pub fn get_path(route: String) -> (r: String)
    ensures
        r == route,
{
    route
}

/// `s` ends with `suffix`.
pub open spec fn ends_with(s: Seq<u8>, suffix: Seq<u8>) -> bool {
    suffix.len() <= s.len() && s.subrange(s.len() - suffix.len(), s.len() as int) == suffix
}

/// `s` ends with `suffix`, decided on bytes.
fn has_suffix(s: &[u8], suffix: &[u8]) -> (r: bool)
    ensures
        r == ends_with(s@, suffix@),
{
    if suffix.len() > s.len() {
        return false;
    }
    let tail = subrange_vec(s, s.len() - suffix.len(), s.len());
    bytes_eq(tail.as_slice(), suffix)
}

/// The content type served for a path, by its extension.
pub open spec fn content_type_of(path: Seq<u8>) -> Seq<u8> {
    if ends_with(path, encode_utf8(".css"@)) {
        encode_utf8("text/css"@)
    } else if ends_with(path, encode_utf8(".js"@)) {
        encode_utf8("application/javascript"@)
    } else if ends_with(path, encode_utf8(".png"@)) {
        encode_utf8("image/png"@)
    } else if ends_with(path, encode_utf8(".jpg"@)) || ends_with(path, encode_utf8(".jpeg"@)) {
        encode_utf8("image/jpeg"@)
    } else {
        encode_utf8("text/plain"@)
    }
}

/// Pick the content type for a path by its file extension.
pub fn get_content_type(path: String) -> (r: String)
    ensures
        encode_utf8(r@) == content_type_of(encode_utf8(path@)),
{
    let b = path.as_str().as_bytes();
    if has_suffix(b, ".css".as_bytes()) {
        "text/css".to_owned()
    } else if has_suffix(b, ".js".as_bytes()) {
        "application/javascript".to_owned()
    } else if has_suffix(b, ".png".as_bytes()) {
        "image/png".to_owned()
    } else if has_suffix(b, ".jpg".as_bytes()) || has_suffix(b, ".jpeg".as_bytes()) {
        "image/jpeg".to_owned()
    } else {
        "text/plain".to_owned()
    }
}

/// The closing tag before which the reload script lands.
pub open spec fn body_close() -> Seq<u8> {
    encode_utf8("</body>"@)
}

/// The script injected into the served index document: it opens a WebSocket
/// to the notify route and reloads the page on any message.
pub open spec fn reload_script_chars() -> Seq<char> {
    "<script>var ws = new WebSocket('ws://127.0.0.1:8080/ws/notify'); ws.onopen = function(evt) { console.log('Connected'); };  ws.onmessage = function (evt) { location.reload();  };</script>\n"@
}

/// The document with the reload script inserted before the first closing
/// body tag; a document without one is left unchanged.
pub open spec fn inject_spec(doc: Seq<u8>) -> Seq<u8> {
    let i = find_sub(doc, body_close());
    if i < 0 {
        doc
    } else {
        (doc.subrange(0, i) + encode_utf8(reload_script_chars())) + doc.subrange(
            i,
            doc.len() as int,
        )
    }
}

/// Inject the reload script into an index document, before its first
/// closing body tag.
pub fn inject_script(document: &String) -> (r: String)
    ensures
        find_sub(encode_utf8(document@), body_close()) < 0 ==> r@ == document@,
        ascii_seq(encode_utf8(document@)) ==> encode_utf8(r@) == inject_spec(
            encode_utf8(document@),
        ),
{
    let b = document.as_str().as_bytes();
    let ghost doc = encode_utf8(document@);
    let mut pat: Vec<u8> = Vec::new();
    push_bytes(&mut pat, "</body>".as_bytes());
    proof {
        reveal_strlit("</body>");
        assert(is_ascii_chars("</body>"@));
        lemma_strlit_ascii("</body>"@);
        lemma_find_sub_char(doc, body_close());
    }
    match crate::text::find_pattern_from(b, pat.as_slice(), 0) {
        Option::None => {
            proof {
                if find_sub(doc, body_close()) >= 0 {
                    assert(occurs_at(doc, body_close(), find_sub(doc, body_close())));
                }
            }
            let r = document.clone();
            proof {
                if ascii_seq(doc) {
                    lemma_ascii_decode(doc);
                    assert(encode_utf8(r@) == doc);
                }
            }
            r
        },
        Option::Some(i) => {
            proof {
                let f = find_sub(doc, body_close());
                if f < 0 {
                    assert(occurs_at(doc, body_close(), i as int));
                } else if f < i as int {
                    assert(!occurs_at(doc, body_close(), f));
                } else if f > i as int {
                    assert(!occurs_at(doc, body_close(), i as int));
                }
                assert(f == i as int);
            }
            let mut out: Vec<u8> = Vec::new();
            let prefix = subrange_vec(b, 0, i);
            push_bytes(&mut out, prefix.as_slice());
            push_bytes(
                &mut out,
                "<script>var ws = new WebSocket('ws://127.0.0.1:8080/ws/notify'); ws.onopen = function(evt) { console.log('Connected'); };  ws.onmessage = function (evt) { location.reload();  };</script>\n".as_bytes(),
            );
            let suffix = subrange_vec(b, i, b.len());
            push_bytes(&mut out, suffix.as_slice());
            assert(out@ == inject_spec(doc));
            proof {
                if ascii_seq(doc) {
                    reveal_strlit(
                        "<script>var ws = new WebSocket('ws://127.0.0.1:8080/ws/notify'); ws.onopen = function(evt) { console.log('Connected'); };  ws.onmessage = function (evt) { location.reload();  };</script>\n",
                    );
                    assert(is_ascii_chars(reload_script_chars()));
                    lemma_strlit_ascii(reload_script_chars());
                    assert(ascii_seq(out@)) by {
                        assert forall|k: int| 0 <= k < out@.len() implies out@[k] < 128 by {
                            let a = doc.subrange(0, i as int);
                            let m = encode_utf8(reload_script_chars());
                            if k < a.len() {
                                assert(out@[k] == doc[k]);
                            } else if k < a.len() + m.len() {
                                assert(out@[k] == m[k - a.len()]);
                            } else {
                                assert(out@[k] == doc.subrange(i as int, doc.len() as int)[k
                                    - a.len() - m.len()]);
                            }
                        }
                    }
                    lemma_ascii_decode(out@);
                }
            }
            lossy_string(out.as_slice())
        },
    }
}


/// The headers added to the upgrade response: the protocol switch, the
/// accept key answering the client's key, and the protocol version.
pub open spec fn upgrade_fields(key: Seq<char>) -> Seq<(Seq<u8>, Seq<u8>)> {
    seq![
        (encode_utf8("Upgrade"@), encode_utf8("websocket"@)),
        (encode_utf8("Connection"@), encode_utf8("Upgrade"@)),
        (encode_utf8("Sec-WebSocket-Accept"@), encode_utf8(accept_key_of(key))),
        (encode_utf8("Sec-WebSocket-Version"@), encode_utf8("13"@)),
    ]
}

/// The `101 Switching Protocols` response answering a WebSocket upgrade
/// request carrying the given client key.
pub fn ws_upgrade_response(key: &String) -> (r: HttpResponse)
    ensures
        r.header@ == (RespHead {
            status: HttpStatus::SwitchingProtocols,
            version: encode_utf8("HTTP/1.1"@),
            content_length: 0,
            fields: built_fields(encode_utf8("text/plain"@), 0, upgrade_fields(key@)),
        }),
        body_view(r.body) == Option::<Seq<u8>>::None,
{
    proof {
        reveal_strlit("Upgrade");
        reveal_strlit("websocket");
        reveal_strlit("Connection");
        reveal_strlit("Sec-WebSocket-Accept");
        reveal_strlit("Sec-WebSocket-Version");
        reveal_strlit("13");
        assert(is_ascii_chars("Upgrade"@));
        assert(is_ascii_chars("Connection"@));
        assert(is_ascii_chars("Sec-WebSocket-Accept"@));
        assert(is_ascii_chars("Sec-WebSocket-Version"@));
        lemma_strlit_ascii("Upgrade"@);
        lemma_strlit_ascii("Connection"@);
        lemma_strlit_ascii("Sec-WebSocket-Accept"@);
        lemma_strlit_ascii("Sec-WebSocket-Version"@);
    }
    let ghost ku = encode_utf8("Upgrade"@);
    let ghost kc = encode_utf8("Connection"@);
    let ghost ka = encode_utf8("Sec-WebSocket-Accept"@);
    let ghost kv = encode_utf8("Sec-WebSocket-Version"@);
    assert(ku.len() == 7 && kc.len() == 10 && ka.len() == 20 && kv.len() == 21);
    let accept = handle_handshake(key);
    let mut additions = HeaderMap::new();
    additions.insert("Upgrade".to_owned(), "websocket".to_owned());
    let ghost m1 = additions@;
    proof {
        assert(m1 =~= upgrade_fields(key@).subrange(0, 1));
    }
    additions.insert("Connection".to_owned(), "Upgrade".to_owned());
    let ghost m2 = additions@;
    proof {
        lemma_key_index_char(m1, kc);
        if key_index(m1, kc) >= 0 {
            assert(m1[key_index(m1, kc)].0 == kc);
        }
        assert(m2 =~= upgrade_fields(key@).subrange(0, 2));
    }
    additions.insert("Sec-WebSocket-Accept".to_owned(), accept);
    let ghost m3 = additions@;
    proof {
        lemma_key_index_char(m2, ka);
        if key_index(m2, ka) >= 0 {
            assert(m2[key_index(m2, ka)].0 == ka);
        }
        assert(m3 =~= upgrade_fields(key@).subrange(0, 3));
    }
    additions.insert("Sec-WebSocket-Version".to_owned(), "13".to_owned());
    proof {
        lemma_key_index_char(m3, kv);
        if key_index(m3, kv) >= 0 {
            assert(m3[key_index(m3, kv)].0 == kv);
        }
        assert(additions@ =~= upgrade_fields(key@));
    }
    HttpResponse::create(
        HttpStatus::SwitchingProtocols,
        "text/plain".to_owned(),
        additions,
        Option::None,
    )
}

/// The response serving a static file looked up for a route: the file's
/// bytes under the route's content type when it was found, and a plain-text
/// `404` otherwise.
pub fn static_response(route: &String, file: Option<Vec<u8>>) -> (r: HttpResponse)
    ensures
        match file {
            Option::Some(bytes) => r.header@ == (RespHead {
                status: HttpStatus::Okay,
                version: encode_utf8("HTTP/1.1"@),
                content_length: bytes@.len() as int,
                fields: built_fields(
                    content_type_of(encode_utf8(route@)),
                    bytes@.len() as int,
                    Seq::empty(),
                ),
            }) && body_view(r.body) == (if bytes@.len() == 0 {
                Option::<Seq<u8>>::None
            } else {
                Option::Some(bytes@)
            }),
            Option::None => r.header@ == (RespHead {
                status: HttpStatus::NotFound,
                version: encode_utf8("HTTP/1.1"@),
                content_length: encode_utf8("Not found"@).len() as int,
                fields: built_fields(
                    encode_utf8("text/plain"@),
                    encode_utf8("Not found"@).len() as int,
                    Seq::empty(),
                ),
            }) && body_view(r.body) == Option::Some(encode_utf8("Not found"@)),
        },
        r.wf(),
{
    match file {
        Option::Some(bytes) => {
            let content_type = get_content_type(route.clone());
            let r = HttpResponse::create(
                HttpStatus::Okay,
                content_type,
                HeaderMap::new(),
                Option::Some(bytes),
            );
            r
        },
        Option::None => {
            let mut body: Vec<u8> = Vec::new();
            push_bytes(&mut body, "Not found".as_bytes());
            proof {
                reveal_strlit("Not found");
                assert(is_ascii_chars("Not found"@));
                lemma_strlit_ascii("Not found"@);
                assert(encode_utf8("Not found"@).len() == 9);
            }
            HttpResponse::create(
                HttpStatus::NotFound,
                "text/plain".to_owned(),
                HeaderMap::new(),
                Option::Some(body),
            )
        },
    }
}

/// The `200` response serving the index document with the reload script
/// injected.
pub fn index_response(document: &String) -> (r: HttpResponse)
    ensures
        r.header@.status == HttpStatus::Okay,
        ascii_seq(encode_utf8(document@)) ==> ({
            let page = inject_spec(encode_utf8(document@));
            &&& r.header@ == (RespHead {
                status: HttpStatus::Okay,
                version: encode_utf8("HTTP/1.1"@),
                content_length: page.len() as int,
                fields: built_fields(encode_utf8("text/html"@), page.len() as int, Seq::empty()),
            })
            &&& body_view(r.body) == (if page.len() == 0 {
                Option::<Seq<u8>>::None
            } else {
                Option::Some(page)
            })
        }),
        r.wf(),
{
    let page = inject_script(document);
    let body = page.as_str().as_bytes_vec();
    proof {
        if ascii_seq(encode_utf8(document@)) {
            assert(body@ == inject_spec(encode_utf8(document@)));
        }
    }
    HttpResponse::create(
        HttpStatus::Okay,
        "text/html".to_owned(),
        HeaderMap::new(),
        Option::Some(body),
    )
}

/// The `400` response sent when a request could not be parsed or when a
/// WebSocket upgrade lacks its key.
pub fn bad_request_response() -> (r: HttpResponse)
    ensures
        r.header@ == (RespHead {
            status: HttpStatus::BadRequest,
            version: encode_utf8("HTTP/1.1"@),
            content_length: encode_utf8("Bad request"@).len() as int,
            fields: built_fields(
                encode_utf8("text/plain"@),
                encode_utf8("Bad request"@).len() as int,
                Seq::empty(),
            ),
        }),
        body_view(r.body) == Option::Some(encode_utf8("Bad request"@)),
        r.wf(),
{
    let mut body: Vec<u8> = Vec::new();
    push_bytes(&mut body, "Bad request".as_bytes());
    proof {
        reveal_strlit("Bad request");
        assert(is_ascii_chars("Bad request"@));
        lemma_strlit_ascii("Bad request"@);
        assert(encode_utf8("Bad request"@).len() == 11);
    }
    HttpResponse::create(
        HttpStatus::BadRequest,
        "text/plain".to_owned(),
        HeaderMap::new(),
        Option::Some(body),
    )
}

/// The exact frame pushed to a WebSocket subscriber for a notification:
/// the two header bytes, then the fixed twelve-byte message.
pub fn notification_frame(n: &Notification) -> (r: Vec<u8>)
    ensures
        r@ == frame_bytes(message_bytes(*n), 12),
{
    let mut msg = notification_message(n);
    handle_write(&mut msg, 12)
}

} // verus!
