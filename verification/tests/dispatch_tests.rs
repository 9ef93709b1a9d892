use psionic::dispatch::{bad_request_response, get_content_type, get_path, index_response,
    inject_script, route_decision, static_response, ws_upgrade_response, RoutePlan};
use psionic::http::HttpRequest;

#[test]
fn routes_resolve_to_their_plans() {
    assert_eq!(route_decision("/ws/notify"), RoutePlan::WsNotify);
    assert_eq!(route_decision("/"), RoutePlan::Index);
    assert_eq!(route_decision("/index"), RoutePlan::Index);
    assert_eq!(route_decision("/index.html"), RoutePlan::Index);
    assert_eq!(route_decision("/style.css"), RoutePlan::StaticFile);
    assert_eq!(route_decision("/ws/notify2"), RoutePlan::StaticFile);
}

#[test]
fn content_types_follow_extensions() {
    assert_eq!(get_content_type("a/style.css".to_string()), "text/css");
    assert_eq!(get_content_type("a/app.js".to_string()), "application/javascript");
    assert_eq!(get_content_type("a/logo.png".to_string()), "image/png");
    assert_eq!(get_content_type("a/photo.jpg".to_string()), "image/jpeg");
    assert_eq!(get_content_type("a/photo.jpeg".to_string()), "image/jpeg");
    assert_eq!(get_content_type("a/readme".to_string()), "text/plain");
}

#[test]
fn paths_pass_through() {
    assert_eq!(get_path("/base/style.css".to_string()), "/base/style.css");
}

#[test]
fn static_css_served_with_its_bytes() {
    let file = b"body { color: red; }".to_vec();
    let mut resp = static_response(&"/style.css".to_string(), Some(file.clone()));
    assert_eq!(resp.header.status.get_code(), 200);
    assert_eq!(resp.header.headers.get("Content-Type").unwrap(), "text/css");
    assert_eq!(resp.header.content_length, file.len());
    assert_eq!(resp.body.clone().unwrap(), file);
    let bytes = resp.to_bytes();
    assert!(bytes.ends_with(&file));
}

#[test]
fn missing_file_yields_not_found() {
    let resp = static_response(&"/nope.css".to_string(), None);
    assert_eq!(resp.header.status.get_code(), 404);
    assert_eq!(resp.header.headers.get("Content-Type").unwrap(), "text/plain");
    assert_eq!(resp.body.unwrap(), b"Not found".to_vec());
}

#[test]
fn bad_request_is_a_400() {
    let resp = bad_request_response();
    assert_eq!(resp.header.status.get_code(), 400);
    assert_eq!(resp.body.unwrap(), b"Bad request".to_vec());
}

#[test]
fn reload_script_lands_before_the_closing_body_tag() {
    let doc = "<html><body>hi</body></html>".to_string();
    let injected = inject_script(&doc);
    let script = "<script>var ws = new WebSocket('ws://127.0.0.1:8080/ws/notify'); \
ws.onopen = function(evt) { console.log('Connected'); };  \
ws.onmessage = function (evt) { location.reload();  };</script>\n";
    let expected = format!("<html><body>hi{}</body></html>", script);
    assert_eq!(injected, expected);
}

#[test]
fn document_without_body_tag_is_unchanged() {
    let doc = "<p>plain fragment</p>".to_string();
    assert_eq!(inject_script(&doc), doc);
}

#[test]
fn index_response_serves_injected_html() {
    let doc = "<html><body></body></html>".to_string();
    let resp = index_response(&doc);
    assert_eq!(resp.header.status.get_code(), 200);
    assert_eq!(resp.header.headers.get("Content-Type").unwrap(), "text/html");
    let body = String::from_utf8(resp.body.unwrap()).unwrap();
    assert!(body.contains("location.reload()"));
    assert!(body.ends_with("</body></html>"));
}

#[test]
fn upgrade_response_answers_the_client_key() {
    let resp = ws_upgrade_response(&"dGhlIHNhbXBsZSBub25jZQ==".to_string());
    assert_eq!(resp.header.status.get_code(), 101);
    assert!(resp.body.is_none());
    let headers = &resp.header.headers;
    assert_eq!(headers.get("Upgrade").unwrap(), "websocket");
    assert_eq!(headers.get("Connection").unwrap(), "Upgrade");
    assert_eq!(
        headers.get("Sec-WebSocket-Accept").unwrap(),
        "s3pPLMBiTxaQ9kYGzzhZRbK+xOo="
    );
    assert_eq!(headers.get("Sec-WebSocket-Version").unwrap(), "13");
}

#[test]
fn css_request_end_to_end() {
    let mut buf = vec![0u8; 4096];
    let wire = b"GET /style.css HTTP/1.1\r\nHost: x\r\n\r\n";
    buf[..wire.len()].copy_from_slice(wire);
    let request = HttpRequest::from_buffer(&buf).unwrap();
    assert_eq!(request.header.route, "/style.css");
    assert_eq!(route_decision(&request.header.route), RoutePlan::StaticFile);
    let file = b"h1 { font-size: 2em; }".to_vec();
    let mut resp = static_response(&request.header.route, Some(file.clone()));
    assert_eq!(resp.header.status.get_code(), 200);
    assert_eq!(resp.header.headers.get("Content-Type").unwrap(), "text/css");
    assert_eq!(resp.body.clone().unwrap(), file);
    let wire_out = String::from_utf8(resp.to_bytes()).unwrap();
    assert!(wire_out.starts_with("HTTP/1.1 200 OK\r\n"));
    assert!(wire_out.contains("Content-Type: text/css\r\n"));
    assert!(wire_out.ends_with("h1 { font-size: 2em; }"));
}
