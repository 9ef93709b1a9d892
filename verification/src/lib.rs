//! A local development server's verified core: an HTTP/1.1 request and
//! response codec working on raw buffer bytes, the WebSocket handshake and
//! frame writer, the broadcast hub fanning file-change notifications out to
//! subscribers, and the dispatcher's connection-handling decisions.
pub mod codec;
pub mod dispatch;
pub mod http;
pub mod messaging;
pub mod text;
pub mod ws;
