pub mod accept;
pub mod headers;
pub mod text;
pub mod websocket;
