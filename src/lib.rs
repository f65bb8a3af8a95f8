//! A small HTTP/1.x request parser: request line, headers and a one-line body.

pub mod http_request;
