//! A small HTTP server: requests are read from bytes, routed to handlers by method and target, and
//! answered with bytes. Sockets, files and threads are left to the program that uses the library.
pub mod app;
pub mod encoding;
pub mod file_laws;
pub mod files;
pub mod laws;
pub mod method;
pub mod outside;
pub mod path;
pub mod pool;
pub mod request;
pub mod request_laws;
pub mod response;
pub mod response_laws;
pub mod route_laws;
pub mod text;
pub mod text_laws;

pub use app::{handle_request, App, Fault, Route};
pub use files::{Context, FileStep, TextKind};
pub use method::Method;
pub use request::{Refusal, Request};
pub use response::{Html, Response, ResponseBody, StatusCode, Svg};
