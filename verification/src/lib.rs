//! The logic behind the WebAssembly bindings of the Markdoc engine: positions
//! converted from UTF-8 bytes into the UTF-16 code units JavaScript counts in,
//! diagnostics in the shape a JavaScript host expects, and a host's schema
//! declarations checked and converted, each refusal naming the path to the
//! value that caused it.
pub mod utf16;
pub mod path;
pub mod diagnostics;
pub mod js;
pub mod value;
pub mod outside;
pub mod text;
pub mod schema;
pub mod config;
