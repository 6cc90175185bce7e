//! A minimal HTTP/1.1 request router.
//!
//! The crate parses a raw request (request line, headers, body), keeps a
//! table of path-pattern routes sorted by specificity, matches a request
//! against the table, extracts named path parameters, and builds raw
//! response bytes.  Socket accept loops, file serving and thread spawning
//! live in the surrounding application; the router itself is pure and is
//! read through `&self` while serving, so a frozen table may be shared
//! across concurrent connection handlers.

pub mod request;
pub mod response;
pub mod router;
pub mod strmap;
pub mod text;
