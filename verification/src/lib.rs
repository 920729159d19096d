//! A minimal HTTP/1.1 static-file server library: a request parser from
//! raw bytes, an ordered header map, a URI-to-path resolver and a
//! wire-format response builder, each with a proved contract. The socket
//! loop, the worker pool and the filesystem stay outside: callers hand
//! the library a request buffer and the outcome of the page reads, and
//! get the bytes to write back.
pub mod headers;
pub mod request;
pub mod response;
pub mod text;

pub use headers::HeaderMap;
pub use request::{HttpVersion, ParsedRequest, Request};
pub use response::{page_path, response, Response};

use vstd::prelude::*;

verus! {

/// Number of pool workers for a machine with `cpus` hardware threads:
/// four fifths of them, rounded down, and at least one so that the pool
/// is never empty.
pub fn worker_count(cpus: usize) -> (n: usize)
    requires
        cpus <= usize::MAX / 4,
    ensures
        n as int == if 4 * cpus / 5 == 0 {
            1int
        } else {
            4 * cpus / 5
        },
{
    let n = 4 * cpus / 5;
    if n == 0 {
        1
    } else {
        n
    }
}

} // verus!
