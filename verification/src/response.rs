//! Response formatting and page resolution: a parsed request (or a parse
//! failure) and the outcome of the page reads become one wire-format
//! response string.
use crate::request::{spec_parse, Request};
use crate::text::{
    contains_str, i32_to_string, lossy_of, spec_contains, spec_dec_digits, spec_int_digits,
    str_eq, u64_to_string,
};
use vstd::prelude::*;
use vstd::string::*;
use vstd::utf8::encode_utf8;

verus! {

/// The wire format: status line, header block, a blank separator line,
/// then the body.
pub open spec fn spec_response(
    status: int,
    desc: Seq<char>,
    headers: Seq<char>,
    body: Seq<char>,
) -> Seq<char> {
    "HTTP/1.1 "@ + spec_int_digits(status) + " "@ + desc + "\r\n"@ + headers + "\r\n\r\n"@ + body
}

/// Format a response from status code, status description, a header block
/// already laid out as lines, and the body. Pure formatting: nothing is
/// validated, and the result is a function of the arguments alone.
pub fn response(status: i32, desc: &str, headers: &str, body: &str) -> (r: String)
    ensures
        r@ == spec_response(status as int, desc@, headers@, body@),
{
    let mut s = String::from_str("HTTP/1.1 ");
    let num = i32_to_string(status);
    s.append(num.as_str());
    s.append(" ");
    s.append(desc);
    s.append("\r\n");
    s.append(headers);
    s.append("\r\n\r\n");
    s.append(body);
    proof {
        assert(s@ =~= spec_response(status as int, desc@, headers@, body@));
    }
    s
}

/// Formatting is referentially transparent: two responses built from
/// equal arguments are byte-identical.
pub proof fn lemma_response_deterministic(
    status: int,
    desc: Seq<char>,
    headers: Seq<char>,
    body: Seq<char>,
    r1: Seq<char>,
    r2: Seq<char>,
)
    requires
        r1 == spec_response(status, desc, headers, body),
        r2 == spec_response(status, desc, headers, body),
    ensures
        r1 == r2,
{
}

/// The file that a request URI names: the root maps to the index
/// document, and every other URI maps to the same path under the document
/// root, with an `.html` suffix appended unless the URI already contains
/// it.
pub open spec fn spec_page_path(uri: Seq<char>) -> Seq<char> {
    if uri == "/"@ {
        "frontend/index.html"@
    } else if spec_contains(uri, ".html"@) {
        "frontend"@ + uri
    } else {
        "frontend"@ + uri + ".html"@
    }
}

pub fn page_path(uri: &str) -> (r: String)
    ensures
        r@ == spec_page_path(uri@),
{
    if str_eq(uri, "/") {
        String::from_str("frontend/index.html")
    } else {
        let mut s = String::from_str("frontend");
        s.append(uri);
        if !contains_str(uri, ".html") {
            s.append(".html");
        }
        s
    }
}

/// The byte length of a text in its UTF-8 encoding, as the platform
/// reports it.
pub open spec fn byte_len(s: Seq<char>) -> nat {
    (encode_utf8(s).len() as usize) as nat
}

/// The header block of a successful page read: its byte length, and
/// nothing else.
pub open spec fn spec_length_header(content: Seq<char>) -> Seq<char> {
    "Content-Length: "@ + spec_dec_digits(byte_len(content))
}

/// The response for one request text and the outcome of the reads: a 400
/// answer when the text does not parse; the page content under a 200
/// envelope with its length when the read succeeded; the fallback
/// document under the same 200 envelope, with an empty header block, when
/// it did not; and nothing only when even the fallback could not be read.
pub open spec fn spec_get_page(
    text: Seq<char>,
    page: Option<Seq<char>>,
    fallback: Option<Seq<char>>,
) -> Option<Seq<char>> {
    if spec_parse(text) is None {
        Some(spec_response(400, "Bad ass Request"@, ""@, ""@))
    } else {
        match page {
            Some(content) => Some(
                spec_response(200, "OK"@, spec_length_header(content), content),
            ),
            None => match fallback {
                Some(f) => Some(spec_response(200, "OK"@, ""@, f)),
                None => None,
            },
        }
    }
}

/// A request that does not parse is answered with the 400 response,
/// whatever the reads returned.
pub proof fn lemma_bad_request(
    text: Seq<char>,
    page: Option<Seq<char>>,
    fallback: Option<Seq<char>>,
)
    requires
        spec_parse(text) is None,
    ensures
        spec_get_page(text, page, fallback) == Some(
            spec_response(400, "Bad ass Request"@, ""@, ""@),
        ),
{
}

/// When the request parses, the page read failed and the fallback
/// document was read, the client still gets a 200 envelope: it carries
/// the fallback body and no length header.
pub proof fn lemma_fallback_served(text: Seq<char>, f: Seq<char>)
    requires
        spec_parse(text) is Some,
    ensures
        spec_get_page(text, None, Some(f)) == Some(spec_response(200, "OK"@, ""@, f)),
{
}

/// Resolution is idempotent: the same request resolved twice against the
/// same read outcomes yields byte-identical responses.
pub proof fn lemma_get_page_idempotent(
    buf: Seq<u8>,
    page: Option<Seq<char>>,
    fallback: Option<Seq<char>>,
    r1: Option<Seq<char>>,
    r2: Option<Seq<char>>,
)
    requires
        r1 == spec_get_page(lossy_of(buf), page, fallback),
        r2 == spec_get_page(lossy_of(buf), page, fallback),
    ensures
        r1 == r2,
{
}

/// The content of an optional read.
pub open spec fn opt_text(o: Option<&String>) -> Option<Seq<char>> {
    match o {
        Some(s) => Some(s@),
        None => None,
    }
}

/// The content of an optional response.
pub open spec fn opt_out(r: Option<String>) -> Option<Seq<char>> {
    match r {
        Some(s) => Some(s@),
        None => None,
    }
}

/// A request buffer waiting to be answered.
pub struct Response<'a> {
    buffer: &'a [u8],
}

impl<'a> View for Response<'a> {
    type V = Seq<u8>;

    closed spec fn view(&self) -> Seq<u8> {
        self.buffer@
    }
}

impl<'a> Response<'a> {
    /// Wrap a request buffer.
    pub fn new(buffer: &'a [u8]) -> (r: Response<'a>)
        ensures
            r@ == buffer@,
    {
        Response { buffer }
    }

    /// Build the response for this buffer, given what reading the page
    /// file and, when that failed, the fallback document returned. The
    /// caller reads the file that `page_path` names for the parsed URI;
    /// nothing comes back only when the request parsed but neither read
    /// succeeded, which the caller treats as a broken deployment.
    pub fn get_page(&self, page: Option<&String>, fallback: Option<&String>) -> (r: Option<String>)
        ensures
            opt_out(r) == spec_get_page(lossy_of(self@), opt_text(page), opt_text(fallback)),
    {
        let req = Request::new(self.buffer).parse();
        match req {
            None => Some(response(400, "Bad ass Request", "", "")),
            Some(_) => match page {
                Some(content) => {
                    let len: usize = content.as_str().len();
                    let mut h = String::from_str("Content-Length: ");
                    let num = u64_to_string(len as u64);
                    h.append(num.as_str());
                    proof {
                        assert(h@ =~= spec_length_header(content@));
                    }
                    Some(response(200, "OK", h.as_str(), content.as_str()))
                },
                None => match fallback {
                    Some(f) => Some(response(200, "OK", "", f.as_str())),
                    None => None,
                },
            },
        }
    }
}

} // verus!
