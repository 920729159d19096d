//! The request parser: raw bytes to a structured request, or nothing when
//! the request line is unusable.
use crate::headers::{spec_insert, HeaderMap};
use crate::text::{
    find_char, first_occ, lossy_decode, lossy_of, parse_u64_digits, remove_nuls, spec_lines,
    spec_parse_u64, spec_split, spec_starts_with, spec_trim, split_char, split_lines,
    str_starts_with, strip_nuls, trim,
};
use vstd::prelude::*;
use vstd::string::*;

verus! {

/// The protocol version from the request line, as the numeric text after
/// the `HTTP/` prefix: the digits before the dot and the digits after it
/// (zero when there is no dot).
#[derive(Clone, Copy, Debug, PartialEq, Eq, Structural)]
pub struct HttpVersion {
    pub major: u64,
    pub minor: u64,
}

/// The mathematical content of a parsed request.
pub ghost struct SpecRequest {
    pub method: Seq<char>,
    pub uri: Seq<char>,
    pub version: (int, int),
    pub headers: Seq<(Seq<char>, Seq<char>)>,
    pub body: Seq<char>,
}

/// Everything extracted from one request buffer.
pub struct ParsedRequest {
    pub method: String,
    pub uri: String,
    pub http_version: HttpVersion,
    pub headers: HeaderMap,
    pub body: String,
}

impl View for ParsedRequest {
    type V = SpecRequest;

    open spec fn view(&self) -> SpecRequest {
        SpecRequest {
            method: self.method@,
            uri: self.uri@,
            version: (self.http_version.major as int, self.http_version.minor as int),
            headers: self.headers@,
            body: self.body@,
        }
    }
}

/// The version token with its `HTTP/` prefix stripped, when present.
pub open spec fn spec_version_token(tok: Seq<char>) -> Seq<char> {
    if spec_starts_with(tok, "HTTP/"@) {
        tok.skip(5)
    } else {
        tok
    }
}

/// The version a token denotes: after stripping the `HTTP/` prefix, one
/// run of decimal digits, optionally followed by a dot and a second run.
pub open spec fn spec_parse_version(tok: Seq<char>) -> Option<(int, int)> {
    let t = spec_version_token(tok);
    let i = first_occ(t, '.');
    if i < 0 || i >= t.len() {
        match spec_parse_u64(t) {
            Some(v) => Some((v, 0)),
            None => None,
        }
    } else {
        match (spec_parse_u64(t.take(i)), spec_parse_u64(t.skip(i + 1))) {
            (Some(ma), Some(mi)) => Some((ma, mi)),
            _ => None,
        }
    }
}

/// One line's effect on the header entries: a line with a colon adds the
/// trimmed parts before and after the first colon, both non-empty, and a
/// repeated name overwrites in place; any other line adds nothing.
pub open spec fn spec_header_line(
    acc: Seq<(Seq<char>, Seq<char>)>,
    line: Seq<char>,
) -> Seq<(Seq<char>, Seq<char>)> {
    let i = first_occ(line, ':');
    if i < 0 || i >= line.len() {
        acc
    } else {
        let k = spec_trim(line.take(i));
        let v = spec_trim(line.skip(i + 1));
        if k.len() > 0 && v.len() > 0 {
            spec_insert(acc, k, v)
        } else {
            acc
        }
    }
}

pub open spec fn spec_headers_fold(
    lines: Seq<Seq<char>>,
    acc: Seq<(Seq<char>, Seq<char>)>,
) -> Seq<(Seq<char>, Seq<char>)>
    decreases lines.len(),
{
    if lines.len() == 0 {
        acc
    } else {
        spec_headers_fold(lines.drop_first(), spec_header_line(acc, lines[0]))
    }
}

/// The header entries gathered from the lines after the request line.
pub open spec fn spec_headers(lines: Seq<Seq<char>>) -> Seq<(Seq<char>, Seq<char>)> {
    spec_headers_fold(lines, Seq::empty())
}

/// The body: the line after the first empty line, trimmed and with null
/// characters removed; empty when no empty line is followed by a line.
pub open spec fn spec_body(lines: Seq<Seq<char>>) -> Seq<char>
    decreases lines.len(),
{
    if lines.len() == 0 {
        Seq::empty()
    } else if lines[0].len() == 0 {
        if lines.len() >= 2 {
            remove_nuls(spec_trim(lines[1]))
        } else {
            Seq::empty()
        }
    } else {
        spec_body(lines.drop_first())
    }
}

/// What parsing a request text yields: nothing when the text has no line,
/// when the first line has fewer than three space-separated tokens, or
/// when the third token denotes no version; otherwise the first two
/// tokens, the version, and the headers and body of the later lines.
pub open spec fn spec_parse(s: Seq<char>) -> Option<SpecRequest> {
    let lines = spec_lines(s);
    if lines.len() == 0 {
        None
    } else {
        let tokens = spec_split(lines[0], ' ');
        if tokens.len() < 3 {
            None
        } else {
            match spec_parse_version(tokens[2]) {
                None => None,
                Some(ver) => Some(
                    SpecRequest {
                        method: tokens[0],
                        uri: tokens[1],
                        version: ver,
                        headers: spec_headers(lines.drop_first()),
                        body: spec_body(lines.drop_first()),
                    },
                ),
            }
        }
    }
}

/// The parse outcome as mathematical content.
pub open spec fn parse_outcome(r: Option<ParsedRequest>) -> Option<SpecRequest> {
    match r {
        Some(p) => Some(p@),
        None => None,
    }
}

/// An unusable text never parses: either it has no line at all, or its
/// first line has fewer than three space-separated tokens.
pub proof fn lemma_malformed_rejected(s: Seq<char>)
    requires
        spec_lines(s).len() == 0 || spec_split(spec_lines(s)[0], ' ').len() < 3,
    ensures
        spec_parse(s) is None,
{
}

/// An empty text never parses.
pub proof fn lemma_empty_rejected(s: Seq<char>)
    requires
        s.len() == 0,
    ensures
        spec_parse(s) is None,
{
}

fn parse_version(tok: &str) -> (r: Option<HttpVersion>)
    ensures
        (match r {
            Some(v) => Some((v.major as int, v.minor as int)),
            None => None::<(int, int)>,
        }) == spec_parse_version(tok@),
{
    let n: usize = tok.unicode_len();
    let rest: String = if str_starts_with(tok, "HTTP/") {
        proof {
            reveal_strlit("HTTP/");
        }
        let sub = tok.substring_char(5, n);
        proof {
            assert(sub@ =~= tok@.skip(5));
        }
        String::from_str(sub)
    } else {
        String::from_str(tok)
    };
    let ghost t = spec_version_token(tok@);
    let m: usize = rest.unicode_len();
    match find_char(rest.as_str(), '.') {
        None => {
            match parse_u64_digits(rest.as_str()) {
                None => None,
                Some(v) => Some(HttpVersion { major: v, minor: 0 }),
            }
        },
        Some(i) => {
            proof {
                crate::text::lemma_first_occ_bounds(t, '.');
            }
            let major_s = rest.as_str().substring_char(0, i);
            let minor_s = rest.as_str().substring_char(i + 1, m);
            proof {
                assert(major_s@ =~= t.take(i as int));
                assert(minor_s@ =~= t.skip(i as int + 1));
            }
            match parse_u64_digits(major_s) {
                None => None,
                Some(ma) => {
                    match parse_u64_digits(minor_s) {
                        None => None,
                        Some(mi) => Some(HttpVersion { major: ma, minor: mi }),
                    }
                },
            }
        },
    }
}

/// Parse a request text: the first line gives method, URI and version,
/// the later lines give headers, and the line after the first empty line
/// gives the body.
pub fn parse_text(text: &str) -> (r: Option<ParsedRequest>)
    ensures
        parse_outcome(r) == spec_parse(text@),
        r matches Some(p) ==> p.headers.wf(),
{
    let lines: Vec<String> = split_lines(text);
    let ghost ldv = lines.deep_view();
    let n: usize = lines.len();
    proof {
        assert(ldv.len() == n);
    }
    if n == 0 {
        return None;
    }
    let tokens: Vec<String> = split_char(lines[0].as_str(), ' ');
    let ghost tdv = tokens.deep_view();
    proof {
        assert(lines[0].deep_view() == ldv[0]);
        assert(tdv == spec_split(ldv[0], ' '));
    }
    if tokens.len() < 3 {
        return None;
    }
    let version = match parse_version(tokens[2].as_str()) {
        None => {
            proof {
                assert(tokens[2].deep_view() == tdv[2]);
            }
            return None;
        },
        Some(v) => v,
    };
    proof {
        assert(tokens[2].deep_view() == tdv[2]);
    }
    let method = tokens[0].clone();
    let uri = tokens[1].clone();
    proof {
        assert(tokens[0].deep_view() == tdv[0]);
        assert(tokens[1].deep_view() == tdv[1]);
    }
    let mut headers = HeaderMap::new();
    let mut body = String::new();
    let mut body_found: bool = false;
    let ghost rest = ldv.skip(1);
    let mut i: usize = 1;
    proof {
        assert(ldv.skip(1) =~= rest);
    }
    while i < n
        invariant
            n == lines.len(),
            ldv == lines.deep_view(),
            ldv.len() == n,
            rest == ldv.skip(1),
            1 <= i <= n,
            headers.wf(),
            spec_headers_fold(rest, Seq::empty()) == spec_headers_fold(ldv.skip(i as int), headers@),
            body_found ==> body@ == spec_body(rest),
            !body_found ==> spec_body(rest) == spec_body(ldv.skip(i as int)) && body@ == Seq::<
                char,
            >::empty(),
        decreases n - i,
    {
        let ghost tail = ldv.skip(i as int);
        proof {
            assert(tail[0] == ldv[i as int]);
            assert(tail.drop_first() =~= ldv.skip(i as int + 1));
            assert(lines[i as int].deep_view() == ldv[i as int]);
        }
        let line_len: usize = lines[i].as_str().unicode_len();
        if !body_found && line_len == 0 {
            if i + 1 < n {
                proof {
                    assert(lines[i as int + 1].deep_view() == ldv[i as int + 1]);
                    assert(tail[1] == ldv[i as int + 1]);
                }
                let trimmed = trim(lines[i + 1].as_str());
                body = strip_nuls(trimmed.as_str());
            }
            body_found = true;
        }
        let colon = find_char(lines[i].as_str(), ':');
        match colon {
            None => {
            },
            Some(ci) => {
                proof {
                    crate::text::lemma_first_occ_bounds(ldv[i as int], ':');
                }
                let k = trim(lines[i].as_str().substring_char(0, ci));
                let v = trim(lines[i].as_str().substring_char(ci + 1, line_len));
                proof {
                    assert(ldv[i as int].subrange(0, ci as int) =~= ldv[i as int].take(ci as int));
                    assert(ldv[i as int].subrange(ci as int + 1, ldv[i as int].len() as int) =~= ldv[
                    i as int].skip(ci as int + 1));
                }
                if k.unicode_len() > 0 && v.unicode_len() > 0 {
                    headers.insert(k, v);
                }
            },
        }
        i = i + 1;
    }
    proof {
        assert(ldv.skip(n as int) =~= Seq::<Seq<char>>::empty());
    }
    Some(
        ParsedRequest {
            method,
            uri,
            http_version: version,
            headers,
            body,
        },
    )
}

/// A request buffer waiting to be parsed.
pub struct Request<'a> {
    buffer: &'a [u8],
}

impl<'a> View for Request<'a> {
    type V = Seq<u8>;

    closed spec fn view(&self) -> Seq<u8> {
        self.buffer@
    }
}

impl<'a> Request<'a> {
    /// Wrap a request buffer.
    pub fn new(buffer: &'a [u8]) -> (r: Request<'a>)
        ensures
            r@ == buffer@,
    {
        Request { buffer }
    }

    /// Parse the buffer after a lossy text decoding. Nothing comes back
    /// when the decoded text has no line, its first line has fewer than
    /// three space-separated tokens, or its version token denotes no
    /// version; an empty buffer is such a case.
    pub fn parse(&self) -> (r: Option<ParsedRequest>)
        ensures
            parse_outcome(r) == spec_parse(lossy_of(self@)),
            r matches Some(p) ==> p.headers.wf(),
            self@.len() == 0 ==> r is None,
    {
        let text = lossy_decode(self.buffer);
        let r = parse_text(text.as_str());
        proof {
            if self@.len() == 0 {
                lemma_empty_rejected(text@);
            }
        }
        r
    }
}

} // verus!
