use vstd::prelude::*;
use vstd::string::*;
use vstd::utf8::*;

use crate::message::{Error, Frame, FrameModel, Header, Message, MessageModel, Method, Version, method_name};
use crate::text::{
    copy_range, find_char, find_char_from, find_word, find_word_from, lemma_find_char_bounds,
    lemma_find_word_bounds, read_unsigned, skip_spaces, skip_spaces_from, token_end, token_end_from,
    trim_start, unsigned_value,
};

verus! {

/// The index of the line feed that ends the line starting at `i`, or the length.
pub open spec fn line_end(t: Seq<char>, i: int) -> int {
    find_char(t, '\n', i)
}

/// The text of the line starting at `i`: up to its line feed, without a
/// carriage return that stands right before that line feed.
pub open spec fn line_at(t: Seq<char>, i: int) -> Seq<char> {
    let e = line_end(t, i);
    if i < e < t.len() && t[e - 1] == '\r' {
        t.subrange(i, e - 1)
    } else {
        t.subrange(i, e)
    }
}

/// Where the line after the one starting at `i` begins.
pub open spec fn next_line(t: Seq<char>, i: int) -> int {
    let e = line_end(t, i);
    if e < t.len() {
        e + 1
    } else {
        t.len() as int
    }
}

/// The header lines from the line at `i` up to the first blank line or the end
/// of the text, and where the text after that blank line begins.
pub open spec fn header_lines(t: Seq<char>, i: int) -> (Seq<Seq<char>>, int)
    decreases t.len() - i,
    via header_lines_decreases
{
    if i < 0 || i >= t.len() {
        (Seq::empty(), t.len() as int)
    } else if line_at(t, i).len() == 0 {
        (Seq::empty(), next_line(t, i))
    } else {
        let rest = header_lines(t, next_line(t, i));
        (seq![line_at(t, i)] + rest.0, rest.1)
    }
}

#[via_fn]
proof fn header_lines_decreases(t: Seq<char>, i: int) {
    if 0 <= i < t.len() {
        lemma_find_char_bounds(t, '\n', i);
    }
}

/// A header line: the name before the first colon, the value after it with
/// leading white space removed; neither may be empty.
pub open spec fn header_of(l: Seq<char>) -> Option<(Seq<char>, Seq<char>)> {
    let c = find_char(l, ':', 0);
    let name = l.subrange(0, c);
    let value = if c < l.len() {
        trim_start(l.subrange(c + 1, l.len() as int))
    } else {
        Seq::empty()
    };
    if name.len() == 0 || value.len() == 0 {
        None
    } else {
        Some((name, value))
    }
}

/// The headers of the given lines, in their order, if every line is a header.
pub open spec fn headers_of(ls: Seq<Seq<char>>) -> Option<Seq<(Seq<char>, Seq<char>)>> {
    if forall|k: int| 0 <= k < ls.len() ==> (#[trigger] header_of(ls[k])) is Some {
        Some(ls.map_values(|l: Seq<char>| header_of(l)->Some_0))
    } else {
        None
    }
}

/// Whether `tok` spells the method's name, ignoring ASCII case.
pub open spec fn names_method(tok: Seq<char>, m: Method) -> bool {
    &&& tok.len() == method_name(m).len()
    &&& forall|k: int| 0 <= k < tok.len() ==> ascii_upper(#[trigger] tok[k]) == method_name(m)[k] as u32
}

/// The code point of `c` with ASCII lower-case letters made upper-case.
pub open spec fn ascii_upper(c: char) -> u32 {
    let v = c as u32;
    if 97 <= v <= 122 {
        (v - 32) as u32
    } else {
        v
    }
}

pub open spec fn method_of(tok: Seq<char>) -> Option<Method> {
    if names_method(tok, Method::Get) {
        Some(Method::Get)
    } else if names_method(tok, Method::Head) {
        Some(Method::Head)
    } else if names_method(tok, Method::Post) {
        Some(Method::Post)
    } else if names_method(tok, Method::Put) {
        Some(Method::Put)
    } else if names_method(tok, Method::Delete) {
        Some(Method::Delete)
    } else if names_method(tok, Method::Connect) {
        Some(Method::Connect)
    } else if names_method(tok, Method::Options) {
        Some(Method::Options)
    } else if names_method(tok, Method::Trace) {
        Some(Method::Trace)
    } else if names_method(tok, Method::Patch) {
        Some(Method::Patch)
    } else {
        None
    }
}

pub open spec fn http_word() -> Seq<char> {
    seq!['H', 'T', 'T', 'P', '/']
}

/// A version token: after the first `HTTP/` (and before any later one), the
/// major number up to the first dot, the minor number up to the next dot.
pub open spec fn version_of(tok: Seq<char>) -> Option<Version> {
    let h = find_word(tok, http_word(), 0);
    if h >= tok.len() {
        None
    } else {
        let p = tok.subrange(h + 5, find_word(tok, http_word(), h + 5));
        let d = find_char(p, '.', 0);
        if d >= p.len() {
            None
        } else {
            let q = p.subrange(d + 1, p.len() as int);
            let major = unsigned_value(p.subrange(0, d));
            let minor = unsigned_value(q.subrange(0, find_char(q, '.', 0)));
            if major is Some && minor is Some && major->Some_0 < 256 && minor->Some_0 < 256 {
                Some(Version { major: major->Some_0 as u8, minor: minor->Some_0 as u8 })
            } else {
                None
            }
        }
    }
}

/// The first three white-space separated tokens of a start line, read as
/// method, target and version.
pub open spec fn status_of(l: Seq<char>) -> Option<(Method, Seq<char>, Version)> {
    let a0 = skip_spaces(l, 0);
    let b0 = token_end(l, a0);
    let a1 = skip_spaces(l, b0);
    let b1 = token_end(l, a1);
    let a2 = skip_spaces(l, b1);
    let b2 = token_end(l, a2);
    if a2 >= l.len() {
        None
    } else {
        let m = method_of(l.subrange(a0, b0));
        let v = version_of(l.subrange(a2, b2));
        if m is Some && v is Some {
            Some((m->Some_0, l.subrange(a1, b1), v->Some_0))
        } else {
            None
        }
    }
}

pub open spec fn content_length_name() -> Seq<char> {
    seq!['C', 'o', 'n', 't', 'e', 'n', 't', '-', 'L', 'e', 'n', 'g', 't', 'h']
}

/// The index of the first header at or after `k` with the given name, or the length.
pub open spec fn first_named(hs: Seq<(Seq<char>, Seq<char>)>, name: Seq<char>, k: int) -> int
    decreases hs.len() - k,
{
    if k < 0 || k >= hs.len() {
        hs.len() as int
    } else if hs[k].0 == name {
        k
    } else {
        first_named(hs, name, k + 1)
    }
}

/// What the headers say of the body's length.
pub enum BodyLength {
    Absent,
    Declared(nat),
    Invalid,
}

/// The body length given by the first `Content-Length` header.
pub open spec fn body_length(hs: Seq<(Seq<char>, Seq<char>)>) -> BodyLength {
    let k = first_named(hs, content_length_name(), 0);
    if k >= hs.len() {
        BodyLength::Absent
    } else {
        match unsigned_value(hs[k].1) {
            Some(v) => if v <= usize::MAX {
                BodyLength::Declared(v)
            } else {
                BodyLength::Invalid
            },
            None => BodyLength::Invalid,
        }
    }
}

/// The request that a text holds, if it holds one.
pub open spec fn request_of_text(t: Seq<char>) -> Option<MessageModel> {
    if t.len() == 0 {
        None
    } else {
        let status = status_of(line_at(t, 0));
        let section = header_lines(t, next_line(t, 0));
        let headers = headers_of(section.0);
        if status is None || headers is None {
            None
        } else {
            let (method, target, version) = status->Some_0;
            let hs = headers->Some_0;
            match body_length(hs) {
                BodyLength::Invalid => None,
                BodyLength::Absent => Some(
                    MessageModel::Request {
                        method,
                        target,
                        version,
                        frames: seq![FrameModel::Headers(hs)],
                    },
                ),
                BodyLength::Declared(n) => {
                    let p = section.1;
                    let q = if p + n <= t.len() {
                        p + n
                    } else {
                        t.len() as int
                    };
                    Some(
                        MessageModel::Request {
                            method,
                            target,
                            version,
                            frames: seq![
                                FrameModel::Headers(hs),
                                FrameModel::Data(encode_utf8(t.subrange(p, q))),
                            ],
                        },
                    )
                },
            }
        }
    }
}

/// The request that raw bytes hold: they must be UTF-8 text, and that text a request.
pub open spec fn request_of(b: Seq<u8>) -> Option<MessageModel> {
    if valid_utf8(b) {
        request_of_text(decode_utf8(b))
    } else {
        None
    }
}

/// Relies on `std::str::from_utf8`: it accepts exactly the valid UTF-8 byte
/// strings and then returns the text they encode.
#[verifier::external_body]
fn utf8_text(b: &[u8]) -> (r: Option<&str>)
    ensures
        r is Some <==> valid_utf8(b@),
        r is Some ==> r->Some_0@ == decode_utf8(b@),
{
    std::str::from_utf8(b).ok()
}

/// The characters of a text, one by one.
fn chars_of(s: &str) -> (r: Vec<char>)
    ensures
        r@ == s@,
{
    let n = s.unicode_len();
    let mut r: Vec<char> = Vec::new();
    let mut k: usize = 0;
    while k < n
        invariant
            k <= n,
            n == s@.len(),
            r@ == s@.subrange(0, k as int),
        decreases n - k,
    {
        r.push(s.get_char(k));
        k = k + 1;
        assert(r@ =~= s@.subrange(0, k as int));
    }
    assert(r@ =~= s@);
    r
}

/// The owned text of the characters of `s` from `a` up to `b`.
fn owned_range(s: &str, a: usize, b: usize) -> (r: String)
    requires
        a <= b <= s@.len(),
    ensures
        r@ == s@.subrange(a as int, b as int),
{
    s.substring_char(a, b).to_owned()
}

fn method_word(m: Method) -> (r: &'static str)
    ensures
        r@ == method_name(m),
{
    match m {
        Method::Get => {
            proof {
                reveal_strlit("GET");
            }
            "GET"
        },
        Method::Head => {
            proof {
                reveal_strlit("HEAD");
            }
            "HEAD"
        },
        Method::Post => {
            proof {
                reveal_strlit("POST");
            }
            "POST"
        },
        Method::Put => {
            proof {
                reveal_strlit("PUT");
            }
            "PUT"
        },
        Method::Delete => {
            proof {
                reveal_strlit("DELETE");
            }
            "DELETE"
        },
        Method::Connect => {
            proof {
                reveal_strlit("CONNECT");
            }
            "CONNECT"
        },
        Method::Options => {
            proof {
                reveal_strlit("OPTIONS");
            }
            "OPTIONS"
        },
        Method::Trace => {
            proof {
                reveal_strlit("TRACE");
            }
            "TRACE"
        },
        Method::Patch => {
            proof {
                reveal_strlit("PATCH");
            }
            "PATCH"
        },
    }
}

impl Method {
    /// The method's name in upper case, as written on the wire.
    pub fn name(self) -> (r: &'static str)
        ensures
            r@ == method_name(self),
    {
        method_word(self)
    }

    /// Whether `tok` spells this method's name, ignoring ASCII case.
    pub fn is_named_by(self, tok: &Vec<char>) -> (r: bool)
        ensures
            r == names_method(tok@, self),
    {
        let w = chars_of(method_word(self));
        if tok.len() != w.len() {
            return false;
        }
        let mut k: usize = 0;
        while k < tok.len()
            invariant
                k <= tok@.len(),
                tok@.len() == w@.len(),
                w@ == method_name(self),
                forall|j: int| 0 <= j < k ==> ascii_upper(#[trigger] tok@[j]) == w@[j] as u32,
            decreases tok@.len() - k,
        {
            let v = tok[k] as u32;
            let u = if 97 <= v && v <= 122 {
                v - 32
            } else {
                v
            };
            if u != w[k] as u32 {
                assert(ascii_upper(tok@[k as int]) != w@[k as int] as u32);
                return false;
            }
            k = k + 1;
        }
        true
    }

    /// The method that `tok` names, ignoring ASCII case.
    pub fn from_token(tok: &Vec<char>) -> (r: Option<Method>)
        ensures
            r == method_of(tok@),
    {
        if Method::Get.is_named_by(tok) {
            Some(Method::Get)
        } else if Method::Head.is_named_by(tok) {
            Some(Method::Head)
        } else if Method::Post.is_named_by(tok) {
            Some(Method::Post)
        } else if Method::Put.is_named_by(tok) {
            Some(Method::Put)
        } else if Method::Delete.is_named_by(tok) {
            Some(Method::Delete)
        } else if Method::Connect.is_named_by(tok) {
            Some(Method::Connect)
        } else if Method::Options.is_named_by(tok) {
            Some(Method::Options)
        } else if Method::Trace.is_named_by(tok) {
            Some(Method::Trace)
        } else if Method::Patch.is_named_by(tok) {
            Some(Method::Patch)
        } else {
            None
        }
    }
}

impl Version {
    /// Reads a version token such as `HTTP/1.1`.
    pub fn from_token(tok: &Vec<char>) -> (r: Option<Version>)
        ensures
            r == version_of(tok@),
    {
        proof {
            reveal_strlit("HTTP/");
        }
        let http = chars_of("HTTP/");
        assert(http@ =~= http_word());
        let h = find_word_from(tok, &http, 0);
        proof {
            lemma_find_word_bounds(tok@, http@, 0);
        }
        if h >= tok.len() {
            return None;
        }
        let after = h + 5;
        let stop = find_word_from(tok, &http, after);
        proof {
            lemma_find_word_bounds(tok@, http@, after as int);
        }
        let p = copy_range(tok, after, stop);
        let d = find_char_from(&p, '.', 0);
        if d >= p.len() {
            return None;
        }
        let majors = copy_range(&p, 0, d);
        let q = copy_range(&p, d + 1, p.len());
        let d2 = find_char_from(&q, '.', 0);
        let minors = copy_range(&q, 0, d2);
        let major = read_unsigned(&majors, 255);
        let minor = read_unsigned(&minors, 255);
        match (major, minor) {
            (Some(a), Some(b)) => Some(Version { major: a as u8, minor: b as u8 }),
            _ => None,
        }
    }
}

/// Where the text of the line from `i` ends, given the line feed position `e`.
fn content_end(t: &Vec<char>, i: usize, e: usize) -> (r: usize)
    requires
        i <= e <= t@.len(),
        e == line_end(t@, i as int),
    ensures
        line_at(t@, i as int) == t@.subrange(i as int, r as int),
        i <= r <= e,
{
    if i < e && e < t.len() && t[e - 1] == '\r' {
        e - 1
    } else {
        e
    }
}

impl Message {
    /// Reads a start line: method, target and version.
    fn parse_status_line(text: &str, line: &Vec<char>) -> (r: Option<(Method, String, Version)>)
        requires
            line@.len() <= text@.len(),
            line@ == text@.subrange(0, line@.len() as int),
        ensures
            match status_of(line@) {
                Some((m, target, v)) => r is Some && r->Some_0.0 == m && r->Some_0.1@ == target
                    && r->Some_0.2 == v,
                None => r is None,
            },
    {
        let a0 = skip_spaces_from(line, 0);
        let b0 = token_end_from(line, a0);
        let a1 = skip_spaces_from(line, b0);
        let b1 = token_end_from(line, a1);
        let a2 = skip_spaces_from(line, b1);
        let b2 = token_end_from(line, a2);
        if a2 >= line.len() {
            return None;
        }
        let tok0 = copy_range(line, a0, b0);
        let tok2 = copy_range(line, a2, b2);
        let method = Method::from_token(&tok0);
        let version = Version::from_token(&tok2);
        match (method, version) {
            (Some(m), Some(v)) => {
                let target = owned_range(text, a1, b1);
                assert(target@ =~= line@.subrange(a1 as int, b1 as int));
                Some((m, target, v))
            },
            _ => None,
        }
    }

    /// Reads one header line that starts at `at` in `text`.
    fn parse_header_line(text: &str, line: &Vec<char>, at: usize) -> (r: Option<Header>)
        requires
            at + line@.len() <= text@.len() <= usize::MAX,
            line@ == text@.subrange(at as int, at + line@.len()),
        ensures
            match header_of(line@) {
                Some(h) => r is Some && r->Some_0@ == h,
                None => r is None,
            },
    {
        let c = find_char_from(line, ':', 0);
        if c == 0 || c == line.len() {
            return None;
        }
        let rest = copy_range(line, c + 1, line.len());
        let s = skip_spaces_from(&rest, 0);
        if s == rest.len() {
            return None;
        }
        let name = owned_range(text, at, at + c);
        let value = owned_range(text, at + c + 1 + s, at + line.len());
        assert(name@ =~= line@.subrange(0, c as int));
        assert(value@ =~= trim_start(rest@));
        Some(Header { name, value })
    }
}

impl Message {
    /// Reads a request from raw bytes.
    pub fn parse(buffer: &[u8]) -> (r: Result<Message, Error>)
        ensures
            match request_of(buffer@) {
                Some(m) => r is Ok && r->Ok_0@ == m,
                None => r == Err::<Message, Error>(Error::Malformed),
            },
    {
        let text = match utf8_text(buffer) {
            Some(s) => s,
            None => return Err(Error::Malformed),
        };
        let t = chars_of(text);
        let n = t.len();
        if n == 0 {
            return Err(Error::Malformed);
        }
        let e0 = find_char_from(&t, '\n', 0);
        let l0 = content_end(&t, 0, e0);
        let line0 = copy_range(&t, 0, l0);
        let (method, target, version) = match Self::parse_status_line(text, &line0) {
            Some(s) => s,
            None => return Err(Error::Malformed),
        };
        let first: usize = if e0 < n {
            e0 + 1
        } else {
            n
        };
        let (headers, body_start) = match Self::parse_headers(text, &t, first) {
            Some(r) => r,
            None => return Err(Error::Malformed),
        };
        let ghost hs = headers@.map_values(|h: Header| h@);
        let declared = match Self::declared_length(&headers) {
            Ok(d) => d,
            Err(e) => return Err(e),
        };
        proof {
            assert(line0@ == line_at(t@, 0));
            assert(status_of(line_at(t@, 0)) == Some((method, target@, version)));
            assert(header_lines(t@, next_line(t@, 0)).1 == body_start as int);
        }
        let mut frames: Vec<Frame> = Vec::new();
        frames.push(Frame::Headers { headers });
        match declared {
            None => {
                assert(frames@.map_values(|f: Frame| f@) =~= seq![FrameModel::Headers(hs)]);
            },
            Some(len) => {
                let end = if len <= n - body_start {
                    body_start + len
                } else {
                    n
                };
                let payload = text.substring_char(body_start, end).as_bytes_vec();
                let ghost data = encode_utf8(t@.subrange(body_start as int, end as int));
                frames.push(Frame::Data { payload });
                assert(frames@.map_values(|f: Frame| f@) =~= seq![
                    FrameModel::Headers(hs),
                    FrameModel::Data(data),
                ]);
            },
        }
        let m = Message::Request { method, target, version, frames };
        Ok(m)
    }

    /// Reads the header lines from `first` up to the blank line that ends
    /// them, or the end of the text; also returns where the text after that
    /// blank line begins.
    fn parse_headers(text: &str, t: &Vec<char>, first: usize) -> (r: Option<(Vec<Header>, usize)>)
        requires
            t@ == text@,
            first <= t@.len(),
        ensures
            match headers_of(header_lines(t@, first as int).0) {
                Some(hs) => r is Some && r->Some_0.0@.map_values(|h: Header| h@) == hs
                    && r->Some_0.1 == header_lines(t@, first as int).1 && r->Some_0.1 <= t@.len(),
                None => r is None,
            },
    {
        let n = t.len();
        let mut headers: Vec<Header> = Vec::new();
        let ghost mut seen: Seq<Seq<char>> = Seq::empty();
        let mut i = first;
        let mut body_start = n;
        while i < n
            invariant_except_break
                body_start == n,
            invariant
                n == t@.len(),
                t@ == text@,
                n <= usize::MAX,
                headers@.len() == seen.len(),
                first <= i <= n,
                header_lines(t@, first as int) == (
                    seen + header_lines(t@, i as int).0,
                    header_lines(t@, i as int).1,
                ),
                headers@.map_values(|h: Header| h@) == seen.map_values(
                    |l: Seq<char>| header_of(l)->Some_0,
                ),
                forall|k: int| 0 <= k < seen.len() ==> (#[trigger] header_of(seen[k])) is Some,
            ensures
                header_lines(t@, first as int) == (seen, body_start as int),
                body_start <= n,
                headers@.map_values(|h: Header| h@) == seen.map_values(
                    |l: Seq<char>| header_of(l)->Some_0,
                ),
                forall|k: int| 0 <= k < seen.len() ==> (#[trigger] header_of(seen[k])) is Some,
            decreases n - i,
        {
            let e = find_char_from(t, '\n', i);
            let l = content_end(t, i, e);
            let next: usize = if e < n {
                e + 1
            } else {
                n
            };
            if l == i {
                body_start = next;
                assert(seen + Seq::<Seq<char>>::empty() =~= seen);
                break;
            }
            let line = copy_range(t, i, l);
            let h = match Self::parse_header_line(text, &line, i) {
                Some(h) => h,
                None => {
                    proof {
                        let all = header_lines(t@, first as int).0;
                        assert(line_at(t@, i as int) == line@);
                        assert(all[seen.len() as int] == line@);
                        assert(header_of(all[seen.len() as int]) is None);
                        assert(headers_of(all) is None);
                    }
                    return None;
                },
            };
            proof {
                let rest = header_lines(t@, next as int);
                assert(seen + (seq![line@] + rest.0) =~= seen.push(line@) + rest.0);
            }
            let ghost old_headers = headers@;
            let ghost old_seen = seen;
            let ghost hv = h@;
            assert(hv == header_of(line@)->Some_0);
            headers.push(h);
            proof {
                seen = seen.push(line@);
                assert forall|k: int| 0 <= k < seen.len() implies (#[trigger] headers@[k])@
                    == header_of(seen[k])->Some_0 by {
                    if k == old_seen.len() {
                        assert(headers@[k] == h);
                    } else {
                        assert(old_headers.map_values(|h: Header| h@)[k] == old_seen.map_values(
                            |l: Seq<char>| header_of(l)->Some_0,
                        )[k]);
                    }
                }
                assert(headers@.map_values(|h: Header| h@) =~= seen.map_values(
                    |l: Seq<char>| header_of(l)->Some_0,
                ));
            }
            i = next;
        }
        if i >= n {
            assert(seen + Seq::<Seq<char>>::empty() =~= seen);
        }
        assert(headers_of(seen) == Some(headers@.map_values(|h: Header| h@)));
        Some((headers, body_start))
    }

    /// The length that the first `Content-Length` header declares, if there is one.
    fn declared_length(headers: &Vec<Header>) -> (r: Result<Option<usize>, Error>)
        ensures
            match body_length(headers@.map_values(|h: Header| h@)) {
                BodyLength::Absent => r == Ok::<Option<usize>, Error>(None),
                BodyLength::Declared(v) => r == Ok::<Option<usize>, Error>(Some(v as usize)),
                BodyLength::Invalid => r == Err::<Option<usize>, Error>(Error::Malformed),
            },
    {
        let ghost hs = headers@.map_values(|h: Header| h@);
        proof {
            reveal_strlit("Content-Length");
        }
        let key = chars_of("Content-Length");
        assert(key@ =~= content_length_name());
        let mut k: usize = 0;
        while k < headers.len()
            invariant
                k <= headers@.len(),
                hs == headers@.map_values(|h: Header| h@),
                key@ == content_length_name(),
                first_named(hs, content_length_name(), 0) == first_named(
                    hs,
                    content_length_name(),
                    k as int,
                ),
            decreases headers@.len() - k,
        {
            let name = chars_of(headers[k].name.as_str());
            if name.len() == key.len() && Self::same_chars(&name, &key) {
                let value = chars_of(headers[k].value.as_str());
                return match read_unsigned(&value, usize::MAX) {
                    Some(v) => Ok(Some(v)),
                    None => Err(Error::Malformed),
                };
            }
            k = k + 1;
        }
        Ok(None)
    }

    fn same_chars(a: &Vec<char>, b: &Vec<char>) -> (r: bool)
        requires
            a@.len() == b@.len(),
        ensures
            r == (a@ == b@),
    {
        let mut k: usize = 0;
        while k < a.len()
            invariant
                k <= a@.len(),
                a@.len() == b@.len(),
                forall|j: int| 0 <= j < k ==> a@[j] == b@[j],
            decreases a@.len() - k,
        {
            if a[k] != b[k] {
                return false;
            }
            k = k + 1;
        }
        assert(a@ =~= b@);
        true
    }
}

} // verus!
