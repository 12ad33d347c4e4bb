use vstd::prelude::*;
use vstd::utf8::*;

use crate::message::{FrameModel, MessageModel, Method, Version, method_name};
use crate::parse::{
    ascii_upper, content_length_name, first_named, header_lines, header_of, headers_of,
    http_word, line_at, method_of, names_method, next_line, request_of, request_of_text,
    status_of, version_of,
};
use crate::serialize::{crlf, decimal, digit_char, header_text, version_text};
use crate::text::{
    digits_value, find_char, find_word, is_digit, is_space, skip_spaces, token_end, trim_start,
    unsigned_digits, unsigned_value,
};
use crate::serialize::{frames_of, header_block, lemma_encode_concat, payload_of, start_line, wire_bytes};

verus! {

/// A parsed request lists one header per header line, in the order of the lines.
pub proof fn lemma_header_order(b: Seq<u8>)
    requires
        request_of(b) is Some,
    ensures
        ({
            let t = decode_utf8(b);
            let lines = header_lines(t, next_line(t, 0)).0;
            let fs = frames_of(request_of(b)->Some_0);
            &&& fs.len() >= 1
            &&& fs[0] is Headers
            &&& fs[0]->Headers_0.len() == lines.len()
            &&& forall|k: int|
                0 <= k < lines.len() ==> fs[0]->Headers_0[k] == header_of(#[trigger] lines[k])->Some_0
        }),
{
}

proof fn lemma_names_method_ignores_case(a: Seq<char>, b: Seq<char>, m: Method)
    requires
        a.len() == b.len(),
        forall|k: int| 0 <= k < a.len() ==> ascii_upper(#[trigger] a[k]) == ascii_upper(b[k]),
    ensures
        names_method(a, m) == names_method(b, m),
{
    if names_method(a, m) {
        assert forall|k: int| 0 <= k < b.len() implies ascii_upper(#[trigger] b[k])
            == method_name(m)[k] as u32 by {
            assert(ascii_upper(a[k]) == method_name(m)[k] as u32);
        }
    }
    if names_method(b, m) {
        assert forall|k: int| 0 <= k < a.len() implies ascii_upper(#[trigger] a[k])
            == method_name(m)[k] as u32 by {
            assert(ascii_upper(b[k]) == method_name(m)[k] as u32);
        }
    }
}

/// Two tokens that differ only in ASCII case name the same method, or both none.
pub proof fn lemma_method_ignores_case(a: Seq<char>, b: Seq<char>)
    requires
        a.len() == b.len(),
        forall|k: int| 0 <= k < a.len() ==> ascii_upper(#[trigger] a[k]) == ascii_upper(b[k]),
    ensures
        method_of(a) == method_of(b),
{
    lemma_names_method_ignores_case(a, b, Method::Get);
    lemma_names_method_ignores_case(a, b, Method::Head);
    lemma_names_method_ignores_case(a, b, Method::Post);
    lemma_names_method_ignores_case(a, b, Method::Put);
    lemma_names_method_ignores_case(a, b, Method::Delete);
    lemma_names_method_ignores_case(a, b, Method::Connect);
    lemma_names_method_ignores_case(a, b, Method::Options);
    lemma_names_method_ignores_case(a, b, Method::Trace);
    lemma_names_method_ignores_case(a, b, Method::Patch);
}

/// Between the last header line and the payload there is exactly one blank
/// line, whatever the headers are.
pub proof fn lemma_blank_line_before_payload(m: MessageModel)
    ensures
        wire_bytes(m) == encode_utf8(start_line(m) + header_block(frames_of(m))) + seq![13u8, 10u8]
            + payload_of(frames_of(m)),
{
    let s = start_line(m) + header_block(frames_of(m));
    lemma_encode_concat(s, seq!['\r', '\n']);
    let c = seq!['\r', '\n'];
    assert(is_ascii_chars(c));
    is_ascii_chars_encode_utf8(c);
    assert(encode_utf8(c) =~= seq![13u8, 10u8]);
}

/// A header that is written and read back unchanged: a name without colon,
/// a value that does not start with white space, neither empty, and no line
/// feed in either.
pub open spec fn wire_safe_header(h: (Seq<char>, Seq<char>)) -> bool {
    &&& h.0.len() > 0
    &&& h.1.len() > 0
    &&& !is_space(h.1[0])
    &&& forall|k: int| 0 <= k < h.0.len() ==> #[trigger] h.0[k] != ':' && h.0[k] != '\n'
    &&& forall|k: int| 0 <= k < h.1.len() ==> #[trigger] h.1[k] != '\n'
}

pub open spec fn header_line(h: (Seq<char>, Seq<char>)) -> Seq<char> {
    h.0 + seq![':', ' '] + h.1
}

proof fn lemma_find_char_at(s: Seq<char>, c: char, i: int, j: int)
    requires
        0 <= i <= j < s.len(),
        s[j] == c,
        forall|k: int| i <= k < j ==> s[k] != c,
    ensures
        find_char(s, c, i) == j,
    decreases j - i,
{
    if i < j {
        lemma_find_char_at(s, c, i + 1, j);
    }
}

proof fn lemma_find_char_none(s: Seq<char>, c: char, i: int)
    requires
        0 <= i <= s.len(),
        forall|k: int| i <= k < s.len() ==> s[k] != c,
    ensures
        find_char(s, c, i) == s.len(),
    decreases s.len() - i,
{
    if i < s.len() {
        lemma_find_char_none(s, c, i + 1);
    }
}

proof fn lemma_token_end_at(s: Seq<char>, i: int, j: int)
    requires
        0 <= i <= j <= s.len(),
        j < s.len() ==> is_space(s[j]),
        forall|k: int| i <= k < j ==> !is_space(s[k]),
    ensures
        token_end(s, i) == j,
    decreases j - i,
{
    if i < j {
        lemma_token_end_at(s, i + 1, j);
    }
}

proof fn lemma_find_word_none(s: Seq<char>, w: Seq<char>, i: int)
    requires
        0 <= i <= s.len(),
        w.len() > 0,
        forall|k: int| i <= k < s.len() ==> s[k] != w[0],
    ensures
        find_word(s, w, i) == s.len(),
    decreases s.len() - i,
{
    if i < s.len() && i + w.len() <= s.len() {
        assert(s.subrange(i, i + w.len())[0] != w[0]);
        lemma_find_word_none(s, w, i + 1);
    }
}

proof fn lemma_decimal(n: nat)
    ensures
        decimal(n).len() > 0,
        forall|k: int| 0 <= k < decimal(n).len() ==> is_digit(#[trigger] decimal(n)[k]),
        digits_value(decimal(n)) == n,
        unsigned_value(decimal(n)) == Some(n),
    decreases n,
{
    let ds = seq!['0', '1', '2', '3', '4', '5', '6', '7', '8', '9'];
    assert forall|d: nat| d < 10 implies is_digit(#[trigger] digit_char(d)) && digit_char(d) as u32
        - 48 == d by {
        assert(digit_char(d) == ds[d as int]);
    }
    if n >= 10 {
        lemma_decimal(n / 10);
        assert(decimal(n).drop_last() =~= decimal(n / 10));
        assert(decimal(n).last() == digit_char(n % 10));
        assert(digit_char(n % 10) as u32 - 48 == n % 10);
        assert(digits_value(decimal(n)) == digits_value(decimal(n / 10)) * 10 + n % 10);
        assert((n / 10) * 10 + n % 10 == n) by (nonlinear_arith);
    } else {
        assert(decimal(n).drop_last() =~= Seq::<char>::empty());
        assert(decimal(n).last() == digit_char(n));
        assert(digit_char(n) as u32 - 48 == n);
        assert(digits_value(Seq::<char>::empty()) == 0);
        assert(digits_value(decimal(n)) == n);
    }
    assert(unsigned_digits(decimal(n)) == decimal(n));
}

proof fn lemma_header_text_front(h: (Seq<char>, Seq<char>), hs: Seq<(Seq<char>, Seq<char>)>)
    ensures
        header_text(seq![h] + hs) == header_line(h) + crlf() + header_text(hs),
    decreases hs.len(),
{
    if hs.len() == 0 {
        assert(seq![h] + hs =~= seq![h]);
        assert(seq![h].drop_last() =~= Seq::<(Seq<char>, Seq<char>)>::empty());
        assert(header_text(seq![h].drop_last()) =~= Seq::<char>::empty());
        assert(seq![h].last() == h);
        assert(header_text(seq![h]) =~= header_line(h) + crlf());
        assert(header_text(hs) =~= Seq::<char>::empty());
        assert(header_line(h) + crlf() + header_text(hs) =~= header_line(h) + crlf());
    } else {
        lemma_header_text_front(h, hs.drop_last());
        assert((seq![h] + hs).drop_last() =~= seq![h] + hs.drop_last());
        assert((seq![h] + hs).last() == hs.last());
        let l = hs.last();
        assert(header_text(seq![h] + hs) =~= header_line(h) + crlf() + header_text(hs));
    }
}

proof fn lemma_header_of_line(h: (Seq<char>, Seq<char>))
    requires
        wire_safe_header(h),
    ensures
        header_of(header_line(h)) == Some(h),
{
    let l = header_line(h);
    assert(l[h.0.len() as int] == ':');
    lemma_find_char_at(l, ':', 0, h.0.len() as int);
    let rest = l.subrange(h.0.len() as int + 1, l.len() as int);
    assert(rest =~= seq![' '] + h.1);
    assert(is_space(rest[0]));
    assert(!is_space(rest[1]));
    assert(skip_spaces(rest, 1) == 1);
    assert(skip_spaces(rest, 0) == 1);
    assert(trim_start(rest) =~= h.1);
    assert(l.subrange(0, h.0.len() as int) =~= h.0);
}

/// Reading the header lines that `hs` is written as, followed by a blank
/// line, gives back their lines and the position after the blank line.
proof fn lemma_header_section(t: Seq<char>, i: int, hs: Seq<(Seq<char>, Seq<char>)>)
    requires
        0 <= i,
        i + header_text(hs).len() + 2 <= t.len(),
        t.subrange(i, i + header_text(hs).len() + 2) == header_text(hs) + crlf(),
        forall|k: int| 0 <= k < hs.len() ==> wire_safe_header(#[trigger] hs[k]),
    ensures
        header_lines(t, i) == (
            hs.map_values(|h: (Seq<char>, Seq<char>)| header_line(h)),
            i + header_text(hs).len() + 2,
        ),
    decreases hs.len(),
{
    if hs.len() == 0 {
        assert(header_text(hs) =~= Seq::<char>::empty());
        assert(t[i] == t.subrange(i, i + 2)[0]);
        assert(t[i + 1] == t.subrange(i, i + 2)[1]);
        lemma_find_char_at(t, '\n', i, i + 1);
        assert(line_at(t, i) =~= Seq::<char>::empty());
        assert(hs.map_values(|h: (Seq<char>, Seq<char>)| header_line(h)) =~= Seq::<Seq<char>>::empty());
    } else {
        let h = hs[0];
        let rest = hs.drop_first();
        assert(hs =~= seq![h] + rest);
        lemma_header_text_front(h, rest);
        let l = header_line(h);
        let sub = t.subrange(i, i + header_text(hs).len() + 2);
        assert(wire_safe_header(h));
        assert forall|k: int| i <= k < i + l.len() + 1 implies t[k] != '\n' by {
            assert(t[k] == sub[k - i]);
            if k - i < h.0.len() {
                assert(sub[k - i] == h.0[k - i]);
            } else if k - i < h.0.len() + 2 {
            } else if k - i < l.len() {
                assert(sub[k - i] == h.1[k - i - h.0.len() - 2]);
            } else {
                assert(sub[k - i] == '\r');
            }
        }
        assert(t[i + l.len() + 1] == sub[l.len() as int + 1]);
        assert(t[i + l.len()] == sub[l.len() as int]);
        lemma_find_char_at(t, '\n', i, i + l.len() + 1);
        assert(line_at(t, i) =~= l);
        assert(next_line(t, i) == i + l.len() + 2);
        let j = i + l.len() + 2;
        let tail = header_text(rest) + crlf();
        assert(sub =~= l + crlf() + tail);
        assert forall|k: int| 0 <= k < tail.len() implies #[trigger] t.subrange(
            j,
            j + tail.len(),
        )[k] == tail[k] by {
            assert(t[j + k] == sub[j + k - i]);
            assert(sub[j + k - i] == (l + crlf() + tail)[l.len() + 2 + k]);
        }
        assert(header_text(hs) == l + crlf() + header_text(rest));
        assert(crlf().len() == 2);
        assert(header_text(hs).len() == l.len() + 2 + header_text(rest).len());
        assert(t.subrange(j, j + tail.len()) =~= tail);
        assert(tail.len() == header_text(rest).len() + 2);
        assert forall|k: int| 0 <= k < rest.len() implies wire_safe_header(#[trigger] rest[k]) by {
            assert(rest[k] == hs[k + 1]);
        }
        lemma_header_section(t, j, rest);
        assert(hs.map_values(|h: (Seq<char>, Seq<char>)| header_line(h)) =~= seq![l]
            + rest.map_values(|h: (Seq<char>, Seq<char>)| header_line(h)));
    }
}

proof fn lemma_method_of_name(m: Method)
    ensures
        method_of(method_name(m)) == Some(m),
        method_name(m).len() > 0,
        forall|k: int|
            0 <= k < method_name(m).len() ==> 65 <= (#[trigger] method_name(m)[k]) as u32 <= 90,
{
    let w = method_name(m);
    assert(forall|k: int| 0 <= k < w.len() ==> 65 <= (#[trigger] w[k]) as u32 <= 90);
    assert(names_method(w, m));
    assert(ascii_upper(w[0]) == w[0] as u32);
}

proof fn lemma_version_of_text(v: Version)
    ensures
        version_of(version_text(v)) == Some(v),
        forall|k: int| 0 <= k < version_text(v).len() ==> !is_space(#[trigger] version_text(v)[k])
            && version_text(v)[k] != '\n',
{
    let a = decimal(v.major as nat);
    let b = decimal(v.minor as nat);
    let tok = version_text(v);
    lemma_decimal(v.major as nat);
    lemma_decimal(v.minor as nat);
    assert(tok.subrange(0, 5) =~= http_word());
    assert(find_word(tok, http_word(), 0) == 0);
    let p = a + seq!['.'] + b;
    assert(tok =~= http_word() + p);
    assert forall|k: int| 5 <= k < tok.len() implies tok[k] != http_word()[0] by {
        if k - 5 < a.len() {
            assert(tok[k] == a[k - 5]);
        } else if k - 5 > a.len() {
            assert(tok[k] == b[k - 6 - a.len()]);
        }
    }
    lemma_find_word_none(tok, http_word(), 5);
    assert(tok.subrange(5, tok.len() as int) =~= p);
    assert(p[a.len() as int] == '.');
    lemma_find_char_at(p, '.', 0, a.len() as int);
    let q = p.subrange(a.len() as int + 1, p.len() as int);
    assert(q =~= b);
    lemma_find_char_none(q, '.', 0);
    assert(q.subrange(0, q.len() as int) =~= b);
    assert(p.subrange(0, a.len() as int) =~= a);
    assert forall|k: int| 0 <= k < tok.len() implies !is_space(#[trigger] tok[k]) && tok[k]
        != '\n' by {
        if 5 <= k < 5 + a.len() {
            assert(tok[k] == a[k - 5]);
        } else if k > 5 + a.len() {
            assert(tok[k] == b[k - 6 - a.len()]);
        }
    }
}

/// A request written to the wire and read back is the same request, when its
/// target is one non-empty token, its headers survive being written (see
/// `wire_safe_header`), and its first `Content-Length` header gives the
/// number of characters of the body that forms its one data frame.
pub proof fn lemma_request_round_trip(
    method: Method,
    target: Seq<char>,
    version: Version,
    headers: Seq<(Seq<char>, Seq<char>)>,
    body: Seq<char>,
)
    requires
        target.len() > 0,
        forall|k: int| 0 <= k < target.len() ==> !is_space(#[trigger] target[k]),
        forall|k: int| 0 <= k < headers.len() ==> wire_safe_header(#[trigger] headers[k]),
        first_named(headers, content_length_name(), 0) < headers.len(),
        unsigned_value(headers[first_named(headers, content_length_name(), 0)].1) == Some(
            body.len(),
        ),
        body.len() <= usize::MAX,
    ensures
        ({
            let m = MessageModel::Request {
                method,
                target,
                version,
                frames: seq![FrameModel::Headers(headers), FrameModel::Data(encode_utf8(body))],
            };
            request_of(wire_bytes(m)) == Some(m)
        }),
{
    let m = MessageModel::Request {
        method,
        target,
        version,
        frames: seq![FrameModel::Headers(headers), FrameModel::Data(encode_utf8(body))],
    };
    let fs = frames_of(m);
    let mn = method_name(method);
    let vt = version_text(version);
    let line0 = mn + seq![' '] + target + seq![' '] + vt;
    let st = start_line(m);
    assert(st =~= line0 + crlf());
    let ht = header_text(headers);
    // The frames contribute their header lines and their payload.
    assert(fs.drop_last() =~= seq![FrameModel::Headers(headers)]);
    assert(fs.drop_last().drop_last() =~= Seq::<FrameModel>::empty());
    let f1 = fs.drop_last();
    assert(fs.last() == FrameModel::Data(encode_utf8(body)));
    assert(f1.last() == FrameModel::Headers(headers));
    assert(header_block(f1.drop_last()) == Seq::<char>::empty());
    assert(payload_of(f1.drop_last()) == Seq::<u8>::empty());
    assert(header_block(f1) == header_block(f1.drop_last()) + ht);
    assert(header_block(f1) =~= ht);
    assert(header_block(fs) == header_block(f1) + Seq::<char>::empty());
    assert(header_block(fs) =~= ht);
    assert(payload_of(f1) == payload_of(f1.drop_last()) + Seq::<u8>::empty());
    assert(payload_of(f1) =~= Seq::<u8>::empty());
    assert(payload_of(fs) == payload_of(f1) + encode_utf8(body));
    assert(payload_of(fs) =~= encode_utf8(body));
    // The bytes are the encoding of one text.
    let t = st + ht + crlf() + body;
    lemma_encode_concat(st + ht + crlf(), body);
    assert(wire_bytes(m) == encode_utf8(t));
    encode_utf8_valid_utf8(t);
    encode_utf8_decode_utf8(t);
    assert(request_of(wire_bytes(m)) == request_of_text(t));
    // The start line.
    lemma_method_of_name(method);
    lemma_version_of_text(version);
    let n0 = line0.len() as int;
    assert forall|k: int| 0 <= k < n0 implies t[k] != '\n' by {
        assert(t[k] == line0[k]);
        if k < mn.len() {
            assert(line0[k] == mn[k]);
        } else if mn.len() < k < mn.len() + 1 + target.len() {
            assert(line0[k] == target[k - mn.len() - 1]);
        } else if k > mn.len() + 1 + target.len() {
            assert(line0[k] == vt[k - mn.len() - 2 - target.len()]);
        }
    }
    assert(t[n0] == '\r');
    assert(t[n0 + 1] == '\n');
    lemma_find_char_at(t, '\n', 0, n0 + 1);
    assert(line_at(t, 0) =~= line0);
    assert(next_line(t, 0) == st.len());
    let b0 = mn.len() as int;
    let a1 = b0 + 1;
    let b1 = a1 + target.len();
    let a2 = b1 + 1;
    assert(line0[b0] == ' ');
    assert(line0[b1] == ' ');
    assert(skip_spaces(line0, 0) == 0);
    lemma_token_end_at(line0, 0, b0);
    assert(skip_spaces(line0, a1) == a1);
    assert(skip_spaces(line0, b0) == a1);
    lemma_token_end_at(line0, a1, b1);
    assert(skip_spaces(line0, a2) == a2);
    assert(skip_spaces(line0, b1) == a2);
    lemma_token_end_at(line0, a2, n0);
    assert(line0.subrange(0, b0) =~= mn);
    assert(line0.subrange(a1, b1) =~= target);
    assert(line0.subrange(a2, n0) =~= vt);
    assert(status_of(line0) == Some((method, target, version)));
    // The header section.
    let i = st.len() as int;
    assert(t.subrange(i, i + ht.len() + 2) =~= ht + crlf());
    lemma_header_section(t, i, headers);
    let lines = headers.map_values(|h: (Seq<char>, Seq<char>)| header_line(h));
    assert forall|k: int| 0 <= k < lines.len() implies (#[trigger] header_of(lines[k])) is Some
        && header_of(lines[k])->Some_0 == headers[k] by {
        lemma_header_of_line(headers[k]);
    }
    assert(lines.map_values(|l: Seq<char>| header_of(l)->Some_0) =~= headers);
    assert(headers_of(lines) == Some(headers));
    // The body.
    let p = i + ht.len() + 2;
    assert(p + body.len() == t.len());
    assert(t.subrange(p, t.len() as int) =~= body);
}

} // verus!
