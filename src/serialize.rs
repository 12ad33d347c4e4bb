use vstd::prelude::*;
use vstd::string::*;
use vstd::slice::slice_to_vec;
use vstd::utf8::*;

use crate::message::{
    Code, Frame, FrameModel, Header, Message, MessageModel, Version, code_number, code_phrase,
    method_name,
};

verus! {

pub open spec fn crlf() -> Seq<char> {
    seq!['\r', '\n']
}

pub open spec fn digit_char(d: nat) -> char {
    seq!['0', '1', '2', '3', '4', '5', '6', '7', '8', '9'][d as int]
}

/// The decimal digits of `n`, without leading zeros.
pub open spec fn decimal(n: nat) -> Seq<char>
    decreases n,
{
    if n < 10 {
        seq![digit_char(n)]
    } else {
        decimal(n / 10).push(digit_char(n % 10))
    }
}

/// `HTTP/<major>.<minor>`
pub open spec fn version_text(v: Version) -> Seq<char> {
    seq!['H', 'T', 'T', 'P', '/'] + decimal(v.major as nat) + seq!['.'] + decimal(v.minor as nat)
}

/// The start line of a message, with its line ending.
pub open spec fn start_line(m: MessageModel) -> Seq<char> {
    match m {
        MessageModel::Request { method, target, version, .. } => method_name(method) + seq![' ']
            + target + seq![' '] + version_text(version) + crlf(),
        MessageModel::Response { version, code, .. } => version_text(version) + seq![' ']
            + decimal(code_number(code) as nat) + seq![' '] + code_phrase(code) + crlf(),
    }
}

pub open spec fn frames_of(m: MessageModel) -> Seq<FrameModel> {
    match m {
        MessageModel::Request { frames, .. } => frames,
        MessageModel::Response { frames, .. } => frames,
    }
}

/// One `<name>: <value>` line per header, in order.
pub open spec fn header_text(hs: Seq<(Seq<char>, Seq<char>)>) -> Seq<char>
    decreases hs.len(),
{
    if hs.len() == 0 {
        Seq::empty()
    } else {
        header_text(hs.drop_last()) + hs.last().0 + seq![':', ' '] + hs.last().1 + crlf()
    }
}

/// The header lines of all header frames, in frame order.
pub open spec fn header_block(fs: Seq<FrameModel>) -> Seq<char>
    decreases fs.len(),
{
    if fs.len() == 0 {
        Seq::empty()
    } else {
        header_block(fs.drop_last()) + match fs.last() {
            FrameModel::Headers(hs) => header_text(hs),
            FrameModel::Data(_) => Seq::empty(),
        }
    }
}

/// The payloads of all data frames, concatenated in frame order.
pub open spec fn payload_of(fs: Seq<FrameModel>) -> Seq<u8>
    decreases fs.len(),
{
    if fs.len() == 0 {
        Seq::empty()
    } else {
        payload_of(fs.drop_last()) + match fs.last() {
            FrameModel::Headers(_) => Seq::empty(),
            FrameModel::Data(d) => d,
        }
    }
}

/// A message on the wire: start line, header lines, one blank line, payload.
pub open spec fn wire_bytes(m: MessageModel) -> Seq<u8> {
    encode_utf8(start_line(m) + header_block(frames_of(m)) + crlf()) + payload_of(frames_of(m))
}

pub proof fn lemma_encode_concat(a: Seq<char>, b: Seq<char>)
    ensures
        encode_utf8(a + b) == encode_utf8(a) + encode_utf8(b),
    decreases a.len(),
{
    if a.len() == 0 {
        assert(a + b =~= b);
        assert(encode_utf8(a) =~= Seq::<u8>::empty());
        assert(encode_utf8(a) + encode_utf8(b) =~= encode_utf8(b));
    } else {
        lemma_encode_concat(a.drop_first(), b);
        assert((a + b).drop_first() =~= a.drop_first() + b);
        assert((a + b)[0] == a[0]);
        assert(encode_utf8(a + b) =~= encode_utf8(a) + encode_utf8(b));
    }
}

/// Appends the UTF-8 bytes of `s`.
fn push_str(out: &mut Vec<u8>, s: &str)
    ensures
        final(out)@ == old(out)@ + encode_utf8(s@),
{
    let mut b = s.as_bytes_vec();
    out.append(&mut b);
}

fn digit_str(d: u8) -> (r: &'static str)
    requires
        d < 10,
    ensures
        r@ == seq![digit_char(d as nat)],
{
    proof {
        reveal_strlit("0");
        reveal_strlit("1");
        reveal_strlit("2");
        reveal_strlit("3");
        reveal_strlit("4");
        reveal_strlit("5");
        reveal_strlit("6");
        reveal_strlit("7");
        reveal_strlit("8");
        reveal_strlit("9");
    }
    let r = match d {
        0 => "0",
        1 => "1",
        2 => "2",
        3 => "3",
        4 => "4",
        5 => "5",
        6 => "6",
        7 => "7",
        8 => "8",
        _ => "9",
    };
    assert(r@ =~= seq![digit_char(d as nat)]);
    r
}

/// Appends the decimal digits of `n`.
fn push_decimal(out: &mut Vec<u8>, n: u8)
    ensures
        final(out)@ == old(out)@ + encode_utf8(decimal(n as nat)),
{
    proof {
        reveal_with_fuel(decimal, 3);
    }
    let ghost start = out@;
    if n >= 100 {
        push_str(out, digit_str(n / 100));
        push_str(out, digit_str((n / 10) % 10));
        push_str(out, digit_str(n % 10));
        proof {
            assert(decimal(n as nat / 10 / 10) == seq![digit_char((n / 100) as nat)]);
            assert(decimal(n as nat) =~= seq![digit_char((n / 100) as nat)] + seq![
                digit_char(((n / 10) % 10) as nat),
            ] + seq![digit_char((n % 10) as nat)]);
            lemma_encode_concat(
                seq![digit_char((n / 100) as nat)],
                seq![digit_char(((n / 10) % 10) as nat)],
            );
            lemma_encode_concat(
                seq![digit_char((n / 100) as nat)] + seq![digit_char(((n / 10) % 10) as nat)],
                seq![digit_char((n % 10) as nat)],
            );
            assert(out@ =~= start + encode_utf8(decimal(n as nat)));
        }
    } else if n >= 10 {
        push_str(out, digit_str(n / 10));
        push_str(out, digit_str(n % 10));
        proof {
            assert(decimal(n as nat) =~= seq![digit_char((n / 10) as nat)] + seq![
                digit_char((n % 10) as nat),
            ]);
            lemma_encode_concat(
                seq![digit_char((n / 10) as nat)],
                seq![digit_char((n % 10) as nat)],
            );
            assert(out@ =~= start + encode_utf8(decimal(n as nat)));
        }
    } else {
        push_str(out, digit_str(n));
    }
}

/// Appends `HTTP/<major>.<minor>`.
fn push_version(out: &mut Vec<u8>, v: Version)
    ensures
        final(out)@ == old(out)@ + encode_utf8(version_text(v)),
{
    let ghost start = out@;
    proof {
        reveal_strlit("HTTP/");
        reveal_strlit(".");
    }
    push_str(out, "HTTP/");
    push_decimal(out, v.major);
    push_str(out, ".");
    push_decimal(out, v.minor);
    proof {
        let a = seq!['H', 'T', 'T', 'P', '/'];
        let b = decimal(v.major as nat);
        let c = seq!['.'];
        let d = decimal(v.minor as nat);
        assert("HTTP/"@ =~= a);
        assert("."@ =~= c);
        lemma_encode_concat(a, b);
        lemma_encode_concat(a + b, c);
        lemma_encode_concat(a + b + c, d);
        assert(out@ =~= start + encode_utf8(version_text(v)));
    }
}

fn code_digits(c: Code) -> (r: &'static str)
    ensures
        r@ == decimal(code_number(c) as nat),
{
    proof {
        reveal_with_fuel(decimal, 3);
        reveal_strlit("200");
    }
    match c {
        Code::Success => {
            assert("200"@ =~= decimal(200));
            "200"
        },
    }
}

impl Code {
    /// The reason phrase of the code, e.g. `Success`.
    pub fn phrase(self) -> (r: &'static str)
        ensures
            r@ == code_phrase(self),
    {
        proof {
            reveal_strlit("Success");
        }
        match self {
            Code::Success => {
                assert("Success"@ =~= code_phrase(Code::Success));
                "Success"
            },
        }
    }
}

/// Appends one `<name>: <value>` line per header.
fn push_headers(out: &mut Vec<u8>, headers: &Vec<Header>)
    ensures
        final(out)@ == old(out)@ + encode_utf8(header_text(headers@.map_values(|h: Header| h@))),
{
    let ghost start = out@;
    let ghost hs = headers@.map_values(|h: Header| h@);
    proof {
        reveal_strlit(": ");
        reveal_strlit("\r\n");
        assert(hs.take(0) =~= Seq::<(Seq<char>, Seq<char>)>::empty());
        assert(start + encode_utf8(Seq::empty()) =~= start);
    }
    let mut k: usize = 0;
    while k < headers.len()
        invariant
            k <= headers@.len(),
            hs == headers@.map_values(|h: Header| h@),
            out@ == start + encode_utf8(header_text(hs.take(k as int))),
            ": "@ == seq![':', ' '],
            "\r\n"@ == crlf(),
        decreases headers@.len() - k,
    {
        let h = &headers[k];
        let ghost before = header_text(hs.take(k as int));
        push_str(out, h.name.as_str());
        push_str(out, ": ");
        push_str(out, h.value.as_str());
        push_str(out, "\r\n");
        proof {
            let n = h.name@;
            let v = h.value@;
            assert(hs.take(k + 1).drop_last() =~= hs.take(k as int));
            assert(hs.take(k + 1).last() == (n, v));
            assert(header_text(hs.take(k + 1)) == before + n + seq![':', ' '] + v + crlf());
            lemma_encode_concat(before, n);
            lemma_encode_concat(before + n, seq![':', ' ']);
            lemma_encode_concat(before + n + seq![':', ' '], v);
            lemma_encode_concat(before + n + seq![':', ' '] + v, crlf());
            assert(out@ =~= start + encode_utf8(header_text(hs.take(k + 1))));
        }
        k = k + 1;
    }
    assert(hs.take(headers@.len() as int) =~= hs);
}

impl Message {
    /// The message as bytes on the wire.
    pub fn into_bytes(self) -> (r: Vec<u8>)
        ensures
            r@ == wire_bytes(self@),
    {
        let ghost m = self@;
        let mut out: Vec<u8> = Vec::new();
        proof {
            reveal_strlit(" ");
            reveal_strlit("\r\n");
            assert(" "@ =~= seq![' ']);
            assert("\r\n"@ =~= crlf());
        }
        let frames = match self {
            Message::Request { method, target, version, frames } => {
                push_str(&mut out, method.name());
                push_str(&mut out, " ");
                push_str(&mut out, target.as_str());
                push_str(&mut out, " ");
                push_version(&mut out, version);
                push_str(&mut out, "\r\n");
                proof {
                    let a = method_name(method);
                    let b = seq![' '];
                    let c = target@;
                    let d = version_text(version);
                    lemma_encode_concat(a, b);
                    lemma_encode_concat(a + b, c);
                    lemma_encode_concat(a + b + c, b);
                    lemma_encode_concat(a + b + c + b, d);
                    lemma_encode_concat(a + b + c + b + d, crlf());
                    assert(encode_utf8(Seq::empty()) =~= Seq::<u8>::empty());
                    assert(out@ =~= encode_utf8(start_line(m)));
                }
                frames
            },
            Message::Response { version, code, frames } => {
                push_version(&mut out, version);
                push_str(&mut out, " ");
                push_str(&mut out, code_digits(code));
                push_str(&mut out, " ");
                push_str(&mut out, code.phrase());
                push_str(&mut out, "\r\n");
                proof {
                    let a = version_text(version);
                    let b = seq![' '];
                    let c = decimal(code_number(code) as nat);
                    let d = code_phrase(code);
                    lemma_encode_concat(a, b);
                    lemma_encode_concat(a + b, c);
                    lemma_encode_concat(a + b + c, b);
                    lemma_encode_concat(a + b + c + b, d);
                    lemma_encode_concat(a + b + c + b + d, crlf());
                    assert(encode_utf8(Seq::empty()) =~= Seq::<u8>::empty());
                    assert(out@ =~= encode_utf8(start_line(m)));
                }
                frames
            },
        };
        let ghost fs = frames@.map_values(|f: Frame| f@);
        assert(fs == frames_of(m));
        let ghost head = start_line(m);
        let mut payload: Vec<u8> = Vec::new();
        let mut k: usize = 0;
        proof {
            assert(fs.take(0) =~= Seq::<FrameModel>::empty());
            assert(head + header_block(fs.take(0)) =~= head);
        }
        while k < frames.len()
            invariant
                k <= frames@.len(),
                fs == frames@.map_values(|f: Frame| f@),
                out@ == encode_utf8(head + header_block(fs.take(k as int))),
                payload@ == payload_of(fs.take(k as int)),
            decreases frames@.len() - k,
        {
            let ghost before = header_block(fs.take(k as int));
            proof {
                assert(fs.take(k + 1).drop_last() =~= fs.take(k as int));
                assert(fs.take(k + 1).last() == fs[k as int]);
            }
            match &frames[k] {
                Frame::Headers { headers } => {
                    push_headers(&mut out, headers);
                    proof {
                        let ht = header_text(headers@.map_values(|h: Header| h@));
                        lemma_encode_concat(head + before, ht);
                        assert(head + before + ht =~= head + header_block(fs.take(k + 1)));
                        assert(payload_of(fs.take(k + 1)) =~= payload_of(fs.take(k as int)));
                    }
                },
                Frame::Data { payload: data } => {
                    let mut copy = slice_to_vec(data.as_slice());
                    payload.append(&mut copy);
                    proof {
                        assert(head + before =~= head + header_block(fs.take(k + 1)));
                    }
                },
            }
            k = k + 1;
        }
        proof {
            assert(fs.take(frames@.len() as int) =~= fs);
            lemma_encode_concat(head + header_block(fs), crlf());
        }
        push_str(&mut out, "\r\n");
        out.append(&mut payload);
        out
    }
}

} // verus!
