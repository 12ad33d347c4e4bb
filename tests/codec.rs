use persona::{Code, Error, Frame, Header, Message, MessageBuilder, Method, Version};

fn request_parts(m: &Message) -> (Method, String, Version, &Vec<Frame>) {
    match m {
        Message::Request { method, target, version, frames } => {
            (*method, target.clone(), *version, frames)
        }
        Message::Response { .. } => panic!("expected a request"),
    }
}

fn header_pairs(f: &Frame) -> Vec<(String, String)> {
    match f {
        Frame::Headers { headers } => headers
            .iter()
            .map(|h| (h.name.clone(), h.value.clone()))
            .collect(),
        Frame::Data { .. } => panic!("expected a header frame"),
    }
}

fn data_of(f: &Frame) -> Vec<u8> {
    match f {
        Frame::Data { payload } => payload.clone(),
        Frame::Headers { .. } => panic!("expected a data frame"),
    }
}

fn is_malformed(r: Result<Message, Error>) -> bool {
    matches!(r, Err(Error::Malformed))
}

#[test]
fn content_length_is_honoured() {
    let m = Message::parse(b"GET / HTTP/1.1\r\nContent-Length: 5\r\n\r\nHELLOEXTRA").unwrap();
    let (method, target, version, frames) = request_parts(&m);
    assert_eq!(method, Method::Get);
    assert_eq!(target, "/");
    assert_eq!(version, Version { major: 1, minor: 1 });
    assert_eq!(frames.len(), 2);
    assert_eq!(
        header_pairs(&frames[0]),
        vec![("Content-Length".to_string(), "5".to_string())]
    );
    assert_eq!(data_of(&frames[1]), b"HELLO".to_vec());
}

#[test]
fn missing_content_length_gives_no_data_frame() {
    let m = Message::parse(b"GET / HTTP/1.1\r\n\r\n").unwrap();
    let (_, _, _, frames) = request_parts(&m);
    assert_eq!(frames.len(), 1);
    assert!(header_pairs(&frames[0]).is_empty());
}

#[test]
fn status_line_alone_is_a_request() {
    let m = Message::parse(b"POST /x HTTP/1.0").unwrap();
    let (method, target, version, frames) = request_parts(&m);
    assert_eq!(method, Method::Post);
    assert_eq!(target, "/x");
    assert_eq!(version, Version { major: 1, minor: 0 });
    assert_eq!(frames.len(), 1);
}

#[test]
fn empty_input_is_malformed() {
    assert!(is_malformed(Message::parse(b"")));
}

#[test]
fn unknown_method_is_malformed() {
    assert!(is_malformed(Message::parse(b"BADVERB / HTTP/1.1\r\n\r\n")));
}

#[test]
fn missing_version_is_malformed() {
    assert!(is_malformed(Message::parse(b"GET /\r\n\r\n")));
}

#[test]
fn header_without_colon_is_malformed() {
    assert!(is_malformed(Message::parse(b"GET / HTTP/1.1\r\nNoColonHere\r\n\r\n")));
}

#[test]
fn invalid_utf8_is_malformed() {
    assert!(is_malformed(Message::parse(b"GET / HTTP/1.1\r\n\xff\r\n\r\n")));
}

#[test]
fn empty_header_value_is_malformed() {
    assert!(is_malformed(Message::parse(b"GET / HTTP/1.1\r\nHost:   \r\n\r\n")));
}

#[test]
fn empty_header_name_is_malformed() {
    assert!(is_malformed(Message::parse(b"GET / HTTP/1.1\r\n: x\r\n\r\n")));
}

#[test]
fn bad_content_length_is_malformed() {
    assert!(is_malformed(Message::parse(b"GET / HTTP/1.1\r\nContent-Length: five\r\n\r\nhello")));
}

#[test]
fn version_out_of_range_is_malformed() {
    assert!(is_malformed(Message::parse(b"GET / HTTP/1.300\r\n\r\n")));
    assert!(is_malformed(Message::parse(b"GET / HTTP/1\r\n\r\n")));
    assert!(is_malformed(Message::parse(b"GET / 1.1\r\n\r\n")));
}

#[test]
fn method_case_is_ignored() {
    for verb in ["get", "GET", "Get"] {
        let input = format!("{} / HTTP/1.1\r\n\r\n", verb);
        let m = Message::parse(input.as_bytes()).unwrap();
        let (method, _, _, _) = request_parts(&m);
        assert_eq!(method, Method::Get);
        assert_eq!(method.name(), "GET");
        assert!(m.into_bytes().starts_with(b"GET / HTTP/1.1\r\n"));
    }
}

#[test]
fn header_order_and_duplicates_are_kept() {
    let m = Message::parse(b"GET / HTTP/1.1\r\nB: 2\r\nA: 1\r\nB: 3\r\nX:  a:b\r\n\r\n").unwrap();
    let (_, _, _, frames) = request_parts(&m);
    assert_eq!(
        header_pairs(&frames[0]),
        vec![
            ("B".to_string(), "2".to_string()),
            ("A".to_string(), "1".to_string()),
            ("B".to_string(), "3".to_string()),
            ("X".to_string(), "a:b".to_string()),
        ]
    );
}

#[test]
fn first_content_length_wins() {
    let m = Message::parse(b"GET / HTTP/1.1\r\nContent-Length: 2\r\nContent-Length: 4\r\n\r\nabcdef")
        .unwrap();
    let (_, _, _, frames) = request_parts(&m);
    assert_eq!(data_of(&frames[1]), b"ab".to_vec());
}

#[test]
fn short_body_is_truncated_not_rejected() {
    let m = Message::parse(b"GET / HTTP/1.1\r\nContent-Length: 10\r\n\r\nabc").unwrap();
    let (_, _, _, frames) = request_parts(&m);
    assert_eq!(data_of(&frames[1]), b"abc".to_vec());
}

#[test]
fn content_length_counts_characters() {
    let m = Message::parse("PUT /é HTTP/1.1\nContent-Length: 2\n\néèz".as_bytes()).unwrap();
    let (method, target, _, frames) = request_parts(&m);
    assert_eq!(method, Method::Put);
    assert_eq!(target, "/é");
    assert_eq!(data_of(&frames[1]), "éè".as_bytes().to_vec());
}

#[test]
fn response_with_empty_headers_has_blank_line() {
    let bytes = MessageBuilder::new().build().into_bytes();
    assert_eq!(bytes, b"HTTP/1.1 200 Success\r\n\r\n".to_vec());
}

#[test]
fn response_from_builder() {
    let bytes = MessageBuilder::new()
        .version(Version { major: 2, minor: 0 })
        .code(Code::Success)
        .header(Header { name: "Server".to_string(), value: "Persona/0.1".to_string() })
        .header(Header { name: "Content-Length".to_string(), value: "5".to_string() })
        .body("he")
        .body("llo")
        .build()
        .into_bytes();
    assert_eq!(
        bytes,
        b"HTTP/2.0 200 Success\r\nServer: Persona/0.1\r\nContent-Length: 5\r\n\r\nhello".to_vec()
    );
}

#[test]
fn code_number_and_phrase() {
    assert_eq!(Code::Success.number(), 200);
    assert_eq!(Code::Success.phrase(), "Success");
}

#[test]
fn request_round_trip() {
    let m = Message::Request {
        method: Method::Delete,
        target: "/items/7?x=1".to_string(),
        version: Version { major: 10, minor: 255 },
        frames: vec![
            Frame::Headers {
                headers: vec![
                    Header { name: "Host".to_string(), value: "example:80".to_string() },
                    Header { name: "Content-Length".to_string(), value: "6".to_string() },
                ],
            },
            Frame::Data { payload: b"a\r\nb\nc".to_vec() },
        ],
    };
    let bytes = m.into_bytes();
    assert_eq!(
        bytes,
        b"DELETE /items/7?x=1 HTTP/10.255\r\nHost: example:80\r\nContent-Length: 6\r\n\r\na\r\nb\nc"
            .to_vec()
    );
    let back = Message::parse(&bytes).unwrap();
    let (method, target, version, frames) = request_parts(&back);
    assert_eq!(method, Method::Delete);
    assert_eq!(target, "/items/7?x=1");
    assert_eq!(version, Version { major: 10, minor: 255 });
    assert_eq!(
        header_pairs(&frames[0]),
        vec![
            ("Host".to_string(), "example:80".to_string()),
            ("Content-Length".to_string(), "6".to_string()),
        ]
    );
    assert_eq!(data_of(&frames[1]), b"a\r\nb\nc".to_vec());
}

#[test]
fn method_names_are_upper_case() {
    assert_eq!(Method::Options.name(), "OPTIONS");
    assert_eq!(Method::Patch.name(), "PATCH");
    let tok: Vec<char> = "tRaCe".chars().collect();
    assert_eq!(Method::from_token(&tok), Some(Method::Trace));
    let bad: Vec<char> = "TRACES".chars().collect();
    assert_eq!(Method::from_token(&bad), None);
}

#[test]
fn version_token_forms() {
    let t: Vec<char> = "HTTP/+1.1.9".chars().collect();
    assert_eq!(Version::from_token(&t), Some(Version { major: 1, minor: 1 }));
    let t: Vec<char> = "HTTP/1.".chars().collect();
    assert_eq!(Version::from_token(&t), None);
}
