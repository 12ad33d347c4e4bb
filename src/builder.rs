use vstd::prelude::*;
use vstd::string::*;
use vstd::utf8::*;

use crate::message::{Code, Frame, FrameModel, Header, Message, MessageModel, Version};

verus! {

/// Collects the parts of a response and then produces it.
pub struct MessageBuilder {
    version: Version,
    code: Code,
    headers: Vec<Header>,
    payload: Vec<u8>,
}

/// What a builder holds so far.
pub struct BuilderModel {
    pub version: Version,
    pub code: Code,
    pub headers: Seq<(Seq<char>, Seq<char>)>,
    pub payload: Seq<u8>,
}

impl View for MessageBuilder {
    type V = BuilderModel;

    closed spec fn view(&self) -> BuilderModel {
        BuilderModel {
            version: self.version,
            code: self.code,
            headers: self.headers@.map_values(|h: Header| h@),
            payload: self.payload@,
        }
    }
}

impl MessageBuilder {
    /// Version 1.1, status Success, no headers, an empty payload.
    pub fn new() -> (r: Self)
        ensures
            r@ == (BuilderModel {
                version: Version { major: 1, minor: 1 },
                code: Code::Success,
                headers: Seq::empty(),
                payload: Seq::empty(),
            }),
    {
        let r = MessageBuilder {
            version: Version { major: 1, minor: 1 },
            code: Code::Success,
            headers: Vec::new(),
            payload: Vec::new(),
        };
        assert(r@.headers =~= Seq::empty());
        r
    }

    /// Replaces the version.
    pub fn version(self, version: Version) -> (r: Self)
        ensures
            r@ == (BuilderModel { version, ..self@ }),
    {
        MessageBuilder { version, ..self }
    }

    /// Replaces the status code.
    pub fn code(self, code: Code) -> (r: Self)
        ensures
            r@ == (BuilderModel { code, ..self@ }),
    {
        MessageBuilder { code, ..self }
    }

    /// Appends a header after those already given.
    pub fn header(self, header: Header) -> (r: Self)
        ensures
            r@ == (BuilderModel { headers: self@.headers.push(header@), ..self@ }),
    {
        let MessageBuilder { version, code, mut headers, payload } = self;
        let ghost hv = header@;
        headers.push(header);
        let r = MessageBuilder { version, code, headers, payload };
        assert(r@.headers =~= self@.headers.push(hv));
        r
    }

    /// Appends the UTF-8 bytes of `body` to the payload.
    pub fn body(self, body: &str) -> (r: Self)
        ensures
            r@ == (BuilderModel { payload: self@.payload + encode_utf8(body@), ..self@ }),
    {
        let MessageBuilder { version, code, headers, mut payload } = self;
        let mut bytes = body.as_bytes_vec();
        payload.append(&mut bytes);
        MessageBuilder { version, code, headers, payload }
    }

    /// The response: a header frame followed by a data frame, which is there
    /// even when the payload is empty.
    pub fn build(self) -> (r: Message)
        ensures
            r@ == (MessageModel::Response {
                version: self@.version,
                code: self@.code,
                frames: seq![FrameModel::Headers(self@.headers), FrameModel::Data(self@.payload)],
            }),
    {
        let MessageBuilder { version, code, headers, payload } = self;
        let mut frames: Vec<Frame> = Vec::new();
        frames.push(Frame::Headers { headers });
        frames.push(Frame::Data { payload });
        let r = Message::Response { version, code, frames };
        assert(frames@.map_values(|f: Frame| f@) =~= seq![
            FrameModel::Headers(self@.headers),
            FrameModel::Data(self@.payload),
        ]);
        r
    }
}

} // verus!
