use vstd::prelude::*;

verus! {

/// The two ways in which the library can fail.
#[derive(Debug, Clone, Copy, PartialEq, Eq, Structural)]
pub enum Error {
    /// The listening address is already taken.
    AddrInUse,
    /// The bytes do not form a request this codec understands.
    Malformed,
}

/// A protocol version such as `1.1`.
#[derive(Debug, Clone, Copy, PartialEq, Eq, Structural)]
pub struct Version {
    pub major: u8,
    pub minor: u8,
}

/// The request methods that the parser recognises.
#[derive(Debug, Clone, Copy, PartialEq, Eq, Structural)]
pub enum Method {
    Get,
    Head,
    Post,
    Put,
    Delete,
    Connect,
    Options,
    Trace,
    Patch,
}

/// Response status codes.
#[derive(Debug, Clone, Copy, PartialEq, Eq, Structural)]
pub enum Code {
    Success,
}

/// The numeric value of a status code.
pub open spec fn code_number(c: Code) -> u16 {
    match c {
        Code::Success => 200,
    }
}

/// The reason phrase of a status code.
pub open spec fn code_phrase(c: Code) -> Seq<char> {
    match c {
        Code::Success => seq!['S', 'u', 'c', 'c', 'e', 's', 's'],
    }
}

/// The upper-case name of a method, as written on the wire.
pub open spec fn method_name(m: Method) -> Seq<char> {
    match m {
        Method::Get => seq!['G', 'E', 'T'],
        Method::Head => seq!['H', 'E', 'A', 'D'],
        Method::Post => seq!['P', 'O', 'S', 'T'],
        Method::Put => seq!['P', 'U', 'T'],
        Method::Delete => seq!['D', 'E', 'L', 'E', 'T', 'E'],
        Method::Connect => seq!['C', 'O', 'N', 'N', 'E', 'C', 'T'],
        Method::Options => seq!['O', 'P', 'T', 'I', 'O', 'N', 'S'],
        Method::Trace => seq!['T', 'R', 'A', 'C', 'E'],
        Method::Patch => seq!['P', 'A', 'T', 'C', 'H'],
    }
}

impl Code {
    /// The numeric value of the code, e.g. 200.
    pub fn number(self) -> (r: u16)
        ensures
            r == code_number(self),
    {
        match self {
            Code::Success => 200,
        }
    }
}

/// One header line: a name and its value.
pub struct Header {
    pub name: String,
    pub value: String,
}

impl View for Header {
    type V = (Seq<char>, Seq<char>);

    open spec fn view(&self) -> (Seq<char>, Seq<char>) {
        (self.name@, self.value@)
    }
}

/// A unit of a message after its start line: a block of headers or a payload.
pub enum Frame {
    Headers { headers: Vec<Header> },
    Data { payload: Vec<u8> },
}

/// What a frame holds, as mathematical values.
pub enum FrameModel {
    Headers(Seq<(Seq<char>, Seq<char>)>),
    Data(Seq<u8>),
}

impl View for Frame {
    type V = FrameModel;

    open spec fn view(&self) -> FrameModel {
        match self {
            Frame::Headers { headers } => FrameModel::Headers(headers@.map_values(|h: Header| h@)),
            Frame::Data { payload } => FrameModel::Data(payload@),
        }
    }
}

/// A request or a response.
pub enum Message {
    Request { method: Method, target: String, version: Version, frames: Vec<Frame> },
    Response { version: Version, code: Code, frames: Vec<Frame> },
}

/// What a message holds, as mathematical values.
pub enum MessageModel {
    Request { method: Method, target: Seq<char>, version: Version, frames: Seq<FrameModel> },
    Response { version: Version, code: Code, frames: Seq<FrameModel> },
}

impl View for Message {
    type V = MessageModel;

    open spec fn view(&self) -> MessageModel {
        match self {
            Message::Request { method, target, version, frames } => MessageModel::Request {
                method: *method,
                target: target@,
                version: *version,
                frames: frames@.map_values(|f: Frame| f@),
            },
            Message::Response { version, code, frames } => MessageModel::Response {
                version: *version,
                code: *code,
                frames: frames@.map_values(|f: Frame| f@),
            },
        }
    }
}

} // verus!
