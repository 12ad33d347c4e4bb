//! A minimal HTTP/1.1 message codec: requests are parsed from raw bytes,
//! responses are assembled with a builder and turned back into wire bytes.

pub mod builder;
pub mod laws;
pub mod message;
pub mod parse;
pub mod serialize;
pub mod text;

pub use builder::{BuilderModel, MessageBuilder};
pub use message::{Code, Error, Frame, FrameModel, Header, Message, MessageModel, Method, Version};
