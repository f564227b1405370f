//! Server-sent events: a decoder for SSE byte streams and an encoder for SSE
//! event blocks, with the wire format stated as a model and the decoder and
//! encoder proved against it.
use vstd::prelude::*;

mod body;
mod error;
mod event;
pub mod laws;
pub mod model;
mod stream;

pub use body::{BodyPoll, BodyStep, InputPoll, KeepAlive, SseBody};
pub use error::{BodyError, BoxError, EncodeError, Error};
pub use event::{Sse, SseView};
pub use event::encode::{bytes_view, TextLines};
pub use stream::{ChunkOutcome, SseByteStream};
pub use stream::parser::{Parser, ParsedEvent};
pub use stream::parser::data::DataBuffer;
