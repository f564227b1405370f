use vstd::prelude::*;

verus! {

#[verifier::external_type_specification]
#[verifier::external_body]
pub struct ExUtf8Error(std::str::Utf8Error);

/// A boxed error from an upstream source, carried unchanged to the caller.
#[verifier::external_body]
#[derive(Debug)]
pub struct BoxError(pub Box<dyn std::error::Error + Send + Sync>);

/// A terminal decoding error. After returning this error, the decoder ends.
#[derive(Debug)]
#[non_exhaustive]
pub enum Error {
    /// An error from the HTTP body or underlying byte stream.
    Body(BoxError),
    /// Invalid UTF-8 in a recognized field value.
    Utf8Parse(std::str::Utf8Error),
    /// An unknown field encountered by a decoder in strict field mode.
    UnknownField,
}

/// Metadata that cannot be represented in an SSE event block.
#[derive(Debug, Clone, Copy, PartialEq, Eq, Structural)]
#[non_exhaustive]
pub enum EncodeError {
    /// The event type contains a line ending.
    InvalidEvent,
    /// The id contains a line ending or NULL.
    InvalidId,
}

/// A terminal error from an encoding HTTP body.
#[derive(Debug)]
#[non_exhaustive]
pub enum BodyError {
    /// An error from the underlying event stream.
    Stream(BoxError),
    /// An event contains metadata that cannot be encoded.
    Encode(EncodeError),
}

} // verus!
