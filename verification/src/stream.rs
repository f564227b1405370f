use vstd::prelude::*;

pub mod parser;

use crate::error::{BoxError, Error};
use crate::event::Sse;
use crate::model::{all_events, run, Emit, ReadState};
use parser::{error_emit, event_end, Parser};

verus! {

/// What the decoder made of one input chunk.
#[derive(Debug)]
pub enum ChunkOutcome {
    /// An event block completed after `consumed` bytes of the chunk; the rest
    /// of the chunk is still to be decoded.
    Event { consumed: usize, event: Sse },
    /// The whole chunk was read without completing a block.
    NeedMore,
    /// The chunk holds invalid input; the decoder has ended.
    Failed(Error),
    /// The decoder had already ended; nothing was read.
    Finished,
}

/// An SSE decoder over a stream of byte buffers.
///
/// Input buffers may contain multiple events or fragments of an event.
/// Returns raw blocks, including metadata-only blocks, without inheriting
/// ids or retry values across blocks. Unknown fields are ignored, or rejected
/// by a strict decoder; repeated metadata fields use the last valid value.
/// UTF-8 in recognized values is validated strictly. Comments are ignored.
///
/// An input or UTF-8 error is returned once, then the decoder ends. The end
/// of input discards an incomplete final block. Both endings release parser
/// buffers.
pub struct SseByteStream<S> {
    /// The input stream.
    pub stream: S,
    parser: Parser,
    finished: bool,
    strict: bool,
    input: Ghost<Seq<u8>>,
    emitted: Ghost<Seq<Emit>>,
}

impl<S> SseByteStream<S> {
    /// The input stream.
    pub closed spec fn source(&self) -> S {
        self.stream
    }

    /// The input bytes decoded so far.
    pub closed spec fn input(&self) -> Seq<u8> {
        self.input@
    }

    /// What the decoder has handed out so far, in order.
    pub closed spec fn emitted(&self) -> Seq<Emit> {
        self.emitted@
    }

    /// Whether the decoder has ended.
    pub closed spec fn finished(&self) -> bool {
        self.finished
    }

    /// Whether unknown field names are rejected.
    pub closed spec fn is_strict(&self) -> bool {
        self.strict
    }

    /// The decoder has handed out exactly the events of its input, and a
    /// running decoder holds the state that its input leads to.
    pub closed spec fn wf(&self) -> bool {
        &&& self.parser.wf()
        &&& self.parser.is_strict() == self.strict
        &&& run(self.strict, ReadState::initial(), self.input@).1 == self.emitted@
        &&& all_events(self.emitted@)
        &&& !self.finished ==> run(self.strict, ReadState::initial(), self.input@).0
            == self.parser.read_state()
    }

    /// What has been handed out is what the model reads from the input so far.
    pub open spec fn agrees(&self) -> bool {
        run(self.is_strict(), ReadState::initial(), self.input()).1 == self.emitted()
    }

    fn with_policy(stream: S, strict: bool) -> (r: Self)
        ensures
            r.wf(),
            r.agrees(),
            r.source() == stream,
            r.input() == Seq::<u8>::empty(),
            r.emitted() == Seq::<Emit>::empty(),
            !r.finished(),
            r.is_strict() == strict,
    {
        SseByteStream {
            stream,
            parser: Parser::new(strict),
            finished: false,
            strict,
            input: Ghost(Seq::empty()),
            emitted: Ghost(Seq::empty()),
        }
    }

    /// Create a decoder that ignores unknown field names.
    pub fn new(stream: S) -> (r: Self)
        ensures
            r.wf(),
            r.agrees(),
            r.source() == stream,
            r.input() == Seq::<u8>::empty(),
            r.emitted() == Seq::<Emit>::empty(),
            !r.finished(),
            !r.is_strict(),
    {
        Self::with_policy(stream, false)
    }

    /// Create a decoder that rejects unknown field names with
    /// `Error::UnknownField`.
    pub fn new_strict(stream: S) -> (r: Self)
        ensures
            r.wf(),
            r.agrees(),
            r.source() == stream,
            r.input() == Seq::<u8>::empty(),
            r.emitted() == Seq::<Emit>::empty(),
            !r.finished(),
            r.is_strict(),
    {
        Self::with_policy(stream, true)
    }

    /// Whether the decoder has ended.
    pub fn is_terminated(&self) -> (r: bool)
        ensures
            r == self.finished(),
    {
        self.finished
    }

    /// End the decoder and release the parser's buffers.
    fn finish(&mut self)
        requires
            old(self).wf(),
        ensures
            final(self).wf(),
            final(self).agrees(),
            final(self).finished(),
            final(self).source() == old(self).source(),
            final(self).is_strict() == old(self).is_strict(),
            final(self).input() == old(self).input(),
            final(self).emitted() == old(self).emitted(),
    {
        self.finished = true;
        self.parser = Parser::new(self.strict);
    }

    /// Decode the next part of `chunk`, which continues the input.
    pub fn decode_chunk(&mut self, chunk: &[u8]) -> (r: ChunkOutcome)
        requires
            old(self).wf(),
        ensures
            final(self).wf(),
            final(self).agrees(),
            final(self).source() == old(self).source(),
            final(self).is_strict() == old(self).is_strict(),
            r is Finished <==> old(self).finished(),
            r is Finished ==> *final(self) == *old(self),
            match r {
                ChunkOutcome::Finished => true,
                ChunkOutcome::Event { consumed, event } => {
                    &&& !old(self).finished() && !final(self).finished()
                    &&& 0 < consumed <= chunk.len()
                    &&& final(self).input() == old(self).input() + chunk@.take(consumed as int)
                    &&& final(self).emitted() == old(self).emitted().push(Emit::Event(event@))
                    &&& event_end(
                        old(self).is_strict(),
                        run(old(self).is_strict(), ReadState::initial(), old(self).input()).0,
                        chunk@,
                        consumed as int,
                    )
                },
                ChunkOutcome::NeedMore => {
                    &&& !old(self).finished() && !final(self).finished()
                    &&& final(self).input() == old(self).input() + chunk@
                    &&& final(self).emitted() == old(self).emitted()
                },
                ChunkOutcome::Failed(e) => {
                    &&& !old(self).finished() && final(self).finished()
                    &&& (e is Utf8Parse || e is UnknownField)
                    &&& exists|k: int|
                        0 <= k <= chunk.len() && #[trigger] run(
                            old(self).is_strict(),
                            ReadState::initial(),
                            old(self).input() + chunk@.take(k),
                        ).1 == old(self).emitted().push(error_emit(e))
                    &&& final(self).input() == old(self).input()
                    &&& final(self).emitted() == old(self).emitted()
                },
            },
    {
        if self.finished {
            return ChunkOutcome::Finished;
        }
        let ghost input0 = self.input@;
        let ghost emitted0 = self.emitted@;
        let ghost st0 = self.parser.read_state();
        let ghost strict = self.strict;
        match self.parser.parse_chunk(chunk) {
            Ok(Some(parsed)) => {
                proof {
                    crate::model::lemma_run_append(strict, ReadState::initial(), input0, chunk@.take(parsed.consumed as int));
                    assert forall|i: int| 0 <= i < emitted0.push(Emit::Event(parsed.event@)).len() implies
                        (#[trigger] emitted0.push(Emit::Event(parsed.event@))[i]) is Event by {
                        if i < emitted0.len() {
                            assert(emitted0.push(Emit::Event(parsed.event@))[i] == emitted0[i]);
                        }
                    }
                    assert(emitted0 + seq![Emit::Event(parsed.event@)] =~= emitted0.push(Emit::Event(parsed.event@)));
                }
                self.input = Ghost(input0 + chunk@.take(parsed.consumed as int));
                self.emitted = Ghost(emitted0.push(Emit::Event(parsed.event@)));
                ChunkOutcome::Event { consumed: parsed.consumed, event: parsed.event }
            },
            Ok(None) => {
                proof {
                    crate::model::lemma_run_append(strict, ReadState::initial(), input0, chunk@);
                    assert(emitted0 + Seq::<Emit>::empty() =~= emitted0);
                }
                self.input = Ghost(input0 + chunk@);
                ChunkOutcome::NeedMore
            },
            Err(error) => {
                proof {
                    let k = choose|k: int|
                        0 <= k <= chunk.len() && #[trigger] run(strict, st0, chunk@.take(k)).1
                            == seq![error_emit(error)];
                    crate::model::lemma_run_append(strict, ReadState::initial(), input0, chunk@.take(k));
                    assert(emitted0 + seq![error_emit(error)] =~= emitted0.push(error_emit(error)));
                    assert(run(strict, ReadState::initial(), input0 + chunk@.take(k)).1
                        == emitted0.push(error_emit(error)));
                    assert(run(old(self).is_strict(), ReadState::initial(), old(self).input() + chunk@.take(k)).1
                        == old(self).emitted().push(error_emit(error)));
                }
                self.finished = true;
                self.parser = Parser::new(self.strict);
                ChunkOutcome::Failed(error)
            },
        }
    }

    /// The input failed: end the decoder and report the error once.
    pub fn fail_input(&mut self, error: BoxError) -> (r: Option<Error>)
        requires
            old(self).wf(),
        ensures
            final(self).wf(),
            final(self).agrees(),
            final(self).finished(),
            final(self).source() == old(self).source(),
            final(self).input() == old(self).input(),
            final(self).emitted() == old(self).emitted(),
            old(self).finished() ==> r is None,
            !old(self).finished() ==> r == Some(Error::Body(error)),
    {
        if self.finished {
            return None;
        }
        self.finish();
        Some(Error::Body(error))
    }

    /// The input ended: an incomplete final block is discarded.
    pub fn end_input(&mut self)
        requires
            old(self).wf(),
        ensures
            final(self).wf(),
            final(self).agrees(),
            final(self).finished(),
            final(self).source() == old(self).source(),
            final(self).input() == old(self).input(),
            final(self).emitted() == old(self).emitted(),
    {
        self.finish();
    }
}

} // verus!
