//! The negotiation engine: the state machine that drives one want/have
//! exchange with a `git-upload-pack` process to completion.
//!
//! The engine never touches pipes itself. The surrounding process control
//! decodes frames off the child's output, feeds them in as [`WireEvent`]s,
//! performs the returned [`EngineAction`]s (write bytes to the child's
//! input, or switch the read side to raw pack streaming), and reports read
//! faults and the end of the stream. Every transition is fixed by the spec
//! function [`next_state`].

use crate::codec::{
    encode_line, encode_line_spec, flush_bytes, line_text, FramingError, PktLineMessage,
    MAX_PKT_LINE_LEN, NEWLINE,
};
use crate::util::append_bytes;
use vstd::prelude::*;

verus! {

/// The caller-supplied input of one negotiation: the commit the caller
/// wants, and optionally one it already has. Hashes travel as the ASCII
/// bytes that go on the wire.
pub struct NegotiationRequest {
    pub want: Vec<u8>,
    pub have: Option<Vec<u8>>,
}

/// Why a negotiation failed.
#[derive(Clone, Copy, Debug, PartialEq, Eq, Structural)]
pub enum FailureReason {
    /// The `git-upload-pack` process could not be started.
    Spawn,
    /// Malformed or truncated framing data.
    Framing(FramingError),
    /// A response that does not fit the exchange where it arrived.
    UnexpectedResponse,
    /// A pipe could not be read or written.
    Io,
    /// The pack stream could not be persisted.
    PackPersist,
}

/// The state of one negotiation. It never re-enters
/// `AwaitingRefAdvertisement` after leaving it, and `StreamingPack` is
/// reachable only via `AwaitingAck` (`lemma_ref_advertisement_not_reentered`,
/// `lemma_streaming_only_via_ack`).
#[derive(Clone, Copy, Debug, PartialEq, Eq, Structural)]
pub enum NegotiationState {
    /// Reading the server's ref advertisement, which this client ignores:
    /// the refs are already known from the reference listing.
    AwaitingRefAdvertisement,
    /// The request is written; ACK or NAK lines decide what happens.
    AwaitingAck { expects_continue: bool },
    /// The remaining bytes are the pack stream, no longer framed.
    StreamingPack,
    /// The pack stream ended; the transport can be released.
    Completed,
    /// The negotiation is over without a pack; the transport must still be
    /// shut down.
    Failed(FailureReason),
}

/// What the transport observed: one decoded frame, a framing fault, the
/// end of the child's output, or a read error.
#[derive(Debug, PartialEq, Eq)]
pub enum WireEvent {
    Frame(PktLineMessage),
    FrameInvalid(FramingError),
    EndOfStream,
    ReadFailed,
}

/// What the caller must do after a step: nothing, write bytes to the
/// child's input, or switch the read side to raw pack pass-through.
#[derive(Debug, PartialEq, Eq)]
pub enum EngineAction {
    Continue,
    Send(Vec<u8>),
    BeginPack,
}

/// The mathematical value of an `EngineAction`.
pub enum EngineActionView {
    Continue,
    Send(Seq<u8>),
    BeginPack,
}

impl View for EngineAction {
    type V = EngineActionView;

    open spec fn view(&self) -> EngineActionView {
        match self {
            EngineAction::Continue => EngineActionView::Continue,
            EngineAction::Send(bytes) => EngineActionView::Send(bytes@),
            EngineAction::BeginPack => EngineActionView::BeginPack,
        }
    }
}

/// The bytes of `"NAK"`.
pub open spec fn nak_bytes() -> Seq<u8> {
    seq![78u8, 65u8, 75u8]
}

/// The bytes of `"ACK"`.
pub open spec fn ack_bytes() -> Seq<u8> {
    seq![65u8, 67u8, 75u8]
}

/// The bytes of `"continue"`.
pub open spec fn continue_bytes() -> Seq<u8> {
    seq![99u8, 111u8, 110u8, 116u8, 105u8, 110u8, 117u8, 101u8]
}

/// The bytes of `"want "`.
pub open spec fn want_prefix_bytes() -> Seq<u8> {
    seq![119u8, 97u8, 110u8, 116u8, 32u8]
}

/// The bytes of `"have "`.
pub open spec fn have_prefix_bytes() -> Seq<u8> {
    seq![104u8, 97u8, 118u8, 101u8, 32u8]
}

/// The bytes of `"done"`.
pub open spec fn done_bytes() -> Seq<u8> {
    seq![100u8, 111u8, 110u8, 101u8]
}

/// A line that begins with `ACK`.
pub open spec fn is_ack_line(line: Seq<u8>) -> bool {
    line.len() >= 3 && line.subrange(0, 3) == ack_bytes()
}

/// A line that ends with `continue`.
pub open spec fn ends_continue(line: Seq<u8>) -> bool {
    line.len() >= 8 && line.subrange(line.len() - 8, line.len() as int) == continue_bytes()
}

/// The mathematical value of an optional byte string.
pub open spec fn have_view(have: Option<Vec<u8>>) -> Option<Seq<u8>> {
    match have {
        Some(h) => Some(h@),
        None => None,
    }
}

/// Both framed request lines stay within the protocol ceiling: the framed
/// form of `want <hash>` or `have <hash>` is ten bytes longer than the
/// hash (five bytes of verb and space, the newline, the 4-byte prefix).
pub open spec fn request_fits_raw(want: Seq<u8>, have: Option<Seq<u8>>) -> bool {
    &&& want.len() + 10 <= MAX_PKT_LINE_LEN
    &&& match have {
        Some(h) => h.len() + 10 <= MAX_PKT_LINE_LEN,
        None => true,
    }
}

/// `request_fits_raw` over a request value.
pub open spec fn request_fits(req: NegotiationRequest) -> bool {
    request_fits_raw(req.want@, have_view(req.have))
}

/// The exact wire sequence of the negotiation request: `want <hash>`,
/// flush, then (if a `have` is present) `have <hash>`, flush, then `done`.
pub open spec fn request_message_spec(want: Seq<u8>, have: Option<Seq<u8>>) -> Seq<u8> {
    encode_line_spec(want_prefix_bytes() + want) + flush_bytes() + (match have {
        Some(h) => encode_line_spec(have_prefix_bytes() + h) + flush_bytes(),
        None => Seq::<u8>::empty(),
    }) + encode_line_spec(done_bytes())
}

/// The transition function of the negotiation state machine.
///
/// In `AwaitingRefAdvertisement` every data line is ignored and the
/// terminating flush triggers the request (or a framing failure when a
/// hash is too long to frame). In `AwaitingAck` a bare `NAK` or an `ACK`
/// that does not end in `continue` opens the pack stream, an `ACK …
/// continue` keeps the negotiation open, any other line is informational
/// and ignored, and a flush does not belong in the exchange. A framing
/// fault, a read fault, or an end of stream before the pack phase fails
/// the negotiation; the end of the stream while streaming completes it.
pub open spec fn next_state(s: NegotiationState, req: NegotiationRequest, ev: WireEvent) -> NegotiationState {
    match s {
        NegotiationState::AwaitingRefAdvertisement => match ev {
            WireEvent::Frame(PktLineMessage::Flush) => if request_fits(req) {
                NegotiationState::AwaitingAck { expects_continue: req.have is Some }
            } else {
                NegotiationState::Failed(FailureReason::Framing(FramingError::PayloadTooLarge))
            },
            WireEvent::Frame(PktLineMessage::Data(_)) => s,
            WireEvent::FrameInvalid(e) => NegotiationState::Failed(FailureReason::Framing(e)),
            WireEvent::EndOfStream => NegotiationState::Failed(
                FailureReason::Framing(FramingError::Incomplete),
            ),
            WireEvent::ReadFailed => NegotiationState::Failed(FailureReason::Io),
        },
        NegotiationState::AwaitingAck { expects_continue } => match ev {
            WireEvent::Frame(PktLineMessage::Data(payload)) => {
                let t = line_text(payload@);
                if t == nak_bytes() || (is_ack_line(t) && !ends_continue(t)) {
                    NegotiationState::StreamingPack
                } else {
                    s
                }
            },
            WireEvent::Frame(PktLineMessage::Flush) => NegotiationState::Failed(
                FailureReason::UnexpectedResponse,
            ),
            WireEvent::FrameInvalid(e) => NegotiationState::Failed(FailureReason::Framing(e)),
            WireEvent::EndOfStream => NegotiationState::Failed(
                FailureReason::Framing(FramingError::Incomplete),
            ),
            WireEvent::ReadFailed => NegotiationState::Failed(FailureReason::Io),
        },
        NegotiationState::StreamingPack => match ev {
            WireEvent::EndOfStream => NegotiationState::Completed,
            WireEvent::ReadFailed => NegotiationState::Failed(FailureReason::Io),
            _ => s,
        },
        NegotiationState::Completed => s,
        NegotiationState::Failed(_) => s,
    }
}

/// The action a step returns: the request bytes when the ref advertisement
/// ends, the switch to raw streaming when the pack opens, nothing else.
pub open spec fn step_action(s: NegotiationState, req: NegotiationRequest, ev: WireEvent) -> EngineActionView {
    if next_state(s, req, ev) is StreamingPack && !(s is StreamingPack) {
        EngineActionView::BeginPack
    } else if s is AwaitingRefAdvertisement && (ev matches WireEvent::Frame(
        PktLineMessage::Flush,
    )) && request_fits(req) {
        EngineActionView::Send(request_message_spec(req.want@, have_view(req.have)))
    } else {
        EngineActionView::Continue
    }
}

/// Relies on `regex::bytes::Regex` with the pattern `"^ACK"`: without the
/// multi-line flag, `^` anchors at the start of the haystack, so the
/// pattern matches exactly the byte strings that begin with `ACK`. The
/// pattern is fixed and valid, so compiling it cannot fail.
#[verifier::external_body]
fn matches_ack_prefix(line: &[u8]) -> (r: bool)
    ensures
        r == is_ack_line(line@),
{
    regex::bytes::Regex::new("^ACK").unwrap().is_match(line)
}

/// Relies on `regex::bytes::Regex` with the pattern `"continue$"`: without
/// the multi-line flag, `$` anchors at the end of the haystack, so the
/// pattern matches exactly the byte strings that end with `continue`. The
/// pattern is fixed and valid, so compiling it cannot fail.
#[verifier::external_body]
fn matches_continue_suffix(line: &[u8]) -> (r: bool)
    ensures
        r == ends_continue(line@),
{
    regex::bytes::Regex::new("continue$").unwrap().is_match(line)
}

/// Whether a response line is anything but the bare `NAK` the no-have
/// exchange waits for: `true` means keep waiting.
pub fn wait_for_nak(line: &[u8]) -> (r: bool)
    ensures
        r == (line@ != nak_bytes()),
{
    let is_nak = line.len() == 3 && line[0] == 78 && line[1] == 65 && line[2] == 75;
    proof {
        if is_nak {
            assert(line@ =~= nak_bytes());
        }
    }
    !is_nak
}

/// Whether an acknowledgement line settles the exchange: an `ACK` that
/// does not end in `continue`.
pub fn ack_objects_continue(line: &[u8]) -> (r: bool)
    ensures
        r == (is_ack_line(line@) && !ends_continue(line@)),
{
    let is_ack = matches_ack_prefix(line);
    let is_con = matches_continue_suffix(line);
    is_ack && !is_con
}

/// Builds the complete framed request: `want <hash>`, flush, the optional
/// `have <hash>` and flush, then `done`. Rejects a hash that cannot be
/// framed, emitting nothing.
pub fn write_message(want: &[u8], have: Option<&[u8]>) -> (r: Result<Vec<u8>, FramingError>)
    ensures
        ({
            let h = match have {
                Some(hs) => Some(hs@),
                None => None,
            };
            &&& request_fits_raw(want@, h) ==> (r matches Ok(v) && v@ == request_message_spec(
                want@,
                h,
            ))
            &&& !request_fits_raw(want@, h) ==> r == Err::<Vec<u8>, FramingError>(
                FramingError::PayloadTooLarge,
            )
        }),
{
    let mut want_line: Vec<u8> = Vec::new();
    want_line.push(119);
    want_line.push(97);
    want_line.push(110);
    want_line.push(116);
    want_line.push(32);
    append_bytes(&mut want_line, want);
    proof {
        assert(want_line@ =~= want_prefix_bytes() + want@);
    }
    let mut out = match encode_line(want_line.as_slice()) {
        Ok(v) => v,
        Err(e) => {
            return Err(e);
        },
    };
    let flush = crate::codec::encode_flush();
    append_bytes(&mut out, flush.as_slice());
    if let Some(h) = have {
        let mut have_line: Vec<u8> = Vec::new();
        have_line.push(104);
        have_line.push(97);
        have_line.push(118);
        have_line.push(101);
        have_line.push(32);
        append_bytes(&mut have_line, h);
        proof {
            assert(have_line@ =~= have_prefix_bytes() + h@);
        }
        let have_frame = match encode_line(have_line.as_slice()) {
            Ok(v) => v,
            Err(e) => {
                return Err(e);
            },
        };
        append_bytes(&mut out, have_frame.as_slice());
        append_bytes(&mut out, flush.as_slice());
    }
    let mut done_line: Vec<u8> = Vec::new();
    done_line.push(100);
    done_line.push(111);
    done_line.push(110);
    done_line.push(101);
    proof {
        assert(done_line@ =~= done_bytes());
    }
    let done_frame = match encode_line(done_line.as_slice()) {
        Ok(v) => v,
        Err(_) => {
            proof {
                assert(false);
            }
            return Err(FramingError::PayloadTooLarge);
        },
    };
    append_bytes(&mut out, done_frame.as_slice());
    proof {
        let h = match have {
            Some(hs) => Some(hs@),
            None => None::<Seq<u8>>,
        };
        assert(out@ =~= request_message_spec(want@, h));
    }
    Ok(out)
}

/// One negotiation: the immutable request and the current state. The
/// state changes only through [`Negotiation::step`] and
/// [`Negotiation::on_transport_failure`].
pub struct Negotiation {
    request: NegotiationRequest,
    state: NegotiationState,
}

impl Negotiation {
    /// The current state.
    pub closed spec fn spec_state(&self) -> NegotiationState {
        self.state
    }

    /// The request the negotiation was started with.
    pub closed spec fn spec_request(&self) -> NegotiationRequest {
        self.request
    }

    /// Starts a negotiation in `AwaitingRefAdvertisement`.
    pub fn new(request: NegotiationRequest) -> (e: Negotiation)
        ensures
            e.spec_state() == NegotiationState::AwaitingRefAdvertisement,
            e.spec_request() == request,
    {
        Negotiation { request, state: NegotiationState::AwaitingRefAdvertisement }
    }

    /// The current state, for the caller's control flow.
    pub fn current_state(&self) -> (s: NegotiationState)
        ensures
            s == self.spec_state(),
    {
        self.state
    }

    /// Feeds one observation to the state machine and returns what to do:
    /// the transition is exactly [`next_state`], the action exactly
    /// [`step_action`].
    pub fn step(&mut self, event: WireEvent) -> (action: EngineAction)
        ensures
            final(self).spec_request() == old(self).spec_request(),
            final(self).spec_state() == next_state(
                old(self).spec_state(),
                old(self).spec_request(),
                event,
            ),
            action@ == step_action(old(self).spec_state(), old(self).spec_request(), event),
    {
        match event {
            WireEvent::Frame(PktLineMessage::Flush) => {
                match self.state {
                    NegotiationState::AwaitingRefAdvertisement => {
                        let have_slice = match &self.request.have {
                            Some(h) => Some(h.as_slice()),
                            None => None,
                        };
                        match write_message(self.request.want.as_slice(), have_slice) {
                            Ok(bytes) => {
                                let expects = self.request.have.is_some();
                                self.state = NegotiationState::AwaitingAck {
                                    expects_continue: expects,
                                };
                                EngineAction::Send(bytes)
                            },
                            Err(_) => {
                                self.state = NegotiationState::Failed(
                                    FailureReason::Framing(FramingError::PayloadTooLarge),
                                );
                                EngineAction::Continue
                            },
                        }
                    },
                    NegotiationState::AwaitingAck { .. } => {
                        self.state = NegotiationState::Failed(FailureReason::UnexpectedResponse);
                        EngineAction::Continue
                    },
                    _ => EngineAction::Continue,
                }
            },
            WireEvent::Frame(PktLineMessage::Data(payload)) => {
                match self.state {
                    NegotiationState::AwaitingAck { .. } => {
                        let ghost payload0 = payload@;
                        let mut text = payload;
                        if text.len() > 0 && text[text.len() - 1] == NEWLINE {
                            text.pop();
                        }
                        proof {
                            assert(text@ == line_text(payload0));
                        }
                        if !wait_for_nak(text.as_slice()) || ack_objects_continue(
                            text.as_slice(),
                        ) {
                            self.state = NegotiationState::StreamingPack;
                            EngineAction::BeginPack
                        } else {
                            EngineAction::Continue
                        }
                    },
                    _ => EngineAction::Continue,
                }
            },
            WireEvent::FrameInvalid(e) => {
                match self.state {
                    NegotiationState::AwaitingRefAdvertisement => {
                        self.state = NegotiationState::Failed(FailureReason::Framing(e));
                    },
                    NegotiationState::AwaitingAck { .. } => {
                        self.state = NegotiationState::Failed(FailureReason::Framing(e));
                    },
                    _ => {},
                }
                EngineAction::Continue
            },
            WireEvent::EndOfStream => {
                match self.state {
                    NegotiationState::AwaitingRefAdvertisement => {
                        self.state = NegotiationState::Failed(
                            FailureReason::Framing(FramingError::Incomplete),
                        );
                    },
                    NegotiationState::AwaitingAck { .. } => {
                        self.state = NegotiationState::Failed(
                            FailureReason::Framing(FramingError::Incomplete),
                        );
                    },
                    NegotiationState::StreamingPack => {
                        self.state = NegotiationState::Completed;
                    },
                    _ => {},
                }
                EngineAction::Continue
            },
            WireEvent::ReadFailed => {
                match self.state {
                    NegotiationState::AwaitingRefAdvertisement => {
                        self.state = NegotiationState::Failed(FailureReason::Io);
                    },
                    NegotiationState::AwaitingAck { .. } => {
                        self.state = NegotiationState::Failed(FailureReason::Io);
                    },
                    NegotiationState::StreamingPack => {
                        self.state = NegotiationState::Failed(FailureReason::Io);
                    },
                    _ => {},
                }
                EngineAction::Continue
            },
        }
    }

    /// Records a failure seen by the surrounding process control (a spawn
    /// fault, a persistence fault, a cancellation): a negotiation that is
    /// not yet terminal becomes `Failed`; a terminal one keeps its outcome.
    pub fn on_transport_failure(&mut self, reason: FailureReason)
        ensures
            final(self).spec_request() == old(self).spec_request(),
            final(self).spec_state() == (if old(self).spec_state() is Completed || old(
                self,
            ).spec_state() is Failed {
                old(self).spec_state()
            } else {
                NegotiationState::Failed(reason)
            }),
    {
        match self.state {
            NegotiationState::Completed => {},
            NegotiationState::Failed(_) => {},
            _ => {
                self.state = NegotiationState::Failed(reason);
            },
        }
    }
}

/// The state machine never returns to `AwaitingRefAdvertisement` after
/// leaving it.
pub proof fn lemma_ref_advertisement_not_reentered(
    s: NegotiationState,
    req: NegotiationRequest,
    ev: WireEvent,
)
    ensures
        next_state(s, req, ev) is AwaitingRefAdvertisement ==> s is AwaitingRefAdvertisement,
{
}

/// `StreamingPack` is reachable only via `AwaitingAck`.
pub proof fn lemma_streaming_only_via_ack(
    s: NegotiationState,
    req: NegotiationRequest,
    ev: WireEvent,
)
    ensures
        next_state(s, req, ev) is StreamingPack ==> (s is AwaitingAck || s is StreamingPack),
{
}

/// No-have negotiation: with no `have`, once the ref advertisement ends in
/// a flush the engine sends the request and expects no `continue`; a bare
/// `NAK` line then opens the pack stream.
pub proof fn lemma_no_have_negotiation(req: NegotiationRequest, payload: Vec<u8>)
    requires
        req.have is None,
        request_fits(req),
        line_text(payload@) == nak_bytes(),
    ensures
        next_state(
            NegotiationState::AwaitingRefAdvertisement,
            req,
            WireEvent::Frame(PktLineMessage::Flush),
        ) == (NegotiationState::AwaitingAck { expects_continue: false }),
        next_state(
            NegotiationState::AwaitingAck { expects_continue: false },
            req,
            WireEvent::Frame(PktLineMessage::Data(payload)),
        ) == NegotiationState::StreamingPack,
{
}

/// Have negotiation: with a `have`, an `ACK … continue` keeps the engine
/// in `AwaitingAck`, and a following `ACK` without `continue` opens the
/// pack stream.
pub proof fn lemma_have_negotiation_continue(
    req: NegotiationRequest,
    continued: Vec<u8>,
    settled: Vec<u8>,
)
    requires
        req.have is Some,
        request_fits(req),
        is_ack_line(line_text(continued@)),
        ends_continue(line_text(continued@)),
        is_ack_line(line_text(settled@)),
        !ends_continue(line_text(settled@)),
    ensures
        next_state(
            NegotiationState::AwaitingRefAdvertisement,
            req,
            WireEvent::Frame(PktLineMessage::Flush),
        ) == (NegotiationState::AwaitingAck { expects_continue: true }),
        next_state(
            NegotiationState::AwaitingAck { expects_continue: true },
            req,
            WireEvent::Frame(PktLineMessage::Data(continued)),
        ) == (NegotiationState::AwaitingAck { expects_continue: true }),
        next_state(
            NegotiationState::AwaitingAck { expects_continue: true },
            req,
            WireEvent::Frame(PktLineMessage::Data(settled)),
        ) == NegotiationState::StreamingPack,
{
    let t = line_text(continued@);
    assert(t != nak_bytes()) by {
        assert(is_ack_line(t));
        assert(t.subrange(0, 3)[0] == t[0]);
        if t == nak_bytes() {
            assert(t[0] == 78);
            assert(ack_bytes()[0] == 65);
        }
    }
}

/// A subprocess that exits mid-negotiation leaves a truncated exchange:
/// the engine fails instead of waiting forever or faking success.
pub proof fn lemma_unexpected_exit_fails(s: NegotiationState, req: NegotiationRequest)
    requires
        s is AwaitingRefAdvertisement || s is AwaitingAck,
    ensures
        next_state(s, req, WireEvent::EndOfStream) is Failed,
{
}

} // verus!
