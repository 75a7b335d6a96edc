//! The pkt-line codec: git's length-prefixed line framing.
//!
//! A frame is either the flush marker (the literal four bytes `"0000"`) or a
//! data line: four lowercase hex digits giving the total frame length (the
//! prefix counts itself), followed by the payload bytes. Textual lines carry
//! a trailing newline inside the payload. Decoding works on an accumulator
//! that carries unconsumed bytes across reads, so an arbitrary chunking of a
//! byte stream recovers the same message sequence as a single buffer would.

use vstd::arithmetic::div_mod::{lemma_fundamental_div_mod, lemma_mod_mod};
use vstd::prelude::*;

verus! {

/// Maximum total length of one pkt-line frame, the 4-byte length prefix
/// counted. A hard protocol ceiling, not a buffer-size convenience.
pub const MAX_PKT_LINE_LEN: usize = 65520;

/// Byte value of the newline that terminates a textual pkt-line payload.
pub const NEWLINE: u8 = 10;

/// One decoded message: the flush marker, or a data line whose payload
/// excludes the 4-byte length prefix.
#[derive(Debug, PartialEq, Eq)]
pub enum PktLineMessage {
    Flush,
    Data(Vec<u8>),
}

/// The mathematical value of a `PktLineMessage`.
pub enum PktLineMessageView {
    Flush,
    Data(Seq<u8>),
}

impl View for PktLineMessage {
    type V = PktLineMessageView;

    open spec fn view(&self) -> PktLineMessageView {
        match self {
            PktLineMessage::Flush => PktLineMessageView::Flush,
            PktLineMessage::Data(payload) => PktLineMessageView::Data(payload@),
        }
    }
}

/// Malformed or not-yet-complete framing data.
#[derive(Clone, Copy, Debug, PartialEq, Eq, Structural)]
pub enum FramingError {
    /// A frame whose total length would exceed `MAX_PKT_LINE_LEN`.
    PayloadTooLarge,
    /// A length prefix that is not valid hex, or a length of 1 to 3,
    /// which cannot even cover its own prefix.
    InvalidLength,
    /// Fewer bytes available than the frame needs; buffer and retry.
    Incomplete,
}

/// The four ASCII bytes `"0000"`: the flush marker on the wire.
pub open spec fn flush_bytes() -> Seq<u8> {
    seq![48u8, 48u8, 48u8, 48u8]
}

/// An ASCII hex digit, lowercase or uppercase.
pub open spec fn is_hex_digit(b: u8) -> bool {
    (48 <= b && b <= 57) || (97 <= b && b <= 102) || (65 <= b && b <= 70)
}

/// The numeric value of an ASCII hex digit.
pub open spec fn hex_val(b: u8) -> nat {
    if 48 <= b && b <= 57 {
        (b - 48) as nat
    } else if 97 <= b && b <= 102 {
        (b - 87) as nat
    } else if 65 <= b && b <= 70 {
        (b - 55) as nat
    } else {
        0
    }
}

/// The lowercase ASCII hex digit for a value below 16.
pub open spec fn hex_digit_of(v: nat) -> u8 {
    if v < 10 {
        (48 + v) as u8
    } else {
        (87 + v) as u8
    }
}

/// The first four bytes of `s` are hex digits.
pub open spec fn valid_hex4(s: Seq<u8>) -> bool {
    s.len() >= 4 && is_hex_digit(s[0]) && is_hex_digit(s[1]) && is_hex_digit(s[2]) && is_hex_digit(
        s[3],
    )
}

/// The value of the four-digit hex prefix of `s`.
pub open spec fn hex4_val(s: Seq<u8>) -> nat {
    4096 * hex_val(s[0]) + 256 * hex_val(s[1]) + 16 * hex_val(s[2]) + hex_val(s[3])
}

/// Four lowercase hex digits encoding a value below 65536.
pub open spec fn hex4(v: nat) -> Seq<u8> {
    seq![
        hex_digit_of(v / 4096),
        hex_digit_of((v % 4096) / 256),
        hex_digit_of((v % 256) / 16),
        hex_digit_of(v % 16),
    ]
}

/// The wire form of a textual line: the length prefix (payload plus newline
/// plus the prefix itself), the payload, and a trailing newline.
pub open spec fn encode_line_spec(payload: Seq<u8>) -> Seq<u8> {
    hex4((payload.len() + 5) as nat) + payload + seq![NEWLINE]
}

/// What the front of a byte buffer holds: not enough bytes yet, a framing
/// fault, or one complete frame together with the bytes it consumes.
pub enum DecodeStep {
    NeedMore,
    Fail(FramingError),
    Frame(PktLineMessageView, int),
}

/// Decoding one frame off the front of `s`.
pub open spec fn decode_front(s: Seq<u8>) -> DecodeStep {
    if s.len() < 4 {
        DecodeStep::NeedMore
    } else if !valid_hex4(s) {
        DecodeStep::Fail(FramingError::InvalidLength)
    } else {
        let n = hex4_val(s);
        if n == 0 {
            DecodeStep::Frame(PktLineMessageView::Flush, 4)
        } else if n < 4 {
            DecodeStep::Fail(FramingError::InvalidLength)
        } else if n > MAX_PKT_LINE_LEN as nat {
            DecodeStep::Fail(FramingError::PayloadTooLarge)
        } else if s.len() < n {
            DecodeStep::NeedMore
        } else {
            DecodeStep::Frame(PktLineMessageView::Data(s.subrange(4, n as int)), n as int)
        }
    }
}

/// All messages that greedy decoding recovers from the front of `s`,
/// stopping at the first incomplete or malformed frame.
pub open spec fn decode_all(s: Seq<u8>) -> Seq<PktLineMessageView>
    decreases s.len(),
{
    match decode_front(s) {
        DecodeStep::Frame(m, n) => seq![m] + decode_all(s.skip(n)),
        _ => seq![],
    }
}

/// How many bytes greedy decoding consumes from the front of `s`.
pub open spec fn decoded_len(s: Seq<u8>) -> int
    decreases s.len(),
{
    match decode_front(s) {
        DecodeStep::Frame(m, n) => n + decoded_len(s.skip(n)),
        _ => 0,
    }
}

/// The bytes greedy decoding leaves unconsumed at the end of `s`.
pub open spec fn undecoded(s: Seq<u8>) -> Seq<u8> {
    s.skip(decoded_len(s))
}

/// A textual payload with any single trailing newline removed.
pub open spec fn line_text(payload: Seq<u8>) -> Seq<u8> {
    if payload.len() > 0 && payload.last() == NEWLINE {
        payload.drop_last()
    } else {
        payload
    }
}

/// Writing a value below 65536 as four hex digits and reading them back
/// recovers the value.
pub proof fn lemma_hex4_round_trip(v: nat)
    requires
        v < 65536,
    ensures
        hex4(v).len() == 4,
        valid_hex4(hex4(v)),
        hex4_val(hex4(v)) == v,
{
    lemma_fundamental_div_mod(v as int, 4096);
    lemma_fundamental_div_mod((v % 4096) as int, 256);
    lemma_mod_mod(v as int, 256, 16);
    lemma_fundamental_div_mod((v % 256) as int, 16);
    lemma_mod_mod(v as int, 16, 16);
}

/// Flush identity: the flush marker decodes back to `Flush`, consuming
/// exactly its four bytes.
pub proof fn lemma_flush_identity()
    ensures
        decode_front(flush_bytes()) == DecodeStep::Frame(PktLineMessageView::Flush, 4int),
{
}

/// Round trip: a payload whose encoded length fits the protocol ceiling
/// decodes back to a `Data` line that consumes the whole encoding and whose
/// text, once the framing newline is stripped, is the payload itself.
pub proof fn lemma_encode_line_round_trip(payload: Seq<u8>)
    requires
        payload.len() + 5 <= MAX_PKT_LINE_LEN,
    ensures
        decode_front(encode_line_spec(payload)) == DecodeStep::Frame(
            PktLineMessageView::Data(payload + seq![NEWLINE]),
            payload.len() + 5int,
        ),
        line_text(payload + seq![NEWLINE]) == payload,
{
    let n = (payload.len() + 5) as nat;
    let encoded = encode_line_spec(payload);
    lemma_hex4_round_trip(n);
    assert(valid_hex4(encoded));
    assert(hex4_val(encoded) == n);
    assert(encoded.len() == n);
    assert(encoded.subrange(4, n as int) =~= payload + seq![NEWLINE]);
    assert(line_text(payload + seq![NEWLINE]) =~= payload);
}

/// Greedy decoding never consumes more bytes than the buffer holds.
pub proof fn lemma_decoded_len_bounds(s: Seq<u8>)
    ensures
        0 <= decoded_len(s) <= s.len(),
    decreases s.len(),
{
    match decode_front(s) {
        DecodeStep::Frame(m, n) => {
            lemma_decoded_len_bounds(s.skip(n));
        },
        _ => {},
    }
}

/// A complete frame at the front of a buffer is untouched by whatever
/// bytes follow it.
pub proof fn lemma_decode_front_extend(s: Seq<u8>, t: Seq<u8>)
    ensures
        decode_front(s) matches DecodeStep::Frame(m, n) ==> decode_front(s + t)
            == DecodeStep::Frame(m, n),
{
    if let DecodeStep::Frame(m, n) = decode_front(s) {
        assert(valid_hex4(s + t));
        assert(hex4_val(s + t) == hex4_val(s));
        if hex4_val(s) != 0 {
            assert((s + t).subrange(4, n) =~= s.subrange(4, n));
        }
    }
}

/// Chunking invariance: splitting a byte stream at any offset and decoding
/// the two chunks through an accumulator (the undecoded remainder of the
/// first chunk is prepended to the second) recovers exactly the messages,
/// and the trailing remainder, of decoding the stream as one buffer.
pub proof fn lemma_chunking_invariance(s: Seq<u8>, i: int)
    requires
        0 <= i <= s.len(),
    ensures
        ({
            let first = s.take(i);
            let rest = undecoded(first) + s.skip(i);
            decode_all(first) + decode_all(rest) == decode_all(s) && undecoded(rest) == undecoded(
                s,
            )
        }),
    decreases s.len(),
{
    let first = s.take(i);
    let rest = undecoded(first) + s.skip(i);
    lemma_decoded_len_bounds(first);
    match decode_front(first) {
        DecodeStep::Frame(m, n) => {
            lemma_decode_front_extend(first, s.skip(i));
            assert(first + s.skip(i) =~= s);
            assert(decode_front(s) == DecodeStep::Frame(m, n));
            let s2 = s.skip(n);
            let i2 = i - n;
            assert(first.skip(n) =~= s2.take(i2));
            assert(s.skip(i) =~= s2.skip(i2));
            lemma_chunking_invariance(s2, i2);
            lemma_decoded_len_bounds(first.skip(n));
            assert(undecoded(first) =~= undecoded(first.skip(n)));
            assert(rest == undecoded(s2.take(i2)) + s2.skip(i2));
            assert(decode_all(first) + decode_all(rest) =~= seq![m] + (decode_all(s2.take(i2))
                + decode_all(rest)));
            lemma_decoded_len_bounds(s2);
            assert(undecoded(s) =~= undecoded(s2));
        },
        _ => {
            assert(undecoded(first) =~= first);
            assert(rest =~= s);
            assert(decode_all(first) + decode_all(rest) =~= decode_all(s));
        },
    }
}

/// Encodes the flush message: the literal bytes `"0000"`, no payload,
/// no trailing newline.
pub fn encode_flush() -> (r: Vec<u8>)
    ensures
        r@ == flush_bytes(),
{
    let mut v: Vec<u8> = Vec::new();
    v.push(48);
    v.push(48);
    v.push(48);
    v.push(48);
    proof {
        assert(v@ =~= flush_bytes());
    }
    v
}

/// The numeric value of a hex digit byte, or `None` if it is not one.
fn hex_val_of(b: u8) -> (r: Option<u8>)
    ensures
        r is Some <==> is_hex_digit(b),
        r matches Some(v) ==> v as nat == hex_val(b) && v < 16,
{
    if 48 <= b && b <= 57 {
        Some(b - 48)
    } else if 97 <= b && b <= 102 {
        Some(b - 87)
    } else if 65 <= b && b <= 70 {
        Some(b - 55)
    } else {
        None
    }
}

/// The lowercase hex digit byte for a value below 16.
fn hex_digit_byte(v: u8) -> (r: u8)
    requires
        v < 16,
    ensures
        r == hex_digit_of(v as nat),
{
    if v < 10 {
        48 + v
    } else {
        87 + v
    }
}

/// Encodes a textual payload as one pkt-line: length prefix, payload,
/// trailing newline. Rejects a payload whose framed length would exceed
/// `MAX_PKT_LINE_LEN`, writing nothing.
pub fn encode_line(payload: &[u8]) -> (r: Result<Vec<u8>, FramingError>)
    ensures
        payload@.len() + 5 <= MAX_PKT_LINE_LEN ==> (r matches Ok(v) && v@ == encode_line_spec(
            payload@,
        )),
        payload@.len() + 5 > MAX_PKT_LINE_LEN ==> r == Err::<Vec<u8>, FramingError>(
            FramingError::PayloadTooLarge,
        ),
{
    if payload.len() > MAX_PKT_LINE_LEN - 5 {
        return Err(FramingError::PayloadTooLarge);
    }
    let n: usize = payload.len() + 5;
    let mut v: Vec<u8> = Vec::new();
    v.push(hex_digit_byte((n / 4096) as u8));
    v.push(hex_digit_byte(((n % 4096) / 256) as u8));
    v.push(hex_digit_byte(((n % 256) / 16) as u8));
    v.push(hex_digit_byte((n % 16) as u8));
    assert(v@ =~= hex4(n as nat));
    let mut i: usize = 0;
    while i < payload.len()
        invariant
            i <= payload@.len(),
            payload@.len() + 5 <= MAX_PKT_LINE_LEN,
            v@ == hex4((payload@.len() + 5) as nat) + payload@.take(i as int),
        decreases payload@.len() - i,
    {
        v.push(payload[i]);
        i += 1;
        proof {
            assert(v@ =~= hex4((payload@.len() + 5) as nat) + payload@.take(i as int));
        }
    }
    v.push(NEWLINE);
    proof {
        assert(payload@.take(payload@.len() as int) =~= payload@);
        assert(v@ =~= encode_line_spec(payload@));
    }
    Ok(v)
}

/// Decodes one frame off the front of `buffer`. Returns the message and how
/// many bytes it consumed; `Incomplete` asks the caller to buffer more data
/// and retry, the other errors are fatal framing faults.
pub fn decode(buffer: &[u8]) -> (r: Result<(PktLineMessage, usize), FramingError>)
    ensures
        match decode_front(buffer@) {
            DecodeStep::NeedMore => r == Err::<(PktLineMessage, usize), FramingError>(
                FramingError::Incomplete,
            ),
            DecodeStep::Fail(e) => r == Err::<(PktLineMessage, usize), FramingError>(e),
            DecodeStep::Frame(m, n) => r matches Ok((msg, used)) && msg@ == m && used == n,
        },
{
    if buffer.len() < 4 {
        return Err(FramingError::Incomplete);
    }
    let v0 = match hex_val_of(buffer[0]) {
        Some(v) => v,
        None => { return Err(FramingError::InvalidLength); },
    };
    let v1 = match hex_val_of(buffer[1]) {
        Some(v) => v,
        None => { return Err(FramingError::InvalidLength); },
    };
    let v2 = match hex_val_of(buffer[2]) {
        Some(v) => v,
        None => { return Err(FramingError::InvalidLength); },
    };
    let v3 = match hex_val_of(buffer[3]) {
        Some(v) => v,
        None => { return Err(FramingError::InvalidLength); },
    };
    let n: usize = 4096 * (v0 as usize) + 256 * (v1 as usize) + 16 * (v2 as usize) + (v3 as usize);
    assert(n as nat == hex4_val(buffer@));
    if n == 0 {
        return Ok((PktLineMessage::Flush, 4));
    }
    if n < 4 {
        return Err(FramingError::InvalidLength);
    }
    if n > MAX_PKT_LINE_LEN {
        return Err(FramingError::PayloadTooLarge);
    }
    if buffer.len() < n {
        return Err(FramingError::Incomplete);
    }
    let mut payload: Vec<u8> = Vec::new();
    let mut i: usize = 4;
    while i < n
        invariant
            4 <= i <= n,
            n <= buffer@.len(),
            payload@ == buffer@.subrange(4, i as int),
        decreases n - i,
    {
        payload.push(buffer[i]);
        i += 1;
        proof {
            assert(payload@ =~= buffer@.subrange(4, i as int));
        }
    }
    Ok((PktLineMessage::Data(payload), n))
}

/// Drops the 4-byte length prefix from one raw frame, leaving the payload
/// together with whatever follows the frame in the same buffer.
pub fn read_line(line: &[u8]) -> (r: Vec<u8>)
    requires
        line@.len() >= 4,
    ensures
        r@ == line@.skip(4),
{
    let mut out: Vec<u8> = Vec::new();
    let mut i: usize = 4;
    while i < line.len()
        invariant
            4 <= i <= line@.len(),
            out@ == line@.subrange(4, i as int),
        decreases line@.len() - i,
    {
        out.push(line[i]);
        i += 1;
        proof {
            assert(out@ =~= line@.subrange(4, i as int));
        }
    }
    proof {
        assert(out@ =~= line@.skip(4));
    }
    out
}

/// The byte-oriented accumulator that carries unconsumed bytes across
/// reads: a raw read off a pipe may split a pkt-line, end exactly at a
/// frame boundary, or deliver several frames at once, and repeated calls to
/// `next_message` recover the same messages as a single buffer would
/// (`lemma_chunking_invariance`).
pub struct Decoder {
    buf: Vec<u8>,
}

impl View for Decoder {
    type V = Seq<u8>;

    closed spec fn view(&self) -> Seq<u8> {
        self.buf@
    }
}

impl Decoder {
    /// A decoder holding no bytes.
    pub fn new() -> (d: Decoder)
        ensures
            d@ == Seq::<u8>::empty(),
    {
        Decoder { buf: Vec::new() }
    }

    /// Appends one raw read to the unconsumed bytes.
    pub fn push_bytes(&mut self, chunk: &[u8])
        ensures
            final(self)@ == old(self)@ + chunk@,
    {
        let mut i: usize = 0;
        while i < chunk.len()
            invariant
                i <= chunk@.len(),
                self.buf@ == old(self)@ + chunk@.take(i as int),
            decreases chunk@.len() - i,
        {
            self.buf.push(chunk[i]);
            i += 1;
            proof {
                assert(self.buf@ =~= old(self)@ + chunk@.take(i as int));
            }
        }
        proof {
            assert(self.buf@ =~= old(self)@ + chunk@);
        }
    }

    /// How many unconsumed bytes the decoder holds.
    pub fn pending_len(&self) -> (n: usize)
        ensures
            n == self@.len(),
    {
        self.buf.len()
    }

    /// Decodes the next message off the accumulated bytes, consuming its
    /// frame. `Ok(None)` signals that more data is needed; the accumulator
    /// is left as it was. A framing fault leaves the accumulator unchanged
    /// as well.
    pub fn next_message(&mut self) -> (r: Result<Option<PktLineMessage>, FramingError>)
        ensures
            match decode_front(old(self)@) {
                DecodeStep::NeedMore => r == Ok::<Option<PktLineMessage>, FramingError>(None)
                    && final(self)@ == old(self)@,
                DecodeStep::Fail(e) => r == Err::<Option<PktLineMessage>, FramingError>(e)
                    && final(self)@ == old(self)@,
                DecodeStep::Frame(m, n) => (r matches Ok(Some(msg)) && msg@ == m) && final(self)@
                    == old(self)@.skip(n),
            },
    {
        match decode(self.buf.as_slice()) {
            Ok((msg, used)) => {
                let mut rest: Vec<u8> = Vec::new();
                let mut i: usize = used;
                while i < self.buf.len()
                    invariant
                        used <= i <= self.buf@.len(),
                        self.buf@ == old(self)@,
                        rest@ == self.buf@.subrange(used as int, i as int),
                    decreases self.buf@.len() - i,
                {
                    let b = self.buf[i];
                    rest.push(b);
                    i += 1;
                    proof {
                        assert(rest@ =~= self.buf@.subrange(used as int, i as int));
                    }
                }
                proof {
                    assert(rest@ =~= old(self)@.skip(used as int));
                }
                self.buf = rest;
                Ok(Some(msg))
            },
            Err(e) => {
                if matches!(e, FramingError::Incomplete) {
                    Ok(None)
                } else {
                    Err(e)
                }
            },
        }
    }

    /// Hands out every unconsumed byte, leaving the decoder empty. Once
    /// negotiation switches to raw pack streaming, bytes already read past
    /// the framed section belong to the pack and must not be dropped.
    pub fn take_remaining(&mut self) -> (r: Vec<u8>)
        ensures
            r@ == old(self)@,
            final(self)@ == Seq::<u8>::empty(),
    {
        let mut out: Vec<u8> = Vec::new();
        let mut i: usize = 0;
        while i < self.buf.len()
            invariant
                i <= self.buf@.len(),
                self.buf@ == old(self)@,
                out@ == self.buf@.take(i as int),
            decreases self.buf@.len() - i,
        {
            let b = self.buf[i];
            out.push(b);
            i += 1;
            proof {
                assert(out@ =~= self.buf@.take(i as int));
            }
        }
        self.buf = Vec::new();
        proof {
            assert(out@ =~= old(self)@);
        }
        out
    }
}

} // verus!
