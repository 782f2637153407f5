//! Length-prefixed framing: each payload travels as its length, four bytes
//! big-endian, followed by the payload itself.
use crate::types::FrameError;
use vstd::arithmetic::div_mod::{lemma_div_denominator, lemma_fundamental_div_mod, lemma_small_mod};
use vstd::prelude::*;

verus! {

/// The longest payload a frame may carry.
pub const MAX_FRAME_LEN: usize = 8 * 1024 * 1024;

/// The number written big-endian in the first four bytes of `b`.
pub open spec fn be32(b: Seq<u8>) -> nat
    recommends
        b.len() >= 4,
{
    b[0] as nat * 16777216 + b[1] as nat * 65536 + b[2] as nat * 256 + b[3] as nat
}

/// The four bytes that write `n` big-endian.
pub open spec fn be32_bytes(n: nat) -> Seq<u8> {
    seq![(n / 16777216) as u8, ((n / 65536) % 256) as u8, ((n / 256) % 256) as u8, (n % 256) as u8]
}

/// A payload as it travels: its length, then its bytes.
pub open spec fn framed(p: Seq<u8>) -> Seq<u8> {
    be32_bytes(p.len()) + p
}

/// `b` starts with a length prefix that is out of bounds.
pub open spec fn oversized(b: Seq<u8>) -> bool {
    b.len() >= 4 && be32(b) > MAX_FRAME_LEN
}

/// `b` starts with a whole frame.
pub open spec fn complete(b: Seq<u8>) -> bool {
    b.len() >= 4 && be32(b) <= MAX_FRAME_LEN && b.len() >= 4 + be32(b)
}

/// The payload of the frame `b` starts with.
pub open spec fn first_payload(b: Seq<u8>) -> Seq<u8> {
    b.subrange(4, 4 + be32(b) as int)
}

/// What follows the frame `b` starts with.
pub open spec fn after_first(b: Seq<u8>) -> Seq<u8> {
    b.subrange(4 + be32(b) as int, b.len() as int)
}

/// The payloads of the whole frames at the front of `b`, up to the first
/// frame that is incomplete or oversized.
pub open spec fn frames_in(b: Seq<u8>) -> Seq<Seq<u8>>
    decreases b.len(),
{
    if complete(b) {
        seq![first_payload(b)] + frames_in(after_first(b))
    } else {
        Seq::empty()
    }
}

/// What is left of `b` once the frames at its front are taken off.
pub open spec fn leftover(b: Seq<u8>) -> Seq<u8>
    decreases b.len(),
{
    if complete(b) {
        leftover(after_first(b))
    } else {
        b
    }
}

/// The payloads `ps` framed one after another.
pub open spec fn framed_all(ps: Seq<Seq<u8>>) -> Seq<u8>
    decreases ps.len(),
{
    if ps.len() == 0 {
        Seq::empty()
    } else {
        framed(ps[0]) + framed_all(ps.drop_first())
    }
}

/// `r` is what decoding the front of `b` gives: nothing while the first frame
/// is incomplete, an error where its length is out of bounds, else its
/// payload and what follows it.
pub open spec fn decodes(r: std::io::Result<Option<(Vec<u8>, Vec<u8>)>>, b: Seq<u8>) -> bool {
    if oversized(b) {
        r is Err
    } else if complete(b) {
        r matches Ok(Some((p, rest))) && p@ == first_payload(b) && rest@ == after_first(b)
    } else {
        r matches Ok(None)
    }
}

/// Relies on `Encoder<&[u8]>::encode` of tokio-util's `LengthDelimitedCodec`
/// with its default settings: a payload up to 8 MiB comes out behind its
/// length in four big-endian bytes; a longer one is refused.
#[verifier::external_body]
fn prefix_length(payload: &[u8]) -> (r: std::io::Result<Vec<u8>>)
    ensures
        r is Ok == (payload@.len() <= MAX_FRAME_LEN),
        r matches Ok(v) ==> v@ == framed(payload@),
{
    let mut codec = tokio_util::codec::LengthDelimitedCodec::new();
    let mut dst = bytes::BytesMut::new();
    match tokio_util::codec::Encoder::<&[u8]>::encode(&mut codec, payload, &mut dst) {
        Ok(()) => Ok(dst.to_vec()),
        Err(e) => Err(e),
    }
}

/// Relies on `Decoder::decode` of a fresh tokio-util `LengthDelimitedCodec`
/// with its default settings, on a buffer holding `buf`: see `decodes`.
#[verifier::external_body]
fn split_prefixed(buf: &[u8]) -> (r: std::io::Result<Option<(Vec<u8>, Vec<u8>)>>)
    ensures
        decodes(r, buf@),
{
    let mut codec = tokio_util::codec::LengthDelimitedCodec::new();
    let mut src = bytes::BytesMut::from(buf);
    match tokio_util::codec::Decoder::decode(&mut codec, &mut src) {
        Ok(Some(frame)) => Ok(Some((frame.to_vec(), src.to_vec()))),
        Ok(None) => Ok(None),
        Err(e) => Err(e),
    }
}

/// Frames a payload for the wire. A payload longer than `MAX_FRAME_LEN` is
/// refused with an I/O error.
pub fn encode_frame(payload: &[u8]) -> (r: Result<Vec<u8>, FrameError>)
    ensures
        r is Ok <==> payload@.len() <= MAX_FRAME_LEN,
        r matches Ok(v) ==> v@ == framed(payload@),
        r matches Err(e) ==> e is Io,
{
    match prefix_length(payload) {
        Ok(v) => Ok(v),
        Err(e) => Err(FrameError::Io(e)),
    }
}

/// Gathers the bytes read from a stream and hands out the frames in them,
/// whole and in order, however the bytes were split into reads.
pub struct FrameReader {
    buf: Vec<u8>,
}

impl View for FrameReader {
    type V = Seq<u8>;

    /// The bytes received and not yet handed out.
    closed spec fn view(&self) -> Seq<u8> {
        self.buf@
    }
}

impl FrameReader {
    /// A reader that has received nothing.
    pub fn new() -> (r: FrameReader)
        ensures
            r@ == Seq::<u8>::empty(),
    {
        FrameReader { buf: Vec::new() }
    }

    /// Takes in the bytes of one read.
    pub fn push(&mut self, chunk: &[u8])
        ensures
            final(self)@ == old(self)@ + chunk@,
    {
        let mut i: usize = 0;
        while i < chunk.len()
            invariant
                0 <= i <= chunk@.len(),
                self@ == old(self)@ + chunk@.subrange(0, i as int),
            decreases chunk@.len() - i,
        {
            self.buf.push(chunk[i]);
            proof {
                assert(chunk@.subrange(0, i + 1) =~= chunk@.subrange(0, i as int).push(chunk@[i as int]));
            }
            i = i + 1;
        }
        proof {
            assert(chunk@.subrange(0, chunk@.len() as int) =~= chunk@);
        }
    }

    /// The next whole frame's payload, if one has arrived; an I/O error if
    /// the next frame's length is out of bounds, which ends the stream.
    pub fn next_frame(&mut self) -> (r: Option<Result<Vec<u8>, FrameError>>)
        ensures
            oversized(old(self)@) ==> (r matches Some(Err(e)) && e is Io && final(self)@ == old(self)@),
            complete(old(self)@) ==> (r matches Some(Ok(p)) && p@ == first_payload(old(self)@)
                && final(self)@ == after_first(old(self)@)),
            !oversized(old(self)@) && !complete(old(self)@) ==> r is None && final(self)@ == old(self)@,
            r matches Some(Ok(p)) ==> frames_in(old(self)@) == seq![p@] + frames_in(final(self)@)
                && leftover(final(self)@) == leftover(old(self)@),
            r is None ==> frames_in(old(self)@).len() == 0,
    {
        match split_prefixed(self.buf.as_slice()) {
            Ok(Some((payload, rest))) => {
                self.buf = rest;
                Some(Ok(payload))
            },
            Ok(None) => None,
            Err(e) => Some(Err(FrameError::Io(e))),
        }
    }
}

/// Reading back the four bytes that write a length gives that length.
proof fn lemma_be32_inverse(n: nat)
    requires
        n <= MAX_FRAME_LEN,
    ensures
        be32(be32_bytes(n)) == n,
{
    let hi = n / 65536;
    let mid = (n / 256) % 256;
    let lo = n % 256;
    lemma_fundamental_div_mod(n as int, 256);
    lemma_fundamental_div_mod((n / 256) as int, 256);
    lemma_div_denominator(n as int, 256, 256);
    assert(hi < 256) by {
        assert(n / 65536 <= (MAX_FRAME_LEN as nat) / 65536) by {
            vstd::arithmetic::div_mod::lemma_div_is_ordered(n as int, 8388608, 65536);
        }
    }
    lemma_small_mod(hi, 256);
    assert(n / 16777216 == 0) by {
        vstd::arithmetic::div_mod::lemma_basic_div(n as int, 16777216);
    }
    assert(n == hi * 65536 + mid * 256 + lo) by (nonlinear_arith)
        requires
            n == 256 * (n / 256) + lo,
            n / 256 == 256 * ((n / 256) / 256) + mid,
            (n / 256) / 256 == hi,
    ;
    let b = be32_bytes(n);
    assert(b[0] == 0);
    assert(b[1] as nat == hi);
    assert(b[2] as nat == mid);
    assert(b[3] as nat == lo);
}

/// Decoding a framed payload gives back that payload, and nothing else.
pub proof fn lemma_round_trip(p: Seq<u8>)
    requires
        p.len() <= MAX_FRAME_LEN,
    ensures
        complete(framed(p)),
        first_payload(framed(p)) == p,
        after_first(framed(p)) == Seq::<u8>::empty(),
        frames_in(framed(p)) == seq![p],
{
    lemma_frames_in_order(seq![p], Seq::empty());
    assert(framed_all(seq![p]) =~= framed(p)) by {
        assert(seq![p].drop_first() =~= Seq::<Seq<u8>>::empty());
    }
    assert(framed(p) + Seq::<u8>::empty() =~= framed(p));
    assert(seq![p] + Seq::<Seq<u8>>::empty() =~= seq![p]);
}

/// Framed payloads sent one after another, whatever follows them, are
/// decoded first, whole and in order.
pub proof fn lemma_frames_in_order(ps: Seq<Seq<u8>>, tail: Seq<u8>)
    requires
        forall|i: int| 0 <= i < ps.len() ==> (#[trigger] ps[i]).len() <= MAX_FRAME_LEN,
    ensures
        frames_in(framed_all(ps) + tail) == ps + frames_in(tail),
        leftover(framed_all(ps) + tail) == leftover(tail),
        ps.len() > 0 ==> complete(framed_all(ps) + tail) && first_payload(framed_all(ps) + tail) == ps[0]
            && after_first(framed_all(ps) + tail) == framed_all(ps.drop_first()) + tail,
    decreases ps.len(),
{
    if ps.len() == 0 {
        assert(framed_all(ps) + tail =~= tail);
        assert(ps + frames_in(tail) =~= frames_in(tail));
    } else {
        let p = ps[0];
        let rest = ps.drop_first();
        assert forall|i: int| 0 <= i < rest.len() implies (#[trigger] rest[i]).len() <= MAX_FRAME_LEN by {
            assert(rest[i] == ps[i + 1]);
        }
        lemma_frames_in_order(rest, tail);
        let b = framed_all(ps) + tail;
        let after = framed_all(rest) + tail;
        assert(b =~= be32_bytes(p.len()) + p + after);
        lemma_be32_inverse(p.len());
        assert(b.subrange(0, 4) =~= be32_bytes(p.len()));
        assert(be32(b) == be32(be32_bytes(p.len())));
        assert(first_payload(b) =~= p);
        assert(after_first(b) =~= after);
        assert(ps =~= seq![p] + rest);
        assert(ps + frames_in(tail) =~= seq![p] + (rest + frames_in(tail)));
    }
}

/// Frames do not depend on how the bytes were split into reads: decoding
/// `b` and then what was left of it followed by `c` gives the frames of
/// `b + c`, and leaves the same bytes over.
pub proof fn lemma_reads_split_anywhere(b: Seq<u8>, c: Seq<u8>)
    ensures
        frames_in(b + c) == frames_in(b) + frames_in(leftover(b) + c),
        leftover(b + c) == leftover(leftover(b) + c),
    decreases b.len(),
{
    if complete(b) {
        let bc = b + c;
        assert(bc.subrange(0, 4) =~= b.subrange(0, 4));
        assert(be32(bc) == be32(b));
        assert(complete(bc));
        assert(first_payload(bc) =~= first_payload(b));
        assert(after_first(bc) =~= after_first(b) + c);
        lemma_reads_split_anywhere(after_first(b), c);
        assert(frames_in(bc) =~= seq![first_payload(b)] + (frames_in(after_first(b)) + frames_in(leftover(after_first(b)) + c)));
    } else {
        assert(Seq::<Seq<u8>>::empty() + frames_in(b + c) =~= frames_in(b + c));
    }
}

} // verus!
