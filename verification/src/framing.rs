//! Framing of the packets exchanged with the coprocessor over the serial line.
//!
//! A packet travels as its COBS encoding followed by a single zero byte.
//! Incoming bytes are collected in a buffer. Once the buffer holds a zero
//! byte and the decoder accepts it, the decoded payload is handed on and the
//! buffer is cut after its first zero byte. A buffer that starts with a stray
//! zero therefore loses only that zero: the decoder skips it, the payload
//! after it is handed on, and the same payload is handed on again once its
//! own terminating zero has arrived. Where the decoder accepts a buffer that
//! holds no zero yet, the receiver waits for one.

use vstd::prelude::*;

verus! {

/// The COBS encoding, without its terminating zero, that the `cobs` crate
/// produces for `data`.
pub uninterp spec fn cobs_encoded(data: Seq<u8>) -> Seq<u8>;

/// What the `cobs` crate decodes from `frame`, `None` where it reports an error.
pub uninterp spec fn cobs_decoded(frame: Seq<u8>) -> Option<Seq<u8>>;

/// Encodes `data` with `cobs::encode_vec`.
///
/// Trusted, as the `cobs` source shows it: the result is the encoding named
/// `cobs_encoded`; it holds no zero byte; it is empty exactly when `data` is
/// empty, and then the decoder rejects the lone zero that frames it; and for
/// non-empty `data`,
/// `cobs::decode_vec` gives `data` back from the encoding followed by a zero,
/// whatever bytes follow that zero (the decoder stops at the first zero that
/// ends a well-formed frame).
#[verifier::external_body]
fn cobs_encode(data: &[u8]) -> (encoded: Vec<u8>)
    ensures
        encoded@ == cobs_encoded(data@),
        !encoded@.contains(0u8),
        encoded@.len() == 0 <==> data@.len() == 0,
        data@.len() == 0 ==> cobs_decoded(encoded@.push(0u8)) == None::<Seq<u8>>,
        data@.len() > 0 ==> forall|rest: Seq<u8>|
            #[trigger] cobs_decoded(encoded@.push(0u8) + rest) == Some(data@),
{
    cobs::encode_vec(data)
}

/// Decodes `frame` with `cobs::decode_vec`; its error becomes `None`.
///
/// Trusted: the result is the one named `cobs_decoded`.
#[verifier::external_body]
fn cobs_decode(frame: &[u8]) -> (decoded: Option<Vec<u8>>)
    ensures
        decoded.deep_view() == cobs_decoded(frame@),
{
    cobs::decode_vec(frame).ok()
}

/// `i` is the position of the first zero byte of `s`.
pub open spec fn is_first_zero(s: Seq<u8>, i: int) -> bool {
    &&& 0 <= i < s.len()
    &&& s[i] == 0
    &&& forall|j: int| 0 <= j < i ==> s[j] != 0
}

/// The position of the first zero byte of `s`, where `s` holds one.
pub open spec fn first_zero(s: Seq<u8>) -> int {
    choose|i: int| is_first_zero(s, i)
}

/// What a buffer of received bytes yields: once it holds a zero byte and the
/// decoder accepts it, the decoded payload, and the bytes that follow the
/// first zero.
pub open spec fn next_frame(buffer: Seq<u8>) -> Option<(Seq<u8>, Seq<u8>)> {
    if buffer.contains(0u8) {
        match cobs_decoded(buffer) {
            Some(payload) => Some((payload, buffer.skip(first_zero(buffer) + 1))),
            None => None,
        }
    } else {
        None
    }
}

/// The payload handed on, and the buffer kept, when `bytes` arrive at a
/// receiver whose buffer holds `buffer`.
pub open spec fn received(buffer: Seq<u8>, bytes: Seq<u8>) -> (Option<Seq<u8>>, Seq<u8>) {
    let joined = buffer + bytes;
    match next_frame(joined) {
        Some((payload, rest)) => (Some(payload), rest),
        None => (None, joined),
    }
}

/// The payloads handed on, in order, and the buffer kept, when the reads
/// `chunks` arrive one after another at a receiver whose buffer holds
/// `buffer`.
pub open spec fn received_all(buffer: Seq<u8>, chunks: Seq<Seq<u8>>) -> (Seq<Seq<u8>>, Seq<u8>)
    decreases chunks.len(),
{
    if chunks.len() == 0 {
        (Seq::empty(), buffer)
    } else {
        let (delivered, kept) = received_all(buffer, chunks.drop_last());
        let (out, next) = received(kept, chunks.last());
        (
            match out {
                Some(payload) => delivered.push(payload),
                None => delivered,
            },
            next,
        )
    }
}

/// The bytes of `parts`, one part after another.
pub open spec fn concat(parts: Seq<Seq<u8>>) -> Seq<u8>
    decreases parts.len(),
{
    if parts.len() == 0 {
        Seq::empty()
    } else {
        concat(parts.drop_last()) + parts.last()
    }
}

/// `frame` carries `payload`: it ends at its only zero byte, and arriving at
/// an empty receiver, with any bytes behind it, it yields `payload` and
/// leaves exactly those bytes.
pub open spec fn is_frame_of(frame: Seq<u8>, payload: Seq<u8>) -> bool {
    &&& frame.len() > 0
    &&& frame.last() == 0
    &&& !frame.drop_last().contains(0u8)
    &&& forall|rest: Seq<u8>|
        #[trigger] received(Seq::empty(), frame + rest) == (Some(payload), rest)
}

proof fn lemma_first_zero_unique(s: Seq<u8>, i: int)
    requires
        is_first_zero(s, i),
    ensures
        first_zero(s) == i,
{
    let k = first_zero(s);
    assert(is_first_zero(s, k));
    if k < i {
        assert(s[k] != 0);
    } else if i < k {
        assert(s[i] != 0);
    }
}

/// A sequence that holds a zero byte has a first one.
proof fn lemma_first_zero_exists(s: Seq<u8>)
    requires
        s.contains(0u8),
    ensures
        is_first_zero(s, first_zero(s)),
    decreases s.len(),
{
    if s[0] == 0 {
        assert(is_first_zero(s, 0));
    } else {
        let t = s.drop_first();
        let w = choose|i: int| 0 <= i < s.len() && s[i] == 0u8;
        assert(t[w - 1] == 0u8);
        lemma_first_zero_exists(t);
        let i = first_zero(t);
        assert forall|j: int| 0 <= j < i + 1 implies s[j] != 0 by {
            if j > 0 {
                assert(s[j] == t[j - 1]);
            }
        }
        assert(is_first_zero(s, i + 1));
    }
}

/// Until a zero byte has arrived the receiver hands on nothing and keeps
/// every byte.
pub proof fn lemma_no_payload_before_terminator(buffer: Seq<u8>, bytes: Seq<u8>)
    requires
        forall|j: int| 0 <= j < (buffer + bytes).len() ==> (buffer + bytes)[j] != 0,
    ensures
        next_frame(buffer + bytes) is None,
        received(buffer, bytes) == (None::<Seq<u8>>, buffer + bytes),
{
}

/// What the receiver keeps is a tail of the bytes it held and received: it
/// drops bytes from the front only, and never reorders or invents any.
pub proof fn lemma_kept_bytes_are_a_tail(buffer: Seq<u8>, bytes: Seq<u8>)
    ensures
        exists|k: int|
            0 <= k <= (buffer + bytes).len() && #[trigger] (buffer + bytes).skip(k)
                == received(buffer, bytes).1,
{
    let joined = buffer + bytes;
    match next_frame(joined) {
        Some((payload, rest)) => {
            lemma_first_zero_exists(joined);
            let k = first_zero(joined) + 1;
            assert(joined.skip(k) == received(buffer, bytes).1);
        },
        None => {
            assert(joined.skip(0) =~= joined);
        },
    }
}

/// `first_zero` is the position of the first zero byte: the zero at `i`
/// with no zero before it.
pub proof fn lemma_first_zero_is_first(s: Seq<u8>, i: int)
    requires
        0 <= i < s.len(),
        s[i] == 0,
        forall|j: int| 0 <= j < i ==> s[j] != 0,
    ensures
        first_zero(s) == i,
{
    lemma_first_zero_unique(s, i);
}

/// Where the received bytes hold a zero and the decoder accepts them, the
/// receiver hands on what the decoder gives and keeps exactly the bytes after
/// the first zero, at `i`: whatever follows that zero, a further frame
/// included, stays whole in the buffer.
pub proof fn lemma_received_cuts_after_first_zero(buffer: Seq<u8>, bytes: Seq<u8>, i: int)
    requires
        0 <= i < (buffer + bytes).len(),
        (buffer + bytes)[i] == 0,
        forall|j: int| 0 <= j < i ==> (buffer + bytes)[j] != 0,
        cobs_decoded(buffer + bytes) is Some,
    ensures
        next_frame(buffer + bytes) == Some(
            (cobs_decoded(buffer + bytes).unwrap(), (buffer + bytes).skip(i + 1)),
        ),
        received(buffer, bytes) == (cobs_decoded(buffer + bytes), (buffer + bytes).skip(i + 1)),
        received(buffer, bytes).1.len() == (buffer + bytes).len() - i - 1,
        forall|k: int|
            0 <= k < received(buffer, bytes).1.len() ==> #[trigger] received(buffer, bytes).1[k]
                == (buffer + bytes)[i + 1 + k],
{
    let joined = buffer + bytes;
    assert(joined.contains(0u8)) by {
        assert(joined[i] == 0u8);
    }
    lemma_first_zero_unique(joined, i);
}

/// Where the decoder rejects the received bytes, nothing is handed on and
/// every byte is kept.
pub proof fn lemma_rejected_bytes_kept(buffer: Seq<u8>, bytes: Seq<u8>)
    requires
        cobs_decoded(buffer + bytes) is None,
    ensures
        next_frame(buffer + bytes) is None,
        received(buffer, bytes) == (None::<Seq<u8>>, buffer + bytes),
{
}

/// Two complete frames in the buffer: the first one's payload is handed on
/// and the second frame is kept whole.
pub proof fn lemma_second_frame_kept(first: Seq<u8>, second: Seq<u8>)
    requires
        first.len() > 0,
        first.last() == 0,
        forall|j: int| 0 <= j < first.len() - 1 ==> first[j] != 0,
        cobs_decoded(first + second) is Some,
    ensures
        received(Seq::empty(), first + second) == (cobs_decoded(first + second), second),
{
    let joined = Seq::<u8>::empty() + (first + second);
    assert(joined =~= first + second);
    let i = first.len() - 1;
    assert(joined[i] == 0);
    lemma_received_cuts_after_first_zero(Seq::empty(), first + second, i);
    assert(joined.skip(i + 1) =~= second);
}

/// A frame made of a zero-free encoding and its terminating zero, arriving at
/// an empty buffer with `rest` behind it, yields what the decoder makes of it
/// and leaves `rest`.
proof fn lemma_frame_arrives(encoded: Seq<u8>, payload: Seq<u8>, rest: Seq<u8>)
    requires
        !encoded.contains(0u8),
        cobs_decoded(encoded.push(0u8) + rest) == Some(payload),
    ensures
        received(Seq::empty(), encoded.push(0u8) + rest) == (Some(payload), rest),
{
    let buffer = encoded.push(0u8) + rest;
    assert(Seq::<u8>::empty() + buffer =~= buffer);
    let n = encoded.len() as int;
    assert(buffer[n] == 0);
    assert forall|j: int| 0 <= j < n implies buffer[j] != 0 by {
        assert(buffer[j] == encoded[j]);
    }
    assert(is_first_zero(buffer, n));
    lemma_first_zero_unique(buffer, n);
    assert(buffer.skip(n + 1) =~= rest);
}

/// `concat(parts.take(k + 1))` adds the part `k` to `concat(parts.take(k))`.
proof fn lemma_concat_take_step(parts: Seq<Seq<u8>>, k: int)
    requires
        0 <= k < parts.len(),
    ensures
        concat(parts.take(k + 1)) == concat(parts.take(k)) + parts[k],
{
    assert(parts.take(k + 1).drop_last() =~= parts.take(k));
}

/// The bytes of the first `k` parts are a prefix of the bytes of all of them.
proof fn lemma_concat_take_prefix(parts: Seq<Seq<u8>>, k: int)
    requires
        0 <= k <= parts.len(),
    ensures
        concat(parts.take(k)).is_prefix_of(concat(parts)),
    decreases parts.len(),
{
    if k == parts.len() {
        assert(parts.take(k) =~= parts);
        assert(concat(parts).subrange(0, concat(parts).len() as int) =~= concat(parts));
    } else {
        let q = parts.drop_last();
        assert(parts.take(k) =~= q.take(k));
        lemma_concat_take_prefix(q, k);
        let a = concat(q.take(k));
        assert(concat(parts) == concat(q) + parts.last());
        assert(a =~= concat(parts).subrange(0, a.len() as int));
    }
}

/// Where the bytes read so far, `read`, are a prefix of the bytes of
/// `parts`, the bytes read from where part `k` starts agree with part `k`.
proof fn lemma_read_matches_part(parts: Seq<Seq<u8>>, read: Seq<u8>, k: int, j: int)
    requires
        0 <= k < parts.len(),
        read.is_prefix_of(concat(parts)),
        0 <= j < parts[k].len(),
        concat(parts.take(k)).len() + j < read.len(),
    ensures
        read[concat(parts.take(k)).len() + j] == parts[k][j],
{
    lemma_concat_take_step(parts, k);
    lemma_concat_take_prefix(parts, k + 1);
    let start = concat(parts.take(k)).len() as int;
    let next = concat(parts.take(k + 1));
    assert(next[start + j] == parts[k][j]);
    assert(concat(parts)[start + j] == next[start + j]);
}

/// Frames of non-empty payloads that arrive over any number of reads, split
/// at any points, are handed on once each, in order: after every read the
/// payloads handed on are the first ones, the receiver keeps exactly the
/// bytes read after their frames, and a read hands on one more payload
/// exactly when a whole frame that has not yet been handed on has arrived.
pub proof fn lemma_stream_delivery(
    frames: Seq<Seq<u8>>,
    payloads: Seq<Seq<u8>>,
    chunks: Seq<Seq<u8>>,
)
    requires
        frames.len() == payloads.len(),
        forall|i: int| 0 <= i < frames.len() ==> is_frame_of(#[trigger] frames[i], payloads[i]),
        concat(chunks).is_prefix_of(concat(frames)),
    ensures
        received_all(Seq::empty(), chunks).0.len() <= frames.len(),
        received_all(Seq::empty(), chunks).0 == payloads.take(
            received_all(Seq::empty(), chunks).0.len() as int,
        ),
        concat(frames.take(received_all(Seq::empty(), chunks).0.len() as int)) + received_all(
            Seq::empty(),
            chunks,
        ).1 == concat(chunks),
        chunks.len() > 0 ==> {
            let before = received_all(Seq::empty(), chunks.drop_last()).0.len() as int;
            let whole_frame_waiting = before < frames.len() && concat(frames.take(before + 1)).len()
                <= concat(chunks).len();
            received_all(Seq::empty(), chunks).0.len() == before + if whole_frame_waiting {
                1int
            } else {
                0int
            }
        },
    decreases chunks.len(),
{
    let fs = concat(frames);
    if chunks.len() == 0 {
        assert(frames.take(0) =~= Seq::<Seq<u8>>::empty());
        assert(payloads.take(0) =~= Seq::<Seq<u8>>::empty());
        assert(Seq::<u8>::empty() + Seq::<u8>::empty() =~= Seq::<u8>::empty());
    } else {
        let prev = chunks.drop_last();
        let c = chunks.last();
        let bs = concat(chunks);
        assert(bs == concat(prev) + c);
        assert(concat(prev).is_prefix_of(fs)) by {
            assert(concat(prev) =~= fs.subrange(0, concat(prev).len() as int));
        }
        lemma_stream_delivery(frames, payloads, prev);
        let (dl, kept) = received_all(Seq::empty(), prev);
        let dp = dl.len() as int;
        let done = concat(frames.take(dp));
        let start = done.len() as int;
        assert(done + kept == concat(prev));
        let joined = kept + c;
        assert(done + joined =~= bs);
        lemma_concat_take_prefix(frames, dp);
        if dp < frames.len() && concat(frames.take(dp + 1)).len() <= bs.len() {
            lemma_concat_take_step(frames, dp);
            let f = frames[dp];
            let next = concat(frames.take(dp + 1));
            let rest = bs.skip(start + f.len());
            assert forall|j: int| 0 <= j < f.len() implies joined[j] == f[j] by {
                lemma_read_matches_part(frames, bs, dp, j);
            }
            assert(joined =~= f + rest);
            assert(is_frame_of(f, payloads[dp]));
            assert(received(Seq::empty(), f + rest) == (Some(payloads[dp]), rest));
            assert(Seq::<u8>::empty() + (f + rest) =~= f + rest);
            assert(received(kept, c) == (Some(payloads[dp]), rest));
            assert(payloads.take(dp).push(payloads[dp]) =~= payloads.take(dp + 1));
            assert(next + rest =~= bs);
        } else {
            assert(!joined.contains(0u8)) by {
                if dp < frames.len() {
                    lemma_concat_take_step(frames, dp);
                    let f = frames[dp];
                    assert(is_frame_of(f, payloads[dp]));
                    assert forall|j: int| 0 <= j < joined.len() implies joined[j] != 0 by {
                        lemma_read_matches_part(frames, bs, dp, j);
                        assert(f.drop_last()[j] == f[j]);
                    }
                } else {
                    assert(frames.take(dp) =~= frames);
                    assert(joined.len() == 0);
                }
            }
            assert(received(kept, c) == (None::<Seq<u8>>, joined));
        }
    }
}

/// The position of the first zero byte of `bytes`, if it holds one.
pub fn find_zero(bytes: &[u8]) -> (pos: Option<usize>)
    ensures
        pos is None <==> !bytes@.contains(0u8),
        pos matches Some(i) ==> is_first_zero(bytes@, i as int) && i as int == first_zero(bytes@),
        pos matches Some(i) ==> i < bytes@.len() && bytes@[i as int] == 0 && forall|j: int|
            0 <= j < i ==> bytes@[j] != 0,
{
    let mut i: usize = 0;
    while i < bytes.len()
        invariant
            i <= bytes@.len(),
            forall|j: int| 0 <= j < i ==> bytes@[j] != 0,
        decreases bytes@.len() - i,
    {
        if bytes[i] == 0 {
            proof {
                lemma_first_zero_unique(bytes@, i as int);
            }
            return Some(i);
        }
        i = i + 1;
    }
    None
}

/// The bytes of `s` from position `start` on.
fn copy_from(s: &[u8], start: usize) -> (out: Vec<u8>)
    requires
        start <= s@.len(),
    ensures
        out@ == s@.skip(start as int),
{
    let mut out: Vec<u8> = Vec::new();
    let mut i: usize = start;
    while i < s.len()
        invariant
            start <= i <= s@.len(),
            out@ == s@.subrange(start as int, i as int),
        decreases s@.len() - i,
    {
        out.push(s[i]);
        i = i + 1;
        assert(out@ =~= s@.subrange(start as int, i as int));
    }
    assert(out@ =~= s@.skip(start as int));
    out
}

/// Takes the frame at the head of `buffer`, given what `cobs::decode_vec`
/// made of the buffer: where the decoder succeeded and the buffer holds a
/// zero, the payload and the bytes after the first zero. Where the decoder
/// succeeded on a buffer that holds no zero yet, the terminating zero is
/// waited for.
pub fn take_frame(buffer: &[u8], decoded: Option<Vec<u8>>) -> (r: Option<(Vec<u8>, Vec<u8>)>)
    ensures
        r.deep_view() == (if buffer@.contains(0u8) {
            match decoded.deep_view() {
                Some(payload) => Some((payload, buffer@.skip(first_zero(buffer@) + 1))),
                None => None,
            }
        } else {
            None
        }),
        forall|i: int|
            #![trigger buffer@.skip(i + 1)]
            0 <= i < buffer@.len() && buffer@[i] == 0 && (forall|j: int|
                0 <= j < i ==> buffer@[j] != 0) ==> r.deep_view() == match decoded.deep_view() {
                Some(payload) => Some((payload, buffer@.skip(i + 1))),
                None => None,
            },
        (forall|j: int| 0 <= j < buffer@.len() ==> buffer@[j] != 0) ==> r is None,
{
    proof {
        assert forall|i: int|
            #![trigger buffer@.skip(i + 1)]
            0 <= i < buffer@.len() && buffer@[i] == 0 && (forall|j: int|
                0 <= j < i ==> buffer@[j] != 0) implies first_zero(buffer@) == i by {
            lemma_first_zero_unique(buffer@, i);
        }
    }
    match decoded {
        None => None,
        Some(payload) => {
            match find_zero(buffer) {
                Some(end) => {
                    let len = buffer.len();
                    assert(end < len);
                    let rest = copy_from(buffer, end + 1);
                    Some((payload, rest))
                },
                None => None,
            }
        },
    }
}

/// The frame at the head of `buffer`, if the buffer holds a zero and the
/// decoder accepts it: its payload, and the bytes after the first zero.
pub fn poll_frame(buffer: &[u8]) -> (r: Option<(Vec<u8>, Vec<u8>)>)
    ensures
        r.deep_view() == next_frame(buffer@),
        forall|i: int|
            #![trigger buffer@.skip(i + 1)]
            0 <= i < buffer@.len() && buffer@[i] == 0 && (forall|j: int|
                0 <= j < i ==> buffer@[j] != 0) ==> r.deep_view() == match cobs_decoded(buffer@) {
                Some(payload) => Some((payload, buffer@.skip(i + 1))),
                None => None,
            },
        (forall|j: int| 0 <= j < buffer@.len() ==> buffer@[j] != 0) ==> r is None,
{
    let decoded = cobs_decode(buffer);
    take_frame(buffer, decoded)
}

/// The frame that carries `payload` over the serial line: its COBS encoding
/// followed by a zero byte. The frame of a non-empty payload carries it (see
/// `is_frame_of`), also when it arrives split over two reads; the frame of
/// the empty payload is a lone zero, which yields nothing.
pub fn encode_packet(payload: &[u8]) -> (frame: Vec<u8>)
    ensures
        frame@ == cobs_encoded(payload@).push(0u8),
        frame@.len() > 0,
        frame@.last() == 0,
        !frame@.drop_last().contains(0u8),
        payload@.len() > 0 ==> is_frame_of(frame@, payload@),
        payload@.len() > 0 ==> forall|k: int, rest: Seq<u8>|
            #![trigger received(frame@.take(k), frame@.skip(k) + rest)]
            0 < k < frame@.len() ==> received(Seq::empty(), frame@.take(k)) == (
                None::<Seq<u8>>,
                frame@.take(k),
            ) && received(frame@.take(k), frame@.skip(k) + rest) == (Some(payload@), rest),
        payload@.len() == 0 ==> frame@ == seq![0u8] && received(Seq::empty(), frame@) == (
            None::<Seq<u8>>,
            frame@,
        ),
{
    let encoded = cobs_encode(payload);
    let mut frame = encoded;
    frame.push(0u8);
    proof {
        let enc = encoded@;
        assert(frame@ == enc.push(0u8));
        assert(frame@.drop_last() =~= enc);
        if payload@.len() > 0 {
            assert forall|rest: Seq<u8>|
                #[trigger] received(Seq::empty(), frame@ + rest) == (Some(payload@), rest) by {
                assert(cobs_decoded(enc.push(0u8) + rest) == Some(payload@));
                lemma_frame_arrives(enc, payload@, rest);
            }
            assert forall|k: int, rest: Seq<u8>|
                #![trigger received(frame@.take(k), frame@.skip(k) + rest)]
                0 < k < frame@.len() implies received(Seq::empty(), frame@.take(k)) == (
                    None::<Seq<u8>>,
                    frame@.take(k),
                ) && received(frame@.take(k), frame@.skip(k) + rest) == (Some(payload@), rest) by {
                let head = frame@.take(k);
                assert(Seq::<u8>::empty() + head =~= head);
                assert(!head.contains(0u8)) by {
                    assert forall|j: int| 0 <= j < head.len() implies head[j] != 0 by {
                        assert(head[j] == enc[j]);
                    }
                }
                assert(head + (frame@.skip(k) + rest) =~= frame@ + rest);
                assert(received(Seq::empty(), frame@ + rest) == (Some(payload@), rest));
                assert(Seq::<u8>::empty() + (frame@ + rest) =~= frame@ + rest);
            }
        } else {
            assert(frame@ =~= seq![0u8]);
            assert(Seq::<u8>::empty() + frame@ =~= frame@);
            assert(cobs_decoded(enc.push(0u8)) == None::<Seq<u8>>);
        }
    }
    frame
}

/// The receiving side of the serial line: the bytes received and not yet cut
/// off with a frame.
pub struct SerialReceiver {
    buffer: Vec<u8>,
}

impl View for SerialReceiver {
    type V = Seq<u8>;

    closed spec fn view(&self) -> Seq<u8> {
        self.buffer@
    }
}

impl SerialReceiver {
    /// A receiver that has received nothing yet.
    pub fn new() -> (r: Self)
        ensures
            r@ == Seq::<u8>::empty(),
    {
        SerialReceiver { buffer: Vec::new() }
    }

    /// The bytes received and not yet cut off with a frame.
    pub fn pending(&self) -> (bytes: &[u8])
        ensures
            bytes@ == self@,
    {
        self.buffer.as_slice()
    }

    /// Adds the bytes of one read to the buffer; where the buffer then holds a
    /// zero byte and the decoder accepts it, returns the decoded payload and
    /// keeps only the bytes after the first zero.
    pub fn receive(&mut self, bytes: &[u8]) -> (payload: Option<Vec<u8>>)
        ensures
            (payload.deep_view(), final(self)@) == received(old(self)@, bytes@),
            forall|i: int|
                #![trigger (old(self)@ + bytes@).skip(i + 1)]
                0 <= i < (old(self)@ + bytes@).len() && (old(self)@ + bytes@)[i] == 0 && (forall|
                    j: int,
                | 0 <= j < i ==> (old(self)@ + bytes@)[j] != 0) ==> match cobs_decoded(
                    old(self)@ + bytes@,
                ) {
                    Some(p) => payload.deep_view() == Some(p) && final(self)@ == (old(self)@
                        + bytes@).skip(i + 1),
                    None => payload is None && final(self)@ == old(self)@ + bytes@,
                },
            (forall|j: int| 0 <= j < (old(self)@ + bytes@).len() ==> (old(self)@ + bytes@)[j] != 0)
                ==> payload is None && final(self)@ == old(self)@ + bytes@,
    {
        let mut i: usize = 0;
        while i < bytes.len()
            invariant
                i <= bytes@.len(),
                self.buffer@ == old(self)@ + bytes@.take(i as int),
            decreases bytes@.len() - i,
        {
            self.buffer.push(bytes[i]);
            i = i + 1;
            assert(self.buffer@ =~= old(self)@ + bytes@.take(i as int));
        }
        assert(bytes@.take(bytes@.len() as int) =~= bytes@);
        match poll_frame(self.buffer.as_slice()) {
            Some((payload, rest)) => {
                self.buffer = rest;
                Some(payload)
            },
            None => None,
        }
    }
}

} // verus!
