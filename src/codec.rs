//! Self-delimiting frames for slider events.
//!
//! A record is three bytes: the id, then the value in little-endian order.
//! Stuffing rewrites it without zero bytes: each block of non-zero bytes is
//! preceded by one code byte, its length plus one, and the zero that followed the
//! block in the record is implied. A literal zero byte then ends the frame.
use vstd::prelude::*;
use crate::event::Slider;

verus! {

/// Bytes in one encoded record.
pub const RECORD_LEN: usize = 3;

/// Buffer size that encoding requires: twice the record plus two.
pub const MAX_FRAME_LEN: usize = 8;

/// The byte that ends every frame.
pub const FRAME_DELIMITER: u8 = 0;

/// Why a frame could not be encoded or decoded.
#[derive(Debug, Clone, Copy, PartialEq, Eq, Structural)]
pub enum FrameError {
    /// The caller's buffer is smaller than `MAX_FRAME_LEN`.
    BufferTooSmall,
    /// The bytes are not the stuffing of one record.
    MalformedFrame,
}

pub open spec fn record_bytes(e: Slider) -> Seq<u8> {
    seq![e.id, (e.value % 256) as u8, (e.value / 256) as u8]
}

pub open spec fn record_of(p: Seq<u8>) -> Slider {
    Slider { id: p[0], value: (p[1] as int + 256 * p[2] as int) as u16 }
}

/// Stuffing of `s`, with `block` the non-zero bytes already read in the open block.
pub open spec fn stuff_from(block: Seq<u8>, s: Seq<u8>) -> Seq<u8>
    decreases s.len(),
{
    if s.len() == 0 {
        seq![(block.len() + 1) as u8] + block
    } else if s[0] == 0 {
        seq![(block.len() + 1) as u8] + block + stuff_from(seq![], s.drop_first())
    } else {
        stuff_from(block.push(s[0]), s.drop_first())
    }
}

/// Zero-free stuffing of a payload (meaningful for payloads below 254 bytes).
pub open spec fn stuff(s: Seq<u8>) -> Seq<u8> {
    stuff_from(seq![], s)
}

/// Reverses the stuffing; `None` where the bytes break the scheme.
pub open spec fn unstuff(e: Seq<u8>) -> Option<Seq<u8>>
    decreases e.len(),
{
    if e.len() == 0 {
        None
    } else {
        let code = e[0] as int;
        if code == 0 || code > e.len() {
            None
        } else if e.subrange(1, code).contains(0) {
            None
        } else if code == e.len() {
            Some(e.subrange(1, code))
        } else {
            match unstuff(e.subrange(code, e.len() as int)) {
                Some(rest) => Some(e.subrange(1, code) + seq![0u8] + rest),
                None => None,
            }
        }
    }
}

/// The whole frame of an event: stuffed record and delimiter.
pub open spec fn frame(e: Slider) -> Seq<u8> {
    stuff(record_bytes(e)).push(FRAME_DELIMITER)
}

/// What `decode` returns for the bytes of a frame without its delimiter.
pub open spec fn decode_spec(e: Seq<u8>) -> Result<Slider, FrameError> {
    match unstuff(e) {
        Some(p) => if p.len() == RECORD_LEN as int {
            Ok(record_of(p))
        } else {
            Err(FrameError::MalformedFrame)
        },
        None => Err(FrameError::MalformedFrame),
    }
}

proof fn lemma_stuff_from_len(block: Seq<u8>, s: Seq<u8>)
    ensures
        stuff_from(block, s).len() == block.len() + s.len() + 1,
    decreases s.len(),
{
    if s.len() > 0 {
        if s[0] == 0 {
            lemma_stuff_from_len(seq![], s.drop_first());
        } else {
            lemma_stuff_from_len(block.push(s[0]), s.drop_first());
        }
    }
}

proof fn lemma_unstuff_stuff_from(block: Seq<u8>, s: Seq<u8>)
    requires
        !block.contains(0),
        block.len() + s.len() < 254,
    ensures
        unstuff(stuff_from(block, s)) == Some(block + s),
    decreases s.len(),
{
    let code = (block.len() + 1) as u8;
    assert(code as int == block.len() + 1);
    if s.len() == 0 {
        let e = seq![code] + block;
        assert(e.subrange(1, code as int) =~= block);
        assert(block + s =~= block);
    } else if s[0] == 0 {
        let rest = stuff_from(seq![], s.drop_first());
        lemma_stuff_from_len(seq![], s.drop_first());
        lemma_unstuff_stuff_from(seq![], s.drop_first());
        let e = seq![code] + block + rest;
        assert(e.subrange(1, code as int) =~= block);
        assert(e.subrange(code as int, e.len() as int) =~= rest);
        assert(block + seq![0u8] + (seq![] + s.drop_first()) =~= block + s);
    } else {
        assert(!block.push(s[0]).contains(0)) by {
            if block.push(s[0]).contains(0) {
                let i = choose|i: int| 0 <= i < block.push(s[0]).len() && block.push(s[0])[i] == 0;
                if i < block.len() {
                    assert(block.contains(0));
                }
            }
        }
        lemma_unstuff_stuff_from(block.push(s[0]), s.drop_first());
        assert(block.push(s[0]) + s.drop_first() =~= block + s);
    }
}

/// Length of a payload recovered from `e`: one byte less than `e`.
pub proof fn lemma_unstuff_len(e: Seq<u8>)
    ensures
        unstuff(e) is Some ==> unstuff(e)->0.len() + 1 == e.len(),
    decreases e.len(),
{
    if e.len() > 0 {
        let code = e[0] as int;
        if code != 0 && code < e.len() {
            lemma_unstuff_len(e.subrange(code, e.len() as int));
        }
    }
}

/// A sequence that holds a zero byte is never a valid stuffing.
pub proof fn lemma_unstuff_rejects_zero(e: Seq<u8>)
    requires
        e.contains(0),
    ensures
        unstuff(e) is None,
    decreases e.len(),
{
    let code = e[0] as int;
    if code != 0 && code < e.len() && !e.subrange(1, code).contains(0) {
        let i = choose|i: int| 0 <= i < e.len() && e[i] == 0;
        if i >= code {
            let r = e.subrange(code, e.len() as int);
            assert(r[i - code] == 0);
            lemma_unstuff_rejects_zero(r);
        } else {
            assert(e.subrange(1, code)[i - 1] == 0);
        }
    } else if code != 0 && code == e.len() {
        let i = choose|i: int| 0 <= i < e.len() && e[i] == 0;
        assert(e.subrange(1, code)[i - 1] == 0);
    }
}

/// Decoding the stuffed record of any event gives the event back.
pub proof fn lemma_round_trip(e: Slider)
    ensures
        decode_spec(stuff(record_bytes(e))) == Ok::<Slider, FrameError>(e),
        frame(e) == stuff(record_bytes(e)).push(FRAME_DELIMITER),
        stuff(record_bytes(e)).len() == RECORD_LEN + 1,
        !stuff(record_bytes(e)).contains(FRAME_DELIMITER),
{
    let r = record_bytes(e);
    assert(!Seq::<u8>::empty().contains(0));
    lemma_unstuff_stuff_from(seq![], r);
    assert(seq![] + r =~= r);
    lemma_stuff_from_len(seq![], r);
    assert(record_of(r) == e);
    if stuff(r).contains(0) {
        lemma_unstuff_rejects_zero(stuff(r));
    }
}

/// A frame cut short, or holding a zero byte, decodes to `MalformedFrame`.
pub proof fn lemma_truncated_or_corrupt_rejected(e: Slider, k: int, bytes: Seq<u8>)
    requires
        0 <= k < RECORD_LEN + 1,
    ensures
        decode_spec(stuff(record_bytes(e)).subrange(0, k)) == Err::<Slider, FrameError>(
            FrameError::MalformedFrame,
        ),
        bytes.contains(0) ==> decode_spec(bytes) == Err::<Slider, FrameError>(
            FrameError::MalformedFrame,
        ),
        bytes.len() != RECORD_LEN + 1 ==> decode_spec(bytes) == Err::<Slider, FrameError>(
            FrameError::MalformedFrame,
        ),
{
    lemma_round_trip(e);
    lemma_unstuff_len(stuff(record_bytes(e)).subrange(0, k));
    lemma_unstuff_len(bytes);
    if bytes.contains(0) {
        lemma_unstuff_rejects_zero(bytes);
    }
}


pub open spec fn prepend(o: Seq<u8>, x: Option<Seq<u8>>) -> Option<Seq<u8>> {
    match x {
        Some(r) => Some(o + r),
        None => None,
    }
}

/// Stuffs a payload of fewer than 254 bytes.
pub fn stuff_bytes(payload: &Vec<u8>) -> (r: Vec<u8>)
    requires
        payload@.len() < 254,
    ensures
        r@ == stuff(payload@),
{
    let n = payload.len();
    let mut out: Vec<u8> = Vec::new();
    let mut block: Vec<u8> = Vec::new();
    let mut i: usize = 0;
    assert(payload@.subrange(0, n as int) =~= payload@);
    while i < n
        invariant
            n == payload@.len(),
            n < 254,
            i <= n,
            block@.len() <= i,
            !block@.contains(0),
            stuff(payload@) == out@ + stuff_from(block@, payload@.subrange(i as int, n as int)),
        decreases n - i,
    {
        let b = payload[i];
        let ghost rest = payload@.subrange(i as int, n as int);
        assert(rest.drop_first() =~= payload@.subrange(i + 1, n as int));
        if b == 0 {
            let code = (block.len() + 1) as u8;
            let ghost old_out = out@;
            out.push(code);
            let mut j: usize = 0;
            while j < block.len()
                invariant
                    j <= block@.len(),
                    out@ == old_out.push(code) + block@.subrange(0, j as int),
                decreases block@.len() - j,
            {
                out.push(block[j]);
                proof {
                    assert(block@.subrange(0, j + 1) =~= block@.subrange(0, j as int).push(block@[j as int]));
                }
                j = j + 1;
            }
            assert(block@.subrange(0, block@.len() as int) =~= block@);
            assert(out@ =~= old_out + (seq![code] + block@));
            assert(stuff(payload@) =~= out@ + stuff_from(seq![], payload@.subrange(i + 1, n as int)));
            block = Vec::new();
        } else {
            proof {
                assert(!block@.push(b).contains(0)) by {
                    if block@.push(b).contains(0) {
                        let k = choose|k: int| 0 <= k < block@.push(b).len() && block@.push(b)[k] == 0;
                        if k < block@.len() {
                            assert(block@.contains(0));
                        }
                    }
                }
            }
            block.push(b);
        }
        i = i + 1;
    }
    let code = (block.len() + 1) as u8;
    let ghost old_out = out@;
    out.push(code);
    let mut j: usize = 0;
    while j < block.len()
        invariant
            j <= block@.len(),
            out@ == old_out.push(code) + block@.subrange(0, j as int),
        decreases block@.len() - j,
    {
        out.push(block[j]);
        proof {
            assert(block@.subrange(0, j + 1) =~= block@.subrange(0, j as int).push(block@[j as int]));
        }
        j = j + 1;
    }
    assert(block@.subrange(0, block@.len() as int) =~= block@);
    assert(payload@.subrange(n as int, n as int) =~= Seq::<u8>::empty());
    assert(out@ =~= old_out + (seq![code] + block@));
    out
}

/// Reverses the stuffing of `bytes`, or returns `None` where they break the scheme.
pub fn unstuff_bytes(bytes: &[u8]) -> (r: Option<Vec<u8>>)
    ensures
        match r {
            Some(v) => unstuff(bytes@) == Some(v@),
            None => unstuff(bytes@) is None,
        },
{
    let n = bytes.len();
    if n == 0 {
        return None;
    }
    let ghost e = bytes@;
    let mut out: Vec<u8> = Vec::new();
    let mut pos: usize = 0;
    assert(e.subrange(0, n as int) =~= e);
    assert(Seq::<u8>::empty() + e =~= e);
    while pos < n
        invariant
            n == e.len(),
            e == bytes@,
            pos <= n,
            pos < n ==> unstuff(e) == prepend(out@, unstuff(e.subrange(pos as int, n as int))),
            pos == n ==> unstuff(e) == Some(out@),
        decreases n - pos,
    {
        let ghost t = e.subrange(pos as int, n as int);
        let code = bytes[pos] as usize;
        if code == 0 || code > n - pos {
            return None;
        }
        let ghost old_out = out@;
        let mut j: usize = pos + 1;
        while j < pos + code
            invariant
                n == e.len(),
                e == bytes@,
                pos < n,
                1 <= code <= n - pos,
                pos + 1 <= j <= pos + code,
                t == e.subrange(pos as int, n as int),
                code == bytes@[pos as int] as usize,
                out@ == old_out + e.subrange(pos + 1, j as int),
                !e.subrange(pos + 1, j as int).contains(0),
                unstuff(e) == prepend(old_out, unstuff(t)),
            decreases pos + code - j,
        {
            let b = bytes[j];
            if b == 0 {
                assert(t[0] as int == code);
                assert(t.subrange(1, code as int)[j - pos - 1] == 0);
                assert(t.subrange(1, code as int).contains(0));
                assert(unstuff(t) is None);
                return None;
            }
            out.push(b);
            proof {
                assert(e.subrange(pos + 1, j + 1) =~= e.subrange(pos + 1, j as int).push(b));
                assert(!e.subrange(pos + 1, j + 1).contains(0)) by {
                    if e.subrange(pos + 1, j + 1).contains(0) {
                        let s1 = e.subrange(pos + 1, j + 1);
                        let k = choose|k: int| 0 <= k < s1.len() && s1[k] == 0;
                        if k < j - (pos + 1) {
                            assert(e.subrange(pos + 1, j as int)[k] == 0);
                        }
                    }
                }
            }
            j = j + 1;
        }
        assert(t.subrange(1, code as int) =~= e.subrange(pos + 1, pos + code));
        if pos + code < n {
            assert(t.subrange(code as int, t.len() as int) =~= e.subrange(pos + code, n as int));
            assert(old_out + (e.subrange(pos + 1, pos + code) + seq![0u8]) =~= out@.push(0));
            out.push(0);
            proof {
                match unstuff(e.subrange(pos + code, n as int)) {
                    Some(r) => {
                        assert(old_out + (e.subrange(pos + 1, pos + code) + seq![0u8] + r) =~= out@ + r);
                    },
                    None => {},
                }
            }
        }
        pos = pos + code;
    }
    Some(out)
}

/// Writes the frame of `event` to the front of `buf` and returns its length.
pub fn encode(event: Slider, buf: &mut [u8]) -> (r: Result<usize, FrameError>)
    ensures
        final(buf)@.len() == old(buf)@.len(),
        old(buf)@.len() < MAX_FRAME_LEN ==> r == Err::<usize, FrameError>(FrameError::BufferTooSmall)
            && final(buf)@ == old(buf)@,
        old(buf)@.len() >= MAX_FRAME_LEN ==> r == Ok::<usize, FrameError>(frame(event).len() as usize)
            && final(buf)@.subrange(0, frame(event).len() as int) == frame(event)
            && final(buf)@.subrange(frame(event).len() as int, old(buf)@.len() as int)
                == old(buf)@.subrange(frame(event).len() as int, old(buf)@.len() as int),
{
    if buf.len() < MAX_FRAME_LEN {
        return Err(FrameError::BufferTooSmall);
    }
    let record: Vec<u8> = vec![event.id, (event.value % 256) as u8, (event.value / 256) as u8];
    assert(record@ =~= record_bytes(event));
    let stuffed = stuff_bytes(&record);
    proof {
        lemma_round_trip(event);
    }
    let len = stuffed.len();
    let mut j: usize = 0;
    while j < len
        invariant
            len == stuffed@.len(),
            len + 1 < MAX_FRAME_LEN <= buf@.len(),
            buf@.len() == old(buf)@.len(),
            j <= len,
            forall|k: int| 0 <= k < j ==> buf@[k] == stuffed@[k],
            forall|k: int| j <= k < buf@.len() ==> buf@[k] == old(buf)@[k],
        decreases len - j,
    {
        buf[j] = stuffed[j];
        j = j + 1;
    }
    buf[len] = FRAME_DELIMITER;
    assert(buf@.subrange(0, frame(event).len() as int) =~= frame(event));
    assert(buf@.subrange(frame(event).len() as int, buf@.len() as int)
        =~= old(buf)@.subrange(frame(event).len() as int, old(buf)@.len() as int));
    Ok(len + 1)
}

/// Decodes the bytes of one frame, its delimiter already removed.
pub fn decode(bytes: &[u8]) -> (r: Result<Slider, FrameError>)
    ensures
        r == decode_spec(bytes@),
{
    match unstuff_bytes(bytes) {
        Some(p) => {
            if p.len() == RECORD_LEN {
                Ok(Slider { id: p[0], value: p[1] as u16 + 256 * p[2] as u16 })
            } else {
                Err(FrameError::MalformedFrame)
            }
        },
        None => Err(FrameError::MalformedFrame),
    }
}

} // verus!
