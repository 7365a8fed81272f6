//! The device side: conditions every channel once per tick and frames the
//! readings that changed since they were last sent.
use vstd::prelude::*;
use crate::codec::{encode, frame, MAX_FRAME_LEN};
use crate::conditioner::Potentiometer;
use crate::event::Slider;

verus! {

/// Number of analog channels.
pub const CHANNEL_COUNT: usize = 6;

/// Time between two ticks, in milliseconds.
pub const SAMPLE_INTERVAL_MS: u32 = 25;

/// Filter state of every channel, and the value last sent for each.
#[derive(Debug, Clone)]
pub struct SliderLink {
    pub pots: Vec<Potentiometer>,
    pub last_sent: Vec<u16>,
}

pub open spec fn outputs(pots: Seq<Potentiometer>) -> Seq<u16> {
    pots.map(|_i, p: Potentiometer| p.output())
}

/// Frames, in channel order, of the first `n` channels whose output differs
/// from the value last sent.
pub open spec fn changed_frames(outs: Seq<u16>, last: Seq<u16>, n: int) -> Seq<u8>
    decreases n,
{
    if n <= 0 {
        Seq::empty()
    } else {
        let k = n - 1;
        let before = changed_frames(outs, last, k);
        if outs[k] != last[k] {
            before + frame(Slider { id: k as u8, value: outs[k] })
        } else {
            before
        }
    }
}

proof fn lemma_changed_frames_prefix(o1: Seq<u16>, o2: Seq<u16>, last: Seq<u16>, n: int)
    requires
        forall|k: int| 0 <= k < n ==> o1[k] == o2[k],
    ensures
        changed_frames(o1, last, n) == changed_frames(o2, last, n),
    decreases n,
{
    if n > 0 {
        lemma_changed_frames_prefix(o1, o2, last, n - 1);
    }
}

impl SliderLink {
    pub open spec fn wf(self) -> bool {
        &&& self.pots@.len() == CHANNEL_COUNT
        &&& self.last_sent@.len() == CHANNEL_COUNT
        &&& forall|i: int| 0 <= i < CHANNEL_COUNT ==> (#[trigger] self.pots@[i]).wf()
    }

    /// Every channel unseeded, and every last-sent value zero.
    pub fn new() -> (r: SliderLink)
        ensures
            r.wf(),
            forall|i: int| 0 <= i < CHANNEL_COUNT ==> (#[trigger] r.pots@[i]) == Potentiometer::new_spec(),
            forall|i: int| 0 <= i < CHANNEL_COUNT ==> (#[trigger] r.last_sent@[i]) == 0,
    {
        let mut pots: Vec<Potentiometer> = Vec::new();
        let mut last_sent: Vec<u16> = Vec::new();
        let mut i: usize = 0;
        while i < CHANNEL_COUNT
            invariant
                i <= CHANNEL_COUNT,
                pots@.len() == i,
                last_sent@.len() == i,
                forall|k: int| 0 <= k < i ==> (#[trigger] pots@[k]) == Potentiometer::new_spec(),
                forall|k: int| 0 <= k < i ==> (#[trigger] last_sent@[k]) == 0,
            decreases CHANNEL_COUNT - i,
        {
            pots.push(Potentiometer::new());
            last_sent.push(0);
            i = i + 1;
        }
        SliderLink { pots, last_sent }
    }

    /// Feeds one reading per channel and returns the bytes to send: the frame
    /// of every channel whose output differs from the value last sent for it.
    /// With a buffer too small to encode into, nothing is sent and the
    /// last-sent values stay, so the change is sent on a later tick.
    pub fn tick(&mut self, raws: &[u16], buf: &mut [u8]) -> (bytes: Vec<u8>)
        requires
            old(self).wf(),
            raws@.len() == CHANNEL_COUNT,
        ensures
            final(self).wf(),
            final(buf)@.len() == old(buf)@.len(),
            forall|i: int| 0 <= i < CHANNEL_COUNT ==>
                (#[trigger] final(self).pots@[i]) == old(self).pots@[i].step(raws@[i]),
            old(buf)@.len() >= MAX_FRAME_LEN ==> final(self).last_sent@ == outputs(final(self).pots@)
                && bytes@ == changed_frames(outputs(final(self).pots@), old(self).last_sent@, CHANNEL_COUNT as int),
            old(buf)@.len() < MAX_FRAME_LEN ==> final(self).last_sent@ == old(self).last_sent@
                && bytes@.len() == 0,
    {
        let big = buf.len() >= MAX_FRAME_LEN;
        let ghost old_last = self.last_sent@;
        let ghost old_pots = self.pots@;
        let mut bytes: Vec<u8> = Vec::new();
        let mut i: usize = 0;
        while i < CHANNEL_COUNT
            invariant
                i <= CHANNEL_COUNT,
                self.pots@.len() == CHANNEL_COUNT,
                self.last_sent@.len() == CHANNEL_COUNT,
                old_pots.len() == CHANNEL_COUNT,
                old_last.len() == CHANNEL_COUNT,
                raws@.len() == CHANNEL_COUNT,
                buf@.len() == old(buf)@.len(),
                big == (old(buf)@.len() >= MAX_FRAME_LEN),
                forall|k: int| 0 <= k < CHANNEL_COUNT ==> (#[trigger] old_pots[k]).wf(),
                forall|k: int| 0 <= k < i ==> (#[trigger] self.pots@[k]) == old_pots[k].step(raws@[k]),
                forall|k: int| i <= k < CHANNEL_COUNT ==> (#[trigger] self.pots@[k]) == old_pots[k],
                big ==> forall|k: int| 0 <= k < i ==> (#[trigger] self.last_sent@[k]) == self.pots@[k].output(),
                forall|k: int| i <= k < CHANNEL_COUNT ==> (#[trigger] self.last_sent@[k]) == old_last[k],
                !big ==> self.last_sent@ == old_last,
                big ==> bytes@ == changed_frames(outputs(self.pots@), old_last, i as int),
                !big ==> bytes@.len() == 0,
            decreases CHANNEL_COUNT - i,
        {
            let ghost pots_before = self.pots@;
            let mut p = self.pots[i];
            let out = p.update(raws[i]);
            self.pots.set(i, p);
            proof {
                lemma_changed_frames_prefix(outputs(pots_before), outputs(self.pots@), old_last, i as int);
            }
            if out != self.last_sent[i] {
                let event = Slider { id: i as u8, value: out };
                proof {
                    crate::codec::lemma_round_trip(event);
                }
                match encode(event, buf) {
                    Ok(n) => {
                        let ghost before = bytes@;
                        let mut j: usize = 0;
                        while j < n
                            invariant
                                j <= n,
                                n == frame(event).len(),
                                n <= buf@.len(),
                                buf@.subrange(0, n as int) == frame(event),
                                bytes@ == before + frame(event).subrange(0, j as int),
                            decreases n - j,
                        {
                            bytes.push(buf[j]);
                            assert(buf@.subrange(0, n as int)[j as int] == buf@[j as int]);
                            assert(frame(event).subrange(0, j + 1) =~= frame(event).subrange(0, j as int).push(frame(event)[j as int]));
                            j = j + 1;
                        }
                        assert(frame(event).subrange(0, n as int) =~= frame(event));
                        self.last_sent.set(i, out);
                    },
                    Err(_) => {},
                }
            }
            i = i + 1;
        }
        assert(outputs(self.pots@).len() == CHANNEL_COUNT);
        assert(self.last_sent@ =~= outputs(self.pots@) || !big);
        bytes
    }
}

} // verus!
