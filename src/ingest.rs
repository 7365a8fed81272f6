//! The host side of the link: which port to open, what to do after each
//! outcome of the transport, and how a delimited read becomes an event.
use vstd::prelude::*;
use crate::codec::{decode, decode_spec, frame, lemma_round_trip, FrameError, FRAME_DELIMITER};
use crate::event::Slider;

verus! {

/// Serial speed of the link.
pub const BAUD_RATE: u32 = 57600;

/// How long a read may wait for a delimiter, in milliseconds.
pub const READ_TIMEOUT_MS: u64 = 30_000;

/// Wait before another attempt after a port could not be found or opened, in milliseconds.
pub const RETRY_DELAY_MS: u64 = 5000;

/// A serial endpoint as the transport lists it.
#[derive(Debug, Clone)]
pub struct PortInfo {
    pub name: String,
    /// Whether the endpoint is a USB device.
    pub is_usb: bool,
}

/// Whether a transport handle is open.
#[derive(Debug, Clone, Copy, PartialEq, Eq, Structural)]
pub enum LinkState {
    Disconnected,
    Streaming,
}

/// The outcome of the last transport operation.
#[derive(Debug, Clone, Copy, PartialEq, Eq, Structural)]
pub enum LinkEvent {
    /// A port was found and opened.
    Opened,
    /// No port was found, or it could not be opened.
    OpenFailed,
    /// A read ended at a delimiter.
    FrameRead,
    /// A read timed out before a delimiter.
    ReadTimedOut,
    /// A read failed for another reason.
    ReadFailed,
}

/// What the transport is to do next.
#[derive(Debug, Clone, Copy, PartialEq, Eq, Structural)]
pub enum LinkAction {
    /// Drop any handle, then find and open a port.
    Connect,
    /// Wait `RETRY_DELAY_MS`, then find and open a port.
    WaitThenConnect,
    /// Read from the open handle up to the next delimiter.
    Read,
}

pub open spec fn link_step_spec(state: LinkState, event: LinkEvent) -> (LinkState, LinkAction) {
    match event {
        LinkEvent::Opened => (LinkState::Streaming, LinkAction::Read),
        LinkEvent::OpenFailed => (LinkState::Disconnected, LinkAction::WaitThenConnect),
        LinkEvent::ReadFailed => (LinkState::Disconnected, LinkAction::Connect),
        LinkEvent::FrameRead | LinkEvent::ReadTimedOut => match state {
            LinkState::Streaming => (LinkState::Streaming, LinkAction::Read),
            LinkState::Disconnected => (LinkState::Disconnected, LinkAction::Connect),
        },
    }
}

/// The state after each event of `events` in turn.
pub open spec fn state_after(state: LinkState, events: Seq<LinkEvent>) -> LinkState
    decreases events.len(),
{
    if events.len() == 0 {
        state
    } else {
        link_step_spec(state_after(state, events.drop_last()), events.last()).0
    }
}

/// The next state and action after `event`. Only a freshly opened handle is
/// read from: a timeout keeps the handle, any other read failure drops it.
pub fn link_step(state: LinkState, event: LinkEvent) -> (r: (LinkState, LinkAction))
    ensures
        r == link_step_spec(state, event),
{
    match event {
        LinkEvent::Opened => (LinkState::Streaming, LinkAction::Read),
        LinkEvent::OpenFailed => (LinkState::Disconnected, LinkAction::WaitThenConnect),
        LinkEvent::ReadFailed => (LinkState::Disconnected, LinkAction::Connect),
        LinkEvent::FrameRead | LinkEvent::ReadTimedOut => match state {
            LinkState::Streaming => (LinkState::Streaming, LinkAction::Read),
            LinkState::Disconnected => (LinkState::Disconnected, LinkAction::Connect),
        },
    }
}

proof fn lemma_stays_disconnected(events: Seq<LinkEvent>)
    requires
        forall|i: int| 0 <= i < events.len() ==> events[i] != LinkEvent::Opened,
    ensures
        state_after(LinkState::Disconnected, events) == LinkState::Disconnected,
    decreases events.len(),
{
    if events.len() > 0 {
        lemma_stays_disconnected(events.drop_last());
    }
}

/// After a read fails other than by timeout, the link is disconnected, and no
/// read is asked for until a port has been opened again.
pub proof fn lemma_read_failure_reopens(state: LinkState, events: Seq<LinkEvent>)
    requires
        forall|i: int| 0 <= i < events.len() ==> events[i] != LinkEvent::Opened,
    ensures
        link_step_spec(state, LinkEvent::ReadFailed) == (LinkState::Disconnected, LinkAction::Connect),
        state_after(LinkState::Disconnected, events) == LinkState::Disconnected,
        forall|i: int| 0 <= i < events.len() ==> #[trigger] link_step_spec(
            state_after(LinkState::Disconnected, events.take(i)),
            events[i],
        ).1 != LinkAction::Read,
{
    lemma_stays_disconnected(events);
    assert forall|i: int| 0 <= i < events.len() implies #[trigger] link_step_spec(
        state_after(LinkState::Disconnected, events.take(i)),
        events[i],
    ).1 != LinkAction::Read by {
        lemma_stays_disconnected(events.take(i));
    }
}

/// A read buffer with one trailing delimiter removed, if it ends with one.
pub open spec fn strip_delimiter(b: Seq<u8>) -> Seq<u8> {
    if b.len() > 0 && b.last() == FRAME_DELIMITER {
        b.drop_last()
    } else {
        b
    }
}

/// A whole frame, as a delimited read returns it, decodes to the event it was made from.
pub proof fn lemma_frame_round_trip(e: Slider)
    ensures
        decode_spec(strip_delimiter(frame(e))) == Ok::<Slider, FrameError>(e),
{
    lemma_round_trip(e);
    assert(strip_delimiter(frame(e)) =~= crate::codec::stuff(crate::codec::record_bytes(e)));
}

/// Decodes what one delimited read produced.
pub fn decode_read(buffer: &[u8]) -> (r: Result<Slider, FrameError>)
    ensures
        r == decode_spec(strip_delimiter(buffer@)),
{
    let n = buffer.len();
    if n > 0 && buffer[n - 1] == FRAME_DELIMITER {
        decode(&buffer[0..n - 1])
    } else {
        decode(buffer)
    }
}

/// The first USB endpoint of `ports`.
pub open spec fn first_usb(ports: Seq<PortInfo>) -> Option<String>
    decreases ports.len(),
{
    if ports.len() == 0 {
        None
    } else if ports[0].is_usb {
        Some(ports[0].name)
    } else {
        first_usb(ports.drop_first())
    }
}

/// The port to open: the configured one, else the first USB endpoint listed.
pub fn choose_port(configured: &Option<String>, ports: &Vec<PortInfo>) -> (r: Option<String>)
    ensures
        configured is Some ==> r == *configured,
        configured is None ==> r == first_usb(ports@),
{
    match configured {
        Some(name) => Some(name.clone()),
        None => {
            let mut i: usize = 0;
            assert(ports@.subrange(0, ports@.len() as int) =~= ports@);
            while i < ports.len()
                invariant
                    configured is None,
                    i <= ports@.len(),
                    first_usb(ports@) == first_usb(ports@.subrange(i as int, ports@.len() as int)),
                decreases ports@.len() - i,
            {
                let ghost rest = ports@.subrange(i as int, ports@.len() as int);
                assert(rest.drop_first() =~= ports@.subrange(i + 1, ports@.len() as int));
                if ports[i].is_usb {
                    return Some(ports[i].name.clone());
                }
                i = i + 1;
            }
            None
        },
    }
}

} // verus!
