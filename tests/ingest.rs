use gain::codec::{encode, FrameError, MAX_FRAME_LEN};
use gain::event::Slider;
use gain::ingest::{choose_port, decode_read, link_step, LinkAction, LinkEvent, LinkState, PortInfo};

#[test]
fn read_failure_forces_a_fresh_handle() {
    let (s, a) = link_step(LinkState::Streaming, LinkEvent::ReadFailed);
    assert_eq!((s, a), (LinkState::Disconnected, LinkAction::Connect));
    let (s, a) = link_step(s, LinkEvent::OpenFailed);
    assert_eq!((s, a), (LinkState::Disconnected, LinkAction::WaitThenConnect));
    let (s, a) = link_step(s, LinkEvent::Opened);
    assert_eq!((s, a), (LinkState::Streaming, LinkAction::Read));
}

#[test]
fn timeouts_and_frames_keep_streaming() {
    assert_eq!(link_step(LinkState::Streaming, LinkEvent::ReadTimedOut), (LinkState::Streaming, LinkAction::Read));
    assert_eq!(link_step(LinkState::Streaming, LinkEvent::FrameRead), (LinkState::Streaming, LinkAction::Read));
    assert_eq!(link_step(LinkState::Disconnected, LinkEvent::ReadTimedOut), (LinkState::Disconnected, LinkAction::Connect));
}

#[test]
fn delimited_read_decodes() {
    let mut buf = [0u8; MAX_FRAME_LEN];
    let n = encode(Slider { id: 4, value: 321 }, &mut buf).unwrap();
    assert_eq!(decode_read(&buf[..n]), Ok(Slider { id: 4, value: 321 }));
    assert_eq!(decode_read(&buf[..n - 1]), Ok(Slider { id: 4, value: 321 }));
    assert_eq!(decode_read(&[]), Err(FrameError::MalformedFrame));
    assert_eq!(decode_read(&[0]), Err(FrameError::MalformedFrame));
}

#[test]
fn configured_port_wins_else_first_usb() {
    let ports = vec![
        PortInfo { name: "/dev/ttyS0".to_string(), is_usb: false },
        PortInfo { name: "/dev/ttyUSB0".to_string(), is_usb: true },
        PortInfo { name: "/dev/ttyUSB1".to_string(), is_usb: true },
    ];
    assert_eq!(choose_port(&Some("COM3".to_string()), &ports), Some("COM3".to_string()));
    assert_eq!(choose_port(&None, &ports), Some("/dev/ttyUSB0".to_string()));
    assert_eq!(choose_port(&None, &ports[..1].to_vec()), None);
}
