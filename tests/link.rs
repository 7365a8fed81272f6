use gain::codec::{decode, MAX_FRAME_LEN};
use gain::event::Slider;
use gain::link::{SliderLink, CHANNEL_COUNT};

#[test]
fn idle_channels_send_nothing() {
    let mut link = SliderLink::new();
    let mut buf = [0u8; MAX_FRAME_LEN];
    assert!(link.tick(&[0; CHANNEL_COUNT], &mut buf).is_empty());
    assert!(link.tick(&[2; CHANNEL_COUNT], &mut buf).is_empty());
}

#[test]
fn changed_channels_are_framed_in_order() {
    let mut link = SliderLink::new();
    let mut buf = [0u8; MAX_FRAME_LEN];
    let bytes = link.tick(&[500, 0, 0, 1020, 0, 0], &mut buf);
    let frames: Vec<&[u8]> = bytes.split(|&b| b == 0).filter(|f| !f.is_empty()).collect();
    assert_eq!(frames.len(), 2);
    assert_eq!(decode(frames[0]), Ok(Slider { id: 0, value: 500 }));
    assert_eq!(decode(frames[1]), Ok(Slider { id: 3, value: 1023 }));
    assert_eq!(link.last_sent, vec![500, 0, 0, 1023, 0, 0]);
    // the same readings again change nothing
    assert!(link.tick(&[500, 0, 0, 1020, 0, 0], &mut buf).is_empty());
}

#[test]
fn failed_encode_is_retried_later() {
    let mut link = SliderLink::new();
    let mut small = [0u8; MAX_FRAME_LEN - 1];
    assert!(link.tick(&[0, 600, 0, 0, 0, 0], &mut small).is_empty());
    assert_eq!(link.last_sent, vec![0; CHANNEL_COUNT]);
    let mut buf = [0u8; MAX_FRAME_LEN];
    let bytes = link.tick(&[0, 600, 0, 0, 0, 0], &mut buf);
    assert_eq!(decode(&bytes[..bytes.len() - 1]), Ok(Slider { id: 1, value: 600 }));
}
