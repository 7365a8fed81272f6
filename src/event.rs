//! The record that travels from the device to the host.
use vstd::prelude::*;

verus! {

/// One slider reading: which channel, and its conditioned value.
#[derive(Debug, Clone, Copy, PartialEq, Eq, Structural)]
pub struct Slider {
    pub id: u8,
    pub value: u16,
}

} // verus!
