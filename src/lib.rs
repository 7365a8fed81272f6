//! Slider-to-volume bridge: a noise-resistant conditioner for analog slider
//! readings, a self-delimiting frame codec for slider events, the device-side
//! change detector, and the host-side configuration, routing and link logic.

pub mod conditioner;
pub mod event;
pub mod codec;
pub mod quantize;
pub mod config;
pub mod router;
pub mod link;
pub mod ingest;
