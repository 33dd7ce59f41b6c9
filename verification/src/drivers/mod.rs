//! Device drivers.

pub mod virtio;
