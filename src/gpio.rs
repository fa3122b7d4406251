//! Control lines and delay source of a connected co-processor.
//!
//! These are implemented by the platform: the library only calls them.
use vstd::prelude::*;

verus! {

/// Error of a control line.
#[derive(Debug, Clone, Copy, PartialEq, Eq, Structural)]
pub enum IOError {
    /// A pin could not be read or driven.
    Pin,
}

/// A millisecond delay source.
pub trait DelayMs {
    /// Blocks for `ms` milliseconds.
    fn delay_ms(&mut self, ms: u16);
}

/// The control lines beside the data bus: chip select, boot mode select,
/// reset, and the ready/ack input.
pub trait EspControlInterface {
    /// Drives select and mode-select high, leaving the interface idle.
    fn init(&mut self);

    /// Pulses reset low for at least 10 ms, then waits 750 ms for boot.
    fn reset<D: DelayMs>(&mut self, delay: &mut D);

    /// Asserts chip select.
    fn esp_select(&mut self);

    /// Releases chip select.
    fn esp_deselect(&mut self);

    /// Whether the co-processor is ready for a command.
    fn get_esp_ready(&self) -> bool;

    /// Whether the co-processor acknowledged the select.
    fn get_esp_ack(&self) -> bool;

    /// Blocks until the co-processor is ready.
    fn wait_for_esp_ready(&self);

    /// Blocks until the co-processor acknowledges.
    fn wait_for_esp_ack(&self);

    /// Waits for ready, asserts select, then waits for the acknowledgement.
    fn wait_for_esp_select(&mut self);
}

} // verus!
