//! Connection options and the port-selection rule.

use vstd::prelude::*;

verus! {

/// Options for a session against a demodulated-bytes server.
#[derive(Debug, Clone)]
pub struct Options {
    /// ip address of the ADS-B demodulated bytes server
    pub host: String,
    /// port of the server, if the user gave one
    pub port: Option<u16>,
    /// panic when a decoded frame has no display form
    pub panic_display: bool,
    /// panic when a frame fails semantic decoding
    pub panic_decode: bool,
    /// print debug detail for each frame
    pub debug: bool,
    /// use the BEAST binary framing instead of raw hex lines
    pub beast_mode: bool,
}

impl Options {
    /// The port to connect to: the user's choice if given, else the
    /// conventional default for the selected mode (30005 for BEAST
    /// framing, 30002 for raw hex lines).
    pub fn get_port(&self) -> (r: u16)
        ensures
            r == match self.port {
                Some(p) => p,
                None => if self.beast_mode { 30005u16 } else { 30002u16 },
            },
    {
        match self.port {
            Some(p) => p,
            None => if self.beast_mode { 30005 } else { 30002 },
        }
    }
}

} // verus!
