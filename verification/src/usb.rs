//! Connection to a client through a USB cable.
//!
//! The `iproxy` utility makes a port of the device reachable as a local port. The
//! server connects there, as soon as the client listens.

use vstd::prelude::*;
#[allow(unused_imports)]
use vstd::string::StringExecFns;
use crate::text::put_decimal;
#[allow(unused_imports)]
use crate::text::decimal;

verus! {

/// The local port that stands for the port of the device.
pub const PROXY_PORT: u16 = 5667;

/// Milliseconds between two attempts to connect.
pub const RETRY_MILLISECONDS: u64 = 250;

/// Why the connection is given up.
#[derive(Debug)]
pub enum UsbError {
    /// The utility did not start.
    NotStarted(String),
    /// The utility ended, with this status.
    ProxyExited(String),
}

impl UsbError {
    /// The error in words.
    pub open spec fn text(self) -> Seq<char> {
        match self {
            UsbError::NotStarted(reason) => "could not start iproxy.exe: "@ + reason@
                + "; install libusbmuxd/iproxy and ensure it is on PATH"@,
            UsbError::ProxyExited(status) => "iproxy exited before the iOS connection arrived: "@
                + status@,
        }
    }

    /// Puts the error into words.
    pub fn describe(&self) -> (r: String)
        ensures
            r@ == self.text(),
    {
        match self {
            UsbError::NotStarted(reason) => {
                let mut text: String = String::from_str("could not start iproxy.exe: ");
                text.append(reason.as_str());
                text.append("; install libusbmuxd/iproxy and ensure it is on PATH");
                text
            },
            UsbError::ProxyExited(status) => {
                let mut text: String = String::from_str(
                    "iproxy exited before the iOS connection arrived: ",
                );
                text.append(status.as_str());
                text
            },
        }
    }
}

/// The argument that makes a port of the device reachable as a local port.
pub fn port_mapping(host_port: u16, device_port: u16) -> (r: String)
    ensures
        r@ == decimal(host_port as nat) + ":"@ + decimal(device_port as nat),
{
    let mut text: String = String::from_str("");
    proof {
        reveal_strlit("");
    }
    put_decimal(&mut text, host_port as u64);
    text.append(":");
    put_decimal(&mut text, device_port as u64);
    assert(text@ =~= decimal(host_port as nat) + ":"@ + decimal(device_port as nat));
    text
}

/// What is done about an attempt to connect.
#[derive(Debug)]
pub enum Attempt {
    /// The client is served.
    Serve,
    /// The next attempt is made, after so many milliseconds.
    RetryAfter(u64),
    /// The server ends.
    GiveUp(UsbError),
}

/// Decides what is done about an attempt to connect: `exited` is the status with
/// which the utility had ended before it, if it had.
pub fn after_attempt(exited: Option<String>, connected: bool) -> (r: Attempt)
    ensures
        r == (match exited {
            Some(status) => Attempt::GiveUp(UsbError::ProxyExited(status)),
            None => if connected {
                Attempt::Serve
            } else {
                Attempt::RetryAfter(RETRY_MILLISECONDS)
            },
        }),
{
    match exited {
        Some(status) => Attempt::GiveUp(UsbError::ProxyExited(status)),
        None => {
            if connected {
                Attempt::Serve
            } else {
                Attempt::RetryAfter(RETRY_MILLISECONDS)
            }
        },
    }
}

} // verus!
