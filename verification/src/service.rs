//! Registration of the server with Bonjour, through the `dns-sd` utility.

use vstd::prelude::*;
#[allow(unused_imports)]
use vstd::string::StringExecFns;
use crate::text::put_decimal;
#[allow(unused_imports)]
use crate::options::texts;
#[allow(unused_imports)]
use crate::text::decimal;

verus! {

/// Why the server is not registered.
#[derive(Debug)]
pub enum ServiceError {
    /// The utility did not start.
    NotStarted(String),
    /// The utility ended at once, with this status.
    Exited(String),
}

impl ServiceError {
    /// The error in words.
    pub open spec fn text(self) -> Seq<char> {
        match self {
            ServiceError::NotStarted(reason) => "could not start Bonjour dns-sd.exe: "@ + reason@
                + "; install Apple Bonjour Service"@,
            ServiceError::Exited(status) => "Bonjour dns-sd.exe exited during registration: "@
                + status@,
        }
    }

    /// Puts the error into words.
    pub fn describe(&self) -> (r: String)
        ensures
            r@ == self.text(),
    {
        match self {
            ServiceError::NotStarted(reason) => {
                let mut text: String = String::from_str("could not start Bonjour dns-sd.exe: ");
                text.append(reason.as_str());
                text.append("; install Apple Bonjour Service");
                text
            },
            ServiceError::Exited(status) => {
                let mut text: String = String::from_str(
                    "Bonjour dns-sd.exe exited during registration: ",
                );
                text.append(status.as_str());
                text
            },
        }
    }
}

/// The arguments with which the utility registers the server on a port.
pub fn registration_arguments(port: u16) -> (r: Vec<String>)
    ensures
        texts(r@) == seq![
            "-R"@,
            "TouchMonitor"@,
            "_touchmonitor._tcp"@,
            "local"@,
            decimal(port as nat),
        ],
{
    let mut number: String = String::from_str("");
    put_decimal(&mut number, port as u64);
    proof {
        reveal_strlit("");
    }
    let mut out: Vec<String> = Vec::new();
    out.push(String::from_str("-R"));
    out.push(String::from_str("TouchMonitor"));
    out.push(String::from_str("_touchmonitor._tcp"));
    out.push(String::from_str("local"));
    out.push(number);
    assert(texts(out@) =~= seq![
        "-R"@,
        "TouchMonitor"@,
        "_touchmonitor._tcp"@,
        "local"@,
        decimal(port as nat),
    ]);
    out
}

/// Decides whether the server is registered, a moment after the utility was started:
/// `started` is the reason why it did not start, or the status with which it has
/// ended, if it has.
pub fn registered(started: Result<Option<String>, String>) -> (r: Result<(), ServiceError>)
    ensures
        r == (match started {
            Ok(None) => Ok::<(), ServiceError>(()),
            Ok(Some(status)) => Err(ServiceError::Exited(status)),
            Err(reason) => Err(ServiceError::NotStarted(reason)),
        }),
{
    match started {
        Ok(None) => Ok(()),
        Ok(Some(status)) => Err(ServiceError::Exited(status)),
        Err(reason) => Err(ServiceError::NotStarted(reason)),
    }
}

} // verus!
