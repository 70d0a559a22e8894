//! A log-driven IP blocker: rules compiled from config watch log files,
//! offending hosts are recorded in a durable ledger and handed to the
//! host firewall for a configurable sentence.

pub mod clock;
pub mod codec;
pub mod firewall;
pub mod handler;
pub mod ip;
pub mod ledger;
pub mod matcher;
pub mod notifier;
pub mod pattern;
pub mod rules;
pub mod strutil;

use vstd::prelude::*;

verus! {

/// Location of the snapshot file when none is configured.
pub fn get_location(path: Option<String>) -> (r: String)
    ensures
        path matches Some(p) ==> r == p,
        path is None ==> r@ == "/var/lib/veto/storage.bin"@,
{
    match path {
        Some(p) => p,
        None => "/var/lib/veto/storage.bin".to_owned(),
    }
}

} // verus!
