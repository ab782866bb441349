//! User-supplied configuration for the remote side: the credential and the
//! identifier of the hosted snippet that mirrors the report. Reading and
//! decoding the settings file is I/O and lives outside the library; the
//! values themselves are plain strings.

use vstd::prelude::*;
use vstd::string::StringExecFns;

verus! {

#[derive(Debug, Clone)]
pub struct Settings {
    pub api_key: String,
    pub gist_id: String,
}

impl Settings {
    pub fn new(api_key: String, gist_id: String) -> (r: Settings)
        ensures
            r.api_key == api_key,
            r.gist_id == gist_id,
    {
        Settings { api_key, gist_id }
    }
}

/// Path of the settings file under the given home directory.
pub fn settings_path(home: &str) -> (r: String)
    ensures
        r@ == home@ + "/.config/hours.yaml"@,
{
    let mut p = String::new();
    p.append(home);
    p.append("/.config/hours.yaml");
    p
}

} // verus!
