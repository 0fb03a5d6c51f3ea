//! What the server knows about its deployment, and the runner that executes
//! scripts one at a time.

use vstd::prelude::*;

verus! {

/// What a script may learn about the deployment that runs it.
pub struct ServerInfo {
    pub deployment_id: Option<String>,
}

impl Clone for ServerInfo {
    fn clone(&self) -> (r: Self)
        ensures
            r.deployment_id == self.deployment_id,
    {
        ServerInfo {
            deployment_id: match &self.deployment_id {
                Some(d) => Some(d.clone()),
                None => None,
            },
        }
    }
}

/// Runs each script on a fresh JavaScript runtime of its own.
#[derive(Clone, Copy)]
pub struct SimpleCloudstateRunner {}

impl SimpleCloudstateRunner {
    pub fn new() -> (r: Self) {
        SimpleCloudstateRunner {}
    }
}

} // verus!
