//! What scripts may do: the runtime lets them reach the network and read and
//! write paths, and denies high-resolution time.

use vstd::prelude::*;

verus! {

/// Why a permission check failed. The runtime's checks never fail.
#[derive(Debug)]
pub enum PermissionCheckError {
    Denied,
}

/// The permissions of a script run.
pub struct CloudstatePermissions {}

impl CloudstatePermissions {
    pub fn new() -> (r: Self) {
        CloudstatePermissions {}
    }

    /// High-resolution time is denied.
    pub fn allow_hrtime(&mut self) -> (r: bool)
        ensures
            !r,
    {
        false
    }

    /// Fetching any URL is allowed.
    pub fn check_net_url(&mut self, _url: &str, _api_name: &str) -> (r: Result<(), PermissionCheckError>)
        ensures
            r is Ok,
    {
        Ok(())
    }

    /// Reading a path for fetch is allowed; the path is used as given.
    pub fn check_read_path(&mut self, _resolved: bool, path: String, _api_name: &str) -> (r: Result<
        String,
        PermissionCheckError,
    >)
        ensures
            r matches Ok(p) && p@ == path@,
    {
        Ok(path)
    }

    /// Connecting to any host and port is allowed.
    pub fn check_net(&mut self, _host: &str, _port: Option<u16>, _api_name: &str) -> (r: Result<
        (),
        PermissionCheckError,
    >)
        ensures
            r is Ok,
    {
        Ok(())
    }

    /// Reading any path is allowed; the path is used as given.
    pub fn check_read(&mut self, path: &str, _api_name: &str) -> (r: Result<
        String,
        PermissionCheckError,
    >)
        ensures
            r matches Ok(p) && p@ == path@,
    {
        Ok(path.to_owned())
    }

    /// Writing any path is allowed; the path is used as given.
    pub fn check_write(&mut self, path: &str, _api_name: &str) -> (r: Result<
        String,
        PermissionCheckError,
    >)
        ensures
            r matches Ok(p) && p@ == path@,
    {
        Ok(path.to_owned())
    }

    /// Writing any path is allowed; the path is used as given.
    pub fn check_write_path(&mut self, path: String, _api_name: &str) -> (r: Result<
        String,
        PermissionCheckError,
    >)
        ensures
            r matches Ok(p) && p@ == path@,
    {
        Ok(path)
    }
}

} // verus!
