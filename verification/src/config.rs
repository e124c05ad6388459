use vstd::prelude::*;

verus! {

/// The address a gateway or broker instance serves on and registers under.
pub struct InstanceInfo {
    pub host: String,
    pub port: u16,
}

/// Where the service-discovery endpoint lives and how to talk to it.
pub struct WatchTowerConfig {
    pub urls: Vec<String>,
    pub username: String,
    pub password: String,
}

/// The single shared HTTP Basic credential of the fleet.
#[derive(Clone)]
pub struct AuthInfo {
    pub username: String,
    pub password: String,
}

} // verus!
