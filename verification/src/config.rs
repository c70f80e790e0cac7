use vstd::prelude::*;
use vstd::string::StringExecFns;

verus! {

/// The file name under which an instance's identity keypair is persisted.
pub fn identity_file_name(instance_name: &str) -> (s: String)
    ensures
        s@ == "identity_"@ + instance_name@ + ".bin"@,
{
    String::from_str("identity_").concat(instance_name).concat(".bin")
}

/// The node's startup configuration, as handed over by the host.
#[derive(Debug, Clone)]
pub struct AppConfig {
    /// Role hint; affects only how the initial listener is bound.
    pub is_bootstrap_node: bool,
    /// Multiaddress of a circuit-relay server, optionally ending in a circuit
    /// marker; empty disables relay use.
    pub relay_address: String,
    /// DHT seed multiaddresses, each expected to end in a peer-id component.
    pub bootstrap_nodes: Vec<String>,
    /// Preferred TCP port; `0` asks the OS to assign one.
    pub listen_port: u16,
}

/// The mathematical shape of a configuration.
#[verifier::ext_equal]
pub struct ConfigModel {
    pub is_bootstrap_node: bool,
    pub relay_address: Seq<char>,
    pub bootstrap_nodes: Seq<Seq<char>>,
    pub listen_port: u16,
}

impl View for AppConfig {
    type V = ConfigModel;

    open spec fn view(&self) -> ConfigModel {
        ConfigModel {
            is_bootstrap_node: self.is_bootstrap_node,
            relay_address: self.relay_address@,
            bootstrap_nodes: self.bootstrap_nodes.deep_view(),
            listen_port: self.listen_port,
        }
    }
}

/// Peer-liveness timeout: evidence older than this is swept away.
pub const LIVENESS_TIMEOUT_SECS: u64 = 45;

/// Period of the discovery tick that queries the DHT, republishes the
/// keep-alive, and sweeps the liveness tracker.
pub const DISCOVERY_TICK_SECS: u64 = 15;

/// Delay before announcing presence after a relay reservation is accepted,
/// giving the gossip mesh a beat to form.
pub const PRESENCE_DELAY_MS: u64 = 500;

/// Idle timeout of a client node's connections.
pub const CLIENT_IDLE_TIMEOUT_SECS: u64 = 60;

/// Idle timeout of a relay node's connections.
pub const RELAY_IDLE_TIMEOUT_SECS: u64 = 3600;

/// How long a relay honours a reservation.
pub const RESERVATION_TTL_SECS: u64 = 3600;

/// How many reservations a relay accepts.
pub const RELAY_MAX_RESERVATIONS: u64 = 1024;

/// How many circuits a relay carries.
pub const RELAY_MAX_CIRCUITS: u64 = 1024;

/// The TCP port a relay binds when the configuration does not choose one.
pub const DEFAULT_LISTEN_PORT: u16 = 4001;

} // verus!
