//! The connection of a replica to its node.

use vstd::prelude::*;
use vstd::string::StringExecFns;

verus! {

/// The state of the connection to the node.
#[derive(Clone, Debug, Default, PartialEq, Eq)]
pub enum WsState {
    #[default]
    Disconnected,
    Connecting,
    Connected,
    Error(String),
}

/// Where the node is reached.
#[derive(Clone, Debug, PartialEq, Eq)]
pub struct NodeConfig {
    pub api_url: String,
}

impl Default for NodeConfig {
    /// The node on this machine, at its usual port, speaking the native encoding.
    fn default() -> (config: Self)
        ensures
            config.api_url@ == "ws://127.0.0.1:7509/v1/contract/command?encodingProtocol=native"@,
    {
        NodeConfig {
            api_url: String::from_str(
                "ws://127.0.0.1:7509/v1/contract/command?encodingProtocol=native",
            ),
        }
    }
}

} // verus!
