//! Connection settings for an exchange.

use vstd::prelude::*;

verus! {

/// How to reach one exchange. Keys are never filled in by default.
pub struct ConnectionConfig {
    pub exchange_name: String,
    pub websocket_url: String,
    pub rest_api_url: String,
    pub api_key: Option<String>,
    pub secret_key: Option<String>,
    pub testnet: bool,
    pub rate_limit_requests_per_second: u32,
    pub max_reconnect_attempts: u32,
    pub reconnect_delay_ms: u64,
}

impl Default for ConnectionConfig {
    /// A testnet connection to an unnamed exchange, ten requests a second, five
    /// reconnect attempts one second apart.
    fn default() -> (r: ConnectionConfig)
        ensures
            r.exchange_name@ == "unknown"@,
            r.websocket_url@.len() == 0,
            r.rest_api_url@.len() == 0,
            r.api_key.is_none(),
            r.secret_key.is_none(),
            r.testnet,
            r.rate_limit_requests_per_second == 10,
            r.max_reconnect_attempts == 5,
            r.reconnect_delay_ms == 1000,
    {
        ConnectionConfig {
            exchange_name: String::from_str("unknown"),
            websocket_url: String::new(),
            rest_api_url: String::new(),
            api_key: None,
            secret_key: None,
            testnet: true,
            rate_limit_requests_per_second: 10,
            max_reconnect_attempts: 5,
            reconnect_delay_ms: 1000,
        }
    }
}

} // verus!
