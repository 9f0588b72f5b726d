use vstd::prelude::*;

use crate::error::{EnigmaRelayError, Result};
use crate::text::{is_blank, is_blank_spec};

verus! {

/// Whether the relay listens with plain HTTP or with TLS.
#[derive(Clone, Copy, Debug, PartialEq, Eq, Structural)]
pub enum RelayMode {
    Http,
    Tls,
}

/// Which queue backend the relay uses.
#[derive(Clone, Copy, Debug, PartialEq, Eq, Structural)]
pub enum StorageKind {
    Sled,
    Memory,
}

#[derive(Clone, Debug)]
pub struct TlsConfig {
    pub cert_pem_path: String,
    pub key_pem_path: String,
    pub client_ca_pem_path: Option<String>,
}

#[derive(Clone, Debug)]
pub struct StorageConfig {
    pub kind: StorageKind,
    pub path: String,
}

/// Size, count and time limits of the relay's queues.
#[derive(Clone, Copy, Debug)]
pub struct RelayLimits {
    pub max_message_bytes: u64,
    pub max_queue_bytes_per_user: u64,
    pub max_messages_per_user: u64,
    pub message_ttl_seconds: u64,
    pub gc_interval_seconds: u64,
    pub pull_batch_max: u64,
}

/// Requests per second allowed on each endpoint.
#[derive(Clone, Copy, Debug)]
pub struct EndpointRateLimit {
    pub push_rps: u32,
    pub pull_rps: u32,
    pub ack_rps: u32,
}

#[derive(Clone, Copy, Debug)]
pub struct RateLimitConfig {
    pub enabled: bool,
    pub per_ip_rps: u32,
    pub burst: u32,
    pub ban_seconds: u64,
    pub endpoints: EndpointRateLimit,
}

#[derive(Clone, Debug)]
pub struct RelayConfig {
    pub address: String,
    pub mode: RelayMode,
    pub tls: Option<TlsConfig>,
    pub storage: StorageConfig,
    pub relay: RelayLimits,
    pub rate_limit: RateLimitConfig,
}

fn owned(s: &str) -> (r: String)
    ensures
        r@ == s@,
{
    s.to_owned()
}

impl Default for StorageConfig {
    fn default() -> (r: StorageConfig)
        ensures
            r.kind == StorageKind::Sled,
            r.path@ == "./relay_db"@,
    {
        StorageConfig { kind: StorageKind::Sled, path: owned("./relay_db") }
    }
}

impl Default for RelayLimits {
    fn default() -> (r: RelayLimits)
        ensures
            r.max_message_bytes == 8_388_608,
            r.max_queue_bytes_per_user == 1_073_741_824,
            r.max_messages_per_user == 200_000,
            r.message_ttl_seconds == 14 * 24 * 3600,
            r.gc_interval_seconds == 60,
            r.pull_batch_max == 256,
    {
        RelayLimits {
            max_message_bytes: 8_388_608,
            max_queue_bytes_per_user: 1_073_741_824,
            max_messages_per_user: 200_000,
            message_ttl_seconds: 14 * 24 * 3600,
            gc_interval_seconds: 60,
            pull_batch_max: 256,
        }
    }
}

impl Default for EndpointRateLimit {
    fn default() -> (r: EndpointRateLimit)
        ensures
            r.push_rps == 10,
            r.pull_rps == 5,
            r.ack_rps == 10,
    {
        EndpointRateLimit { push_rps: 10, pull_rps: 5, ack_rps: 10 }
    }
}

impl Default for RateLimitConfig {
    fn default() -> (r: RateLimitConfig)
        ensures
            r.enabled,
            r.per_ip_rps == 20,
            r.burst == 40,
            r.ban_seconds == 300,
            r.endpoints.push_rps == 10,
            r.endpoints.pull_rps == 5,
            r.endpoints.ack_rps == 10,
    {
        RateLimitConfig {
            enabled: true,
            per_ip_rps: 20,
            burst: 40,
            ban_seconds: 300,
            endpoints: EndpointRateLimit::default(),
        }
    }
}

impl Default for RelayConfig {
    fn default() -> (r: RelayConfig)
        ensures
            r.address@ == "127.0.0.1:0"@,
            r.mode == RelayMode::Http,
            r.tls is None,
            r.storage.kind == StorageKind::Sled,
            r.storage.path@ == "./relay_db"@,
            r.relay.max_message_bytes == 8_388_608,
            r.relay.max_queue_bytes_per_user == 1_073_741_824,
            r.relay.max_messages_per_user == 200_000,
            r.relay.message_ttl_seconds == 14 * 24 * 3600,
            r.relay.gc_interval_seconds == 60,
            r.relay.pull_batch_max == 256,
            r.rate_limit.enabled,
            r.rate_limit.per_ip_rps == 20,
            r.rate_limit.burst == 40,
            r.rate_limit.ban_seconds == 300,
            r.rate_limit.endpoints.push_rps == 10,
            r.rate_limit.endpoints.pull_rps == 5,
            r.rate_limit.endpoints.ack_rps == 10,
    {
        RelayConfig {
            address: owned("127.0.0.1:0"),
            mode: RelayMode::Http,
            tls: None,
            storage: StorageConfig::default(),
            relay: RelayLimits::default(),
            rate_limit: RateLimitConfig::default(),
        }
    }
}

/// The first rule that a configuration breaks, as the message reported for
/// it, or `None` when it breaks none.
pub open spec fn config_problem(cfg: RelayConfig) -> Option<Seq<char>> {
    if is_blank_spec(cfg.address@) {
        Some("address is required"@)
    } else if cfg.mode == RelayMode::Tls && cfg.tls is None {
        Some("tls mode requires tls config"@)
    } else if cfg.relay.max_message_bytes == 0 {
        Some("max_message_bytes must be positive"@)
    } else if cfg.relay.max_queue_bytes_per_user == 0 {
        Some("max_queue_bytes_per_user must be positive"@)
    } else if cfg.relay.max_messages_per_user == 0 {
        Some("max_messages_per_user must be positive"@)
    } else if cfg.relay.pull_batch_max == 0 {
        Some("pull_batch_max must be positive"@)
    } else if cfg.relay.gc_interval_seconds == 0 {
        Some("gc_interval_seconds must be positive"@)
    } else if cfg.rate_limit.enabled && cfg.rate_limit.per_ip_rps == 0 {
        Some("rate_limit.per_ip_rps must be positive"@)
    } else if cfg.rate_limit.enabled && cfg.rate_limit.burst == 0 {
        Some("rate_limit.burst must be positive"@)
    } else if cfg.rate_limit.enabled && (cfg.rate_limit.endpoints.push_rps == 0
        || cfg.rate_limit.endpoints.pull_rps == 0 || cfg.rate_limit.endpoints.ack_rps == 0) {
        Some("endpoint rate limits must be positive"@)
    } else {
        None
    }
}

/// Every rule of a configuration, each on its own: an address; a TLS
/// section in TLS mode; positive message, queue, count, page and GC limits;
/// and, with rate limiting on, positive per-IP, burst and per-endpoint
/// limits for push, pull and ack alike.
pub open spec fn config_rules_met(cfg: RelayConfig) -> bool {
    &&& !is_blank_spec(cfg.address@)
    &&& (cfg.mode == RelayMode::Tls ==> cfg.tls is Some)
    &&& cfg.relay.max_message_bytes > 0
    &&& cfg.relay.max_queue_bytes_per_user > 0
    &&& cfg.relay.max_messages_per_user > 0
    &&& cfg.relay.pull_batch_max > 0
    &&& cfg.relay.gc_interval_seconds > 0
    &&& (cfg.rate_limit.enabled ==> {
        &&& cfg.rate_limit.per_ip_rps > 0
        &&& cfg.rate_limit.burst > 0
        &&& cfg.rate_limit.endpoints.push_rps > 0
        &&& cfg.rate_limit.endpoints.pull_rps > 0
        &&& cfg.rate_limit.endpoints.ack_rps > 0
    })
}

/// A configuration is refused exactly when it breaks one of its rules.
pub proof fn lemma_config_refused_iff_rule_broken(cfg: RelayConfig)
    ensures
        config_problem(cfg) is None <==> config_rules_met(cfg),
{
}

/// With rate limiting on and every earlier rule met, a zero limit on any one
/// endpoint, push, pull or ack, is refused as a non-positive endpoint limit;
/// with rate limiting off, the endpoint limits are not looked at.
pub proof fn lemma_endpoint_limit_rule(cfg: RelayConfig)
    requires
        !is_blank_spec(cfg.address@),
        cfg.mode == RelayMode::Tls ==> cfg.tls is Some,
        cfg.relay.max_message_bytes > 0,
        cfg.relay.max_queue_bytes_per_user > 0,
        cfg.relay.max_messages_per_user > 0,
        cfg.relay.pull_batch_max > 0,
        cfg.relay.gc_interval_seconds > 0,
    ensures
        cfg.rate_limit.enabled && cfg.rate_limit.per_ip_rps > 0 && cfg.rate_limit.burst > 0 && (
        cfg.rate_limit.endpoints.push_rps == 0 || cfg.rate_limit.endpoints.pull_rps == 0
            || cfg.rate_limit.endpoints.ack_rps == 0) ==> config_problem(cfg) == Some(
            "endpoint rate limits must be positive"@,
        ),
        !cfg.rate_limit.enabled ==> config_problem(cfg) is None,
{
}

impl RelayConfig {
    /// The listening mode used when a configuration file names none.
    pub fn default_mode() -> (r: RelayMode)
        ensures
            r == RelayMode::Http,
    {
        RelayMode::Http
    }

    /// Checks the configuration; the error is a `Config` error that names the
    /// first rule broken.
    pub fn validate(&self) -> (r: Result<()>)
        ensures
            r is Ok <==> config_problem(*self) is None,
            r is Ok <==> config_rules_met(*self),
            r matches Err(e) ==> (e matches EnigmaRelayError::Config(m) && config_problem(*self)
                == Some(m@)),
    {
        if is_blank(self.address.as_str()) {
            return Err(EnigmaRelayError::Config(owned("address is required")));
        }
        match self.mode {
            RelayMode::Http => {},
            RelayMode::Tls => {
                if self.tls.is_none() {
                    return Err(EnigmaRelayError::Config(owned("tls mode requires tls config")));
                }
            },
        }
        if self.relay.max_message_bytes == 0 {
            return Err(EnigmaRelayError::Config(owned("max_message_bytes must be positive")));
        }
        if self.relay.max_queue_bytes_per_user == 0 {
            return Err(
                EnigmaRelayError::Config(owned("max_queue_bytes_per_user must be positive")),
            );
        }
        if self.relay.max_messages_per_user == 0 {
            return Err(EnigmaRelayError::Config(owned("max_messages_per_user must be positive")));
        }
        if self.relay.pull_batch_max == 0 {
            return Err(EnigmaRelayError::Config(owned("pull_batch_max must be positive")));
        }
        if self.relay.gc_interval_seconds == 0 {
            return Err(EnigmaRelayError::Config(owned("gc_interval_seconds must be positive")));
        }
        if self.rate_limit.enabled {
            if self.rate_limit.per_ip_rps == 0 {
                return Err(EnigmaRelayError::Config(owned("rate_limit.per_ip_rps must be positive")));
            }
            if self.rate_limit.burst == 0 {
                return Err(EnigmaRelayError::Config(owned("rate_limit.burst must be positive")));
            }
            if self.rate_limit.endpoints.push_rps == 0 || self.rate_limit.endpoints.pull_rps == 0
                || self.rate_limit.endpoints.ack_rps == 0 {
                return Err(EnigmaRelayError::Config(owned("endpoint rate limits must be positive")));
            }
        }
        match self.storage.kind {
            StorageKind::Sled => {},
            StorageKind::Memory => {},
        }
        Ok(())
    }
}

} // verus!
