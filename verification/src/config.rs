//! The transport-hardening knobs of the server configuration: cross-origin
//! policy, the token-bucket rate limit and optional TLS.

use vstd::prelude::*;

verus! {

/// How the gateway answers cross-origin requests. The default is enabled and
/// permissive (any origin).
#[derive(Clone, Copy, Debug, PartialEq, Eq, Structural)]
pub struct CorsConfig {
    /// Whether to mount a CORS layer at all.
    pub enabled: bool,
    /// Whether to allow any origin (`*`); when `false`, no origin is allowed.
    pub allow_any_origin: bool,
}

/// Enabled, any origin.
impl Default for CorsConfig {
    fn default() -> (r: CorsConfig)
        ensures
            r.enabled,
            r.allow_any_origin,
    {
        CorsConfig { enabled: true, allow_any_origin: true }
    }
}

/// A token-bucket rate limit applied across all clients: `capacity` is the
/// burst size, `refill_per_second` the steady-state rate.
#[derive(Clone, Copy, Debug, PartialEq, Eq, Structural)]
pub struct RateLimit {
    /// Maximum tokens (burst size); must be positive to have any effect.
    pub capacity: u32,
    /// Tokens replenished per second.
    pub refill_per_second: u32,
}

/// Paths to the PEM-encoded certificate chain and private key for TLS.
#[derive(Clone, Debug, PartialEq, Eq)]
pub struct TlsConfig {
    /// Path to the PEM certificate chain.
    pub cert_path: String,
    /// Path to the PEM private key.
    pub key_path: String,
}

} // verus!
