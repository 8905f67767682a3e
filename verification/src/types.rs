//! Configuration and the data that the library hands out.
use vstd::prelude::*;
use vstd::string::*;
use crate::json::JsonValue;

verus! {

/// The user that a validated token describes.
#[derive(Debug)]
pub struct UserContext {
    pub user_id: String,
    pub tenant_id: String,
    pub email: Option<String>,
    pub roles: Vec<String>,
    pub permissions: Vec<String>,
    pub claims: JsonValue,
}

/// How often, and how patiently, a token request is retried.
#[derive(Clone, Debug)]
pub struct RetryConfig {
    pub max_retries: u32,
    pub initial_delay_ms: u64,
    pub max_delay_ms: u64,
}

impl Default for RetryConfig {
    /// Three retries, starting at half a second and capped at five seconds.
    fn default() -> (r: Self)
        ensures
            r.max_retries == 3,
            r.initial_delay_ms == 500,
            r.max_delay_ms == 5000,
    {
        RetryConfig { max_retries: 3, initial_delay_ms: 500, max_delay_ms: 5000 }
    }
}

/// Where the identity service is and how to authenticate to it.
#[derive(Clone, Debug)]
pub struct SerafortConfig {
    pub endpoint: String,
    pub client_id: Option<String>,
    pub client_secret: Option<String>,
    pub timeout_seconds: u64,
    pub retry: RetryConfig,
}

impl SerafortConfig {
    /// A configuration for `endpoint`, without client credentials, with a ten
    /// second timeout and the default retry policy.
    pub fn new(endpoint: &str) -> (r: Self)
        ensures
            r.endpoint@ == endpoint@,
            r.client_id is None,
            r.client_secret is None,
            r.timeout_seconds == 10,
            r.retry.max_retries == 3,
            r.retry.initial_delay_ms == 500,
            r.retry.max_delay_ms == 5000,
    {
        SerafortConfig {
            endpoint: String::from_str(endpoint),
            client_id: None,
            client_secret: None,
            timeout_seconds: 10,
            retry: RetryConfig::default(),
        }
    }

    /// The same configuration with the given client credentials.
    pub fn with_client_credentials(self, client_id: &str, client_secret: &str) -> (r: Self)
        ensures
            r.endpoint == self.endpoint,
            r.client_id matches Some(id) && id@ == client_id@,
            r.client_secret matches Some(secret) && secret@ == client_secret@,
            r.timeout_seconds == self.timeout_seconds,
            r.retry == self.retry,
    {
        let mut config = self;
        config.client_id = Some(String::from_str(client_id));
        config.client_secret = Some(String::from_str(client_secret));
        config
    }
}

/// What the token endpoint answers on success.
#[derive(Debug)]
pub struct OAuthResponse {
    pub access_token: String,
    pub expires_in: Option<u64>,
    pub scope: Option<String>,
}

} // verus!
