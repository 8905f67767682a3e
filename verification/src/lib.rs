//! Client library for the Serafort identity platform: local validation of
//! B2B access tokens with role and permission checks, login URLs, and the
//! decisions behind machine-to-machine token caching and retrying.
pub mod b2b;
pub mod base64;
pub mod cache;
pub mod errors;
pub mod json;
pub mod m2m;
pub mod scopes;
pub mod text;
pub mod types;

pub use errors::SerafortError;
pub use json::JsonValue;
pub use types::{OAuthResponse, RetryConfig, SerafortConfig, UserContext};
