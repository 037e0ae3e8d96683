//! Client configuration: the backend base URL and the user scope identifier.

use vstd::prelude::*;

verus! {

/// Configuration consumed by the client: loaded once at startup and
/// immutable for the session.
pub struct AppConfig {
    pub backend_url: String,
    pub user_id: String,
}

impl Default for AppConfig {
    /// The fallback configuration used when no configuration file is present.
    fn default() -> (r: AppConfig)
        ensures
            r.backend_url@ == "http://localhost:8000"@,
            r.user_id@ == "default-user"@,
    {
        AppConfig {
            backend_url: String::from_str("http://localhost:8000"),
            user_id: String::from_str("default-user"),
        }
    }
}

} // verus!
