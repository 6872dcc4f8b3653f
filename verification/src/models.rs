//! Configuration data: the service entries the operator configures, the
//! global settings, and the cookie-refresh request description. Loading and
//! storing these lives with the caller; the library works on the values.

use vstd::prelude::*;

verus! {

/// The global settings block of the configuration file.
#[derive(Clone)]
pub struct GlobalConfig {
    pub log_level: Option<String>,
    pub locale: Option<String>,
    pub enable_history: Option<bool>,
    pub check_update: Option<bool>,
    pub timeout: Option<u64>,
}

/// One configured service: address, credentials, job-name filters.
#[derive(Clone)]
pub struct JenkinsConfig {
    pub name: String,
    pub url: String,
    pub user: String,
    pub token: String,
    pub cookie: String,
    pub cookie_refresh: Option<CookieRefreshConfig>,
    pub includes: Vec<String>,
    pub excludes: Vec<String>,
    pub enable_history: Option<bool>,
}

/// The operator-scripted request that mints a fresh session token.
#[derive(Clone)]
pub struct CookieRefreshConfig {
    pub url: String,
    pub method: String,
    pub request: CookieRefreshRequest,
    /// Cookie name to extraction specification.
    pub cookie_updates: Vec<(String, String)>,
}

/// The templated parameters of the refresh request; form and JSON bodies
/// are mutually exclusive.
#[derive(Clone)]
pub struct CookieRefreshRequest {
    pub query: Vec<(String, String)>,
    pub form: Vec<(String, String)>,
    pub json: Vec<(String, String)>,
}

/// The whole configuration: global settings, all services, and the service
/// selected for this run.
pub struct Config {
    pub global: Option<GlobalConfig>,
    pub services: Vec<JenkinsConfig>,
    pub jenkins: Option<JenkinsConfig>,
}

/// Whether a service entry carries enough to authenticate: a cookie, or a
/// user together with a token.
pub fn has_valid_auth(c: &JenkinsConfig) -> (r: bool)
    ensures
        r == (c.cookie@.len() > 0 || (c.user@.len() > 0 && c.token@.len() > 0)),
{
    let has_cookie = c.cookie.as_str().unicode_len() > 0;
    let has_basic = c.user.as_str().unicode_len() > 0 && c.token.as_str().unicode_len() > 0;
    has_cookie || has_basic
}

} // verus!
