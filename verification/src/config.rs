use vstd::prelude::*;

verus! {

/// Process configuration. Loading it from disk is the surrounding
/// application's business; the core only fixes the field set and the value
/// each field defaults to when the configuration file omits it.
#[derive(Debug, Clone)]
pub struct Config {
    pub host: String,
    pub port: u16,
    pub cors_allowed_origins: Vec<String>,
    pub database_file: String,
    pub static_file_root: String,
    pub static_file_index: String,
    pub enable_api_request_logging: bool,
}

pub fn default_host() -> (r: String)
    ensures
        r@ == "127.0.0.1"@,
{
    String::from_str("127.0.0.1")
}

pub fn default_port() -> (r: u16)
    ensures
        r == 8080,
{
    8080
}

pub fn default_cors_allowed_origins() -> (r: Vec<String>)
    ensures
        r@.len() == 0,
{
    Vec::new()
}

pub fn default_database_file() -> (r: String)
    ensures
        r@ == "./database.sqlite3"@,
{
    String::from_str("./database.sqlite3")
}

pub fn default_static_file_root() -> (r: String)
    ensures
        r@ == "./client/dist/"@,
{
    String::from_str("./client/dist/")
}

pub fn default_static_file_index() -> (r: String)
    ensures
        r@ == "index.html"@,
{
    String::from_str("index.html")
}

pub fn default_enable_api_request_logging() -> (r: bool)
    ensures
        r == true,
{
    true
}

impl Config {
    /// The configuration an empty configuration file yields.
    pub fn all_defaults() -> (r: Config)
        ensures
            r.host@ == "127.0.0.1"@,
            r.port == 8080,
            r.cors_allowed_origins@.len() == 0,
            r.database_file@ == "./database.sqlite3"@,
            r.static_file_root@ == "./client/dist/"@,
            r.static_file_index@ == "index.html"@,
            r.enable_api_request_logging == true,
    {
        Config {
            host: default_host(),
            port: default_port(),
            cors_allowed_origins: default_cors_allowed_origins(),
            database_file: default_database_file(),
            static_file_root: default_static_file_root(),
            static_file_index: default_static_file_index(),
            enable_api_request_logging: default_enable_api_request_logging(),
        }
    }
}

} // verus!
