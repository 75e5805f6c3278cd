use vstd::prelude::*;

verus! {

/// Where the server listens, and the certificate material that turns on secure transport.
pub struct Config {
    pub addr: String,
    pub port: u16,
    pub cert_path: Option<String>,
    pub key_path: Option<String>,
}

/// The port the server listens on unless configured otherwise.
pub const DEFAULT_PORT: u16 = 49152;

impl Default for Config {
    /// Listens on every interface at `DEFAULT_PORT`, without certificate material.
    fn default() -> (r: Config)
        ensures
            r.addr@ == "0.0.0.0"@,
            r.port == DEFAULT_PORT,
            r.cert_path is None,
            r.key_path is None,
    {
        proof {
            reveal_strlit("0.0.0.0");
        }
        Config { addr: "0.0.0.0".to_owned(), port: DEFAULT_PORT, cert_path: None, key_path: None }
    }
}

impl Config {
    /// Whether connections are wrapped in a secure channel: only when both the certificate
    /// and its private key are configured. Otherwise the server runs in plaintext.
    pub fn is_secure(&self) -> (r: bool)
        ensures
            r == (self.cert_path is Some && self.key_path is Some),
    {
        self.cert_path.is_some() && self.key_path.is_some()
    }
}

#[verifier::external_type_specification]
#[verifier::external_body]
pub struct ExProjectDirs(directories::ProjectDirs);

/// Relies on directories::ProjectDirs::from: the directories of this application, or `None`
/// when the system gives no home directory. What they are depends on the environment.
pub assume_specification[ directories::ProjectDirs::from ](
    qualifier: &str,
    organization: &str,
    application: &str,
) -> Option<directories::ProjectDirs>;

/// Relies on directories::ProjectDirs::config_dir, read as text.
#[verifier::external_body]
fn config_dir_of(d: &directories::ProjectDirs) -> String {
    d.config_dir().to_string_lossy().into_owned()
}

/// Relies on directories::ProjectDirs::data_dir, read as text.
#[verifier::external_body]
fn data_dir_of(d: &directories::ProjectDirs) -> String {
    d.data_dir().to_string_lossy().into_owned()
}

/// Relies on directories::ProjectDirs::cache_dir, read as text.
#[verifier::external_body]
fn cache_dir_of(d: &directories::ProjectDirs) -> String {
    d.cache_dir().to_string_lossy().into_owned()
}

/// This application's directories, where the system has a home directory.
fn project_dirs() -> Option<directories::ProjectDirs> {
    directories::ProjectDirs::from("com", "linuxman", "fsync")
}

/// The directory that holds the configuration file; `None` without a home directory.
pub fn config_dir() -> (r: Option<String>) {
    match project_dirs() {
        Some(d) => Some(config_dir_of(&d)),
        None => None,
    }
}

/// The directory for the server's data; `None` without a home directory.
pub fn data_dir() -> (r: Option<String>) {
    match project_dirs() {
        Some(d) => Some(data_dir_of(&d)),
        None => None,
    }
}

/// The directory for cached files; `None` without a home directory.
pub fn cache_dir() -> (r: Option<String>) {
    match project_dirs() {
        Some(d) => Some(cache_dir_of(&d)),
        None => None,
    }
}

} // verus!
